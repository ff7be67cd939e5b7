//! Node reordering of a CSR graph: degree sort and reverse Cuthill-McKee.
//!
//! Both compute a new number for every node, renumber the edges whose
//! target is a node of the graph (edges to targets outside it are dropped),
//! sort the renumbered edges and rebuild the CSR arrays.
use vstd::prelude::*;
use crate::csr::{csr_offsets, csr_offsets_ok, lemma_sorted_of, lemma_sorted_of_exists, nondecreasing, sorted_of};
use crate::sort::{pair_le, sort_pairs, sorted_pairs};

verus! {

broadcast use vstd::seq_lib::group_to_multiset_ensures, vstd::multiset::group_multiset_axioms;

/// `offs` and `cols` are CSR arrays over `n` nodes: `n + 1` non-decreasing
/// offsets, the last within the column array.
pub open spec fn valid_csr(n: int, offs: Seq<u32>, cols: Seq<u32>) -> bool {
    &&& offs.len() >= n + 1
    &&& forall|i: int| 0 <= i < n ==> #[trigger] offs[i] <= offs[i + 1]
    &&& offs[n] <= cols.len()
}

/// The out-degree of node `u`.
pub open spec fn degree(offs: Seq<u32>, u: int) -> int {
    offs[u + 1] - offs[u]
}

/// The renumbered edges of row `u` at positions `offs[u] .. k` whose
/// target is a node of the graph.
pub open spec fn row_part(n: int, offs: Seq<u32>, cols: Seq<u32>, lab: Seq<u32>, u: int, k: int) -> Seq<(u64, u64)>
    decreases k - offs[u],
{
    if k <= offs[u] {
        seq![]
    } else {
        let prev = row_part(n, offs, cols, lab, u, k - 1);
        let v = cols[k - 1] as int;
        if v < n {
            prev.push((lab[u] as u64, lab[v] as u64))
        } else {
            prev
        }
    }
}

/// The renumbered edges of rows `0 .. u`, row by row.
pub open spec fn all_rows(n: int, offs: Seq<u32>, cols: Seq<u32>, lab: Seq<u32>, u: int) -> Seq<(u64, u64)>
    decreases u,
{
    if u <= 0 {
        seq![]
    } else {
        all_rows(n, offs, cols, lab, u - 1) + row_part(n, offs, cols, lab, u - 1, offs[u] as int)
    }
}

/// Every renumbered edge has a source below `n`.
pub open spec fn sources_below(n: int, offs: Seq<u32>, cols: Seq<u32>, lab: Seq<u32>) -> bool {
    forall|k: int|
        0 <= k < all_rows(n, offs, cols, lab, n).len() ==> (#[trigger] all_rows(n, offs, cols, lab, n)[k]).0 < n
}

/// The CSR arrays of the renumbered edges in sorted order.
pub open spec fn relabeled_csr(n: int, offs: Seq<u32>, cols: Seq<u32>, lab: Seq<u32>, r: (Seq<u32>, Seq<u32>)) -> bool {
    let es = sorted_of(all_rows(n, offs, cols, lab, n));
    &&& csr_offsets_ok(es.map_values(|p: (u64, u64)| p.0 as u32), n, r.0)
    &&& r.1 == es.map_values(|p: (u64, u64)| p.1 as u32)
}

/// New numbers from an order of old nodes: the node at position `j` gets
/// number `j` (a later position wins; unlisted nodes keep 0).
pub open spec fn labels_fold(order: Seq<int>, n: int, j: int) -> Seq<u32>
    decreases j,
{
    if j <= 0 {
        Seq::new(n as nat, |i: int| 0u32)
    } else {
        labels_fold(order, n, j - 1).update(order[j - 1], (j - 1) as u32)
    }
}

pub open spec fn labels_of(order: Seq<int>, n: int) -> Seq<u32> {
    labels_fold(order, n, order.len() as int)
}

pub proof fn lemma_offs_mono(n: int, offs: Seq<u32>, cols: Seq<u32>, i: int, j: int)
    requires
        valid_csr(n, offs, cols),
        0 <= i <= j <= n,
    ensures
        offs[i] <= offs[j],
    decreases j - i,
{
    if i < j {
        lemma_offs_mono(n, offs, cols, i + 1, j);
    }
}

proof fn lemma_row_part_bound(n: int, offs: Seq<u32>, cols: Seq<u32>, lab: Seq<u32>, u: int, k: int)
    requires
        k >= offs[u],
    ensures
        row_part(n, offs, cols, lab, u, k).len() <= k - offs[u],
    decreases k - offs[u],
{
    if k > offs[u] {
        lemma_row_part_bound(n, offs, cols, lab, u, k - 1);
    }
}

proof fn lemma_all_rows_bound(n: int, offs: Seq<u32>, cols: Seq<u32>, lab: Seq<u32>, u: int)
    requires
        0 <= u <= n,
        valid_csr(n, offs, cols),
    ensures
        all_rows(n, offs, cols, lab, u).len() <= offs[u] - offs[0],
    decreases u,
{
    if u > 0 {
        lemma_all_rows_bound(n, offs, cols, lab, u - 1);
        lemma_row_part_bound(n, offs, cols, lab, u - 1, offs[u] as int);
    }
}

/// Renumbers the edges by `lab`, sorts them and rebuilds the CSR arrays.
fn relabel(n: usize, offs: &[u32], cols: &[u32], lab: &[u32]) -> (r: (Vec<u32>, Vec<u32>))
    requires
        valid_csr(n as int, offs@, cols@),
        n <= u32::MAX,
        lab.len() == n,
        cols.len() <= u32::MAX,
        sources_below(n as int, offs@, cols@, lab@),
    ensures
        relabeled_csr(n as int, offs@, cols@, lab@, (r.0@, r.1@)),
{
    let edges = renumbered_edges(n, offs, cols, lab);
    csr_of_renumbered(n, offs, cols, lab, edges)
}

/// Whether every renumbered edge has a source below `n`.
fn sources_fit(n: usize, offs: &[u32], cols: &[u32], lab: &[u32], edges: &Vec<(u64, u64)>) -> (b: bool)
    requires
        edges@ == all_rows(n as int, offs@, cols@, lab@, n as int),
    ensures
        b == sources_below(n as int, offs@, cols@, lab@),
{
    let mut k: usize = 0;
    while k < edges.len()
        invariant
            k <= edges.len(),
            edges@ == all_rows(n as int, offs@, cols@, lab@, n as int),
            forall|q: int| 0 <= q < k ==> (#[trigger] edges@[q]).0 < n,
        decreases edges.len() - k,
    {
        if edges[k].0 >= n as u64 {
            assert(all_rows(n as int, offs@, cols@, lab@, n as int)[k as int].0 >= n);
            return false;
        }
        k = k + 1;
    }
    true
}

/// The edges renumbered by `lab`, row by row, those to targets outside
/// the graph dropped.
fn renumbered_edges(n: usize, offs: &[u32], cols: &[u32], lab: &[u32]) -> (edges: Vec<(u64, u64)>)
    requires
        valid_csr(n as int, offs@, cols@),
        lab.len() == n,
    ensures
        edges@ == all_rows(n as int, offs@, cols@, lab@, n as int),
{
    let mut edges: Vec<(u64, u64)> = Vec::new();
    let mut u: usize = 0;
    while u < n
        invariant
            u <= n,
            valid_csr(n as int, offs@, cols@),
            lab.len() == n,
            edges@ == all_rows(n as int, offs@, cols@, lab@, u as int),
        decreases n - u,
    {
        proof {
            lemma_offs_mono(n as int, offs@, cols@, u + 1, n as int);
        }
        let start = offs[u] as usize;
        let end = offs[u + 1] as usize;
        let mut k = start;
        let ghost before = edges@;
        assert(row_part(n as int, offs@, cols@, lab@, u as int, start as int) =~= Seq::<(u64, u64)>::empty());
        while k < end
            invariant
                start <= k <= end,
                end <= cols.len(),
                start == offs@[u as int],
                end == offs@[u + 1],
                u < n,
                lab.len() == n,
                edges@ == before + row_part(n as int, offs@, cols@, lab@, u as int, k as int),
            decreases end - k,
        {
            let v = cols[k] as usize;
            if v < n {
                edges.push((lab[u] as u64, lab[v] as u64));
            }
            k = k + 1;
            assert(edges@ =~= before + row_part(n as int, offs@, cols@, lab@, u as int, k as int));
        }
        u = u + 1;
    }
    edges
}

/// The CSR arrays of renumbered edges whose sources are all nodes.
fn csr_of_renumbered(n: usize, offs: &[u32], cols: &[u32], lab: &[u32], edges: Vec<(u64, u64)>) -> (r: (Vec<u32>, Vec<u32>))
    requires
        valid_csr(n as int, offs@, cols@),
        n <= u32::MAX,
        lab.len() == n,
        cols.len() <= u32::MAX,
        edges@ == all_rows(n as int, offs@, cols@, lab@, n as int),
        sources_below(n as int, offs@, cols@, lab@),
    ensures
        relabeled_csr(n as int, offs@, cols@, lab@, (r.0@, r.1@)),
{
    let ghost all = all_rows(n as int, offs@, cols@, lab@, n as int);
    proof {
        lemma_all_rows_bound(n as int, offs@, cols@, lab@, n as int);
    }
    let sorted = sort_pairs(edges.as_slice());
    proof {
        lemma_sorted_of(all, sorted@);
        assert(sorted@.to_multiset().len() == sorted@.len());
        assert(all.to_multiset().len() == all.len());
        lemma_offs_mono(n as int, offs@, cols@, 0, n as int);
        assert(sorted@.len() <= u32::MAX);
    }
    let ghost es = sorted@;
    let mut srcs: Vec<u32> = Vec::new();
    let mut tgts: Vec<u32> = Vec::new();
    let mut j: usize = 0;
    while j < sorted.len()
        invariant
            j <= sorted.len(),
            es == sorted@,
            srcs@ == es.take(j as int).map_values(|p: (u64, u64)| p.0 as u32),
            tgts@ == es.take(j as int).map_values(|p: (u64, u64)| p.1 as u32),
        decreases sorted.len() - j,
    {
        srcs.push(sorted[j].0 as u32);
        tgts.push(sorted[j].1 as u32);
        j = j + 1;
        assert(srcs@ =~= es.take(j as int).map_values(|p: (u64, u64)| p.0 as u32));
        assert(tgts@ =~= es.take(j as int).map_values(|p: (u64, u64)| p.1 as u32));
    }
    assert(es.take(es.len() as int) =~= es);
    proof {
        assert forall|k: int| 0 <= k < es.len() implies #[trigger] es[k].0 < n by {
            assert(es.to_multiset().count(es[k]) > 0);
            assert(all.contains(es[k]));
            let q = choose|q: int| 0 <= q < all.len() && all[q] == es[k];
            assert(all[q].0 < n);
        }
        let sv = srcs@;
        assert forall|a: int, b: int| 0 <= a <= b < sv.len() implies sv[a] <= sv[b] by {
            assert(es[a].0 < n && es[b].0 < n);
            assert(sv[a] == es[a].0 as u32);
            assert(sv[b] == es[b].0 as u32);
            if a < b {
                assert(pair_le(es[a], es[b]));
            }
        }
        assert forall|k: int| 0 <= k < sv.len() implies sv[k] < n by {
            assert(es[k].0 < n);
        }
        assert(nondecreasing(sv));
    }
    let off = csr_offsets(srcs.as_slice(), n);
    (off, tgts)
}

// ---------------------------------------------------------------------------
// Degree sort
// ---------------------------------------------------------------------------

/// Nodes by degree, highest first; equal degrees keep their numbering.
pub open spec fn degree_order(n: int, offs: Seq<u32>) -> Seq<int> {
    sorted_of(Seq::new(n as nat, |i: int| ((u32::MAX - degree(offs, i)) as u64, i as u64))).map_values(
        |p: (u64, u64)| p.1 as int,
    )
}

/// Numbers the nodes from `order` and rebuilds the CSR arrays.
fn labels_from_order(order: &Vec<usize>, n: usize) -> (lab: Vec<u32>)
    requires
        forall|j: int| 0 <= j < order.len() ==> order@[j] < n,
    ensures
        lab@ == labels_of(order@.map_values(|x: usize| x as int), n as int),
        lab.len() == n,
{
    let ghost ov = order@.map_values(|x: usize| x as int);
    let mut lab: Vec<u32> = Vec::new();
    let mut i: usize = 0;
    while i < n
        invariant
            i <= n,
            lab@ == Seq::new(i as nat, |q: int| 0u32),
        decreases n - i,
    {
        lab.push(0);
        i = i + 1;
        assert(lab@ =~= Seq::new(i as nat, |q: int| 0u32));
    }
    assert(lab@ =~= labels_fold(ov, n as int, 0));
    let mut j: usize = 0;
    while j < order.len()
        invariant
            j <= order.len(),
            ov == order@.map_values(|x: usize| x as int),
            forall|q: int| 0 <= q < order.len() ==> order@[q] < n,
            lab@ == labels_fold(ov, n as int, j as int),
            lab.len() == n,
        decreases order.len() - j,
    {
        #[verifier::truncate]
        let label = j as u32;
        lab.set(order[j], label);
        j = j + 1;
    }
    lab
}

/// Degree sort: node numbers by decreasing degree (ties in numbering
/// order), then the renumbered CSR.
pub fn apply_degree_sort(node_count: usize, row_offsets: &[u32], col_indices: &[u32]) -> (r: (Vec<u32>, Vec<u32>))
    requires
        valid_csr(node_count as int, row_offsets@, col_indices@),
        col_indices.len() <= u32::MAX,
        node_count <= u32::MAX,
    ensures
        relabeled_csr(
            node_count as int,
            row_offsets@,
            col_indices@,
            labels_of(degree_order(node_count as int, row_offsets@), node_count as int),
            (r.0@, r.1@),
        ),
{
    let n = node_count;
    let ghost keys = Seq::new(n as nat, |i: int| ((u32::MAX - degree(row_offsets@, i)) as u64, i as u64));
    let mut kv: Vec<(u64, u64)> = Vec::new();
    let mut i: usize = 0;
    while i < n
        invariant
            i <= n,
            valid_csr(n as int, row_offsets@, col_indices@),
            keys == Seq::new(n as nat, |i: int| ((u32::MAX - degree(row_offsets@, i)) as u64, i as u64)),
            kv@ == keys.take(i as int),
        decreases n - i,
    {
        let d = row_offsets[i + 1] - row_offsets[i];
        kv.push(((u32::MAX - d) as u64, i as u64));
        i = i + 1;
        assert(kv@ =~= keys.take(i as int));
    }
    assert(kv@ =~= keys);
    let sorted = sort_pairs(kv.as_slice());
    proof {
        lemma_sorted_of(keys, sorted@);
        assert(sorted@.to_multiset().len() == sorted@.len());
        assert(keys.to_multiset().len() == keys.len());
    }
    let mut order: Vec<usize> = Vec::new();
    let mut j: usize = 0;
    while j < sorted.len()
        invariant
            j <= sorted.len(),
            sorted@.len() == n,
            sorted@ == sorted_of(keys),
            keys.len() == n,
            keys == Seq::new(n as nat, |i: int| ((u32::MAX - degree(row_offsets@, i)) as u64, i as u64)),
            sorted@.to_multiset() == keys.to_multiset(),
            order@.len() == j,
            forall|q: int| 0 <= q < j ==> #[trigger] order@[q] == sorted@[q].1 && order@[q] < n,
        decreases sorted.len() - j,
    {
        proof {
            assert(sorted@.to_multiset().count(sorted@[j as int]) > 0);
            assert(keys.contains(sorted@[j as int]));
            let q = choose|q: int| 0 <= q < keys.len() && keys[q] == sorted@[j as int];
            assert(keys[q].1 == q);
        }
        order.push(sorted[j].1 as usize);
        j = j + 1;
    }
    assert(order@.map_values(|x: usize| x as int) =~= degree_order(n as int, row_offsets@));
    let lab = labels_from_order(&order, n);
    proof {
        let ov = order@.map_values(|x: usize| x as int);
        lemma_labels_bound(ov, n as int, ov.len() as int);
        let all = all_rows(n as int, row_offsets@, col_indices@, lab@, n as int);
        lemma_all_rows_sources(n as int, row_offsets@, col_indices@, lab@, n as int);
    }
    relabel(n, row_offsets, col_indices, lab.as_slice())
}

proof fn lemma_labels_bound(order: Seq<int>, n: int, j: int)
    requires
        0 <= j <= order.len(),
        j <= n,
        forall|q: int| 0 <= q < order.len() ==> 0 <= #[trigger] order[q] < n,
    ensures
        labels_fold(order, n, j).len() == n,
        forall|x: int| 0 <= x < n ==> #[trigger] labels_fold(order, n, j)[x] < n,
    decreases j,
{
    if j > 0 {
        lemma_labels_bound(order, n, j - 1);
    }
}

proof fn lemma_all_rows_sources(n: int, offs: Seq<u32>, cols: Seq<u32>, lab: Seq<u32>, u: int)
    requires
        0 <= u <= n,
        valid_csr(n, offs, cols),
        lab.len() == n,
        forall|x: int| 0 <= x < n ==> #[trigger] lab[x] < n,
    ensures
        forall|k: int|
            0 <= k < all_rows(n, offs, cols, lab, u).len() ==> (#[trigger] all_rows(n, offs, cols, lab, u)[k]).0 < n,
    decreases u,
{
    if u > 0 {
        lemma_all_rows_sources(n, offs, cols, lab, u - 1);
        lemma_row_part_sources(n, offs, cols, lab, u - 1, offs[u] as int);
        let a = all_rows(n, offs, cols, lab, u - 1);
        let b = row_part(n, offs, cols, lab, u - 1, offs[u] as int);
        assert(all_rows(n, offs, cols, lab, u) == a + b);
        assert forall|k: int| 0 <= k < (a + b).len() implies (#[trigger] (a + b)[k]).0 < n by {
            if k < a.len() {
                assert((a + b)[k] == a[k]);
            } else {
                assert((a + b)[k] == b[k - a.len()]);
            }
        }
    }
}

proof fn lemma_row_part_sources(n: int, offs: Seq<u32>, cols: Seq<u32>, lab: Seq<u32>, u: int, k: int)
    requires
        0 <= u < n,
        lab.len() == n,
        lab[u] < n,
    ensures
        forall|q: int|
            0 <= q < row_part(n, offs, cols, lab, u, k).len() ==> (#[trigger] row_part(n, offs, cols, lab, u, k)[q]).0
                == lab[u],
    decreases k - offs[u],
{
    if k > offs[u] {
        lemma_row_part_sources(n, offs, cols, lab, u, k - 1);
        let prev = row_part(n, offs, cols, lab, u, k - 1);
        let v = cols[k - 1] as int;
        if v < n {
            assert(row_part(n, offs, cols, lab, u, k) == prev.push((lab[u] as u64, lab[v] as u64)));
            assert forall|q: int| 0 <= q < prev.len() + 1 implies (#[trigger] prev.push((lab[u] as u64, lab[v] as u64))[q]).0 == lab[u] by {
                if q < prev.len() {
                    assert(prev.push((lab[u] as u64, lab[v] as u64))[q] == prev[q]);
                }
            }
        } else {
            assert(row_part(n, offs, cols, lab, u, k) == prev);
        }
    }
}

// ---------------------------------------------------------------------------
// Reverse Cuthill-McKee
// ---------------------------------------------------------------------------

/// The number of unvisited nodes.
pub open spec fn count_false(s: Seq<bool>) -> nat
    decreases s.len(),
{
    if s.len() == 0 {
        0
    } else {
        count_false(s.drop_last()) + if s.last() {
            0nat
        } else {
            1nat
        }
    }
}

pub proof fn lemma_count_false_grow(s: Seq<bool>, t: Seq<bool>, i: int)
    requires
        s.len() == t.len(),
        forall|q: int| 0 <= q < s.len() && #[trigger] s[q] ==> t[q],
        0 <= i < s.len(),
        !s[i] && t[i],
    ensures
        count_false(t) < count_false(s),
    decreases s.len(),
{
    if i == s.len() - 1 {
        lemma_count_false_le(s.drop_last(), t.drop_last());
    } else {
        lemma_count_false_grow(s.drop_last(), t.drop_last(), i);
    }
}

pub proof fn lemma_count_false_le(s: Seq<bool>, t: Seq<bool>)
    requires
        s.len() == t.len(),
        forall|q: int| 0 <= q < s.len() && #[trigger] s[q] ==> t[q],
    ensures
        count_false(t) <= count_false(s),
    decreases s.len(),
{
    if s.len() > 0 {
        lemma_count_false_le(s.drop_last(), t.drop_last());
    }
}

/// The targets at positions `offs[u] .. k` of row `u` that are nodes of the
/// graph and not yet visited.
pub open spec fn fresh(n: int, offs: Seq<u32>, cols: Seq<u32>, vis: Seq<bool>, u: int, k: int) -> Seq<int>
    decreases k - offs[u],
{
    if k <= offs[u] {
        seq![]
    } else {
        let prev = fresh(n, offs, cols, vis, u, k - 1);
        let v = cols[k - 1] as int;
        if v < n && !vis[v] {
            prev.push(v)
        } else {
            prev
        }
    }
}

pub proof fn lemma_fresh(n: int, offs: Seq<u32>, cols: Seq<u32>, vis: Seq<bool>, u: int, k: int)
    ensures
        forall|q: int|
            0 <= q < fresh(n, offs, cols, vis, u, k).len() ==> 0 <= #[trigger] fresh(n, offs, cols, vis, u, k)[q] < n
                && !vis[fresh(n, offs, cols, vis, u, k)[q]],
    decreases k - offs[u],
{
    if k > offs[u] {
        lemma_fresh(n, offs, cols, vis, u, k - 1);
        let prev = fresh(n, offs, cols, vis, u, k - 1);
        let v = cols[k - 1] as int;
        if v < n && !vis[v] {
            assert forall|q: int| 0 <= q < prev.len() + 1 implies 0 <= #[trigger] prev.push(v)[q] < n && !vis[prev.push(v)[q]] by {
                if q < prev.len() {
                    assert(prev.push(v)[q] == prev[q]);
                }
            }
        }
    }
}

/// Marks the listed nodes visited.
pub open spec fn mark(vis: Seq<bool>, xs: Seq<int>) -> Seq<bool> {
    Seq::new(vis.len(), |i: int| vis[i] || xs.contains(i))
}

/// The nodes stably sorted by increasing degree.
pub open spec fn by_degree(offs: Seq<u32>, vs: Seq<int>) -> Seq<int> {
    sorted_of(Seq::new(vs.len(), |j: int| (degree(offs, vs[j]) as u64, j as u64))).map_values(
        |p: (u64, u64)| vs[p.1 as int],
    )
}

pub proof fn lemma_mark_progress(n: int, offs: Seq<u32>, cols: Seq<u32>, vis: Seq<bool>, u: int)
    requires
        vis.len() == n,
    ensures
        ({
            let fr = fresh(n, offs, cols, vis, u, offs[u + 1] as int);
            fr.len() > 0 ==> count_false(mark(vis, fr)) < count_false(vis)
        }),
{
    let fr = fresh(n, offs, cols, vis, u, offs[u + 1] as int);
    if fr.len() > 0 {
        lemma_fresh(n, offs, cols, vis, u, offs[u + 1] as int);
        let m = mark(vis, fr);
        assert(fr.contains(fr[0]));
        lemma_count_false_grow(vis, m, fr[0]);
    }
}

/// Breadth-first search from the queue: each node taken from the front is
/// appended to `order`, and its unvisited neighbours, by increasing degree,
/// are marked and queued.
pub open spec fn bfs(n: int, offs: Seq<u32>, cols: Seq<u32>, vis: Seq<bool>, queue: Seq<int>, order: Seq<int>) -> (Seq<bool>, Seq<int>)
    decreases count_false(vis), queue.len(),
{
    if queue.len() == 0 || vis.len() != n || !(0 <= queue[0] < n) {
        (vis, order)
    } else {
        let u = queue[0];
        let fr = fresh(n, offs, cols, vis, u, offs[u + 1] as int);
        proof {
            lemma_mark_progress(n, offs, cols, vis, u);
        }
        if fr.len() == 0 {
            bfs(n, offs, cols, vis, queue.drop_first(), order.push(u))
        } else {
            bfs(n, offs, cols, mark(vis, fr), queue.drop_first() + by_degree(offs, fr), order.push(u))
        }
    }
}

/// Start nodes by increasing degree (ties by number).
pub open spec fn rcm_starts(n: int, offs: Seq<u32>) -> Seq<int> {
    sorted_of(Seq::new(n as nat, |i: int| (degree(offs, i) as u64, i as u64))).map_values(
        |p: (u64, u64)| p.1 as int,
    )
}

/// A search from each start node not yet visited.
pub open spec fn rcm_outer(n: int, offs: Seq<u32>, cols: Seq<u32>, starts: Seq<int>, j: int, vis: Seq<bool>, order: Seq<int>) -> Seq<int>
    decreases starts.len() - j,
{
    if j >= starts.len() || j < 0 {
        order
    } else {
        let s = starts[j];
        if !(0 <= s < n) || vis.len() != n {
            order
        } else if vis[s] {
            rcm_outer(n, offs, cols, starts, j + 1, vis, order)
        } else {
            let (v2, o2) = bfs(n, offs, cols, vis.update(s, true), seq![s], order);
            rcm_outer(n, offs, cols, starts, j + 1, v2, o2)
        }
    }
}

/// The reverse Cuthill-McKee order: the search order, reversed.
pub open spec fn rcm_order(n: int, offs: Seq<u32>, cols: Seq<u32>) -> Seq<int> {
    rcm_outer(n, offs, cols, rcm_starts(n, offs), 0, Seq::new(n as nat, |i: int| false), seq![]).reverse()
}

pub open spec fn rcm_labels(n: int, offs: Seq<u32>, cols: Seq<u32>) -> Seq<u32> {
    labels_of(rcm_order(n, offs, cols), n)
}

pub open spec fn ints(v: Seq<usize>) -> Seq<int> {
    v.map_values(|x: usize| x as int)
}

/// Nodes sorted by the key `(degree, position)`; gives the positions.
fn sort_by_degree(offs: &[u32], n: usize, vs: &Vec<usize>) -> (r: Vec<usize>)
    requires
        offs@.len() >= n + 1,
        forall|i: int| 0 <= i < n ==> #[trigger] offs@[i] <= offs@[i + 1],
        forall|j: int| 0 <= j < vs.len() ==> #[trigger] vs@[j] < n,
    ensures
        ints(r@) == by_degree(offs@, ints(vs@)),
        forall|j: int| 0 <= j < r.len() ==> #[trigger] r@[j] < n,
        forall|x: int| ints(r@).contains(x) <==> ints(vs@).contains(x),
{
    let ghost vi = ints(vs@);
    let ghost keys = Seq::new(vi.len(), |j: int| (degree(offs@, vi[j]) as u64, j as u64));
    let mut kv: Vec<(u64, u64)> = Vec::new();
    let mut i: usize = 0;
    while i < vs.len()
        invariant
            i <= vs.len(),
            offs@.len() >= n + 1,
            forall|i: int| 0 <= i < n ==> #[trigger] offs@[i] <= offs@[i + 1],
            forall|j: int| 0 <= j < vs.len() ==> #[trigger] vs@[j] < n,
            vi == ints(vs@),
            vi.len() == vs.len(),
            keys == Seq::new(vi.len(), |j: int| (degree(offs@, vi[j]) as u64, j as u64)),
            kv@ == keys.take(i as int),
        decreases vs.len() - i,
    {
        let v = vs[i];
        let d = offs[v + 1] - offs[v];
        kv.push((d as u64, i as u64));
        i = i + 1;
        assert(kv@ =~= keys.take(i as int));
    }
    assert(kv@ =~= keys);
    let sorted = sort_pairs(kv.as_slice());
    proof {
        lemma_sorted_of(keys, sorted@);
        assert(sorted@.to_multiset().len() == sorted@.len());
        assert(keys.to_multiset().len() == keys.len());
    }
    let ghost so = sorted@;
    let mut r: Vec<usize> = Vec::new();
    let mut k: usize = 0;
    while k < sorted.len()
        invariant
            k <= sorted.len(),
            so == sorted@,
            so == sorted_of(keys),
            so.to_multiset() == keys.to_multiset(),
            keys == Seq::new(vi.len(), |j: int| (degree(offs@, vi[j]) as u64, j as u64)),
            vi == ints(vs@),
            vi.len() == vs.len(),
            forall|j: int| 0 <= j < vs.len() ==> #[trigger] vs@[j] < n,
            r@.len() == k,
            forall|q: int| 0 <= q < k ==> #[trigger] r@[q] == vs@[so[q].1 as int] && so[q].1 < vs.len(),
        decreases sorted.len() - k,
    {
        proof {
            assert(so.to_multiset().count(so[k as int]) > 0);
            assert(keys.contains(so[k as int]));
            let q = choose|q: int| 0 <= q < keys.len() && keys[q] == so[k as int];
            assert(keys[q].1 == q);
        }
        r.push(vs[sorted[k].1 as usize]);
        k = k + 1;
    }
    proof {
        assert(ints(r@) =~= by_degree(offs@, vi));
        assert forall|x: int| ints(r@).contains(x) implies vi.contains(x) by {
            let q = choose|q: int| 0 <= q < r@.len() && ints(r@)[q] == x;
            assert(vi[so[q].1 as int] == x);
        }
        assert forall|x: int| vi.contains(x) implies ints(r@).contains(x) by {
            let j = choose|j: int| 0 <= j < vi.len() && vi[j] == x;
            assert(keys.to_multiset().count(keys[j]) > 0);
            assert(so.contains(keys[j]));
            let q = choose|q: int| 0 <= q < so.len() && so[q] == keys[j];
            assert(ints(r@)[q] == x);
        }
    }
    r
}

/// The unvisited neighbours of `u` that are nodes of the graph, in row order.
fn collect_fresh(n: usize, row_offsets: &[u32], col_indices: &[u32], visited: &Vec<bool>, u: usize) -> (r: Vec<usize>)
    requires
        valid_csr(n as int, row_offsets@, col_indices@),
        u < n,
        visited@.len() == n,
    ensures
        ints(r@) == fresh(n as int, row_offsets@, col_indices@, visited@, u as int, row_offsets@[u + 1] as int),
        forall|q: int| 0 <= q < r.len() ==> #[trigger] r@[q] < n,
{
    let ghost offs = row_offsets@;
    let ghost cols = col_indices@;
    proof {
        lemma_offs_mono(n as int, offs, cols, u + 1, n as int);
    }
    let start = row_offsets[u] as usize;
    let end = row_offsets[u + 1] as usize;
    let mut nbrs: Vec<usize> = Vec::new();
    let mut k = start;
    assert(ints(nbrs@) =~= fresh(n as int, offs, cols, visited@, u as int, start as int));
    while k < end
        invariant
            start <= k <= end,
            end <= col_indices.len(),
            start == offs[u as int],
            end == offs[u + 1],
            offs == row_offsets@,
            u < n,
            cols == col_indices@,
            visited@.len() == n,
            forall|q: int| 0 <= q < nbrs.len() ==> #[trigger] nbrs@[q] < n,
            ints(nbrs@) == fresh(n as int, offs, cols, visited@, u as int, k as int),
        decreases end - k,
    {
        let v = col_indices[k] as usize;
        if v < n && !visited[v] {
            nbrs.push(v);
        }
        k = k + 1;
        assert(ints(nbrs@) =~= fresh(n as int, offs, cols, visited@, u as int, k as int));
    }
    nbrs
}

/// Marks the nodes `ns` visited and queues them, in order.
fn mark_and_queue(visited: &mut Vec<bool>, queue: &mut Vec<usize>, ns: &Vec<usize>, n: usize)
    requires
        old(visited)@.len() == n,
        forall|q: int| 0 <= q < ns.len() ==> #[trigger] ns@[q] < n,
        forall|q: int| 0 <= q < old(queue).len() ==> #[trigger] old(queue)@[q] < n,
    ensures
        final(visited)@ == mark(old(visited)@, ints(ns@)),
        ints(final(queue)@) == ints(old(queue)@) + ints(ns@),
        forall|q: int| 0 <= q < final(queue).len() ==> #[trigger] final(queue)@[q] < n,
{
    let ghost vb = visited@;
    let ghost qmid = ints(queue@);
    let ghost nsv = ints(ns@);
    let mut t: usize = 0;
    assert(visited@ =~= Seq::new(n as nat, |i: int| vb[i] || nsv.take(0).contains(i)));
    assert(ints(queue@) =~= qmid + nsv.take(0));
    while t < ns.len()
        invariant
            t <= ns.len(),
            nsv == ints(ns@),
            forall|q: int| 0 <= q < ns.len() ==> #[trigger] ns@[q] < n,
            vb.len() == n,
            visited@ == Seq::new(n as nat, |i: int| vb[i] || nsv.take(t as int).contains(i)),
            ints(queue@) == qmid + nsv.take(t as int),
            forall|q: int| 0 <= q < queue.len() ==> #[trigger] queue@[q] < n,
        decreases ns.len() - t,
    {
        let v = ns[t];
        let ghost before = visited@;
        let ghost qbefore = queue@;
        visited.set(v, true);
        queue.push(v);
        assert(ints(queue@) =~= ints(qbefore).push(v as int));
        t = t + 1;
        proof {
            let pa = nsv.take(t - 1);
            let pb = nsv.take(t as int);
            assert(pb =~= pa.push(v as int));
            assert forall|i: int| 0 <= i < n implies visited@[i] == (vb[i] || pb.contains(i)) by {
                if i == v {
                    assert(pb[t - 1] == i);
                } else {
                    assert(visited@[i] == before[i]);
                    if pb.contains(i) {
                        let w = choose|w: int| 0 <= w < pb.len() && pb[w] == i;
                        assert(pa[w] == i);
                    }
                    if pa.contains(i) {
                        let w = choose|w: int| 0 <= w < pa.len() && pa[w] == i;
                        assert(pb[w] == i);
                    }
                }
            }
            assert(visited@ =~= Seq::new(n as nat, |i: int| vb[i] || pb.contains(i)));
            assert(ints(queue@) =~= qmid + pb);
        }
    }
    assert(nsv.take(ns.len() as int) =~= nsv);
    assert(visited@ =~= mark(vb, nsv));
}

/// One step of the search: the node at the front of the queue is visited.
fn visit_one(
    n: usize,
    row_offsets: &[u32],
    col_indices: &[u32],
    visited: &mut Vec<bool>,
    queue: &mut Vec<usize>,
    head: usize,
    order: &mut Vec<usize>,
)
    requires
        valid_csr(n as int, row_offsets@, col_indices@),
        old(visited)@.len() == n,
        head < old(queue).len(),
        forall|q: int| 0 <= q < old(queue).len() ==> #[trigger] old(queue)@[q] < n,
        forall|q: int| 0 <= q < old(order).len() ==> #[trigger] old(order)@[q] < n,
    ensures
        final(visited)@.len() == n,
        forall|q: int| 0 <= q < final(queue).len() ==> #[trigger] final(queue)@[q] < n,
        forall|q: int| 0 <= q < final(order).len() ==> #[trigger] final(order)@[q] < n,
        bfs(n as int, row_offsets@, col_indices@, old(visited)@, ints(old(queue)@).skip(head as int), ints(old(order)@))
            == bfs(n as int, row_offsets@, col_indices@, final(visited)@, ints(final(queue)@).skip(head + 1), ints(final(order)@)),
        count_false(final(visited)@) < count_false(old(visited)@) || (final(visited)@ == old(visited)@
            && final(queue)@.len() == old(queue)@.len()),
        final(queue)@.len() >= old(queue)@.len(),
{
    let ghost offs = row_offsets@;
    let ghost cols = col_indices@;
    let ghost vb = visited@;
    let ghost qb = ints(queue@).skip(head as int);
    let ghost ob = ints(order@);
    let u = queue[head];
    order.push(u);
    let nbrs = collect_fresh(n, row_offsets, col_indices, visited, u);
    let ghost fr = ints(nbrs@);
    proof {
        lemma_mark_progress(n as int, offs, cols, vb, u as int);
        assert(ints(order@) =~= ob.push(u as int));
        assert(qb[0] == u as int);
    }
    if nbrs.len() > 0 {
        let ns = sort_by_degree(row_offsets, n, &nbrs);
        let ghost qmid = ints(queue@);
        mark_and_queue(visited, queue, &ns, n);
        proof {
            assert(mark(vb, ints(ns@)) =~= mark(vb, fr));
            assert(ints(queue@).skip(head + 1) =~= qb.drop_first() + by_degree(offs, fr));
        }
    } else {
        proof {
            assert(ints(queue@).skip(head + 1) =~= qb.drop_first());
        }
    }
}

/// The search from one start node.
fn search_from(
    n: usize,
    row_offsets: &[u32],
    col_indices: &[u32],
    visited: &mut Vec<bool>,
    s: usize,
    order: &mut Vec<usize>,
)
    requires
        valid_csr(n as int, row_offsets@, col_indices@),
        old(visited)@.len() == n,
        s < n,
        forall|q: int| 0 <= q < old(order).len() ==> #[trigger] old(order)@[q] < n,
    ensures
        final(visited)@.len() == n,
        forall|q: int| 0 <= q < final(order).len() ==> #[trigger] final(order)@[q] < n,
        (final(visited)@, ints(final(order)@)) == bfs(
            n as int,
            row_offsets@,
            col_indices@,
            old(visited)@.update(s as int, true),
            seq![s as int],
            ints(old(order)@),
        ),
{
    let ghost offs = row_offsets@;
    let ghost cols = col_indices@;
    visited.set(s, true);
    let mut queue: Vec<usize> = Vec::new();
    queue.push(s);
    let mut head: usize = 0;
    let ghost target = bfs(n as int, offs, cols, visited@, seq![s as int], ints(order@));
    assert(ints(queue@).skip(0) =~= seq![s as int]);
    while head < queue.len()
        invariant
            head <= queue.len(),
            offs == row_offsets@,
            cols == col_indices@,
            valid_csr(n as int, offs, cols),
            visited@.len() == n,
            forall|q: int| 0 <= q < queue.len() ==> #[trigger] queue@[q] < n,
            forall|q: int| 0 <= q < order.len() ==> #[trigger] order@[q] < n,
            target == bfs(n as int, offs, cols, visited@, ints(queue@).skip(head as int), ints(order@)),
        decreases count_false(visited@), queue.len() - head,
    {
        visit_one(n, row_offsets, col_indices, visited, &mut queue, head, order);
        head = head + 1;
    }
    assert(ints(queue@).skip(head as int) =~= Seq::<int>::empty());
}

/// Reverse Cuthill-McKee: a breadth-first search from every unvisited node
/// by increasing degree, visiting neighbours by increasing degree; nodes
/// are numbered in the reverse of the visiting order, then the CSR is
/// renumbered.  A node that several edges of one row lead to is queued
/// once per edge, so it is visited more than once; the renumbering accepts
/// no edge whose source then gets a number beyond the node count.
pub fn apply_rcm(node_count: usize, row_offsets: &[u32], col_indices: &[u32]) -> (r: (Vec<u32>, Vec<u32>))
    requires
        valid_csr(node_count as int, row_offsets@, col_indices@),
        col_indices.len() <= u32::MAX,
        node_count <= u32::MAX,
        sources_below(
            node_count as int,
            row_offsets@,
            col_indices@,
            rcm_labels(node_count as int, row_offsets@, col_indices@),
        ),
    ensures
        relabeled_csr(
            node_count as int,
            row_offsets@,
            col_indices@,
            rcm_labels(node_count as int, row_offsets@, col_indices@),
            (r.0@, r.1@),
        ),
{
    match try_apply_rcm(node_count, row_offsets, col_indices) {
        Some(x) => x,
        None => (Vec::new(), Vec::new()),
    }
}

/// The reverse Cuthill-McKee numbering of the nodes.
fn rcm_label_vec(node_count: usize, row_offsets: &[u32], col_indices: &[u32]) -> (lab: Vec<u32>)
    requires
        valid_csr(node_count as int, row_offsets@, col_indices@),
        node_count <= u32::MAX,
    ensures
        lab@ == rcm_labels(node_count as int, row_offsets@, col_indices@),
        lab.len() == node_count,
{
    let n = node_count;
    let ghost offs = row_offsets@;
    let ghost cols = col_indices@;
    let starts = rcm_start_nodes(n, row_offsets, col_indices);
    let ghost st = ints(starts@);
    let mut visited: Vec<bool> = Vec::new();
    let mut i: usize = 0;
    while i < n
        invariant
            i <= n,
            visited@ == Seq::new(i as nat, |q: int| false),
        decreases n - i,
    {
        visited.push(false);
        i = i + 1;
        assert(visited@ =~= Seq::new(i as nat, |q: int| false));
    }
    let mut order: Vec<usize> = Vec::new();
    let ghost total = rcm_outer(n as int, offs, cols, st, 0, visited@, seq![]);
    assert(ints(order@) =~= Seq::<int>::empty());
    let mut j: usize = 0;
    while j < starts.len()
        invariant
            j <= starts.len(),
            st == ints(starts@),
            forall|q: int| 0 <= q < starts.len() ==> #[trigger] starts@[q] < n,
            offs == row_offsets@,
            cols == col_indices@,
            valid_csr(n as int, offs, cols),
            visited@.len() == n,
            forall|q: int| 0 <= q < order.len() ==> #[trigger] order@[q] < n,
            total == rcm_outer(n as int, offs, cols, st, j as int, visited@, ints(order@)),
        decreases starts.len() - j,
    {
        let s = starts[j];
        if !visited[s] {
            search_from(n, row_offsets, col_indices, &mut visited, s, &mut order);
        }
        j = j + 1;
    }
    assert(total == ints(order@));
    let mut rev: Vec<usize> = Vec::new();
    let mut q: usize = order.len();
    while q > 0
        invariant
            q <= order.len(),
            forall|x: int| 0 <= x < order.len() ==> #[trigger] order@[x] < n,
            rev@.len() == order.len() - q,
            forall|x: int| 0 <= x < rev.len() ==> #[trigger] rev@[x] == order@[order.len() - 1 - x],
            forall|x: int| 0 <= x < rev.len() ==> #[trigger] rev@[x] < n,
        decreases q,
    {
        q = q - 1;
        rev.push(order[q]);
    }
    assert(ints(rev@) =~= ints(order@).reverse());
    assert(ints(rev@) == rcm_order(n as int, offs, cols));
    labels_from_order(&rev, n)
}

/// Reverse Cuthill-McKee on any CSR graph: `None` where a node that
/// several edges of one row lead to is numbered past the node count (the
/// renumbering cannot hold its edges), else what `apply_rcm` gives.
pub fn try_apply_rcm(node_count: usize, row_offsets: &[u32], col_indices: &[u32]) -> (r: Option<(Vec<u32>, Vec<u32>)>)
    requires
        valid_csr(node_count as int, row_offsets@, col_indices@),
        col_indices.len() <= u32::MAX,
        node_count <= u32::MAX,
    ensures
        r is None <==> !sources_below(
            node_count as int,
            row_offsets@,
            col_indices@,
            rcm_labels(node_count as int, row_offsets@, col_indices@),
        ),
        r matches Some(x) ==> relabeled_csr(
            node_count as int,
            row_offsets@,
            col_indices@,
            rcm_labels(node_count as int, row_offsets@, col_indices@),
            (x.0@, x.1@),
        ),
{
    let lab = rcm_label_vec(node_count, row_offsets, col_indices);
    let edges = renumbered_edges(node_count, row_offsets, col_indices, lab.as_slice());
    if !sources_fit(node_count, row_offsets, col_indices, lab.as_slice(), &edges) {
        return None;
    }
    Some(csr_of_renumbered(node_count, row_offsets, col_indices, lab.as_slice(), edges))
}

/// Whether `offs` and `cols` are CSR arrays over `n` nodes.
pub fn csr_is_valid(n: usize, offs: &[u32], cols: &[u32]) -> (b: bool)
    ensures
        b == valid_csr(n as int, offs@, cols@),
{
    if offs.len() < n || offs.len() - n < 1 {
        return false;
    }
    let mut i: usize = 0;
    while i < n
        invariant
            i <= n,
            offs.len() >= n + 1,
            forall|q: int| 0 <= q < i ==> #[trigger] offs@[q] <= offs@[q + 1],
        decreases n - i,
    {
        if offs[i] > offs[i + 1] {
            return false;
        }
        i = i + 1;
    }
    offs[n] as usize <= cols.len()
}

/// Node numbers by increasing degree, ties by number.
fn rcm_start_nodes(n: usize, row_offsets: &[u32], col_indices: &[u32]) -> (starts: Vec<usize>)
    requires
        valid_csr(n as int, row_offsets@, col_indices@),
    ensures
        ints(starts@) == rcm_starts(n as int, row_offsets@),
        forall|q: int| 0 <= q < starts.len() ==> #[trigger] starts@[q] < n,
{
    let ghost offs = row_offsets@;
    let ghost keys = Seq::new(n as nat, |i: int| (degree(offs, i) as u64, i as u64));
    let mut kv: Vec<(u64, u64)> = Vec::new();
    let mut i: usize = 0;
    while i < n
        invariant
            i <= n,
            offs == row_offsets@,
            valid_csr(n as int, offs, col_indices@),
            keys == Seq::new(n as nat, |i: int| (degree(offs, i) as u64, i as u64)),
            kv@ == keys.take(i as int),
        decreases n - i,
    {
        let d = row_offsets[i + 1] - row_offsets[i];
        kv.push((d as u64, i as u64));
        i = i + 1;
        assert(kv@ =~= keys.take(i as int));
    }
    assert(kv@ =~= keys);
    let sorted = sort_pairs(kv.as_slice());
    proof {
        lemma_sorted_of(keys, sorted@);
        assert(sorted@.to_multiset().len() == sorted@.len());
        assert(keys.to_multiset().len() == keys.len());
    }
    let mut starts: Vec<usize> = Vec::new();
    let mut j: usize = 0;
    while j < sorted.len()
        invariant
            j <= sorted.len(),
            sorted@.len() == n,
            sorted@ == sorted_of(keys),
            keys == Seq::new(n as nat, |i: int| (degree(offs, i) as u64, i as u64)),
            sorted@.to_multiset() == keys.to_multiset(),
            starts@.len() == j,
            forall|q: int| 0 <= q < j ==> #[trigger] starts@[q] == sorted@[q].1 && starts@[q] < n,
        decreases sorted.len() - j,
    {
        proof {
            assert(sorted@.to_multiset().count(sorted@[j as int]) > 0);
            assert(keys.contains(sorted@[j as int]));
            let q = choose|q: int| 0 <= q < keys.len() && keys[q] == sorted@[j as int];
            assert(keys[q].1 == q);
        }
        starts.push(sorted[j].1 as usize);
        j = j + 1;
    }
    assert(ints(starts@) =~= rcm_starts(n as int, offs));
    starts
}

// ---------------------------------------------------------------------------
// Laws
// ---------------------------------------------------------------------------

/// The new numbers are a one-to-one numbering of the nodes `0 .. n`.
pub open spec fn one_to_one_labels(lab: Seq<u32>, n: int) -> bool {
    &&& lab.len() == n
    &&& forall|x: int| 0 <= x < n ==> #[trigger] lab[x] < n
    &&& forall|x: int, y: int| 0 <= x < n && 0 <= y < n && x != y ==> lab[x] != lab[y]
}

/// `x` occurs in `order`.
pub open spec fn listed(order: Seq<int>, x: int) -> bool {
    exists|q: int| 0 <= q < order.len() && order[q] == x
}

proof fn lemma_labels_of_order(order: Seq<int>, n: int, j: int)
    requires
        0 <= j <= order.len(),
        n >= 0,
        order.no_duplicates(),
        forall|q: int| 0 <= q < order.len() ==> 0 <= #[trigger] order[q] < n,
        order.len() <= u32::MAX,
    ensures
        labels_fold(order, n, j).len() == n,
        forall|q: int| 0 <= q < j ==> labels_fold(order, n, j)[#[trigger] order[q]] == q,
    decreases j,
{
    if j > 0 {
        lemma_labels_of_order(order, n, j - 1);
        assert forall|q: int| 0 <= q < j implies labels_fold(order, n, j)[#[trigger] order[q]] == q by {
            if q < j - 1 {
                assert(order[q] != order[j - 1]);
            }
        }
    }
}

/// Row `u` lists each of its targets once.
pub open spec fn row_simple(offs: Seq<u32>, cols: Seq<u32>, u: int) -> bool {
    forall|a: int, b: int| offs[u] <= a < b < offs[u + 1] ==> #[trigger] cols[a] != #[trigger] cols[b]
}

/// No row lists a target twice.
pub open spec fn rows_simple(n: int, offs: Seq<u32>, cols: Seq<u32>) -> bool {
    forall|u: int| 0 <= u < n ==> #[trigger] row_simple(offs, cols, u)
}

proof fn lemma_fresh_distinct(n: int, offs: Seq<u32>, cols: Seq<u32>, vis: Seq<bool>, u: int, k: int)
    requires
        row_simple(offs, cols, u),
        offs[u] <= k <= offs[u + 1],
    ensures
        fresh(n, offs, cols, vis, u, k).no_duplicates(),
        forall|q: int, p: int|
            0 <= q < fresh(n, offs, cols, vis, u, k).len() && k <= p < offs[u + 1]
                ==> #[trigger] fresh(n, offs, cols, vis, u, k)[q] != #[trigger] cols[p] as int,
    decreases k - offs[u],
{
    if k > offs[u] {
        lemma_fresh_distinct(n, offs, cols, vis, u, k - 1);
        let prev = fresh(n, offs, cols, vis, u, k - 1);
        let v = cols[k - 1] as int;
        if v < n && !vis[v] {
            let f = prev.push(v);
            assert(f == fresh(n, offs, cols, vis, u, k));
            assert forall|q: int, p: int| 0 <= q < f.len() && k <= p < offs[u + 1] implies #[trigger] f[q] != #[trigger] cols[p] as int by {
                if q < prev.len() {
                    assert(f[q] == prev[q]);
                } else {
                    assert(cols[k - 1] != cols[p]);
                }
            }
            assert forall|a: int, b: int| 0 <= a < f.len() && 0 <= b < f.len() && a != b implies f[a] != f[b] by {
                if a < prev.len() && b < prev.len() {
                    assert(f[a] == prev[a] && f[b] == prev[b]);
                } else if a < prev.len() {
                    assert(f[a] == prev[a] && f[b] == v);
                    assert(prev[a] != cols[k - 1] as int);
                } else if b < prev.len() {
                    assert(f[b] == prev[b] && f[a] == v);
                    assert(prev[b] != cols[k - 1] as int);
                }
            }
        } else {
            assert(fresh(n, offs, cols, vis, u, k) == prev);
        }
    }
}

proof fn lemma_by_degree(offs: Seq<u32>, fr: Seq<int>)
    requires
        fr.no_duplicates(),
        fr.len() <= u64::MAX,
    ensures
        by_degree(offs, fr).len() == fr.len(),
        by_degree(offs, fr).no_duplicates(),
        forall|x: int| by_degree(offs, fr).contains(x) <==> fr.contains(x),
{
    let keys = Seq::new(fr.len(), |j: int| (degree(offs, fr[j]) as u64, j as u64));
    let sorted = sorted_of(keys);
    lemma_sorted_of_exists(keys);
    assert(keys.no_duplicates()) by {
        assert forall|a: int, b: int| 0 <= a < keys.len() && 0 <= b < keys.len() && a != b implies keys[a] != keys[b] by {
            assert(keys[a].1 == a as u64 && keys[b].1 == b as u64);
        }
    }
    keys.lemma_multiset_has_no_duplicates();
    assert forall|x: (u64, u64)| sorted.to_multiset().contains(x) implies sorted.to_multiset().count(x) == 1 by {
        assert(keys.to_multiset().contains(x));
    }
    sorted.lemma_multiset_has_no_duplicates_conv();
    assert forall|q: int| 0 <= q < sorted.len() implies #[trigger] sorted[q] == keys[sorted[q].1 as int] && sorted[q].1 < fr.len() by {
        assert(sorted.to_multiset().count(sorted[q]) > 0);
        assert(keys.contains(sorted[q]));
        let i = choose|i: int| 0 <= i < keys.len() && keys[i] == sorted[q];
        assert(keys[i].1 == i);
    }
    let bd = by_degree(offs, fr);
    assert forall|q: int| 0 <= q < bd.len() implies #[trigger] bd[q] == fr[sorted[q].1 as int] by {
    }
    assert(bd.no_duplicates()) by {
        assert forall|a: int, b: int| 0 <= a < bd.len() && 0 <= b < bd.len() && a != b implies bd[a] != bd[b] by {
            assert(sorted[a] == keys[sorted[a].1 as int] && sorted[a].1 < fr.len());
            assert(sorted[b] == keys[sorted[b].1 as int] && sorted[b].1 < fr.len());
            assert(sorted[a] != sorted[b]);
            assert(bd[a] == fr[sorted[a].1 as int]);
            assert(bd[b] == fr[sorted[b].1 as int]);
        }
    }
    assert forall|x: int| bd.contains(x) implies fr.contains(x) by {
        let q = choose|q: int| 0 <= q < bd.len() && bd[q] == x;
        assert(sorted[q] == keys[sorted[q].1 as int] && sorted[q].1 < fr.len());
        assert(bd[q] == fr[sorted[q].1 as int]);
    }
    assert forall|x: int| fr.contains(x) implies bd.contains(x) by {
        let j = choose|j: int| 0 <= j < fr.len() && fr[j] == x;
        assert(keys.to_multiset().count(keys[j]) > 0);
        assert(sorted.contains(keys[j]));
        let q = choose|q: int| 0 <= q < sorted.len() && sorted[q] == keys[j];
        assert(sorted[q].1 == j);
        assert(bd[q] == fr[j]);
    }
}

/// What a breadth-first search keeps: the visited nodes are exactly those
/// already in the order or still in the queue, and no node is in both or
/// in either twice.
pub open spec fn search_inv(n: int, vis: Seq<bool>, queue: Seq<int>, order: Seq<int>) -> bool {
    &&& vis.len() == n
    &&& order.no_duplicates()
    &&& queue.no_duplicates()
    &&& forall|i: int, j: int| 0 <= i < order.len() && 0 <= j < queue.len() ==> #[trigger] order[i] != #[trigger] queue[j]
    &&& forall|i: int| 0 <= i < order.len() ==> 0 <= #[trigger] order[i] < n
    &&& forall|i: int| 0 <= i < queue.len() ==> 0 <= #[trigger] queue[i] < n
    &&& forall|x: int| 0 <= x < n ==> (#[trigger] vis[x] <==> (order.contains(x) || queue.contains(x)))
}

/// Distinct nodes below `n` are at most `n` in number.
proof fn lemma_distinct_len(s: Seq<int>, n: int)
    requires
        n >= 0,
        s.no_duplicates(),
        forall|i: int| 0 <= i < s.len() ==> 0 <= #[trigger] s[i] < n,
    ensures
        s.len() <= n,
{
    s.unique_seq_to_set();
    vstd::set_lib::lemma_int_range(0, n);
    assert forall|x: int| s.to_set().contains(x) implies vstd::set_lib::set_int_range(0, n).contains(x) by {
        let i = choose|i: int| 0 <= i < s.len() && s[i] == x;
    }
    vstd::set_lib::lemma_len_subset(s.to_set(), vstd::set_lib::set_int_range(0, n));
}

proof fn lemma_bfs_inv(n: int, offs: Seq<u32>, cols: Seq<u32>, vis: Seq<bool>, queue: Seq<int>, order: Seq<int>)
    requires
        valid_csr(n, offs, cols),
        rows_simple(n, offs, cols),
        n <= u32::MAX,
        search_inv(n, vis, queue, order),
    ensures
        ({
            let (v2, o2) = bfs(n, offs, cols, vis, queue, order);
            &&& search_inv(n, v2, seq![], o2)
            &&& forall|x: int| 0 <= x < n && vis[x] ==> #[trigger] v2[x]
        }),
    decreases count_false(vis), queue.len(),
{
    if queue.len() == 0 {
        return;
    }
    let u = queue[0];
    assert(0 <= u < n);
    let fr = fresh(n, offs, cols, vis, u, offs[u + 1] as int);
    lemma_mark_progress(n, offs, cols, vis, u);
    lemma_offs_mono(n, offs, cols, u, u + 1);
    assert(row_simple(offs, cols, u));
    lemma_fresh_distinct(n, offs, cols, vis, u, offs[u + 1] as int);
    lemma_fresh(n, offs, cols, vis, u, offs[u + 1] as int);
    let rest = queue.drop_first();
    let order2 = order.push(u);
    assert(vis[u]) by {
        assert(queue.contains(u)) by {
            assert(queue[0] == u);
        }
    }
    assert(!order.contains(u)) by {
        if order.contains(u) {
            let i = choose|i: int| 0 <= i < order.len() && order[i] == u;
            assert(order[i] != queue[0]);
        }
    }
    assert(!rest.contains(u)) by {
        if rest.contains(u) {
            let j = choose|j: int| 0 <= j < rest.len() && rest[j] == u;
            assert(queue[j + 1] == u && queue[0] == u);
        }
    }
    assert(order2.no_duplicates()) by {
        assert forall|a: int, b: int| 0 <= a < order2.len() && 0 <= b < order2.len() && a != b implies order2[a] != order2[b] by {
            if a < order.len() && b < order.len() {
                assert(order2[a] == order[a] && order2[b] == order[b]);
            } else if a < order.len() {
                assert(order2[a] == order[a]);
                assert(order.contains(order[a]));
            } else if b < order.len() {
                assert(order2[b] == order[b]);
                assert(order.contains(order[b]));
            }
        }
    }
    if fr.len() == 0 {
        assert forall|i: int, j: int| 0 <= i < order2.len() && 0 <= j < rest.len() implies #[trigger] order2[i] != #[trigger] rest[j] by {
            assert(rest[j] == queue[j + 1]);
            if i < order.len() {
                assert(order2[i] == order[i]);
            } else {
                assert(rest.contains(rest[j]));
            }
        }
        assert forall|x: int| 0 <= x < n implies (#[trigger] vis[x] <==> (order2.contains(x) || rest.contains(x))) by {
            if queue.contains(x) {
                let j = choose|j: int| 0 <= j < queue.len() && queue[j] == x;
                if j > 0 {
                    assert(rest[j - 1] == x);
                } else {
                    assert(order2[order.len() as int] == x);
                }
            }
            if order.contains(x) {
                let i = choose|i: int| 0 <= i < order.len() && order[i] == x;
                assert(order2[i] == x);
            }
            if order2.contains(x) {
                let i = choose|i: int| 0 <= i < order2.len() && order2[i] == x;
                if i < order.len() {
                    assert(order[i] == x);
                } else {
                    assert(queue[0] == x);
                }
            }
            if rest.contains(x) {
                let j = choose|j: int| 0 <= j < rest.len() && rest[j] == x;
                assert(queue[j + 1] == x);
            }
        }
        assert(search_inv(n, vis, rest, order2));
        lemma_bfs_inv(n, offs, cols, vis, rest, order2);
    } else {
        let vis2 = mark(vis, fr);
        lemma_distinct_len(fr, n);
        lemma_by_degree(offs, fr);
        let bd = by_degree(offs, fr);
        let queue2 = rest + bd;
        assert forall|j: int| 0 <= j < bd.len() implies 0 <= #[trigger] bd[j] < n && !vis[bd[j]] by {
            assert(bd.contains(bd[j]));
            assert(fr.contains(bd[j]));
            let q = choose|q: int| 0 <= q < fr.len() && fr[q] == bd[j];
        }
        assert(queue2.no_duplicates()) by {
            assert forall|i: int, j: int| 0 <= i < rest.len() && 0 <= j < bd.len() implies rest[i] != bd[j] by {
                assert(rest[i] == queue[i + 1]);
                assert(queue.contains(queue[i + 1]));
                assert(vis[rest[i]]);
            }
            vstd::seq_lib::lemma_no_dup_in_concat(rest, bd);
        }
        assert forall|i: int, j: int| 0 <= i < order2.len() && 0 <= j < queue2.len() implies #[trigger] order2[i] != #[trigger] queue2[j] by {
            if j < rest.len() {
                assert(queue2[j] == rest[j]);
                assert(rest[j] == queue[j + 1]);
                if i < order.len() {
                    assert(order2[i] == order[i]);
                } else {
                    assert(rest.contains(rest[j]));
                }
            } else {
                assert(queue2[j] == bd[j - rest.len()]);
                assert(!vis[bd[j - rest.len()]]);
                if i < order.len() {
                    assert(order2[i] == order[i]);
                    assert(order.contains(order[i]));
                    assert(vis[order[i]]);
                } else {
                    assert(order2[i] == u);
                }
            }
        }
        assert forall|j: int| 0 <= j < queue2.len() implies 0 <= #[trigger] queue2[j] < n by {
            if j < rest.len() {
                assert(queue2[j] == queue[j + 1]);
            } else {
                assert(queue2[j] == bd[j - rest.len()]);
            }
        }
        assert forall|i: int| 0 <= i < order2.len() implies 0 <= #[trigger] order2[i] < n by {
            if i < order.len() {
                assert(order2[i] == order[i]);
            }
        }
        assert forall|x: int| 0 <= x < n implies (#[trigger] vis2[x] <==> (order2.contains(x) || queue2.contains(x))) by {
            assert(vis2[x] == (vis[x] || fr.contains(x)));
            if queue.contains(x) {
                let j = choose|j: int| 0 <= j < queue.len() && queue[j] == x;
                if j > 0 {
                    assert(queue2[j - 1] == x);
                } else {
                    assert(order2[order.len() as int] == x);
                }
            }
            if order.contains(x) {
                let i = choose|i: int| 0 <= i < order.len() && order[i] == x;
                assert(order2[i] == x);
            }
            if fr.contains(x) {
                assert(bd.contains(x));
                let j = choose|j: int| 0 <= j < bd.len() && bd[j] == x;
                assert(queue2[rest.len() + j] == x);
            }
            if order2.contains(x) {
                let i = choose|i: int| 0 <= i < order2.len() && order2[i] == x;
                if i < order.len() {
                    assert(order[i] == x);
                } else {
                    assert(queue[0] == x);
                }
            }
            if queue2.contains(x) {
                let j = choose|j: int| 0 <= j < queue2.len() && queue2[j] == x;
                if j < rest.len() {
                    assert(queue[j + 1] == x);
                } else {
                    assert(bd[j - rest.len()] == x);
                    assert(bd.contains(x));
                }
            }
        }
        assert(search_inv(n, vis2, queue2, order2));
        lemma_bfs_inv(n, offs, cols, vis2, queue2, order2);
    }
}

/// Degree sort renumbers the nodes one to one: every node gets a distinct
/// number below the node count.
pub proof fn law_degree_sort_renumbers_one_to_one(n: int, offs: Seq<u32>)
    requires
        0 <= n <= u32::MAX,
    ensures
        one_to_one_labels(labels_of(degree_order(n, offs), n), n),
{
    let keys = Seq::new(n as nat, |i: int| ((u32::MAX - degree(offs, i)) as u64, i as u64));
    let sorted = sorted_of(keys);
    lemma_sorted_of_exists(keys);
    assert(keys.no_duplicates()) by {
        assert forall|a: int, b: int| 0 <= a < keys.len() && 0 <= b < keys.len() && a != b implies keys[a] != keys[b] by {
            assert(keys[a].1 == a as u64 && keys[b].1 == b as u64);
        }
    }
    keys.lemma_multiset_has_no_duplicates();
    assert forall|x: (u64, u64)| sorted.to_multiset().contains(x) implies sorted.to_multiset().count(x) == 1 by {
        assert(keys.to_multiset().contains(x));
    }
    sorted.lemma_multiset_has_no_duplicates_conv();
    assert forall|q: int| 0 <= q < sorted.len() implies #[trigger] sorted[q] == keys[sorted[q].1 as int] && sorted[q].1 < n by {
        assert(sorted.to_multiset().count(sorted[q]) > 0);
        assert(keys.contains(sorted[q]));
        let i = choose|i: int| 0 <= i < keys.len() && keys[i] == sorted[q];
        assert(keys[i].1 == i);
    }
    let order = degree_order(n, offs);
    assert(order.len() == n);
    assert forall|q: int| 0 <= q < order.len() implies 0 <= #[trigger] order[q] < n by {
        assert(order[q] == sorted[q].1 as int);
        assert(sorted[q] == keys[sorted[q].1 as int] && sorted[q].1 < n);
    }
    assert(order.no_duplicates()) by {
        assert forall|a: int, b: int| 0 <= a < order.len() && 0 <= b < order.len() && a != b implies order[a] != order[b] by {
            assert(sorted[a] == keys[sorted[a].1 as int] && sorted[a].1 < n);
            assert(sorted[b] == keys[sorted[b].1 as int] && sorted[b].1 < n);
            assert(sorted[a] != sorted[b]);
        }
    }
    lemma_labels_of_order(order, n, n);
    let lab = labels_of(order, n);
    assert forall|x: int| 0 <= x < n implies #[trigger] listed(order, x) by {
        assert(keys.to_multiset().count(keys[x]) > 0);
        assert(sorted.contains(keys[x]));
        let q = choose|q: int| 0 <= q < sorted.len() && sorted[q] == keys[x];
        assert(sorted[q].1 == x);
        assert(order[q] == x);
    }
    assert forall|x: int| 0 <= x < n implies #[trigger] lab[x] < n by {
        assert(listed(order, x));
        let q = choose|q: int| 0 <= q < order.len() && order[q] == x;
        assert(lab[order[q]] == q);
    }
    assert forall|x: int, y: int| 0 <= x < n && 0 <= y < n && x != y implies lab[x] != lab[y] by {
        assert(listed(order, x));
        assert(listed(order, y));
        let qx = choose|q: int| 0 <= q < order.len() && order[q] == x;
        let qy = choose|q: int| 0 <= q < order.len() && order[q] == y;
        assert(lab[order[qx]] == qx);
        assert(lab[order[qy]] == qy);
    }
}

proof fn lemma_outer_inv(
    n: int,
    offs: Seq<u32>,
    cols: Seq<u32>,
    starts: Seq<int>,
    j: int,
    vis: Seq<bool>,
    order: Seq<int>,
)
    requires
        valid_csr(n, offs, cols),
        rows_simple(n, offs, cols),
        n <= u32::MAX,
        0 <= j <= starts.len(),
        forall|i: int| 0 <= i < starts.len() ==> 0 <= #[trigger] starts[i] < n,
        search_inv(n, vis, seq![], order),
    ensures
        ({
            let o = rcm_outer(n, offs, cols, starts, j, vis, order);
            &&& o.no_duplicates()
            &&& forall|i: int| 0 <= i < o.len() ==> 0 <= #[trigger] o[i] < n
            &&& forall|i: int| j <= i < starts.len() ==> o.contains(#[trigger] starts[i])
            &&& forall|x: int| order.contains(x) ==> #[trigger] o.contains(x)
        }),
    decreases starts.len() - j,
{
    if j < starts.len() {
        let s = starts[j];
        if vis[s] {
            lemma_outer_inv(n, offs, cols, starts, j + 1, vis, order);
            assert(order.contains(s));
        } else {
            let v1 = vis.update(s, true);
            assert(!order.contains(s));
            assert(search_inv(n, v1, seq![s], order)) by {
                assert forall|x: int| 0 <= x < n implies (#[trigger] v1[x] <==> (order.contains(x) || seq![s].contains(x))) by {
                    if x == s {
                        assert(seq![s][0] == s);
                    } else {
                        assert(v1[x] == vis[x]);
                        if seq![s].contains(x) {
                            let q = choose|q: int| 0 <= q < 1 && seq![s][q] == x;
                        }
                    }
                }
                assert forall|a: int, b: int| 0 <= a < order.len() && 0 <= b < 1 implies #[trigger] order[a] != #[trigger] seq![s][b] by {
                    assert(order.contains(order[a]));
                }
            }
            lemma_bfs_inv(n, offs, cols, v1, seq![s], order);
            let (v2, o2) = bfs(n, offs, cols, v1, seq![s], order);
            assert(v2[s]);
            assert(!Seq::<int>::empty().contains(s));
            assert(o2.contains(s));
            assert forall|x: int| order.contains(x) implies #[trigger] o2.contains(x) by {
                let i = choose|i: int| 0 <= i < order.len() && order[i] == x;
                assert(0 <= x < n);
                assert(vis[x]);
                assert(v1[x]);
                assert(v2[x]);
                assert(!Seq::<int>::empty().contains(x));
            }
            lemma_outer_inv(n, offs, cols, starts, j + 1, v2, o2);
        }
    }
}

/// Every node is a start of the search.
proof fn lemma_starts_cover(n: int, offs: Seq<u32>)
    requires
        0 <= n <= u32::MAX,
    ensures
        forall|i: int| 0 <= i < rcm_starts(n, offs).len() ==> 0 <= #[trigger] rcm_starts(n, offs)[i] < n,
        forall|x: int| 0 <= x < n ==> #[trigger] rcm_starts(n, offs).contains(x),
{
    let keys = Seq::new(n as nat, |i: int| (degree(offs, i) as u64, i as u64));
    let sorted = sorted_of(keys);
    lemma_sorted_of_exists(keys);
    let st = rcm_starts(n, offs);
    assert forall|i: int| 0 <= i < st.len() implies 0 <= #[trigger] st[i] < n by {
        assert(sorted.to_multiset().count(sorted[i]) > 0);
        assert(keys.contains(sorted[i]));
        let q = choose|q: int| 0 <= q < keys.len() && keys[q] == sorted[i];
        assert(keys[q].1 == q);
    }
    assert forall|x: int| 0 <= x < n implies #[trigger] st.contains(x) by {
        assert(keys.to_multiset().count(keys[x]) > 0);
        assert(sorted.contains(keys[x]));
        let q = choose|q: int| 0 <= q < sorted.len() && sorted[q] == keys[x];
        assert(st[q] == x);
    }
}

/// Reverse Cuthill-McKee renumbers the nodes one to one when no row lists a
/// target twice: every node gets a distinct number below the node count.
/// (A row listing an unvisited target twice queues it twice, and the
/// renumbering is then no longer one to one.)
pub proof fn law_rcm_renumbers_one_to_one(n: int, offs: Seq<u32>, cols: Seq<u32>)
    requires
        0 <= n <= u32::MAX,
        valid_csr(n, offs, cols),
        rows_simple(n, offs, cols),
    ensures
        one_to_one_labels(rcm_labels(n, offs, cols), n),
{
    let starts = rcm_starts(n, offs);
    lemma_starts_cover(n, offs);
    let vis0 = Seq::new(n as nat, |i: int| false);
    let empty = Seq::<int>::empty();
    assert(search_inv(n, vis0, seq![], empty)) by {
        assert forall|x: int| 0 <= x < n implies (#[trigger] vis0[x] <==> (empty.contains(x) || seq![].contains(x))) by {
        }
    }
    lemma_outer_inv(n, offs, cols, starts, 0, vis0, empty);
    let o = rcm_outer(n, offs, cols, starts, 0, vis0, empty);
    let order = o.reverse();
    assert(order == rcm_order(n, offs, cols));
    assert forall|i: int| 0 <= i < order.len() implies 0 <= #[trigger] order[i] < n by {
        assert(order[i] == o[o.len() - 1 - i]);
    }
    assert(order.no_duplicates()) by {
        assert forall|a: int, b: int| 0 <= a < order.len() && 0 <= b < order.len() && a != b implies order[a] != order[b] by {
            assert(order[a] == o[o.len() - 1 - a]);
            assert(order[b] == o[o.len() - 1 - b]);
        }
    }
    assert forall|x: int| 0 <= x < n implies #[trigger] listed(order, x) by {
        assert(starts.contains(x));
        let i = choose|i: int| 0 <= i < starts.len() && starts[i] == x;
        assert(o.contains(starts[i]));
        let q = choose|q: int| 0 <= q < o.len() && o[q] == x;
        assert(order[o.len() - 1 - q] == o[q]);
    }
    lemma_distinct_len(order, n);
    lemma_labels_of_order(order, n, order.len() as int);
    let lab = labels_of(order, n);
    assert forall|x: int| 0 <= x < n implies #[trigger] lab[x] < n by {
        assert(listed(order, x));
        let q = choose|q: int| 0 <= q < order.len() && order[q] == x;
        assert(lab[order[q]] == q);
    }
    assert forall|x: int, y: int| 0 <= x < n && 0 <= y < n && x != y implies lab[x] != lab[y] by {
        assert(listed(order, x));
        assert(listed(order, y));
        let qx = choose|q: int| 0 <= q < order.len() && order[q] == x;
        let qy = choose|q: int| 0 <= q < order.len() && order[q] == y;
        assert(lab[order[qx]] == qx);
        assert(lab[order[qy]] == qy);
    }
}

/// On a graph whose rows list each target once, reverse Cuthill-McKee runs
/// to its end: every renumbered edge has a source below the node count.
pub proof fn law_rcm_defined_on_simple_rows(n: int, offs: Seq<u32>, cols: Seq<u32>)
    requires
        0 <= n <= u32::MAX,
        valid_csr(n, offs, cols),
        rows_simple(n, offs, cols),
    ensures
        sources_below(n, offs, cols, rcm_labels(n, offs, cols)),
{
    law_rcm_renumbers_one_to_one(n, offs, cols);
    lemma_all_rows_sources(n, offs, cols, rcm_labels(n, offs, cols), n);
}


proof fn lemma_bfs_prefix(n: int, offs: Seq<u32>, cols: Seq<u32>, vis: Seq<bool>, queue: Seq<int>, order: Seq<int>)
    ensures
        bfs(n, offs, cols, vis, queue, order).1.len() >= order.len(),
        bfs(n, offs, cols, vis, queue, order).1.take(order.len() as int) == order,
        queue.len() > 0 && vis.len() == n && 0 <= queue[0] < n ==> bfs(n, offs, cols, vis, queue, order).1.len()
            > order.len() && bfs(n, offs, cols, vis, queue, order).1[order.len() as int] == queue[0],
    decreases count_false(vis), queue.len(),
{
    if queue.len() == 0 || vis.len() != n || !(0 <= queue[0] < n) {
        assert(order.take(order.len() as int) =~= order);
    } else {
        let u = queue[0];
        let fr = fresh(n, offs, cols, vis, u, offs[u + 1] as int);
        lemma_mark_progress(n, offs, cols, vis, u);
        let o1 = order.push(u);
        let r = if fr.len() == 0 {
            lemma_bfs_prefix(n, offs, cols, vis, queue.drop_first(), o1);
            bfs(n, offs, cols, vis, queue.drop_first(), o1).1
        } else {
            lemma_bfs_prefix(n, offs, cols, mark(vis, fr), queue.drop_first() + by_degree(offs, fr), o1);
            bfs(n, offs, cols, mark(vis, fr), queue.drop_first() + by_degree(offs, fr), o1).1
        };
        assert(r == bfs(n, offs, cols, vis, queue, order).1);
        assert(r.take(o1.len() as int) == o1);
        assert(r[order.len() as int] == o1[order.len() as int]);
        assert(r.take(order.len() as int) =~= o1.take(order.len() as int));
        assert(o1.take(order.len() as int) =~= order);
    }
}

proof fn lemma_outer_prefix(
    n: int,
    offs: Seq<u32>,
    cols: Seq<u32>,
    starts: Seq<int>,
    j: int,
    vis: Seq<bool>,
    order: Seq<int>,
)
    ensures
        rcm_outer(n, offs, cols, starts, j, vis, order).len() >= order.len(),
        rcm_outer(n, offs, cols, starts, j, vis, order).take(order.len() as int) == order,
    decreases starts.len() - j,
{
    if j >= starts.len() || j < 0 {
        assert(order.take(order.len() as int) =~= order);
    } else {
        let s = starts[j];
        if !(0 <= s < n) || vis.len() != n {
            assert(order.take(order.len() as int) =~= order);
        } else if vis[s] {
            lemma_outer_prefix(n, offs, cols, starts, j + 1, vis, order);
        } else {
            let (v2, o2) = bfs(n, offs, cols, vis.update(s, true), seq![s], order);
            lemma_bfs_prefix(n, offs, cols, vis.update(s, true), seq![s], order);
            lemma_outer_prefix(n, offs, cols, starts, j + 1, v2, o2);
            let r = rcm_outer(n, offs, cols, starts, j + 1, v2, o2);
            assert(r.take(order.len() as int) =~= r.take(o2.len() as int).take(order.len() as int));
        }
    }
}

/// `u` holds the highest of the new numbers.
pub open spec fn numbered_last(lab: Seq<u32>, n: int, u: int) -> bool {
    forall|w: int| 0 <= w < n ==> #[trigger] lab[w] <= lab[u]
}

/// Reverse Cuthill-McKee numbers the search backwards: its first start,
/// a node of the lowest degree, is visited first and so gets the highest
/// number. Stated for graphs whose rows list each target once.
pub proof fn law_rcm_numbers_a_lowest_degree_node_last(n: int, offs: Seq<u32>, cols: Seq<u32>)
    requires
        0 < n <= u32::MAX,
        valid_csr(n, offs, cols),
        rows_simple(n, offs, cols),
    ensures
        forall|u: int, v: int|
            0 <= u < n && 0 <= v < n && #[trigger] numbered_last(rcm_labels(n, offs, cols), n, u) ==> degree(offs, u)
                <= #[trigger] degree(offs, v),
{
    law_rcm_renumbers_one_to_one(n, offs, cols);
    let lab = rcm_labels(n, offs, cols);
    let starts = rcm_starts(n, offs);
    lemma_starts_cover(n, offs);
    let keys = Seq::new(n as nat, |i: int| (degree(offs, i) as u64, i as u64));
    let sorted = sorted_of(keys);
    lemma_sorted_of_exists(keys);
    assert(starts.len() == n);
    let s0 = starts[0];
    assert(0 <= s0 < n);
    // the first start has the lowest degree
    assert(sorted.to_multiset().count(sorted[0]) > 0);
    assert(keys.contains(sorted[0]));
    let i0 = choose|i: int| 0 <= i < keys.len() && keys[i] == sorted[0];
    assert(s0 == i0);
    assert forall|v: int| 0 <= v < n implies degree(offs, s0) <= #[trigger] degree(offs, v) by {
        lemma_offs_mono(n, offs, cols, v, v + 1);
        lemma_offs_mono(n, offs, cols, s0, s0 + 1);
        assert(keys.to_multiset().count(keys[v]) > 0);
        assert(sorted.contains(keys[v]));
        let q = choose|q: int| 0 <= q < sorted.len() && sorted[q] == keys[v];
        if q > 0 {
            assert(pair_le(sorted[0], sorted[q]));
        }
    }
    // the first start is visited first
    let vis0 = Seq::new(n as nat, |i: int| false);
    let empty = Seq::<int>::empty();
    let (v2, o2) = bfs(n, offs, cols, vis0.update(s0, true), seq![s0], empty);
    lemma_bfs_prefix(n, offs, cols, vis0.update(s0, true), seq![s0], empty);
    lemma_outer_prefix(n, offs, cols, starts, 1, v2, o2);
    let o = rcm_outer(n, offs, cols, starts, 0, vis0, empty);
    assert(o == rcm_outer(n, offs, cols, starts, 1, v2, o2));
    assert(o.take(o2.len() as int)[0] == o2[0]);
    assert(o[0] == s0);
    // so it comes last in the reversed order and gets the highest number
    assert(search_inv(n, vis0, seq![], empty)) by {
        assert forall|x: int| 0 <= x < n implies (#[trigger] vis0[x] <==> (empty.contains(x) || seq![].contains(x))) by {
        }
    }
    lemma_outer_inv(n, offs, cols, starts, 0, vis0, empty);
    let order = o.reverse();
    assert(order == rcm_order(n, offs, cols));
    assert forall|i: int| 0 <= i < order.len() implies 0 <= #[trigger] order[i] < n by {
        assert(order[i] == o[o.len() - 1 - i]);
    }
    assert(order.no_duplicates()) by {
        assert forall|a: int, b: int| 0 <= a < order.len() && 0 <= b < order.len() && a != b implies order[a] != order[b] by {
            assert(order[a] == o[o.len() - 1 - a]);
            assert(order[b] == o[o.len() - 1 - b]);
        }
    }
    lemma_distinct_len(order, n);
    lemma_labels_of_order(order, n, order.len() as int);
    let last = o.len() - 1;
    assert(order[last] == o[0]);
    assert(lab[s0] == last);
    assert forall|x: int| 0 <= x < n implies #[trigger] lab[x] <= last by {
        assert(starts.contains(x));
        let i = choose|i: int| 0 <= i < starts.len() && starts[i] == x;
        assert(o.contains(starts[i]));
        let q = choose|q: int| 0 <= q < o.len() && o[q] == x;
        assert(order[o.len() - 1 - q] == o[q]);
        assert(lab[order[o.len() - 1 - q]] == o.len() - 1 - q);
    }
    assert forall|u: int, v: int|
        0 <= u < n && 0 <= v < n && #[trigger] numbered_last(lab, n, u) implies degree(offs, u) <= #[trigger] degree(
            offs,
            v,
        ) by {
        assert(lab[s0] <= lab[u]);
        assert(lab[u] <= last);
        assert(u == s0);
    }
}

} // verus!
