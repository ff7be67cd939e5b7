//! Compressed Sparse Row (CSR) adjacency: row offsets and column indices.
//!
//! For `n` source nodes, `offsets` has `n + 1` entries, starts at 0, never
//! decreases and ends at the number of edges; the edges of source node `u`
//! occupy positions `offsets[u] .. offsets[u + 1]` of the column array.
use vstd::prelude::*;
use crate::sort::{lemma_sorted_unique, sort_pairs, sorted_pairs};
use crate::text::chars_of;
use crate::text::eq_str;

verus! {

broadcast use vstd::seq_lib::group_to_multiset_ensures, vstd::multiset::group_multiset_axioms;

/// The unique lexicographically sorted arrangement of `s`.
pub open spec fn sorted_of(s: Seq<(u64, u64)>) -> Seq<(u64, u64)> {
    choose|t: Seq<(u64, u64)>| sorted_pairs(t) && t.to_multiset() == s.to_multiset()
}

pub proof fn lemma_sorted_of(s: Seq<(u64, u64)>, r: Seq<(u64, u64)>)
    requires
        sorted_pairs(r),
        r.to_multiset() == s.to_multiset(),
    ensures
        sorted_of(s) == r,
{
    let t = sorted_of(s);
    assert(sorted_pairs(t) && t.to_multiset() == s.to_multiset());
    lemma_sorted_unique(t, r);
}

/// Every sequence of pairs has its sorted arrangement.
pub proof fn lemma_sorted_of_exists(s: Seq<(u64, u64)>)
    ensures
        sorted_pairs(sorted_of(s)),
        sorted_of(s).to_multiset() == s.to_multiset(),
        sorted_of(s).len() == s.len(),
{
    let leq = |a: (u64, u64), b: (u64, u64)| crate::sort::pair_le(a, b);
    assert(vstd::relations::total_ordering(leq)) by {
        assert(vstd::relations::reflexive(leq));
        assert(vstd::relations::antisymmetric(leq));
        assert(vstd::relations::transitive(leq));
        assert(vstd::relations::strongly_connected(leq));
    }
    s.lemma_sort_by_ensures(leq);
    let t = s.sort_by(leq);
    assert(sorted_pairs(t)) by {
        assert forall|i: int, j: int| 0 <= i < j < t.len() implies crate::sort::pair_le(t[i], t[j]) by {
            assert(leq(t[i], t[j]));
        }
    }
    lemma_sorted_of(s, t);
    assert(t.to_multiset().len() == t.len());
    assert(s.to_multiset().len() == s.len());
}

/// `offsets` is the CSR row-offset array over `n` nodes of an edge list
/// whose source nodes, in edge order, are `srcs`.
pub open spec fn csr_offsets_ok(srcs: Seq<u32>, n: int, off: Seq<u32>) -> bool {
    &&& off.len() == n + 1
    &&& off[0] == 0
    &&& off[n] == srcs.len()
    &&& forall|i: int| 0 <= i < n ==> #[trigger] off[i] <= off[i + 1]
    &&& forall|k: int|
        0 <= k < srcs.len() ==> #[trigger] srcs[k] < n && off[srcs[k] as int] <= k < off[srcs[k]
            + 1]
}

pub open spec fn nondecreasing(s: Seq<u32>) -> bool {
    forall|i: int, j: int| 0 <= i <= j < s.len() ==> s[i] <= s[j]
}

/// Row offsets over `n` nodes for edges whose sources are sorted.
pub fn csr_offsets(srcs: &[u32], n: usize) -> (off: Vec<u32>)
    requires
        nondecreasing(srcs@),
        forall|k: int| 0 <= k < srcs.len() ==> srcs@[k] < n,
        srcs.len() <= u32::MAX,
    ensures
        csr_offsets_ok(srcs@, n as int, off@),
{
    let mut off: Vec<u32> = Vec::new();
    let mut k: usize = 0;
    let mut i: usize = 0;
    while i < n
        invariant
            i <= n,
            nondecreasing(srcs@),
            forall|t: int| 0 <= t < srcs.len() ==> srcs@[t] < n,
            srcs.len() <= u32::MAX,
            k <= srcs.len(),
            off@.len() == i,
            i > 0 ==> off@[i - 1] == k,
            forall|j: int| 0 <= j < i ==> off@[j] <= k,
            forall|j: int, l: int| 0 <= j <= l < i ==> off@[j] <= off@[l],
            forall|j: int| #![trigger off@[j]] 0 <= j < i ==> (forall|t: int| 0 <= t < off@[j] ==> srcs@[t] < j),
            forall|j: int| #![trigger off@[j]] 0 <= j < i ==> (off@[j] < srcs.len() ==> srcs@[off@[j] as int] >= j),
            i == 0 ==> k == 0,
            forall|t: int| 0 <= t < k ==> srcs@[t] < i,
        decreases n + 1 - i,
    {
        while k < srcs.len() && (srcs[k] as usize) < i
            invariant
                k <= srcs.len(),
                forall|t: int| 0 <= t < k ==> srcs@[t] < i || (srcs@[t] as int) < (i as int),
            decreases srcs.len() - k,
        {
            k = k + 1;
        }
        proof {
            assert forall|t: int| 0 <= t < k implies srcs@[t] < i by {}
            if k < srcs.len() {
                assert(srcs@[k as int] >= i);
            }
        }
        off.push(k as u32);
        i = i + 1;
    }
    proof {
        assert forall|j: int| 0 <= j < n implies off@[j] <= srcs.len() by {}
    }
    let ghost before = off@;
    off.push(srcs.len() as u32);
    proof {
        assert forall|j: int| 0 <= j < n implies off@[j] == before[j] by {}
    }
    proof {
        assert(off@[0] == 0) by {
            if off@[0] > 0 {
                assert(srcs@[0] < 0);
            }
        }
        assert(off@[n as int] == srcs.len()) by {
            if off@[n as int] < srcs.len() {
                assert(srcs@[off@[n as int] as int] >= n);
            }
        }
        assert forall|t: int| 0 <= t < srcs.len() implies #[trigger] srcs@[t] < n && off@[srcs@[t] as int] <= t < off@[srcs@[t] + 1] by {
            let s = srcs@[t] as int;
            if off@[s] > t {
                assert(srcs@[t] < s);
            }
            if off@[s + 1] <= t {
                if off@[s + 1] < srcs.len() {
                    assert(srcs@[off@[s + 1] as int] >= s + 1);
                    assert(srcs@[off@[s + 1] as int] <= srcs@[t]);
                }
            }
        }
    }
    off
}

// ---------------------------------------------------------------------------
// Edge-list to CSR in input order within each row
// ---------------------------------------------------------------------------

/// `(source, position)` keys of an edge list.
pub open spec fn src_keys(edges: Seq<(u32, u32)>) -> Seq<(u64, u64)> {
    Seq::new(edges.len(), |i: int| (edges[i].0 as u64, i as u64))
}

/// The largest source node of a non-empty edge list.
pub open spec fn max_src(edges: Seq<(u32, u32)>) -> u32
    decreases edges.len(),
{
    if edges.len() == 0 {
        0
    } else if edges.len() == 1 {
        edges[0].0
    } else {
        let m = max_src(edges.drop_last());
        if edges.last().0 > m {
            edges.last().0
        } else {
            m
        }
    }
}

pub proof fn lemma_max_src(edges: Seq<(u32, u32)>)
    requires
        edges.len() > 0,
    ensures
        forall|i: int| 0 <= i < edges.len() ==> edges[i].0 <= max_src(edges),
        exists|i: int| 0 <= i < edges.len() && edges[i].0 == max_src(edges),
    decreases edges.len(),
{
    if edges.len() > 1 {
        lemma_max_src(edges.drop_last());
        let i = choose|i: int| 0 <= i < edges.drop_last().len() && edges.drop_last()[i].0 == max_src(edges.drop_last());
        assert(edges[i].0 == edges.drop_last()[i].0);
        if edges.last().0 > max_src(edges.drop_last()) {
            assert(edges[edges.len() - 1].0 == max_src(edges));
        }
        assert forall|k: int| 0 <= k < edges.len() implies edges[k].0 <= max_src(edges) by {
            if k < edges.len() - 1 {
                assert(edges[k].0 == edges.drop_last()[k].0);
            }
        }
    } else {
        assert(edges[0].0 == max_src(edges));
    }
}

/// `build_csr`: CSR over nodes `0 ..= max source` of an edge list; within a
/// row the targets keep their order in the list.  An empty list gives one
/// node and no edges.
pub fn build_csr(edges: &[(u32, u32)]) -> (r: (Vec<u32>, Vec<u32>))
    requires
        edges.len() <= u32::MAX,
        forall|i: int| 0 <= i < edges.len() ==> edges@[i].0 < u32::MAX,
    ensures
        edges.len() == 0 ==> r.0@ == seq![0u32, 0u32] && r.1@.len() == 0,
        edges.len() > 0 ==> {
            let order = sorted_of(src_keys(edges@));
            &&& csr_offsets_ok(
                order.map_values(|p: (u64, u64)| p.0 as u32),
                max_src(edges@) + 1,
                r.0@,
            )
            &&& r.1@.len() == edges.len()
            &&& forall|k: int| 0 <= k < edges.len() ==> r.1@[k] == edges@[order[k].1 as int].1
        },
{
    if edges.len() == 0 {
        let mut off: Vec<u32> = Vec::new();
        off.push(0);
        off.push(0);
        return (off, Vec::new());
    }
    let mut m: u32 = edges[0].0;
    let mut i: usize = 1;
    assert(edges@.take(1) =~= seq![edges@[0]]);
    while i < edges.len()
        invariant
            1 <= i <= edges.len(),
            m == max_src(edges@.take(i as int)),
        decreases edges.len() - i,
    {
        assert(edges@.take(i + 1).drop_last() =~= edges@.take(i as int));
        if edges[i].0 > m {
            m = edges[i].0;
        }
        i = i + 1;
    }
    assert(edges@.take(edges.len() as int) =~= edges@);
    proof {
        lemma_max_src(edges@);
    }
    let n: usize = (m as usize) + 1;
    let mut keys: Vec<(u64, u64)> = Vec::new();
    let mut j: usize = 0;
    while j < edges.len()
        invariant
            j <= edges.len(),
            keys@ == src_keys(edges@).take(j as int),
        decreases edges.len() - j,
    {
        keys.push((edges[j].0 as u64, j as u64));
        j = j + 1;
        assert(keys@ =~= src_keys(edges@).take(j as int));
    }
    assert(keys@ =~= src_keys(edges@));
    let order = sort_pairs(keys.as_slice());
    proof {
        lemma_sorted_of(src_keys(edges@), order@);
    }
    let ghost ord = order@;
    assert(ord.to_multiset().len() == ord.len());
    assert(src_keys(edges@).to_multiset().len() == src_keys(edges@).len());
    let mut srcs: Vec<u32> = Vec::new();
    let mut cols: Vec<u32> = Vec::new();
    let mut k: usize = 0;
    proof {
        assert forall|t: int| 0 <= t < ord.len() implies (ord[t].1 as int) < edges.len() && ord[t].0 == edges@[ord[t].1 as int].0 as u64 by {
            assert(ord.to_multiset().count(ord[t]) > 0);
            assert(src_keys(edges@).contains(ord[t]));
        }
    }
    while k < order.len()
        invariant
            k <= order.len(),
            order@ == ord,
            ord.len() == edges.len(),
            forall|t: int| 0 <= t < ord.len() ==> (ord[t].1 as int) < edges.len() && ord[t].0 == edges@[ord[t].1 as int].0 as u64,
            srcs@ == ord.take(k as int).map_values(|p: (u64, u64)| p.0 as u32),
            cols@.len() == k,
            forall|t: int| 0 <= t < k ==> cols@[t] == edges@[ord[t].1 as int].1,
        decreases order.len() - k,
    {
        let (s, pos) = order[k];
        srcs.push(s as u32);
        cols.push(edges[pos as usize].1);
        k = k + 1;
        assert(srcs@ =~= ord.take(k as int).map_values(|p: (u64, u64)| p.0 as u32));
    }
    assert(ord.take(ord.len() as int) =~= ord);
    proof {
        let sv = srcs@;
        assert forall|a: int, b: int| 0 <= a <= b < sv.len() implies sv[a] <= sv[b] by {
            if a < b {
                assert(crate::sort::pair_le(ord[a], ord[b]));
            }
        }
        assert forall|t: int| 0 <= t < sv.len() implies sv[t] < n by {
            assert(edges@[ord[t].1 as int].0 <= m);
        }
    }
    let off = csr_offsets(srcs.as_slice(), n);
    (off, cols)
}

// ---------------------------------------------------------------------------
// Encodings
// ---------------------------------------------------------------------------

/// The column-index encodings a relation may declare.
pub open spec fn encoding_names_known(s: Seq<char>) -> bool {
    s == "raw_uint32"@ || s == "delta_vbyte"@ || s == "simdcomp"@ || s == "sliced_ellpack"@
}

/// The encoding number of a known encoding name.
pub open spec fn encoding_code(s: Seq<char>) -> u8 {
    if s == "raw_uint32"@ {
        0
    } else if s == "delta_vbyte"@ {
        1
    } else if s == "simdcomp"@ {
        4
    } else {
        5
    }
}

/// `encoding_type`; an unknown name is outside its domain.
pub fn encoding_type(s: &str) -> (r: u8)
    requires
        encoding_names_known(s@),
    ensures
        r == encoding_code(s@),
{
    let c = chars_of(s);
    if eq_str(c.as_slice(), "raw_uint32") {
        0
    } else if eq_str(c.as_slice(), "delta_vbyte") {
        1
    } else if eq_str(c.as_slice(), "simdcomp") {
        4
    } else {
        5
    }
}

/// The section feature bit of an encoding number.
pub open spec fn section_feature_bit(enc: u8) -> u64 {
    if enc == 0 {
        1
    } else if enc == 1 {
        2
    } else if enc == 4 {
        16
    } else if enc == 5 {
        32
    } else {
        0
    }
}

pub fn section_features(enc: u8) -> (r: u64)
    ensures
        r == section_feature_bit(enc),
{
    match enc {
        0 => 1,
        1 => 2,
        4 => 16,
        5 => 32,
        _ => 0,
    }
}

} // verus!
