//! Synthetic graphs: grids, trees and stars, R-MAT edges from quadrant
//! choices, the CSR arrays of a generated edge list, and the attribute list
//! of the generator's command line.
use vstd::prelude::*;
use crate::csr::{csr_offsets, csr_offsets_ok, lemma_sorted_of, nondecreasing, sorted_of};
use crate::sort::{pair_le, sort_pairs, sorted_pairs};
use crate::text::{chars_of, eq_str, lower, lower_exec, split, split_exec, string_from, trim, trim_chars};

verus! {

broadcast use vstd::seq_lib::group_to_multiset_ensures, vstd::multiset::group_multiset_axioms;

/// Adds the edge `u -> v`, and `v -> u` after it for an undirected graph.
pub open spec fn push_edge(es: Seq<(u32, u32)>, u: int, v: int, undirected: bool) -> Seq<(u32, u32)> {
    if undirected {
        es.push((u as u32, v as u32)).push((v as u32, u as u32))
    } else {
        es.push((u as u32, v as u32))
    }
}

fn push_edge_exec(es: &mut Vec<(u32, u32)>, u: u32, v: u32, undirected: bool)
    ensures
        final(es)@ == push_edge(old(es)@, u as int, v as int, undirected),
        forall|n: int|
            edges_within(old(es)@, n) && u < n && v < n ==> #[trigger] edges_within(final(es)@, n),
{
    es.push((u, v));
    if undirected {
        es.push((v, u));
    }
}

// ---------------------------------------------------------------------------
// Grid
// ---------------------------------------------------------------------------

/// Grid dimensions and options: x, y, z extents, wrap-around, undirected.
pub struct GridShape {
    pub dim_x: u32,
    pub dim_y: u32,
    pub dim_z: u32,
    pub toroidal: bool,
    pub undirected: bool,
}

/// The edges of cell `(x, y, z)`: to its +X, +Y and +Z neighbours (with
/// wrap-around on a torus; +Z only in a grid of more than one layer).
pub open spec fn cell_edges(es: Seq<(u32, u32)>, g: GridShape, x: int, y: int, z: int) -> Seq<(u32, u32)> {
    let dx = g.dim_x as int;
    let dy = g.dim_y as int;
    let dz = g.dim_z as int;
    let plane = dx * dy;
    let u = z * plane + y * dx + x;
    let e1 = if x + 1 < dx {
        push_edge(es, u, z * plane + y * dx + x + 1, g.undirected)
    } else if g.toroidal && dx > 1 {
        push_edge(es, u, z * plane + y * dx, g.undirected)
    } else {
        es
    };
    let e2 = if y + 1 < dy {
        push_edge(e1, u, z * plane + (y + 1) * dx + x, g.undirected)
    } else if g.toroidal && dy > 1 {
        push_edge(e1, u, z * plane + x, g.undirected)
    } else {
        e1
    };
    if dz > 1 {
        if z + 1 < dz {
            push_edge(e2, u, (z + 1) * plane + y * dx + x, g.undirected)
        } else if g.toroidal {
            push_edge(e2, u, y * dx + x, g.undirected)
        } else {
            e2
        }
    } else {
        e2
    }
}

pub open spec fn grid_row(es: Seq<(u32, u32)>, g: GridShape, y: int, z: int, x: int) -> Seq<(u32, u32)>
    decreases x,
{
    if x <= 0 {
        es
    } else {
        cell_edges(grid_row(es, g, y, z, x - 1), g, x - 1, y, z)
    }
}

pub open spec fn grid_plane(es: Seq<(u32, u32)>, g: GridShape, z: int, y: int) -> Seq<(u32, u32)>
    decreases y,
{
    if y <= 0 {
        es
    } else {
        grid_row(grid_plane(es, g, z, y - 1), g, y - 1, z, g.dim_x as int)
    }
}

pub open spec fn grid_layers(g: GridShape, z: int) -> Seq<(u32, u32)>
    decreases z,
{
    if z <= 0 {
        seq![]
    } else {
        grid_plane(grid_layers(g, z - 1), g, z - 1, g.dim_y as int)
    }
}

/// The edges of a grid, cell by cell (x fastest, then y, then z).
pub open spec fn grid_edges(g: GridShape) -> Seq<(u32, u32)> {
    grid_layers(g, g.dim_z as int)
}

/// The number of nodes of a grid: one per cell.
pub open spec fn grid_nodes(g: GridShape) -> int {
    (g.dim_x as int) * (g.dim_y as int) * (g.dim_z as int)
}

/// Every edge joins two nodes among the first `n`.
pub open spec fn edges_within(es: Seq<(u32, u32)>, n: int) -> bool {
    forall|i: int| 0 <= i < es.len() ==> (#[trigger] es[i]).0 < n && es[i].1 < n
}

/// The node numbers of the grid fit in `u32`.
pub open spec fn grid_fits(g: GridShape) -> bool {
    let total = (g.dim_x as int) * (g.dim_y as int) * (g.dim_z as int);
    total == 0 || ((g.dim_x as int) * (g.dim_y as int) <= u32::MAX && total <= u32::MAX + 1)
}

proof fn lemma_grid_arith(dx: int, dy: int, dz: int, x: int, y: int, z: int)
    requires
        0 <= x < dx,
        0 <= y < dy,
        0 <= z < dz,
        dx * dy <= u32::MAX,
        dx * dy * dz <= u32::MAX + 1,
    ensures
        z * (dx * dy) + y * dx + x <= u32::MAX,
        z * (dx * dy) <= u32::MAX,
        y * dx <= u32::MAX,
        y + 1 < dy ==> (y + 1) * dx <= u32::MAX && z * (dx * dy) + (y + 1) * dx + x <= u32::MAX,
        x + 1 < dx ==> z * (dx * dy) + y * dx + x + 1 <= u32::MAX,
        z + 1 < dz ==> (z + 1) * (dx * dy) <= u32::MAX && (z + 1) * (dx * dy) + y * dx + x <= u32::MAX,
        z * (dx * dy) + y * dx + x < dx * dy * dz,
        z * (dx * dy) + y * dx < dx * dy * dz,
        z * (dx * dy) + x < dx * dy * dz,
        y * dx + x < dx * dy * dz,
        x + 1 < dx ==> z * (dx * dy) + y * dx + x + 1 < dx * dy * dz,
        y + 1 < dy ==> z * (dx * dy) + (y + 1) * dx + x < dx * dy * dz,
        z + 1 < dz ==> (z + 1) * (dx * dy) + y * dx + x < dx * dy * dz,
{
    assert(y * dx + x < dx * dy) by (nonlinear_arith)
        requires
            0 <= x < dx,
            0 <= y < dy,
    ;
    assert(z * (dx * dy) + dx * dy <= dx * dy * dz) by (nonlinear_arith)
        requires
            0 <= z < dz,
            dx >= 1,
            dy >= 1,
    ;
    if x + 1 < dx {
        assert(y * dx + x + 1 < dx * dy) by (nonlinear_arith)
            requires
                0 <= x + 1 < dx,
                0 <= y < dy,
        ;
    }
    assert(x < dx * dy) by (nonlinear_arith)
        requires
            0 <= x < dx,
            0 <= y < dy,
    ;
    assert(0 <= z * (dx * dy)) by (nonlinear_arith)
        requires
            0 <= z,
            dx >= 1,
            dy >= 1,
    ;
    assert(dx * dy <= dx * dy * dz) by (nonlinear_arith)
        requires
            0 <= z < dz,
            dx >= 1,
            dy >= 1,
    ;
    assert(y * dx <= dx * dy) by (nonlinear_arith)
        requires
            0 <= y < dy,
            dx >= 0,
    ;
    if y + 1 < dy {
        assert((y + 1) * dx + x < dx * dy) by (nonlinear_arith)
            requires
                0 <= x < dx,
                0 <= y + 1 < dy,
        ;
    }
    if z + 1 < dz {
        assert((z + 1) * (dx * dy) + dx * dy <= dx * dy * dz) by (nonlinear_arith)
            requires
                0 <= z + 1 < dz,
                dx >= 1,
                dy >= 1,
        ;
    }
}

/// The number of nodes of a grid whose node numbers fit in `u32`.
pub fn grid_node_count(g: &GridShape) -> (n: u64)
    requires
        grid_fits(*g),
    ensures
        n == grid_nodes(*g),
{
    proof {
        assert((g.dim_x as int) * (g.dim_y as int) <= u64::MAX) by (nonlinear_arith)
            requires
                g.dim_x <= u32::MAX,
                g.dim_y <= u32::MAX,
        ;
    }
    let plane = (g.dim_x as u64) * (g.dim_y as u64);
    if plane == 0 || g.dim_z == 0 {
        proof {
            assert(grid_nodes(*g) == 0) by (nonlinear_arith)
                requires
                    plane == (g.dim_x as int) * (g.dim_y as int),
                    plane == 0 || g.dim_z == 0,
            ;
        }
        return 0;
    }
    proof {
        assert(grid_nodes(*g) == plane * (g.dim_z as int)) by (nonlinear_arith)
            requires
                plane == (g.dim_x as int) * (g.dim_y as int),
        ;
        assert(plane * (g.dim_z as int) > 0) by (nonlinear_arith)
            requires
                plane > 0,
                g.dim_z > 0,
        ;
    }
    plane * (g.dim_z as u64)
}

/// The edges of a 2D or 3D grid (`dim_z` is 1 for a flat grid); every edge
/// joins two of its `dim_x * dim_y * dim_z` nodes.
pub fn generate_grid(g: &GridShape) -> (es: Vec<(u32, u32)>)
    requires
        grid_fits(*g),
    ensures
        es@ == grid_edges(*g),
        edges_within(es@, grid_nodes(*g)),
{
    let dx = g.dim_x;
    let dy = g.dim_y;
    let dz = g.dim_z;
    let ghost gs = *g;
    let mut es: Vec<(u32, u32)> = Vec::new();
    let mut z: u32 = 0;
    while z < dz
        invariant
            z <= dz,
            gs == *g,
            dx == g.dim_x,
            dy == g.dim_y,
            dz == g.dim_z,
            grid_fits(gs),
            es@ == grid_layers(gs, z as int),
            edges_within(es@, grid_nodes(gs)),
        decreases dz - z,
    {
        let mut y: u32 = 0;
        let ghost base_z = es@;
        while y < dy
            invariant
                y <= dy,
                z < dz,
                gs == *g,
                dx == g.dim_x,
                dy == g.dim_y,
                dz == g.dim_z,
                grid_fits(gs),
                base_z == grid_layers(gs, z as int),
                es@ == grid_plane(base_z, gs, z as int, y as int),
                edges_within(es@, grid_nodes(gs)),
            decreases dy - y,
        {
            let mut x: u32 = 0;
            let ghost base_y = es@;
            while x < dx
                invariant
                    x <= dx,
                    y < dy,
                    z < dz,
                    gs == *g,
                    dx == g.dim_x,
                    dy == g.dim_y,
                    dz == g.dim_z,
                    grid_fits(gs),
                    base_y == grid_plane(base_z, gs, z as int, y as int),
                    es@ == grid_row(base_y, gs, y as int, z as int, x as int),
                    edges_within(es@, grid_nodes(gs)),
                decreases dx - x,
            {
                proof {
                    assert((dx as int) * (dy as int) * (dz as int) > 0) by (nonlinear_arith)
                        requires
                            x < dx,
                            y < dy,
                            z < dz,
                    ;
                    lemma_grid_arith(dx as int, dy as int, dz as int, x as int, y as int, z as int);
                }
                let plane = dx * dy;
                let u = z * plane + y * dx + x;
                if x + 1 < dx {
                    push_edge_exec(&mut es, u, z * plane + y * dx + (x + 1), g.undirected);
                } else if g.toroidal && dx > 1 {
                    push_edge_exec(&mut es, u, z * plane + y * dx, g.undirected);
                }
                if y + 1 < dy {
                    push_edge_exec(&mut es, u, z * plane + (y + 1) * dx + x, g.undirected);
                } else if g.toroidal && dy > 1 {
                    push_edge_exec(&mut es, u, z * plane + x, g.undirected);
                }
                if dz > 1 {
                    if z + 1 < dz {
                        push_edge_exec(&mut es, u, (z + 1) * plane + y * dx + x, g.undirected);
                    } else if g.toroidal {
                        push_edge_exec(&mut es, u, y * dx + x, g.undirected);
                    }
                }
                x = x + 1;
            }
            y = y + 1;
        }
        z = z + 1;
    }
    es
}

// ---------------------------------------------------------------------------
// Trees and stars
// ---------------------------------------------------------------------------

/// A star: center 0 to every other node `1 .. n` (`n` taken as `u32`).
pub open spec fn star_edges(n: u64, undirected: bool, v: int) -> Seq<(u32, u32)>
    decreases v,
{
    if v <= 1 {
        seq![]
    } else {
        push_edge(star_edges(n, undirected, v - 1), 0, v - 1, undirected)
    }
}

/// The edges of a star over `num_nodes` nodes.
pub fn generate_star(num_nodes: u64, undirected: bool) -> (es: Vec<(u32, u32)>)
    requires
        1 <= num_nodes <= u32::MAX,
    ensures
        es@ == star_edges(num_nodes, undirected, num_nodes as int),
{
    let n = num_nodes as u32;
    let mut es: Vec<(u32, u32)> = Vec::new();
    let mut v: u32 = 1;
    while v < n
        invariant
            1 <= v <= n,
            n == num_nodes,
            es@ == star_edges(num_nodes, undirected, v as int),
        decreases n - v,
    {
        push_edge_exec(&mut es, 0, v, undirected);
        v = v + 1;
    }
    es
}

/// Nodes of a complete `k`-ary tree of the given depth, with saturating
/// arithmetic: the sum of `k^i` for `i` in `0 ..= levels - 1`.
pub open spec fn tree_total(k: u64, levels: nat) -> (u64, u64)
    decreases levels,
{
    if levels == 0 {
        (0, 1)
    } else {
        let (t, cur) = tree_total(k, (levels - 1) as nat);
        (
            if t + cur > u64::MAX { u64::MAX } else { (t + cur) as u64 },
            if cur * k > u64::MAX { u64::MAX } else { (cur * k) as u64 },
        )
    }
}

proof fn lemma_tree_total(k: u64, l: nat)
    requires
        k >= 1,
    ensures
        tree_total(k, l).1 >= 1,
        l >= 1 ==> tree_total(k, l).0 >= 1,
    decreases l,
{
    if l > 0 {
        lemma_tree_total(k, (l - 1) as nat);
        let (t, cur) = tree_total(k, (l - 1) as nat);
        assert(cur * k >= cur) by (nonlinear_arith)
            requires
                cur >= 1,
                k >= 1,
        ;
    }
}

/// The children of parents `0 .. u`: parent `p` has children
/// `p * k + 1 ..= p * k + k` below `total`.
pub open spec fn tree_children(k: int, total: int, u: int, c: int, undirected: bool) -> Seq<(u32, u32)>
    decreases u, c,
{
    if u <= 0 {
        seq![]
    } else if c <= 0 {
        tree_children(k, total, u - 1, k, undirected)
    } else {
        let prev = tree_children(k, total, u, c - 1, undirected);
        let v = (u - 1) * k + c;
        if v < total {
            push_edge(prev, u - 1, v, undirected)
        } else {
            prev
        }
    }
}

/// The edges of a complete tree with branching `max(2, branching)`.
pub open spec fn tree_edges(branching: u32, depth: u32, undirected: bool) -> Seq<(u32, u32)> {
    let k = if branching < 2 { 2 } else { branching as int };
    let total = tree_total(k as u64, (depth + 1) as nat).0 as int;
    tree_children(k, total, (total - 1) / k, k, undirected)
}

/// The number of nodes of a complete tree with branching
/// `max(2, branching)` and levels `0 ..= depth`, saturating at `u64::MAX`.
pub fn tree_node_count(branching: u32, depth: u32) -> (total: u64)
    ensures
        total == tree_total(if branching < 2 { 2 } else { branching as u64 }, (depth + 1) as nat).0,
{
    let k: u64 = if branching < 2 { 2 } else { branching as u64 };
    let mut total: u64 = 0;
    let mut cur: u64 = 1;
    let mut l: u64 = 0;
    assert(tree_total(k, 0) == (0u64, 1u64));
    while l <= depth as u64
        invariant
            l <= depth + 1,
            (total, cur) == tree_total(k, l as nat),
        decreases depth + 1 - l,
    {
        total = match total.checked_add(cur) {
            Some(t) => t,
            None => u64::MAX,
        };
        cur = match cur.checked_mul(k) {
            Some(c) => c,
            None => u64::MAX,
        };
        l = l + 1;
    }
    total
}

/// The edges of a complete `k`-ary tree of the given depth.
pub fn generate_tree(branching: u32, depth: u32, undirected: bool) -> (es: Vec<(u32, u32)>)
    requires
        tree_total(if branching < 2 { 2 } else { branching as u64 }, (depth + 1) as nat).0 <= u32::MAX,
    ensures
        es@ == tree_edges(branching, depth, undirected),
{
    let k: u64 = if branching < 2 { 2 } else { branching as u64 };
    let total = tree_node_count(branching, depth);
    let ghost total_i = total as int;
    proof {
        lemma_tree_total(k, (depth + 1) as nat);
    }
    let max_parent = (total - 1) / k;
    let mut es: Vec<(u32, u32)> = Vec::new();
    let mut u: u32 = 0;
    assert(tree_children(k as int, total_i, 0, k as int, undirected) == Seq::<(u32, u32)>::empty());
    while (u as u64) < max_parent
        invariant
            u <= max_parent,
            max_parent <= u32::MAX,
            total >= 1,
            max_parent == (total - 1) / (k as int),
            k >= 2,
            k <= u32::MAX,
            total <= u32::MAX,
            total_i == total,
            es@ == tree_children(k as int, total_i, u as int, k as int, undirected),
        decreases max_parent - u,
    {
        let mut c: u64 = 1;
        let ghost base = es@;
        assert(tree_children(k as int, total_i, u + 1, 0, undirected) == base);
        while c <= k
            invariant
                1 <= c <= k + 1,
                k >= 2,
                k <= u32::MAX,
                (u as u64) < max_parent,
                total >= 1,
                max_parent == (total - 1) / (k as int),
                total <= u32::MAX,
                total_i == total,
                es@ == tree_children(k as int, total_i, u + 1, c - 1, undirected),
            decreases k + 1 - c,
        {
            proof {
                assert((u as int) * k + k <= total - 1) by (nonlinear_arith)
                    requires
                        (u as int) < (total - 1) / (k as int),
                        k >= 2,
                        total >= 1,
                ;
            }
            let v = (u as u64) * k + c;
            if v < total {
                push_edge_exec(&mut es, u, v as u32, undirected);
            }
            c = c + 1;
        }
        u = u + 1;
    }
    es
}

// ---------------------------------------------------------------------------
// R-MAT edges
// ---------------------------------------------------------------------------

/// The number whose bits, most significant first, are `pick` of each
/// quadrant choice.
pub open spec fn bits_value(qs: Seq<u8>, pick: spec_fn(u8) -> bool) -> nat
    decreases qs.len(),
{
    if qs.len() == 0 {
        0
    } else {
        2 * bits_value(qs.drop_last(), pick) + if pick(qs.last()) {
            1nat
        } else {
            0nat
        }
    }
}

pub open spec fn row_bit(q: u8) -> bool {
    q >= 2
}

pub open spec fn col_bit(q: u8) -> bool {
    q == 1 || q == 3
}

proof fn lemma_bits_bound(qs: Seq<u8>, pick: spec_fn(u8) -> bool)
    ensures
        bits_value(qs, pick) < vstd::arithmetic::power2::pow2(qs.len()),
    decreases qs.len(),
{
    if qs.len() > 0 {
        lemma_bits_bound(qs.drop_last(), pick);
        vstd::arithmetic::power2::lemma_pow2_unfold(qs.len());
    } else {
        vstd::arithmetic::power2::lemma2_to64();
    }
}

/// The edge an R-MAT descent picks: each level's quadrant (0 top-left,
/// 1 top-right, 2 bottom-left, 3 bottom-right) gives one bit of the source
/// (bottom half) and one of the target (right half), most significant
/// first.
pub fn rmat_edge(quadrants: &[u8]) -> (e: (u32, u32))
    requires
        quadrants.len() <= 32,
        forall|i: int| 0 <= i < quadrants.len() ==> #[trigger] quadrants@[i] < 4,
    ensures
        e.0 == bits_value(quadrants@, |q: u8| row_bit(q)),
        e.1 == bits_value(quadrants@, |q: u8| col_bit(q)),
{
    let mut u: u64 = 0;
    let mut v: u64 = 0;
    let mut i: usize = 0;
    while i < quadrants.len()
        invariant
            i <= quadrants.len() <= 32,
            u == bits_value(quadrants@.take(i as int), |q: u8| row_bit(q)),
            v == bits_value(quadrants@.take(i as int), |q: u8| col_bit(q)),
        decreases quadrants.len() - i,
    {
        proof {
            lemma_bits_bound(quadrants@.take(i as int), |q: u8| row_bit(q));
            lemma_bits_bound(quadrants@.take(i as int), |q: u8| col_bit(q));
            vstd::arithmetic::power2::lemma_pow2_strictly_increases(i as nat, 32);
            vstd::arithmetic::power2::lemma2_to64();
            assert(quadrants@.take(i + 1).drop_last() =~= quadrants@.take(i as int));
        }
        let q = quadrants[i];
        u = 2 * u + if q >= 2 { 1 } else { 0 };
        v = 2 * v + if q == 1 || q == 3 { 1 } else { 0 };
        i = i + 1;
    }
    assert(quadrants@.take(quadrants.len() as int) =~= quadrants@);
    proof {
        lemma_bits_bound(quadrants@, |q: u8| row_bit(q));
        lemma_bits_bound(quadrants@, |q: u8| col_bit(q));
        if quadrants.len() < 32 {
            vstd::arithmetic::power2::lemma_pow2_strictly_increases(quadrants.len() as nat, 32);
        }
        vstd::arithmetic::power2::lemma2_to64();
    }
    (u as u32, v as u32)
}

/// Adds a generated edge: a self loop only when allowed, and the reverse
/// edge too for an undirected graph (not for a self loop).
pub open spec fn add_generated(es: Seq<(u32, u32)>, e: (u32, u32), allow_self_loops: bool, undirected: bool) -> Seq<(u32, u32)> {
    if !allow_self_loops && e.0 == e.1 {
        es
    } else if undirected && e.0 != e.1 {
        es.push(e).push((e.1, e.0))
    } else {
        es.push(e)
    }
}

pub fn push_generated(es: &mut Vec<(u32, u32)>, e: (u32, u32), allow_self_loops: bool, undirected: bool)
    ensures
        final(es)@ == add_generated(old(es)@, e, allow_self_loops, undirected),
{
    if !allow_self_loops && e.0 == e.1 {
        return ;
    }
    es.push(e);
    if undirected && e.0 != e.1 {
        es.push((e.1, e.0));
    }
}

// ---------------------------------------------------------------------------
// CSR of a generated graph
// ---------------------------------------------------------------------------

pub open spec fn edge_keys(es: Seq<(u32, u32)>) -> Seq<(u64, u64)> {
    es.map_values(|e: (u32, u32)| (e.0 as u64, e.1 as u64))
}

/// The pairs whose source is below `a` and target below `b`, in order.
pub open spec fn within(s: Seq<(u64, u64)>, a: int, b: int) -> Seq<(u64, u64)>
    decreases s.len(),
{
    if s.len() == 0 {
        seq![]
    } else if s.last().0 < a && s.last().1 < b {
        within(s.drop_last(), a, b).push(s.last())
    } else {
        within(s.drop_last(), a, b)
    }
}

proof fn lemma_within(s: Seq<(u64, u64)>, a: int, b: int)
    requires
        sorted_pairs(s),
    ensures
        sorted_pairs(within(s, a, b)),
        within(s, a, b).len() <= s.len(),
        forall|k: int| 0 <= k < within(s, a, b).len() ==> (#[trigger] within(s, a, b)[k]).0 < a && within(s, a, b)[k].1 < b,
        forall|k: int| 0 <= k < within(s, a, b).len() ==> s.contains(#[trigger] within(s, a, b)[k]),
    decreases s.len(),
{
    if s.len() > 0 {
        let p = s.drop_last();
        assert(sorted_pairs(p));
        lemma_within(p, a, b);
        let w = within(p, a, b);
        assert forall|k: int| 0 <= k < w.len() implies s.contains(#[trigger] w[k]) by {
            let q = choose|q: int| 0 <= q < p.len() && p[q] == w[k];
            assert(s[q] == w[k]);
        }
        if s.last().0 < a && s.last().1 < b {
            let w2 = w.push(s.last());
            assert(s.contains(s.last())) by {
                assert(s[s.len() - 1] == s.last());
            }
            assert forall|x: int, y: int| 0 <= x < y < w2.len() implies pair_le(w2[x], w2[y]) by {
                if y == w.len() && x < y {
                    let q = choose|q: int| 0 <= q < p.len() && p[q] == w[x];
                    assert(pair_le(s[q], s[s.len() - 1]));
                } else if x < w.len() && y < w.len() {
                    assert(pair_le(w[x], w[y]));
                }
            }
            assert forall|k: int| 0 <= k < w2.len() implies s.contains(#[trigger] w2[k]) by {
                if k < w.len() {
                    assert(w2[k] == w[k]);
                }
            }
        }
    }
}

/// The CSR arrays of a generated graph over `src_count` source nodes: the
/// edges sorted by source then target, keeping those whose source and
/// target are nodes of their domains.
pub fn generated_csr(edges: &[(u32, u32)], src_count: u64, tgt_count: u64) -> (r: (Vec<u32>, Vec<u32>))
    requires
        src_count <= u32::MAX,
        edges.len() <= u32::MAX,
    ensures
        ({
            let kept = within(sorted_of(edge_keys(edges@)), src_count as int, tgt_count as int);
            &&& csr_offsets_ok(kept.map_values(|p: (u64, u64)| p.0 as u32), src_count as int, r.0@)
            &&& r.1@ == kept.map_values(|p: (u64, u64)| p.1 as u32)
        }),
{
    let ghost keys = edge_keys(edges@);
    let mut kv: Vec<(u64, u64)> = Vec::new();
    let mut i: usize = 0;
    while i < edges.len()
        invariant
            i <= edges.len(),
            keys == edge_keys(edges@),
            kv@ == keys.take(i as int),
        decreases edges.len() - i,
    {
        kv.push((edges[i].0 as u64, edges[i].1 as u64));
        i = i + 1;
        assert(kv@ =~= keys.take(i as int));
    }
    assert(kv@ =~= keys);
    let sorted = sort_pairs(kv.as_slice());
    proof {
        lemma_sorted_of(keys, sorted@);
        lemma_within(sorted@, src_count as int, tgt_count as int);
        assert(sorted@.to_multiset().len() == sorted@.len());
        assert(keys.to_multiset().len() == keys.len());
    }
    let ghost so = sorted@;
    let mut srcs: Vec<u32> = Vec::new();
    let mut cols: Vec<u32> = Vec::new();
    let mut j: usize = 0;
    assert(within(so.take(0), src_count as int, tgt_count as int) =~= Seq::<(u64, u64)>::empty());
    while j < sorted.len()
        invariant
            j <= sorted.len(),
            so == sorted@,
            srcs@ == within(so.take(j as int), src_count as int, tgt_count as int).map_values(|p: (u64, u64)| p.0 as u32),
            cols@ == within(so.take(j as int), src_count as int, tgt_count as int).map_values(|p: (u64, u64)| p.1 as u32),
        decreases sorted.len() - j,
    {
        let (a, b) = sorted[j];
        assert(so.take(j + 1).drop_last() =~= so.take(j as int));
        if a < src_count && b < tgt_count {
            srcs.push(a as u32);
            cols.push(b as u32);
        }
        j = j + 1;
        assert(srcs@ =~= within(so.take(j as int), src_count as int, tgt_count as int).map_values(|p: (u64, u64)| p.0 as u32));
        assert(cols@ =~= within(so.take(j as int), src_count as int, tgt_count as int).map_values(|p: (u64, u64)| p.1 as u32));
    }
    assert(so.take(so.len() as int) =~= so);
    proof {
        let w = within(so, src_count as int, tgt_count as int);
        let sv = srcs@;
        assert forall|a: int, b: int| 0 <= a <= b < sv.len() implies sv[a] <= sv[b] by {
            assert(sv[a] == w[a].0 as u32 && sv[b] == w[b].0 as u32);
            if a < b {
                assert(pair_le(w[a], w[b]));
            }
        }
        assert(nondecreasing(sv));
    }
    let off = csr_offsets(srcs.as_slice(), src_count as usize);
    (off, cols)
}

// ---------------------------------------------------------------------------
// Attribute list of the command line
// ---------------------------------------------------------------------------

/// A synthetic edge attribute: its name, type code and dimension.
pub struct AttributeSpec {
    pub name: String,
    pub type_code: u8,
    pub dimension: u32,
}

/// The type code of an attribute type name (already lower-cased).
pub open spec fn attr_type_code(t: Seq<char>) -> u8 {
    if t == "i32"@ || t == "int32"@ || t == "int"@ {
        1
    } else if t == "i64"@ || t == "int64"@ || t == "long"@ || t == "timestamp"@ {
        2
    } else if t == "f32"@ || t == "float32"@ || t == "float"@ || t == "weight"@ {
        3
    } else if t == "f64"@ || t == "float64"@ || t == "double"@ {
        4
    } else {
        3
    }
}

/// One `name[:type]` item: its name and type code (a missing type is
/// `f32`).
pub open spec fn attr_item(p: Seq<char>) -> (Seq<char>, u8) {
    let sub = split(p, ':');
    let t = if sub.len() > 1 {
        lower(trim(sub[1]))
    } else {
        "f32"@
    };
    (trim(sub[0]), attr_type_code(t))
}

/// The attributes of a comma-separated list, skipping empty items.
pub open spec fn attr_items(parts: Seq<Seq<char>>) -> Seq<(Seq<char>, u8)>
    decreases parts.len(),
{
    if parts.len() == 0 {
        seq![]
    } else {
        let prev = attr_items(parts.drop_last());
        let p = trim(parts.last());
        if p.len() == 0 {
            prev
        } else {
            prev.push(attr_item(p))
        }
    }
}

pub open spec fn attr_specs_of(attrs: Option<Seq<char>>) -> Seq<(Seq<char>, u8)> {
    match attrs {
        Some(s) => attr_items(split(s, ',')),
        None => seq![],
    }
}

pub open spec fn spec_views(v: Seq<AttributeSpec>) -> Seq<(Seq<char>, u8)> {
    v.map_values(|a: AttributeSpec| (a.name@, a.type_code))
}

fn type_code_exec(t: &[char]) -> (c: u8)
    ensures
        c == attr_type_code(t@),
{
    if eq_str(t, "i32") || eq_str(t, "int32") || eq_str(t, "int") {
        1
    } else if eq_str(t, "i64") || eq_str(t, "int64") || eq_str(t, "long") || eq_str(t, "timestamp") {
        2
    } else if eq_str(t, "f32") || eq_str(t, "float32") || eq_str(t, "float") || eq_str(t, "weight") {
        3
    } else if eq_str(t, "f64") || eq_str(t, "float64") || eq_str(t, "double") {
        4
    } else {
        3
    }
}

proof fn lemma_split_nonempty(s: Seq<char>, c: char)
    ensures
        split(s, c).len() >= 1,
    decreases s.len(),
{
    crate::text::lemma_first_index_some(s, c);
    match crate::text::first_index(s, c) {
        Some(k) => {
            lemma_split_nonempty(s.skip(k + 1), c);
        },
        None => {},
    }
}

/// Reads the `--attributes` list: `name[:type]` items separated by commas,
/// each of dimension 1.
pub fn parse_attribute_specs(attrs: Option<&str>) -> (r: Vec<AttributeSpec>)
    ensures
        spec_views(r@) == attr_specs_of(
            match attrs {
                Some(s) => Some(s@),
                None => None,
            },
        ),
        forall|i: int| 0 <= i < r.len() ==> (#[trigger] r@[i]).dimension == 1,
{
    let mut out: Vec<AttributeSpec> = Vec::new();
    match attrs {
        None => {
            assert(spec_views(out@) =~= Seq::<(Seq<char>, u8)>::empty());
        },
        Some(s) => {
            let cs = chars_of(s);
            let parts = split_exec(cs.as_slice(), ',');
            let ghost pv = parts@.map_values(|v: Vec<char>| v@);
            let mut i: usize = 0;
            assert(spec_views(out@) =~= attr_items(pv.take(0)));
            while i < parts.len()
                invariant
                    i <= parts.len(),
                    pv == parts@.map_values(|v: Vec<char>| v@),
                    spec_views(out@) == attr_items(pv.take(i as int)),
                    forall|q: int| 0 <= q < out.len() ==> (#[trigger] out@[q]).dimension == 1,
                decreases parts.len() - i,
            {
                assert(pv.take(i + 1).drop_last() =~= pv.take(i as int));
                assert(pv[i as int] == parts@[i as int]@);
                let p = trim_chars(parts[i].as_slice());
                if p.len() > 0 {
                    let sub = split_exec(p.as_slice(), ':');
                    proof {
                        lemma_split_nonempty(p@, ':');
                    }
                    let ghost sv = sub@.map_values(|v: Vec<char>| v@);
                    let name = trim_chars(sub[0].as_slice());
                    assert(sv[0] == sub@[0]@);
                    let code = if sub.len() > 1 {
                        assert(sv[1] == sub@[1]@);
                        let t = trim_chars(sub[1].as_slice());
                        let l = lower_exec(t.as_slice());
                        type_code_exec(l.as_slice())
                    } else {
                        proof {
                            reveal_strlit("f32");
                        }
                        let f = chars_of("f32");
                        type_code_exec(f.as_slice())
                    };
                    let ghost before = out@;
                    out.push(AttributeSpec { name: string_from(name.as_slice()), type_code: code, dimension: 1 });
                    assert(spec_views(out@) =~= spec_views(before).push((name@, code)));
                }
                i = i + 1;
            }
            assert(pv.take(parts.len() as int) =~= pv);
        },
    }
    out
}

/// The header of the empty domain index of a generated domain of `size`
/// nodes: key count (at least 16, else one and a half times the size) and
/// seed as little-endian `u64`, a zero string-table size and 12 zero bytes.
pub open spec fn generated_index_header(size: u64) -> Seq<u8> {
    let kc = if size * 3 / 2 < 16 {
        16
    } else {
        size * 3 / 2
    };
    le_bytes(kc as nat, 8) + le_bytes(0x1234567890ABCDEF, 8) + le_bytes(0, 4) + Seq::new(12, |i: int| 0u8)
}

/// `n` as `k` little-endian bytes.
pub open spec fn le_bytes(n: nat, k: nat) -> Seq<u8>
    decreases k,
{
    if k == 0 {
        seq![]
    } else {
        seq![(n % 256) as u8] + le_bytes(n / 256, (k - 1) as nat)
    }
}

/// Appends `n` as `k` little-endian bytes.
pub fn push_le(out: &mut Vec<u8>, n: u64, k: usize)
    requires
        k <= 8,
    ensures
        final(out)@ == old(out)@ + le_bytes(n as nat, k as nat),
{
    let ghost start = old(out)@;
    let mut m = n;
    let mut i: usize = 0;
    while i < k
        invariant
            i <= k,
            out@ + le_bytes(m as nat, (k - i) as nat) == start + le_bytes(n as nat, k as nat),
        decreases k - i,
    {
        let ghost before = out@;
        out.push((m % 256) as u8);
        proof {
            assert(le_bytes(m as nat, (k - i) as nat) == seq![(m % 256) as u8] + le_bytes((m / 256) as nat, (k - i - 1) as nat));
            assert(out@ + le_bytes((m / 256) as nat, (k - i - 1) as nat) =~= before + le_bytes(m as nat, (k - i) as nat));
        }
        m = m / 256;
        i = i + 1;
    }
    assert(out@ + le_bytes(m as nat, 0) =~= out@);
}

/// The header of the empty domain index of a generated domain.
pub fn generated_index(size: u64) -> (r: Vec<u8>)
    requires
        size <= u32::MAX,
    ensures
        r@ == generated_index_header(size),
{
    let t = size * 3 / 2;
    let kc = if t < 16 { 16 } else { t };
    let mut out: Vec<u8> = Vec::new();
    push_le(&mut out, kc, 8);
    push_le(&mut out, 0x1234567890ABCDEF, 8);
    push_le(&mut out, 0, 4);
    let mut i: usize = 0;
    let ghost head = out@;
    while i < 12
        invariant
            i <= 12,
            out@ == head + Seq::new(i as nat, |j: int| 0u8),
        decreases 12 - i,
    {
        out.push(0);
        i = i + 1;
        assert(out@ =~= head + Seq::new(i as nat, |j: int| 0u8));
    }
    assert(out@ =~= generated_index_header(size));
    out
}

// ---------------------------------------------------------------------------
// Laws
// ---------------------------------------------------------------------------

/// The plain (non-saturating) node count `1 + k + ... + k^(l-1)` and `k^l`.
spec fn tree_sum(k: int, l: nat) -> (int, int)
    decreases l,
{
    if l == 0 {
        (0, 1)
    } else {
        let (t, c) = tree_sum(k, (l - 1) as nat);
        (t + c, c * k)
    }
}

#[verifier::spinoff_prover]
proof fn lemma_tree_sum(k: int, l: nat)
    requires
        k >= 2,
    ensures
        tree_sum(k, l).1 >= 1,
        tree_sum(k, l).0 >= 0,
        tree_sum(k, l).0 + tree_sum(k, l).1 - 1 == k * tree_sum(k, l).0,
    decreases l,
{
    if l == 0 {
        assert(tree_sum(k, 0) == (0int, 1int));
    } else {
        lemma_tree_sum(k, (l - 1) as nat);
        let (t, c) = tree_sum(k, (l - 1) as nat);
        assert(tree_sum(k, l) == (t + c, c * k));
        assert(c * k >= 1) by (nonlinear_arith)
            requires
                c >= 1,
                k >= 2,
        ;
        assert((t + c) + c * k - 1 == k * (t + c)) by (nonlinear_arith)
            requires
                t + c - 1 == k * t,
        ;
    }
}

/// While the saturating count stays within `u32`, it is the plain count.
proof fn lemma_tree_total_exact(k: u64, l: nat)
    requires
        k >= 2,
        tree_total(k, l).0 <= u32::MAX,
    ensures
        tree_total(k, l).0 == tree_sum(k as int, l).0,
        tree_total(k, l).1 <= u32::MAX ==> tree_total(k, l).1 == tree_sum(k as int, l).1,
    decreases l,
{
    if l > 0 {
        let (t, cur) = tree_total(k, (l - 1) as nat);
        assert(t + cur <= u32::MAX);
        lemma_tree_total_exact(k, (l - 1) as nat);
        let (st, sc) = tree_sum(k as int, (l - 1) as nat);
        assert(tree_sum(k as int, l) == (st + sc, sc * k));
        assert(cur == sc);
    }
}

/// The number of children of parents `0 .. u` (the last one up to its
/// `c`-th child) below `total`.
proof fn lemma_tree_children_len(k: int, total: int, u: int, c: int)
    requires
        k >= 1,
        total >= 1,
        u >= 0,
        0 <= c <= k,
    ensures
        tree_children(k, total, u, c, false).len() == if u <= 0 {
            0
        } else if (u - 1) * k + c <= total - 1 {
            (u - 1) * k + c
        } else {
            total - 1
        },
    decreases u, c,
{
    if u > 0 {
        if c <= 0 {
            lemma_tree_children_len(k, total, u - 1, k);
            if u - 1 > 0 {
                assert((u - 2) * k + k == (u - 1) * k) by (nonlinear_arith);
            } else {
                assert((u - 1) * k == 0) by (nonlinear_arith)
                    requires
                        u == 1,
                ;
            }
        } else {
            lemma_tree_children_len(k, total, u, c - 1);
            assert((u - 1) * k >= 0) by (nonlinear_arith)
                requires
                    u >= 1,
                    k >= 1,
            ;
        }
    }
}

/// A generated tree of `n` nodes has `n - 1` edges (twice as many when
/// undirected edges are stored both ways).
pub proof fn law_tree_has_one_edge_less_than_nodes(branching: u32, depth: u32)
    requires
        tree_total(if branching < 2 { 2 } else { branching as u64 }, (depth + 1) as nat).0 <= u32::MAX,
    ensures
        ({
            let n = tree_total(if branching < 2 { 2 } else { branching as u64 }, (depth + 1) as nat).0;
            tree_edges(branching, depth, false).len() == n - 1
        }),
{
    let k: u64 = if branching < 2 { 2 } else { branching as u64 };
    let ki = k as int;
    let l = (depth + 1) as nat;
    lemma_tree_total_exact(k, l);
    lemma_tree_sum(ki, depth as nat);
    let total = tree_total(k, l).0 as int;
    let (sd, cd) = tree_sum(ki, depth as nat);
    assert(tree_sum(ki, l) == (sd + cd, cd * ki));
    assert(total - 1 == ki * sd);
    let u = (total - 1) / ki;
    assert(u == sd) by (nonlinear_arith)
        requires
            total - 1 == ki * sd,
            ki >= 2,
            u == (total - 1) / ki,
    ;
    assert(total >= 1);
    lemma_tree_children_len(ki, total, u, ki);
    assert((u - 1) * ki + ki == total - 1) by (nonlinear_arith)
        requires
            u * ki == total - 1,
    ;
    assert(tree_edges(branching, depth, false) == tree_children(ki, total, u, ki, false));
}

/// A generated star of `n` nodes has `n - 1` edges.
pub proof fn law_star_has_one_edge_less_than_nodes(n: u64, v: int)
    requires
        1 <= v,
    ensures
        star_edges(n, false, v).len() == v - 1,
    decreases v,
{
    if v > 1 {
        law_star_has_one_edge_less_than_nodes(n, v - 1);
    }
}


proof fn lemma_tree_children_both_ways(k: int, total: int, u: int, c: int)
    ensures
        tree_children(k, total, u, c, true).len() == 2 * tree_children(k, total, u, c, false).len(),
        forall|i: int|
            0 <= i < tree_children(k, total, u, c, false).len() ==> {
                let e = #[trigger] tree_children(k, total, u, c, false)[i];
                &&& tree_children(k, total, u, c, true)[2 * i] == e
                &&& tree_children(k, total, u, c, true)[2 * i + 1] == (e.1, e.0)
            },
    decreases u, c,
{
    if u <= 0 {
    } else if c <= 0 {
        lemma_tree_children_both_ways(k, total, u - 1, k);
    } else {
        lemma_tree_children_both_ways(k, total, u, c - 1);
        let f0 = tree_children(k, total, u, c - 1, false);
        let t0 = tree_children(k, total, u, c - 1, true);
        let v = (u - 1) * k + c;
        if v < total {
            let f = tree_children(k, total, u, c, false);
            let t = tree_children(k, total, u, c, true);
            assert(f == f0.push(((u - 1) as u32, v as u32)));
            assert(t == t0.push(((u - 1) as u32, v as u32)).push((v as u32, (u - 1) as u32)));
            assert forall|i: int| 0 <= i < f.len() implies {
                let e = #[trigger] f[i];
                &&& t[2 * i] == e
                &&& t[2 * i + 1] == (e.1, e.0)
            } by {
                if i < f0.len() {
                    assert(f[i] == f0[i]);
                    assert(t[2 * i] == t0[2 * i]);
                    assert(t[2 * i + 1] == t0[2 * i + 1]);
                }
            }
        }
    }
}

/// An undirected tree holds every edge of the directed tree of the same
/// shape followed at once by its reverse: twice as many edges, the edge
/// `(u, v)` at position `2i` and `(v, u)` at `2i + 1`.
pub proof fn law_undirected_tree_doubles_edges(branching: u32, depth: u32)
    ensures
        tree_edges(branching, depth, true).len() == 2 * tree_edges(branching, depth, false).len(),
        forall|i: int|
            0 <= i < tree_edges(branching, depth, false).len() ==> {
                let e = #[trigger] tree_edges(branching, depth, false)[i];
                &&& tree_edges(branching, depth, true)[2 * i] == e
                &&& tree_edges(branching, depth, true)[2 * i + 1] == (e.1, e.0)
            },
{
    let k = if branching < 2 { 2 } else { branching as int };
    let total = tree_total(k as u64, (depth + 1) as nat).0 as int;
    lemma_tree_children_both_ways(k, total, (total - 1) / k, k);
}

} // verus!
