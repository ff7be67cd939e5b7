//! How the parallel random generators split their work: each thread takes a
//! chunk of the target count and a seed of its own.  Also the draws of one
//! thread of the uniform bipartite generator.
use vstd::prelude::*;
use rand::rngs::StdRng;
use crate::generate::{le_bytes, push_le};
use crate::sexpr::{dec, dec_int, dec_i64, dec_u64};
use crate::text::{append_chars, append_str, chars_of, string_from};

verus! {

#[verifier::external_type_specification]
#[verifier::external_body]
pub struct ExStdRng(StdRng);

/// `Rng::gen_range(0..n)`: a value below `n`, drawn by the generator (the
/// call panics on an empty range).  Nothing is said of which value comes.
#[verifier::external_body]
fn gen_below(rng: &mut StdRng, n: u32) -> (r: u32)
    requires
        n > 0,
    ensures
        r < n,
{
    rand::Rng::gen_range(rng, 0..n)
}

/// `Rng::gen_range(0..n)` over `i32`: a value in `0 .. n`.
#[verifier::external_body]
fn gen_i32_below(rng: &mut StdRng, n: i32) -> (r: i32)
    requires
        n > 0,
    ensures
        0 <= r < n,
{
    rand::Rng::gen_range(rng, 0..n)
}

/// `Rng::gen_range(0..n)` over `i64`: a value in `0 .. n`.
#[verifier::external_body]
fn gen_i64_below(rng: &mut StdRng, n: i64) -> (r: i64)
    requires
        n > 0,
    ensures
        0 <= r < n,
{
    rand::Rng::gen_range(rng, 0..n)
}

/// Each of `threads` threads takes `ceil(target / threads)` items.
pub open spec fn chunk_of(target: nat, threads: nat) -> nat {
    ((target + threads - 1) / (threads as int)) as nat
}

/// The chunk size of a split of `target` items over `threads` threads.
pub fn chunk_size(target: u64, threads: u64) -> (c: u64)
    requires
        threads > 0,
        target + threads - 1 <= u64::MAX,
    ensures
        c == chunk_of(target as nat, threads as nat),
{
    (target + (threads - 1)) / threads
}

/// The items thread `tid` takes: from `tid * chunk` on, at most `chunk` of
/// them, none past the target.
pub open spec fn thread_count(target: nat, chunk: nat, tid: nat) -> nat {
    let start = tid * chunk;
    if start >= target {
        0
    } else if chunk <= target - start {
        chunk
    } else {
        (target - start) as nat
    }
}

/// The seed of thread `tid`: the run's seed plus `tid` times a per-generator
/// odd constant, both wrapping around.
pub open spec fn thread_seed_of(seed: u64, tid: u64, mult: u64) -> u64 {
    seed.wrapping_add(tid.wrapping_mul(mult))
}

/// The work of one thread: its seed and the number of items it draws.
pub fn thread_plan(seed: u64, mult: u64, target: u64, chunk: u64, tid: u64) -> (r: (u64, u64))
    requires
        tid * chunk <= u64::MAX,
    ensures
        r.0 == thread_seed_of(seed, tid, mult),
        r.1 == thread_count(target as nat, chunk as nat, tid as nat),
{
    let s = seed.wrapping_add(tid.wrapping_mul(mult));
    let start = tid * chunk;
    let count = if start >= target {
        0
    } else if chunk <= target - start {
        chunk
    } else {
        target - start
    };
    (s, count)
}

/// The items the first `k` threads take together.
pub open spec fn shares(target: nat, chunk: nat, k: nat) -> nat
    decreases k,
{
    if k == 0 {
        0
    } else {
        shares(target, chunk, (k - 1) as nat) + thread_count(target, chunk, (k - 1) as nat)
    }
}

proof fn lemma_shares(target: nat, chunk: nat, k: nat)
    ensures
        shares(target, chunk, k) == if k * chunk <= target {
            k * chunk
        } else {
            target
        },
    decreases k,
{
    if k > 0 {
        let j = (k - 1) as nat;
        lemma_shares(target, chunk, j);
        assert(k * chunk == j * chunk + chunk) by (nonlinear_arith)
            requires
                k == j + 1,
        ;
        assert(j * chunk <= k * chunk);
    } else {
        assert(k * chunk == 0) by (nonlinear_arith)
            requires
                k == 0,
        ;
    }
}

/// The threads' shares add up to the whole: with the chunk size of a split
/// over `threads` threads, those threads take exactly `target` items between
/// them.
pub proof fn law_chunks_cover_target(target: nat, threads: nat)
    requires
        threads > 0,
    ensures
        shares(target, chunk_of(target, threads), threads) == target,
{
    let c = chunk_of(target, threads);
    let x = target + threads - 1;
    vstd::arithmetic::div_mod::lemma_fundamental_div_mod(x as int, threads as int);
    assert(x % (threads as int) < threads) by {
        vstd::arithmetic::div_mod::lemma_mod_pos_bound(x as int, threads as int);
    }
    assert(threads * c >= target) by (nonlinear_arith)
        requires
            x == (threads as int) * (x / (threads as int)) + x % (threads as int),
            x % (threads as int) < threads,
            c == x / (threads as int),
            x == target + threads - 1,
    ;
    lemma_shares(target, c, threads);
}

/// Draws `count` edges from `src_nodes` source nodes to `tgt_nodes` target
/// nodes, each endpoint uniformly at random.
pub fn bipartite_draws(rng: &mut StdRng, count: u64, src_nodes: u32, tgt_nodes: u32) -> (es: Vec<(u32, u32)>)
    requires
        src_nodes > 0,
        tgt_nodes > 0,
    ensures
        es.len() == count,
        forall|i: int| 0 <= i < es.len() ==> #[trigger] es@[i].0 < src_nodes && es@[i].1 < tgt_nodes,
{
    let mut es: Vec<(u32, u32)> = Vec::new();
    let mut i: u64 = 0;
    while i < count
        invariant
            i <= count,
            es.len() == i,
            src_nodes > 0,
            tgt_nodes > 0,
            forall|j: int| 0 <= j < es.len() ==> #[trigger] es@[j].0 < src_nodes && es@[j].1 < tgt_nodes,
        decreases count - i,
    {
        let u = gen_below(rng, src_nodes);
        let v = gen_below(rng, tgt_nodes);
        es.push((u, v));
        i = i + 1;
    }
    es
}

// ---------------------------------------------------------------------------
// Synthetic integer attributes
// ---------------------------------------------------------------------------

/// The first timestamp of synthetic `i64` attributes.
pub const BASE_TIMESTAMP: i64 = 1700000000;

/// The values a synthetic integer attribute takes: `0 .. 10` for type code 1
/// (`i32`), timestamps in `BASE_TIMESTAMP .. BASE_TIMESTAMP + 10^7` for type
/// code 2 (`i64`).
pub open spec fn int_attr_range(type_code: u8, v: int) -> bool {
    if type_code == 1 {
        0 <= v < 10
    } else {
        BASE_TIMESTAMP <= v < BASE_TIMESTAMP + 10_000_000
    }
}

/// The little-endian bytes of the values: 4 each for type code 1, 8 for 2.
pub open spec fn int_column_bytes(type_code: u8, vals: Seq<int>) -> Seq<u8>
    decreases vals.len(),
{
    if vals.len() == 0 {
        seq![]
    } else {
        let v = vals.last();
        int_column_bytes(type_code, vals.drop_last()) + if type_code == 1 {
            le_bytes(v as nat, 4)
        } else {
            le_bytes(v as nat, 8)
        }
    }
}

fn draw_int_attr(rng: &mut StdRng, type_code: u8) -> (v: i64)
    requires
        type_code == 1 || type_code == 2,
    ensures
        int_attr_range(type_code, v as int),
{
    if type_code == 1 {
        gen_i32_below(rng, 10) as i64
    } else {
        BASE_TIMESTAMP + gen_i64_below(rng, 10_000_000)
    }
}

/// The data of a synthetic integer attribute over `edge_count` edges, each
/// value drawn from its type's range.
pub fn random_int_column(rng: &mut StdRng, type_code: u8, edge_count: u64) -> (data: Vec<u8>)
    requires
        type_code == 1 || type_code == 2,
    ensures
        exists|vals: Seq<int>|
            #![trigger int_column_bytes(type_code, vals)]
            vals.len() == edge_count && (forall|i: int| 0 <= i < vals.len() ==> int_attr_range(type_code, #[trigger] vals[i]))
                && data@ == int_column_bytes(type_code, vals),
{
    let mut data: Vec<u8> = Vec::new();
    let ghost mut vals: Seq<int> = seq![];
    let mut k: u64 = 0;
    while k < edge_count
        invariant
            k <= edge_count,
            type_code == 1 || type_code == 2,
            vals.len() == k,
            forall|i: int| 0 <= i < vals.len() ==> int_attr_range(type_code, #[trigger] vals[i]),
            data@ == int_column_bytes(type_code, vals),
        decreases edge_count - k,
    {
        let v = draw_int_attr(rng, type_code);
        proof {
            assert(vals.push(v as int).drop_last() =~= vals);
        }
        if type_code == 1 {
            push_le(&mut data, v as u64, 4);
        } else {
            push_le(&mut data, v as u64, 8);
        }
        proof {
            vals = vals.push(v as int);
        }
        k = k + 1;
    }
    data
}

/// The header line of a delimited edge file: `src`, `tgt` and the attribute
/// names, separated by the delimiter.
pub open spec fn delimited_header_of(delim: char, names: Seq<Seq<char>>) -> Seq<char>
    decreases names.len(),
{
    if names.len() == 0 {
        "src"@ + seq![delim] + "tgt"@
    } else {
        delimited_header_of(delim, names.drop_last()) + seq![delim] + names.last()
    }
}

pub fn delimited_header(delim: char, names: &Vec<String>) -> (s: String)
    ensures
        s@ == delimited_header_of(delim, names@.map_values(|n: String| n@)),
{
    let ghost nv = names@.map_values(|n: String| n@);
    let mut out: Vec<char> = Vec::new();
    append_str(&mut out, "src");
    out.push(delim);
    append_str(&mut out, "tgt");
    let mut i: usize = 0;
    assert(nv.take(0) =~= Seq::<Seq<char>>::empty());
    while i < names.len()
        invariant
            i <= names.len(),
            nv == names@.map_values(|n: String| n@),
            out@ == delimited_header_of(delim, nv.take(i as int)),
        decreases names.len() - i,
    {
        out.push(delim);
        let cs = chars_of(names[i].as_str());
        append_chars(&mut out, cs.as_slice());
        assert(nv.take(i + 1).drop_last() =~= nv.take(i as int));
        i = i + 1;
    }
    assert(nv.take(names.len() as int) =~= nv);
    string_from(out.as_slice())
}

/// The start of an edge's line: source and target separated by the
/// delimiter.
pub open spec fn edge_fields_of(src: u32, tgt: u32, delim: char) -> Seq<char> {
    dec(src as nat) + seq![delim] + dec(tgt as nat)
}

pub fn edge_fields(src: u32, tgt: u32, delim: char) -> (s: String)
    ensures
        s@ == edge_fields_of(src, tgt, delim),
{
    let mut out: Vec<char> = Vec::new();
    let a = dec_u64(src as u64);
    append_chars(&mut out, a.as_slice());
    out.push(delim);
    let b = dec_u64(tgt as u64);
    append_chars(&mut out, b.as_slice());
    string_from(out.as_slice())
}

/// The text of one synthetic integer attribute value drawn for a delimited
/// file.
pub fn random_int_field(rng: &mut StdRng, type_code: u8) -> (s: String)
    requires
        type_code == 1 || type_code == 2,
    ensures
        exists|v: int| #[trigger] int_attr_range(type_code, v) && s@ == dec_int(v),
{
    let v = draw_int_attr(rng, type_code);
    let s = dec_i64(v);
    assert(int_attr_range(type_code, v as int));
    s
}

} // verus!
