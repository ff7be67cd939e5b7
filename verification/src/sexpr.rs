//! S-expressions of the query language, their mathematical view, and the
//! decimal spelling of integers used when they are printed.
use vstd::prelude::*;
use crate::text::{chars_of, string_from};

verus! {

/// An S-expression.  A floating-point literal is kept as the text it was
/// written with.
#[derive(Debug)]
pub enum SExpr {
    Symbol(String),
    Int(i64),
    Float(String),
    Str(String),
    Bool(bool),
    List(Vec<SExpr>),
}

/// The mathematical value of an `SExpr`.
pub enum Sx {
    Symbol(Seq<char>),
    Int(int),
    Float(Seq<char>),
    Str(Seq<char>),
    Bool(bool),
    List(Seq<Sx>),
}

pub open spec fn sx(e: SExpr) -> Sx
    decreases e,
{
    match e {
        SExpr::Symbol(s) => Sx::Symbol(s@),
        SExpr::Int(n) => Sx::Int(n as int),
        SExpr::Float(s) => Sx::Float(s@),
        SExpr::Str(s) => Sx::Str(s@),
        SExpr::Bool(b) => Sx::Bool(b),
        SExpr::List(v) => Sx::List(sxs(v@)),
    }
}

pub open spec fn sxs(s: Seq<SExpr>) -> Seq<Sx>
    decreases s,
{
    if s.len() == 0 {
        seq![]
    } else {
        sxs(s.drop_last()).push(sx(s.last()))
    }
}

pub proof fn lemma_sxs(s: Seq<SExpr>)
    ensures
        sxs(s).len() == s.len(),
        forall|i: int| 0 <= i < s.len() ==> #[trigger] sxs(s)[i] == sx(s[i]),
    decreases s.len(),
{
    if s.len() > 0 {
        lemma_sxs(s.drop_last());
        assert forall|i: int| 0 <= i < s.len() implies #[trigger] sxs(s)[i] == sx(s[i]) by {
            if i < s.len() - 1 {
                assert(s.drop_last()[i] == s[i]);
            }
        }
    }
}

pub proof fn lemma_sxs_push(s: Seq<SExpr>, e: SExpr)
    ensures
        sxs(s.push(e)) == sxs(s).push(sx(e)),
{
    assert(s.push(e).drop_last() =~= s);
}

/// The number of nodes of an expression: one per atom and per list.
pub open spec fn sx_size(e: Sx) -> nat
    decreases e,
{
    match e {
        Sx::List(l) => 1 + seq_size(l),
        _ => 1,
    }
}

/// The number of nodes of a sequence of expressions.
pub open spec fn seq_size(l: Seq<Sx>) -> nat
    decreases l,
{
    if l.len() == 0 {
        0
    } else {
        seq_size(l.drop_last()) + sx_size(l.last())
    }
}

/// The nodes of a concatenation are those of its parts.
pub proof fn lemma_seq_size_append(a: Seq<Sx>, b: Seq<Sx>)
    ensures
        seq_size(a + b) == seq_size(a) + seq_size(b),
    decreases b.len(),
{
    if b.len() == 0 {
        assert(a + b =~= a);
    } else {
        lemma_seq_size_append(a, b.drop_last());
        assert((a + b).drop_last() =~= a + b.drop_last());
        assert((a + b).last() == b.last());
    }
}

/// Two distinct items of a sequence hold no more nodes than the sequence.
pub proof fn lemma_seq_size_items(l: Seq<Sx>, i: int, j: int)
    requires
        0 <= i < l.len(),
        0 <= j < l.len(),
    ensures
        sx_size(l[i]) <= seq_size(l),
        i != j ==> sx_size(l[i]) + sx_size(l[j]) <= seq_size(l),
    decreases l.len(),
{
    let p = l.drop_last();
    let n = l.len() - 1;
    if i < n && j < n {
        lemma_seq_size_items(p, i, j);
        assert(p[i] == l[i] && p[j] == l[j]);
    } else if i < n {
        lemma_seq_size_items(p, i, i);
        assert(p[i] == l[i]);
    } else if j < n {
        lemma_seq_size_items(p, j, j);
        assert(p[j] == l[j]);
    }
}

/// The nodes of a sequence's tail after its first `k` items.
pub proof fn lemma_seq_size_skip(l: Seq<Sx>, k: int)
    requires
        0 <= k <= l.len(),
    ensures
        seq_size(l.skip(k)) <= seq_size(l),
        seq_size(l) == seq_size(l.take(k)) + seq_size(l.skip(k)),
{
    lemma_seq_size_append(l.take(k), l.skip(k));
    assert(l.take(k) + l.skip(k) =~= l);
}

/// Whether the expressions hold at most `limit` nodes; `Some` gives the
/// part of the limit left over.
fn size_within(e: &SExpr, limit: usize) -> (r: Option<usize>)
    ensures
        match r {
            Some(rest) => sx_size(sx(*e)) <= limit && rest == limit - sx_size(sx(*e)),
            None => sx_size(sx(*e)) > limit,
        },
    decreases e,
{
    if limit == 0 {
        return None;
    }
    match e {
        SExpr::List(v) => {
            let ghost items = sxs(v@);
            proof {
                lemma_sxs(v@);
            }
            let mut left = limit - 1;
            let mut i: usize = 0;
            assert(items.take(0) =~= Seq::<Sx>::empty());
            while i < v.len()
                invariant
                    i <= v.len(),
                    *e == SExpr::List(*v),
                    items == sxs(v@),
                    items.len() == v.len(),
                    forall|j: int| 0 <= j < v.len() ==> #[trigger] items[j] == sx(v@[j]),
                    seq_size(items.take(i as int)) + left == limit - 1,
                decreases v.len() - i,
            {
                proof {
                    assert(decreases_to!(*e => (*e)->List_0));
                    assert(decreases_to!(*v => v@));
                    assert(decreases_to!(v@ => v@[i as int]));
                    assert(decreases_to!(*e => v@[i as int]));
                    assert(items.take(i + 1).drop_last() =~= items.take(i as int));
                    assert(items.take(i + 1).last() == sx(v@[i as int]));
                }
                match size_within(&v[i], left) {
                    Some(r) => {
                        left = r;
                    },
                    None => {
                        proof {
                            lemma_seq_size_skip(items, i + 1);
                            lemma_seq_size_skip(items.take(i + 1), i as int);
                            assert(items.take(i + 1).take(i as int) =~= items.take(i as int));
                        }
                        return None;
                    },
                }
                i = i + 1;
            }
            assert(items.take(v.len() as int) =~= items);
            Some(left)
        },
        _ => Some(limit - 1),
    }
}

/// Whether the expressions hold at most `limit` nodes in all.
pub fn sizes_within(es: &[SExpr], limit: usize) -> (b: bool)
    ensures
        b <==> seq_size(sxs(es@)) <= limit,
{
    let ghost items = sxs(es@);
    proof {
        lemma_sxs(es@);
    }
    let mut left = limit;
    let mut i: usize = 0;
    assert(items.take(0) =~= Seq::<Sx>::empty());
    while i < es.len()
        invariant
            i <= es.len(),
            items == sxs(es@),
            items.len() == es.len(),
            forall|j: int| 0 <= j < es.len() ==> #[trigger] items[j] == sx(es@[j]),
            seq_size(items.take(i as int)) + left == limit,
        decreases es.len() - i,
    {
        proof {
            assert(items.take(i + 1).drop_last() =~= items.take(i as int));
            assert(items.take(i + 1).last() == sx(es@[i as int]));
        }
        match size_within(&es[i], left) {
            Some(r) => {
                left = r;
            },
            None => {
                proof {
                    lemma_seq_size_skip(items, i + 1);
                    lemma_seq_size_skip(items.take(i + 1), i as int);
                    assert(items.take(i + 1).take(i as int) =~= items.take(i as int));
                }
                return false;
            },
        }
        i = i + 1;
    }
    assert(items.take(es.len() as int) =~= items);
    true
}

/// A symbol holding the given text.
pub fn symbol(s: &str) -> (e: SExpr)
    ensures
        sx(e) == Sx::Symbol(s@),
{
    SExpr::Symbol(s.to_owned())
}

/// A copy of an expression.
pub fn copy_sexpr(e: &SExpr) -> (r: SExpr)
    ensures
        sx(r) == sx(*e),
    decreases e,
{
    match e {
        SExpr::Symbol(s) => SExpr::Symbol(s.clone()),
        SExpr::Int(n) => SExpr::Int(*n),
        SExpr::Float(s) => SExpr::Float(s.clone()),
        SExpr::Str(s) => SExpr::Str(s.clone()),
        SExpr::Bool(b) => SExpr::Bool(*b),
        SExpr::List(v) => {
            let mut out: Vec<SExpr> = Vec::new();
            let mut i: usize = 0;
            while i < v.len()
                invariant
                    i <= v.len(),
                    *e == SExpr::List(*v),
                    sxs(out@) == sxs(v@.take(i as int)),
                decreases v.len() - i,
            {
                proof {
                    assert(decreases_to!(*e => (*e)->List_0));
                    assert(decreases_to!(*v => v@));
                    assert(decreases_to!(v@ => v@[i as int]));
                    assert(decreases_to!(*e => v@[i as int]));
                }
                let c = copy_sexpr(&v[i]);
                proof {
                    lemma_sxs_push(out@, c);
                    lemma_sxs_push(v@.take(i as int), v@[i as int]);
                    assert(v@.take(i + 1) =~= v@.take(i as int).push(v@[i as int]));
                }
                out.push(c);
                i = i + 1;
            }
            assert(v@.take(v.len() as int) =~= v@);
            SExpr::List(out)
        },
    }
}

// ---------------------------------------------------------------------------
// Decimal spelling
// ---------------------------------------------------------------------------

pub open spec fn digit_char(d: int) -> char {
    (('0' as u32) + d) as char
}

/// Decimal digits of a natural number, most significant first.
pub open spec fn dec(n: nat) -> Seq<char>
    decreases n,
{
    if n < 10 {
        seq![digit_char(n as int)]
    } else {
        dec(n / 10).push(digit_char((n % 10) as int))
    }
}

/// Decimal spelling of an integer, with `-` before a negative one.
pub open spec fn dec_int(n: int) -> Seq<char> {
    if n < 0 {
        seq!['-'] + dec((-n) as nat)
    } else {
        dec(n as nat)
    }
}

/// Decimal digits of `n`.
pub fn dec_u64(n: u64) -> (r: Vec<char>)
    ensures
        r@ == dec(n as nat),
    decreases n,
{
    let d = ((n % 10) as u8 + ('0' as u8)) as char;
    if n < 10 {
        let mut v: Vec<char> = Vec::new();
        v.push(d);
        v
    } else {
        let mut v = dec_u64(n / 10);
        v.push(d);
        v
    }
}

/// `i64::to_string`.
pub fn dec_i64(n: i64) -> (r: String)
    ensures
        r@ == dec_int(n as int),
{
    if n < 0 {
        let m: u64 = if n == i64::MIN {
            0x8000_0000_0000_0000u64
        } else {
            (-n) as u64
        };
        let mut v: Vec<char> = Vec::new();
        v.push('-');
        let d = dec_u64(m);
        let mut i: usize = 0;
        while i < d.len()
            invariant
                i <= d.len(),
                v@ == seq!['-'] + d@.take(i as int),
            decreases d.len() - i,
        {
            v.push(d[i]);
            i = i + 1;
            assert(v@ =~= seq!['-'] + d@.take(i as int));
        }
        assert(d@.take(d.len() as int) =~= d@);
        string_from(v.as_slice())
    } else {
        let d = dec_u64(n as u64);
        string_from(d.as_slice())
    }
}

/// `format!("R{}", n)`: the name of register `n`.
pub open spec fn reg_name(n: int) -> Seq<char> {
    seq!['R'] + dec(n as nat)
}

pub fn reg_name_exec(n: usize) -> (r: String)
    ensures
        r@ == reg_name(n as int),
{
    let d = dec_u64(n as u64);
    let mut v: Vec<char> = Vec::new();
    v.push('R');
    let mut i: usize = 0;
    while i < d.len()
        invariant
            i <= d.len(),
            v@ == seq!['R'] + d@.take(i as int),
        decreases d.len() - i,
    {
        v.push(d[i]);
        i = i + 1;
        assert(v@ =~= seq!['R'] + d@.take(i as int));
    }
    assert(d@.take(d.len() as int) =~= d@);
    string_from(v.as_slice())
}

/// The characters of a `String`.
pub fn chars_of_string(s: &String) -> (v: Vec<char>)
    ensures
        v@ == s@,
{
    chars_of(s.as_str())
}

} // verus!
