//! The text form of query expressions: atoms as written (a string in Rust's
//! quoted, escaped spelling), lists in parentheses with their items separated
//! by single spaces, and one top-level expression per line.
use vstd::prelude::*;
use crate::sexpr::{SExpr, Sx, dec_i64, dec_int, lemma_sxs, sx, sxs};
use crate::text::{append_chars, append_str, chars_of, string_from};

verus! {

/// The text of `format!("{:?}", s)` for a string `s`.
pub uninterp spec fn debug_text_of(s: Seq<char>) -> Seq<char>;

/// `format!("{:?}", s)`: the string in double quotes with its quotes,
/// backslashes, control and unprintable characters escaped.  The contract
/// names the result and states only that it is quoted.
#[verifier::external_body]
fn debug_text(s: &str) -> (r: String)
    ensures
        r@ == debug_text_of(s@),
        r@.len() >= 2,
        r@[0] == '"',
        r@.last() == '"',
{
    format!("{:?}", s)
}

/// The text of one expression.
pub open spec fn sx_text(e: Sx) -> Seq<char>
    decreases e,
{
    match e {
        Sx::Symbol(s) => s,
        Sx::Int(n) => dec_int(n),
        Sx::Float(t) => t,
        Sx::Str(s) => debug_text_of(s),
        Sx::Bool(b) => if b {
            "#t"@
        } else {
            "#f"@
        },
        Sx::List(l) => "("@ + items_text(l) + ")"@,
    }
}

/// The texts of the items of a list, separated by single spaces.
pub open spec fn items_text(l: Seq<Sx>) -> Seq<char>
    decreases l,
{
    if l.len() == 0 {
        seq![]
    } else if l.len() == 1 {
        sx_text(l[0])
    } else {
        items_text(l.drop_last()) + " "@ + sx_text(l.last())
    }
}

/// The texts of the expressions, one per line, with no final line break.
pub open spec fn ir_text(es: Seq<Sx>) -> Seq<char>
    decreases es.len(),
{
    if es.len() == 0 {
        seq![]
    } else if es.len() == 1 {
        sx_text(es[0])
    } else {
        ir_text(es.drop_last()) + "\n"@ + sx_text(es.last())
    }
}

fn append_string(out: &mut Vec<char>, s: &String)
    ensures
        final(out)@ == old(out)@ + s@,
{
    let cs = chars_of(s.as_str());
    append_chars(out, cs.as_slice());
}

/// Appends the text of an expression.
fn push_text(out: &mut Vec<char>, e: &SExpr)
    ensures
        final(out)@ == old(out)@ + sx_text(sx(*e)),
    decreases e,
{
    match e {
        SExpr::Symbol(s) => append_string(out, s),
        SExpr::Int(n) => {
            let d = dec_i64(*n);
            append_string(out, &d);
        },
        SExpr::Float(t) => append_string(out, t),
        SExpr::Str(s) => {
            let d = debug_text(s.as_str());
            append_string(out, &d);
        },
        SExpr::Bool(b) => {
            if *b {
                append_str(out, "#t");
            } else {
                append_str(out, "#f");
            }
        },
        SExpr::List(v) => {
            let ghost start = out@;
            let ghost items = sxs(v@);
            proof {
                lemma_sxs(v@);
            }
            append_str(out, "(");
            let mut i: usize = 0;
            assert(items.take(0) =~= Seq::<Sx>::empty());
            while i < v.len()
                invariant
                    i <= v.len(),
                    *e == SExpr::List(*v),
                    items == sxs(v@),
                    items.len() == v.len(),
                    forall|j: int| 0 <= j < v.len() ==> #[trigger] items[j] == sx(v@[j]),
                    out@ == start + "("@ + items_text(items.take(i as int)),
                decreases v.len() - i,
            {
                proof {
                    assert(decreases_to!(*e => (*e)->List_0));
                    assert(decreases_to!(*v => v@));
                    assert(decreases_to!(v@ => v@[i as int]));
                    assert(decreases_to!(*e => v@[i as int]));
                }
                if i > 0 {
                    append_str(out, " ");
                }
                push_text(out, &v[i]);
                proof {
                    let t = items.take(i + 1);
                    assert(t.drop_last() =~= items.take(i as int));
                    assert(t.last() == sx(v@[i as int]));
                    if i == 0 {
                        assert(t.len() == 1);
                        assert(t[0] == sx(v@[0]));
                    }
                }
                i = i + 1;
            }
            assert(items.take(v.len() as int) =~= items);
            append_str(out, ")");
        },
    }
}

/// The text of a list of expressions, one per line.
pub fn print_ir(exprs: &[SExpr]) -> (s: String)
    ensures
        s@ == ir_text(sxs(exprs@)),
{
    let ghost es = sxs(exprs@);
    proof {
        lemma_sxs(exprs@);
    }
    let mut out: Vec<char> = Vec::new();
    let mut i: usize = 0;
    assert(es.take(0) =~= Seq::<Sx>::empty());
    while i < exprs.len()
        invariant
            i <= exprs.len(),
            es == sxs(exprs@),
            es.len() == exprs.len(),
            forall|j: int| 0 <= j < exprs.len() ==> #[trigger] es[j] == sx(exprs@[j]),
            out@ == ir_text(es.take(i as int)),
        decreases exprs.len() - i,
    {
        if i > 0 {
            append_str(&mut out, "\n");
        }
        push_text(&mut out, &exprs[i]);
        proof {
            let t = es.take(i + 1);
            assert(t.drop_last() =~= es.take(i as int));
            assert(t.last() == sx(exprs@[i as int]));
            if i == 0 {
                assert(t[0] == sx(exprs@[0]));
            }
        }
        i = i + 1;
    }
    assert(es.take(exprs.len() as int) =~= es);
    string_from(out.as_slice())
}

} // verus!
