//! Rewriting passes over query expressions: fusion of set operations with
//! graph walks, and elimination of work on sets known to be empty.  Both
//! rewrite bottom-up: the items of a list first, then the list itself.
use vstd::prelude::*;
use crate::sexpr::{SExpr, Sx, sx, sxs, lemma_sxs, lemma_sxs_push, symbol};

verus! {

/// The expression is the symbol `lit`.
pub open spec fn is_symbol(e: Sx, lit: Seq<char>) -> bool {
    e == Sx::Symbol(lit)
}

/// The expression is a list of `n` items whose first item satisfies `head`.
pub open spec fn list_headed(e: Sx, n: int, head: spec_fn(Sx) -> bool) -> bool {
    &&& e is List
    &&& e->List_0.len() == n
    &&& head(e->List_0[0])
}

pub open spec fn is_and_op(e: Sx) -> bool {
    is_symbol(e, "bitset:and"@) || is_symbol(e, "bitset_and"@) || is_symbol(e, "&"@)
}

pub open spec fn is_not_op(e: Sx) -> bool {
    is_symbol(e, "bitset:not"@) || is_symbol(e, "bitset_not"@) || is_symbol(e, "~"@)
}

pub open spec fn is_walk_op(e: Sx) -> bool {
    is_symbol(e, "g:walk-csr"@) || is_symbol(e, "walk_csr"@)
}

/// One fusion step on a list whose items are already rewritten.
pub open spec fn fuse_list_spec(l: Seq<Sx>) -> Sx {
    if l.len() == 3 && is_and_op(l[0]) {
        let left = l[1];
        let right = l[2];
        if list_headed(right, 2, |h: Sx| is_not_op(h)) {
            Sx::List(seq![Sx::Symbol("bitset:and-not"@), left, right->List_0[1]])
        } else if list_headed(left, 2, |h: Sx| is_not_op(h)) {
            Sx::List(seq![Sx::Symbol("bitset:and-not"@), right, left->List_0[1]])
        } else if list_headed(left, 4, |h: Sx| is_walk_op(h)) {
            let w = left->List_0;
            Sx::List(seq![Sx::Symbol("g:walk-csr-filtered"@), w[1], w[2], w[3], right])
        } else {
            Sx::List(l)
        }
    } else {
        Sx::List(l)
    }
}

/// The fusion pass on one expression.
pub open spec fn fuse(e: Sx) -> Sx
    decreases e,
{
    match e {
        Sx::List(l) => fuse_list_spec(fuse_seq(l)),
        _ => e,
    }
}

pub open spec fn fuse_seq(l: Seq<Sx>) -> Seq<Sx>
    decreases l,
{
    if l.len() == 0 {
        seq![]
    } else {
        fuse_seq(l.drop_last()).push(fuse(l.last()))
    }
}

/// A set expression known to be empty.
pub open spec fn is_empty_set(e: Sx) -> bool {
    match e {
        Sx::List(l) => l.len() > 0 && (is_symbol(l[0], "bitset:empty"@) || is_symbol(l[0], "empty_set"@)),
        Sx::Symbol(s) => s == "empty_set"@ || s == "nil"@ || s == "#f"@,
        _ => false,
    }
}

pub open spec fn empty_set_expr() -> Sx {
    Sx::List(seq![Sx::Symbol("bitset:empty"@)])
}

/// One pruning step on a list whose items are already rewritten.
pub open spec fn prune_list_spec(l: Seq<Sx>) -> Sx {
    if l.len() == 0 {
        Sx::List(l)
    } else if is_symbol(l[0], "g:walk-csr"@) || is_symbol(l[0], "g:walk-csr-filtered"@) {
        if l.len() >= 3 && is_empty_set(l[2]) {
            empty_set_expr()
        } else {
            Sx::List(l)
        }
    } else if is_symbol(l[0], "bitset:and"@) || is_symbol(l[0], "&"@) {
        if l.len() == 3 && (is_empty_set(l[1]) || is_empty_set(l[2])) {
            empty_set_expr()
        } else {
            Sx::List(l)
        }
    } else if is_symbol(l[0], "bitset:or"@) || is_symbol(l[0], "|"@) {
        if l.len() == 3 && is_empty_set(l[1]) {
            l[2]
        } else if l.len() == 3 && is_empty_set(l[2]) {
            l[1]
        } else {
            Sx::List(l)
        }
    } else if is_symbol(l[0], "bitset:and-not"@) {
        if l.len() == 3 && is_empty_set(l[1]) {
            empty_set_expr()
        } else if l.len() == 3 && is_empty_set(l[2]) {
            l[1]
        } else {
            Sx::List(l)
        }
    } else {
        Sx::List(l)
    }
}

/// The pruning pass on one expression.
pub open spec fn prune(e: Sx) -> Sx
    decreases e,
{
    match e {
        Sx::List(l) => prune_list_spec(prune_seq(l)),
        _ => e,
    }
}

pub open spec fn prune_seq(l: Seq<Sx>) -> Seq<Sx>
    decreases l,
{
    if l.len() == 0 {
        seq![]
    } else {
        prune_seq(l.drop_last()).push(prune(l.last()))
    }
}

// ---------------------------------------------------------------------------
// Tests on expressions
// ---------------------------------------------------------------------------

/// `e` is the symbol `lit`.
pub fn symbol_is(e: &SExpr, lit: &str) -> (r: bool)
    ensures
        r == is_symbol(sx(*e), lit@),
{
    match e {
        SExpr::Symbol(s) => {
            let a = crate::text::chars_of(s.as_str());
            crate::text::eq_str(a.as_slice(), lit)
        },
        _ => false,
    }
}

fn and_op(e: &SExpr) -> (r: bool)
    ensures
        r == is_and_op(sx(*e)),
{
    symbol_is(e, "bitset:and") || symbol_is(e, "bitset_and") || symbol_is(e, "&")
}

fn not_op(e: &SExpr) -> (r: bool)
    ensures
        r == is_not_op(sx(*e)),
{
    symbol_is(e, "bitset:not") || symbol_is(e, "bitset_not") || symbol_is(e, "~")
}

fn walk_op(e: &SExpr) -> (r: bool)
    ensures
        r == is_walk_op(sx(*e)),
{
    symbol_is(e, "g:walk-csr") || symbol_is(e, "walk_csr")
}

/// A list of `n` items whose first item is a negation.
fn negation_of(e: &SExpr) -> (r: bool)
    ensures
        r == list_headed(sx(*e), 2, |h: Sx| is_not_op(h)),
{
    match e {
        SExpr::List(v) => {
            proof {
                lemma_sxs(v@);
            }
            v.len() == 2 && not_op(&v[0])
        },
        _ => false,
    }
}

fn walk_of(e: &SExpr) -> (r: bool)
    ensures
        r == list_headed(sx(*e), 4, |h: Sx| is_walk_op(h)),
{
    match e {
        SExpr::List(v) => {
            proof {
                lemma_sxs(v@);
            }
            v.len() == 4 && walk_op(&v[0])
        },
        _ => false,
    }
}

fn list3(a: SExpr, b: SExpr, c: SExpr) -> (r: SExpr)
    ensures
        sx(r) == Sx::List(seq![sx(a), sx(b), sx(c)]),
{
    let mut v: Vec<SExpr> = Vec::new();
    v.push(a);
    v.push(b);
    v.push(c);
    proof {
        lemma_sxs(v@);
    }
    assert(sxs(v@) =~= seq![sx(a), sx(b), sx(c)]);
    SExpr::List(v)
}

/// The items of a list expression; `None` for any other expression.
fn into_items(e: SExpr) -> (r: Option<Vec<SExpr>>)
    ensures
        match r {
            Some(v) => sx(e) == Sx::List(sxs(v@)),
            None => !(sx(e) is List),
        },
{
    match e {
        SExpr::List(v) => Some(v),
        _ => None,
    }
}

/// One fusion step: `(and a (not b))` and `(and (not b) a)` become
/// `(and-not a b)`; `(and (walk g f rel) mask)` becomes a filtered walk.
pub fn fuse_list(l: Vec<SExpr>) -> (r: SExpr)
    ensures
        sx(r) == fuse_list_spec(sxs(l@)),
{
    proof {
        lemma_sxs(l@);
    }
    let ghost s = sxs(l@);
    if l.len() == 3 && and_op(&l[0]) {
        let mut l = l;
        if negation_of(&l[2]) {
            let right = l.remove(2);
            let left = l.remove(1);
            let mut rv = into_items(right).unwrap();
            proof {
                lemma_sxs(rv@);
            }
            let b = rv.remove(1);
            return list3(symbol("bitset:and-not"), left, b);
        }
        if negation_of(&l[1]) {
            let right = l.remove(2);
            let left = l.remove(1);
            let mut lv = into_items(left).unwrap();
            proof {
                lemma_sxs(lv@);
            }
            let b = lv.remove(1);
            return list3(symbol("bitset:and-not"), right, b);
        }
        if walk_of(&l[1]) {
            let right = l.remove(2);
            let left = l.remove(1);
            let mut w = into_items(left).unwrap();
            proof {
                lemma_sxs(w@);
            }
            let w3 = w.remove(3);
            let w2 = w.remove(2);
            let w1 = w.remove(1);
            let mut v: Vec<SExpr> = Vec::new();
            v.push(symbol("g:walk-csr-filtered"));
            v.push(w1);
            v.push(w2);
            v.push(w3);
            v.push(right);
            proof {
                lemma_sxs(v@);
                assert(sxs(v@) =~= seq![Sx::Symbol("g:walk-csr-filtered"@), s[1]->List_0[1], s[1]->List_0[2], s[1]->List_0[3], s[2]]);
            }
            return SExpr::List(v);
        }
        return SExpr::List(l);
    }
    SExpr::List(l)
}

/// The fusion pass on one expression.
pub fn fuse_expr(e: SExpr) -> (r: SExpr)
    ensures
        sx(r) == fuse(sx(e)),
    decreases e,
{
    match e {
        SExpr::List(v) => {
            let ghost v0 = v@;
            let mut rest = v;
            let mut out: Vec<SExpr> = Vec::new();
            let mut k: usize = 0;
            assert(v0.take(0) =~= Seq::<SExpr>::empty());
            assert(rest@ =~= v0.skip(0));
            assert(v0.len() == rest.len());
    while rest.len() > 0
                invariant
                    k + rest@.len() == v0.len(),
            v0.len() <= usize::MAX,
                    v0.len() <= usize::MAX,
                    rest@ == v0.skip(k as int),
                    e == SExpr::List(v),
                    v@ == v0,
                    sxs(out@) == fuse_seq(sxs(v0.take(k as int))),
                decreases rest.len(),
            {
                let x = rest.remove(0);
                proof {
                    assert(x == v0[k as int]);
                    assert(decreases_to!(e => e->List_0));
                    assert(decreases_to!(e->List_0 => v0));
                    assert(decreases_to!(v0 => v0[k as int]));
                }
                let y = fuse_expr(x);
                proof {
                    lemma_sxs_push(out@, y);
                    assert(v0.take(k + 1) =~= v0.take(k as int).push(x));
                    lemma_sxs_push(v0.take(k as int), x);
                    assert(sxs(v0.take(k + 1)).drop_last() =~= sxs(v0.take(k as int)));
                }
                out.push(y);
                k = k + 1;
                assert(rest@ =~= v0.skip(k as int));
            }
            assert(v0.take(k as int) =~= v0);
            fuse_list(out)
        },
        other => other,
    }
}

/// Runs the fusion pass over every top-level expression.
pub fn vector_fusion(exprs: Vec<SExpr>) -> (r: Vec<SExpr>)
    ensures
        sxs(r@) == sxs(exprs@).map_values(|e: Sx| fuse(e)),
{
    let ghost v0 = exprs@;
    let mut rest = exprs;
    let mut out: Vec<SExpr> = Vec::new();
    let mut k: usize = 0;
    assert(rest@ =~= v0.skip(0));
    proof {
        lemma_sxs(v0);
    }
    assert(v0.len() == rest.len());
    while rest.len() > 0
        invariant
            k + rest@.len() == v0.len(),
            v0.len() <= usize::MAX,
            rest@ == v0.skip(k as int),
            sxs(v0).len() == v0.len(),
            forall|i: int| 0 <= i < v0.len() ==> #[trigger] sxs(v0)[i] == sx(v0[i]),
            sxs(out@) == sxs(v0).take(k as int).map_values(|e: Sx| fuse(e)),
        decreases rest.len(),
    {
        let x = rest.remove(0);
        assert(x == v0[k as int]);
        let y = fuse_expr(x);
        proof {
            lemma_sxs_push(out@, y);
        }
        out.push(y);
        k = k + 1;
        assert(rest@ =~= v0.skip(k as int));
        assert(sxs(out@) =~= sxs(v0).take(k as int).map_values(|e: Sx| fuse(e)));
    }
    assert(sxs(v0).take(k as int) =~= sxs(v0));
    out
}

// ---------------------------------------------------------------------------
// Pruning
// ---------------------------------------------------------------------------

/// A set expression known to be empty.
pub fn empty_set(e: &SExpr) -> (r: bool)
    ensures
        r == is_empty_set(sx(*e)),
{
    match e {
        SExpr::List(v) => {
            proof {
                lemma_sxs(v@);
            }
            v.len() > 0 && (symbol_is(&v[0], "bitset:empty") || symbol_is(&v[0], "empty_set"))
        },
        SExpr::Symbol(_) => symbol_is(e, "empty_set") || symbol_is(e, "nil") || symbol_is(e, "#f"),
        _ => false,
    }
}

fn empty_set_exec() -> (r: SExpr)
    ensures
        sx(r) == empty_set_expr(),
{
    let mut v: Vec<SExpr> = Vec::new();
    v.push(symbol("bitset:empty"));
    proof {
        lemma_sxs(v@);
    }
    assert(sxs(v@) =~= seq![Sx::Symbol("bitset:empty"@)]);
    SExpr::List(v)
}

/// One pruning step: walks from an empty frontier and intersections with
/// an empty set are empty, a union with an empty set is the other operand,
/// and a difference from an empty set is empty.
pub fn prune_list(l: Vec<SExpr>) -> (r: SExpr)
    ensures
        sx(r) == prune_list_spec(sxs(l@)),
{
    proof {
        lemma_sxs(l@);
    }
    if l.len() == 0 {
        return SExpr::List(l);
    }
    let mut l = l;
    if symbol_is(&l[0], "g:walk-csr") || symbol_is(&l[0], "g:walk-csr-filtered") {
        if l.len() >= 3 && empty_set(&l[2]) {
            return empty_set_exec();
        }
        return SExpr::List(l);
    }
    if symbol_is(&l[0], "bitset:and") || symbol_is(&l[0], "&") {
        if l.len() == 3 && (empty_set(&l[1]) || empty_set(&l[2])) {
            return empty_set_exec();
        }
        return SExpr::List(l);
    }
    if symbol_is(&l[0], "bitset:or") || symbol_is(&l[0], "|") {
        if l.len() == 3 && empty_set(&l[1]) {
            return l.remove(2);
        }
        if l.len() == 3 && empty_set(&l[2]) {
            return l.remove(1);
        }
        return SExpr::List(l);
    }
    if symbol_is(&l[0], "bitset:and-not") {
        if l.len() == 3 && empty_set(&l[1]) {
            return empty_set_exec();
        }
        if l.len() == 3 && empty_set(&l[2]) {
            return l.remove(1);
        }
        return SExpr::List(l);
    }
    SExpr::List(l)
}

/// The pruning pass on one expression.
pub fn prune_expr(e: SExpr) -> (r: SExpr)
    ensures
        sx(r) == prune(sx(e)),
    decreases e,
{
    match e {
        SExpr::List(v) => {
            let ghost v0 = v@;
            let mut rest = v;
            let mut out: Vec<SExpr> = Vec::new();
            let mut k: usize = 0;
            assert(v0.take(0) =~= Seq::<SExpr>::empty());
            assert(rest@ =~= v0.skip(0));
            assert(v0.len() == rest.len());
    while rest.len() > 0
                invariant
                    k + rest@.len() == v0.len(),
            v0.len() <= usize::MAX,
                    v0.len() <= usize::MAX,
                    rest@ == v0.skip(k as int),
                    e == SExpr::List(v),
                    v@ == v0,
                    sxs(out@) == prune_seq(sxs(v0.take(k as int))),
                decreases rest.len(),
            {
                let x = rest.remove(0);
                proof {
                    assert(x == v0[k as int]);
                    assert(decreases_to!(e => e->List_0));
                    assert(decreases_to!(e->List_0 => v0));
                    assert(decreases_to!(v0 => v0[k as int]));
                }
                let y = prune_expr(x);
                proof {
                    lemma_sxs_push(out@, y);
                    assert(v0.take(k + 1) =~= v0.take(k as int).push(x));
                    lemma_sxs_push(v0.take(k as int), x);
                    assert(sxs(v0.take(k + 1)).drop_last() =~= sxs(v0.take(k as int)));
                }
                out.push(y);
                k = k + 1;
                assert(rest@ =~= v0.skip(k as int));
            }
            assert(v0.take(k as int) =~= v0);
            prune_list(out)
        },
        other => other,
    }
}

/// Runs the pruning pass over every top-level expression.
pub fn partition_elimination(exprs: Vec<SExpr>) -> (r: Vec<SExpr>)
    ensures
        sxs(r@) == sxs(exprs@).map_values(|e: Sx| prune(e)),
{
    let ghost v0 = exprs@;
    let mut rest = exprs;
    let mut out: Vec<SExpr> = Vec::new();
    let mut k: usize = 0;
    assert(rest@ =~= v0.skip(0));
    proof {
        lemma_sxs(v0);
    }
    assert(v0.len() == rest.len());
    while rest.len() > 0
        invariant
            k + rest@.len() == v0.len(),
            v0.len() <= usize::MAX,
            rest@ == v0.skip(k as int),
            sxs(v0).len() == v0.len(),
            forall|i: int| 0 <= i < v0.len() ==> #[trigger] sxs(v0)[i] == sx(v0[i]),
            sxs(out@) == sxs(v0).take(k as int).map_values(|e: Sx| prune(e)),
        decreases rest.len(),
    {
        let x = rest.remove(0);
        assert(x == v0[k as int]);
        let y = prune_expr(x);
        proof {
            lemma_sxs_push(out@, y);
        }
        out.push(y);
        k = k + 1;
        assert(rest@ =~= v0.skip(k as int));
        assert(sxs(out@) =~= sxs(v0).take(k as int).map_values(|e: Sx| prune(e)));
    }
    assert(sxs(v0).take(k as int) =~= sxs(v0));
    out
}


// ---------------------------------------------------------------------------
// Laws: a second run of a pass changes nothing
// ---------------------------------------------------------------------------

proof fn lemma_fuse_seq_items(l: Seq<Sx>)
    ensures
        fuse_seq(l).len() == l.len(),
        forall|i: int| 0 <= i < l.len() ==> #[trigger] fuse_seq(l)[i] == fuse(l[i]),
    decreases l.len(),
{
    if l.len() > 0 {
        lemma_fuse_seq_items(l.drop_last());
    }
}

proof fn lemma_fuse_seq_fixed(l: Seq<Sx>)
    requires
        forall|i: int| 0 <= i < l.len() ==> fuse(#[trigger] l[i]) == l[i],
    ensures
        fuse_seq(l) == l,
    decreases l.len(),
{
    lemma_fuse_seq_items(l);
    assert(fuse_seq(l) =~= l);
}

proof fn lemma_fused_list_items(m: Seq<Sx>)
    requires
        fuse(Sx::List(m)) is List,
        fuse(Sx::List(m))->List_0.len() != 3,
        fuse(Sx::List(m))->List_0.len() != 5,
    ensures
        fuse(Sx::List(m)) == Sx::List(fuse_seq(m)),
{
}

proof fn lemma_fixed_items(items: Seq<Sx>)
    requires
        forall|i: int| 0 <= i < items.len() ==> fuse(#[trigger] items[i]) == items[i],
        !(items.len() == 3 && is_and_op(items[0])),
    ensures
        fuse(Sx::List(items)) == Sx::List(items),
{
    lemma_fuse_seq_fixed(items);
}

proof fn lemma_and_not_is_no_and()
    ensures
        !is_and_op(Sx::Symbol("bitset:and-not"@)),
{
    reveal_strlit("bitset:and-not");
    reveal_strlit("bitset:and");
    reveal_strlit("bitset_and");
    reveal_strlit("&");
    assert("bitset:and-not"@.len() == 14);
    assert("bitset:and"@.len() == 10);
    assert("bitset_and"@.len() == 10);
    assert("&"@.len() == 1);
}

/// Fusing an expression that was already fused changes nothing: the
/// vector-fusion pass is idempotent.
pub proof fn law_fuse_idempotent(e: Sx)
    ensures
        fuse(fuse(e)) == fuse(e),
    decreases e,
{
    reveal_strlit("bitset:and-not");
    reveal_strlit("g:walk-csr-filtered");
    reveal_strlit("bitset:and");
    reveal_strlit("bitset_and");
    reveal_strlit("&");
    match e {
        Sx::List(l) => {
            let fl = fuse_seq(l);
            lemma_fuse_seq_items(l);
            assert forall|i: int| 0 <= i < fl.len() implies fuse(#[trigger] fl[i]) == fl[i] by {
                law_fuse_idempotent(l[i]);
            }
            let r = fuse_list_spec(fl);
            if fl.len() == 3 && is_and_op(fl[0]) {
                let left = fl[1];
                let right = fl[2];
                if list_headed(right, 2, |h: Sx| is_not_op(h)) {
                    let m = l[2]->List_0;
                    lemma_fused_list_items(m);
                    lemma_fuse_seq_items(m);
                    law_fuse_idempotent(m[1]);
                    let items = seq![Sx::Symbol("bitset:and-not"@), left, right->List_0[1]];
                    assert(r == Sx::List(items));
                    lemma_and_not_is_no_and();
                    lemma_fixed_items(items);
                } else if list_headed(left, 2, |h: Sx| is_not_op(h)) {
                    let m = l[1]->List_0;
                    lemma_fused_list_items(m);
                    lemma_fuse_seq_items(m);
                    law_fuse_idempotent(m[1]);
                    let items = seq![Sx::Symbol("bitset:and-not"@), right, left->List_0[1]];
                    assert(r == Sx::List(items));
                    lemma_and_not_is_no_and();
                    lemma_fixed_items(items);
                } else if list_headed(left, 4, |h: Sx| is_walk_op(h)) {
                    let m = l[1]->List_0;
                    lemma_fused_list_items(m);
                    lemma_fuse_seq_items(m);
                    law_fuse_idempotent(m[1]);
                    law_fuse_idempotent(m[2]);
                    law_fuse_idempotent(m[3]);
                    let w = left->List_0;
                    let items = seq![Sx::Symbol("g:walk-csr-filtered"@), w[1], w[2], w[3], right];
                    assert(r == Sx::List(items));
                    lemma_fixed_items(items);
                } else {
                    lemma_fuse_seq_fixed(fl);
                }
            } else {
                lemma_fuse_seq_fixed(fl);
            }
        },
        _ => {},
    }
}

proof fn lemma_prune_seq_items(l: Seq<Sx>)
    ensures
        prune_seq(l).len() == l.len(),
        forall|i: int| 0 <= i < l.len() ==> #[trigger] prune_seq(l)[i] == prune(l[i]),
    decreases l.len(),
{
    if l.len() > 0 {
        lemma_prune_seq_items(l.drop_last());
    }
}

proof fn lemma_prune_seq_fixed(l: Seq<Sx>)
    requires
        forall|i: int| 0 <= i < l.len() ==> prune(#[trigger] l[i]) == l[i],
    ensures
        prune_seq(l) == l,
{
    lemma_prune_seq_items(l);
    assert(prune_seq(l) =~= l);
}

/// Pruning an expression that was already pruned changes nothing: the
/// partition-elimination pass is idempotent.
pub proof fn law_prune_idempotent(e: Sx)
    ensures
        prune(prune(e)) == prune(e),
    decreases e,
{
    match e {
        Sx::List(l) => {
            let pl = prune_seq(l);
            lemma_prune_seq_items(l);
            assert forall|i: int| 0 <= i < pl.len() implies prune(#[trigger] pl[i]) == pl[i] by {
                law_prune_idempotent(l[i]);
            }
            let r = prune_list_spec(pl);
            if r == empty_set_expr() {
                reveal_strlit("bitset:empty");
                reveal_strlit("g:walk-csr");
                reveal_strlit("g:walk-csr-filtered");
                reveal_strlit("bitset:and");
                reveal_strlit("&");
                reveal_strlit("bitset:or");
                reveal_strlit("|");
                reveal_strlit("bitset:and-not");
                let items = seq![Sx::Symbol("bitset:empty"@)];
                lemma_prune_seq_fixed(items);
                assert(prune_list_spec(items) == Sx::List(items));
            } else if pl.len() >= 3 && (r == pl[1] || r == pl[2]) {
            } else {
                assert(r == Sx::List(pl));
                lemma_prune_seq_fixed(pl);
            }
        },
        _ => {},
    }
}


/// Running the vector-fusion pass twice gives what running it once gives.
pub proof fn law_fusion_pass_idempotent(es: Seq<Sx>)
    ensures
        es.map_values(|e: Sx| fuse(e)).map_values(|e: Sx| fuse(e)) == es.map_values(|e: Sx| fuse(e)),
{
    assert forall|i: int| 0 <= i < es.len() implies fuse(fuse(#[trigger] es[i])) == fuse(es[i]) by {
        law_fuse_idempotent(es[i]);
    }
    assert(es.map_values(|e: Sx| fuse(e)).map_values(|e: Sx| fuse(e)) =~= es.map_values(|e: Sx| fuse(e)));
}

/// Running the partition-elimination pass twice gives what running it once
/// gives.
pub proof fn law_elimination_pass_idempotent(es: Seq<Sx>)
    ensures
        es.map_values(|e: Sx| prune(e)).map_values(|e: Sx| prune(e)) == es.map_values(|e: Sx| prune(e)),
{
    assert forall|i: int| 0 <= i < es.len() implies prune(prune(#[trigger] es[i])) == prune(es[i]) by {
        law_prune_idempotent(es[i]);
    }
    assert(es.map_values(|e: Sx| prune(e)).map_values(|e: Sx| prune(e)) =~= es.map_values(|e: Sx| prune(e)));
}


/// `e` is a negation `(bitset:not x)` (in any of its spellings).
pub open spec fn is_negation(e: Sx) -> bool {
    e is List && e->List_0.len() == 2 && is_not_op(e->List_0[0])
}

/// Fusion turns a conjunction with one negated operand into
/// `(bitset:and-not kept negated)`, the kept operand first and the negated
/// operand's argument second, whichever side the negation was written on:
/// `(bitset:and a (bitset:not b))` and `(bitset:and (bitset:not b) a)` both
/// become `(bitset:and-not a' b')` for the fused `a'` and `b'` (where `a` is no
/// negation itself).
pub proof fn law_fusion_keeps_operand_order(a: Sx, b: Sx)
    ensures
        fuse(Sx::List(seq![Sx::Symbol("bitset:and"@), a, Sx::List(seq![Sx::Symbol("bitset:not"@), b])])) == Sx::List(
            seq![Sx::Symbol("bitset:and-not"@), fuse(a), fuse(b)],
        ),
        !is_negation(fuse(a)) ==> fuse(
            Sx::List(seq![Sx::Symbol("bitset:and"@), Sx::List(seq![Sx::Symbol("bitset:not"@), b]), a]),
        ) == Sx::List(seq![Sx::Symbol("bitset:and-not"@), fuse(a), fuse(b)]),
{
    let neg = seq![Sx::Symbol("bitset:not"@), b];
    lemma_fuse_seq_items(neg);
    assert(fuse_seq(neg) =~= seq![Sx::Symbol("bitset:not"@), fuse(b)]);
    let fneg = Sx::List(seq![Sx::Symbol("bitset:not"@), fuse(b)]);
    assert(fuse(Sx::List(neg)) == fneg);
    let l1 = seq![Sx::Symbol("bitset:and"@), a, Sx::List(neg)];
    lemma_fuse_seq_items(l1);
    assert(fuse_seq(l1) =~= seq![Sx::Symbol("bitset:and"@), fuse(a), fneg]);
    let l2 = seq![Sx::Symbol("bitset:and"@), Sx::List(neg), a];
    lemma_fuse_seq_items(l2);
    assert(fuse_seq(l2) =~= seq![Sx::Symbol("bitset:and"@), fneg, fuse(a)]);
}

} // verus!
