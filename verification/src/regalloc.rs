//! Register assignment and lowering of query expressions to instructions.
//!
//! Register 0 holds the query's input, register 1 is scratch; every other
//! variable gets the next free register the first time it is named.  A name
//! of the form `R<n>` is already a register.
use vstd::prelude::*;
use crate::sexpr::{lemma_seq_size_items, lemma_seq_size_skip, seq_size, sx_size, SExpr, Sx, sx, sxs, lemma_sxs, reg_name, reg_name_exec, dec_int, dec_i64, chars_of_string};
use crate::strmap::StrMap;
use crate::text::{chars_of, copy_range, eq_str, parse_unsigned, parse_unsigned_exec, string_from, upper, upper_exec};

verus! {

/// One instruction with named registers.
#[derive(Debug)]
pub struct AllocatedInstruction {
    pub opcode: String,
    pub dst: Option<String>,
    pub args: Vec<String>,
}

/// A lowered query: its name, its frame size and its instructions.
#[derive(Debug)]
pub struct AllocatedProgram {
    pub function_name: String,
    pub frame_size: usize,
    pub instructions: Vec<AllocatedInstruction>,
}

/// An instruction as values: opcode, destination, arguments.
pub type InsV = (Seq<char>, Option<Seq<char>>, Seq<Seq<char>>);

pub open spec fn strings_view(v: Seq<String>) -> Seq<Seq<char>> {
    v.map_values(|s: String| s@)
}

pub open spec fn ins_view(i: AllocatedInstruction) -> InsV {
    (
        i.opcode@,
        match i.dst {
            Some(d) => Some(d@),
            None => None,
        },
        strings_view(i.args@),
    )
}

pub open spec fn program_view(p: AllocatedProgram) -> (Seq<char>, int, Seq<InsV>) {
    (p.function_name@, p.frame_size as int, p.instructions@.map_values(|i: AllocatedInstruction| ins_view(i)))
}

/// The lowering state: the register of each variable, the next free
/// register and the instructions so far.
pub struct RaState {
    pub map: Map<Seq<char>, usize>,
    pub next: int,
    pub out: Seq<InsV>,
}

pub open spec fn emit(st: RaState, i: InsV) -> RaState {
    RaState { out: st.out.push(i), ..st }
}

/// `R<n>` names a register directly.
pub open spec fn is_reg_name(var: Seq<char>) -> bool {
    var.len() >= 1 && var[0] == 'R' && parse_unsigned(var.skip(1), 10, usize::MAX as int) is Some
}

/// The register of a variable, giving it the next free one when new.
pub open spec fn get_reg(st: RaState, var: Seq<char>) -> (RaState, Seq<char>) {
    if is_reg_name(var) {
        (st, var)
    } else if st.map.contains_key(var) {
        (st, reg_name(st.map[var] as int))
    } else {
        (RaState { map: st.map.insert(var, st.next as usize), next: st.next + 1, ..st }, reg_name(st.next))
    }
}

/// `REL_` and the upper-cased relation name of a string or symbol.
pub open spec fn rel_name(e: Sx) -> Seq<char> {
    match e {
        Sx::Str(s) => "REL_"@ + upper(s),
        Sx::Symbol(s) => "REL_"@ + upper(s),
        _ => "REL_DEFAULT"@,
    }
}

pub open spec fn op_is(l: Seq<Sx>, name: Seq<char>) -> bool {
    l.len() > 0 && l[0] == Sx::Symbol(name)
}

pub open spec fn const_int(target: Seq<char>, v: Seq<char>) -> InsV {
    ("OP_LOAD_CONST_INT"@, Some(target), seq![v])
}

/// Lowers an expression so that its value lands in `target`.
pub open spec fn lower_value(st: RaState, e: Sx, target: Seq<char>) -> RaState
    decreases e, 1int,
{
    match e {
        Sx::Int(v) => emit(st, const_int(target, dec_int(v))),
        Sx::Bool(b) => emit(st, const_int(target, if b { "1"@ } else { "0"@ })),
        Sx::Symbol(s) => if s == "#t"@ || s == "true"@ {
            emit(st, const_int(target, "1"@))
        } else if s == "#f"@ || s == "false"@ {
            emit(st, const_int(target, "0"@))
        } else {
            let (st1, src) = get_reg(st, s);
            if src != target {
                emit(st1, ("OP_MOVE"@, Some(target), seq![src]))
            } else {
                st1
            }
        },
        Sx::List(l) => if op_is(l, "bitset:from"@) && l.len() == 2 {
            let (st1, src) = eval(st, l[1]);
            emit(st1, ("OP_COLLECT_BITSET"@, Some(target), seq![src]))
        } else if op_is(l, "bitset:and-not"@) && l.len() == 3 {
            let (st1, a1) = eval(st, l[1]);
            let (st2, a2) = eval(st1, l[2]);
            emit(st2, ("OP_ROARING_BITMAP_AND_NOT"@, Some(target), seq![a1, a2]))
        } else if op_is(l, "bitset:or"@) && l.len() == 3 {
            let (st1, a1) = eval(st, l[1]);
            let (st2, a2) = eval(st1, l[2]);
            emit(st2, ("OP_ROARING_BITMAP_OR"@, Some(target), seq![a1, a2]))
        } else if op_is(l, "g:walk-csr"@) && l.len() == 4 {
            let (st1, f) = eval(st, l[2]);
            emit(st1, ("OP_CSR_WALK"@, Some(target), seq![f, rel_name(l[3])]))
        } else if op_is(l, "g:walk-csr-filtered"@) && l.len() == 5 {
            let (st1, f) = eval(st, l[2]);
            let rel = rel_name(l[3]);
            let (st2, m) = eval(st1, l[4]);
            emit(st2, ("OP_CSR_WALK_FILTERED"@, Some(target), seq![f, rel, m]))
        } else {
            st
        },
        _ => st,
    }
}

/// The register or literal an operand is read from, lowering a nested
/// expression into the `tmp_val` register.
pub open spec fn eval(st: RaState, e: Sx) -> (RaState, Seq<char>)
    decreases e, 2int,
{
    match e {
        Sx::Symbol(s) => get_reg(st, s),
        Sx::Int(n) => (st, dec_int(n)),
        Sx::List(_) => {
            let (st1, tmp) = get_reg(st, "tmp_val"@);
            (lower_value(st1, e, tmp), tmp)
        },
        _ => (st, "R1"@),
    }
}

/// One `(var value)` binding of a `let`.
pub open spec fn binding_step(st: RaState, b: Sx) -> RaState {
    match b {
        Sx::List(p) => if p.len() == 2 && p[0] is Symbol {
            let (st1, d) = get_reg(st, p[0]->Symbol_0);
            lower_value(st1, p[1], d)
        } else {
            st
        },
        _ => st,
    }
}

pub open spec fn bindings_fold(st: RaState, bs: Seq<Sx>) -> RaState
    decreases bs.len(),
{
    if bs.len() == 0 {
        st
    } else {
        binding_step(bindings_fold(st, bs.drop_last()), bs.last())
    }
}

/// Lowers a statement.
pub open spec fn lower_stmt(st: RaState, e: Sx) -> RaState
    decreases e,
{
    match e {
        Sx::List(l) => if (op_is(l, "let"@) || op_is(l, "let*"@)) && l.len() >= 2 {
            let st1 = match l[1] {
                Sx::List(bs) => bindings_fold(st, bs),
                _ => st,
            };
            stmts_fold(st1, l.skip(2))
        } else if op_is(l, "set!"@) && l.len() == 3 && l[1] is Symbol {
            let (st1, d) = get_reg(st, l[1]->Symbol_0);
            lower_value(st1, l[2], d)
        } else if op_is(l, "return"@) && l.len() == 2 {
            let st1 = lower_value(st, l[1], "R63"@);
            emit(emit(st1, ("OP_LEAVE_FRAME"@, None, seq![])), ("OP_HALT"@, None, seq![]))
        } else if op_is(l, "bitset:and-not"@) && l.len() == 3 {
            let (st1, d) = get_reg(st, "tmp_and_not"@);
            let (st2, a1) = eval(st1, l[1]);
            let (st3, a2) = eval(st2, l[2]);
            emit(st3, ("OP_ROARING_BITMAP_AND_NOT"@, Some(d), seq![a1, a2]))
        } else if op_is(l, "bitset:or"@) && l.len() == 3 {
            let (st1, d) = get_reg(st, "tmp_or"@);
            let (st2, a1) = eval(st1, l[1]);
            let (st3, a2) = eval(st2, l[2]);
            emit(st3, ("OP_ROARING_BITMAP_OR"@, Some(d), seq![a1, a2]))
        } else if op_is(l, "g:walk-csr"@) && l.len() == 4 {
            let (st1, d) = get_reg(st, "tmp_walk"@);
            let (st2, g) = eval(st1, l[1]);
            let (st3, f) = eval(st2, l[2]);
            emit(st3, ("OP_CSR_WALK"@, Some(d), seq![g, f, rel_name(l[3])]))
        } else {
            st
        },
        _ => st,
    }
}

pub open spec fn stmts_fold(st: RaState, es: Seq<Sx>) -> RaState
    decreases es,
{
    if es.len() == 0 {
        st
    } else {
        lower_stmt(stmts_fold(st, es.drop_last()), es.last())
    }
}

// ---------------------------------------------------------------------------
// Registers only grow
// ---------------------------------------------------------------------------

pub proof fn lemma_value_mono(st: RaState, e: Sx, t: Seq<char>)
    ensures
        lower_value(st, e, t).next >= st.next,
    decreases e, 1int,
{
    match e {
        Sx::List(l) => {
            if l.len() >= 2 {
                lemma_eval_mono(st, l[1]);
                let st1 = eval(st, l[1]).0;
                if l.len() >= 3 {
                    lemma_eval_mono(st1, l[2]);
                    lemma_eval_mono(st, l[2]);
                    let s2 = eval(st, l[2]).0;
                    if l.len() >= 5 {
                        lemma_eval_mono(s2, l[4]);
                    }
                }
            }
        },
        _ => {},
    }
}

pub proof fn lemma_eval_mono(st: RaState, e: Sx)
    ensures
        eval(st, e).0.next >= st.next,
    decreases e, 2int,
{
    match e {
        Sx::List(_) => {
            let (st1, tmp) = get_reg(st, "tmp_val"@);
            lemma_value_mono(st1, e, tmp);
        },
        _ => {},
    }
}

pub proof fn lemma_bindings_prefix(st: RaState, bs: Seq<Sx>, j: int)
    requires
        0 <= j <= bs.len(),
    ensures
        bindings_fold(st, bs).next >= bindings_fold(st, bs.take(j)).next,
    decreases bs.len(),
{
    if j == bs.len() {
        assert(bs.take(j) =~= bs);
    } else {
        let p = bs.drop_last();
        lemma_bindings_prefix(st, p, j);
        assert(p.take(j) =~= bs.take(j));
        let s0 = bindings_fold(st, p);
        match bs.last() {
            Sx::List(q) => {
                if q.len() == 2 && q[0] is Symbol {
                    let (st1, d) = get_reg(s0, q[0]->Symbol_0);
                    lemma_value_mono(st1, q[1], d);
                }
            },
            _ => {},
        }
    }
}

pub proof fn lemma_stmt_mono(st: RaState, e: Sx)
    ensures
        lower_stmt(st, e).next >= st.next,
    decreases e, 0int,
{
    match e {
        Sx::List(l) => {
            if (op_is(l, "let"@) || op_is(l, "let*"@)) && l.len() >= 2 {
                let st1 = match l[1] {
                    Sx::List(bs) => bindings_fold(st, bs),
                    _ => st,
                };
                match l[1] {
                    Sx::List(bs) => {
                        lemma_bindings_prefix(st, bs, 0);
                        assert(bs.take(0) =~= Seq::<Sx>::empty());
                        assert(bindings_fold(st, Seq::<Sx>::empty()) == st);
                    },
                    _ => {},
                }
                assert(st1.next >= st.next);
                assert(decreases_to!(e => l));
                lemma_stmts_prefix(st1, l.skip(2), 0);
                assert(l.skip(2).take(0) =~= Seq::<Sx>::empty());
                assert(stmts_fold(st1, Seq::<Sx>::empty()) == st1);
                assert(lower_stmt(st, e) == stmts_fold(st1, l.skip(2)));
            } else if op_is(l, "set!"@) && l.len() == 3 && l[1] is Symbol {
                let (st1, d) = get_reg(st, l[1]->Symbol_0);
                lemma_value_mono(st1, l[2], d);
                assert(lower_stmt(st, e).next >= st.next);
            } else if op_is(l, "return"@) && l.len() == 2 {
                lemma_value_mono(st, l[1], "R63"@);
                assert(lower_stmt(st, e).next >= st.next);
            } else if op_is(l, "bitset:and-not"@) && l.len() == 3 {
                let (st1, d) = get_reg(st, "tmp_and_not"@);
                lemma_eval_mono(st1, l[1]);
                let (st2, a1) = eval(st1, l[1]);
                lemma_eval_mono(st2, l[2]);
            } else if op_is(l, "bitset:or"@) && l.len() == 3 {
                let (st1, d) = get_reg(st, "tmp_or"@);
                lemma_eval_mono(st1, l[1]);
                let (st2, a1) = eval(st1, l[1]);
                lemma_eval_mono(st2, l[2]);
            } else if op_is(l, "g:walk-csr"@) && l.len() == 4 {
                let (st1, d) = get_reg(st, "tmp_walk"@);
                lemma_eval_mono(st1, l[1]);
                let (st2, a1) = eval(st1, l[1]);
                lemma_eval_mono(st2, l[2]);
            } else {
                assert(lower_stmt(st, e) == st);
            }
        },
        _ => {},
    }
}

pub proof fn lemma_stmts_prefix(st: RaState, es: Seq<Sx>, j: int)
    requires
        0 <= j <= es.len(),
    ensures
        stmts_fold(st, es).next >= stmts_fold(st, es.take(j)).next,
    decreases es, 1int,
{
    if j == es.len() {
        assert(es.take(j) =~= es);
    } else {
        let p = es.drop_last();
        lemma_stmts_prefix(st, p, j);
        assert(p.take(j) =~= es.take(j));
        lemma_stmt_mono(stmts_fold(st, p), es.last());
    }
}

// ---------------------------------------------------------------------------
// How many registers a program takes
// ---------------------------------------------------------------------------

proof fn lemma_get_reg_bound(st: RaState, var: Seq<char>)
    ensures
        st.next <= get_reg(st, var).0.next <= st.next + 1,
{
}

proof fn lemma_value_bound(st: RaState, e: Sx, t: Seq<char>)
    ensures
        lower_value(st, e, t).next <= st.next + 2 * sx_size(e) - 1,
    decreases e, 1int,
{
    match e {
        Sx::Symbol(s) => {
            lemma_get_reg_bound(st, s);
        },
        Sx::List(l) => {
            assert(decreases_to!(e => l));
            if l.len() >= 2 {
                lemma_seq_size_items(l, 1, 1);
                lemma_eval_bound(st, l[1]);
                let st1 = eval(st, l[1]).0;
                if l.len() >= 3 {
                    lemma_seq_size_items(l, 1, 2);
                    lemma_eval_bound(st1, l[2]);
                    lemma_eval_bound(st, l[2]);
                    let s2 = eval(st, l[2]).0;
                    if l.len() >= 5 {
                        lemma_seq_size_items(l, 2, 4);
                        lemma_eval_bound(s2, l[4]);
                    }
                }
            }
        },
        _ => {},
    }
}

proof fn lemma_eval_bound(st: RaState, e: Sx)
    ensures
        eval(st, e).0.next <= st.next + 2 * sx_size(e),
    decreases e, 2int,
{
    match e {
        Sx::Symbol(s) => {
            lemma_get_reg_bound(st, s);
        },
        Sx::List(_) => {
            lemma_get_reg_bound(st, "tmp_val"@);
            let (st1, tmp) = get_reg(st, "tmp_val"@);
            lemma_value_bound(st1, e, tmp);
        },
        _ => {},
    }
}

proof fn lemma_bindings_bound(st: RaState, bs: Seq<Sx>)
    ensures
        bindings_fold(st, bs).next <= st.next + 2 * seq_size(bs),
    decreases bs.len(),
{
    if bs.len() > 0 {
        let p = bs.drop_last();
        lemma_bindings_bound(st, p);
        let s0 = bindings_fold(st, p);
        assert(seq_size(bs) == seq_size(p) + sx_size(bs.last()));
        match bs.last() {
            Sx::List(q) => {
                if q.len() == 2 && q[0] is Symbol {
                    lemma_get_reg_bound(s0, q[0]->Symbol_0);
                    let (st1, d) = get_reg(s0, q[0]->Symbol_0);
                    lemma_value_bound(st1, q[1], d);
                    lemma_seq_size_items(q, 1, 1);
                }
            },
            _ => {},
        }
    }
}

proof fn lemma_stmt_bound(st: RaState, e: Sx)
    ensures
        lower_stmt(st, e).next <= st.next + 2 * sx_size(e),
    decreases e, 0int,
{
    match e {
        Sx::List(l) => {
            assert(decreases_to!(e => l));
            if (op_is(l, "let"@) || op_is(l, "let*"@)) && l.len() >= 2 {
                let st1 = match l[1] {
                    Sx::List(bs) => bindings_fold(st, bs),
                    _ => st,
                };
                match l[1] {
                    Sx::List(bs) => {
                        lemma_bindings_bound(st, bs);
                    },
                    _ => {},
                }
                lemma_stmts_bound(st1, l.skip(2));
                lemma_seq_size_skip(l, 2);
                lemma_seq_size_items(l.take(2), 1, 0);
                assert(l.take(2)[1] == l[1]);
                assert(l.take(2)[0] == l[0]);
                assert(lower_stmt(st, e) == stmts_fold(st1, l.skip(2)));
            } else if op_is(l, "set!"@) && l.len() == 3 && l[1] is Symbol {
                lemma_get_reg_bound(st, l[1]->Symbol_0);
                let (st1, d) = get_reg(st, l[1]->Symbol_0);
                lemma_value_bound(st1, l[2], d);
                lemma_seq_size_items(l, 2, 2);
            } else if op_is(l, "return"@) && l.len() == 2 {
                lemma_value_bound(st, l[1], "R63"@);
                lemma_seq_size_items(l, 1, 1);
            } else if op_is(l, "bitset:and-not"@) && l.len() == 3 {
                lemma_get_reg_bound(st, "tmp_and_not"@);
                let (st1, d) = get_reg(st, "tmp_and_not"@);
                lemma_eval_bound(st1, l[1]);
                let (st2, a1) = eval(st1, l[1]);
                lemma_eval_bound(st2, l[2]);
                lemma_seq_size_items(l, 1, 2);
            } else if op_is(l, "bitset:or"@) && l.len() == 3 {
                lemma_get_reg_bound(st, "tmp_or"@);
                let (st1, d) = get_reg(st, "tmp_or"@);
                lemma_eval_bound(st1, l[1]);
                let (st2, a1) = eval(st1, l[1]);
                lemma_eval_bound(st2, l[2]);
                lemma_seq_size_items(l, 1, 2);
            } else if op_is(l, "g:walk-csr"@) && l.len() == 4 {
                lemma_get_reg_bound(st, "tmp_walk"@);
                let (st1, d) = get_reg(st, "tmp_walk"@);
                lemma_eval_bound(st1, l[1]);
                let (st2, a1) = eval(st1, l[1]);
                lemma_eval_bound(st2, l[2]);
                lemma_seq_size_items(l, 1, 2);
            }
        },
        _ => {},
    }
}

proof fn lemma_stmts_bound(st: RaState, es: Seq<Sx>)
    ensures
        stmts_fold(st, es).next <= st.next + 2 * seq_size(es),
    decreases es, 1int,
{
    if es.len() > 0 {
        let p = es.drop_last();
        assert(decreases_to!(es => p)) by {
            assert(p =~= es.subrange(0, es.len() - 1));
        }
        lemma_stmts_bound(st, p);
        lemma_stmt_bound(stmts_fold(st, p), es.last());
    }
}

proof fn lemma_args_bound(acc: (RaState, bool), args: Seq<Sx>)
    ensures
        args_fold(acc, args).0.next <= acc.0.next + seq_size(args),
    decreases args.len(),
{
    if args.len() > 0 {
        lemma_args_bound(acc, args.drop_last());
        assert(seq_size(args) == seq_size(args.drop_last()) + sx_size(args.last()));
        assert(sx_size(args.last()) >= 1);
    }
}

proof fn lemma_params_bound(acc: (RaState, Seq<char>), es: Seq<Sx>)
    ensures
        params_fold(acc, es).0.next <= acc.0.next + seq_size(es),
    decreases es.len(),
{
    if es.len() > 0 {
        let p = es.drop_last();
        lemma_params_bound(acc, p);
        let a0 = params_fold(acc, p);
        assert(seq_size(es) == seq_size(p) + sx_size(es.last()));
        match es.last() {
            Sx::List(l) => {
                if is_def_op(l) && l.len() >= 2 && l[1] is List && l[1]->List_0.len() > 0 {
                    let sig = l[1]->List_0;
                    lemma_args_bound((a0.0, false), sig.skip(1));
                    lemma_seq_size_skip(sig, 1);
                    lemma_seq_size_items(l, 1, 1);
                }
            },
            _ => {},
        }
    }
}

proof fn lemma_main_bound(st: RaState, es: Seq<Sx>)
    ensures
        main_fold(st, es).next <= st.next + 2 * seq_size(es),
    decreases es.len(),
{
    if es.len() > 0 {
        let p = es.drop_last();
        lemma_main_bound(st, p);
        let s0 = main_fold(st, p);
        assert(seq_size(es) == seq_size(p) + sx_size(es.last()));
        match es.last() {
            Sx::List(l) => {
                if l.len() > 0 && l[0] is Symbol {
                    if is_def_op(l) {
                        if l.len() > 2 {
                            lemma_stmts_bound(s0, l.skip(2));
                            lemma_seq_size_skip(l, 2);
                        }
                    } else {
                        lemma_stmt_bound(s0, es.last());
                    }
                }
            },
            _ => {},
        }
    }
}

/// A program takes at most two fixed registers plus three per node of its
/// expressions.
pub proof fn lemma_alloc_bound(es: Seq<Sx>)
    ensures
        alloc_final(es).next <= 2 + 3 * seq_size(es),
{
    let init = (initial_state(), "main_query"@);
    lemma_params_bound(init, es);
    lemma_main_bound(params_fold(init, es).0, es);
}

// ---------------------------------------------------------------------------
// Which registers variables get
// ---------------------------------------------------------------------------

/// The registers of the variables: an input parameter holds `R0`, every
/// other variable a register of `R2` up to the next free one, and no two
/// variables share a register above `R1`. (Stated while register numbers
/// fit in `usize`.)
pub open spec fn regs_ok(st: RaState) -> bool {
    &&& st.next >= 2
    &&& st.next <= usize::MAX + 1 ==> {
        &&& forall|v: Seq<char>|
            #[trigger] st.map.contains_key(v) ==> st.map[v] == 0 || 2 <= st.map[v] < st.next
        &&& forall|v: Seq<char>, w: Seq<char>|
            #[trigger] st.map.contains_key(v) && #[trigger] st.map.contains_key(w) && v != w
                && st.map[v] >= 2 ==> st.map[v] != st.map[w]
    }
}

proof fn lemma_get_reg_ok(st: RaState, var: Seq<char>)
    requires
        regs_ok(st),
    ensures
        regs_ok(get_reg(st, var).0),
{
    if !is_reg_name(var) && !st.map.contains_key(var) {
        let s1 = get_reg(st, var).0;
        if s1.next <= usize::MAX + 1 {
            assert((st.next as usize) as int == st.next);
            assert forall|v: Seq<char>| #[trigger] s1.map.contains_key(v) implies s1.map[v] == 0 || 2 <= s1.map[v]
                < s1.next by {
                if v != var {
                    assert(st.map.contains_key(v));
                }
            }
            assert forall|v: Seq<char>, w: Seq<char>|
                #[trigger] s1.map.contains_key(v) && #[trigger] s1.map.contains_key(w) && v != w && s1.map[v]
                    >= 2 implies s1.map[v] != s1.map[w] by {
                if v != var && w != var {
                    assert(st.map.contains_key(v) && st.map.contains_key(w));
                } else if v == var {
                    assert(st.map.contains_key(w));
                } else {
                    assert(st.map.contains_key(v));
                }
            }
        }
    }
}

proof fn lemma_value_ok(st: RaState, e: Sx, t: Seq<char>)
    requires
        regs_ok(st),
    ensures
        regs_ok(lower_value(st, e, t)),
    decreases e, 1int,
{
    match e {
        Sx::Symbol(s) => {
            lemma_get_reg_ok(st, s);
        },
        Sx::List(l) => {
            if l.len() >= 2 {
                lemma_eval_ok(st, l[1]);
                let st1 = eval(st, l[1]).0;
                if l.len() >= 3 {
                    lemma_eval_ok(st1, l[2]);
                    lemma_eval_ok(st, l[2]);
                    let s2 = eval(st, l[2]).0;
                    if l.len() >= 5 {
                        lemma_eval_ok(s2, l[4]);
                    }
                }
            }
        },
        _ => {},
    }
}

proof fn lemma_eval_ok(st: RaState, e: Sx)
    requires
        regs_ok(st),
    ensures
        regs_ok(eval(st, e).0),
    decreases e, 2int,
{
    match e {
        Sx::Symbol(s) => {
            lemma_get_reg_ok(st, s);
        },
        Sx::List(_) => {
            lemma_get_reg_ok(st, "tmp_val"@);
            let (st1, tmp) = get_reg(st, "tmp_val"@);
            lemma_value_ok(st1, e, tmp);
        },
        _ => {},
    }
}

proof fn lemma_bindings_ok(st: RaState, bs: Seq<Sx>)
    requires
        regs_ok(st),
    ensures
        regs_ok(bindings_fold(st, bs)),
    decreases bs.len(),
{
    if bs.len() > 0 {
        let p = bs.drop_last();
        lemma_bindings_ok(st, p);
        let s0 = bindings_fold(st, p);
        match bs.last() {
            Sx::List(q) => {
                if q.len() == 2 && q[0] is Symbol {
                    lemma_get_reg_ok(s0, q[0]->Symbol_0);
                    let (st1, d) = get_reg(s0, q[0]->Symbol_0);
                    lemma_value_ok(st1, q[1], d);
                }
            },
            _ => {},
        }
    }
}

proof fn lemma_stmt_ok(st: RaState, e: Sx)
    requires
        regs_ok(st),
    ensures
        regs_ok(lower_stmt(st, e)),
    decreases e, 0int,
{
    match e {
        Sx::List(l) => {
            assert(decreases_to!(e => l));
            if (op_is(l, "let"@) || op_is(l, "let*"@)) && l.len() >= 2 {
                let st1 = match l[1] {
                    Sx::List(bs) => bindings_fold(st, bs),
                    _ => st,
                };
                match l[1] {
                    Sx::List(bs) => {
                        lemma_bindings_ok(st, bs);
                    },
                    _ => {},
                }
                lemma_stmts_ok(st1, l.skip(2));
                assert(lower_stmt(st, e) == stmts_fold(st1, l.skip(2)));
            } else if op_is(l, "set!"@) && l.len() == 3 && l[1] is Symbol {
                lemma_get_reg_ok(st, l[1]->Symbol_0);
                let (st1, d) = get_reg(st, l[1]->Symbol_0);
                lemma_value_ok(st1, l[2], d);
            } else if op_is(l, "return"@) && l.len() == 2 {
                lemma_value_ok(st, l[1], "R63"@);
            } else if op_is(l, "bitset:and-not"@) && l.len() == 3 {
                lemma_get_reg_ok(st, "tmp_and_not"@);
                let (st1, d) = get_reg(st, "tmp_and_not"@);
                lemma_eval_ok(st1, l[1]);
                let (st2, a1) = eval(st1, l[1]);
                lemma_eval_ok(st2, l[2]);
            } else if op_is(l, "bitset:or"@) && l.len() == 3 {
                lemma_get_reg_ok(st, "tmp_or"@);
                let (st1, d) = get_reg(st, "tmp_or"@);
                lemma_eval_ok(st1, l[1]);
                let (st2, a1) = eval(st1, l[1]);
                lemma_eval_ok(st2, l[2]);
            } else if op_is(l, "g:walk-csr"@) && l.len() == 4 {
                lemma_get_reg_ok(st, "tmp_walk"@);
                let (st1, d) = get_reg(st, "tmp_walk"@);
                lemma_eval_ok(st1, l[1]);
                let (st2, a1) = eval(st1, l[1]);
                lemma_eval_ok(st2, l[2]);
            }
        },
        _ => {},
    }
}

proof fn lemma_stmts_ok(st: RaState, es: Seq<Sx>)
    requires
        regs_ok(st),
    ensures
        regs_ok(stmts_fold(st, es)),
    decreases es, 1int,
{
    if es.len() > 0 {
        let p = es.drop_last();
        assert(decreases_to!(es => p)) by {
            assert(p =~= es.subrange(0, es.len() - 1));
        }
        lemma_stmts_ok(st, p);
        lemma_stmt_ok(stmts_fold(st, p), es.last());
    }
}

proof fn lemma_args_ok(acc: (RaState, bool), args: Seq<Sx>)
    requires
        regs_ok(acc.0),
    ensures
        regs_ok(args_fold(acc, args).0),
    decreases args.len(),
{
    if args.len() > 0 {
        lemma_args_ok(acc, args.drop_last());
        let a0 = args_fold(acc, args.drop_last());
        let st = a0.0;
        match args.last() {
            Sx::Symbol(n) => {
                if !(n == "g"@ || n == "graph"@) {
                    let s1 = args_fold(acc, args).0;
                    if s1.next <= usize::MAX + 1 {
                        if st.next <= usize::MAX {
                            assert((st.next as usize) as int == st.next);
                        }
                        assert forall|v: Seq<char>| #[trigger] s1.map.contains_key(v) implies s1.map[v] == 0 || 2
                            <= s1.map[v] < s1.next by {
                            if v != n {
                                assert(st.map.contains_key(v));
                            }
                        }
                        assert forall|v: Seq<char>, w: Seq<char>|
                            #[trigger] s1.map.contains_key(v) && #[trigger] s1.map.contains_key(w) && v != w
                                && s1.map[v] >= 2 implies s1.map[v] != s1.map[w] by {
                            if v != n && w != n {
                                assert(st.map.contains_key(v) && st.map.contains_key(w));
                            } else if v == n {
                                assert(st.map.contains_key(w));
                            } else {
                                assert(st.map.contains_key(v));
                            }
                        }
                    }
                }
            },
            _ => {},
        }
    }
}

proof fn lemma_params_ok(acc: (RaState, Seq<char>), es: Seq<Sx>)
    requires
        regs_ok(acc.0),
    ensures
        regs_ok(params_fold(acc, es).0),
    decreases es.len(),
{
    if es.len() > 0 {
        let p = es.drop_last();
        lemma_params_ok(acc, p);
        let a0 = params_fold(acc, p);
        match es.last() {
            Sx::List(l) => {
                if is_def_op(l) && l.len() >= 2 && l[1] is List && l[1]->List_0.len() > 0 {
                    lemma_args_ok((a0.0, false), l[1]->List_0.skip(1));
                }
            },
            _ => {},
        }
    }
}

proof fn lemma_main_ok(st: RaState, es: Seq<Sx>)
    requires
        regs_ok(st),
    ensures
        regs_ok(main_fold(st, es)),
    decreases es.len(),
{
    if es.len() > 0 {
        let p = es.drop_last();
        lemma_main_ok(st, p);
        let s0 = main_fold(st, p);
        match es.last() {
            Sx::List(l) => {
                if l.len() > 0 && l[0] is Symbol {
                    if is_def_op(l) {
                        if l.len() > 2 {
                            lemma_stmts_ok(s0, l.skip(2));
                        }
                    } else {
                        lemma_stmt_ok(s0, es.last());
                    }
                }
            },
            _ => {},
        }
    }
}

/// Distinct variables get distinct registers: an input parameter `R0`,
/// every other variable its own register from `R2` up. Where the program's
/// registers fit, every variable's register lies below `R63`, so `R63`
/// holds only what `return` writes there.
pub proof fn law_variable_registers(es: Seq<Sx>)
    ensures
        regs_ok(alloc_final(es)),
        registers_fit(es) ==> forall|v: Seq<char>|
            #[trigger] alloc_final(es).map.contains_key(v) ==> alloc_final(es).map[v] < 63
                && alloc_final(es).map[v] != 1,
{
    let init = (initial_state(), "main_query"@);
    lemma_params_ok(init, es);
    lemma_main_ok(params_fold(init, es).0, es);
}

// ---------------------------------------------------------------------------
// Executable lowering
// ---------------------------------------------------------------------------

/// Lowering state: variable registers, next free register, instructions.
pub struct Lowering {
    regs: StrMap<usize>,
    next: usize,
    out: Vec<AllocatedInstruction>,
}

pub open spec fn instrs_view(v: Seq<AllocatedInstruction>) -> Seq<InsV> {
    v.map_values(|i: AllocatedInstruction| ins_view(i))
}

impl Lowering {
    pub closed spec fn wf(&self) -> bool {
        self.regs.wf()
    }

    pub closed spec fn state(&self) -> RaState {
        RaState { map: self.regs.view(), next: self.next as int, out: instrs_view(self.out@) }
    }

    fn emit_ins(&mut self, i: AllocatedInstruction)
        requires
            old(self).wf(),
        ensures
            final(self).wf(),
            final(self).state() == emit(old(self).state(), ins_view(i)),
    {
        let ghost before = self.out@;
        self.out.push(i);
        assert(instrs_view(self.out@) =~= instrs_view(before).push(ins_view(i)));
    }

    /// The register of a variable, giving it the next free one when new.
    fn get_reg(&mut self, var: &[char]) -> (r: String)
        requires
            old(self).wf(),
            get_reg(old(self).state(), var@).0.next <= usize::MAX,
        ensures
            final(self).wf(),
            (final(self).state(), r@) == get_reg(old(self).state(), var@),
    {
        if var.len() >= 1 && var[0] == 'R' {
            let rest = copy_range(var, 1, var.len());
            assert(rest@ =~= var@.skip(1));
            match parse_unsigned_exec(rest.as_slice(), 10, usize::MAX as u64) {
                Some(_) => {
                    return string_from(var);
                },
                None => {},
            }
        }
        match self.regs.get(var) {
            Some(r) => reg_name_exec(r),
            None => {
                let r = self.next;
                self.next = self.next + 1;
                self.regs.insert(var, r);
                reg_name_exec(r)
            },
        }
    }

    fn get_reg_str(&mut self, var: &str) -> (r: String)
        requires
            old(self).wf(),
            get_reg(old(self).state(), var@).0.next <= usize::MAX,
        ensures
            final(self).wf(),
            (final(self).state(), r@) == get_reg(old(self).state(), var@),
    {
        let v = chars_of(var);
        self.get_reg(v.as_slice())
    }

    /// Lowers `e` so that its value lands in `target`.
    fn lower_value(&mut self, e: &SExpr, target: &String)
        requires
            old(self).wf(),
            lower_value(old(self).state(), sx(*e), target@).next <= usize::MAX,
        ensures
            final(self).wf(),
            final(self).state() == lower_value(old(self).state(), sx(*e), target@),
        decreases e, 1int,
    {
        let ghost st = self.state();
        match e {
            SExpr::Int(v) => {
                self.emit_ins(instr1("OP_LOAD_CONST_INT", Some(target.clone()), dec_i64(*v)));
            },
            SExpr::Bool(b) => {
                let v = if *b { "1".to_owned() } else { "0".to_owned() };
                self.emit_ins(instr1("OP_LOAD_CONST_INT", Some(target.clone()), v));
            },
            SExpr::Symbol(s) => {
                let cs = chars_of_string(s);
                if eq_str(cs.as_slice(), "#t") || eq_str(cs.as_slice(), "true") {
                    self.emit_ins(instr1("OP_LOAD_CONST_INT", Some(target.clone()), "1".to_owned()));
                } else if eq_str(cs.as_slice(), "#f") || eq_str(cs.as_slice(), "false") {
                    self.emit_ins(instr1("OP_LOAD_CONST_INT", Some(target.clone()), "0".to_owned()));
                } else {
                    proof {
                        let (st1, src) = get_reg(st, s@);
                        if src != target@ {
                        }
                    }
                    let src = self.get_reg(cs.as_slice());
                    if src != *target {
                        self.emit_ins(instr1("OP_MOVE", Some(target.clone()), src));
                    }
                }
            },
            SExpr::List(l) => {
                proof {
                    lemma_sxs(l@);
                }
                let ghost ls = sxs(l@);
                if l.len() == 2 && head_is(l, "bitset:from") {
                    proof {
                        assert(decreases_to!(*e => (*e)->List_0));
                        assert(decreases_to!(l@ => l@[1]));
                    }
                    let src = self.eval(&l[1]);
                    self.emit_ins(instr1("OP_COLLECT_BITSET", Some(target.clone()), src));
                } else if l.len() == 3 && (head_is(l, "bitset:and-not") || head_is(l, "bitset:or")) {
                    let op = if head_is(l, "bitset:and-not") { "OP_ROARING_BITMAP_AND_NOT" } else { "OP_ROARING_BITMAP_OR" };
                    proof {
                        assert(decreases_to!(*e => (*e)->List_0));
                        assert(decreases_to!(l@ => l@[1]));
                        assert(decreases_to!(l@ => l@[2]));
                        let (st1, a1) = eval(st, ls[1]);
                        lemma_eval_mono(st1, ls[2]);
                    }
                    let a1 = self.eval(&l[1]);
                    let a2 = self.eval(&l[2]);
                    self.emit_ins(instr2(op, Some(target.clone()), a1, a2));
                } else if l.len() == 4 && head_is(l, "g:walk-csr") {
                    proof {
                        assert(decreases_to!(*e => (*e)->List_0));
                        assert(decreases_to!(l@ => l@[2]));
                    }
                    let f = self.eval(&l[2]);
                    let rel = rel_name_exec(&l[3]);
                    self.emit_ins(instr2("OP_CSR_WALK", Some(target.clone()), f, rel));
                } else if l.len() == 5 && head_is(l, "g:walk-csr-filtered") {
                    proof {
                        assert(decreases_to!(*e => (*e)->List_0));
                        assert(decreases_to!(l@ => l@[2]));
                        assert(decreases_to!(l@ => l@[4]));
                        let (st1, f) = eval(st, ls[2]);
                        lemma_eval_mono(st1, ls[4]);
                    }
                    let f = self.eval(&l[2]);
                    let rel = rel_name_exec(&l[3]);
                    let m = self.eval(&l[4]);
                    self.emit_ins(instr3("OP_CSR_WALK_FILTERED", Some(target.clone()), f, rel, m));
                }
            },
            _ => {},
        }
    }

    /// The register or literal an operand is read from.
    fn eval(&mut self, e: &SExpr) -> (r: String)
        requires
            old(self).wf(),
            eval(old(self).state(), sx(*e)).0.next <= usize::MAX,
        ensures
            final(self).wf(),
            (final(self).state(), r@) == eval(old(self).state(), sx(*e)),
        decreases e, 2int,
    {
        match e {
            SExpr::Symbol(s) => {
                let cs = chars_of_string(s);
                self.get_reg(cs.as_slice())
            },
            SExpr::Int(n) => dec_i64(*n),
            SExpr::List(_) => {
                proof {
                    let (st1, tmp) = get_reg(self.state(), "tmp_val"@);
                    lemma_value_mono(st1, sx(*e), tmp);
                }
                let tmp = self.get_reg_str("tmp_val");
                self.lower_value(e, &tmp);
                tmp
            },
            _ => "R1".to_owned(),
        }
    }
}

/// The head of a list is the symbol `name`.
fn head_is(l: &Vec<SExpr>, name: &str) -> (r: bool)
    ensures
        r == op_is(sxs(l@), name@),
{
    proof {
        lemma_sxs(l@);
    }
    l.len() > 0 && crate::passes::symbol_is(&l[0], name)
}

fn rel_name_exec(e: &SExpr) -> (r: String)
    ensures
        r@ == rel_name(sx(*e)),
{
    match e {
        SExpr::Str(s) | SExpr::Symbol(s) => {
            let cs = chars_of_string(s);
            let u = upper_exec(cs.as_slice());
            let mut v = chars_of("REL_");
            let ghost p = v@;
            crate::text::append_chars(&mut v, u.as_slice());
            string_from(v.as_slice())
        },
        _ => "REL_DEFAULT".to_owned(),
    }
}

fn strings1(a: String) -> (v: Vec<String>)
    ensures
        strings_view(v@) == seq![a@],
{
    let mut v: Vec<String> = Vec::new();
    v.push(a);
    assert(strings_view(v@) =~= seq![a@]);
    v
}

fn instr0(op: &str) -> (i: AllocatedInstruction)
    ensures
        ins_view(i) == (op@, Option::<Seq<char>>::None, Seq::<Seq<char>>::empty()),
{
    let v: Vec<String> = Vec::new();
    assert(strings_view(v@) =~= Seq::<Seq<char>>::empty());
    AllocatedInstruction { opcode: op.to_owned(), dst: None, args: v }
}

fn instr1(op: &str, dst: Option<String>, a: String) -> (i: AllocatedInstruction)
    ensures
        ins_view(i) == (op@, match dst { Some(d) => Some(d@), None => None }, seq![a@]),
{
    AllocatedInstruction { opcode: op.to_owned(), dst, args: strings1(a) }
}

fn instr2(op: &str, dst: Option<String>, a: String, b: String) -> (i: AllocatedInstruction)
    ensures
        ins_view(i) == (op@, match dst { Some(d) => Some(d@), None => None }, seq![a@, b@]),
{
    let mut v: Vec<String> = Vec::new();
    v.push(a);
    v.push(b);
    assert(strings_view(v@) =~= seq![a@, b@]);
    AllocatedInstruction { opcode: op.to_owned(), dst, args: v }
}

fn instr3(op: &str, dst: Option<String>, a: String, b: String, c: String) -> (i: AllocatedInstruction)
    ensures
        ins_view(i) == (op@, match dst { Some(d) => Some(d@), None => None }, seq![a@, b@, c@]),
{
    let mut v: Vec<String> = Vec::new();
    v.push(a);
    v.push(b);
    v.push(c);
    assert(strings_view(v@) =~= seq![a@, b@, c@]);
    AllocatedInstruction { opcode: op.to_owned(), dst, args: v }
}

// ---------------------------------------------------------------------------
// Statements and whole programs
// ---------------------------------------------------------------------------

impl Lowering {
    fn binding(&mut self, b: &SExpr)
        requires
            old(self).wf(),
            binding_step(old(self).state(), sx(*b)).next <= usize::MAX,
        ensures
            final(self).wf(),
            final(self).state() == binding_step(old(self).state(), sx(*b)),
    {
        let ghost st = self.state();
        match b {
            SExpr::List(p) => {
                proof {
                    lemma_sxs(p@);
                }
                if p.len() == 2 {
                    match &p[0] {
                        SExpr::Symbol(v) => {
                            let cs = chars_of_string(v);
                            proof {
                                let (st1, d) = get_reg(st, v@);
                                lemma_value_mono(st1, sx(p@[1]), d);
                            }
                            let d = self.get_reg(cs.as_slice());
                            self.lower_value(&p[1], &d);
                        },
                        _ => {},
                    }
                }
            },
            _ => {},
        }
    }

    /// Lowers a `let`: its bindings in order, then its body statements.
    fn lower_let(&mut self, e: &SExpr)
        requires
            old(self).wf(),
            sx(*e) is List,
            sx(*e)->List_0.len() >= 2,
            op_is(sx(*e)->List_0, "let"@) || op_is(sx(*e)->List_0, "let*"@),
            lower_stmt(old(self).state(), sx(*e)).next <= usize::MAX,
        ensures
            final(self).wf(),
            final(self).state() == lower_stmt(old(self).state(), sx(*e)),
        decreases e, 0int,
    {
        let ghost st = self.state();
        match e {
            SExpr::List(l) => {
                proof {
                    lemma_sxs(l@);
                    assert(decreases_to!(*e => (*e)->List_0));
                }
                let ghost ls = sxs(l@);
                    let ghost st1 = match ls[1] {
                        Sx::List(bs) => bindings_fold(st, bs),
                        _ => st,
                    };
                    proof {
                        lemma_stmts_prefix(st1, ls.skip(2), 0);
                        assert(ls.skip(2).take(0) =~= Seq::<Sx>::empty());
                    }
                    match &l[1] {
                        SExpr::List(bs) => {
                            proof {
                                lemma_sxs(bs@);
                            }
                            let ghost bv = sxs(bs@);
                            let mut k: usize = 0;
                            assert(bv.take(0) =~= Seq::<Sx>::empty());
                            while k < bs.len()
                                invariant
                                    k <= bs.len(),
                                    self.wf(),
                                    bv == sxs(bs@),
                                    bv.len() == bs@.len(),
                                    forall|i: int| 0 <= i < bs@.len() ==> #[trigger] bv[i] == sx(bs@[i]),
                                    self.state() == bindings_fold(st, bv.take(k as int)),
                                    bindings_fold(st, bv).next <= usize::MAX,
                                decreases bs.len() - k,
                            {
                                proof {
                                    lemma_bindings_prefix(st, bv, k + 1);
                                    assert(bv.take(k + 1).drop_last() =~= bv.take(k as int));
                                }
                                self.binding(&bs[k]);
                                k = k + 1;
                            }
                            assert(bv.take(bs.len() as int) =~= bv);
                        },
                        _ => {},
                    }
                    let ghost es = ls.skip(2);
                    let mut j: usize = 2;
                    assert(es.take(0) =~= Seq::<Sx>::empty());
                    while j < l.len()
                        invariant
                            2 <= j <= l.len(),
                            self.wf(),
                            ls == sxs(l@),
                            ls.len() == l@.len(),
                            forall|i: int| 0 <= i < l@.len() ==> #[trigger] ls[i] == sx(l@[i]),
                            es == ls.skip(2),
                            *e == SExpr::List(*l),
                            self.state() == stmts_fold(st1, es.take(j - 2)),
                            stmts_fold(st1, es).next <= usize::MAX,
                        decreases l.len() - j,
                    {
                        proof {
                            lemma_stmts_prefix(st1, es, j - 1);
                            assert(es.take(j - 1).drop_last() =~= es.take(j - 2));
                            assert(es[j - 2] == ls[j as int]);
                            assert(decreases_to!(*e => (*e)->List_0));
                            assert(decreases_to!(l@ => l@[j as int]));
                        }
                        self.lower_stmt(&l[j]);
                        j = j + 1;
                    }
                    assert(es.take(l.len() - 2) =~= es);
                    assert(sx(*e) == Sx::List(ls));
                    assert(lower_stmt(st, Sx::List(ls)) == stmts_fold(st1, ls.skip(2)));
            },
            _ => {},
        }
    }

    /// Lowers one statement.
    fn lower_stmt(&mut self, e: &SExpr)
        requires
            old(self).wf(),
            lower_stmt(old(self).state(), sx(*e)).next <= usize::MAX,
        ensures
            final(self).wf(),
            final(self).state() == lower_stmt(old(self).state(), sx(*e)),
        decreases e, 1int,
    {
        let ghost st = self.state();
        match e {
            SExpr::List(l) => {
                proof {
                    lemma_sxs(l@);
                    assert(decreases_to!(*e => (*e)->List_0));
                }
                let ghost ls = sxs(l@);
                if l.len() >= 2 && (head_is(l, "let") || head_is(l, "let*")) {
                    self.lower_let(e);
                } else if l.len() == 3 && head_is(l, "set!") {
                    match &l[1] {
                        SExpr::Symbol(v) => {
                            let cs = chars_of_string(v);
                            proof {
                                let (st1, d) = get_reg(st, v@);
                                lemma_value_mono(st1, ls[2], d);
                            }
                            let d = self.get_reg(cs.as_slice());
                            self.lower_value(&l[2], &d);
                            assert(self.state() == lower_stmt(st, sx(*e)));
                        },
                        _ => {
                            proof {
                                reveal_strlit("set!");
                                reveal_strlit("let");
                                reveal_strlit("let*");
                                reveal_strlit("return");
                                reveal_strlit("bitset:and-not");
                                reveal_strlit("bitset:or");
                                reveal_strlit("g:walk-csr");
                            }
                            assert(!(ls[1] is Symbol));
                            assert(sx(*e) == Sx::List(ls));
                            assert(op_is(ls, "set!"@));
                            assert(!op_is(ls, "let"@));
                            assert("set!"@.len() == 4);
                            assert("return"@.len() == 6);
                            assert("set!"@ != "return"@);
                            assert(!op_is(ls, "return"@));
                            assert(lower_stmt(st, Sx::List(ls)) == st);
                            assert(lower_stmt(st, sx(*e)) == st);
                        },
                    }
                } else if l.len() == 2 && head_is(l, "return") {
                    let t = "R63".to_owned();
                    self.lower_value(&l[1], &t);
                    self.emit_ins(instr0("OP_LEAVE_FRAME"));
                    self.emit_ins(instr0("OP_HALT"));
                    assert(self.state() == lower_stmt(st, sx(*e)));
                } else if l.len() == 3 && (head_is(l, "bitset:and-not") || head_is(l, "bitset:or")) {
                    let is_and_not = head_is(l, "bitset:and-not");
                    let (tmp, op) = if is_and_not {
                        ("tmp_and_not", "OP_ROARING_BITMAP_AND_NOT")
                    } else {
                        ("tmp_or", "OP_ROARING_BITMAP_OR")
                    };
                    proof {
                        let (st1, d) = get_reg(st, tmp@);
                        lemma_eval_mono(st1, ls[1]);
                        let (st2, a1) = eval(st1, ls[1]);
                        lemma_eval_mono(st2, ls[2]);
                    }
                    let d = self.get_reg_str(tmp);
                    let a1 = self.eval(&l[1]);
                    let a2 = self.eval(&l[2]);
                    self.emit_ins(instr2(op, Some(d), a1, a2));
                    assert(self.state() == lower_stmt(st, sx(*e)));
                } else if l.len() == 4 && head_is(l, "g:walk-csr") {
                    proof {
                        let (st1, d) = get_reg(st, "tmp_walk"@);
                        lemma_eval_mono(st1, ls[1]);
                        let (st2, a1) = eval(st1, ls[1]);
                        lemma_eval_mono(st2, ls[2]);
                    }
                    let d = self.get_reg_str("tmp_walk");
                    let g = self.eval(&l[1]);
                    let f = self.eval(&l[2]);
                    let rel = rel_name_exec(&l[3]);
                    self.emit_ins(instr3("OP_CSR_WALK", Some(d), g, f, rel));
                    assert(self.state() == lower_stmt(st, sx(*e)));
                } else {
                    assert(lower_stmt(st, sx(*e)) == st);
                }
            },
            _ => {},
        }
    }
}

// ---------------------------------------------------------------------------
// Whole programs
// ---------------------------------------------------------------------------

pub open spec fn is_def_op(l: Seq<Sx>) -> bool {
    op_is(l, "define-query"@) || op_is(l, "defn"@) || op_is(l, "define"@)
}

/// One parameter of a query signature: a graph parameter (`g`, `graph`)
/// takes no register, the first other parameter takes register 0 and the
/// rest the next free registers.
pub open spec fn arg_step(acc: (RaState, bool), a: Sx) -> (RaState, bool) {
    match a {
        Sx::Symbol(n) => if n == "g"@ || n == "graph"@ {
            acc
        } else if !acc.1 {
            (RaState { map: acc.0.map.insert(n, 0usize), ..acc.0 }, true)
        } else {
            (
                RaState { map: acc.0.map.insert(n, acc.0.next as usize), next: acc.0.next + 1, ..acc.0 },
                true,
            )
        },
        _ => acc,
    }
}

pub open spec fn args_fold(acc: (RaState, bool), args: Seq<Sx>) -> (RaState, bool)
    decreases args.len(),
{
    if args.len() == 0 {
        acc
    } else {
        arg_step(args_fold(acc, args.drop_last()), args.last())
    }
}

/// The signature of a query definition binds its parameters and names the
/// program.
pub open spec fn param_step(acc: (RaState, Seq<char>), e: Sx) -> (RaState, Seq<char>) {
    match e {
        Sx::List(l) => if is_def_op(l) && l.len() >= 2 && l[1] is List && l[1]->List_0.len() > 0 {
            let sig = l[1]->List_0;
            let name = match sig[0] {
                Sx::Symbol(n) => n,
                _ => acc.1,
            };
            (args_fold((acc.0, false), sig.skip(1)).0, name)
        } else {
            acc
        },
        _ => acc,
    }
}

pub open spec fn params_fold(acc: (RaState, Seq<char>), es: Seq<Sx>) -> (RaState, Seq<char>)
    decreases es.len(),
{
    if es.len() == 0 {
        acc
    } else {
        param_step(params_fold(acc, es.drop_last()), es.last())
    }
}

/// A top-level expression: the body of a definition, or a statement.
pub open spec fn main_step(st: RaState, e: Sx) -> RaState {
    match e {
        Sx::List(l) => if l.len() > 0 && l[0] is Symbol {
            if is_def_op(l) {
                if l.len() > 2 {
                    stmts_fold(st, l.skip(2))
                } else {
                    st
                }
            } else {
                lower_stmt(st, e)
            }
        } else {
            st
        },
        _ => st,
    }
}

pub open spec fn main_fold(st: RaState, es: Seq<Sx>) -> RaState
    decreases es.len(),
{
    if es.len() == 0 {
        st
    } else {
        main_step(main_fold(st, es.drop_last()), es.last())
    }
}

pub open spec fn initial_state() -> RaState {
    RaState { map: Map::empty(), next: 2, out: seq![] }
}

/// The state after both passes over the expressions.
pub open spec fn alloc_final(es: Seq<Sx>) -> RaState {
    main_fold(params_fold((initial_state(), "main_query"@), es).0, es)
}

/// The program the expressions lower to: its name, a frame of at least 16
/// registers, and its instructions.
pub open spec fn alloc_spec(es: Seq<Sx>) -> (Seq<char>, int, Seq<InsV>) {
    let name = params_fold((initial_state(), "main_query"@), es).1;
    let st = alloc_final(es);
    (name, if st.next >= 16 { st.next } else { 16 }, st.out)
}

proof fn lemma_args_prefix(acc: (RaState, bool), args: Seq<Sx>, j: int)
    requires
        0 <= j <= args.len(),
    ensures
        args_fold(acc, args).0.next >= args_fold(acc, args.take(j)).0.next,
        args_fold(acc, args).0.next >= acc.0.next,
    decreases args.len(),
{
    if j == args.len() {
        assert(args.take(j) =~= args);
    }
    if args.len() > 0 {
        let p = args.drop_last();
        if j < args.len() {
            lemma_args_prefix(acc, p, j);
            assert(p.take(j) =~= args.take(j));
        } else {
            lemma_args_prefix(acc, p, 0);
        }
    }
}

proof fn lemma_params_prefix(acc: (RaState, Seq<char>), es: Seq<Sx>, j: int)
    requires
        0 <= j <= es.len(),
    ensures
        params_fold(acc, es).0.next >= params_fold(acc, es.take(j)).0.next,
        params_fold(acc, es).0.next >= acc.0.next,
    decreases es.len(),
{
    if j == es.len() {
        assert(es.take(j) =~= es);
    }
    if es.len() > 0 {
        let p = es.drop_last();
        let a = params_fold(acc, p);
        match es.last() {
            Sx::List(l) => if is_def_op(l) && l.len() >= 2 && l[1] is List && l[1]->List_0.len() > 0 {
                lemma_args_prefix((a.0, false), l[1]->List_0.skip(1), 0);
            },
            _ => {},
        }
        if j < es.len() {
            lemma_params_prefix(acc, p, j);
            assert(p.take(j) =~= es.take(j));
        } else {
            lemma_params_prefix(acc, p, 0);
        }
    }
}

proof fn lemma_main_step_mono(st: RaState, e: Sx)
    ensures
        main_step(st, e).next >= st.next,
{
    match e {
        Sx::List(l) => if l.len() > 0 && l[0] is Symbol {
            if is_def_op(l) {
                if l.len() > 2 {
                    lemma_stmts_prefix(st, l.skip(2), 0);
                    assert(l.skip(2).take(0) =~= Seq::<Sx>::empty());
                }
            } else {
                lemma_stmt_mono(st, e);
            }
        },
        _ => {},
    }
}

proof fn lemma_main_prefix(st: RaState, es: Seq<Sx>, j: int)
    requires
        0 <= j <= es.len(),
    ensures
        main_fold(st, es).next >= main_fold(st, es.take(j)).next,
        main_fold(st, es).next >= st.next,
    decreases es.len(),
{
    if j == es.len() {
        assert(es.take(j) =~= es);
    }
    if es.len() > 0 {
        let p = es.drop_last();
        lemma_main_step_mono(main_fold(st, p), es.last());
        if j < es.len() {
            lemma_main_prefix(st, p, j);
            assert(p.take(j) =~= es.take(j));
        } else {
            lemma_main_prefix(st, p, 0);
        }
    }
}

impl Lowering {
    /// Lowers the statements `l[2..]` in order.
    fn lower_body(&mut self, l: &Vec<SExpr>)
        requires
            old(self).wf(),
            l.len() >= 2,
            stmts_fold(old(self).state(), sxs(l@).skip(2)).next <= usize::MAX,
        ensures
            final(self).wf(),
            final(self).state() == stmts_fold(old(self).state(), sxs(l@).skip(2)),
    {
        let ghost st = self.state();
        proof {
            lemma_sxs(l@);
        }
        let ghost ls = sxs(l@);
        let ghost es = ls.skip(2);
        let mut j: usize = 2;
        assert(es.take(0) =~= Seq::<Sx>::empty());
        while j < l.len()
            invariant
                2 <= j <= l.len(),
                self.wf(),
                ls == sxs(l@),
                ls.len() == l@.len(),
                forall|i: int| 0 <= i < l@.len() ==> #[trigger] ls[i] == sx(l@[i]),
                es == ls.skip(2),
                self.state() == stmts_fold(st, es.take(j - 2)),
                stmts_fold(st, es).next <= usize::MAX,
            decreases l.len() - j,
        {
            proof {
                lemma_stmts_prefix(st, es, j - 1);
                assert(es.take(j - 1).drop_last() =~= es.take(j - 2));
                assert(es[j - 2] == ls[j as int]);
            }
            self.lower_stmt(&l[j]);
            j = j + 1;
        }
        assert(es.take(l.len() - 2) =~= es);
    }

    /// Binds the parameters of a signature (its items after the name).
    fn bind_params(&mut self, sig: &Vec<SExpr>)
        requires
            old(self).wf(),
            sig.len() > 0,
            args_fold((old(self).state(), false), sxs(sig@).skip(1)).0.next <= usize::MAX,
        ensures
            final(self).wf(),
            final(self).state() == args_fold((old(self).state(), false), sxs(sig@).skip(1)).0,
    {
        let ghost st = self.state();
        proof {
            lemma_sxs(sig@);
        }
        let ghost ss = sxs(sig@);
        let ghost args = ss.skip(1);
        let mut assigned = false;
        let mut j: usize = 1;
        assert(args.take(0) =~= Seq::<Sx>::empty());
        while j < sig.len()
            invariant
                1 <= j <= sig.len(),
                self.wf(),
                ss == sxs(sig@),
                ss.len() == sig@.len(),
                forall|i: int| 0 <= i < sig@.len() ==> #[trigger] ss[i] == sx(sig@[i]),
                args == ss.skip(1),
                (self.state(), assigned) == args_fold((st, false), args.take(j - 1)),
                args_fold((st, false), args).0.next <= usize::MAX,
            decreases sig.len() - j,
        {
            proof {
                lemma_args_prefix((st, false), args, j as int);
                assert(args.take(j as int).drop_last() =~= args.take(j - 1));
                assert(args[j - 1] == ss[j as int]);
            }
            match &sig[j] {
                SExpr::Symbol(a) => {
                    let cs = chars_of_string(a);
                    if eq_str(cs.as_slice(), "g") || eq_str(cs.as_slice(), "graph") {
                    } else if !assigned {
                        self.regs.insert(cs.as_slice(), 0);
                        assigned = true;
                    } else {
                        let r = self.next;
                        self.regs.insert(cs.as_slice(), r);
                        self.next = self.next + 1;
                    }
                },
                _ => {},
            }
            j = j + 1;
        }
        assert(args.take(sig.len() - 1) =~= args);
    }
}

/// The machine has registers `R0 ..= R63`: `R0` holds the input, `R1` is
/// scratch and `R63` receives the returned value, so the variables of a
/// program fit where every one of them gets a register of `R2 ..= R62`, that
/// is where fewer than 64 registers are handed out in all.
pub open spec fn registers_fit(es: Seq<Sx>) -> bool {
    alloc_final(es).next <= 63
}

/// The message of a program whose variables need more registers than the
/// machine has.
pub open spec fn too_many_registers_message() -> Seq<char> {
    "Register allocation failed: variables would need registers beyond R62"@
}

/// Assigns registers and lowers query expressions to instructions: first
/// the parameters of every query definition are bound, then every
/// definition body and every other top-level statement is lowered. Fails
/// where the variables need more registers than `R2 ..= R62`.
pub fn assign_registers(exprs: Vec<SExpr>) -> (r: Result<AllocatedProgram, String>)
    requires
        alloc_final(sxs(exprs@)).next <= usize::MAX,
    ensures
        r is Ok <==> registers_fit(sxs(exprs@)),
        r matches Ok(p) ==> program_view(p) == alloc_spec(sxs(exprs@)),
        r matches Err(m) ==> m@ == too_many_registers_message(),
{
    proof {
        lemma_sxs(exprs@);
    }
    let ghost es = sxs(exprs@);
    let mut low = Lowering { regs: StrMap::new(), next: 2, out: Vec::new() };
    assert(instrs_view(low.out@) =~= Seq::<InsV>::empty());
    assert(low.state() == initial_state());
    let mut fn_name: String = "main_query".to_owned();
    let ghost init = (initial_state(), "main_query"@);
    proof {
        lemma_params_prefix(init, es, 0);
        lemma_main_prefix(params_fold(init, es).0, es, 0);
    }
    let mut k: usize = 0;
    assert(es.take(0) =~= Seq::<Sx>::empty());
    while k < exprs.len()
        invariant
            k <= exprs.len(),
            low.wf(),
            es == sxs(exprs@),
            es.len() == exprs@.len(),
            forall|i: int| 0 <= i < exprs@.len() ==> #[trigger] es[i] == sx(exprs@[i]),
            (low.state(), fn_name@) == params_fold(init, es.take(k as int)),
            params_fold(init, es).0.next <= usize::MAX,
        decreases exprs.len() - k,
    {
        proof {
            lemma_params_prefix(init, es, k + 1);
            assert(es.take(k + 1).drop_last() =~= es.take(k as int));
            assert(es[k as int] == sx(exprs@[k as int]));
        }
        let ghost acc = params_fold(init, es.take(k as int));
        match &exprs[k] {
            SExpr::List(l) => {
                proof {
                    lemma_sxs(l@);
                }
                if l.len() >= 2 && (head_is(l, "define-query") || head_is(l, "defn") || head_is(l, "define")) {
                    match &l[1] {
                        SExpr::List(sig) => {
                            proof {
                                lemma_sxs(sig@);
                            }
                            if sig.len() > 0 {
                                match &sig[0] {
                                    SExpr::Symbol(n) => {
                                        fn_name = n.clone();
                                    },
                                    _ => {},
                                }
                                low.bind_params(sig);
                            }
                        },
                        _ => {},
                    }
                }
            },
            _ => {},
        }
        k = k + 1;
    }
    assert(es.take(exprs.len() as int) =~= es);
    let ghost st0 = low.state();
    let mut k: usize = 0;
    assert(es.take(0) =~= Seq::<Sx>::empty());
    while k < exprs.len()
        invariant
            k <= exprs.len(),
            low.wf(),
            es == sxs(exprs@),
            es.len() == exprs@.len(),
            forall|i: int| 0 <= i < exprs@.len() ==> #[trigger] es[i] == sx(exprs@[i]),
            low.state() == main_fold(st0, es.take(k as int)),
            main_fold(st0, es).next <= usize::MAX,
        decreases exprs.len() - k,
    {
        proof {
            lemma_main_prefix(st0, es, k + 1);
            assert(es.take(k + 1).drop_last() =~= es.take(k as int));
        }
        match &exprs[k] {
            SExpr::List(l) => {
                proof {
                    lemma_sxs(l@);
                }
                if l.len() > 0 {
                    if let SExpr::Symbol(_) = &l[0] {
                        if head_is(l, "define-query") || head_is(l, "defn") || head_is(l, "define") {
                            if l.len() > 2 {
                                low.lower_body(l);
                            }
                        } else {
                            low.lower_stmt(&exprs[k]);
                        }
                    }
                }
            },
            _ => {},
        }
        k = k + 1;
    }
    assert(es.take(exprs.len() as int) =~= es);
    if low.next > 63 {
        return Err("Register allocation failed: variables would need registers beyond R62".to_owned());
    }
    let frame_size = if low.next >= 16 { low.next } else { 16 };
    let p = AllocatedProgram { function_name: fn_name, frame_size, instructions: low.out };
    Ok(p)
}

} // verus!
