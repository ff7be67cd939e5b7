//! The ImpLog front end: Datalog-style rules become one traversal query.
//!
//! Each rule `head(V, ..) :- rel(..), ..` walks the relation named by the
//! last body term with arguments (upper-cased) from the current frontier and
//! assigns the result to the head's first argument, which becomes the next
//! frontier; a negated body term subtracts the visited set.
use vstd::prelude::*;
use crate::sexpr::{SExpr, Sx, sx, sxs, lemma_sxs, symbol};
use crate::text::{
    chars_of, copy_range, find_char, first_index, lemma_first_index_some, split, split_exec,
    starts_with, starts_with_str, string_from, trim, trim_chars, trim_end_char, trim_end_char_exec,
    upper, upper_exec,
};

verus! {

/// An ImpLog reading error.
#[derive(Debug)]
pub struct ImpLogParseError {
    pub message: String,
}

/// The first position where `a` is directly followed by `b`.
pub open spec fn find_pair(s: Seq<char>, a: char, b: char) -> Option<int>
    decreases s.len(),
{
    if s.len() < 2 {
        None
    } else if s[0] == a && s[1] == b {
        Some(0)
    } else {
        match find_pair(s.drop_first(), a, b) {
            Some(i) => Some(i + 1),
            None => None,
        }
    }
}

proof fn lemma_find_pair(s: Seq<char>, a: char, b: char, i: int)
    requires
        0 <= i <= s.len(),
        forall|j: int| 0 <= j < i && j + 1 < s.len() ==> !(#[trigger] s[j] == a && s[j + 1] == b),
    ensures
        i + 1 < s.len() && s[i] == a && s[i + 1] == b ==> find_pair(s, a, b) == Some(i),
        i + 1 >= s.len() ==> find_pair(s, a, b) is None,
    decreases i,
{
    if i > 0 {
        if s.len() >= 2 {
            assert(!(s[0] == a && s[1] == b));
            lemma_find_pair(s.drop_first(), a, b, i - 1);
        }
    } else if s.len() >= 2 && !(s[0] == a && s[1] == b) && i + 1 >= s.len() {
    }
}

fn find_pair_exec(s: &[char], a: char, b: char) -> (r: Option<usize>)
    ensures
        match r {
            Some(i) => find_pair(s@, a, b) == Some(i as int) && i + 1 < s.len(),
            None => find_pair(s@, a, b) is None,
        },
{
    let mut i: usize = 0;
    while i < s.len() && i + 1 < s.len()
        invariant
            i <= s.len(),
            forall|j: int| 0 <= j < i && j + 1 < s.len() ==> !(#[trigger] s@[j] == a && s@[j + 1] == b),
        decreases s.len() - i,
    {
        if s[i] == a && s[i + 1] == b {
            proof {
                lemma_find_pair(s@, a, b, i as int);
            }
            return Some(i);
        }
        i = i + 1;
    }
    proof {
        if s.len() == 0 {
        } else {
            assert(i + 1 >= s.len());
            lemma_find_pair(s@, a, b, i as int);
        }
    }
    None
}

/// The relation walked and whether a negated term was seen, after the body
/// terms `terms`.
pub open spec fn terms_fold(terms: Seq<Seq<char>>) -> (Seq<char>, bool)
    decreases terms.len(),
{
    if terms.len() == 0 {
        ("FOLLOWS"@, false)
    } else {
        let (rel, neg) = terms_fold(terms.drop_last());
        let t = terms.last();
        if starts_with(t, "!"@) || starts_with(t, "not "@) {
            (rel, true)
        } else {
            match first_index(t, '(') {
                Some(k) => if trim(t.take(k)).len() > 0 {
                    (upper(trim(t.take(k))), neg)
                } else {
                    (rel, neg)
                },
                None => (rel, neg),
            }
        }
    }
}

/// A fact `name(a, b, ..)` is a call: it has a `(` and ends with `)`.
pub open spec fn is_call(t: Seq<char>) -> bool {
    first_index(t, '(') is Some && t.len() > 0 && t.last() == ')'
}

/// The argument text of a call: what lies between its first and second
/// `(` with closing parentheses and white space trimmed.
pub open spec fn call_args(t: Seq<char>) -> Seq<char> {
    trim(trim_end_char(split(t, '(')[1], ')'))
}

/// The expression of a fact: a call becomes the list of its name and its
/// arguments as symbols, anything else one symbol.
pub open spec fn fact_sx(s: Seq<char>) -> Sx {
    let t = trim(s);
    if is_call(t) {
        Sx::List(seq![Sx::Symbol(trim(split(t, '(')[0]))] + split(call_args(t), ',').map_values(
            |a: Seq<char>| Sx::Symbol(trim(a)),
        ))
    } else {
        Sx::Symbol(t)
    }
}

/// The variable a rule assigns: the first argument of its head.
pub open spec fn head_var(head: Seq<char>) -> Seq<char> {
    let t = trim(head);
    if is_call(t) {
        trim(split(call_args(t), ',')[0])
    } else {
        "frontier"@
    }
}

pub open spec fn walk_sx(frontier: Seq<char>, rel: Seq<char>) -> Sx {
    Sx::List(seq![Sx::Symbol("g:walk-csr"@), Sx::Symbol("g"@), Sx::Symbol(frontier), Sx::Str(rel)])
}

/// One rule, at whose position `p` the `:-` stands: the new frontier and
/// the statement it adds.
pub open spec fn rule_step(st: (Seq<char>, Seq<Sx>), t: Seq<char>, p: int) -> (Seq<char>, Seq<Sx>) {
    let head_str = trim(t.take(p));
    let after = t.skip(p + 2);
    let body_raw = match find_pair(after, ':', '-') {
        Some(q) => after.take(q),
        None => after,
    };
    let body_str = trim_end_char(trim(body_raw), '.');
    let terms = split(body_str, ',').map_values(|x: Seq<char>| trim(x));
    let (rel, neg) = terms_fold(terms);
    let hv = head_var(head_str);
    let walk = walk_sx(st.0, rel);
    let ev = if neg {
        Sx::List(seq![Sx::Symbol("bitset:and-not"@), walk, Sx::Symbol("visited"@)])
    } else {
        walk
    };
    (hv, st.1.push(Sx::List(seq![Sx::Symbol("set!"@), Sx::Symbol(hv), ev])))
}

/// One line of ImpLog text.
pub open spec fn line_step(st: (Seq<char>, Seq<Sx>), line: Seq<char>) -> (Seq<char>, Seq<Sx>) {
    let t = trim(line);
    if t.len() == 0 || starts_with(t, "//"@) || starts_with(t, "%"@) || starts_with(t, "#"@)
        || starts_with(t, ".decl "@) {
        st
    } else {
        match find_pair(t, ':', '-') {
            Some(p) => rule_step(st, t, p),
            None => st,
        }
    }
}

pub open spec fn lines_fold(st: (Seq<char>, Seq<Sx>), ls: Seq<Seq<char>>) -> (Seq<char>, Seq<Sx>)
    decreases ls.len(),
{
    if ls.len() == 0 {
        st
    } else {
        line_step(lines_fold(st, ls.drop_last()), ls.last())
    }
}

pub open spec fn default_body() -> Seq<Sx> {
    seq![Sx::List(seq![Sx::Symbol("set!"@), Sx::Symbol("frontier"@), walk_sx("frontier"@, "DIRECT_MEMBER"@)])]
}

pub open spec fn init_stmt() -> Sx {
    let ghost from_start = Sx::List(seq![Sx::Symbol("bitset:from"@), Sx::Symbol("start"@)]);
    Sx::List(
        seq![
            Sx::Symbol("let"@),
            Sx::List(seq![
                Sx::List(seq![Sx::Symbol("frontier"@), from_start]),
                Sx::List(seq![Sx::Symbol("visited"@), from_start]),
            ]),
        ],
    )
}

/// The query an ImpLog text compiles to.
pub open spec fn implog_spec(input: Seq<char>) -> Seq<Sx> {
    let (_, body) = lines_fold(("frontier"@, seq![]), split(input, '\n'));
    let body1 = if body.len() == 0 {
        default_body()
    } else {
        body
    };
    let body2 = body1.push(Sx::List(seq![Sx::Symbol("return"@), Sx::Symbol("#t"@)]));
    let sig = Sx::List(seq![Sx::Symbol("implog_rule_query"@), Sx::Symbol("g"@), Sx::Symbol("start"@)]);
    seq![Sx::List(seq![Sx::Symbol("define-query"@), sig, init_stmt()] + body2)]
}

/// A line that the reader passes over: blank, a comment (`//`, `%`, `#`) or a
/// `.decl` declaration.
pub open spec fn skipped_line(line: Seq<char>) -> bool {
    let t = trim(line);
    t.len() == 0 || starts_with(t, "//"@) || starts_with(t, "%"@) || starts_with(t, "#"@) || starts_with(t, ".decl "@)
}

/// Every ImpLog text reads as one query definition, named
/// `implog_rule_query` over `g` and `start`, that ends by returning true.
pub proof fn law_implog_gives_one_query(input: Seq<char>)
    ensures
        implog_spec(input).len() == 1,
        implog_spec(input)[0] is List,
        implog_spec(input)[0]->List_0.len() >= 4,
        implog_spec(input)[0]->List_0[0] == Sx::Symbol("define-query"@),
        implog_spec(input)[0]->List_0[1] == Sx::List(
            seq![Sx::Symbol("implog_rule_query"@), Sx::Symbol("g"@), Sx::Symbol("start"@)],
        ),
        implog_spec(input)[0]->List_0.last() == Sx::List(seq![Sx::Symbol("return"@), Sx::Symbol("#t"@)]),
{
}

/// Blank lines, comments and declarations change nothing: putting one
/// anywhere among the lines gives the same rules.
pub proof fn law_skipped_lines_change_nothing(
    st: (Seq<char>, Seq<Sx>),
    before: Seq<Seq<char>>,
    after: Seq<Seq<char>>,
    line: Seq<char>,
)
    requires
        skipped_line(line),
    ensures
        lines_fold(st, before + seq![line] + after) == lines_fold(st, before + after),
    decreases after.len(),
{
    if after.len() == 0 {
        assert(before + seq![line] + after =~= before.push(line));
        assert(before + after =~= before);
        assert(before.push(line).drop_last() =~= before);
    } else {
        law_skipped_lines_change_nothing(st, before, after.drop_last(), line);
        assert((before + seq![line] + after).drop_last() =~= before + seq![line] + after.drop_last());
        assert((before + after).drop_last() =~= before + after.drop_last());
    }
}

// ---------------------------------------------------------------------------
// Executable side
// ---------------------------------------------------------------------------

fn sym_chars(s: &[char]) -> (e: SExpr)
    ensures
        sx(e) == Sx::Symbol(s@),
{
    SExpr::Symbol(string_from(s))
}

fn push_sx(v: &mut Vec<SExpr>, e: SExpr)
    ensures
        sxs(final(v)@) == sxs(old(v)@).push(sx(e)),
{
    let ghost before = v@;
    v.push(e);
    assert(v@.drop_last() =~= before);
}

proof fn lemma_split_len(s: Seq<char>, c: char)
    ensures
        split(s, c).len() >= 1,
        first_index(s, c) is Some ==> split(s, c).len() >= 2,
        first_index(s, c) matches Some(k) ==> split(s, c)[0] == s.take(k),
    decreases s.len(),
{
    lemma_first_index_some(s, c);
    match first_index(s, c) {
        Some(k) => {
            lemma_split_len(s.skip(k + 1), c);
        },
        None => {},
    }
}

fn vec_views(v: &Vec<Vec<char>>, i: usize) -> (r: &Vec<char>)
    requires
        i < v.len(),
    ensures
        r@ == v@.map_values(|x: Vec<char>| x@)[i as int],
{
    &v[i]
}

/// Reads a fact: `name(a, b)` gives the list `(name a b)`, anything else
/// one symbol.
pub fn parse_fact(s: &[char]) -> (r: Result<SExpr, ImpLogParseError>)
    ensures
        r matches Ok(e) && sx(e) == fact_sx(s@),
{
    let t = trim_chars(s);
    let is_c = match find_char(t.as_slice(), '(') {
        Some(_) => t.len() > 0 && t[t.len() - 1] == ')',
        None => false,
    };
    if is_c {
        let parts = split_exec(t.as_slice(), '(');
        proof {
            lemma_split_len(t@, '(');
        }
        let name = trim_chars(vec_views(&parts, 0).as_slice());
        let inner = trim_end_char_exec(vec_views(&parts, 1).as_slice(), ')');
        let args_str = trim_chars(inner.as_slice());
        let args = split_exec(args_str.as_slice(), ',');
        let ghost av = args@.map_values(|x: Vec<char>| x@);
        let mut list: Vec<SExpr> = Vec::new();
        push_sx(&mut list, sym_chars(name.as_slice()));
        let mut i: usize = 0;
        while i < args.len()
            invariant
                i <= args.len(),
                av == args@.map_values(|x: Vec<char>| x@),
                sxs(list@) == seq![Sx::Symbol(name@)] + av.take(i as int).map_values(
                    |a: Seq<char>| Sx::Symbol(trim(a)),
                ),
            decreases args.len() - i,
        {
            let a = trim_chars(vec_views(&args, i).as_slice());
            push_sx(&mut list, sym_chars(a.as_slice()));
            i = i + 1;
            assert(sxs(list@) =~= seq![Sx::Symbol(name@)] + av.take(i as int).map_values(
                |a: Seq<char>| Sx::Symbol(trim(a)),
            ));
        }
        assert(av.take(args.len() as int) =~= av);
        Ok(SExpr::List(list))
    } else {
        Ok(sym_chars(t.as_slice()))
    }
}

fn head_var_exec(head: &[char]) -> (r: Vec<char>)
    ensures
        r@ == head_var(head@),
{
    let t = trim_chars(head);
    let is_c = match find_char(t.as_slice(), '(') {
        Some(_) => t.len() > 0 && t[t.len() - 1] == ')',
        None => false,
    };
    if is_c {
        let parts = split_exec(t.as_slice(), '(');
        proof {
            lemma_split_len(t@, '(');
        }
        let inner = trim_end_char_exec(vec_views(&parts, 1).as_slice(), ')');
        let args_str = trim_chars(inner.as_slice());
        let args = split_exec(args_str.as_slice(), ',');
        proof {
            lemma_split_len(args_str@, ',');
        }
        trim_chars(vec_views(&args, 0).as_slice())
    } else {
        chars_of("frontier")
    }
}

fn terms_exec(terms: &Vec<Vec<char>>) -> (r: (Vec<char>, bool))
    ensures
        (r.0@, r.1) == terms_fold(terms@.map_values(|x: Vec<char>| trim(x@))),
{
    let ghost tv = terms@.map_values(|x: Vec<char>| trim(x@));
    let mut rel = chars_of("FOLLOWS");
    let mut neg = false;
    let mut i: usize = 0;
    while i < terms.len()
        invariant
            i <= terms.len(),
            tv == terms@.map_values(|x: Vec<char>| trim(x@)),
            (rel@, neg) == terms_fold(tv.take(i as int)),
        decreases terms.len() - i,
    {
        assert(tv.take(i + 1).drop_last() =~= tv.take(i as int));
        let t = trim_chars(terms[i].as_slice());
        assert(t@ == tv[i as int]);
        if starts_with_str(t.as_slice(), "!") || starts_with_str(t.as_slice(), "not ") {
            neg = true;
        } else {
            match find_char(t.as_slice(), '(') {
                Some(k) => {
                    let pre = copy_range(t.as_slice(), 0, k);
                    assert(pre@ =~= t@.take(k as int));
                    let name = trim_chars(pre.as_slice());
                    if name.len() > 0 {
                        rel = upper_exec(name.as_slice());
                    }
                },
                None => {},
            }
        }
        i = i + 1;
    }
    assert(tv.take(terms.len() as int) =~= tv);
    (rel, neg)
}

fn walk_exec(frontier: &[char], rel: &[char]) -> (e: SExpr)
    ensures
        sx(e) == walk_sx(frontier@, rel@),
{
    let mut v: Vec<SExpr> = Vec::new();
    push_sx(&mut v, symbol("g:walk-csr"));
    push_sx(&mut v, symbol("g"));
    push_sx(&mut v, sym_chars(frontier));
    push_sx(&mut v, SExpr::Str(string_from(rel)));
    assert(sxs(v@) =~= seq![Sx::Symbol("g:walk-csr"@), Sx::Symbol("g"@), Sx::Symbol(frontier@), Sx::Str(rel@)]);
    SExpr::List(v)
}

/// Reads ImpLog text into the traversal query it describes.
pub fn parse(input: &str) -> (r: Result<Vec<SExpr>, ImpLogParseError>)
    ensures
        r matches Ok(v) && sxs(v@) == implog_spec(input@),
{
    let cs = chars_of(input);
    let lines = split_exec(cs.as_slice(), '\n');
    let ghost lv = lines@.map_values(|x: Vec<char>| x@);
    let mut frontier = chars_of("frontier");
    let mut body: Vec<SExpr> = Vec::new();
    let mut i: usize = 0;
    assert(sxs(body@) =~= Seq::<Sx>::empty());
    while i < lines.len()
        invariant
            i <= lines.len(),
            lv == lines@.map_values(|x: Vec<char>| x@),
            lv == split(input@, '\n'),
            (frontier@, sxs(body@)) == lines_fold(("frontier"@, seq![]), lv.take(i as int)),
        decreases lines.len() - i,
    {
        assert(lv.take(i + 1).drop_last() =~= lv.take(i as int));
        let ghost st0 = (frontier@, sxs(body@));
        let t = trim_chars(vec_views(&lines, i).as_slice());
        assert(t@ == trim(lv[i as int]));
        let skip = t.len() == 0 || starts_with_str(t.as_slice(), "//") || starts_with_str(t.as_slice(), "%")
            || starts_with_str(t.as_slice(), "#") || starts_with_str(t.as_slice(), ".decl ");
        if !skip {
            match find_pair_exec(t.as_slice(), ':', '-') {
                None => {},
                Some(p) => {
                    let pre = copy_range(t.as_slice(), 0, p);
                    assert(pre@ =~= t@.take(p as int));
                    let head_str = trim_chars(pre.as_slice());
                    let after = copy_range(t.as_slice(), p + 2, t.len());
                    assert(after@ =~= t@.skip(p + 2));
                    let body_raw = match find_pair_exec(after.as_slice(), ':', '-') {
                        Some(q) => {
                            let b = copy_range(after.as_slice(), 0, q);
                            assert(b@ =~= after@.take(q as int));
                            b
                        },
                        None => after,
                    };
                    let tb = trim_chars(body_raw.as_slice());
                    let body_str = trim_end_char_exec(tb.as_slice(), '.');
                    let pieces = split_exec(body_str.as_slice(), ',');
                    proof {
                        let pv = pieces@.map_values(|x: Vec<char>| x@);
                        assert(pieces@.map_values(|x: Vec<char>| trim(x@)) =~= split(body_str@, ',').map_values(|x: Seq<char>| trim(x))) by {
                            assert(pv.len() == split(body_str@, ',').len());
                            assert forall|k: int| 0 <= k < pv.len() implies pv[k] == pieces@[k]@ by {}
                        }
                    }
                    let (rel, neg) = terms_exec(&pieces);
                    let hv = head_var_exec(head_str.as_slice());
                    assert(body_raw@ == (match find_pair(t@.skip(p + 2), ':', '-') {
                        Some(q) => t@.skip(p + 2).take(q),
                        None => t@.skip(p + 2),
                    }));
                    let walk = walk_exec(frontier.as_slice(), rel.as_slice());
                    let ev = if neg {
                        let mut v: Vec<SExpr> = Vec::new();
                        push_sx(&mut v, symbol("bitset:and-not"));
                        push_sx(&mut v, walk);
                        push_sx(&mut v, symbol("visited"));
                        assert(sxs(v@) =~= seq![Sx::Symbol("bitset:and-not"@), walk_sx(frontier@, rel@), Sx::Symbol("visited"@)]);
                        SExpr::List(v)
                    } else {
                        walk
                    };
                    let mut st: Vec<SExpr> = Vec::new();
                    push_sx(&mut st, symbol("set!"));
                    push_sx(&mut st, sym_chars(hv.as_slice()));
                    push_sx(&mut st, ev);
                    assert(sxs(st@) =~= seq![Sx::Symbol("set!"@), Sx::Symbol(hv@), sx(ev)]);
                    push_sx(&mut body, SExpr::List(st));
                    frontier = hv;
                    assert((frontier@, sxs(body@)) == rule_step(st0, t@, p as int));
                },
            }
        }
        assert((frontier@, sxs(body@)) == line_step(st0, lv[i as int]));
        i = i + 1;
    }
    assert(lv.take(lines.len() as int) =~= lv);
    let ghost body_loop = sxs(body@);
    if body.len() == 0 {
        let mut st: Vec<SExpr> = Vec::new();
        push_sx(&mut st, symbol("set!"));
        push_sx(&mut st, symbol("frontier"));
        push_sx(&mut st, walk_exec(chars_of("frontier").as_slice(), chars_of("DIRECT_MEMBER").as_slice()));
        assert(sxs(st@) =~= seq![Sx::Symbol("set!"@), Sx::Symbol("frontier"@), walk_sx("frontier"@, "DIRECT_MEMBER"@)]);
        push_sx(&mut body, SExpr::List(st));
        assert(sxs(body@) =~= default_body());
    }
    let mut ret: Vec<SExpr> = Vec::new();
    push_sx(&mut ret, symbol("return"));
    push_sx(&mut ret, symbol("#t"));
    assert(sxs(ret@) =~= seq![Sx::Symbol("return"@), Sx::Symbol("#t"@)]);
    push_sx(&mut body, SExpr::List(ret));
    let mut sig: Vec<SExpr> = Vec::new();
    push_sx(&mut sig, symbol("implog_rule_query"));
    push_sx(&mut sig, symbol("g"));
    push_sx(&mut sig, symbol("start"));
    assert(sxs(sig@) =~= seq![Sx::Symbol("implog_rule_query"@), Sx::Symbol("g"@), Sx::Symbol("start"@)]);
    let mut def: Vec<SExpr> = Vec::new();
    push_sx(&mut def, symbol("define-query"));
    push_sx(&mut def, SExpr::List(sig));
    push_sx(&mut def, init_exec());
    let ghost head = sxs(def@);
    let ghost tail = sxs(body@);
    assert(head =~= seq![Sx::Symbol("define-query"@), Sx::List(seq![Sx::Symbol("implog_rule_query"@), Sx::Symbol("g"@), Sx::Symbol("start"@)]), init_stmt()]);
    assert(tail == (if body_loop.len() == 0 { default_body() } else { body_loop }).push(Sx::List(seq![Sx::Symbol("return"@), Sx::Symbol("#t"@)])));
    let mut k: usize = 0;
    let mut rest = body;
    assert(rest@ =~= rest@.skip(0));
    let ghost b0 = rest@;
    assert(b0.len() == rest.len());
    while rest.len() > 0
        invariant
            k + rest@.len() == b0.len(),
            rest@ == b0.skip(k as int),
            tail == sxs(b0),
            sxs(def@) == head + sxs(b0).take(k as int),
            b0.len() <= usize::MAX,
        decreases rest.len(),
    {
        let x = rest.remove(0);
        proof {
            crate::sexpr::lemma_sxs(b0);
            assert(x == b0[k as int]);
        }
        push_sx(&mut def, x);
        k = k + 1;
        assert(rest@ =~= b0.skip(k as int));
        assert(sxs(def@) =~= head + sxs(b0).take(k as int));
    }
    proof {
        crate::sexpr::lemma_sxs(b0);
    }
    assert(sxs(b0).take(k as int) =~= sxs(b0));
    let mut out: Vec<SExpr> = Vec::new();
    push_sx(&mut out, SExpr::List(def));
    assert(sxs(out@) =~= implog_spec(input@));
    Ok(out)
}

fn init_exec() -> (e: SExpr)
    ensures
        sx(e) == init_stmt(),
{
    let mut f1: Vec<SExpr> = Vec::new();
    push_sx(&mut f1, symbol("bitset:from"));
    push_sx(&mut f1, symbol("start"));
    let mut f2: Vec<SExpr> = Vec::new();
    push_sx(&mut f2, symbol("bitset:from"));
    push_sx(&mut f2, symbol("start"));
    let ghost from_start = Sx::List(seq![Sx::Symbol("bitset:from"@), Sx::Symbol("start"@)]);
    assert(sxs(f1@) =~= seq![Sx::Symbol("bitset:from"@), Sx::Symbol("start"@)]);
    assert(sxs(f2@) =~= seq![Sx::Symbol("bitset:from"@), Sx::Symbol("start"@)]);
    let mut b1: Vec<SExpr> = Vec::new();
    push_sx(&mut b1, symbol("frontier"));
    push_sx(&mut b1, SExpr::List(f1));
    let mut b2: Vec<SExpr> = Vec::new();
    push_sx(&mut b2, symbol("visited"));
    push_sx(&mut b2, SExpr::List(f2));
    assert(sxs(b1@) =~= seq![Sx::Symbol("frontier"@), from_start]);
    assert(sxs(b2@) =~= seq![Sx::Symbol("visited"@), from_start]);
    let mut bs: Vec<SExpr> = Vec::new();
    push_sx(&mut bs, SExpr::List(b1));
    push_sx(&mut bs, SExpr::List(b2));
    assert(sxs(bs@) =~= seq![Sx::List(seq![Sx::Symbol("frontier"@), from_start]), Sx::List(seq![Sx::Symbol("visited"@), from_start])]);
    let mut v: Vec<SExpr> = Vec::new();
    push_sx(&mut v, symbol("let"));
    push_sx(&mut v, SExpr::List(bs));
    assert(sxs(v@) =~= init_stmt()->List_0);
    SExpr::List(v)
}

} // verus!
