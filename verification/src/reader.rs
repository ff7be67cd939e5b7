//! Reading S-expression text: tokens, then expressions.
use vstd::prelude::*;
use crate::sexpr::{SExpr, Sx, sx, sxs, lemma_sxs_push};
use crate::text::{chars_of, copy_range, eq_str, is_ws, is_whitespace, parse_i64, parse_i64_exec, string_from, ascii_lower};

verus! {

/// A token of S-expression text.
#[derive(Debug)]
pub enum Token {
    LParen,
    RParen,
    Atom(String),
}

pub enum Tk {
    LParen,
    RParen,
    Atom(Seq<char>),
}

pub open spec fn tk(t: Token) -> Tk {
    match t {
        Token::LParen => Tk::LParen,
        Token::RParen => Tk::RParen,
        Token::Atom(s) => Tk::Atom(s@),
    }
}

pub open spec fn tks(ts: Seq<Token>) -> Seq<Tk> {
    ts.map_values(|t: Token| tk(t))
}

/// What went wrong while reading.
pub enum ReadFault {
    UnterminatedString,
    EofInList,
    UnexpectedClose,
    Eof,
}

/// The message of each fault.
pub open spec fn fault_message(f: ReadFault) -> Seq<char> {
    match f {
        ReadFault::UnterminatedString => "Unterminated string literal"@,
        ReadFault::EofInList => "Unexpected EOF while reading list"@,
        ReadFault::UnexpectedClose => "Unexpected ')'"@,
        ReadFault::Eof => "Unexpected EOF"@,
    }
}

/// An S-expression reading error.
#[derive(Debug)]
pub struct ParseError {
    pub message: String,
}

fn parse_error(f: ReadFault) -> (e: ParseError)
    ensures
        e.message@ == fault_message(f),
{
    match f {
        ReadFault::UnterminatedString => ParseError { message: "Unterminated string literal".to_owned() },
        ReadFault::EofInList => ParseError { message: "Unexpected EOF while reading list".to_owned() },
        ReadFault::UnexpectedClose => ParseError { message: "Unexpected ')'".to_owned() },
        ReadFault::Eof => ParseError { message: "Unexpected EOF".to_owned() },
    }
}

// ---------------------------------------------------------------------------
// Tokens
// ---------------------------------------------------------------------------

/// Characters that end an atom.
pub open spec fn ends_atom(c: char) -> bool {
    is_ws(c) || c == '(' || c == ')' || c == ';'
}

/// Where the atom starting at `i` ends.
pub open spec fn atom_end(cs: Seq<char>, i: int) -> int
    decreases cs.len() - i,
{
    if i < cs.len() && !ends_atom(cs[i]) {
        atom_end(cs, i + 1)
    } else {
        i
    }
}

/// Where a comment whose text starts at `i` ends: after its newline, or at
/// the end of the text.
pub open spec fn comment_end(cs: Seq<char>, i: int) -> int
    decreases cs.len() - i,
{
    if i >= cs.len() {
        i
    } else if cs[i] == '\n' {
        i + 1
    } else {
        comment_end(cs, i + 1)
    }
}

/// The body of a string literal from `i` (after the opening quote): a
/// backslash takes the next character as it is; `None` when no closing
/// quote follows.  Gives the body and the position after the closing quote.
pub open spec fn string_body(cs: Seq<char>, i: int, escaped: bool, acc: Seq<char>) -> Option<(Seq<char>, int)>
    decreases cs.len() - i,
{
    if i >= cs.len() {
        None
    } else if cs[i] == '\\' && !escaped {
        string_body(cs, i + 1, true, acc)
    } else if cs[i] == '"' && !escaped {
        Some((acc, i + 1))
    } else {
        string_body(cs, i + 1, false, acc.push(cs[i]))
    }
}

pub proof fn lemma_atom_end(cs: Seq<char>, i: int)
    requires
        0 <= i <= cs.len(),
    ensures
        i <= atom_end(cs, i) <= cs.len(),
        forall|k: int| i <= k < atom_end(cs, i) ==> !ends_atom(#[trigger] cs[k]),
        atom_end(cs, i) < cs.len() ==> ends_atom(cs[atom_end(cs, i)]),
    decreases cs.len() - i,
{
    if i < cs.len() && !ends_atom(cs[i]) {
        lemma_atom_end(cs, i + 1);
    }
}

pub proof fn lemma_comment_end(cs: Seq<char>, i: int)
    ensures
        comment_end(cs, i) >= i,
        i <= cs.len() ==> comment_end(cs, i) <= cs.len(),
    decreases cs.len() - i,
{
    if i < cs.len() && cs[i] != '\n' {
        lemma_comment_end(cs, i + 1);
    }
}

pub proof fn lemma_string_body(cs: Seq<char>, i: int, escaped: bool, acc: Seq<char>)
    ensures
        string_body(cs, i, escaped, acc) matches Some((_, j)) ==> i < j <= cs.len(),
    decreases cs.len() - i,
{
    if i < cs.len() {
        if cs[i] == '\\' && !escaped {
            lemma_string_body(cs, i + 1, true, acc);
        } else if cs[i] == '"' && !escaped {
        } else {
            lemma_string_body(cs, i + 1, false, acc.push(cs[i]));
        }
    }
}

/// Tokens of `cs` from position `i`, after the tokens `acc`.  `None` stands
/// for text on which reading never ends: a white-space character other than
/// space, tab, CR or LF where a token may start.
pub open spec fn lex(cs: Seq<char>, i: int, acc: Seq<Tk>) -> Option<Result<Seq<Tk>, ReadFault>>
    decreases cs.len() - i,
{
    if i >= cs.len() || i < 0 {
        Some(Ok(acc))
    } else {
        let c = cs[i];
        if c == ' ' || c == '\t' || c == '\r' || c == '\n' {
            lex(cs, i + 1, acc)
        } else if c == ';' {
            proof {
                lemma_comment_end(cs, i + 1);
            }
            lex(cs, comment_end(cs, i + 1), acc)
        } else if c == '(' {
            lex(cs, i + 1, acc.push(Tk::LParen))
        } else if c == ')' {
            lex(cs, i + 1, acc.push(Tk::RParen))
        } else if c == '"' {
            proof {
                lemma_string_body(cs, i + 1, false, seq![]);
            }
            match string_body(cs, i + 1, false, seq![]) {
                None => Some(Err(ReadFault::UnterminatedString)),
                Some((body, j)) => lex(cs, j, acc.push(Tk::Atom(seq!['"'] + body + seq!['"']))),
            }
        } else {
            proof {
                lemma_atom_end(cs, i);
            }
            let j = atom_end(cs, i);
            if j == i {
                None
            } else {
                lex(cs, j, acc.push(Tk::Atom(cs.subrange(i, j))))
            }
        }
    }
}

/// The tokens of a text.
pub open spec fn tokens_of(s: Seq<char>) -> Option<Result<Seq<Tk>, ReadFault>> {
    lex(s, 0, seq![])
}

fn push_token(out: &mut Vec<Token>, t: Token)
    ensures
        tks(final(out)@) == tks(old(out)@).push(tk(t)),
{
    let ghost before = out@;
    out.push(t);
    assert(tks(out@) =~= tks(before).push(tk(t)));
}

/// Splits S-expression text into parentheses and atoms; a string literal
/// becomes one atom with its quotes and without its escape backslashes, a
/// `;` starts a comment that runs to the end of the line.
pub fn tokenize(input: &str) -> (r: Result<Vec<Token>, ParseError>)
    requires
        tokens_of(input@) is Some,
    ensures
        match r {
            Ok(ts) => tokens_of(input@) == Some(Ok::<Seq<Tk>, ReadFault>(tks(ts@))),
            Err(e) => exists|f: ReadFault|
                tokens_of(input@) == Some(Err::<Seq<Tk>, ReadFault>(f)) && e.message@ == fault_message(f),
        },
{
    match try_tokenize(input) {
        Some(r) => r,
        None => Err(parse_error(ReadFault::Eof)),
    }
}

/// Tokenizes any text: `None` for text on which reading never ends (a
/// white-space character other than space, tab, CR or LF where a token may
/// start), else what `tokenize` gives.
pub fn try_tokenize(input: &str) -> (r: Option<Result<Vec<Token>, ParseError>>)
    ensures
        r is None <==> tokens_of(input@) is None,
        match r {
            Some(Ok(ts)) => tokens_of(input@) == Some(Ok::<Seq<Tk>, ReadFault>(tks(ts@))),
            Some(Err(e)) => exists|f: ReadFault|
                tokens_of(input@) == Some(Err::<Seq<Tk>, ReadFault>(f)) && e.message@ == fault_message(f),
            None => true,
        },
{
    let cs = chars_of(input);
    let ghost s = cs@;
    let mut out: Vec<Token> = Vec::new();
    let mut i: usize = 0;
    assert(tks(out@) =~= Seq::<Tk>::empty());
    while i < cs.len()
        invariant
            i <= cs.len(),
            s == cs@,
            s == input@,
            lex(s, 0, seq![]) == lex(s, i as int, tks(out@)),
        decreases cs.len() - i,
    {
        let c = cs[i];
        if c == ' ' || c == '\t' || c == '\r' || c == '\n' {
            i = i + 1;
        } else if c == ';' {
            let mut j = i + 1;
            proof {
                lemma_comment_end(s, i + 1);
            }
            while j < cs.len() && cs[j] != '\n'
                invariant
                    i < j <= cs.len(),
                    s == cs@,
                    comment_end(s, i + 1) == comment_end(s, j as int),
                decreases cs.len() - j,
            {
                j = j + 1;
            }
            if j < cs.len() {
                j = j + 1;
            }
            i = j;
        } else if c == '(' {
            push_token(&mut out, Token::LParen);
            i = i + 1;
        } else if c == ')' {
            push_token(&mut out, Token::RParen);
            i = i + 1;
        } else if c == '"' {
            let mut body: Vec<char> = Vec::new();
            let mut escaped = false;
            let mut j = i + 1;
            let ghost want = string_body(s, i + 1, false, seq![]);
            loop
                invariant
                    i < j <= cs.len(),
                    s == cs@,
                    s == input@,
                    s[i as int] == '"',
                    want == string_body(s, i + 1, false, seq![]),
                    want == string_body(s, j as int, escaped, body@),
                    lex(s, 0, seq![]) == lex(s, i as int, tks(out@)),
                ensures
                    j < cs.len(),
                    want == Some((body@, j + 1)),
                decreases cs.len() - j,
            {
                if j >= cs.len() {
                    assert(want is None);
                    return Some(Err(parse_error(ReadFault::UnterminatedString)));
                }
                let d = cs[j];
                if d == '\\' && !escaped {
                    escaped = true;
                } else if d == '"' && !escaped {
                    break;
                } else {
                    escaped = false;
                    body.push(d);
                }
                j = j + 1;
            }
            let mut text: Vec<char> = Vec::new();
            text.push('"');
            let mut k: usize = 0;
            while k < body.len()
                invariant
                    k <= body.len(),
                    text@ == seq!['"'] + body@.take(k as int),
                decreases body.len() - k,
            {
                text.push(body[k]);
                k = k + 1;
                assert(text@ =~= seq!['"'] + body@.take(k as int));
            }
            text.push('"');
            assert(body@.take(body.len() as int) =~= body@);
            assert(text@ =~= seq!['"'] + body@ + seq!['"']);
            push_token(&mut out, Token::Atom(string_from(text.as_slice())));
            i = j + 1;
        } else {
            let mut j = i;
            proof {
                lemma_atom_end(s, i as int);
            }
            while j < cs.len() && !(is_whitespace(cs[j]) || cs[j] == '(' || cs[j] == ')' || cs[j] == ';')
                invariant
                    i <= j <= cs.len(),
                    s == cs@,
                    atom_end(s, i as int) == atom_end(s, j as int),
                decreases cs.len() - j,
            {
                j = j + 1;
            }
            if j == i {
                return None;
            }
            let a = copy_range(cs.as_slice(), i, j);
            push_token(&mut out, Token::Atom(string_from(a.as_slice())));
            i = j;
        }
    }
    Some(Ok(out))
}

// ---------------------------------------------------------------------------
// Atoms
// ---------------------------------------------------------------------------

pub open spec fn is_dec_digit(c: char) -> bool {
    '0' <= c <= '9'
}

pub open spec fn all_dec(s: Seq<char>) -> bool {
    forall|i: int| 0 <= i < s.len() ==> is_dec_digit(#[trigger] s[i])
}

pub open spec fn first_of(s: Seq<char>, a: char, b: char) -> int
    decreases s.len(),
{
    if s.len() == 0 {
        0
    } else if s[0] == a || s[0] == b {
        0
    } else {
        1 + first_of(s.drop_first(), a, b)
    }
}

pub open spec fn lower_ascii_seq(s: Seq<char>) -> Seq<char> {
    s.map_values(|c: char| ascii_lower(c))
}

/// The decimal part of a float literal: digits with at most one `.`, at
/// least one digit.
pub open spec fn float_mantissa(m: Seq<char>) -> bool {
    let p = first_of(m, '.', '.');
    if p < m.len() {
        all_dec(m.take(p)) && all_dec(m.skip(p + 1)) && m.len() >= 2
    } else {
        all_dec(m) && m.len() >= 1
    }
}

/// An exponent: an optional sign and at least one digit.
pub open spec fn float_exponent(x: Seq<char>) -> bool {
    let d = if x.len() > 0 && (x[0] == '+' || x[0] == '-') {
        x.drop_first()
    } else {
        x
    };
    d.len() >= 1 && all_dec(d)
}

/// Text that `f64::from_str` accepts: an optional sign, then `inf`,
/// `infinity` or `nan` (in any case), or a decimal number with an optional
/// exponent introduced by `e` or `E`.
pub open spec fn is_float_text(s: Seq<char>) -> bool {
    let b = if s.len() > 0 && (s[0] == '+' || s[0] == '-') {
        s.drop_first()
    } else {
        s
    };
    let l = lower_ascii_seq(b);
    if l == "inf"@ || l == "infinity"@ || l == "nan"@ {
        true
    } else {
        let e = first_of(b, 'e', 'E');
        if e < b.len() {
            float_mantissa(b.take(e)) && float_exponent(b.skip(e + 1))
        } else {
            float_mantissa(b)
        }
    }
}

/// The expression an atom stands for.
pub open spec fn atom_sx(s: Seq<char>) -> Sx {
    if s == "#t"@ || s == "true"@ {
        Sx::Bool(true)
    } else if s == "#f"@ || s == "false"@ {
        Sx::Bool(false)
    } else if s.len() >= 2 && s[0] == '"' && s[s.len() - 1] == '"' {
        Sx::Str(s.subrange(1, s.len() - 1))
    } else if parse_i64(s) is Some {
        Sx::Int(parse_i64(s)->0)
    } else if is_float_text(s) {
        Sx::Float(s)
    } else {
        Sx::Symbol(s)
    }
}

fn all_dec_exec(s: &[char], a: usize, b: usize) -> (r: bool)
    requires
        a <= b <= s.len(),
    ensures
        r == all_dec(s@.subrange(a as int, b as int)),
{
    let mut i = a;
    while i < b
        invariant
            a <= i <= b <= s.len(),
            forall|k: int| a <= k < i ==> is_dec_digit(s@[k]),
        decreases b - i,
    {
        if !('0' <= s[i] && s[i] <= '9') {
            assert(!is_dec_digit(s@.subrange(a as int, b as int)[i - a]));
            return false;
        }
        i = i + 1;
    }
    assert forall|k: int| 0 <= k < b - a implies is_dec_digit(#[trigger] s@.subrange(a as int, b as int)[k]) by {
        assert(s@.subrange(a as int, b as int)[k] == s@[a + k]);
    }
    true
}

proof fn lemma_first_of(s: Seq<char>, a: char, b: char, i: int)
    requires
        0 <= i <= s.len(),
        forall|k: int| 0 <= k < i ==> s[k] != a && s[k] != b,
    ensures
        first_of(s, a, b) == i + first_of(s.skip(i), a, b),
    decreases i,
{
    if i > 0 {
        assert(s[0] != a && s[0] != b);
        lemma_first_of(s.drop_first(), a, b, i - 1);
        assert(s.drop_first().skip(i - 1) =~= s.skip(i));
    } else {
        assert(s.skip(0) =~= s);
    }
}

fn first_of_exec(s: &[char], start: usize, a: char, b: char) -> (r: usize)
    requires
        start <= s.len(),
    ensures
        r == start + first_of(s@.skip(start as int), a, b),
        start <= r <= s.len(),
{
    let mut i = start;
    while i < s.len() && s[i] != a && s[i] != b
        invariant
            start <= i <= s.len(),
            forall|k: int| start <= k < i ==> s@[k] != a && s@[k] != b,
        decreases s.len() - i,
    {
        i = i + 1;
    }
    proof {
        let t = s@.skip(start as int);
        assert forall|k: int| 0 <= k < i - start implies t[k] != a && t[k] != b by {
            assert(t[k] == s@[start + k]);
        }
        lemma_first_of(t, a, b, i - start);
        assert(t.skip(i - start) =~= s@.skip(i as int));
        if i < s.len() {
            assert(s@.skip(i as int)[0] == s@[i as int]);
        }
    }
    i
}

fn float_mantissa_exec(m: &[char]) -> (r: bool)
    ensures
        r == float_mantissa(m@),
{
    let p = first_of_exec(m, 0, '.', '.');
    assert(m@.skip(0) =~= m@);
    assert(m@.subrange(0, p as int) =~= m@.take(p as int));
    if p < m.len() {
        assert(m@.subrange(p + 1, m.len() as int) =~= m@.skip(p + 1));
        all_dec_exec(m, 0, p) && all_dec_exec(m, p + 1, m.len()) && m.len() >= 2
    } else {
        assert(m@.subrange(0, m.len() as int) =~= m@);
        all_dec_exec(m, 0, m.len()) && m.len() >= 1
    }
}

fn float_exponent_exec(x: &[char]) -> (r: bool)
    ensures
        r == float_exponent(x@),
{
    let start: usize = if x.len() > 0 && (x[0] == '+' || x[0] == '-') {
        1
    } else {
        0
    };
    assert(start == 1 ==> x@.subrange(1, x.len() as int) =~= x@.drop_first());
    assert(x@.subrange(0, x.len() as int) =~= x@);
    x.len() - start >= 1 && all_dec_exec(x, start, x.len())
}

fn lower_ascii_exec(s: &[char]) -> (r: Vec<char>)
    ensures
        r@ == lower_ascii_seq(s@),
{
    let mut r: Vec<char> = Vec::new();
    let mut i: usize = 0;
    while i < s.len()
        invariant
            i <= s.len(),
            r@ == lower_ascii_seq(s@.take(i as int)),
        decreases s.len() - i,
    {
        let c = s[i];
        let d = if 'A' <= c && c <= 'Z' {
            ((c as u8) + 32) as char
        } else {
            c
        };
        r.push(d);
        i = i + 1;
        assert(r@ =~= lower_ascii_seq(s@.take(i as int)));
    }
    assert(s@.take(s.len() as int) =~= s@);
    r
}

/// `f64::from_str` accepts the text.
pub fn is_float_text_exec(s: &[char]) -> (r: bool)
    ensures
        r == is_float_text(s@),
{
    let b = if s.len() > 0 && (s[0] == '+' || s[0] == '-') {
        assert(s@.subrange(1, s.len() as int) =~= s@.drop_first());
        copy_range(s, 1, s.len())
    } else {
        assert(s@.subrange(0, s.len() as int) =~= s@);
        copy_range(s, 0, s.len())
    };
    let l = lower_ascii_exec(b.as_slice());
    if eq_str(l.as_slice(), "inf") || eq_str(l.as_slice(), "infinity") || eq_str(l.as_slice(), "nan") {
        return true;
    }
    let e = first_of_exec(b.as_slice(), 0, 'e', 'E');
    assert(b@.skip(0) =~= b@);
    if e < b.len() {
        let m = copy_range(b.as_slice(), 0, e);
        let x = copy_range(b.as_slice(), e + 1, b.len());
        assert(m@ =~= b@.take(e as int));
        assert(x@ =~= b@.skip(e + 1));
        float_mantissa_exec(m.as_slice()) && float_exponent_exec(x.as_slice())
    } else {
        float_mantissa_exec(b.as_slice())
    }
}

/// Reads one atom: booleans, string literals, integers, float literals,
/// and otherwise a symbol.
pub fn parse_atom(s: &[char]) -> (e: SExpr)
    ensures
        sx(e) == atom_sx(s@),
{
    if eq_str(s, "#t") || eq_str(s, "true") {
        return SExpr::Bool(true);
    }
    if eq_str(s, "#f") || eq_str(s, "false") {
        return SExpr::Bool(false);
    }
    if s.len() >= 2 && s[0] == '"' && s[s.len() - 1] == '"' {
        let body = copy_range(s, 1, s.len() - 1);
        return SExpr::Str(string_from(body.as_slice()));
    }
    match parse_i64_exec(s) {
        Some(n) => {
            return SExpr::Int(n);
        },
        None => {},
    }
    if is_float_text_exec(s) {
        return SExpr::Float(string_from(s));
    }
    SExpr::Symbol(string_from(s))
}

// ---------------------------------------------------------------------------
// Expressions
// ---------------------------------------------------------------------------

/// The expression whose tokens start at `i`, and the position after it.
pub open spec fn parse_at(ts: Seq<Tk>, i: int) -> Result<(Sx, int), ReadFault>
    decreases ts.len() - i, 0int,
{
    if i < 0 || i >= ts.len() {
        Err(ReadFault::Eof)
    } else {
        match ts[i] {
            Tk::LParen => parse_items(ts, i + 1, seq![]),
            Tk::RParen => Err(ReadFault::UnexpectedClose),
            Tk::Atom(a) => Ok((atom_sx(a), i + 1)),
        }
    }
}

/// The rest of a list whose items so far are `acc`, from position `i`.
pub open spec fn parse_items(ts: Seq<Tk>, i: int, acc: Seq<Sx>) -> Result<(Sx, int), ReadFault>
    decreases ts.len() - i, 1int,
{
    if i < 0 || i >= ts.len() {
        Err(ReadFault::EofInList)
    } else if ts[i] is RParen {
        Ok((Sx::List(acc), i + 1))
    } else {
        match parse_at(ts, i) {
            Err(f) => Err(f),
            Ok((x, j)) => if i < j <= ts.len() {
                parse_items(ts, j, acc.push(x))
            } else {
                Err(ReadFault::Eof)
            },
        }
    }
}

/// All expressions from position `i`, after the expressions `acc`.
pub open spec fn parse_all(ts: Seq<Tk>, i: int, acc: Seq<Sx>) -> Result<Seq<Sx>, ReadFault>
    decreases ts.len() - i,
{
    if i < 0 || i >= ts.len() {
        Ok(acc)
    } else {
        match parse_at(ts, i) {
            Err(f) => Err(f),
            Ok((x, j)) => if i < j <= ts.len() {
                parse_all(ts, j, acc.push(x))
            } else {
                Err(ReadFault::Eof)
            },
        }
    }
}

/// What reading a text gives: its tokens, then its expressions.
pub open spec fn read_spec(s: Seq<char>) -> Result<Seq<Sx>, ReadFault> {
    match tokens_of(s) {
        Some(Ok(ts)) => parse_all(ts, 0, seq![]),
        Some(Err(f)) => Err(f),
        None => Err(ReadFault::Eof),
    }
}

pub proof fn lemma_parse_progress(ts: Seq<Tk>, i: int)
    ensures
        parse_at(ts, i) matches Ok((_, j)) ==> i < j <= ts.len(),
    decreases ts.len() - i, 0int,
{
    if 0 <= i < ts.len() {
        if ts[i] is LParen {
            lemma_items_progress(ts, i + 1, seq![]);
        }
    }
}

pub proof fn lemma_items_progress(ts: Seq<Tk>, i: int, acc: Seq<Sx>)
    ensures
        parse_items(ts, i, acc) matches Ok((_, j)) ==> i < j <= ts.len(),
    decreases ts.len() - i, 1int,
{
    if 0 <= i < ts.len() && !(ts[i] is RParen) {
        lemma_parse_progress(ts, i);
        match parse_at(ts, i) {
            Ok((x, j)) => {
                if j > i {
                    lemma_items_progress(ts, j, acc.push(x));
                }
            },
            Err(_) => {},
        }
    }
}

fn token_view(tokens: &Vec<Token>, i: usize) -> (r: &Token)
    requires
        i < tokens.len(),
    ensures
        tk(*r) == tks(tokens@)[i as int],
{
    &tokens[i]
}

/// Reads the expression whose tokens start at `i`.
pub fn parse_expr(tokens: &Vec<Token>, i: usize) -> (r: Result<(SExpr, usize), ParseError>)
    requires
        i <= tokens.len(),
    ensures
        match r {
            Ok((e, j)) => parse_at(tks(tokens@), i as int) == Ok::<(Sx, int), ReadFault>((sx(e), j as int)),
            Err(err) => exists|f: ReadFault|
                parse_at(tks(tokens@), i as int) == Err::<(Sx, int), ReadFault>(f) && err.message@
                    == fault_message(f),
        },
    decreases tokens.len() - i,
{
    let ghost ts = tks(tokens@);
    if i >= tokens.len() {
        return Err(parse_error(ReadFault::Eof));
    }
    match token_view(tokens, i) {
        Token::RParen => Err(parse_error(ReadFault::UnexpectedClose)),
        Token::Atom(a) => {
            let cs = chars_of(a.as_str());
            Ok((parse_atom(cs.as_slice()), i + 1))
        },
        Token::LParen => {
            let mut items: Vec<SExpr> = Vec::new();
            let mut k = i + 1;
            assert(sxs(items@) =~= Seq::<Sx>::empty());
            loop
                invariant
                    i < k <= tokens.len(),
                    ts == tks(tokens@),
                    ts[i as int] == Tk::LParen,
                    parse_at(ts, i as int) == parse_items(ts, k as int, sxs(items@)),
                decreases tokens.len() - k,
            {
                if k >= tokens.len() {
                    return Err(parse_error(ReadFault::EofInList));
                }
                if let Token::RParen = token_view(tokens, k) {
                    return Ok((SExpr::List(items), k + 1));
                }
                match parse_expr(tokens, k) {
                    Err(e) => {
                        return Err(e);
                    },
                    Ok((x, j)) => {
                        proof {
                            lemma_parse_progress(ts, k as int);
                            lemma_sxs_push(items@, x);
                        }
                        items.push(x);
                        k = j;
                    },
                }
            }
        },
    }
}

/// Reads all S-expressions of a text.
pub fn parse(input: &str) -> (r: Result<Vec<SExpr>, ParseError>)
    requires
        tokens_of(input@) is Some,
    ensures
        match r {
            Ok(es) => read_spec(input@) == Ok::<Seq<Sx>, ReadFault>(sxs(es@)),
            Err(err) => exists|f: ReadFault|
                read_spec(input@) == Err::<Seq<Sx>, ReadFault>(f) && err.message@ == fault_message(f),
        },
{
    match try_parse(input) {
        Some(r) => r,
        None => Err(parse_error(ReadFault::Eof)),
    }
}

/// Reads any text: `None` for text on which reading never ends, else what
/// `parse` gives.
pub fn try_parse(input: &str) -> (r: Option<Result<Vec<SExpr>, ParseError>>)
    ensures
        r is None <==> tokens_of(input@) is None,
        match r {
            Some(Ok(es)) => read_spec(input@) == Ok::<Seq<Sx>, ReadFault>(sxs(es@)),
            Some(Err(err)) => exists|f: ReadFault|
                read_spec(input@) == Err::<Seq<Sx>, ReadFault>(f) && err.message@ == fault_message(f),
            None => true,
        },
{
    let tokens = match try_tokenize(input) {
        Some(Ok(t)) => t,
        Some(Err(e)) => {
            return Some(Err(e));
        },
        None => {
            return None;
        },
    };
    let ghost ts = tks(tokens@);
    let mut exprs: Vec<SExpr> = Vec::new();
    let mut i: usize = 0;
    assert(sxs(exprs@) =~= Seq::<Sx>::empty());
    while i < tokens.len()
        invariant
            i <= tokens.len(),
            ts == tks(tokens@),
            tokens_of(input@) == Some(Ok::<Seq<Tk>, ReadFault>(ts)),
            parse_all(ts, 0, seq![]) == parse_all(ts, i as int, sxs(exprs@)),
        decreases tokens.len() - i,
    {
        match parse_expr(&tokens, i) {
            Err(e) => {
                return Some(Err(e));
            },
            Ok((x, j)) => {
                proof {
                    lemma_parse_progress(ts, i as int);
                    lemma_sxs_push(exprs@, x);
                }
                exprs.push(x);
                i = j;
            },
        }
    }
    Some(Ok(exprs))
}

} // verus!
