//! The ImpAsm assembler: `.impas` text to 8-byte `impOps` instructions.
//!
//! An instruction is encoded as the C layout of `impulse_instruction_t`:
//! opcode (1 byte), flags (1 byte), destination register (`u16`,
//! little-endian) and payload (`u32`, little-endian).
//!
//! Assembly runs in two passes.  The first reads the text line by line:
//! comments (`;`), directives (`.domain NAME = N`, `.relation ...`,
//! `.attribute ...`) which define symbols, labels (`name:`) which record the
//! current instruction number, and instructions whose operands are split
//! into a destination and a payload text.  The second pass encodes every
//! instruction, resolving registers, symbols, named constants and label
//! offsets.
use vstd::prelude::*;
use crate::opcodes::{get_opcode, lookup_constant, lookup_constant_spec, opcode_of};
use crate::strmap::StrMap;
use crate::text::{
    all_digits, append_chars, append_str, chars_of, copy_range, eq_str, parse_unsigned,
    parse_unsigned_exec, remove_char, remove_char_exec, split, split_exec, split_once,
    split_once_exec, split_ws, split_ws_exec, starts_with, starts_with_str, trim, trim_chars,
    trim_end_char, trim_end_char_exec, upper, upper_exec,
};

verus! {

/// Why assembly failed.
#[derive(Debug)]
pub enum AsmError {
    /// A directive's value is not a `u32`.
    BadDirectiveValue { line: usize },
    /// A directive other than `.domain`, `.relation` and `.attribute`.
    UnknownDirective { directive: Vec<char>, line: usize },
    /// An instruction with more than four operands.
    TooManyArguments { text: Vec<char>, line: usize },
    /// An unknown instruction name.
    InvalidOpcode { name: Vec<char>, line: usize },
    /// A flag that is neither a flag name nor a `u8`.
    InvalidFlag { part: Vec<char> },
    /// A register operand that is not `R0`..`R63` (or `0`..`63`).
    InvalidRegister { text: Vec<char> },
    /// A payload operand that is not a `u32`.
    InvalidInteger { text: Vec<char> },
}

/// `AsmError` with its texts as sequences.
pub enum AsmFault {
    BadDirectiveValue { line: int },
    UnknownDirective { directive: Seq<char>, line: int },
    TooManyArguments { text: Seq<char>, line: int },
    InvalidOpcode { name: Seq<char>, line: int },
    InvalidFlag { part: Seq<char> },
    InvalidRegister { text: Seq<char> },
    InvalidInteger { text: Seq<char> },
}

impl View for AsmError {
    type V = AsmFault;

    open spec fn view(&self) -> AsmFault {
        match self {
            AsmError::BadDirectiveValue { line } => AsmFault::BadDirectiveValue { line: *line as int },
            AsmError::UnknownDirective { directive, line } => AsmFault::UnknownDirective {
                directive: directive@,
                line: *line as int,
            },
            AsmError::TooManyArguments { text, line } => AsmFault::TooManyArguments {
                text: text@,
                line: *line as int,
            },
            AsmError::InvalidOpcode { name, line } => AsmFault::InvalidOpcode {
                name: name@,
                line: *line as int,
            },
            AsmError::InvalidFlag { part } => AsmFault::InvalidFlag { part: part@ },
            AsmError::InvalidRegister { text } => AsmFault::InvalidRegister { text: text@ },
            AsmError::InvalidInteger { text } => AsmFault::InvalidInteger { text: text@ },
        }
    }
}

pub open spec fn res_view<T>(r: Result<T, AsmError>) -> Result<T, AsmFault> {
    match r {
        Ok(v) => Ok(v),
        Err(e) => Err(e@),
    }
}

// ---------------------------------------------------------------------------
// Registers and flags
// ---------------------------------------------------------------------------

/// `is_register_str`: `R` followed by at least one digit, or a `u16`
/// (after trimming and upper-casing).
pub open spec fn is_register_spec(s: Seq<char>) -> bool {
    let t = upper(trim(s));
    if t.len() > 0 && t[0] == 'R' {
        t.len() > 1 && all_digits(t.drop_first(), 10)
    } else {
        parse_unsigned(t, 10, 65535) is Some
    }
}

/// `parse_register`: `R<n>` or `<n>` with `n < 64`; the empty text is
/// register 0.
pub open spec fn parse_register_spec(s: Seq<char>) -> Option<u16> {
    let t = upper(trim(s));
    if t.len() == 0 {
        Some(0)
    } else if t[0] == 'R' && all_digits(t.drop_first(), 10) && parse_unsigned(
        t.drop_first(),
        10,
        65535,
    ) is Some && parse_unsigned(t.drop_first(), 10, 65535)->0 < 64 {
        Some(parse_unsigned(t.drop_first(), 10, 65535)->0 as u16)
    } else if parse_unsigned(t, 10, 65535) is Some && parse_unsigned(t, 10, 65535)->0 < 64 {
        Some(parse_unsigned(t, 10, 65535)->0 as u16)
    } else {
        None
    }
}

fn all_ascii_digits(s: &[char]) -> (r: bool)
    ensures
        r == all_digits(s@, 10),
{
    let mut i: usize = 0;
    while i < s.len()
        invariant
            i <= s.len(),
            forall|j: int| 0 <= j < i ==> crate::text::digit_val(#[trigger] s@[j], 10) >= 0,
        decreases s.len() - i,
    {
        if !('0' <= s[i] && s[i] <= '9') {
            return false;
        }
        i = i + 1;
    }
    true
}

pub fn is_register_str(s: &[char]) -> (r: bool)
    ensures
        r == is_register_spec(s@),
{
    let t0 = trim_chars(s);
    let t = upper_exec(t0.as_slice());
    if t.len() > 0 && t[0] == 'R' {
        let num = copy_range(t.as_slice(), 1, t.len());
        assert(num@ =~= t@.drop_first());
        num.len() > 0 && all_ascii_digits(num.as_slice())
    } else {
        parse_unsigned_exec(t.as_slice(), 10, 65535).is_some()
    }
}

pub fn parse_register(s: &[char]) -> (r: Result<u16, AsmError>)
    ensures
        match parse_register_spec(s@) {
            Some(v) => res_view(r) == Ok::<u16, AsmFault>(v),
            None => res_view(r) == Err::<u16, AsmFault>(AsmFault::InvalidRegister { text: s@ }),
        },
{
    let t0 = trim_chars(s);
    let t = upper_exec(t0.as_slice());
    if t.len() == 0 {
        return Ok(0);
    }
    if t[0] == 'R' {
        let num = copy_range(t.as_slice(), 1, t.len());
        assert(num@ =~= t@.drop_first());
        if all_ascii_digits(num.as_slice()) {
            if let Some(reg) = parse_unsigned_exec(num.as_slice(), 10, 65535) {
                if reg < 64 {
                    return Ok(reg as u16);
                }
            }
        }
    }
    if let Some(reg) = parse_unsigned_exec(t.as_slice(), 10, 65535) {
        if reg < 64 {
            return Ok(reg as u16);
        }
    }
    let text = copy_range(s, 0, s.len());
    assert(text@ =~= s@);
    Err(AsmError::InvalidRegister { text })
}

/// Flag bits of one `|`-separated flag name.
pub open spec fn flag_bits(part: Seq<char>) -> Option<u8> {
    if part == "FLAG_MODE_BITSET"@ || part == "BITSET"@ {
        Some(1)
    } else if part == "FLAG_ACCUMULATE"@ || part == "ACCUMULATE"@ {
        Some(2)
    } else if part == "FLAG_INVERT"@ || part == "INVERT"@ {
        Some(4)
    } else if part == "FLAG_OFFHEAP"@ || part == "OFFHEAP"@ {
        Some(8)
    } else if parse_unsigned(part, 10, 255) is Some {
        Some(parse_unsigned(part, 10, 255)->0 as u8)
    } else if part.len() == 0 {
        Some(0)
    } else {
        None
    }
}

/// Union of the flag bits of `parts`, or the first part that is no flag.
pub open spec fn flags_union(parts: Seq<Seq<char>>) -> Result<u8, Seq<char>>
    decreases parts.len(),
{
    if parts.len() == 0 {
        Ok(0)
    } else {
        match flags_union(parts.drop_last()) {
            Err(e) => Err(e),
            Ok(v) => match flag_bits(trim(parts.last())) {
                Some(b) => Ok(v | b),
                None => Err(trim(parts.last())),
            },
        }
    }
}

/// `parse_flags`.
pub open spec fn parse_flags_spec(s: Seq<char>) -> Result<u8, Seq<char>> {
    let t = upper(trim(s));
    if t.len() == 0 {
        Ok(0)
    } else {
        flags_union(split(t, '|'))
    }
}

fn flag_bits_exec(part: &[char]) -> (r: Option<u8>)
    ensures
        r == flag_bits(part@),
{
    if eq_str(part, "FLAG_MODE_BITSET") || eq_str(part, "BITSET") {
        Some(1)
    } else if eq_str(part, "FLAG_ACCUMULATE") || eq_str(part, "ACCUMULATE") {
        Some(2)
    } else if eq_str(part, "FLAG_INVERT") || eq_str(part, "INVERT") {
        Some(4)
    } else if eq_str(part, "FLAG_OFFHEAP") || eq_str(part, "OFFHEAP") {
        Some(8)
    } else if let Some(n) = parse_unsigned_exec(part, 10, 255) {
        Some(n as u8)
    } else if part.len() == 0 {
        Some(0)
    } else {
        None
    }
}

#[verifier::loop_isolation(false)]
pub fn parse_flags(s: &[char]) -> (r: Result<u8, AsmError>)
    ensures
        match parse_flags_spec(s@) {
            Ok(v) => res_view(r) == Ok::<u8, AsmFault>(v),
            Err(p) => res_view(r) == Err::<u8, AsmFault>(AsmFault::InvalidFlag { part: p }),
        },
{
    let t0 = trim_chars(s);
    let t = upper_exec(t0.as_slice());
    if t.len() == 0 {
        return Ok(0);
    }
    let parts = split_exec(t.as_slice(), '|');
    let ghost ps = parts@.map_values(|v: Vec<char>| v@);
    let mut val: u8 = 0;
    let mut i: usize = 0;
    while i < parts.len()
        invariant
            i <= parts.len(),
            ps == parts@.map_values(|v: Vec<char>| v@),
            flags_union(ps.take(i as int)) == Ok::<u8, Seq<char>>(val),
        decreases parts.len() - i,
    {
        assert(ps.take(i + 1).drop_last() =~= ps.take(i as int));
        assert(ps.take(i + 1).last() == parts@[i as int]@);
        let part = trim_chars(parts[i].as_slice());
        match flag_bits_exec(part.as_slice()) {
            Some(b) => {
                val = val | b;
            },
            None => {
                proof {
                    assert(part@ == trim(ps.take(i + 1).last()));
                    assert(flags_union(ps.take(i + 1)) == Err::<u8, Seq<char>>(part@));
                    lemma_union_err_prefix(ps, (i + 1) as int);
                }
                return Err(AsmError::InvalidFlag { part });
            },
        }
        i = i + 1;
    }
    assert(ps.take(parts.len() as int) =~= ps);
    Ok(val)
}

/// An error in a prefix of the parts is the error of all of them.
proof fn lemma_union_err_prefix(ps: Seq<Seq<char>>, k: int)
    requires
        0 <= k <= ps.len(),
        flags_union(ps.take(k)) is Err,
    ensures
        flags_union(ps) == flags_union(ps.take(k)),
    decreases ps.len() - k,
{
    if k < ps.len() {
        assert(ps.drop_last().take(k) =~= ps.take(k));
        lemma_union_err_prefix(ps.drop_last(), k);
    } else {
        assert(ps.take(k) =~= ps);
    }
}

// ---------------------------------------------------------------------------
// Operand values and payloads
// ---------------------------------------------------------------------------

/// `s.trim_start_matches(p)`: every leading copy of `p` removed.
pub open spec fn strip_all(s: Seq<char>, p: Seq<char>) -> Seq<char>
    decreases s.len(),
{
    if p.len() > 0 && starts_with(s, p) {
        strip_all(s.skip(p.len() as int), p)
    } else {
        s
    }
}

fn strip_all_exec(s: &[char], p: &str) -> (r: Vec<char>)
    ensures
        r@ == strip_all(s@, p@),
{
    let pc = chars_of(p);
    let mut cur = copy_range(s, 0, s.len());
    assert(cur@ =~= s@);
    if pc.len() == 0 {
        return cur;
    }
    while starts_with_str(cur.as_slice(), p)
        invariant
            pc@ == p@,
            pc.len() > 0,
            strip_all(s@, p@) == strip_all(cur@, p@),
        decreases cur.len(),
    {
        let next = copy_range(cur.as_slice(), pc.len(), cur.len());
        assert(next@ =~= cur@.skip(p@.len() as int));
        cur = next;
    }
    cur
}

/// `resolve_single_val`: a register number, a symbol, a named constant, a
/// `REL_`/`DOMAIN_`/`ATTR_` name (its numeric suffix, or 0), or a `u32`.
pub open spec fn resolve_spec(part: Seq<char>, symbols: Map<Seq<char>, u32>) -> Result<
    u32,
    AsmFault,
> {
    let t = trim(part);
    if is_register_spec(t) {
        match parse_register_spec(t) {
            Some(r) => Ok(r as u32),
            None => Err(AsmFault::InvalidRegister { text: t }),
        }
    } else if symbols.contains_key(t) {
        Ok(symbols[t])
    } else if lookup_constant_spec(t) is Some {
        Ok(lookup_constant_spec(t)->0)
    } else if starts_with(t, "REL_"@) || starts_with(t, "DOMAIN_"@) || starts_with(t, "ATTR_"@) {
        let suffix = strip_all(strip_all(strip_all(t, "REL_"@), "DOMAIN_"@), "ATTR_"@);
        match parse_unsigned(suffix, 10, 0xFFFF_FFFF) {
            Some(v) => Ok(v as u32),
            None => Ok(0),
        }
    } else {
        match parse_unsigned(t, 10, 0xFFFF_FFFF) {
            Some(v) => Ok(v as u32),
            None => Err(AsmFault::InvalidInteger { text: t }),
        }
    }
}

pub fn resolve_single_val(part: &[char], symbols: &StrMap<u32>) -> (r: Result<u32, AsmError>)
    requires
        symbols.wf(),
    ensures
        res_view(r) == resolve_spec(part@, symbols.view()),
{
    let t = trim_chars(part);
    let ts = t.as_slice();
    if is_register_str(ts) {
        return match parse_register(ts) {
            Ok(r) => Ok(r as u32),
            Err(e) => Err(e),
        };
    }
    if let Some(v) = symbols.get(ts) {
        return Ok(v);
    }
    if let Some(v) = lookup_constant(ts) {
        return Ok(v);
    }
    if starts_with_str(ts, "REL_") || starts_with_str(ts, "DOMAIN_") || starts_with_str(ts, "ATTR_") {
        let a = strip_all_exec(ts, "REL_");
        let b = strip_all_exec(a.as_slice(), "DOMAIN_");
        let c = strip_all_exec(b.as_slice(), "ATTR_");
        return match parse_unsigned_exec(c.as_slice(), 10, 0xFFFF_FFFF) {
            Some(v) => Ok(v as u32),
            None => Ok(0),
        };
    }
    match parse_unsigned_exec(ts, 10, 0xFFFF_FFFF) {
        Some(v) => Ok(v as u32),
        None => Err(AsmError::InvalidInteger { text: t }),
    }
}

/// Every piece trimmed.
pub open spec fn trim_all(ps: Seq<Seq<char>>) -> Seq<Seq<char>> {
    ps.map_values(|p: Seq<char>| trim(p))
}

/// Relative branch offset `target - pc` as a `u32` (two's complement).
pub open spec fn branch_offset(target: int, pc: int) -> u32 {
    let d = target - pc;
    if d >= 0 {
        d as u32
    } else {
        (d + 0x1_0000_0000) as u32
    }
}

/// Values of all operands, or the first failure.
pub open spec fn resolve_all(ps: Seq<Seq<char>>, symbols: Map<Seq<char>, u32>) -> Result<
    Seq<u32>,
    AsmFault,
>
    decreases ps.len(),
{
    if ps.len() == 0 {
        Ok(seq![])
    } else {
        match resolve_all(ps.drop_last(), symbols) {
            Err(e) => Err(e),
            Ok(vs) => match resolve_spec(ps.last(), symbols) {
                Ok(v) => Ok(vs.push(v)),
                Err(e) => Err(e),
            },
        }
    }
}

/// `parse_payload`: the 32-bit payload of an instruction.
pub open spec fn payload_spec(
    s: Seq<char>,
    opcode: u8,
    pc: int,
    labels: Map<Seq<char>, usize>,
    symbols: Map<Seq<char>, u32>,
) -> Result<u32, AsmFault> {
    let parts = trim_all(split(s, '|'));
    if opcode == 0x18 && parts.len() == 2 {
        match parse_register_spec(parts[0]) {
            None => Err(AsmFault::InvalidRegister { text: parts[0] }),
            Some(src) => match resolve_spec(parts[1], symbols) {
                Err(e) => Err(e),
                Ok(rel) => Ok((src as u32) | (63u32 << 16u32) | (rel << 24u32)),
            },
        }
    } else if opcode == 0x18 && parts.len() == 3 {
        match parse_register_spec(parts[0]) {
            None => Err(AsmFault::InvalidRegister { text: parts[0] }),
            Some(src) => match parse_register_spec(parts[1]) {
                None => Err(AsmFault::InvalidRegister { text: parts[1] }),
                Some(unv) => match resolve_spec(parts[2], symbols) {
                    Err(e) => Err(e),
                    Ok(rel) => Ok((src as u32) | ((unv as u32) << 16u32) | (rel << 24u32)),
                },
            },
        }
    } else if parts.len() == 1 {
        if labels.contains_key(parts[0]) {
            Ok(branch_offset(labels[parts[0]] as int, pc))
        } else {
            resolve_spec(parts[0], symbols)
        }
    } else if parts.len() == 3 && is_register_spec(parts[0]) && is_register_spec(parts[1]) {
        match parse_register_spec(parts[0]) {
            None => Err(AsmFault::InvalidRegister { text: parts[0] }),
            Some(s1) => match parse_register_spec(parts[1]) {
                None => Err(AsmFault::InvalidRegister { text: parts[1] }),
                Some(s2) => match resolve_spec(parts[2], symbols) {
                    Err(e) => Err(e),
                    Ok(op) => Ok((s1 as u32) | ((s2 as u32) << 8u32) | (op << 16u32)),
                },
            },
        }
    } else {
        match resolve_all(parts, symbols) {
            Err(e) => Err(e),
            Ok(vs) => Ok((vs[0] & 0xFFFFu32) | ((vs[1] & 0xFFFFu32) << 16u32)),
        }
    }
}

#[verifier::loop_isolation(false)]
pub fn parse_payload(
    s: &[char],
    opcode: u8,
    current_pc: usize,
    labels: &StrMap<usize>,
    symbols: &StrMap<u32>,
) -> (r: Result<u32, AsmError>)
    requires
        labels.wf(),
        symbols.wf(),
        current_pc < 0x8000_0000,
        forall|k: Seq<char>| #[trigger] labels.view().contains_key(k) ==> labels.view()[k] < 0x8000_0000,
    ensures
        res_view(r) == payload_spec(s@, opcode, current_pc as int, labels.view(), symbols.view()),
{
    let raw_parts = split_exec(s, '|');
    let ghost rp = raw_parts@.map_values(|v: Vec<char>| v@);
    let mut parts: Vec<Vec<char>> = Vec::new();
    let mut i: usize = 0;
    while i < raw_parts.len()
        invariant
            i <= raw_parts.len(),
            rp == raw_parts@.map_values(|v: Vec<char>| v@),
            parts.len() == i,
            parts@.map_values(|v: Vec<char>| v@) == trim_all(rp.take(i as int)),
        decreases raw_parts.len() - i,
    {
        let tp = trim_chars(raw_parts[i].as_slice());
        let ghost before = parts@;
        parts.push(tp);
        proof {
            let a = parts@.map_values(|v: Vec<char>| v@);
            let b = trim_all(rp.take(i + 1));
            assert(a.len() == b.len());
            assert forall|j: int| 0 <= j < a.len() implies a[j] == b[j] by {
                if j < i {
                    assert(a[j] == before[j]@);
                    assert(before.map_values(|v: Vec<char>| v@)[j] == trim_all(rp.take(i as int))[j]);
                } else {
                    assert(rp[j] == raw_parts@[j]@);
                }
            }
            assert(a =~= b);
        }
        i = i + 1;
    }
    assert(rp.take(raw_parts.len() as int) =~= rp);
    let ghost ps = trim_all(rp);
    assert(parts@.map_values(|v: Vec<char>| v@) == ps);
    assert(forall|j: int| 0 <= j < parts.len() ==> parts@[j]@ == ps[j]);
    let n = parts.len();
    if opcode == 0x18 && n == 2 {
        let src = match parse_register(parts[0].as_slice()) {
            Ok(v) => v,
            Err(e) => return Err(e),
        };
        let rel = match resolve_single_val(parts[1].as_slice(), symbols) {
            Ok(v) => v,
            Err(e) => return Err(e),
        };
        return Ok((src as u32) | (63u32 << 16u32) | (rel << 24u32));
    } else if opcode == 0x18 && n == 3 {
        let src = match parse_register(parts[0].as_slice()) {
            Ok(v) => v,
            Err(e) => return Err(e),
        };
        let unv = match parse_register(parts[1].as_slice()) {
            Ok(v) => v,
            Err(e) => return Err(e),
        };
        let rel = match resolve_single_val(parts[2].as_slice(), symbols) {
            Ok(v) => v,
            Err(e) => return Err(e),
        };
        return Ok((src as u32) | ((unv as u32) << 16u32) | (rel << 24u32));
    }
    if n == 1 {
        if let Some(target) = labels.get(parts[0].as_slice()) {
            let offset = (target as i64) - (current_pc as i64);
            let r: u32 = if offset >= 0 {
                offset as u32
            } else {
                (offset + 0x1_0000_0000i64) as u32
            };
            return Ok(r);
        }
        return resolve_single_val(parts[0].as_slice(), symbols);
    }
    if n == 3 && is_register_str(parts[0].as_slice()) && is_register_str(parts[1].as_slice()) {
        let s1 = match parse_register(parts[0].as_slice()) {
            Ok(v) => v,
            Err(e) => return Err(e),
        };
        let s2 = match parse_register(parts[1].as_slice()) {
            Ok(v) => v,
            Err(e) => return Err(e),
        };
        let op = match resolve_single_val(parts[2].as_slice(), symbols) {
            Ok(v) => v,
            Err(e) => return Err(e),
        };
        return Ok((s1 as u32) | ((s2 as u32) << 8u32) | (op << 16u32));
    }
    let mut vals: Vec<u32> = Vec::new();
    let mut j: usize = 0;
    while j < n
        invariant
            j <= n,
            n == parts.len(),
            symbols.wf(),
            forall|k: int| 0 <= k < parts.len() ==> parts@[k]@ == ps[k],
            ps.len() == n,
            resolve_all(ps.take(j as int), symbols.view()) == Ok::<Seq<u32>, AsmFault>(vals@),
        decreases n - j,
    {
        assert(ps.take(j + 1).drop_last() =~= ps.take(j as int));
        match resolve_single_val(parts[j].as_slice(), symbols) {
            Ok(v) => {
                assert(ps.take(j + 1).last() == ps[j as int]);
                vals.push(v);
            },
            Err(e) => {
                proof {
                    assert(ps.take(j + 1).last() == ps[j as int]);
                    assert(resolve_all(ps.take(j + 1), symbols.view()) == Err::<Seq<u32>, AsmFault>(e@));
                    lemma_resolve_all_err_prefix(ps, (j + 1) as int, symbols.view());
                }
                return Err(e);
            },
        }
        j = j + 1;
    }
    assert(ps.take(n as int) =~= ps);
    proof {
        lemma_split_nonempty(s@, '|');
        lemma_resolve_all_len(ps, symbols.view());
    }
    assert(vals.len() >= 2);
    Ok((vals[0] & 0xFFFFu32) | ((vals[1] & 0xFFFFu32) << 16u32))
}

proof fn lemma_resolve_all_err_prefix(ps: Seq<Seq<char>>, k: int, symbols: Map<Seq<char>, u32>)
    requires
        0 <= k <= ps.len(),
        resolve_all(ps.take(k), symbols) is Err,
    ensures
        resolve_all(ps, symbols) == resolve_all(ps.take(k), symbols),
    decreases ps.len() - k,
{
    if k < ps.len() {
        assert(ps.drop_last().take(k) =~= ps.take(k));
        lemma_resolve_all_err_prefix(ps.drop_last(), k, symbols);
    } else {
        assert(ps.take(k) =~= ps);
    }
}

proof fn lemma_resolve_all_len(ps: Seq<Seq<char>>, symbols: Map<Seq<char>, u32>)
    ensures
        resolve_all(ps, symbols) matches Ok(vs) ==> vs.len() == ps.len(),
    decreases ps.len(),
{
    if ps.len() > 0 {
        lemma_resolve_all_len(ps.drop_last(), symbols);
    }
}

/// `split` never yields an empty list.
pub proof fn lemma_split_nonempty(s: Seq<char>, c: char)
    ensures
        split(s, c).len() >= 1,
    decreases s.len(),
{
    match crate::text::first_index(s, c) {
        Some(i) => {
            crate::text::lemma_first_index_some(s, c);
            lemma_split_nonempty(s.skip(i + 1), c);
        },
        None => {},
    }
}

} // verus!

verus! {

// ---------------------------------------------------------------------------
// Pass one: lines to raw instructions, symbols and labels
// ---------------------------------------------------------------------------

/// An instruction as read from one line, before encoding.
pub struct RawSpec {
    pub opcode: Seq<char>,
    pub dst: Seq<char>,
    pub payload: Seq<char>,
    pub line: int,
}

/// What the first pass has gathered so far; `raws.len()` is the number of
/// the next instruction.
pub struct Pass1 {
    pub symbols: Map<Seq<char>, u32>,
    pub labels: Map<Seq<char>, usize>,
    pub raws: Seq<RawSpec>,
}

/// `parts` joined with single spaces.
pub open spec fn join_sp(ws: Seq<Seq<char>>) -> Seq<char>
    decreases ws.len(),
{
    if ws.len() == 0 {
        seq![]
    } else if ws.len() == 1 {
        ws[0]
    } else {
        join_sp(ws.drop_last()) + seq![' '] + ws.last()
    }
}

/// The non-empty pieces, in order.
pub open spec fn nonempty(ps: Seq<Seq<char>>) -> Seq<Seq<char>>
    decreases ps.len(),
{
    if ps.len() == 0 {
        ps
    } else if ps.last().len() == 0 {
        nonempty(ps.drop_last())
    } else {
        nonempty(ps.drop_last()).push(ps.last())
    }
}

/// The comma-separated operands of an instruction whose words after the
/// name are `ws`.
pub open spec fn arg_list(ws: Seq<Seq<char>>) -> Seq<Seq<char>> {
    nonempty(trim_all(split(join_sp(ws), ',')))
}

/// Destination and payload texts for the operands.
pub open spec fn raw_of(op: Seq<char>, args: Seq<Seq<char>>, line: int) -> RawSpec {
    let sep = " | "@;
    if args.len() == 0 {
        RawSpec { opcode: op, dst: "0"@, payload: "0"@, line }
    } else if args.len() == 1 {
        RawSpec { opcode: op, dst: "0"@, payload: args[0], line }
    } else if args.len() == 2 {
        RawSpec { opcode: op, dst: args[0], payload: args[1], line }
    } else if args.len() == 3 {
        RawSpec { opcode: op, dst: args[0], payload: args[1] + sep + args[2], line }
    } else {
        RawSpec { opcode: op, dst: args[0], payload: args[1] + sep + args[2] + sep + args[3], line }
    }
}

/// A directive line (`.domain NAME = N` and the like).
pub open spec fn directive_step(st: Pass1, clean: Seq<char>, line: int) -> Result<Pass1, AsmFault> {
    let parts = split_ws(clean);
    if parts.len() >= 4 && parts[2] == "="@ {
        let name = remove_char(parts[1], '"');
        let vs = trim_end_char(parts[3], ',');
        match parse_unsigned(vs, 10, 0xFFFF_FFFF) {
            None => Err(AsmFault::BadDirectiveValue { line }),
            Some(v) => {
                let prefix = if parts[0] == ".domain"@ {
                    "DOMAIN_"@
                } else if parts[0] == ".relation"@ {
                    "REL_"@
                } else {
                    "ATTR_"@
                };
                if parts[0] == ".domain"@ || parts[0] == ".relation"@ || parts[0] == ".attribute"@ {
                    Ok(
                        Pass1 {
                            symbols: st.symbols.insert(prefix + upper(name), v as u32).insert(
                                name,
                                v as u32,
                            ),
                            ..st
                        },
                    )
                } else {
                    Err(AsmFault::UnknownDirective { directive: parts[0], line })
                }
            },
        }
    } else {
        Ok(st)
    }
}

/// An instruction line, possibly behind a label.
pub open spec fn instr_step(st: Pass1, clean: Seq<char>, line: int) -> Result<Pass1, AsmFault> {
    let labelled = split_once(clean, ':');
    let st1 = match labelled {
        Some((l, _)) => Pass1 { labels: st.labels.insert(trim(l), st.raws.len() as usize), ..st },
        None => st,
    };
    let instr = match labelled {
        Some((_, rem)) => trim(rem),
        None => clean,
    };
    if labelled is Some && instr.len() == 0 {
        Ok(st1)
    } else {
        let instr2 = match split_once(instr, ':') {
            Some((f, sec)) => if starts_with(trim(f), "0x"@) {
                trim(sec)
            } else {
                instr
            },
            None => instr,
        };
        let parts = split_ws(instr2);
        if parts.len() == 0 {
            Ok(st1)
        } else {
            let args = arg_list(parts.skip(1));
            if args.len() > 4 {
                Err(AsmFault::TooManyArguments { text: instr2, line })
            } else {
                Ok(Pass1 { raws: st1.raws.push(raw_of(parts[0], args, line)), ..st1 })
            }
        }
    }
}

/// One line of assembly text (numbered from 1).
pub open spec fn line_step(st: Pass1, text: Seq<char>, line: int) -> Result<Pass1, AsmFault> {
    let trimmed = trim(text);
    if trimmed.len() == 0 || trimmed[0] == ';' {
        Ok(st)
    } else {
        let clean = match split_once(trimmed, ';') {
            Some((code, _)) => trim(code),
            None => trimmed,
        };
        if clean.len() > 0 && clean[0] == '.' {
            directive_step(st, clean, line)
        } else {
            instr_step(st, clean, line)
        }
    }
}

pub open spec fn empty_pass1() -> Pass1 {
    Pass1 { symbols: Map::empty(), labels: Map::empty(), raws: seq![] }
}

/// The first pass over `lines`.
pub open spec fn pass1(lines: Seq<Seq<char>>) -> Result<Pass1, AsmFault>
    decreases lines.len(),
{
    if lines.len() == 0 {
        Ok(empty_pass1())
    } else {
        match pass1(lines.drop_last()) {
            Err(e) => Err(e),
            Ok(st) => line_step(st, lines.last(), lines.len() as int),
        }
    }
}

// ---------------------------------------------------------------------------
// Pass two: encoding
// ---------------------------------------------------------------------------

/// The 8 bytes of an instruction.
pub open spec fn instr_bytes(opcode: u8, flags: u8, dst: u16, payload: u32) -> Seq<u8> {
    seq![
        opcode,
        flags,
        (dst & 0xff) as u8,
        (dst >> 8u16) as u8,
        (payload & 0xff) as u8,
        ((payload >> 8u32) & 0xff) as u8,
        ((payload >> 16u32) & 0xff) as u8,
        (payload >> 24u32) as u8,
    ]
}

/// Encoding of instruction number `pc`.
pub open spec fn encode_one(
    raw: RawSpec,
    pc: int,
    labels: Map<Seq<char>, usize>,
    symbols: Map<Seq<char>, u32>,
) -> Result<Seq<u8>, AsmFault> {
    match opcode_of(raw.opcode) {
        None => Err(AsmFault::InvalidOpcode { name: raw.opcode, line: raw.line }),
        Some(op) => match parse_flags_spec("0"@) {
            Err(p) => Err(AsmFault::InvalidFlag { part: p }),
            Ok(fl) => match parse_register_spec(raw.dst) {
                None => Err(AsmFault::InvalidRegister { text: raw.dst }),
                Some(d) => match payload_spec(raw.payload, op, pc, labels, symbols) {
                    Err(e) => Err(e),
                    Ok(p) => Ok(instr_bytes(op, fl, d, p)),
                },
            },
        },
    }
}

/// Encoding of all instructions, or the first failure.
pub open spec fn encode_all(
    raws: Seq<RawSpec>,
    labels: Map<Seq<char>, usize>,
    symbols: Map<Seq<char>, u32>,
) -> Result<Seq<u8>, AsmFault>
    decreases raws.len(),
{
    if raws.len() == 0 {
        Ok(seq![])
    } else {
        match encode_all(raws.drop_last(), labels, symbols) {
            Err(e) => Err(e),
            Ok(b) => match encode_one(raws.last(), raws.len() - 1, labels, symbols) {
                Err(e) => Err(e),
                Ok(x) => Ok(b + x),
            },
        }
    }
}

/// What assembling `text` gives: the bytecode, or the first error.
pub open spec fn assemble_spec(text: Seq<char>) -> Result<Seq<u8>, AsmFault> {
    match pass1(split(text, '\n')) {
        Err(e) => Err(e),
        Ok(st) => encode_all(st.raws, st.labels, st.symbols),
    }
}

} // verus!

verus! {

/// An instruction as read from one line, before encoding.
pub struct RawInstruction {
    pub opcode_str: Vec<char>,
    pub dst_str: Vec<char>,
    pub payload_str: Vec<char>,
    pub line_num: usize,
}

impl View for RawInstruction {
    type V = RawSpec;

    open spec fn view(&self) -> RawSpec {
        RawSpec {
            opcode: self.opcode_str@,
            dst: self.dst_str@,
            payload: self.payload_str@,
            line: self.line_num as int,
        }
    }
}

/// The state of the first pass.
pub struct AsmState {
    pub symbols: StrMap<u32>,
    pub labels: StrMap<usize>,
    pub raws: Vec<RawInstruction>,
}

impl AsmState {
    pub open spec fn wf(&self) -> bool {
        self.symbols.wf() && self.labels.wf()
    }

    pub open spec fn view(&self) -> Pass1 {
        Pass1 {
            symbols: self.symbols.view(),
            labels: self.labels.view(),
            raws: self.raws@.map_values(|r: RawInstruction| r@),
        }
    }
}

fn join_sp_exec(ws: &Vec<Vec<char>>, from: usize) -> (r: Vec<char>)
    requires
        from <= ws.len(),
    ensures
        r@ == join_sp(ws@.map_values(|v: Vec<char>| v@).skip(from as int)),
{
    let ghost all = ws@.map_values(|v: Vec<char>| v@).skip(from as int);
    let mut r: Vec<char> = Vec::new();
    let mut i = from;
    assert(all.take(0) =~= Seq::<Seq<char>>::empty());
    while i < ws.len()
        invariant
            from <= i <= ws.len(),
            all == ws@.map_values(|v: Vec<char>| v@).skip(from as int),
            r@ == join_sp(all.take(i - from)),
        decreases ws.len() - i,
    {
        let ghost k = (i - from) as int;
        assert(all.take(k + 1).drop_last() =~= all.take(k));
        assert(all.take(k + 1).last() == ws@[i as int]@);
        if i > from {
            r.push(' ');
        }
        append_chars(&mut r, ws[i].as_slice());
        proof {
            if k == 0 {
                assert(r@ =~= join_sp(all.take(k + 1)));
            } else {
                assert(r@ =~= join_sp(all.take(k + 1)));
            }
        }
        i = i + 1;
    }
    assert(all.take((ws.len() - from) as int) =~= all);
    r
}

/// The operands: split on `,`, trimmed, empty ones dropped.
fn arg_list_exec(ws: &Vec<Vec<char>>) -> (r: Vec<Vec<char>>)
    requires
        ws.len() >= 1,
    ensures
        r@.map_values(|v: Vec<char>| v@) == arg_list(ws@.map_values(|v: Vec<char>| v@).skip(1)),
{
    let joined = join_sp_exec(ws, 1);
    let pieces = split_exec(joined.as_slice(), ',');
    let ghost ps = trim_all(pieces@.map_values(|v: Vec<char>| v@));
    let mut out: Vec<Vec<char>> = Vec::new();
    let mut i: usize = 0;
    while i < pieces.len()
        invariant
            i <= pieces.len(),
            ps == trim_all(pieces@.map_values(|v: Vec<char>| v@)),
            out@.map_values(|v: Vec<char>| v@) == nonempty(ps.take(i as int)),
        decreases pieces.len() - i,
    {
        let t = trim_chars(pieces[i].as_slice());
        assert(ps.take(i + 1).drop_last() =~= ps.take(i as int));
        assert(ps.take(i + 1).last() == t@);
        if t.len() > 0 {
            let ghost before = out@;
            out.push(t);
            assert(out@.map_values(|v: Vec<char>| v@) =~= before.map_values(|v: Vec<char>| v@).push(
                t@,
            ));
        }
        i = i + 1;
    }
    assert(ps.take(pieces.len() as int) =~= ps);
    out
}

fn join_args(a: &Vec<char>, b: &Vec<char>) -> (r: Vec<char>)
    ensures
        r@ == a@ + " | "@ + b@,
{
    let mut r: Vec<char> = Vec::new();
    append_chars(&mut r, a.as_slice());
    append_str(&mut r, " | ");
    append_chars(&mut r, b.as_slice());
    assert(r@ =~= a@ + " | "@ + b@);
    r
}

fn directive_step_exec(st: &mut AsmState, clean: &[char], line: usize) -> (r: Result<(), AsmError>)
    requires
        old(st).wf(),
    ensures
        final(st).wf(),
        match directive_step(old(st).view(), clean@, line as int) {
            Ok(p) => r is Ok && final(st).view() == p,
            Err(e) => r matches Err(x) && x@ == e,
        },
{
    let parts = split_ws_exec(clean);
    let ghost pv = parts@.map_values(|v: Vec<char>| v@);
    if parts.len() >= 4 && eq_str(parts[2].as_slice(), "=") {
        assert(pv[2] == parts@[2]@);
        let name = remove_char_exec(parts[1].as_slice(), '"');
        let vs = trim_end_char_exec(parts[3].as_slice(), ',');
        assert(pv[1] == parts@[1]@ && pv[3] == parts@[3]@ && pv[0] == parts@[0]@);
        match parse_unsigned_exec(vs.as_slice(), 10, 0xFFFF_FFFF) {
            None => Err(AsmError::BadDirectiveValue { line }),
            Some(v) => {
                let d = parts[0].as_slice();
                let mut key: Vec<char> = Vec::new();
                if eq_str(d, ".domain") {
                    append_str(&mut key, "DOMAIN_");
                } else if eq_str(d, ".relation") {
                    append_str(&mut key, "REL_");
                } else if eq_str(d, ".attribute") {
                    append_str(&mut key, "ATTR_");
                } else {
                    let directive = copy_range(d, 0, d.len());
                    assert(directive@ =~= d@);
                    return Err(AsmError::UnknownDirective { directive, line });
                }
                let un = upper_exec(name.as_slice());
                append_chars(&mut key, un.as_slice());
                st.symbols.insert(key.as_slice(), v as u32);
                st.symbols.insert(name.as_slice(), v as u32);
                Ok(())
            },
        }
    } else {
        proof {
            if pv.len() >= 4 {
                assert(pv[2] == parts@[2]@);
            }
        }
        Ok(())
    }
}

fn instr_step_exec(st: &mut AsmState, clean: &[char], line: usize) -> (r: Result<(), AsmError>)
    requires
        old(st).wf(),
        old(st).raws.len() < usize::MAX,
    ensures
        final(st).wf(),
        match instr_step(old(st).view(), clean@, line as int) {
            Ok(p) => r is Ok && final(st).view() == p,
            Err(e) => r matches Err(x) && x@ == e,
        },
{
    let mut instr: Vec<char>;
    match split_once_exec(clean, ':') {
        Some((l, rem)) => {
            let label = trim_chars(l.as_slice());
            let pc = st.raws.len();
            st.labels.insert(label.as_slice(), pc);
            instr = trim_chars(rem.as_slice());
            if instr.len() == 0 {
                return Ok(());
            }
        },
        None => {
            instr = copy_range(clean, 0, clean.len());
            assert(instr@ =~= clean@);
        },
    }
    let ghost instr_v = instr@;
    match split_once_exec(instr.as_slice(), ':') {
        Some((f, sec)) => {
            let tf = trim_chars(f.as_slice());
            if starts_with_str(tf.as_slice(), "0x") {
                instr = trim_chars(sec.as_slice());
            }
        },
        None => {},
    }
    let parts = split_ws_exec(instr.as_slice());
    if parts.len() == 0 {
        return Ok(());
    }
    let args = arg_list_exec(&parts);
    let ghost av = args@.map_values(|v: Vec<char>| v@);
    if args.len() > 4 {
        return Err(AsmError::TooManyArguments { text: instr, line });
    }
    let opcode_str = copy_range(parts[0].as_slice(), 0, parts[0].len());
    assert(opcode_str@ =~= parts@[0]@);
    let zero_a = chars_of("0");
    let zero_b = chars_of("0");
    let n = args.len();
    assert(forall|j: int| 0 <= j < n ==> av[j] == args@[j]@);
    let raw = if n == 0 {
        RawInstruction { opcode_str, dst_str: zero_a, payload_str: zero_b, line_num: line }
    } else if n == 1 {
        let p = copy_range(args[0].as_slice(), 0, args[0].len());
        assert(p@ =~= av[0]);
        RawInstruction { opcode_str, dst_str: zero_a, payload_str: p, line_num: line }
    } else if n == 2 {
        let d = copy_range(args[0].as_slice(), 0, args[0].len());
        let p = copy_range(args[1].as_slice(), 0, args[1].len());
        assert(d@ =~= av[0]);
        assert(p@ =~= av[1]);
        RawInstruction { opcode_str, dst_str: d, payload_str: p, line_num: line }
    } else if n == 3 {
        let d = copy_range(args[0].as_slice(), 0, args[0].len());
        assert(d@ =~= av[0]);
        let p = join_args(&args[1], &args[2]);
        RawInstruction { opcode_str, dst_str: d, payload_str: p, line_num: line }
    } else {
        let d = copy_range(args[0].as_slice(), 0, args[0].len());
        assert(d@ =~= av[0]);
        let p12 = join_args(&args[1], &args[2]);
        let p = join_args(&p12, &args[3]);
        RawInstruction { opcode_str, dst_str: d, payload_str: p, line_num: line }
    };
    let ghost before = st.raws@;
    st.raws.push(raw);
    proof {
        assert(st.raws@.map_values(|r: RawInstruction| r@) =~= before.map_values(
            |r: RawInstruction| r@,
        ).push(raw@));
    }
    Ok(())
}

fn line_step_exec(st: &mut AsmState, text: &[char], line: usize) -> (r: Result<(), AsmError>)
    requires
        old(st).wf(),
        old(st).raws.len() < usize::MAX,
    ensures
        final(st).wf(),
        match line_step(old(st).view(), text@, line as int) {
            Ok(p) => r is Ok && final(st).view() == p,
            Err(e) => r matches Err(x) && x@ == e,
        },
{
    let trimmed = trim_chars(text);
    if trimmed.len() == 0 || trimmed[0] == ';' {
        return Ok(());
    }
    let clean = match split_once_exec(trimmed.as_slice(), ';') {
        Some((code, _)) => trim_chars(code.as_slice()),
        None => trimmed,
    };
    if clean.len() > 0 && clean[0] == '.' {
        directive_step_exec(st, clean.as_slice(), line)
    } else {
        instr_step_exec(st, clean.as_slice(), line)
    }
}

} // verus!

verus! {

proof fn lemma_directive_keeps(st: Pass1, clean: Seq<char>, line: int)
    ensures
        directive_step(st, clean, line) matches Ok(p) ==> p.raws == st.raws && p.labels
            == st.labels,
{
}

proof fn lemma_instr_bounds(st: Pass1, clean: Seq<char>, line: int)
    ensures
        instr_step(st, clean, line) matches Ok(p) ==> {
            &&& p.raws.len() <= st.raws.len() + 1
            &&& forall|k: Seq<char>| #[trigger]
                p.labels.contains_key(k) ==> (st.labels.contains_key(k) && p.labels[k]
                    == st.labels[k]) || p.labels[k] == st.raws.len() as usize
        },
{
    match split_once(clean, ':') {
        Some((l, _)) => {
            let l2 = trim(l);
            assert(instr_step(st, clean, line) matches Ok(p) ==> p.labels == st.labels.insert(
                l2,
                st.raws.len() as usize,
            ));
        },
        None => {},
    }
}

proof fn lemma_line_step_bounds(st: Pass1, text: Seq<char>, line: int)
    ensures
        line_step(st, text, line) matches Ok(p) ==> {
            &&& p.raws.len() <= st.raws.len() + 1
            &&& forall|k: Seq<char>| #[trigger]
                p.labels.contains_key(k) ==> (st.labels.contains_key(k) && p.labels[k]
                    == st.labels[k]) || p.labels[k] == st.raws.len() as usize
        },
{
    let trimmed = trim(text);
    if trimmed.len() == 0 || trimmed[0] == ';' {
    } else {
        let clean = match split_once(trimmed, ';') {
            Some((code, _)) => trim(code),
            None => trimmed,
        };
        if clean.len() > 0 && clean[0] == '.' {
            lemma_directive_keeps(st, clean, line);
        } else {
            lemma_instr_bounds(st, clean, line);
        }
    }
}

/// `split` yields at most one piece more than there are characters.
pub proof fn lemma_split_len(s: Seq<char>, c: char)
    ensures
        split(s, c).len() <= s.len() + 1,
    decreases s.len(),
{
    match crate::text::first_index(s, c) {
        Some(i) => {
            crate::text::lemma_first_index_some(s, c);
            lemma_split_len(s.skip(i + 1), c);
        },
        None => {},
    }
}

proof fn lemma_pass1_err_prefix(lines: Seq<Seq<char>>, k: int)
    requires
        0 <= k <= lines.len(),
        pass1(lines.take(k)) is Err,
    ensures
        pass1(lines) == pass1(lines.take(k)),
    decreases lines.len() - k,
{
    if k < lines.len() {
        assert(lines.drop_last().take(k) =~= lines.take(k));
        lemma_pass1_err_prefix(lines.drop_last(), k);
    } else {
        assert(lines.take(k) =~= lines);
    }
}

proof fn lemma_encode_err_prefix(
    raws: Seq<RawSpec>,
    k: int,
    labels: Map<Seq<char>, usize>,
    symbols: Map<Seq<char>, u32>,
)
    requires
        0 <= k <= raws.len(),
        encode_all(raws.take(k), labels, symbols) is Err,
    ensures
        encode_all(raws, labels, symbols) == encode_all(raws.take(k), labels, symbols),
    decreases raws.len() - k,
{
    if k < raws.len() {
        assert(raws.drop_last().take(k) =~= raws.take(k));
        lemma_encode_err_prefix(raws.drop_last(), k, labels, symbols);
    } else {
        assert(raws.take(k) =~= raws);
    }
}

/// The first pass over the lines of a text.
fn pass1_exec(text: &[char]) -> (r: Result<AsmState, AsmError>)
    requires
        text@.len() < 0x8000_0000,
    ensures
        match pass1(split(text@, '\n')) {
            Ok(p) => r matches Ok(st) && st.wf() && st.view() == p && st.raws.len() <= 0x8000_0000
                && forall|k: Seq<char>| #[trigger]
                st.labels.view().contains_key(k) ==> st.labels.view()[k] < 0x8000_0000,
            Err(e) => r matches Err(x) && x@ == e,
        },
{
    let lines = split_exec(text, '\n');
    let ghost lv = lines@.map_values(|v: Vec<char>| v@);
    proof {
        lemma_split_len(text@, '\n');
    }
    let mut st = AsmState { symbols: StrMap::new(), labels: StrMap::new(), raws: Vec::new() };
    assert(st.view().raws =~= Seq::<RawSpec>::empty());
    assert(lv.take(0) =~= Seq::<Seq<char>>::empty());
    let mut i: usize = 0;
    while i < lines.len()
        invariant
            i <= lines.len(),
            lines.len() <= 0x8000_0000,
            lv == lines@.map_values(|v: Vec<char>| v@),
            lv == split(text@, '\n'),
            st.wf(),
            pass1(lv.take(i as int)) == Ok::<Pass1, AsmFault>(st.view()),
            st.raws.len() <= i,
            forall|k: Seq<char>| #[trigger]
                st.labels.view().contains_key(k) ==> st.labels.view()[k] < i,
        decreases lines.len() - i,
    {
        assert(lv.take(i + 1).drop_last() =~= lv.take(i as int));
        assert(lv.take(i + 1).last() == lines@[i as int]@);
        let ghost before = st.view();
        proof {
            lemma_line_step_bounds(before, lines@[i as int]@, i + 1);
        }
        match line_step_exec(&mut st, lines[i].as_slice(), i + 1) {
            Ok(()) => {},
            Err(e) => {
                proof {
                    lemma_pass1_err_prefix(lv, i + 1);
                    assert(lv.take(lines.len() as int) =~= lv);
                }
                return Err(e);
            },
        }
        proof {
            assert forall|k: Seq<char>| #[trigger] st.labels.view().contains_key(k) implies st.labels.view()[k] < i + 1 by {
                if before.labels.contains_key(k) && st.view().labels[k] == before.labels[k] {
                } else {
                    assert(st.view().labels[k] == before.raws.len());
                }
            }
        }
        i = i + 1;
    }
    assert(lv.take(lines.len() as int) =~= lv);
    Ok(st)
}

fn encode_one_exec(raw: &RawInstruction, pc: usize, st: &AsmState, zero: &Vec<char>) -> (r: Result<
    Vec<u8>,
    AsmError,
>)
    requires
        st.wf(),
        pc < 0x8000_0000,
        zero@ == "0"@,
        forall|k: Seq<char>| #[trigger]
            st.labels.view().contains_key(k) ==> st.labels.view()[k] < 0x8000_0000,
    ensures
        match encode_one(raw@, pc as int, st.view().labels, st.view().symbols) {
            Ok(b) => r matches Ok(v) && v@ == b,
            Err(e) => r matches Err(x) && x@ == e,
        },
{
    let op = match get_opcode(raw.opcode_str.as_slice()) {
        Some(o) => o,
        None => {
            let name = copy_range(raw.opcode_str.as_slice(), 0, raw.opcode_str.len());
            assert(name@ =~= raw.opcode_str@);
            return Err(AsmError::InvalidOpcode { name, line: raw.line_num });
        },
    };
    let flags = match parse_flags(zero.as_slice()) {
        Ok(f) => f,
        Err(e) => return Err(e),
    };
    let dst = match parse_register(raw.dst_str.as_slice()) {
        Ok(d) => d,
        Err(e) => return Err(e),
    };
    let payload = match parse_payload(raw.payload_str.as_slice(), op, pc, &st.labels, &st.symbols) {
        Ok(p) => p,
        Err(e) => return Err(e),
    };
    let mut out: Vec<u8> = Vec::new();
    out.push(op);
    out.push(flags);
    out.push((dst & 0xff) as u8);
    out.push((dst >> 8u16) as u8);
    out.push((payload & 0xff) as u8);
    out.push(((payload >> 8u32) & 0xff) as u8);
    out.push(((payload >> 16u32) & 0xff) as u8);
    out.push((payload >> 24u32) as u8);
    assert(out@ =~= instr_bytes(op, flags, dst, payload));
    Ok(out)
}

/// The second pass: every instruction encoded.
fn encode_exec(st: &AsmState) -> (r: Result<Vec<u8>, AsmError>)
    requires
        st.wf(),
        st.raws.len() <= 0x8000_0000,
        forall|k: Seq<char>| #[trigger]
            st.labels.view().contains_key(k) ==> st.labels.view()[k] < 0x8000_0000,
    ensures
        match encode_all(st.view().raws, st.view().labels, st.view().symbols) {
            Ok(b) => r matches Ok(v) && v@ == b,
            Err(e) => r matches Err(x) && x@ == e,
        },
{
    let ghost p1 = st.view();
    let zero = chars_of("0");
    let mut out: Vec<u8> = Vec::new();
    let mut pc: usize = 0;
    assert(p1.raws.take(0) =~= Seq::<RawSpec>::empty());
    while pc < st.raws.len()
        invariant
            pc <= st.raws.len(),
            st.raws.len() <= 0x8000_0000,
            st.wf(),
            forall|k: Seq<char>| #[trigger]
                st.labels.view().contains_key(k) ==> st.labels.view()[k] < 0x8000_0000,
            zero@ == "0"@,
            p1 == st.view(),
            encode_all(p1.raws.take(pc as int), p1.labels, p1.symbols) == Ok::<Seq<u8>, AsmFault>(
                out@,
            ),
        decreases st.raws.len() - pc,
    {
        assert(p1.raws.take(pc + 1).drop_last() =~= p1.raws.take(pc as int));
        assert(p1.raws.take(pc + 1).last() == st.raws@[pc as int]@);
        match encode_one_exec(&st.raws[pc], pc, st, &zero) {
            Ok(b) => {
                append_bytes(&mut out, &b);
            },
            Err(e) => {
                proof {
                    lemma_encode_err_prefix(p1.raws, pc + 1, p1.labels, p1.symbols);
                    assert(p1.raws.take(st.raws.len() as int) =~= p1.raws);
                }
                return Err(e);
            },
        }
        pc = pc + 1;
    }
    assert(p1.raws.take(st.raws.len() as int) =~= p1.raws);
    Ok(out)
}

fn append_bytes(a: &mut Vec<u8>, b: &Vec<u8>)
    ensures
        final(a)@ == old(a)@ + b@,
{
    let mut i: usize = 0;
    while i < b.len()
        invariant
            i <= b.len(),
            a@ == old(a)@ + b@.take(i as int),
        decreases b.len() - i,
    {
        a.push(b[i]);
        i = i + 1;
        assert(b@.take(i as int) == b@.take(i - 1).push(b@[i - 1]));
    }
    assert(b@.take(b.len() as int) =~= b@);
}

/// Assembles ImpAsm source text into bytecode: 8 bytes per instruction.
pub fn assemble_source(source: &str) -> (r: Result<Vec<u8>, AsmError>)
    requires
        source@.len() < 0x8000_0000,
    ensures
        match assemble_spec(source@) {
            Ok(b) => r matches Ok(v) && v@ == b,
            Err(e) => r matches Err(x) && x@ == e,
        },
{
    let text = chars_of(source);
    match pass1_exec(text.as_slice()) {
        Err(e) => Err(e),
        Ok(st) => encode_exec(&st),
    }
}


/// A label operand becomes the jump distance: read as a signed 32-bit
/// number, the payload is the label's instruction position minus the
/// jumping instruction's, for forward and backward jumps alike (within the
/// signed 32-bit range).
pub proof fn law_label_payload_is_jump_distance(
    s: Seq<char>,
    opcode: u8,
    pc: int,
    labels: Map<Seq<char>, usize>,
    symbols: Map<Seq<char>, u32>,
)
    requires
        opcode != 0x18,
        trim_all(split(s, '|')).len() == 1,
        labels.contains_key(trim_all(split(s, '|'))[0]),
        -0x8000_0000 <= labels[trim_all(split(s, '|'))[0]] - pc < 0x8000_0000,
    ensures
        payload_spec(s, opcode, pc, labels, symbols) matches Ok(p) && (if p < 0x8000_0000 {
            p as int
        } else {
            p - 0x1_0000_0000
        }) == labels[trim_all(split(s, '|'))[0]] - pc,
{
    let t = labels[trim_all(split(s, '|'))[0]] as int;
    let d = t - pc;
    let p = branch_offset(t, pc);
    if d >= 0 {
        assert(p == d);
    } else {
        assert(p == d + 0x1_0000_0000);
    }
}

} // verus!
