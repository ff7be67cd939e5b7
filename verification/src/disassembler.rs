//! Textual disassembly of bytecode: 8-byte little-endian instructions
//! (opcode, flags, destination register, payload), one line each.
use vstd::prelude::*;
use crate::opcodes::{binary_op_name, get_binary_op_name, get_opcode_name, get_semiring_name, opcode_name, semiring_name};
use crate::sexpr::{dec, dec_u64};
use crate::text::{append_chars, append_str, string_from};

verus! {

/// A decoded instruction.
#[derive(Clone, Copy)]
pub struct Instr {
    pub opcode: u8,
    pub flags: u8,
    pub dst_reg: u16,
    pub payload: u32,
}

pub open spec fn instr_at(bytes: Seq<u8>, pc: int) -> Instr {
    let b = bytes.subrange(pc * 8, pc * 8 + 8);
    Instr {
        opcode: b[0],
        flags: b[1],
        dst_reg: (b[2] + 256 * b[3]) as u16,
        payload: (b[4] + 256 * b[5] + 65536 * b[6] + 16777216 * b[7]) as u32,
    }
}

/// Upper-case hex digits, most significant first.
pub open spec fn hex_digits(n: nat) -> Seq<char>
    decreases n,
{
    let d = (n % 16) as int;
    let c = if d < 10 {
        (('0' as u32) + d) as char
    } else {
        (('A' as u32) + d - 10) as char
    };
    if n < 16 {
        seq![c]
    } else {
        hex_digits(n / 16).push(c)
    }
}

/// Zero-padded to at least `w` characters.
pub open spec fn zero_pad(s: Seq<char>, w: int) -> Seq<char> {
    if s.len() < w {
        Seq::new((w - s.len()) as nat, |i: int| '0') + s
    } else {
        s
    }
}

/// Space-padded on the right to at least `w` characters.
pub open spec fn right_pad(s: Seq<char>, w: int) -> Seq<char> {
    if s.len() < w {
        s + Seq::new((w - s.len()) as nat, |i: int| ' ')
    } else {
        s
    }
}

/// `{:+}`: a signed number with its sign always shown.
pub open spec fn signed(v: int) -> Seq<char> {
    if v >= 0 {
        seq!['+'] + dec(v as nat)
    } else {
        seq!['-'] + dec((-v) as nat)
    }
}

/// The payload read as a signed 32-bit number.
pub open spec fn as_i32(p: u32) -> int {
    if p >= 0x8000_0000 {
        p - 0x1_0000_0000
    } else {
        p as int
    }
}

pub open spec fn reg(r: int) -> Seq<char> {
    seq!['R'] + dec(r as nat)
}

/// The flag names set in `f`, joined by `|`, or `0`.
pub open spec fn flags_text(f: u8) -> Seq<char> {
    let names = seq!["BITSET"@, "ACCUMULATE"@, "INVERT"@, "OFFHEAP"@];
    let bits = seq![f & 1 != 0, f & 2 != 0, f & 4 != 0, f & 8 != 0];
    let set = flag_names(names, bits, 4);
    if set.len() == 0 {
        "0"@
    } else {
        join_bar(set)
    }
}

pub open spec fn flag_names(names: Seq<Seq<char>>, bits: Seq<bool>, k: int) -> Seq<Seq<char>>
    decreases k,
{
    if k <= 0 {
        seq![]
    } else if bits[k - 1] {
        flag_names(names, bits, k - 1).push(names[k - 1])
    } else {
        flag_names(names, bits, k - 1)
    }
}

pub open spec fn join_bar(v: Seq<Seq<char>>) -> Seq<char>
    decreases v.len(),
{
    if v.len() == 0 {
        seq![]
    } else if v.len() == 1 {
        v[0]
    } else {
        join_bar(v.drop_last()) + "|"@ + v.last()
    }
}

/// The operands of an instruction, by opcode family.
pub open spec fn operands_text(i: Instr) -> Seq<char> {
    let d = reg(i.dst_reg as int);
    let p = i.payload as int;
    let op = i.opcode;
    if op == 0x00 || op == 0x01 || op == 0x56 || op == 0xFF {
        seq![]
    } else if op == 0x50 || op == 0x51 || op == 0x52 {
        signed(as_i32(i.payload))
    } else if op == 0x53 {
        d + ", "@ + signed(as_i32(i.payload))
    } else if op == 0x04 || op == 0x05 || op == 0x07 || op == 0x12 || op == 0x71 {
        d + ", "@ + dec(p as nat)
    } else if op == 0x02 || op == 0x03 || op == 0x33 || op == 0x35 || op == 0x54 || op == 0x70 || op == 0x90
        || op == 0x91 || op == 0x92 {
        d + ", "@ + reg(p)
    } else if op == 0x10 || op == 0x11 || op == 0x14 || op == 0x15 || op == 0x16 || op == 0x17 {
        d + ", "@ + reg(p % 65536) + ", REL_"@ + dec((p / 65536) as nat)
    } else if op == 0x43 || op == 0x44 {
        d + ", "@ + reg(p % 256) + ", "@ + reg((p / 256) % 256) + ", "@ + binary_op_name((p / 65536) as u32)
    } else if op == 0x36 {
        d + ", "@ + reg(p % 65536) + ", "@ + reg(p / 65536)
    } else if op == 0x45 {
        d + ", "@ + reg(p % 256) + ", "@ + binary_op_name((p / 65536) as u32)
    } else if op == 0x41 || op == 0x42 {
        d + ", "@ + reg(p % 256) + ", REL_"@ + dec(((p / 256) % 256) as nat) + ", "@ + semiring_name(
            (p / 65536) as u32,
        )
    } else if op == 0x65 {
        d + ", "@ + reg(p % 256) + ", "@ + reg((p / 256) % 256) + ", REL_"@ + dec((p / 65536) as nat)
    } else {
        d + ", flags="@ + flags_text(i.flags) + ", payload=0x"@ + zero_pad(hex_digits(p as nat), 8)
    }
}

/// The start of a line: the position in hex and the padded opcode name.
pub open spec fn line_head(pc: int, i: Instr) -> Seq<char> {
    "0x"@ + zero_pad(hex_digits(pc as nat), 4) + ": "@ + right_pad(opcode_name(i.opcode), 25)
}

/// One disassembled line; a float constant is left for its text form.
#[derive(Debug)]
pub enum DisasmLine {
    Text(String),
    FloatConst { head: String, dst_reg: u16, bits: u32 },
}

pub open spec fn line_spec(bytes: Seq<u8>, pc: int) -> (Seq<char>, Option<(u16, u32)>) {
    let i = instr_at(bytes, pc);
    if i.opcode == 0x06 {
        (line_head(pc, i), Some((i.dst_reg, i.payload)))
    } else {
        (line_head(pc, i) + operands_text(i), None)
    }
}

pub open spec fn line_view(l: DisasmLine) -> (Seq<char>, Option<(u16, u32)>) {
    match l {
        DisasmLine::Text(s) => (s@, None),
        DisasmLine::FloatConst { head, dst_reg, bits } => (head@, Some((dst_reg, bits))),
    }
}

/// Why bytecode cannot be disassembled.
#[derive(PartialEq, Eq, Structural, Clone, Copy, Debug)]
pub enum DisasmError {
    /// The size is not a multiple of 8 bytes.
    BadLength,
}

// ---------------------------------------------------------------------------
// Executable side
// ---------------------------------------------------------------------------

pub fn hex_u64(n: u64) -> (r: Vec<char>)
    ensures
        r@ == hex_digits(n as nat),
    decreases n,
{
    let d = n % 16;
    let c = if d < 10 {
        (('0' as u8) + d as u8) as char
    } else {
        (('A' as u8) + d as u8 - 10) as char
    };
    if n < 16 {
        let mut v: Vec<char> = Vec::new();
        v.push(c);
        v
    } else {
        let mut v = hex_u64(n / 16);
        v.push(c);
        v
    }
}

pub(crate) fn push_zero_pad(out: &mut Vec<char>, s: &Vec<char>, w: usize)
    ensures
        final(out)@ == old(out)@ + zero_pad(s@, w as int),
{
    let ghost start = out@;
    let mut k = s.len();
    while k < w
        invariant
            s.len() <= k <= w || (k == s.len() && k >= w),
            out@ == start + Seq::new((k - s.len()) as nat, |i: int| '0'),
        decreases w - k,
    {
        out.push('0');
        k = k + 1;
        assert(out@ =~= start + Seq::new((k - s.len()) as nat, |i: int| '0'));
    }
    append_chars(out, s.as_slice());
    assert(out@ =~= start + zero_pad(s@, w as int));
}

fn push_right_pad(out: &mut Vec<char>, s: &Vec<char>, w: usize)
    ensures
        final(out)@ == old(out)@ + right_pad(s@, w as int),
{
    let ghost start = out@;
    append_chars(out, s.as_slice());
    let mut k = s.len();
    while k < w
        invariant
            s.len() <= k <= w || (k == s.len() && k >= w),
            out@ == start + s@ + Seq::new((k - s.len()) as nat, |i: int| ' '),
        decreases w - k,
    {
        out.push(' ');
        k = k + 1;
        assert(out@ =~= start + s@ + Seq::new((k - s.len()) as nat, |i: int| ' '));
    }
    assert(out@ =~= start + right_pad(s@, w as int));
}

fn push_dec(out: &mut Vec<char>, n: u64)
    ensures
        final(out)@ == old(out)@ + dec(n as nat),
{
    let d = dec_u64(n);
    append_chars(out, d.as_slice());
}

fn push_reg(out: &mut Vec<char>, r: u64)
    ensures
        final(out)@ == old(out)@ + reg(r as int),
{
    let ghost start = out@;
    out.push('R');
    push_dec(out, r);
    assert(out@ =~= start + reg(r as int));
}

fn push_signed(out: &mut Vec<char>, p: u32)
    ensures
        final(out)@ == old(out)@ + signed(as_i32(p)),
{
    let ghost start = out@;
    if p >= 0x8000_0000 {
        out.push('-');
        push_dec(out, (0x1_0000_0000u64 - p as u64));
    } else {
        out.push('+');
        push_dec(out, p as u64);
    }
    assert(out@ =~= start + signed(as_i32(p)));
}

fn push_flags(out: &mut Vec<char>, f: u8)
    ensures
        final(out)@ == old(out)@ + flags_text(f),
{
    let ghost start = out@;
    let ghost names = seq!["BITSET"@, "ACCUMULATE"@, "INVERT"@, "OFFHEAP"@];
    let ghost bits = seq![f & 1 != 0, f & 2 != 0, f & 4 != 0, f & 8 != 0];
    let mut any = false;
    let mut body: Vec<char> = Vec::new();
    let mut k: usize = 0;
    assert(flag_names(names, bits, 0) =~= Seq::<Seq<char>>::empty());
    while k < 4
        invariant
            k <= 4,
            names == seq!["BITSET"@, "ACCUMULATE"@, "INVERT"@, "OFFHEAP"@],
            bits == seq![f & 1 != 0, f & 2 != 0, f & 4 != 0, f & 8 != 0],
            any == (flag_names(names, bits, k as int).len() > 0),
            body@ == join_bar(flag_names(names, bits, k as int)),
        decreases 4 - k,
    {
        let mask: u8 = if k == 0 { 1 } else if k == 1 { 2 } else if k == 2 { 4 } else { 8 };
        let name = if k == 0 { "BITSET" } else if k == 1 { "ACCUMULATE" } else if k == 2 { "INVERT" } else { "OFFHEAP" };
        assert(name@ == names[k as int]);
        assert((f & mask != 0) == bits[k as int]);
        if f & mask != 0 {
            let ghost prev = flag_names(names, bits, k as int);
            if any {
                append_str(&mut body, "|");
            }
            append_str(&mut body, name);
            proof {
                let nxt = prev.push(names[k as int]);
                assert(nxt.drop_last() =~= prev);
                if prev.len() == 0 {
                    assert(join_bar(prev) =~= Seq::<char>::empty());
                    assert(body@ =~= join_bar(nxt));
                } else {
                    assert(body@ =~= join_bar(nxt));
                }
            }
            any = true;
        }
        k = k + 1;
    }
    if any {
        append_chars(out, body.as_slice());
    } else {
        append_str(out, "0");
    }
}

/// Decodes instruction `pc` of the bytecode.
pub fn decode_instr(bytes: &[u8], pc: usize) -> (i: Instr)
    requires
        pc * 8 + 8 <= bytes.len(),
    ensures
        i == instr_at(bytes@, pc as int),
{
    let o = pc * 8;
    let dst = (bytes[o + 2] as u16) + 256 * (bytes[o + 3] as u16);
    let payload = (bytes[o + 4] as u32) + 256 * (bytes[o + 5] as u32) + 65536 * (bytes[o + 6] as u32) + 16777216 * (
    bytes[o + 7] as u32);
    Instr { opcode: bytes[o], flags: bytes[o + 1], dst_reg: dst, payload }
}

#[verifier::spinoff_prover]
#[verifier::rlimit(60)]
fn push_operands(out: &mut Vec<char>, i: Instr)
    ensures
        final(out)@ == old(out)@ + operands_text(i),
{
    let ghost start = out@;
    let op = i.opcode;
    let p = i.payload;
    let d = i.dst_reg as u64;
    if op == 0x00 || op == 0x01 || op == 0x56 || op == 0xFF {
    } else if op == 0x50 || op == 0x51 || op == 0x52 {
        push_signed(out, p);
    } else if op == 0x53 {
        push_reg(out, d);
        append_str(out, ", ");
        push_signed(out, p);
    } else if op == 0x04 || op == 0x05 || op == 0x07 || op == 0x12 || op == 0x71 {
        push_reg(out, d);
        append_str(out, ", ");
        push_dec(out, p as u64);
    } else if op == 0x02 || op == 0x03 || op == 0x33 || op == 0x35 || op == 0x54 || op == 0x70 || op == 0x90
        || op == 0x91 || op == 0x92 {
        push_reg(out, d);
        append_str(out, ", ");
        push_reg(out, p as u64);
    } else if op == 0x10 || op == 0x11 || op == 0x14 || op == 0x15 || op == 0x16 || op == 0x17 {
        push_reg(out, d);
        append_str(out, ", ");
        push_reg(out, (p % 65536) as u64);
        append_str(out, ", REL_");
        push_dec(out, (p / 65536) as u64);
    } else if op == 0x43 || op == 0x44 {
        push_reg(out, d);
        append_str(out, ", ");
        push_reg(out, (p % 256) as u64);
        append_str(out, ", ");
        push_reg(out, ((p / 256) % 256) as u64);
        append_str(out, ", ");
        append_str(out, get_binary_op_name(p / 65536));
    } else if op == 0x36 {
        push_reg(out, d);
        append_str(out, ", ");
        push_reg(out, (p % 65536) as u64);
        append_str(out, ", ");
        push_reg(out, (p / 65536) as u64);
    } else if op == 0x45 {
        push_reg(out, d);
        append_str(out, ", ");
        push_reg(out, (p % 256) as u64);
        append_str(out, ", ");
        append_str(out, get_binary_op_name(p / 65536));
    } else if op == 0x41 || op == 0x42 {
        push_reg(out, d);
        append_str(out, ", ");
        push_reg(out, (p % 256) as u64);
        append_str(out, ", REL_");
        push_dec(out, ((p / 256) % 256) as u64);
        append_str(out, ", ");
        append_str(out, get_semiring_name(p / 65536));
    } else if op == 0x65 {
        push_reg(out, d);
        append_str(out, ", ");
        push_reg(out, (p % 256) as u64);
        append_str(out, ", ");
        push_reg(out, ((p / 256) % 256) as u64);
        append_str(out, ", REL_");
        push_dec(out, (p / 65536) as u64);
    } else {
        push_reg(out, d);
        append_str(out, ", flags=");
        push_flags(out, i.flags);
        append_str(out, ", payload=0x");
        let h = hex_u64(p as u64);
        push_zero_pad(out, &h, 8);
    }
    assert(out@ =~= start + operands_text(i));
}

/// Disassembles instruction `pc`.
pub fn disassemble_line(bytes: &[u8], pc: usize) -> (l: DisasmLine)
    requires
        pc * 8 + 8 <= bytes.len(),
    ensures
        line_view(l) == line_spec(bytes@, pc as int),
{
    let i = decode_instr(bytes, pc);
    let mut out: Vec<char> = Vec::new();
    append_str(&mut out, "0x");
    let h = hex_u64(pc as u64);
    push_zero_pad(&mut out, &h, 4);
    append_str(&mut out, ": ");
    let name = crate::text::chars_of(get_opcode_name(i.opcode));
    push_right_pad(&mut out, &name, 25);
    assert(out@ == line_head(pc as int, i));
    if i.opcode == 0x06 {
        return DisasmLine::FloatConst { head: string_from(out.as_slice()), dst_reg: i.dst_reg, bits: i.payload };
    }
    push_operands(&mut out, i);
    DisasmLine::Text(string_from(out.as_slice()))
}

/// Disassembles bytecode: one line per 8-byte instruction.
pub fn disassemble(bytes: &[u8]) -> (r: Result<Vec<DisasmLine>, DisasmError>)
    ensures
        bytes.len() % 8 != 0 <==> r is Err,
        r matches Ok(ls) ==> ls.len() == bytes.len() / 8 && forall|pc: int|
            0 <= pc < ls.len() ==> line_view(#[trigger] ls@[pc]) == line_spec(bytes@, pc),
{
    if bytes.len() % 8 != 0 {
        return Err(DisasmError::BadLength);
    }
    let n = bytes.len() / 8;
    let mut ls: Vec<DisasmLine> = Vec::new();
    let mut pc: usize = 0;
    while pc < n
        invariant
            pc <= n,
            n == bytes.len() / 8,
            bytes.len() % 8 == 0,
            ls.len() == pc,
            forall|q: int| 0 <= q < pc ==> line_view(#[trigger] ls@[q]) == line_spec(bytes@, q),
        decreases n - pc,
    {
        ls.push(disassemble_line(bytes, pc));
        pc = pc + 1;
    }
    Ok(ls)
}

// ---------------------------------------------------------------------------
// Laws
// ---------------------------------------------------------------------------

/// An instruction the assembler encodes is decoded back to the same
/// opcode, flags, destination register and payload.
pub proof fn law_encoding_decodes(opcode: u8, flags: u8, dst: u16, payload: u32)
    ensures
        instr_at(crate::assembler::instr_bytes(opcode, flags, dst, payload), 0) == (Instr {
            opcode,
            flags,
            dst_reg: dst,
            payload,
        }),
{
    let b = crate::assembler::instr_bytes(opcode, flags, dst, payload);
    assert(b.subrange(0, 8) =~= b);
    assert(((dst & 0xff) as u8) + 256 * ((dst >> 8u16) as u8) == dst) by (bit_vector);
    assert(((payload & 0xff) as u8) + 256 * (((payload >> 8u32) & 0xff) as u8) + 65536 * (((payload
        >> 16u32) & 0xff) as u8) + 16777216 * ((payload >> 24u32) as u8) == payload) by (bit_vector);
}

proof fn lemma_encode_one_len(
    raw: crate::assembler::RawSpec,
    pc: int,
    labels: Map<Seq<char>, usize>,
    symbols: Map<Seq<char>, u32>,
)
    ensures
        crate::assembler::encode_one(raw, pc, labels, symbols) matches Ok(x) ==> x.len() == 8,
{
    match crate::assembler::encode_one(raw, pc, labels, symbols) {
        Ok(x) => {
            let op = crate::opcodes::opcode_of(raw.opcode)->Some_0;
            let fl = crate::assembler::parse_flags_spec("0"@)->Ok_0;
            let d = crate::assembler::parse_register_spec(raw.dst)->Some_0;
            let p = crate::assembler::payload_spec(raw.payload, op, pc, labels, symbols)->Ok_0;
            assert(x == crate::assembler::instr_bytes(op, fl, d, p));
        },
        Err(_) => {},
    }
}

#[verifier::spinoff_prover]
pub proof fn lemma_encode_all_len(
    raws: Seq<crate::assembler::RawSpec>,
    labels: Map<Seq<char>, usize>,
    symbols: Map<Seq<char>, u32>,
)
    ensures
        crate::assembler::encode_all(raws, labels, symbols) matches Ok(b) ==> b.len() == 8 * raws.len(),
    decreases raws.len(),
{
    if raws.len() > 0 {
        lemma_encode_all_len(raws.drop_last(), labels, symbols);
        lemma_encode_one_len(raws.last(), raws.len() - 1, labels, symbols);
    }
}

/// Assembled bytecode holds one 8-byte instruction per instruction line, so
/// disassembling it gives one line per instruction.
pub proof fn law_assembled_length(text: Seq<char>)
    ensures
        crate::assembler::assemble_spec(text) matches Ok(b) ==> b.len() % 8 == 0 && b.len() / 8
            == crate::assembler::pass1(crate::text::split(text, '\n'))->Ok_0.raws.len(),
{
    match crate::assembler::pass1(crate::text::split(text, '\n')) {
        Ok(st) => {
            lemma_encode_all_len(st.raws, st.labels, st.symbols);
        },
        Err(_) => {},
    }
}


/// A jump (`OP_JMP`, `OP_JZ`, `OP_JNZ`) shows its payload as a signed
/// 32-bit distance with its sign: `+d` for a payload `d` below `2^31`, and
/// `-(2^32 - d)` for a larger one, which is a backward jump.
pub proof fn law_jump_operand_is_signed_distance(i: Instr)
    requires
        i.opcode == 0x50 || i.opcode == 0x51 || i.opcode == 0x52,
    ensures
        operands_text(i) == if i.payload < 0x8000_0000 {
            seq!['+'] + dec(i.payload as nat)
        } else {
            seq!['-'] + dec((0x1_0000_0000 - i.payload) as nat)
        },
{
}

/// Disassembling a jump the assembler encoded shows the distance to its
/// label: `+d` for a forward jump of `d` instructions, `-d` for a backward
/// one.
pub proof fn law_assembled_jump_shows_distance(opcode: u8, flags: u8, dst: u16, target: int, pc: int)
    requires
        opcode == 0x50 || opcode == 0x51 || opcode == 0x52,
        -0x8000_0000 <= target - pc < 0x8000_0000,
    ensures
        operands_text(Instr { opcode, flags, dst_reg: dst, payload: crate::assembler::branch_offset(target, pc) })
            == if target - pc >= 0 {
            seq!['+'] + dec((target - pc) as nat)
        } else {
            seq!['-'] + dec((pc - target) as nat)
        },
{
    let i = Instr { opcode, flags, dst_reg: dst, payload: crate::assembler::branch_offset(target, pc) };
    law_jump_operand_is_signed_distance(i);
    let d = target - pc;
    if d >= 0 {
        assert(i.payload == d);
    } else {
        assert(i.payload == d + 0x1_0000_0000);
    }
}

} // verus!
