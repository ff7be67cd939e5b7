//! The query compiler pipeline: a front end reads the source into
//! S-expressions, the fusion and pruning passes rewrite them, registers are
//! assigned, and the program is printed as assembly text.
use vstd::prelude::*;
use crate::implog;
use crate::passes::{fuse, partition_elimination, prune, vector_fusion};
use crate::reader::{self, ParseError, ReadFault, fault_message, read_spec, tokens_of};
use crate::regalloc::{
    AllocatedInstruction, AllocatedProgram, InsV, alloc_final, alloc_spec, assign_registers,
    ins_view, lemma_alloc_bound, program_view, registers_fit, strings_view, too_many_registers_message,
};
use crate::sexpr::{SExpr, Sx, dec, dec_u64, seq_size, sizes_within, sxs};
use crate::text::{append_chars, append_str, chars_of, string_from};

verus! {

/// The source languages of query scripts.
#[derive(PartialEq, Eq, Structural, Clone, Copy, Debug)]
pub enum LanguageTarget {
    ImpScm,
    ImpK,
    ImpLog,
    Cypher,
    Cel,
}

/// Why a script could not be compiled.
#[derive(Debug)]
pub enum CompileError {
    /// The S-expression text could not be read.
    Parse(ParseError),
    /// The ImpLog text could not be read.
    ImpLog(implog::ImpLogParseError),
    /// The variables need more registers than the machine has.
    Alloc(String),
}

/// Why a script does not compile, as values.
pub enum CompileFault {
    /// The S-expression reader fails.
    Read(ReadFault),
    /// The language has no front end in this library.
    NoFrontEnd,
    /// The variables need registers beyond `R62`.
    TooManyRegisters,
}

/// The languages whose front ends this library holds: ImpScheme and
/// ImpLog. Cypher, CEL and ImpK are compiled by the graph engine.
pub open spec fn has_front_end(target: LanguageTarget) -> bool {
    target == LanguageTarget::ImpScm || target == LanguageTarget::ImpLog
}

/// Whether this library compiles scripts of the language.
pub fn library_compiles(target: LanguageTarget) -> (b: bool)
    ensures
        b == has_front_end(target),
{
    match target {
        LanguageTarget::ImpScm | LanguageTarget::ImpLog => true,
        _ => false,
    }
}

// ---------------------------------------------------------------------------
// Assembly text
// ---------------------------------------------------------------------------

/// `a, b, c`.
pub open spec fn join_commas(v: Seq<Seq<char>>) -> Seq<char>
    decreases v.len(),
{
    if v.len() == 0 {
        seq![]
    } else if v.len() == 1 {
        v[0]
    } else {
        join_commas(v.drop_last()) + ", "@ + v.last()
    }
}

/// The operands of an instruction: its destination, then its arguments.
pub open spec fn operands(i: InsV) -> Seq<Seq<char>> {
    match i.1 {
        Some(d) => seq![d] + i.2,
        None => i.2,
    }
}

/// One instruction line: the opcode, then its operands separated by commas.
pub open spec fn instr_line(i: InsV) -> Seq<char> {
    if operands(i).len() == 0 {
        i.0 + "\n"@
    } else {
        i.0 + " "@ + join_commas(operands(i)) + "\n"@
    }
}

pub open spec fn instr_lines(v: Seq<InsV>) -> Seq<char>
    decreases v.len(),
{
    if v.len() == 0 {
        seq![]
    } else {
        instr_lines(v.drop_last()) + instr_line(v.last())
    }
}

/// Whether the last instruction is already a bare `OP_HALT`.
pub open spec fn ends_with_halt(v: Seq<InsV>) -> bool {
    v.len() > 0 && v.last().0 == "OP_HALT"@ && v.last().1 is None && v.last().2.len() == 0
}

/// The assembly text of a program: a version line, the function and its
/// frame size, then one line per instruction, and a final `OP_HALT` where
/// the instructions do not already end with a bare one.
pub open spec fn assembly_text(p: (Seq<char>, int, Seq<InsV>)) -> Seq<char> {
    ".version 0.9.0\n"@ + ".function "@ + p.0 + "\n"@ + ".frame "@ + dec(p.1 as nat) + "\n"@
        + instr_lines(p.2) + if ends_with_halt(p.2) { Seq::<char>::empty() } else { "OP_HALT\n"@ }
}

fn append_string(a: &mut Vec<char>, s: &String)
    ensures
        final(a)@ == old(a)@ + s@,
{
    append_str(a, s.as_str())
}

fn ins_operands(i: &AllocatedInstruction) -> (r: Vec<String>)
    ensures
        strings_view(r@) == operands(ins_view(*i)),
{
    let mut r: Vec<String> = Vec::new();
    match &i.dst {
        Some(d) => {
            r.push(d.clone());
        },
        None => {},
    }
    let ghost p = strings_view(r@);
    let mut k: usize = 0;
    while k < i.args.len()
        invariant
            k <= i.args.len(),
            strings_view(r@) == p + strings_view(i.args@).take(k as int),
        decreases i.args.len() - k,
    {
        let c = i.args[k].clone();
        let ghost before = r@;
        r.push(c);
        assert(strings_view(r@) =~= strings_view(before).push(c@));
        assert(strings_view(i.args@).take(k + 1) =~= strings_view(i.args@).take(k as int).push(i.args@[k as int]@));
        k = k + 1;
        assert(strings_view(r@) =~= p + strings_view(i.args@).take(k as int));
    }
    assert(strings_view(i.args@).take(i.args.len() as int) =~= strings_view(i.args@));
    match &i.dst {
        Some(d) => {
            assert(p =~= seq![d@]);
        },
        None => {
            assert(p =~= Seq::<Seq<char>>::empty());
        },
    }
    r
}

fn instr_line_exec(out: &mut Vec<char>, i: &AllocatedInstruction)
    ensures
        final(out)@ == old(out)@ + instr_line(ins_view(*i)),
{
    let ghost start = out@;
    append_string(out, &i.opcode);
    let ops = ins_operands(i);
    let ghost ov = strings_view(ops@);
    if ops.len() > 0 {
        append_str(out, " ");
        let ghost mid = out@;
        let mut k: usize = 0;
        while k < ops.len()
            invariant
                k <= ops.len(),
                ov == strings_view(ops@),
                ops.len() > 0,
                out@ == mid + join_commas(ov.take(k as int)),
            decreases ops.len() - k,
        {
            if k > 0 {
                append_str(out, ", ");
            }
            append_string(out, &ops[k]);
            k = k + 1;
            proof {
                assert(ov.take(k as int).drop_last() =~= ov.take(k - 1));
                assert(ov.take(k as int).last() == ops@[k - 1]@);
                if k == 1 {
                    assert(ov.take(0) =~= Seq::<Seq<char>>::empty());
                }
            }
        }
        assert(ov.take(ops.len() as int) =~= ov);
    }
    append_str(out, "\n");
}

/// Prints a program as assembly text.
pub fn emit_assembly(p: &AllocatedProgram) -> (s: String)
    ensures
        s@ == assembly_text(program_view(*p)),
{
    let mut out: Vec<char> = Vec::new();
    append_str(&mut out, ".version 0.9.0\n");
    append_str(&mut out, ".function ");
    append_string(&mut out, &p.function_name);
    append_str(&mut out, "\n");
    append_str(&mut out, ".frame ");
    let d = dec_u64(p.frame_size as u64);
    append_chars(&mut out, d.as_slice());
    append_str(&mut out, "\n");
    let ghost head = out@;
    let ghost iv = program_view(*p).2;
    let mut k: usize = 0;
    while k < p.instructions.len()
        invariant
            k <= p.instructions.len(),
            iv == p.instructions@.map_values(|i: AllocatedInstruction| ins_view(i)),
            out@ == head + instr_lines(iv.take(k as int)),
        decreases p.instructions.len() - k,
    {
        instr_line_exec(&mut out, &p.instructions[k]);
        k = k + 1;
        assert(iv.take(k as int).drop_last() =~= iv.take(k - 1));
    }
    assert(iv.take(p.instructions.len() as int) =~= iv);
    let n = p.instructions.len();
    let mut halted = false;
    if n > 0 {
        let last = &p.instructions[n - 1];
        let name = chars_of(last.opcode.as_str());
        halted = crate::text::eq_str(name.as_slice(), "OP_HALT") && last.dst.is_none() && last.args.len() == 0;
    }
    if !halted {
        append_str(&mut out, "OP_HALT\n");
    }
    string_from(out.as_slice())
}

/// Every printed program ends with a line holding `OP_HALT` alone, so
/// the machine stops after the last instruction.
pub proof fn law_text_ends_with_halt(p: (Seq<char>, int, Seq<InsV>))
    ensures
        assembly_text(p).len() >= 8,
        assembly_text(p).subrange(assembly_text(p).len() - 8, assembly_text(p).len() as int) == "OP_HALT\n"@,
{
    reveal_strlit("OP_HALT\n");
    reveal_strlit("OP_HALT");
    reveal_strlit("\n");
    let t = assembly_text(p);
    let head = ".version 0.9.0\n"@ + ".function "@ + p.0 + "\n"@ + ".frame "@ + dec(p.1 as nat) + "\n"@;
    let v = p.2;
    if ends_with_halt(v) {
        let last = instr_line(v.last());
        assert(operands(v.last()).len() == 0);
        assert(last == "OP_HALT"@ + "\n"@);
        assert(instr_lines(v) == instr_lines(v.drop_last()) + last);
        assert(t =~= (head + instr_lines(v.drop_last())) + last);
        assert(t.subrange(t.len() - 8, t.len() as int) =~= last);
    } else {
        assert(t =~= (head + instr_lines(v)) + "OP_HALT\n"@);
        assert(t.subrange(t.len() - 8, t.len() as int) =~= "OP_HALT\n"@);
    }
}

/// Every script that compiles ends with a bare `OP_HALT` line.
pub proof fn law_compiled_scripts_halt(source: Seq<char>, target: LanguageTarget)
    requires
        compile_spec(source, target) is Ok,
    ensures
        ({
            let t = compile_spec(source, target)->Ok_0;
            t.len() >= 8 && t.subrange(t.len() - 8, t.len() as int) == "OP_HALT\n"@
        }),
{
    match front_end(source, target) {
        Ok(es) => if registers_fit(optimized(es)) {
            law_text_ends_with_halt(alloc_spec(optimized(es)));
        },
        Err(_) => {},
    }
}

/// A script of a language with a front end here fails to compile exactly
/// where its reader fails, with the reader's fault, or where its variables
/// need more registers than the machine has; it never fails for want of a
/// front end.
pub proof fn law_compile_fails_where_reading_fails(source: Seq<char>, target: LanguageTarget)
    requires
        has_front_end(target),
    ensures
        front_end(source, target) is Err ==> compile_spec(source, target) == Err::<Seq<char>, CompileFault>(
            front_end(source, target)->Err_0,
        ),
        front_end(source, target) matches Ok(es) ==> (compile_spec(source, target) is Ok <==> registers_fit(
            optimized(es),
        )),
        front_end(source, target) matches Ok(es) ==> (!registers_fit(optimized(es)) ==> compile_spec(source, target)
            == Err::<Seq<char>, CompileFault>(CompileFault::TooManyRegisters)),
        !(compile_spec(source, target) matches Err(CompileFault::NoFrontEnd)),
{
}

// ---------------------------------------------------------------------------
// The pipeline
// ---------------------------------------------------------------------------

/// What the front end of a language makes of a source text.
pub open spec fn front_end(source: Seq<char>, target: LanguageTarget) -> Result<Seq<Sx>, CompileFault> {
    match target {
        LanguageTarget::ImpScm => match read_spec(source) {
            Ok(es) => Ok(es),
            Err(f) => Err(CompileFault::Read(f)),
        },
        LanguageTarget::ImpLog => Ok(implog::implog_spec(source)),
        _ => Err(CompileFault::NoFrontEnd),
    }
}

/// Reads a script in ImpScheme or ImpLog into S-expressions.
pub fn parse_to_ir(source: &str, target: LanguageTarget) -> (r: Result<Vec<SExpr>, CompileError>)
    requires
        has_front_end(target),
        target == LanguageTarget::ImpScm ==> tokens_of(source@) is Some,
    ensures
        match r {
            Ok(es) => front_end(source@, target) == Ok::<Seq<Sx>, CompileFault>(sxs(es@)),
            Err(CompileError::Parse(e)) => exists|f: ReadFault|
                front_end(source@, target) == Err::<Seq<Sx>, CompileFault>(CompileFault::Read(f))
                    && e.message@ == fault_message(f),
            Err(_) => false,
        },
{
    match target {
        LanguageTarget::ImpLog => match implog::parse(source) {
            Ok(es) => Ok(es),
            Err(e) => Err(CompileError::ImpLog(e)),
        },
        _ => match reader::parse(source) {
            Ok(es) => Ok(es),
            Err(e) => Err(CompileError::Parse(e)),
        },
    }
}

/// The expressions after both rewriting passes.
pub open spec fn optimized(es: Seq<Sx>) -> Seq<Sx> {
    es.map_values(|e: Sx| fuse(e)).map_values(|e: Sx| prune(e))
}

/// Scripts on which compiling ends and whose register count fits in
/// `usize`.
pub open spec fn compilable(source: Seq<char>, target: LanguageTarget) -> bool {
    &&& target == LanguageTarget::ImpScm ==> tokens_of(source) is Some
    &&& front_end(source, target) matches Ok(es) ==> alloc_final(optimized(es)).next <= usize::MAX
}

/// What compiling gives: the assembly text of the lowered, optimized
/// expressions where their variables fit in the registers, else the
/// failure.
pub open spec fn compile_spec(source: Seq<char>, target: LanguageTarget) -> Result<Seq<char>, CompileFault> {
    match front_end(source, target) {
        Ok(es) => if registers_fit(optimized(es)) {
            Ok(assembly_text(alloc_spec(optimized(es))))
        } else {
            Err(CompileFault::TooManyRegisters)
        },
        Err(f) => Err(f),
    }
}

/// What a compile result says, as values.
pub open spec fn compile_result_matches(r: Result<String, CompileError>, spec: Result<Seq<char>, CompileFault>) -> bool {
    match r {
        Ok(s) => spec == Ok::<Seq<char>, CompileFault>(s@),
        Err(CompileError::Parse(e)) => exists|f: ReadFault|
            spec == Err::<Seq<char>, CompileFault>(CompileFault::Read(f)) && e.message@ == fault_message(f),
        Err(CompileError::Alloc(m)) => spec == Err::<Seq<char>, CompileFault>(CompileFault::TooManyRegisters)
            && m@ == too_many_registers_message(),
        Err(CompileError::ImpLog(_)) => false,
    }
}

/// Compiles an ImpScheme or ImpLog script to assembly text.
pub fn compile_script_to_impas(source: &str, target: LanguageTarget) -> (r: Result<String, CompileError>)
    requires
        has_front_end(target),
        compilable(source@, target),
    ensures
        compile_result_matches(r, compile_spec(source@, target)),
{
    let exprs = match parse_to_ir(source, target) {
        Ok(es) => es,
        Err(e) => {
            return Err(e);
        },
    };
    lower_and_emit(optimize(exprs))
}

/// Both rewriting passes.
fn optimize(exprs: Vec<SExpr>) -> (r: Vec<SExpr>)
    ensures
        sxs(r@) == optimized(sxs(exprs@)),
{
    let ghost es = sxs(exprs@);
    let fused = vector_fusion(exprs);
    let pruned = partition_elimination(fused);
    assert(sxs(pruned@) =~= optimized(es));
    pruned
}

/// Register assignment and printing.
fn lower_and_emit(exprs: Vec<SExpr>) -> (r: Result<String, CompileError>)
    requires
        alloc_final(sxs(exprs@)).next <= usize::MAX,
    ensures
        match r {
            Ok(s) => registers_fit(sxs(exprs@)) && s@ == assembly_text(alloc_spec(sxs(exprs@))),
            Err(CompileError::Alloc(m)) => !registers_fit(sxs(exprs@)) && m@ == too_many_registers_message(),
            Err(_) => false,
        },
{
    let prog = match assign_registers(exprs) {
        Ok(p) => p,
        Err(m) => {
            return Err(CompileError::Alloc(m));
        },
    };
    Ok(emit_assembly(&prog))
}

/// The scripts that compile on any input: reading them ends, and their
/// optimized expressions hold few enough nodes (two fixed registers and at
/// most three per node) that register numbers stay within `usize`.
pub open spec fn compiles_within(source: Seq<char>, target: LanguageTarget) -> bool {
    &&& target == LanguageTarget::ImpScm ==> tokens_of(source) is Some
    &&& front_end(source, target) matches Ok(es) ==> 2 + 3 * seq_size(optimized(es)) <= usize::MAX
}

/// Compiles any ImpScheme or ImpLog script: `None` for a script outside
/// `compiles_within`, else what `compile_script_to_impas` gives.
pub fn try_compile_script_to_impas(source: &str, target: LanguageTarget) -> (r: Option<Result<String, CompileError>>)
    requires
        has_front_end(target),
    ensures
        r is None <==> !compiles_within(source@, target),
        r matches Some(v) ==> compile_result_matches(v, compile_spec(source@, target)),
{
    let exprs = match target {
        LanguageTarget::ImpLog => match implog::parse(source) {
            Ok(es) => es,
            Err(e) => {
                return Some(Err(CompileError::ImpLog(e)));
            },
        },
        _ => match reader::try_parse(source) {
            Some(Ok(es)) => es,
            Some(Err(e)) => {
                return Some(Err(CompileError::Parse(e)));
            },
            None => {
                return None;
            },
        },
    };
    let pruned = optimize(exprs);
    let limit: usize = (usize::MAX - 2) / 3;
    if !sizes_within(pruned.as_slice(), limit) {
        return None;
    }
    proof {
        lemma_alloc_bound(sxs(pruned@));
    }
    Some(lower_and_emit(pruned))
}

/// Compiles an ImpScheme script to assembly text: the same as
/// `compile_script_to_impas` on ImpScheme.
pub fn compile_to_impas(source: &str) -> (r: Result<String, CompileError>)
    requires
        compilable(source@, LanguageTarget::ImpScm),
    ensures
        compile_result_matches(r, compile_spec(source@, LanguageTarget::ImpScm)),
{
    compile_script_to_impas(source, LanguageTarget::ImpScm)
}

/// The language of a script file, from its extension: `impk`, `implog`,
/// `cypher` or `cql`; anything else is ImpScheme.
pub open spec fn target_of_extension(ext: Option<Seq<char>>) -> LanguageTarget {
    match ext {
        Some(e) => if e == "impk"@ {
            LanguageTarget::ImpK
        } else if e == "implog"@ {
            LanguageTarget::ImpLog
        } else if e == "cypher"@ || e == "cql"@ {
            LanguageTarget::Cypher
        } else {
            LanguageTarget::ImpScm
        },
        None => LanguageTarget::ImpScm,
    }
}

pub fn target_for_extension(ext: Option<&str>) -> (t: LanguageTarget)
    ensures
        t == target_of_extension(
            match ext {
                Some(e) => Some(e@),
                None => None,
            },
        ),
{
    match ext {
        Some(e) => {
            let cs = chars_of(e);
            if crate::text::eq_str(cs.as_slice(), "impk") {
                LanguageTarget::ImpK
            } else if crate::text::eq_str(cs.as_slice(), "implog") {
                LanguageTarget::ImpLog
            } else if crate::text::eq_str(cs.as_slice(), "cypher") || crate::text::eq_str(cs.as_slice(), "cql") {
                LanguageTarget::Cypher
            } else {
                LanguageTarget::ImpScm
            }
        },
        None => LanguageTarget::ImpScm,
    }
}

} // verus!
