use impulse_graph_tooling::assembler::{self, AsmError};
use impulse_graph_tooling::disassembler::{self, DisasmError, DisasmLine};
use impulse_graph_tooling::opcodes;

fn cs(s: &str) -> Vec<char> {
    s.chars().collect()
}

#[test]
fn assemble_walk_jump_and_halt() {
    let src = ".relation \"follows\" = 3\nstart:\nOP_CSR_WALK R4, R0, REL_FOLLOWS\nOP_JMP start ; back\nOP_HALT\n";
    let bytes = assembler::assemble_source(src).unwrap();
    assert_eq!(
        bytes,
        vec![
            0x10, 0, 4, 0, 0, 0, 3, 0, //
            0x50, 0, 0, 0, 0xff, 0xff, 0xff, 0xff, //
            0, 0, 0, 0, 0, 0, 0, 0,
        ]
    );
}

#[test]
fn assemble_constant_load_and_comments() {
    let src = "; a comment\n\n  OP_LOAD_CONST_INT R2, 7   ; seven\n";
    assert_eq!(assembler::assemble_source(src).unwrap(), vec![0x04, 0, 2, 0, 7, 0, 0, 0]);
}

#[test]
fn assemble_errors() {
    assert!(matches!(
        assembler::assemble_source("OP_BOGUS R1\n"),
        Err(AsmError::InvalidOpcode { line: 1, .. })
    ));
    assert!(matches!(
        assembler::assemble_source("OP_HALT\nOP_NOP R1, R2, R3, R4, R5\n"),
        Err(AsmError::TooManyArguments { line: 2, .. })
    ));
    assert!(matches!(
        assembler::assemble_source(".foo x = 1\n"),
        Err(AsmError::UnknownDirective { line: 1, .. })
    ));
    assert!(matches!(
        assembler::assemble_source(".domain user = abc\n"),
        Err(AsmError::BadDirectiveValue { line: 1 })
    ));
    assert!(matches!(
        assembler::assemble_source("OP_LOAD_CONST_INT R99, 1\n"),
        Err(AsmError::InvalidRegister { .. })
    ));
    assert!(matches!(
        assembler::assemble_source("OP_LOAD_CONST_INT R1, xyz\n"),
        Err(AsmError::InvalidInteger { .. })
    ));
}

#[test]
fn registers_and_flags() {
    assert_eq!(assembler::parse_register(&cs("r12")).unwrap(), 12);
    assert_eq!(assembler::parse_register(&cs(" 5 ")).unwrap(), 5);
    assert_eq!(assembler::parse_register(&cs("")).unwrap(), 0);
    assert!(assembler::parse_register(&cs("R64")).is_err());
    assert!(assembler::is_register_str(&cs("R7")));
    assert!(!assembler::is_register_str(&cs("REL_7")));
    assert_eq!(assembler::parse_flags(&cs("0")).unwrap(), 0);
    assert_eq!(assembler::parse_flags(&cs("17")).unwrap(), 17);
}

#[test]
fn opcode_tables() {
    assert_eq!(opcodes::get_opcode(&cs("OP_HALT")), Some(0x00));
    assert_eq!(opcodes::get_opcode(&cs("OP_CSR_WALK")), Some(0x10));
    assert_eq!(opcodes::get_opcode(&cs("OP_MOVE")), Some(0x70));
    assert_eq!(opcodes::get_opcode(&cs("OP_NOPE")), None);
    assert_eq!(opcodes::get_opcode_name(0x10), "OP_CSR_WALK");
    assert_eq!(opcodes::get_opcode_name(0xFF), "OP_HALT");
    assert_eq!(opcodes::get_opcode_name(0xEE), "OP_UNKNOWN");
    assert_eq!(opcodes::get_opcode_name(0x70), "OP_MOV");
}

#[test]
fn disassembly_gives_back_the_mnemonic() {
    for m in ["OP_HALT", "OP_NOP", "OP_INIT_INPUT_NODE", "OP_LOAD_CONST_INT", "OP_LOAD_CONST_FLOAT",
        "OP_LOAD_INLINE_ARRAY", "OP_HAS_KEY_CATALOG", "OP_CSR_WALK", "OP_MXV", "OP_MOV", "OP_SET_MAX_DOP",
        "OP_COLLECT_VALUE_MAP"] {
        let code = opcodes::get_opcode(&cs(m)).unwrap();
        assert_eq!(opcodes::get_opcode_name(code), m);
    }
    let bytes = assembler::assemble_source("OP_NOP\nOP_LOAD_CONST_INT R2, 7\nOP_HALT\n").unwrap();
    let lines = disassembler::disassemble(&bytes).unwrap();
    let texts: Vec<String> = lines
        .iter()
        .map(|l| match l {
            DisasmLine::Text(s) => s.clone(),
            other => panic!("unexpected {:?}", other),
        })
        .collect();
    assert_eq!(texts[0], format!("0x0000: {:<25}", "OP_NOP"));
    assert_eq!(texts[1], format!("0x0001: {:<25}R2, 7", "OP_LOAD_CONST_INT"));
    assert_eq!(texts[2], format!("0x0002: {:<25}", "OP_HALT"));
    assert_eq!(opcodes::lookup_constant(&cs("semiring_min_plus")), Some(1));
    assert_eq!(opcodes::lookup_constant(&cs("BINARY_OP_OR")), Some(5));
    assert_eq!(opcodes::lookup_constant(&cs("NOTHING")), None);
}

#[test]
fn disassemble_lines() {
    let bytes = vec![0x04, 0, 2, 0, 7, 0, 0, 0, 0xFF, 0, 0, 0, 0, 0, 0, 0];
    let lines = disassembler::disassemble(&bytes).unwrap();
    assert_eq!(lines.len(), 2);
    match &lines[0] {
        DisasmLine::Text(s) => assert_eq!(s, &format!("0x0000: {:<25}R2, 7", "OP_LOAD_CONST_INT")),
        other => panic!("unexpected {:?}", other),
    }
    match &lines[1] {
        DisasmLine::Text(s) => assert_eq!(s, &format!("0x0001: {:<25}", "OP_HALT")),
        other => panic!("unexpected {:?}", other),
    }
}

#[test]
fn disassemble_float_constant_is_left_for_its_text() {
    let bits = 1.5f32.to_bits().to_le_bytes();
    let bytes = vec![0x06, 0, 3, 0, bits[0], bits[1], bits[2], bits[3]];
    let lines = disassembler::disassemble(&bytes).unwrap();
    match &lines[0] {
        DisasmLine::FloatConst { dst_reg, bits: b, .. } => {
            assert_eq!(*dst_reg, 3);
            assert_eq!(f32::from_bits(*b), 1.5);
        }
        other => panic!("unexpected {:?}", other),
    }
}

#[test]
fn disassemble_rejects_partial_instruction() {
    assert!(matches!(disassembler::disassemble(&[1, 2, 3]), Err(DisasmError::BadLength)));
}

#[test]
fn assembled_walk_reads_back() {
    let bytes = assembler::assemble_source("OP_CSR_WALK R4, R1, REL_2\n").unwrap();
    let i = disassembler::decode_instr(&bytes, 0);
    assert_eq!(i.opcode, 0x10);
    assert_eq!(i.dst_reg, 4);
    assert_eq!(i.payload, 1 | (2 << 16));
    match &disassembler::disassemble(&bytes).unwrap()[0] {
        DisasmLine::Text(s) => assert_eq!(s, &format!("0x0000: {:<25}R4, R1, REL_2", "OP_CSR_WALK")),
        other => panic!("unexpected {:?}", other),
    }
}
