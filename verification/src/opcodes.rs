//! The instruction set: opcode names and numbers, and the named constants
//! (semirings and binary operators) that instruction operands may use.
use vstd::prelude::*;
use crate::text::{
    copy_range, eq_str, parse_unsigned, parse_unsigned_exec, starts_with, starts_with_str, trim,
    trim_chars, upper, upper_exec,
};

verus! {

/// The opcode number that the assembler gives an instruction name.
pub open spec fn opcode_of(name: Seq<char>) -> Option<u8> {
    if name == "OP_HALT"@ {
        Some(0x00u8)
    } else if name == "OP_NOP"@ {
        Some(0x01u8)
    } else if name == "OP_INIT_INPUT_NODE"@ {
        Some(0x02u8)
    } else if name == "OP_INIT_INPUT_SET"@ {
        Some(0x03u8)
    } else if name == "OP_LOAD_CONST_INT"@ {
        Some(0x04u8)
    } else if name == "OP_MAP_KEYS_TO_DENSE"@ {
        Some(0x05u8)
    } else if name == "OP_LOAD_CONST_FLOAT"@ {
        Some(0x06u8)
    } else if name == "OP_LOAD_CONST_STR_PREFIX"@ {
        Some(0x07u8)
    } else if name == "OP_LOAD_INLINE_ARRAY"@ {
        Some(0x08u8)
    } else if name == "OP_INIT_MOCK_GRAPH"@ {
        Some(0x09u8)
    } else if name == "OP_CSR_WALK"@ {
        Some(0x10u8)
    } else if name == "OP_CSR_WALK_FILTERED"@ {
        Some(0x11u8)
    } else if name == "OP_CSR_DEGREE"@ {
        Some(0x12u8)
    } else if name == "OP_CSR_WALK_PREDICATE"@ {
        Some(0x13u8)
    } else if name == "OP_NODE_FILTER"@ {
        Some(0x14u8)
    } else if name == "OP_NODE_FILTER_STR_PREFIX"@ {
        Some(0x15u8)
    } else if name == "OP_CSR_WALK_REDUCE_SUM"@ {
        Some(0x16u8)
    } else if name == "OP_CSR_WALK_REDUCE"@ {
        Some(0x17u8)
    } else if name == "OP_CSC_WALK"@ {
        Some(0x18u8)
    } else if name == "OP_HAS_CSR"@ {
        Some(0x19u8)
    } else if name == "OP_HAS_CSC"@ {
        Some(0x1Au8)
    } else if name == "OP_HAS_COO"@ {
        Some(0x1Bu8)
    } else if name == "OP_HAS_KEY_CATALOG"@ {
        Some(0x1Cu8)
    } else if name == "OP_SET_UNION"@ {
        Some(0x30u8)
    } else if name == "OP_SET_INTERSECT"@ {
        Some(0x31u8)
    } else if name == "OP_SET_DIFFERENCE"@ {
        Some(0x32u8)
    } else if name == "OP_SET_CARDINALITY"@ {
        Some(0x33u8)
    } else if name == "OP_VECTOR_MUL_ATTR"@ {
        Some(0x34u8)
    } else if name == "OP_VECTOR_REDUCE_SUM"@ {
        Some(0x35u8)
    } else if name == "OP_VECTOR_DIV"@ {
        Some(0x36u8)
    } else if name == "OP_VECTOR_STR_CONCAT"@ {
        Some(0x37u8)
    } else if name == "OP_FLOAT_VECTOR_SCALE"@ {
        Some(0x38u8)
    } else if name == "OP_L1_NORM_DIFF"@ {
        Some(0x39u8)
    } else if name == "OP_CC_AFFOREST"@ {
        Some(0x40u8)
    } else if name == "OP_MXV"@ {
        Some(0x41u8)
    } else if name == "OP_VXM"@ {
        Some(0x42u8)
    } else if name == "OP_EWISE_ADD"@ {
        Some(0x43u8)
    } else if name == "OP_EWISE_MULT"@ {
        Some(0x44u8)
    } else if name == "OP_REDUCE"@ {
        Some(0x45u8)
    } else if name == "OP_CC_HOOK_COMPRESS"@ {
        Some(0x46u8)
    } else if name == "OP_TC_SWEEP_BATCH"@ {
        Some(0x47u8)
    } else if name == "OP_BRANDES_FORWARD"@ {
        Some(0x48u8)
    } else if name == "OP_BRANDES_BACKWARD"@ {
        Some(0x49u8)
    } else if name == "OP_DELTA_STEP_RELAX"@ {
        Some(0x4Au8)
    } else if name == "OP_READ_EDGE_WEIGHT"@ {
        Some(0x4Bu8)
    } else if name == "OP_JMP"@ {
        Some(0x50u8)
    } else if name == "OP_JZ"@ {
        Some(0x51u8)
    } else if name == "OP_JNZ"@ {
        Some(0x52u8)
    } else if name == "OP_LOOP_DECR"@ {
        Some(0x53u8)
    } else if name == "OP_STABLE_CHECK"@ {
        Some(0x54u8)
    } else if name == "OP_CALL"@ {
        Some(0x55u8)
    } else if name == "OP_RET"@ {
        Some(0x56u8)
    } else if name == "OP_ENTER_FRAME"@ {
        Some(0x57u8)
    } else if name == "OP_LEAVE_FRAME"@ {
        Some(0x58u8)
    } else if name == "OP_THROW"@ {
        Some(0x5Au8)
    } else if name == "OP_ASSERT"@ {
        Some(0x5Bu8)
    } else if name == "OP_TRAP"@ {
        Some(0x5Cu8)
    } else if name == "OP_SAMPLE_NEIGHBORS"@ {
        Some(0x60u8)
    } else if name == "OP_RANDOM_WALK"@ {
        Some(0x61u8)
    } else if name == "OP_SCATTER_GATHER"@ {
        Some(0x62u8)
    } else if name == "OP_REBAC_CHECK"@ {
        Some(0x63u8)
    } else if name == "OP_ROARING_BITMAP_AND"@ {
        Some(0x64u8)
    } else if name == "OP_ISLAND_DETECT"@ {
        Some(0x65u8)
    } else if name == "OP_SPARSE_MATVEC"@ {
        Some(0x66u8)
    } else if name == "OP_LOUVAIN_MODULARITY"@ {
        Some(0x67u8)
    } else if name == "OP_KCORE_DECOMPOSITION"@ {
        Some(0x68u8)
    } else if name == "OP_MOTIF_MATCH_3"@ {
        Some(0x69u8)
    } else if name == "OP_GRAPH_ISOMORPHISM"@ {
        Some(0x6Au8)
    } else if name == "OP_ROARING_BITMAP_OR"@ {
        Some(0x6Bu8)
    } else if name == "OP_ROARING_BITMAP_AND_NOT"@ {
        Some(0x6Cu8)
    } else if name == "OP_MOV"@ || name == "OP_MOVE"@ {
        Some(0x70u8)
    } else if name == "OP_CLEAR_REG"@ {
        Some(0x71u8)
    } else if name == "OP_LOAD_INDIRECT"@ {
        Some(0x72u8)
    } else if name == "OP_ALLOC_SCRATCH"@ {
        Some(0x73u8)
    } else if name == "OP_ASSERT_SCRATCH_BYTES"@ {
        Some(0x74u8)
    } else if name == "OP_SET_MAX_DOP"@ {
        Some(0x75u8)
    } else if name == "OP_COLLECT_BITSET"@ {
        Some(0x90u8)
    } else if name == "OP_COLLECT_ARRAY"@ {
        Some(0x91u8)
    } else if name == "OP_MAP_DENSE_TO_KEYS"@ {
        Some(0x92u8)
    } else if name == "OP_COLLECT_VALUE_MAP"@ {
        Some(0x93u8)
    } else if starts_with(name, "OP_RESERVED_"@) {
        match parse_unsigned(name.skip(12), 16, 255) {
            Some(v) => Some(v as u8),
            None => None,
        }
    } else {
        None
    }
}

/// `get_opcode`: the opcode number of an instruction name, `OP_RESERVED_<hex>`
/// naming an opcode by its hexadecimal number.
pub fn get_opcode(name: &[char]) -> (r: Option<u8>)
    ensures
        r == opcode_of(name@),
{
    if eq_str(name, "OP_HALT") {
        return Some(0x00);
    }
    if eq_str(name, "OP_NOP") {
        return Some(0x01);
    }
    if eq_str(name, "OP_INIT_INPUT_NODE") {
        return Some(0x02);
    }
    if eq_str(name, "OP_INIT_INPUT_SET") {
        return Some(0x03);
    }
    if eq_str(name, "OP_LOAD_CONST_INT") {
        return Some(0x04);
    }
    if eq_str(name, "OP_MAP_KEYS_TO_DENSE") {
        return Some(0x05);
    }
    if eq_str(name, "OP_LOAD_CONST_FLOAT") {
        return Some(0x06);
    }
    if eq_str(name, "OP_LOAD_CONST_STR_PREFIX") {
        return Some(0x07);
    }
    if eq_str(name, "OP_LOAD_INLINE_ARRAY") {
        return Some(0x08);
    }
    if eq_str(name, "OP_INIT_MOCK_GRAPH") {
        return Some(0x09);
    }
    if eq_str(name, "OP_CSR_WALK") {
        return Some(0x10);
    }
    if eq_str(name, "OP_CSR_WALK_FILTERED") {
        return Some(0x11);
    }
    if eq_str(name, "OP_CSR_DEGREE") {
        return Some(0x12);
    }
    if eq_str(name, "OP_CSR_WALK_PREDICATE") {
        return Some(0x13);
    }
    if eq_str(name, "OP_NODE_FILTER") {
        return Some(0x14);
    }
    if eq_str(name, "OP_NODE_FILTER_STR_PREFIX") {
        return Some(0x15);
    }
    if eq_str(name, "OP_CSR_WALK_REDUCE_SUM") {
        return Some(0x16);
    }
    if eq_str(name, "OP_CSR_WALK_REDUCE") {
        return Some(0x17);
    }
    if eq_str(name, "OP_CSC_WALK") {
        return Some(0x18);
    }
    if eq_str(name, "OP_HAS_CSR") {
        return Some(0x19);
    }
    if eq_str(name, "OP_HAS_CSC") {
        return Some(0x1A);
    }
    if eq_str(name, "OP_HAS_COO") {
        return Some(0x1B);
    }
    if eq_str(name, "OP_HAS_KEY_CATALOG") {
        return Some(0x1C);
    }
    if eq_str(name, "OP_SET_UNION") {
        return Some(0x30);
    }
    if eq_str(name, "OP_SET_INTERSECT") {
        return Some(0x31);
    }
    if eq_str(name, "OP_SET_DIFFERENCE") {
        return Some(0x32);
    }
    if eq_str(name, "OP_SET_CARDINALITY") {
        return Some(0x33);
    }
    if eq_str(name, "OP_VECTOR_MUL_ATTR") {
        return Some(0x34);
    }
    if eq_str(name, "OP_VECTOR_REDUCE_SUM") {
        return Some(0x35);
    }
    if eq_str(name, "OP_VECTOR_DIV") {
        return Some(0x36);
    }
    if eq_str(name, "OP_VECTOR_STR_CONCAT") {
        return Some(0x37);
    }
    if eq_str(name, "OP_FLOAT_VECTOR_SCALE") {
        return Some(0x38);
    }
    if eq_str(name, "OP_L1_NORM_DIFF") {
        return Some(0x39);
    }
    if eq_str(name, "OP_CC_AFFOREST") {
        return Some(0x40);
    }
    if eq_str(name, "OP_MXV") {
        return Some(0x41);
    }
    if eq_str(name, "OP_VXM") {
        return Some(0x42);
    }
    if eq_str(name, "OP_EWISE_ADD") {
        return Some(0x43);
    }
    if eq_str(name, "OP_EWISE_MULT") {
        return Some(0x44);
    }
    if eq_str(name, "OP_REDUCE") {
        return Some(0x45);
    }
    if eq_str(name, "OP_CC_HOOK_COMPRESS") {
        return Some(0x46);
    }
    if eq_str(name, "OP_TC_SWEEP_BATCH") {
        return Some(0x47);
    }
    if eq_str(name, "OP_BRANDES_FORWARD") {
        return Some(0x48);
    }
    if eq_str(name, "OP_BRANDES_BACKWARD") {
        return Some(0x49);
    }
    if eq_str(name, "OP_DELTA_STEP_RELAX") {
        return Some(0x4A);
    }
    if eq_str(name, "OP_READ_EDGE_WEIGHT") {
        return Some(0x4B);
    }
    if eq_str(name, "OP_JMP") {
        return Some(0x50);
    }
    if eq_str(name, "OP_JZ") {
        return Some(0x51);
    }
    if eq_str(name, "OP_JNZ") {
        return Some(0x52);
    }
    if eq_str(name, "OP_LOOP_DECR") {
        return Some(0x53);
    }
    if eq_str(name, "OP_STABLE_CHECK") {
        return Some(0x54);
    }
    if eq_str(name, "OP_CALL") {
        return Some(0x55);
    }
    if eq_str(name, "OP_RET") {
        return Some(0x56);
    }
    if eq_str(name, "OP_ENTER_FRAME") {
        return Some(0x57);
    }
    if eq_str(name, "OP_LEAVE_FRAME") {
        return Some(0x58);
    }
    if eq_str(name, "OP_THROW") {
        return Some(0x5A);
    }
    if eq_str(name, "OP_ASSERT") {
        return Some(0x5B);
    }
    if eq_str(name, "OP_TRAP") {
        return Some(0x5C);
    }
    if eq_str(name, "OP_SAMPLE_NEIGHBORS") {
        return Some(0x60);
    }
    if eq_str(name, "OP_RANDOM_WALK") {
        return Some(0x61);
    }
    if eq_str(name, "OP_SCATTER_GATHER") {
        return Some(0x62);
    }
    if eq_str(name, "OP_REBAC_CHECK") {
        return Some(0x63);
    }
    if eq_str(name, "OP_ROARING_BITMAP_AND") {
        return Some(0x64);
    }
    if eq_str(name, "OP_ISLAND_DETECT") {
        return Some(0x65);
    }
    if eq_str(name, "OP_SPARSE_MATVEC") {
        return Some(0x66);
    }
    if eq_str(name, "OP_LOUVAIN_MODULARITY") {
        return Some(0x67);
    }
    if eq_str(name, "OP_KCORE_DECOMPOSITION") {
        return Some(0x68);
    }
    if eq_str(name, "OP_MOTIF_MATCH_3") {
        return Some(0x69);
    }
    if eq_str(name, "OP_GRAPH_ISOMORPHISM") {
        return Some(0x6A);
    }
    if eq_str(name, "OP_ROARING_BITMAP_OR") {
        return Some(0x6B);
    }
    if eq_str(name, "OP_ROARING_BITMAP_AND_NOT") {
        return Some(0x6C);
    }
    if eq_str(name, "OP_MOV") || eq_str(name, "OP_MOVE") {
        return Some(0x70);
    }
    if eq_str(name, "OP_CLEAR_REG") {
        return Some(0x71);
    }
    if eq_str(name, "OP_LOAD_INDIRECT") {
        return Some(0x72);
    }
    if eq_str(name, "OP_ALLOC_SCRATCH") {
        return Some(0x73);
    }
    if eq_str(name, "OP_ASSERT_SCRATCH_BYTES") {
        return Some(0x74);
    }
    if eq_str(name, "OP_SET_MAX_DOP") {
        return Some(0x75);
    }
    if eq_str(name, "OP_COLLECT_BITSET") {
        return Some(0x90);
    }
    if eq_str(name, "OP_COLLECT_ARRAY") {
        return Some(0x91);
    }
    if eq_str(name, "OP_MAP_DENSE_TO_KEYS") {
        return Some(0x92);
    }
    if eq_str(name, "OP_COLLECT_VALUE_MAP") {
        return Some(0x93);
    }
    if starts_with_str(name, "OP_RESERVED_") {
        proof {
            reveal_strlit("OP_RESERVED_");
        }
        assert("OP_RESERVED_"@.len() == 12);
        let hex = copy_range(name, 12, name.len());
        assert(hex@ =~= name@.skip(12));
        return match parse_unsigned_exec(hex.as_slice(), 16, 255) {
            Some(v) => Some(v as u8),
            None => None,
        };
    }
    None
}

/// The name under which the disassembler prints an opcode number: the
/// name the assembler gives that number (`OP_MOV` for the move, which the
/// assembler also reads as `OP_MOVE`), `OP_HALT` for `0xFF` as well, and
/// `OP_UNKNOWN` for a number no name stands for.
pub open spec fn opcode_name(opcode: u8) -> Seq<char> {
    if opcode == 0x00u8 {
        "OP_HALT"@
    } else if opcode == 0x01u8 {
        "OP_NOP"@
    } else if opcode == 0x02u8 {
        "OP_INIT_INPUT_NODE"@
    } else if opcode == 0x03u8 {
        "OP_INIT_INPUT_SET"@
    } else if opcode == 0x04u8 {
        "OP_LOAD_CONST_INT"@
    } else if opcode == 0x05u8 {
        "OP_MAP_KEYS_TO_DENSE"@
    } else if opcode == 0x06u8 {
        "OP_LOAD_CONST_FLOAT"@
    } else if opcode == 0x07u8 {
        "OP_LOAD_CONST_STR_PREFIX"@
    } else if opcode == 0x08u8 {
        "OP_LOAD_INLINE_ARRAY"@
    } else if opcode == 0x09u8 {
        "OP_INIT_MOCK_GRAPH"@
    } else if opcode == 0x10u8 {
        "OP_CSR_WALK"@
    } else if opcode == 0x11u8 {
        "OP_CSR_WALK_FILTERED"@
    } else if opcode == 0x12u8 {
        "OP_CSR_DEGREE"@
    } else if opcode == 0x13u8 {
        "OP_CSR_WALK_PREDICATE"@
    } else if opcode == 0x14u8 {
        "OP_NODE_FILTER"@
    } else if opcode == 0x15u8 {
        "OP_NODE_FILTER_STR_PREFIX"@
    } else if opcode == 0x16u8 {
        "OP_CSR_WALK_REDUCE_SUM"@
    } else if opcode == 0x17u8 {
        "OP_CSR_WALK_REDUCE"@
    } else if opcode == 0x18u8 {
        "OP_CSC_WALK"@
    } else if opcode == 0x19u8 {
        "OP_HAS_CSR"@
    } else if opcode == 0x1Au8 {
        "OP_HAS_CSC"@
    } else if opcode == 0x1Bu8 {
        "OP_HAS_COO"@
    } else if opcode == 0x1Cu8 {
        "OP_HAS_KEY_CATALOG"@
    } else if opcode == 0x30u8 {
        "OP_SET_UNION"@
    } else if opcode == 0x31u8 {
        "OP_SET_INTERSECT"@
    } else if opcode == 0x32u8 {
        "OP_SET_DIFFERENCE"@
    } else if opcode == 0x33u8 {
        "OP_SET_CARDINALITY"@
    } else if opcode == 0x34u8 {
        "OP_VECTOR_MUL_ATTR"@
    } else if opcode == 0x35u8 {
        "OP_VECTOR_REDUCE_SUM"@
    } else if opcode == 0x36u8 {
        "OP_VECTOR_DIV"@
    } else if opcode == 0x37u8 {
        "OP_VECTOR_STR_CONCAT"@
    } else if opcode == 0x38u8 {
        "OP_FLOAT_VECTOR_SCALE"@
    } else if opcode == 0x39u8 {
        "OP_L1_NORM_DIFF"@
    } else if opcode == 0x40u8 {
        "OP_CC_AFFOREST"@
    } else if opcode == 0x41u8 {
        "OP_MXV"@
    } else if opcode == 0x42u8 {
        "OP_VXM"@
    } else if opcode == 0x43u8 {
        "OP_EWISE_ADD"@
    } else if opcode == 0x44u8 {
        "OP_EWISE_MULT"@
    } else if opcode == 0x45u8 {
        "OP_REDUCE"@
    } else if opcode == 0x46u8 {
        "OP_CC_HOOK_COMPRESS"@
    } else if opcode == 0x47u8 {
        "OP_TC_SWEEP_BATCH"@
    } else if opcode == 0x48u8 {
        "OP_BRANDES_FORWARD"@
    } else if opcode == 0x49u8 {
        "OP_BRANDES_BACKWARD"@
    } else if opcode == 0x4Au8 {
        "OP_DELTA_STEP_RELAX"@
    } else if opcode == 0x4Bu8 {
        "OP_READ_EDGE_WEIGHT"@
    } else if opcode == 0x50u8 {
        "OP_JMP"@
    } else if opcode == 0x51u8 {
        "OP_JZ"@
    } else if opcode == 0x52u8 {
        "OP_JNZ"@
    } else if opcode == 0x53u8 {
        "OP_LOOP_DECR"@
    } else if opcode == 0x54u8 {
        "OP_STABLE_CHECK"@
    } else if opcode == 0x55u8 {
        "OP_CALL"@
    } else if opcode == 0x56u8 {
        "OP_RET"@
    } else if opcode == 0x57u8 {
        "OP_ENTER_FRAME"@
    } else if opcode == 0x58u8 {
        "OP_LEAVE_FRAME"@
    } else if opcode == 0x5Au8 {
        "OP_THROW"@
    } else if opcode == 0x5Bu8 {
        "OP_ASSERT"@
    } else if opcode == 0x5Cu8 {
        "OP_TRAP"@
    } else if opcode == 0x60u8 {
        "OP_SAMPLE_NEIGHBORS"@
    } else if opcode == 0x61u8 {
        "OP_RANDOM_WALK"@
    } else if opcode == 0x62u8 {
        "OP_SCATTER_GATHER"@
    } else if opcode == 0x63u8 {
        "OP_REBAC_CHECK"@
    } else if opcode == 0x64u8 {
        "OP_ROARING_BITMAP_AND"@
    } else if opcode == 0x65u8 {
        "OP_ISLAND_DETECT"@
    } else if opcode == 0x66u8 {
        "OP_SPARSE_MATVEC"@
    } else if opcode == 0x67u8 {
        "OP_LOUVAIN_MODULARITY"@
    } else if opcode == 0x68u8 {
        "OP_KCORE_DECOMPOSITION"@
    } else if opcode == 0x69u8 {
        "OP_MOTIF_MATCH_3"@
    } else if opcode == 0x6Au8 {
        "OP_GRAPH_ISOMORPHISM"@
    } else if opcode == 0x6Bu8 {
        "OP_ROARING_BITMAP_OR"@
    } else if opcode == 0x6Cu8 {
        "OP_ROARING_BITMAP_AND_NOT"@
    } else if opcode == 0x70u8 {
        "OP_MOV"@
    } else if opcode == 0x71u8 {
        "OP_CLEAR_REG"@
    } else if opcode == 0x72u8 {
        "OP_LOAD_INDIRECT"@
    } else if opcode == 0x73u8 {
        "OP_ALLOC_SCRATCH"@
    } else if opcode == 0x74u8 {
        "OP_ASSERT_SCRATCH_BYTES"@
    } else if opcode == 0x75u8 {
        "OP_SET_MAX_DOP"@
    } else if opcode == 0x90u8 {
        "OP_COLLECT_BITSET"@
    } else if opcode == 0x91u8 {
        "OP_COLLECT_ARRAY"@
    } else if opcode == 0x92u8 {
        "OP_MAP_DENSE_TO_KEYS"@
    } else if opcode == 0x93u8 {
        "OP_COLLECT_VALUE_MAP"@
    } else if opcode == 0xFFu8 {
        "OP_HALT"@
    } else {
        "OP_UNKNOWN"@
    }
}

/// `get_opcode_name`: the disassembler's name of an opcode number.
pub fn get_opcode_name(opcode: u8) -> (r: &'static str)
    ensures
        r@ == opcode_name(opcode),
{
    match opcode {
        0x00 => "OP_HALT",
        0x01 => "OP_NOP",
        0x02 => "OP_INIT_INPUT_NODE",
        0x03 => "OP_INIT_INPUT_SET",
        0x04 => "OP_LOAD_CONST_INT",
        0x05 => "OP_MAP_KEYS_TO_DENSE",
        0x06 => "OP_LOAD_CONST_FLOAT",
        0x07 => "OP_LOAD_CONST_STR_PREFIX",
        0x08 => "OP_LOAD_INLINE_ARRAY",
        0x09 => "OP_INIT_MOCK_GRAPH",
        0x10 => "OP_CSR_WALK",
        0x11 => "OP_CSR_WALK_FILTERED",
        0x12 => "OP_CSR_DEGREE",
        0x13 => "OP_CSR_WALK_PREDICATE",
        0x14 => "OP_NODE_FILTER",
        0x15 => "OP_NODE_FILTER_STR_PREFIX",
        0x16 => "OP_CSR_WALK_REDUCE_SUM",
        0x17 => "OP_CSR_WALK_REDUCE",
        0x18 => "OP_CSC_WALK",
        0x19 => "OP_HAS_CSR",
        0x1A => "OP_HAS_CSC",
        0x1B => "OP_HAS_COO",
        0x1C => "OP_HAS_KEY_CATALOG",
        0x30 => "OP_SET_UNION",
        0x31 => "OP_SET_INTERSECT",
        0x32 => "OP_SET_DIFFERENCE",
        0x33 => "OP_SET_CARDINALITY",
        0x34 => "OP_VECTOR_MUL_ATTR",
        0x35 => "OP_VECTOR_REDUCE_SUM",
        0x36 => "OP_VECTOR_DIV",
        0x37 => "OP_VECTOR_STR_CONCAT",
        0x38 => "OP_FLOAT_VECTOR_SCALE",
        0x39 => "OP_L1_NORM_DIFF",
        0x40 => "OP_CC_AFFOREST",
        0x41 => "OP_MXV",
        0x42 => "OP_VXM",
        0x43 => "OP_EWISE_ADD",
        0x44 => "OP_EWISE_MULT",
        0x45 => "OP_REDUCE",
        0x46 => "OP_CC_HOOK_COMPRESS",
        0x47 => "OP_TC_SWEEP_BATCH",
        0x48 => "OP_BRANDES_FORWARD",
        0x49 => "OP_BRANDES_BACKWARD",
        0x4A => "OP_DELTA_STEP_RELAX",
        0x4B => "OP_READ_EDGE_WEIGHT",
        0x50 => "OP_JMP",
        0x51 => "OP_JZ",
        0x52 => "OP_JNZ",
        0x53 => "OP_LOOP_DECR",
        0x54 => "OP_STABLE_CHECK",
        0x55 => "OP_CALL",
        0x56 => "OP_RET",
        0x57 => "OP_ENTER_FRAME",
        0x58 => "OP_LEAVE_FRAME",
        0x5A => "OP_THROW",
        0x5B => "OP_ASSERT",
        0x5C => "OP_TRAP",
        0x60 => "OP_SAMPLE_NEIGHBORS",
        0x61 => "OP_RANDOM_WALK",
        0x62 => "OP_SCATTER_GATHER",
        0x63 => "OP_REBAC_CHECK",
        0x64 => "OP_ROARING_BITMAP_AND",
        0x65 => "OP_ISLAND_DETECT",
        0x66 => "OP_SPARSE_MATVEC",
        0x67 => "OP_LOUVAIN_MODULARITY",
        0x68 => "OP_KCORE_DECOMPOSITION",
        0x69 => "OP_MOTIF_MATCH_3",
        0x6A => "OP_GRAPH_ISOMORPHISM",
        0x6B => "OP_ROARING_BITMAP_OR",
        0x6C => "OP_ROARING_BITMAP_AND_NOT",
        0x70 => "OP_MOV",
        0x71 => "OP_CLEAR_REG",
        0x72 => "OP_LOAD_INDIRECT",
        0x73 => "OP_ALLOC_SCRATCH",
        0x74 => "OP_ASSERT_SCRATCH_BYTES",
        0x75 => "OP_SET_MAX_DOP",
        0x90 => "OP_COLLECT_BITSET",
        0x91 => "OP_COLLECT_ARRAY",
        0x92 => "OP_MAP_DENSE_TO_KEYS",
        0x93 => "OP_COLLECT_VALUE_MAP",
        0xFF => "OP_HALT",
        _ => "OP_UNKNOWN",
    }
}

/// A mnemonic of the instruction set in its own spelling: a name the
/// assembler reads, other than the spelling `OP_MOVE` of `OP_MOV` and the
/// numeric `OP_RESERVED_<hex>` names.
pub open spec fn is_canonical_mnemonic(name: Seq<char>) -> bool {
    &&& opcode_of(name) is Some
    &&& name != "OP_MOVE"@
    &&& !starts_with(name, "OP_RESERVED_"@)
}

/// Disassembling gives back the mnemonic: the name of the number the
/// assembler gives a canonical mnemonic is that mnemonic.
pub proof fn law_names_invert_the_assembler(name: Seq<char>)
    requires
        is_canonical_mnemonic(name),
    ensures
        opcode_name(opcode_of(name)->Some_0) == name,
{
}

/// Name of a semiring number.
pub open spec fn semiring_name(id: u32) -> Seq<char> {
    if id == 0 {
        "SEMIRING_PLUS_TIMES"@
    } else if id == 1 {
        "SEMIRING_MIN_PLUS"@
    } else if id == 2 {
        "SEMIRING_MAX_MIN"@
    } else if id == 3 {
        "SEMIRING_BOOL"@
    } else {
        "SEMIRING_UNKNOWN"@
    }
}

pub fn get_semiring_name(id: u32) -> (r: &'static str)
    ensures
        r@ == semiring_name(id),
{
    match id {
        0 => "SEMIRING_PLUS_TIMES",
        1 => "SEMIRING_MIN_PLUS",
        2 => "SEMIRING_MAX_MIN",
        3 => "SEMIRING_BOOL",
        _ => "SEMIRING_UNKNOWN",
    }
}

/// Name of a binary operator number.
pub open spec fn binary_op_name(id: u32) -> Seq<char> {
    if id == 0 {
        "BINARY_OP_ADD"@
    } else if id == 1 {
        "BINARY_OP_MUL"@
    } else if id == 2 {
        "BINARY_OP_MIN"@
    } else if id == 3 {
        "BINARY_OP_MAX"@
    } else if id == 4 {
        "BINARY_OP_AND"@
    } else if id == 5 {
        "BINARY_OP_OR"@
    } else {
        "BINARY_OP_UNKNOWN"@
    }
}

pub fn get_binary_op_name(id: u32) -> (r: &'static str)
    ensures
        r@ == binary_op_name(id),
{
    match id {
        0 => "BINARY_OP_ADD",
        1 => "BINARY_OP_MUL",
        2 => "BINARY_OP_MIN",
        3 => "BINARY_OP_MAX",
        4 => "BINARY_OP_AND",
        5 => "BINARY_OP_OR",
        _ => "BINARY_OP_UNKNOWN",
    }
}

/// The number of a named operand constant, compared after trimming and
/// upper-casing.
pub open spec fn constant_value(key: Seq<char>) -> Option<u32> {
    if key == "SEMIRING_PLUS_TIMES"@ {
        Some(0)
    } else if key == "SEMIRING_MIN_PLUS"@ {
        Some(1)
    } else if key == "SEMIRING_MAX_MIN"@ {
        Some(2)
    } else if key == "SEMIRING_BOOL"@ {
        Some(3)
    } else if key == "BINARY_OP_ADD"@ {
        Some(0)
    } else if key == "BINARY_OP_MUL"@ {
        Some(1)
    } else if key == "BINARY_OP_MIN"@ {
        Some(2)
    } else if key == "BINARY_OP_MAX"@ {
        Some(3)
    } else if key == "BINARY_OP_AND"@ {
        Some(4)
    } else if key == "BINARY_OP_OR"@ {
        Some(5)
    } else {
        None
    }
}

/// `lookup_constant`.
pub open spec fn lookup_constant_spec(s: Seq<char>) -> Option<u32> {
    constant_value(upper(trim(s)))
}

pub fn lookup_constant(s: &[char]) -> (r: Option<u32>)
    ensures
        r == lookup_constant_spec(s@),
{
    let t = trim_chars(s);
    let k = upper_exec(t.as_slice());
    let k = k.as_slice();
    if eq_str(k, "SEMIRING_PLUS_TIMES") {
        Some(0)
    } else if eq_str(k, "SEMIRING_MIN_PLUS") {
        Some(1)
    } else if eq_str(k, "SEMIRING_MAX_MIN") {
        Some(2)
    } else if eq_str(k, "SEMIRING_BOOL") {
        Some(3)
    } else if eq_str(k, "BINARY_OP_ADD") {
        Some(0)
    } else if eq_str(k, "BINARY_OP_MUL") {
        Some(1)
    } else if eq_str(k, "BINARY_OP_MIN") {
        Some(2)
    } else if eq_str(k, "BINARY_OP_MAX") {
        Some(3)
    } else if eq_str(k, "BINARY_OP_AND") {
        Some(4)
    } else if eq_str(k, "BINARY_OP_OR") {
        Some(5)
    } else {
        None
    }
}

} // verus!
