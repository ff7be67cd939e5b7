use impulse_graph_tooling::compiler;

#[test]
fn test_prim_csr_walk() {
    let source = "(csr-walk \"FOLLOWS\")";
    let text = compiler::compile_to_impas(source).expect("Failed to compile CSR walk primitive");
    assert!(text.contains("OP_CSR_WALK") || text.contains("OP_HALT"), "Missing expected opcode: {}", text);
}

#[test]
fn test_prim_csc_walk() {
    let source = "(csc-walk \"FOLLOWS\")";
    let text = compiler::compile_to_impas(source).expect("Failed to compile CSC walk primitive");
    assert!(text.contains("OP_CSC_WALK") || text.contains("OP_HALT"), "Missing expected opcode: {}", text);
}
