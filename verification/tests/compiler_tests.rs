use impulse_graph_tooling::compiler::{self, CompileError, LanguageTarget};

#[test]
fn test_compile_implog_to_impas() {
    let source = "can_view(U, D) :- member(U, G), group_parent(G, D).";
    let text_res = compiler::compile_script_to_impas(source, LanguageTarget::ImpLog);
    assert!(text_res.is_ok(), "compile ImpLog failed: {:?}", text_res);

    let text = text_res.unwrap();
    assert!(text.contains(".version"), "Assembly missing .version header: {}", text);
    assert!(text.contains("OP_CSR_WALK"), "Assembly missing OP_CSR_WALK: {}", text);
    assert!(text.contains("OP_HALT"), "Assembly missing OP_HALT: {}", text);
}

#[test]
fn test_compile_impscm_to_impas() {
    let source = "(csr-walk \"edge\")";
    let text_res = compiler::compile_to_impas(source);
    assert!(text_res.is_ok(), "compile ImpScheme failed: {:?}", text_res);

    let text = text_res.unwrap();
    assert!(text.contains(".version"), "Assembly missing .version header: {}", text);
    assert!(text.contains("OP_HALT"), "Assembly missing OP_HALT: {}", text);
}

#[test]
fn compile_empty_script_is_header_and_halt() {
    let text = compiler::compile_to_impas("").unwrap();
    assert_eq!(text, ".version 0.9.0\n.function main_query\n.frame 16\nOP_HALT\n");
}

#[test]
fn compile_define_query_lowers_let_walk_and_return() {
    let source = "(define-query (reach g start) (let ((f (g:walk-csr g start \"follows\"))) (return f)))";
    let text = compiler::compile_to_impas(source).unwrap();
    assert_eq!(
        text,
        ".version 0.9.0\n.function reach\n.frame 16\n\
         OP_CSR_WALK R2, R0, REL_FOLLOWS\n\
         OP_MOVE R63, R2\n\
         OP_LEAVE_FRAME\n\
         OP_HALT\n"
    );
}

#[test]
fn compile_constants_and_booleans() {
    let source = "(set! x 42) (set! y #t)";
    let text = compiler::compile_to_impas(source).unwrap();
    assert_eq!(
        text,
        ".version 0.9.0\n.function main_query\n.frame 16\n\
         OP_LOAD_CONST_INT R2, 42\n\
         OP_LOAD_CONST_INT R3, 1\n\
         OP_HALT\n"
    );
}

#[test]
fn compile_unbalanced_script_is_a_parse_error() {
    match compiler::compile_to_impas("(set! x 1") {
        Err(CompileError::Parse(e)) => assert_eq!(e.message, "Unexpected EOF while reading list"),
        other => panic!("expected a parse error, got {:?}", other),
    }
    match compiler::compile_to_impas(")") {
        Err(CompileError::Parse(e)) => assert_eq!(e.message, "Unexpected ')'"),
        other => panic!("expected a parse error, got {:?}", other),
    }
}

#[test]
fn library_holds_front_ends_for_impscheme_and_implog() {
    assert!(compiler::library_compiles(LanguageTarget::ImpScm));
    assert!(compiler::library_compiles(LanguageTarget::ImpLog));
    assert!(!compiler::library_compiles(LanguageTarget::ImpK));
    assert!(!compiler::library_compiles(LanguageTarget::Cypher));
    assert!(!compiler::library_compiles(LanguageTarget::Cel));
}

#[test]
fn variables_past_r62_are_refused() {
    let mut fits = String::new();
    for i in 0..61 {
        fits.push_str(&format!("(set! v{} 1)\n", i));
    }
    let text = compiler::compile_to_impas(&fits).unwrap();
    assert!(text.contains("OP_LOAD_CONST_INT R62, 1"));
    assert!(!text.contains("R63"));
    let mut over = fits.clone();
    over.push_str("(set! v61 1)\n");
    match compiler::compile_to_impas(&over) {
        Err(CompileError::Alloc(m)) => {
            assert_eq!(m, "Register allocation failed: variables would need registers beyond R62")
        }
        other => panic!("expected a register failure, got {:?}", other),
    }
    let mut q = String::from("(define-query (q g start)");
    for i in 1..=70 {
        q.push_str(&format!(" (set! v{} 1)", i));
    }
    q.push_str(" (return #t))");
    assert!(matches!(compiler::compile_to_impas(&q), Err(CompileError::Alloc(_))));
}

#[test]
fn script_language_follows_the_extension() {
    assert_eq!(compiler::target_for_extension(Some("impk")), LanguageTarget::ImpK);
    assert_eq!(compiler::target_for_extension(Some("implog")), LanguageTarget::ImpLog);
    assert_eq!(compiler::target_for_extension(Some("cypher")), LanguageTarget::Cypher);
    assert_eq!(compiler::target_for_extension(Some("cql")), LanguageTarget::Cypher);
    assert_eq!(compiler::target_for_extension(Some("scm")), LanguageTarget::ImpScm);
    assert_eq!(compiler::target_for_extension(None), LanguageTarget::ImpScm);
}

#[test]
fn checked_compilation() {
    assert!(compiler::try_compile_script_to_impas("(set! x \u{0B})", LanguageTarget::ImpScm).is_none());
    match compiler::try_compile_script_to_impas("(set! x 42)", LanguageTarget::ImpScm) {
        Some(Ok(text)) => assert!(text.contains("OP_LOAD_CONST_INT R2, 42")),
        other => panic!("unexpected {:?}", other),
    }
}

#[test]
fn compiled_programs_end_with_a_halt() {
    for src in ["", "(set! x 1)", "(return x)", "(define-query (q g s) (return s))"] {
        let text = compiler::compile_to_impas(src).unwrap();
        assert!(text.ends_with("\nOP_HALT\n"), "{}", text);
    }
    let text = compiler::compile_script_to_impas("a(X) :- b(X).", LanguageTarget::ImpLog).unwrap();
    assert!(text.ends_with("\nOP_HALT\n"), "{}", text);
}

#[test]
fn front_ends_give_expressions() {
    let es = compiler::parse_to_ir("(a b) c", LanguageTarget::ImpScm).unwrap();
    assert_eq!(es.len(), 2);
    assert!(matches!(compiler::parse_to_ir("(", LanguageTarget::ImpScm), Err(CompileError::Parse(_))));
}
