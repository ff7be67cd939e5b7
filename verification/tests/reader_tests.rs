use impulse_graph_tooling::implog;
use impulse_graph_tooling::passes;
use impulse_graph_tooling::reader::{self, Token};
use impulse_graph_tooling::sexpr::SExpr;

fn show(e: &SExpr) -> String {
    match e {
        SExpr::Symbol(s) => s.clone(),
        SExpr::Int(n) => n.to_string(),
        SExpr::Float(s) => format!("~{}", s),
        SExpr::Str(s) => format!("{:?}", s),
        SExpr::Bool(b) => if *b { "#t".to_string() } else { "#f".to_string() },
        SExpr::List(items) => format!("({})", items.iter().map(show).collect::<Vec<_>>().join(" ")),
    }
}

fn parse_one(src: &str) -> SExpr {
    let mut v = reader::parse(src).unwrap();
    assert_eq!(v.len(), 1);
    v.pop().unwrap()
}

#[test]
fn tokens_of_text() {
    let ts = reader::tokenize("(a \"b c\" ; note\n 12)").unwrap();
    let shown: Vec<String> = ts
        .iter()
        .map(|t| match t {
            Token::LParen => "(".to_string(),
            Token::RParen => ")".to_string(),
            Token::Atom(s) => s.clone(),
        })
        .collect();
    assert_eq!(shown, vec!["(", "a", "\"b c\"", "12", ")"]);
}

#[test]
fn unterminated_string_is_refused() {
    let e = reader::tokenize("(a \"b").unwrap_err();
    assert_eq!(e.message, "Unterminated string literal");
}

#[test]
fn atoms_by_kind() {
    let e = parse_one("(x -7 2.5 \"s\" #t false)");
    assert_eq!(show(&e), "(x -7 ~2.5 \"s\" #t #f)");
}

#[test]
fn several_expressions() {
    let v = reader::parse("(a (b c)) d").unwrap();
    assert_eq!(v.iter().map(show).collect::<Vec<_>>(), vec!["(a (b c))", "d"]);
}

#[test]
fn read_errors() {
    assert_eq!(reader::parse("(a").unwrap_err().message, "Unexpected EOF while reading list");
    assert_eq!(reader::parse("a)").unwrap_err().message, "Unexpected ')'");
}

#[test]
fn fusion_of_and_not() {
    let e = parse_one("(bitset:and a (bitset:not b))");
    let out = passes::vector_fusion(vec![e]);
    assert_eq!(show(&out[0]), "(bitset:and-not a b)");
}

#[test]
fn fusion_of_walk_and_filter() {
    let e = parse_one("(& (g:walk-csr g f \"r\") mask)");
    let out = passes::vector_fusion(vec![e]);
    assert_eq!(show(&out[0]), "(g:walk-csr-filtered g f \"r\" mask)");
}

#[test]
fn pruning_of_empty_sets() {
    let e = parse_one("(bitset:or (g:walk-csr g nil \"r\") x)");
    let out = passes::partition_elimination(vec![e]);
    assert_eq!(show(&out[0]), "x");
    let e = parse_one("(bitset:and a (bitset:empty))");
    let out = passes::partition_elimination(vec![e]);
    assert_eq!(show(&out[0]), "(bitset:empty)");
}

#[test]
fn implog_rule_becomes_walks() {
    let v = implog::parse("can_view(U, D) :- member(U, G), group_parent(G, D).").unwrap();
    let text: Vec<String> = v.iter().map(show).collect();
    let joined = text.join(" ");
    assert!(joined.contains("(set! U (g:walk-csr g frontier \"GROUP_PARENT\"))"), "{}", joined);
}

#[test]
fn implog_without_rules_walks_direct_members() {
    let v = implog::parse("% only a comment\n").unwrap();
    let joined = v.iter().map(show).collect::<Vec<_>>().join(" ");
    assert!(joined.contains("(set! frontier (g:walk-csr g frontier \"DIRECT_MEMBER\"))"), "{}", joined);
    assert!(joined.contains("(return #t)"), "{}", joined);
}

#[test]
fn implog_facts() {
    let chars: Vec<char> = "member(alice, admins)".chars().collect();
    let e = implog::parse_fact(&chars).unwrap();
    assert_eq!(show(&e), "(member alice admins)");
}

#[test]
fn printed_text_of_expressions() {
    let v = reader::parse("(a \"b\" -3 #t) x").unwrap();
    assert_eq!(impulse_graph_tooling::printer::print_ir(&v), "(a \"b\" -3 #t)\nx");
    let e = SExpr::List(vec![SExpr::Str("say \"hi\"\n".to_string()), SExpr::Bool(false), SExpr::List(vec![])]);
    assert_eq!(impulse_graph_tooling::printer::print_ir(&[e]), "(\"say \\\"hi\\\"\\n\" #f ())");
    assert_eq!(impulse_graph_tooling::printer::print_ir(&[]), "");
}

#[test]
fn text_that_never_finishes_reading_is_reported() {
    assert!(reader::try_tokenize("(a \u{0B} b)").is_none());
    assert!(reader::try_parse("\u{0C}").is_none());
    assert!(matches!(reader::try_parse("(a b)"), Some(Ok(v)) if v.len() == 1));
    assert!(matches!(reader::try_parse("(a"), Some(Err(_))));
}
