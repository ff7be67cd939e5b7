use impulse_graph_tooling::report::{self, HeaderFacts};

#[test]
fn hex_fields() {
    assert_eq!(report::hex_text(0x494D5053, 8), "0x494D5053");
    assert_eq!(report::hex_text(9, 4), "0x0009");
    assert_eq!(report::hex_text(0x1F, 2), "0x1F");
    assert_eq!(report::hex_text(0x12345, 2), "0x12345");
}

#[test]
fn required_features_line() {
    assert_eq!(report::format_required_features(0, 1, 2), "0x0000000000000000 []");
    assert_eq!(report::format_required_features(1, 1, 2), "0x0000000000000001 [4KB_PAGE_ALIGNED]");
    assert_eq!(report::format_required_features(2, 1, 2), "0x0000000000000002 [CRYPTO_SIGNED]");
    assert_eq!(
        report::format_required_features(0xF3, 1, 2),
        "0x00000000000000F3 [4KB_PAGE_ALIGNED, CRYPTO_SIGNED]"
    );
}

#[test]
fn relation_labels() {
    assert_eq!(report::relation_label("FOLLOWS", 0, 1), "FOLLOWS");
    assert_eq!(report::relation_label("", 3, 12), "rel_3_12");
}

#[test]
fn header_comparison() {
    let b = HeaderFacts { magic: 0x494D5053, version: 9, domain_count: 3, relation_count: 2 };
    let t = HeaderFacts { magic: 0x494D5053, version: 10, domain_count: 3, relation_count: 1 };
    let rows = report::header_rows(b, t);
    let shown: Vec<(String, String, String, String)> =
        rows.into_iter().map(|r| (r.label, r.base, r.target, r.last)).collect();
    let s = |a: &str, b: &str, c: &str, d: &str| (a.to_string(), b.to_string(), c.to_string(), d.to_string());
    assert_eq!(
        shown,
        vec![
            s("Magic", "0x494D5053", "0x494D5053", "YES"),
            s("Version", "0x0009", "0x000A", "NO"),
            s("Domain Count", "3", "3", "YES"),
            s("Relation Count", "2", "1", "NO"),
        ]
    );
}

#[test]
fn topology_comparison() {
    let rows = report::topology_rows(&[(10, 100), (5, 7)], &[(10, 90), (6, 7), (2, 3)]);
    let shown: Vec<Vec<String>> = rows
        .into_iter()
        .map(|r| vec![r.id, r.base_nodes, r.target_nodes, r.base_edges, r.target_edges, r.delta_edges])
        .collect();
    let row = |v: [&str; 6]| v.iter().map(|x| x.to_string()).collect::<Vec<String>>();
    assert_eq!(
        shown,
        vec![
            row(["0", "10", "10", "100", "90", "-10"]),
            row(["1", "5", "6", "7", "7", "+0"]),
            row(["2", "-", "2", "0", "3", "+3"]),
        ]
    );
}

#[test]
fn bitset_result_members() {
    let words = [0b1010u64, (1u64 << 63) | 1 | (1 << 5)];
    assert_eq!(report::bitset_members(&words, 70), vec![1, 3, 64, 69]);
    assert_eq!(report::bitset_members(&words, 128), vec![1, 3, 64, 69, 127]);
    assert_eq!(report::bitset_members(&words, 2), vec![1]);
    assert!(report::bitset_members(&[], 10).is_empty());
}
