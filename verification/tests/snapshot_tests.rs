use impulse_graph_tooling::attributes;
use impulse_graph_tooling::domain_index;
use impulse_graph_tooling::snapshot::{self, DomainInput, KeyType, ManifestError, RelationInput};
use impulse_graph_tooling::validate::{self, ArrayKind, AttrExtent, CatalogError, HeaderError, RelationEntry};

fn cs(s: &str) -> Vec<char> {
    s.chars().collect()
}

fn edge(a: &str, b: &str) -> (Vec<char>, Vec<char>) {
    (cs(a), cs(b))
}

fn text(v: &[char]) -> String {
    v.iter().collect()
}

#[test]
fn key_and_type_names() {
    assert_eq!(snapshot::parse_key_type("STRING"), KeyType::String);
    assert_eq!(snapshot::parse_key_type("u64"), KeyType::Int64);
    assert_eq!(snapshot::parse_key_type("uuid"), KeyType::Uuid);
    assert_eq!(snapshot::parse_key_type("whatever"), KeyType::Int32);
    assert_eq!(snapshot::parse_type_code("Float64"), 4);
    assert_eq!(snapshot::parse_type_code("utf8"), 5);
    assert_eq!(snapshot::parse_type_code("i64"), 2);
    assert_eq!(snapshot::parse_type_code("bogus"), 1);
}

#[test]
fn parquet_detection() {
    assert!(snapshot::is_parquet_file(Some("PARQUET"), None));
    assert!(snapshot::is_parquet_file(Some("tsv"), Some("pq")));
    assert!(!snapshot::is_parquet_file(Some("tsv"), Some("tsv")));
    assert!(!snapshot::is_parquet_file(None, None));
}

#[test]
fn domain_and_edge_files() {
    let keys = snapshot::parse_domain_file("# users\nalice extra\n\n  bob\n");
    assert_eq!(keys.iter().map(|k| text(k)).collect::<Vec<_>>(), vec!["alice", "bob"]);
    let edges = snapshot::parse_edge_file("user_A\tgroup_1\nuser_A\tgroup_2\nlonely\n#x y\nuser_B group_2 9\n");
    let shown: Vec<(String, String)> = edges.iter().map(|(a, b)| (text(a), text(b))).collect();
    assert_eq!(
        shown,
        vec![
            ("user_A".to_string(), "group_1".to_string()),
            ("user_A".to_string(), "group_2".to_string()),
            ("user_B".to_string(), "group_2".to_string()),
        ]
    );
}

#[test]
fn relation_pairs_must_be_unique() {
    assert_eq!(snapshot::check_relation_uniqueness(&[(0, 1), (1, 2)]), Ok(()));
    assert_eq!(
        snapshot::check_relation_uniqueness(&[(0, 1), (1, 2), (0, 1)]),
        Err(ManifestError::DuplicateRelation { src_domain: 0, tgt_domain: 1 })
    );
}

#[test]
fn multi_relation_domains_are_counted_once() {
    let domains = vec![
        DomainInput { id: 0, file_keys: None },
        DomainInput { id: 1, file_keys: None },
        DomainInput { id: 2, file_keys: None },
    ];
    let relations = vec![
        RelationInput { src_domain: 0, tgt_domain: 1, edges: vec![edge("u1", "g1"), edge("u2", "g2")] },
        RelationInput { src_domain: 1, tgt_domain: 2, edges: vec![edge("g1", "r1"), edge("g2", "r2")] },
    ];
    let (maps, crs) = snapshot::compile_topology(&domains, &relations).unwrap();
    assert_eq!(crs.len(), 2);
    assert_eq!(maps.count(0), 2);
    assert_eq!(maps.count(1), 2);
    assert_eq!(maps.count(2), 2);
    assert_eq!(text(maps.key_of(1, 0)), "g1");
    assert_eq!(crs[0].row_offsets, vec![0, 1, 2]);
    assert_eq!(crs[0].col_indices, vec![0, 1]);
    assert_eq!(crs[1].src_domain_count, 2);
}

#[test]
fn duplicate_relation_is_refused() {
    let domains = vec![DomainInput { id: 0, file_keys: None }, DomainInput { id: 1, file_keys: None }];
    let relations = vec![
        RelationInput { src_domain: 0, tgt_domain: 1, edges: vec![edge("u1", "g1")] },
        RelationInput { src_domain: 0, tgt_domain: 1, edges: vec![edge("u1", "g1")] },
    ];
    match snapshot::compile_topology(&domains, &relations) {
        Err(e) => assert_eq!(e, ManifestError::DuplicateRelation { src_domain: 0, tgt_domain: 1 }),
        Ok(_) => panic!("compile MUST fail when duplicate relations are defined"),
    }
}

#[test]
fn domain_files_number_nodes_first_and_edges_sort() {
    let domains = vec![DomainInput { id: 5, file_keys: Some(vec![cs("b"), cs("a")]) }];
    let relations = vec![RelationInput {
        src_domain: 5,
        tgt_domain: 5,
        edges: vec![edge("a", "c"), edge("b", "a"), edge("a", "b")],
    }];
    let (maps, crs) = snapshot::compile_topology(&domains, &relations).unwrap();
    assert_eq!(maps.count(5), 3);
    assert_eq!(text(maps.key_of(5, 0)), "b");
    assert_eq!(text(maps.key_of(5, 2)), "c");
    let c = &crs[0];
    assert_eq!(c.src_domain_count, 3);
    assert_eq!(c.edges_count, 3);
    // b=0, a=1, c=2: edges (1,2), (0,1), (1,0) sorted by source then target
    assert_eq!(c.row_offsets, vec![0, 1, 3, 3]);
    assert_eq!(c.col_indices, vec![1, 0, 2]);
    assert_eq!(c.edge_rows, vec![1, 2, 0]);
}

#[test]
fn compiled_rows_are_csr_with_ascending_targets() {
    let domains = vec![DomainInput { id: 0, file_keys: Some(vec![cs("n0"), cs("n1"), cs("n2"), cs("n3")]) }];
    let relations = vec![RelationInput {
        src_domain: 0,
        tgt_domain: 0,
        edges: vec![edge("n2", "n3"), edge("n0", "n3"), edge("n2", "n0"), edge("n0", "n1"), edge("n2", "n1"), edge("n0", "n1")],
    }];
    let (_, crs) = snapshot::compile_topology(&domains, &relations).unwrap();
    let c = &crs[0];
    assert_eq!(c.row_offsets[0], 0);
    assert_eq!(*c.row_offsets.last().unwrap() as u64, c.edges_count);
    assert_eq!(c.col_indices.len() as u64, c.edges_count);
    for u in 0..c.src_domain_count as usize {
        assert!(c.row_offsets[u] <= c.row_offsets[u + 1]);
        let row = &c.col_indices[c.row_offsets[u] as usize..c.row_offsets[u + 1] as usize];
        assert!(row.windows(2).all(|w| w[0] <= w[1]), "row {} is {:?}", u, row);
    }
    assert_eq!(c.row_offsets, vec![0, 3, 3, 6, 6]);
    assert_eq!(c.col_indices, vec![1, 1, 3, 0, 1, 3]);
}

#[test]
fn domain_index_layout() {
    let keys = vec![cs("a"), cs("b")];
    let idx = domain_index::domain_index(&keys);
    assert_eq!(idx.len(), 8 + 8 + 4 + 12 + 5 + 16 * 8);
    assert_eq!(&idx[0..8], &16u64.to_le_bytes());
    assert_eq!(&idx[8..16], &domain_index::INDEX_SEED.to_le_bytes());
    assert_eq!(&idx[16..20], &5u32.to_le_bytes());
    assert_eq!(&idx[32..37], &[0, b'a', 0, b'b', 0]);
    // both keys occupy one slot each
    let table = &idx[37..];
    let occupied = table.chunks(8).filter(|s| s[0..4] != [0, 0, 0, 0]).count();
    assert_eq!(occupied, 2);
}

#[test]
fn utf8_of_keys() {
    assert_eq!(domain_index::utf8_of(&cs("aé€")), "aé€".as_bytes().to_vec());
}

#[test]
fn integer_and_string_columns() {
    let vals = vec![cs("7"), cs("-1"), cs("x")];
    let rows = vec![1usize, 0, 2, 9];
    let (data, offs) = attributes::encode_column(1, &vals, &rows);
    assert_eq!(data, [(-1i32).to_le_bytes(), 7i32.to_le_bytes(), 0i32.to_le_bytes(), 0i32.to_le_bytes()].concat());
    assert!(offs.is_none());
    let (data, offs) = attributes::encode_column(2, &vals, &rows[..1].to_vec());
    assert_eq!(data, (-1i64).to_le_bytes().to_vec());
    assert!(offs.is_none());
    let (data, offs) = attributes::encode_column(5, &vals, &vec![2usize, 0]);
    assert_eq!(data, vec![b'x', 0, b'7', 0]);
    assert_eq!(offs, Some(vec![0, 2, 4]));
}

fn entry(src: u16, tgt: u16) -> RelationEntry {
    RelationEntry {
        src_domain_id: src,
        tgt_domain_id: tgt,
        node_count: 2,
        tgt_node_count: 2,
        edge_count: 1,
        csr_row_off_offset: 128,
        csr_row_off_bytes: 12,
        csr_col_idx_offset: 256,
        csr_col_idx_bytes: 4,
        csc_row_off_offset: 0,
        csc_row_off_bytes: 0,
        csc_col_idx_offset: 0,
        csc_col_idx_bytes: 0,
        attributes: Vec::new(),
        row_offsets: vec![0, 1, 1],
        col_indices: vec![1],
    }
}

#[test]
fn catalog_checks() {
    assert_eq!(validate::check_relations(&vec![entry(0, 0), entry(0, 1)], 1024), Ok(()));
    assert_eq!(
        validate::check_relations(&vec![entry(0, 1), entry(0, 0)], 1024),
        Err(CatalogError::OutOfOrder { index: 1, src: 0, tgt: 0, prev_src: 0, prev_tgt: 1 })
    );
    assert_eq!(
        validate::check_relations(&vec![entry(0, 1), entry(0, 1)], 1024),
        Err(CatalogError::Duplicate { index: 1, src: 0, tgt: 1 })
    );
    let mut e = entry(0, 0);
    e.csr_col_idx_offset = 200;
    assert_eq!(
        validate::check_relations(&vec![e], 1024),
        Err(CatalogError::Misaligned { index: 0, array: ArrayKind::CsrColIndices, offset: 200 })
    );
    assert_eq!(
        validate::check_relations(&vec![entry(0, 0)], 200),
        Err(CatalogError::PastEnd { index: 0, array: ArrayKind::CsrColIndices, end: 260, file_len: 200 })
    );
    let mut e = entry(0, 0);
    e.attributes.push(AttrExtent { data_offset: 384, data_bytes: 4, offsets_offset: 100, offsets_bytes: 8 });
    assert_eq!(
        validate::check_relations(&vec![e], 1024),
        Err(CatalogError::Misaligned { index: 0, array: ArrayKind::AttrOffsets(0), offset: 100 })
    );
    let mut e = entry(0, 0);
    e.row_offsets = vec![0, 1];
    assert_eq!(validate::check_relations(&vec![e], 1024), Err(CatalogError::RowOffsetsLength { index: 0, len: 2 }));
    let mut e = entry(0, 0);
    e.row_offsets = vec![0, 2, 1];
    assert_eq!(validate::check_relations(&vec![e], 1024), Err(CatalogError::NonMonotonic { index: 0, at: 1, a: 2, b: 1 }));
    let mut e = entry(0, 0);
    e.row_offsets = vec![0, 1, 2];
    assert_eq!(validate::check_relations(&vec![e], 1024), Err(CatalogError::LastOffset { index: 0, last: 2, edge_count: 1 }));
    let mut e = entry(0, 0);
    e.col_indices = vec![];
    assert_eq!(validate::check_relations(&vec![e], 1024), Err(CatalogError::ColumnLength { index: 0, len: 0, edge_count: 1 }));
}

#[test]
fn column_indices_must_be_target_nodes() {
    let mut e = entry(0, 1);
    e.tgt_node_count = 1;
    assert_eq!(
        validate::check_relations(&vec![e], 1024),
        Err(CatalogError::ColumnOutOfRange { index: 0, at: 0, col: 1, tgt_node_count: 1 })
    );
    let mut e = entry(0, 1);
    e.tgt_node_count = 5;
    e.edge_count = 3;
    e.row_offsets = vec![0, 2, 3];
    e.col_indices = vec![4, 0, 5];
    assert_eq!(
        validate::check_relations(&vec![entry(0, 0), e], 1024),
        Err(CatalogError::ColumnOutOfRange { index: 1, at: 2, col: 5, tgt_node_count: 5 })
    );
    let mut e = entry(0, 1);
    e.tgt_node_count = 6;
    e.edge_count = 3;
    e.row_offsets = vec![0, 2, 3];
    e.col_indices = vec![4, 0, 5];
    assert_eq!(validate::check_relations(&vec![e], 1024), Ok(()));
    let mut e = entry(0, 1);
    e.node_count = 0;
    e.row_offsets = vec![];
    e.col_indices = vec![5];
    e.tgt_node_count = 3;
    assert_eq!(
        validate::check_relations(&vec![e], 1024),
        Err(CatalogError::ColumnOutOfRange { index: 0, at: 0, col: 5, tgt_node_count: 3 })
    );
    let mut e = entry(0, 1);
    e.node_count = 0;
    e.row_offsets = vec![];
    e.col_indices = vec![2];
    e.tgt_node_count = 3;
    assert_eq!(validate::check_relations(&vec![e], 1024), Ok(()));
}

#[test]
fn header_checks() {
    assert_eq!(validate::check_header(63, 1, 9, 1, 9), Err(HeaderError::TooSmall { file_len: 63 }));
    assert_eq!(validate::check_header(64, 2, 9, 1, 9), Err(HeaderError::BadMagic { magic: 2, expected: 1 }));
    assert_eq!(validate::check_header(64, 1, 8, 1, 9), Err(HeaderError::BadVersion { version: 8, expected: 9 }));
    assert_eq!(validate::check_header(4096, 1, 9, 1, 9), Ok(()));
}
