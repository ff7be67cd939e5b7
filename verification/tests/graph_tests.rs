use impulse_graph_tooling::csr;
use impulse_graph_tooling::export::{self, ExportFormat};
use impulse_graph_tooling::generate::{self, GridShape};
use impulse_graph_tooling::reorder;
use impulse_graph_tooling::sort;

#[test]
fn sort_pairs_orders_by_first_then_second() {
    let v = vec![(3u64, 1u64), (1, 9), (3, 0), (1, 2), (0, 7)];
    assert_eq!(sort::sort_pairs(&v), vec![(0, 7), (1, 2), (1, 9), (3, 0), (3, 1)]);
    assert_eq!(sort::sort_pairs(&[]), Vec::<(u64, u64)>::new());
}

#[test]
fn csr_of_an_edge_list() {
    let (offs, cols) = csr::build_csr(&[(0, 1), (2, 0), (0, 2), (2, 1)]);
    assert_eq!(offs, vec![0, 2, 2, 4]);
    assert_eq!(cols, vec![1, 2, 0, 1]);
    let (offs, cols) = csr::build_csr(&[]);
    assert_eq!(offs, vec![0, 0]);
    assert!(cols.is_empty());
}

#[test]
fn csr_offsets_count_sources() {
    assert_eq!(csr::csr_offsets(&[0, 0, 2, 2, 2], 4), vec![0, 2, 2, 5, 5]);
}

#[test]
fn encodings_and_features() {
    assert_eq!(csr::encoding_type("raw_uint32"), 0);
    assert_eq!(csr::encoding_type("delta_vbyte"), 1);
    assert_eq!(csr::section_features(csr::encoding_type("delta_vbyte")), 2);
    assert_eq!(csr::section_features(0), 1);
    assert_eq!(csr::section_features(9), 0);
}

#[test]
fn grid_2d_and_3d_edge_counts() {
    let g2 = GridShape { dim_x: 20, dim_y: 20, dim_z: 1, toroidal: false, undirected: false };
    let es = generate::generate_grid(&g2);
    assert_eq!(es.len(), 2 * 20 * 19);
    assert!(es.iter().all(|&(u, v)| u < 400 && v < 400));
    assert_eq!(es[0], (0, 1));
    assert_eq!(es[1], (0, 20));
    let g3 = GridShape { dim_x: 5, dim_y: 5, dim_z: 5, toroidal: false, undirected: false };
    let es3 = generate::generate_grid(&g3);
    assert_eq!(es3.len(), 3 * 4 * 25);
    assert!(es3.iter().all(|&(u, v)| u < 125 && v < 125));
}

#[test]
fn grid_node_counts() {
    let g2 = GridShape { dim_x: 20, dim_y: 20, dim_z: 1, toroidal: true, undirected: true };
    assert_eq!(generate::grid_node_count(&g2), 400);
    let g3 = GridShape { dim_x: 5, dim_y: 5, dim_z: 5, toroidal: false, undirected: false };
    assert_eq!(generate::grid_node_count(&g3), 125);
    let empty = GridShape { dim_x: 7, dim_y: 0, dim_z: 3, toroidal: false, undirected: false };
    assert_eq!(generate::grid_node_count(&empty), 0);
}

#[test]
fn toroidal_undirected_grid() {
    let g = GridShape { dim_x: 3, dim_y: 3, dim_z: 1, toroidal: true, undirected: true };
    let es = generate::generate_grid(&g);
    // Every cell has a +X and a +Y edge, each stored both ways.
    assert_eq!(es.len(), 9 * 2 * 2);
    assert!(es.contains(&(2, 0)) && es.contains(&(0, 2)));
}

#[test]
fn tree_and_star_sizes() {
    let tree = generate::generate_tree(3, 4, false);
    assert_eq!(tree.len(), 120);
    assert_eq!(tree.iter().map(|&(_, v)| v).max(), Some(120));
    assert_eq!(tree[0], (0, 1));
    let star = generate::generate_star(100, false);
    assert_eq!(star.len(), 99);
    assert!(star.iter().all(|&(u, _)| u == 0));
    assert_eq!(generate::generate_star(3, true), vec![(0, 1), (1, 0), (0, 2), (2, 0)]);
}

#[test]
fn rmat_quadrants_pick_bits() {
    // bottom-right, top-left, top-right, bottom-left
    assert_eq!(generate::rmat_edge(&[3, 0, 1, 2]), (0b1001, 0b1010));
    assert_eq!(generate::rmat_edge(&[]), (0, 0));
}

#[test]
fn generated_edges_drop_self_loops_unless_allowed() {
    let mut es = Vec::new();
    generate::push_generated(&mut es, (1, 1), false, true);
    assert!(es.is_empty());
    generate::push_generated(&mut es, (1, 1), true, true);
    assert_eq!(es, vec![(1, 1)]);
    generate::push_generated(&mut es, (1, 2), false, true);
    assert_eq!(es, vec![(1, 1), (1, 2), (2, 1)]);
}

#[test]
fn generated_csr_sorts_and_keeps_in_range_edges() {
    let (offs, cols) = generate::generated_csr(&[(2, 1), (0, 5), (0, 1), (1, 0), (0, 0)], 3, 3);
    assert_eq!(offs, vec![0, 2, 3, 4]);
    assert_eq!(cols, vec![0, 1, 0, 1]);
}

#[test]
fn attribute_list_of_the_command_line() {
    let specs = generate::parse_attribute_specs(Some("weight:f32,timestamp:i64,type:i32"));
    assert_eq!(specs.len(), 3);
    assert_eq!(specs[0].name, "weight");
    assert_eq!(specs[0].type_code, 3);
    assert_eq!(specs[1].name, "timestamp");
    assert_eq!(specs[1].type_code, 2);
    assert_eq!(specs[2].name, "type");
    assert_eq!(specs[2].type_code, 1);
    assert!(specs.iter().all(|s| s.dimension == 1));
    assert!(generate::parse_attribute_specs(None).is_empty());
}

#[test]
fn little_endian_bytes() {
    let mut out = vec![9u8];
    generate::push_le(&mut out, 0x0102_0304, 4);
    assert_eq!(out, vec![9, 4, 3, 2, 1]);
    let idx = generate::generated_index(100);
    assert_eq!(&idx[0..8], &150u64.to_le_bytes());
    assert_eq!(&generate::generated_index(4)[0..8], &16u64.to_le_bytes());
}

#[test]
fn degree_sort_numbers_by_decreasing_degree() {
    // degrees: node 0 -> 1, node 1 -> 2, node 2 -> 0
    let (offs, cols) = reorder::apply_degree_sort(3, &[0, 1, 3, 3], &[2, 0, 2]);
    assert_eq!(offs, vec![0, 2, 3, 3]);
    assert_eq!(cols, vec![1, 2, 2]);
}

#[test]
fn degree_sort_keeps_edge_count_and_drops_outside_targets() {
    let (offs, cols) = reorder::apply_degree_sort(2, &[0, 2, 3], &[1, 7, 0]);
    assert_eq!(offs, vec![0, 1, 2]);
    assert_eq!(cols, vec![1, 0]);
}

#[test]
fn rcm_renumbers_a_star() {
    // center 0, leaves 1 and 2, both directions
    let (offs, cols) = reorder::apply_rcm(3, &[0, 2, 3, 4], &[1, 2, 0, 0]);
    assert_eq!(offs, vec![0, 1, 3, 4]);
    assert_eq!(cols, vec![1, 0, 2, 1]);
}

#[test]
fn export_formats() {
    assert_eq!(export::export_format("csv"), ExportFormat::Csv);
    assert_eq!(export::export_format("jsonl"), ExportFormat::Jsonl);
    assert_eq!(export::export_format("tsv"), ExportFormat::Tsv);
    assert_eq!(export::export_format("other"), ExportFormat::Tsv);
    let offs = [0u32, 2, 2, 3];
    let cols = [1u32, 2, 0];
    assert_eq!(export::export_relation(ExportFormat::Tsv, 3, &offs, &cols), "0\t1\n0\t2\n2\t0\n");
    assert_eq!(export::export_relation(ExportFormat::Csv, 3, &offs, &cols), "0,1\n0,2\n2,0\n");
    assert_eq!(
        export::export_relation(ExportFormat::Jsonl, 1, &offs, &cols),
        "{\"src\":0,\"tgt\":1}\n{\"src\":0,\"tgt\":2}\n"
    );
}

#[test]
fn rcm_on_a_row_with_repeated_edges_is_refused() {
    // node 0 has two edges to node 1, which is then queued twice
    assert_eq!(reorder::try_apply_rcm(2, &[0, 2, 5], &[1, 1, 0, 0, 0]), None);
    assert_eq!(
        reorder::try_apply_rcm(3, &[0, 2, 3, 4], &[1, 2, 0, 0]),
        Some((vec![0, 1, 3, 4], vec![1, 0, 2, 1]))
    );
}

#[test]
fn csr_validity() {
    assert!(reorder::csr_is_valid(3, &[0, 1, 3, 3], &[2, 0, 2]));
    assert!(!reorder::csr_is_valid(3, &[0, 1, 3], &[2, 0, 2]));
    assert!(!reorder::csr_is_valid(2, &[0, 2, 1], &[0, 0]));
    assert!(!reorder::csr_is_valid(2, &[0, 1, 4], &[0, 0]));
    assert!(reorder::csr_is_valid(0, &[0], &[]));
}

#[test]
fn tree_node_counts() {
    assert_eq!(generate::tree_node_count(3, 4), 121);
    assert_eq!(generate::tree_node_count(0, 2), 7);
    assert_eq!(generate::tree_node_count(10, 0), 1);
    assert_eq!(generate::tree_node_count(u32::MAX, 10), u64::MAX);
}

#[test]
fn rcm_numbers_each_node_once() {
    // a path 0 - 1 - 2 - 3, both directions, rows without repeated targets
    let offs = [0u32, 1, 3, 5, 6];
    let cols = [1u32, 0, 2, 1, 3, 2];
    let (new_offs, new_cols) = reorder::try_apply_rcm(4, &offs, &cols).unwrap();
    assert_eq!(new_offs.len(), 5);
    assert_eq!(new_cols.len(), 6);
    let mut degrees: Vec<u32> = (0..4).map(|u| new_offs[u + 1] - new_offs[u]).collect();
    degrees.sort();
    assert_eq!(degrees, vec![1, 1, 2, 2]);
}
