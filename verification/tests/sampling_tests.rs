use impulse_graph_tooling::sampling;
use rand::rngs::StdRng;
use rand::SeedableRng;

#[test]
fn chunks_cover_the_target() {
    let chunk = sampling::chunk_size(1000, 3);
    assert_eq!(chunk, 334);
    let counts: Vec<u64> = (0..3).map(|t| sampling::thread_plan(7, 1, 1000, chunk, t).1).collect();
    assert_eq!(counts, vec![334, 334, 332]);
    assert_eq!(counts.iter().sum::<u64>(), 1000);
    // more threads than items: the last ones take nothing
    let chunk = sampling::chunk_size(2, 4);
    assert_eq!(chunk, 1);
    let counts: Vec<u64> = (0..4).map(|t| sampling::thread_plan(7, 1, 2, chunk, t).1).collect();
    assert_eq!(counts, vec![1, 1, 0, 0]);
}

#[test]
fn thread_seeds_wrap_around() {
    let mult = 0x9E3779B97F4A7C15u64;
    assert_eq!(sampling::thread_plan(5, mult, 10, 1, 0).0, 5);
    assert_eq!(sampling::thread_plan(5, mult, 10, 1, 3).0, 5u64.wrapping_add(3u64.wrapping_mul(mult)));
    assert_eq!(sampling::thread_plan(u64::MAX, 1, 10, 1, 1).0, 0);
}

#[test]
fn bipartite_draws_stay_in_their_domains() {
    let mut rng = StdRng::seed_from_u64(101);
    let es = sampling::bipartite_draws(&mut rng, 500, 250, 350);
    assert_eq!(es.len(), 500);
    assert!(es.iter().all(|&(u, v)| u < 250 && v < 350));
    let mut again = StdRng::seed_from_u64(101);
    assert_eq!(sampling::bipartite_draws(&mut again, 500, 250, 350), es);
}

#[test]
fn synthetic_integer_columns_stay_in_range() {
    let mut rng = StdRng::seed_from_u64(555);
    let data = sampling::random_int_column(&mut rng, 1, 100);
    assert_eq!(data.len(), 400);
    assert!(data.chunks(4).all(|c| (0..10).contains(&i32::from_le_bytes([c[0], c[1], c[2], c[3]]))));
    let data = sampling::random_int_column(&mut rng, 2, 50);
    assert_eq!(data.len(), 400);
    assert!(data.chunks(8).all(|c| {
        let v = i64::from_le_bytes(c.try_into().unwrap());
        (sampling::BASE_TIMESTAMP..sampling::BASE_TIMESTAMP + 10_000_000).contains(&v)
    }));
}

#[test]
fn delimited_lines() {
    let names = vec!["weight".to_string(), "type".to_string()];
    assert_eq!(sampling::delimited_header('\t', &names), "src\ttgt\tweight\ttype");
    assert_eq!(sampling::delimited_header(',', &vec!["weight".to_string()]), "src,tgt,weight");
    assert_eq!(sampling::edge_fields(12, 7, ','), "12,7");
    let mut rng = StdRng::seed_from_u64(9);
    let v: i64 = sampling::random_int_field(&mut rng, 2).parse().unwrap();
    assert!(v >= sampling::BASE_TIMESTAMP && v < sampling::BASE_TIMESTAMP + 10_000_000);
    let v: i64 = sampling::random_int_field(&mut rng, 1).parse().unwrap();
    assert!((0..10).contains(&v));
}
