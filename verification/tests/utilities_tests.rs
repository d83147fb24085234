use depict::utilities::{BigCartesianProduct, BigCartesianProductMap, PairedWriter};

#[test]
fn paired_writer_needs_at_least_one_sink() {
    let none: Option<PairedWriter<u8, u8>> = PairedWriter::new_from_option(None, None);
    assert!(none.is_none());
    let one: Option<PairedWriter<u8, u8>> = PairedWriter::new_from_option(Some(1), None);
    assert!(one.is_some());
    let both: Option<PairedWriter<u8, u8>> = PairedWriter::new_from_option(Some(1), Some(2));
    assert!(both.is_some());
}

#[test]
fn cartesian_product_walks_every_combination() {
    let mut p = BigCartesianProduct::new(vec![vec![1, 2], vec![3, 4]]);
    let mut seen: Vec<Vec<i32>> = Vec::new();
    while let Some(items) = p.next() {
        seen.push(items);
    }
    assert_eq!(seen, vec![vec![1, 3], vec![2, 3], vec![1, 4], vec![2, 4]]);
}

#[test]
fn cartesian_product_with_empty_choice_is_empty() {
    let mut p = BigCartesianProduct::new(vec![vec![1, 2], Vec::new()]);
    assert!(p.next().is_none());
}

#[test]
fn cartesian_product_map_pairs_keys_with_choices() {
    let mut p = BigCartesianProductMap::new(vec![
        (String::from("n"), vec![1, 2]),
        (String::from("m"), vec![7]),
    ]);
    let mut seen: Vec<Vec<(String, i32)>> = Vec::new();
    while let Some(items) = p.next() {
        seen.push(items);
    }
    assert_eq!(
        seen,
        vec![
            vec![(String::from("n"), 1), (String::from("m"), 7)],
            vec![(String::from("n"), 2), (String::from("m"), 7)],
        ]
    );
}
