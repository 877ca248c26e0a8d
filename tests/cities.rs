use road_graph::cities::{
    compute_most_frequent_city_by_map, compute_most_frequent_city_by_map_in_de,
    compute_most_frequent_city_by_sorting, compute_most_frequent_city_by_sorting_in_de, read_lines, ParseError,
};

fn records() -> Vec<(String, String)> {
    [
        ("Berlin", "DE"),
        ("Paris", "FR"),
        ("Berlin", "DE"),
        ("Lyon", "FR"),
        ("Paris", "FR"),
        ("Berlin", "DE"),
        ("Hamburg", "DE"),
        ("Frankfurt", "US"),
        ("Frankfurt", "DE"),
    ]
    .iter()
    .map(|(a, b)| (a.to_string(), b.to_string()))
    .collect()
}

fn table(rows: &[(&str, usize)]) -> Vec<(String, usize)> {
    rows.iter().map(|(a, c)| (a.to_string(), *c)).collect()
}

#[test]
fn counts_all_names() {
    let expected = table(&[("Berlin", 3), ("Paris", 2), ("Frankfurt", 2), ("Lyon", 1), ("Hamburg", 1)]);
    assert_eq!(compute_most_frequent_city_by_map(&records()), expected);
    assert_eq!(compute_most_frequent_city_by_sorting(records()), expected);
}

#[test]
fn counts_names_found_in_de() {
    let expected = table(&[("Berlin", 3), ("Frankfurt", 2), ("Hamburg", 1)]);
    assert_eq!(compute_most_frequent_city_by_map_in_de(&records()), expected);
    assert_eq!(compute_most_frequent_city_by_sorting_in_de(records()), expected);
}

#[test]
fn empty_input_gives_empty_table() {
    assert!(compute_most_frequent_city_by_map(&Vec::new()).is_empty());
    assert!(compute_most_frequent_city_by_sorting(Vec::new()).is_empty());
    assert!(compute_most_frequent_city_by_map_in_de(&Vec::new()).is_empty());
    assert!(compute_most_frequent_city_by_sorting_in_de(Vec::new()).is_empty());
}

fn record(name: &str, kind: &str, country: &str, population: &str) -> Vec<u8> {
    let mut f: Vec<String> = (0..15).map(|i| format!("f{}", i)).collect();
    f[1] = name.to_string();
    f[6] = kind.to_string();
    f[8] = country.to_string();
    f[14] = population.to_string();
    f.join("\t").into_bytes()
}

#[test]
fn reads_populated_places() {
    let lines = vec![
        record("Berlin", "P", "DE", "3500000"),
        record("Harz", "T", "DE", "x"),
        b"too\tfew\tfields".to_vec(),
        record("Ghost", "P", "DE", "0"),
        record("Lyon", "P", "FR", "+500000"),
        record("Minus", "P", "FR", "-3"),
    ];
    let mut cities = vec![(b"Old".to_vec(), b"XX".to_vec())];
    assert_eq!(read_lines(&lines, &mut cities), Ok(()));
    assert_eq!(
        cities,
        vec![
            (b"Old".to_vec(), b"XX".to_vec()),
            (b"Berlin".to_vec(), b"DE".to_vec()),
            (b"Lyon".to_vec(), b"FR".to_vec()),
        ]
    );
}

#[test]
fn bad_population_is_an_error() {
    let lines = vec![record("Berlin", "P", "DE", "1"), record("Bonn", "P", "DE", "12a")];
    let mut cities = Vec::new();
    assert_eq!(read_lines(&lines, &mut cities), Err(ParseError { line: 2 }));
}
