use graph_stats::ingest::{build_graph_from_csv, parse_record};

fn s(text: &str) -> String {
    text.to_string()
}

#[test]
fn record_with_two_fields_names_an_edge() {
    assert_eq!(parse_record("alice,bob"), Some((s("alice"), s("bob"))));
}

#[test]
fn fields_are_trimmed() {
    assert_eq!(parse_record("  alice \t, bob  "), Some((s("alice"), s("bob"))));
    assert_eq!(parse_record("a b , c d\r"), Some((s("a b"), s("c d"))));
    assert_eq!(parse_record("\u{a0}x\u{2003},y"), Some((s("x"), s("y"))));
}

#[test]
fn only_the_first_two_fields_count() {
    assert_eq!(parse_record("a,b,c,d"), Some((s("a"), s("b"))));
    assert_eq!(parse_record("a, b ,"), Some((s("a"), s("b"))));
}

#[test]
fn record_without_comma_names_no_edge() {
    assert_eq!(parse_record("alice"), None);
    assert_eq!(parse_record(""), None);
    assert_eq!(parse_record("   "), None);
}

#[test]
fn empty_fields_are_kept() {
    assert_eq!(parse_record(","), Some((s(""), s(""))));
    assert_eq!(parse_record(" , "), Some((s(""), s(""))));
    assert_eq!(parse_record("a,"), Some((s("a"), s(""))));
    assert_eq!(parse_record(",b"), Some((s(""), s("b"))));
}

#[test]
fn fields_beyond_ascii_are_read_by_character() {
    assert_eq!(parse_record("é,ü"), Some((s("é"), s("ü"))));
    assert_eq!(parse_record(" 北京 , 東京 ,x"), Some((s("北京"), s("東京"))));
}

#[test]
fn records_build_a_graph_and_short_ones_are_counted() {
    let records = vec![s("A, B"), s("no edge here"), s("B,C"), s(""), s(" C ,D,ignored")];
    let out = build_graph_from_csv(&records);
    assert_eq!(out.skipped, 2);
    assert_eq!(out.graph.node_count(), 4);
    assert!(out.graph.are_neighbors(&s("A"), &s("B")));
    assert!(out.graph.are_neighbors(&s("D"), &s("C")));
    assert_eq!(out.graph.degree_of(&s("B")), Some(2));
    assert_eq!(out.graph.neighbors_at_distance_two(&s("A")), 1);
}

#[test]
fn header_line_is_read_as_an_edge() {
    let records = vec![s("from,to"), s("A,B")];
    let out = build_graph_from_csv(&records);
    assert_eq!(out.skipped, 0);
    assert_eq!(out.graph.node_count(), 4);
    assert!(out.graph.are_neighbors(&s("from"), &s("to")));
}

#[test]
fn no_records_build_an_empty_graph() {
    let out = build_graph_from_csv(&Vec::new());
    assert_eq!(out.skipped, 0);
    assert_eq!(out.graph.node_count(), 0);
}

#[test]
fn repeated_records_add_one_edge() {
    let records = vec![s("A,B"), s("B,A"), s("A , B")];
    let out = build_graph_from_csv(&records);
    assert_eq!(out.graph.node_count(), 2);
    assert_eq!(out.graph.degree_of(&s("A")), Some(1));
    assert_eq!(out.graph.degree_of(&s("B")), Some(1));
}
