use replacer::substitute;

fn table(entries: &[(&str, &str)]) -> Vec<(String, String)> {
    entries
        .iter()
        .map(|(k, v)| (k.to_string(), v.to_string()))
        .collect()
}

#[test]
fn substitutes_disjoint_keys_and_keeps_the_rest() {
    let pairs = table(&[("%env%", "D"), ("%user%", "root")]);
    let result = substitute("env: %env%, user: %user%!", &pairs, false);
    assert_eq!(result, "env: D, user: root!");
}

#[test]
fn substitutes_pairs_in_the_order_given() {
    let pairs = table(&[("a", "b"), ("b", "c")]);
    let result = substitute("a", &pairs, false);
    assert_eq!(result, "c");
    let pairs = table(&[("b", "c"), ("a", "b")]);
    let result = substitute("a", &pairs, false);
    assert_eq!(result, "b");
}

#[test]
fn html_flag_escapes_inserted_values_only() {
    let pairs = table(&[("K", "<v>")]);
    let result = substitute("<p>K</p>", &pairs, true);
    assert_eq!(result, "<p>&lt;v&gt;</p>");
}

#[test]
fn empty_table_changes_nothing() {
    let pairs: Vec<(String, String)> = Vec::new();
    assert_eq!(substitute("anything < & >", &pairs, true), "anything < & >");
}
