use replacer::{replace_tokens, VarsError};

#[test]
fn test_replace_tokens() {
    let json: &str = "{ \"vars\": { \"%env%\": \"D\", \"THIS\": \"<this>\"}}";
    let mut template: &str = "Where you see %env% it should say D";

    let result = replace_tokens(&template, &json, &String::from("txt")).unwrap();
    assert_eq!(result.contains("Where you see D it should say D"), true);

    template = "Where we see THIS it should say this";
    let mut result = replace_tokens(&template, &json, &String::from("txt")).unwrap();
    assert_eq!(
        result.contains(r#"Where we see <this> it should say this"#),
        true
    );

    template = "THIS";
    result = replace_tokens(&template, &json, &String::from("html")).unwrap();
    assert_eq!(result.contains(r#"&lt;this&gt;"#), true);
}

#[test]
fn txt_mode_exact_output() {
    let json = r#"{"vars":{"%env%":"D","THIS":"<this>"}}"#;
    let result = replace_tokens("Where you see %env% it should say D", json, "txt").unwrap();
    assert_eq!(result, "Where you see D it should say D");
}

#[test]
fn html_mode_exact_output() {
    let json = r#"{"vars":{"%env%":"D","THIS":"<this>"}}"#;
    let result = replace_tokens("THIS", json, "html").unwrap();
    assert_eq!(result, "&lt;this&gt;");
}

#[test]
fn html_mode_escapes_every_sensitive_character() {
    let json = r#"{"vars":{"K":"a&b<c>d"}}"#;
    let result = replace_tokens("K", json, "html").unwrap();
    assert_eq!(result, "a&amp;b&lt;c&gt;d");
}

#[test]
fn unknown_mode_behaves_as_txt() {
    let json = r#"{"vars":{"THIS":"<this>"}}"#;
    let result = replace_tokens("THIS", json, "weird").unwrap();
    assert_eq!(result, "<this>");
}

#[test]
fn absent_key_is_a_no_op() {
    let json = r#"{"vars":{"%env%":"D","MISSING":"never"}}"#;
    let source = "nothing here mentions a token";
    let result = replace_tokens(source, json, "txt").unwrap();
    assert_eq!(result, source);
}

#[test]
fn every_occurrence_is_replaced() {
    let json = r#"{"vars":{"%x%":"y"}}"#;
    let result = replace_tokens("%x% and %x% and %x%", json, "txt").unwrap();
    assert_eq!(result, "y and y and y");
}

#[test]
fn empty_source_stays_empty() {
    let json = r#"{"vars":{"%env%":"D"}}"#;
    let result = replace_tokens("", json, "txt").unwrap();
    assert_eq!(result, "");
}

#[test]
fn empty_key_inserts_at_every_boundary() {
    let json = r#"{"vars":{"":"-"}}"#;
    let result = replace_tokens("ab", json, "txt").unwrap();
    assert_eq!(result, "-a-b-");
}

#[test]
fn malformed_json_is_reported() {
    let result = replace_tokens("text", "not json at all", "txt");
    assert_eq!(result, Err(VarsError::MalformedJson));
}

#[test]
fn missing_vars_field_is_reported() {
    let result = replace_tokens("text", r#"{"other":{}}"#, "txt");
    assert_eq!(result, Err(VarsError::MissingVars));
}

#[test]
fn empty_document_is_missing_vars() {
    let result = replace_tokens("text", "{}", "txt");
    assert_eq!(result, Err(VarsError::MissingVars));
}

#[test]
fn vars_field_must_be_an_object() {
    let result = replace_tokens("text", r#"{"vars": 3}"#, "txt");
    assert_eq!(result, Err(VarsError::VarsNotObject));
}

#[test]
fn vars_values_must_be_strings() {
    let result = replace_tokens("text", r#"{"vars":{"k": 1}}"#, "txt");
    assert_eq!(result, Err(VarsError::ValueNotString));
}

#[test]
fn empty_vars_object_changes_nothing() {
    let result = replace_tokens("keep me", r#"{"vars":{}}"#, "txt").unwrap();
    assert_eq!(result, "keep me");
}
