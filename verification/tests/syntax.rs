use code_utils::query;

#[test]
fn query_simple() {
    let code = r#"
def hello():
    print("hello")

def world():
    print("world")
    print("hello")
"#;

    let result = query::ast_query(
        code,
        &rs_tree_sitter_languages::python::language(),
        "(function_definition) @function",
    )
    .unwrap();

    assert_eq!(result.len(), 2);
}

#[test]
fn captures_are_byte_ranges_of_the_code() {
    let code = "def a():\n    pass\n\ndef b():\n    pass\n";
    let spans = query::ast_query(
        code,
        &rs_tree_sitter_languages::python::language(),
        "(function_definition) @function",
    )
    .unwrap();
    assert_eq!(spans, vec![(0, 17), (19, 36)]);
    assert_eq!(&code[0..17], "def a():\n    pass");
}

#[test]
fn bad_query_gives_nothing() {
    let language = rs_tree_sitter_languages::python::language();
    assert_eq!(query::ast_query("x = 1", &language, "(no_such_node) @x"), None);
    assert_eq!(query::ast_query("x = 1", &language, "((("), None);
    assert_eq!(query::ast_query("", &language, "(function_definition) @f"), Some(vec![]));
}

#[test]
fn ranges_of_all_matches_come_in_one_sequence() {
    assert_eq!(query::capture_spans(None), None);
    assert_eq!(query::capture_spans(Some(vec![])), Some(vec![]));
    assert_eq!(query::capture_spans(Some(vec![vec![], vec![]])), Some(vec![]));
    let found = vec![vec![(0, 4), (2, 3)], vec![], vec![(9, 12)], vec![(0, 4)]];
    assert_eq!(query::capture_spans(Some(found)), Some(vec![(0, 4), (2, 3), (9, 12), (0, 4)]));
}

#[test]
fn every_capture_of_a_match_is_reported() {
    let code = "def a(x):\n    pass\n";
    let spans = query::ast_query(
        code,
        &rs_tree_sitter_languages::python::language(),
        "(function_definition name: (identifier) @name parameters: (parameters) @args)",
    )
    .unwrap();
    assert!(spans.contains(&(4, 5)));
    assert!(spans.contains(&(5, 8)));
    assert_eq!(&code[4..5], "a");
    assert_eq!(&code[5..8], "(x)");
}
