use sea_lsp::analysis::{
    clamp_active_param, collect_local_vars, collect_params, find_enclosing_call,
    find_enclosing_class, find_variable_type, get_word_at_position, get_word_before_dot,
};

fn sorted(mut v: Vec<(String, String)>) -> Vec<(String, String)> {
    v.sort();
    v
}

fn pair(a: &str, b: &str) -> (String, String) {
    (a.to_string(), b.to_string())
}

#[test]
fn word_at_position_middle_of_identifier() {
    let src = "Dog myDog = new Dog();\n  rex.bark_loud(1);";
    assert_eq!(get_word_at_position(src, 0, 5), "myDog");
    assert_eq!(get_word_at_position(src, 1, 8), "bark_loud");
    assert_eq!(get_word_at_position(src, 1, 2), "rex");
}

#[test]
fn word_at_position_out_of_range_is_empty() {
    let src = "abc\ndef";
    assert_eq!(get_word_at_position(src, 2, 0), "");
    assert_eq!(get_word_at_position(src, 0, 3), "");
    assert_eq!(get_word_at_position(src, 0, 10), "");
}

#[test]
fn word_at_position_on_punctuation() {
    let src = "a + b";
    assert_eq!(get_word_at_position(src, 0, 2), "");
    assert_eq!(get_word_at_position(src, 0, 1), "a");
}

#[test]
fn word_at_position_unicode_letters() {
    let src = "let café = 1";
    assert_eq!(get_word_at_position(src, 0, 5), "café");
}

#[test]
fn word_at_position_crlf_lines() {
    let src = "one\r\ntwo\r\n";
    assert_eq!(get_word_at_position(src, 1, 1), "two");
}

#[test]
fn word_before_dot_cases() {
    let src = "  dog.\nthis.x\nfoo";
    assert_eq!(get_word_before_dot(src, 0, 6), "dog");
    assert_eq!(get_word_before_dot(src, 1, 5), "this");
    assert_eq!(get_word_before_dot(src, 2, 3), "");
    assert_eq!(get_word_before_dot(src, 0, 0), "");
    assert_eq!(get_word_before_dot(src, 5, 1), "");
}

#[test]
fn variable_type_from_declaration() {
    let src = "int x = 5;\n  Dog d;\nCat c=";
    assert_eq!(find_variable_type(src, "d"), Some("Dog".to_string()));
    assert_eq!(find_variable_type(src, "x"), Some("int".to_string()));
    assert_eq!(find_variable_type(src, "c"), Some("Cat".to_string()));
    assert_eq!(find_variable_type(src, "y"), None);
}

#[test]
fn variable_type_first_declaration_wins() {
    let src = "A v;\nB v;";
    assert_eq!(find_variable_type(src, "v"), Some("A".to_string()));
}

#[test]
fn enclosing_call_nested_resolves_outer() {
    let src = "foo(bar(1, 2), ";
    assert_eq!(find_enclosing_call(src, 0, 15), Some(("foo".to_string(), 1)));
}

#[test]
fn enclosing_call_inner_open_call() {
    let src = "foo(1, bar(2, 3";
    assert_eq!(find_enclosing_call(src, 0, 15), Some(("bar".to_string(), 1)));
}

#[test]
fn enclosing_call_spans_lines() {
    let src = "dog.bark(a,\n   b,\n   c";
    assert_eq!(find_enclosing_call(src, 2, 4), Some(("bark".to_string(), 2)));
}

#[test]
fn enclosing_call_closed_or_missing() {
    assert_eq!(find_enclosing_call("foo(1)", 0, 6), None);
    assert_eq!(find_enclosing_call("foo(1)", 3, 0), None);
    assert_eq!(find_enclosing_call("x = (1", 0, 6), Some(("".to_string(), 0)));
}

#[test]
fn enclosing_call_cursor_past_line_end() {
    assert_eq!(find_enclosing_call("init(a, b", 0, 100), Some(("init".to_string(), 1)));
}

#[test]
fn clamp_active_param_values() {
    assert_eq!(clamp_active_param(5, 0), Some(0));
    assert_eq!(clamp_active_param(5, 3), Some(2));
    assert_eq!(clamp_active_param(1, 3), Some(1));
    assert_eq!(clamp_active_param(0, 1), Some(0));
}

#[test]
fn enclosing_class_from_method_body() {
    let src = "class Dog {\n  pub void bark() {\n    this.\n  }\n}";
    assert_eq!(find_enclosing_class(src, 2), Some("Dog".to_string()));
}

#[test]
fn enclosing_class_needs_method_body() {
    let src = "class Dog {\n  this.\n}";
    assert_eq!(find_enclosing_class(src, 1), None);
}

#[test]
fn enclosing_class_name_trailing_brace() {
    let src = "class Cat{\n  void m() {\n    x\n  }\n}";
    assert_eq!(find_enclosing_class(src, 2), Some("Cat".to_string()));
}

#[test]
fn local_vars_up_to_line() {
    let src = "int a = 1;\nif (x) {\nDog d;\nreturn d;\nCat later;";
    let vars = sorted(collect_local_vars(src, 3));
    assert_eq!(vars, vec![pair("a", "int"), pair("d", "Dog")]);
}

#[test]
fn local_vars_later_declaration_overrides() {
    let src = "int v;\nString v;";
    let vars = collect_local_vars(src, 5);
    assert_eq!(vars, vec![pair("v", "String")]);
}

#[test]
fn local_vars_trailing_paren_stripped() {
    let src = "Dog make(";
    assert_eq!(collect_local_vars(src, 0), vec![pair("make", "Dog")]);
}

#[test]
fn params_of_enclosing_method() {
    let src = "class Dog {\n  pub int add(int a, String b) {\n    a\n  }\n}";
    let params = sorted(collect_params(src, 2));
    assert_eq!(params, vec![pair("a", "int"), pair("b", "String")]);
}

#[test]
fn params_skip_control_flow_blocks() {
    let src = "class Dog {\n  void f(int a) {\n    if (a) {\n      x\n    }\n  }\n}";
    assert!(collect_params(src, 3).is_empty());
}

#[test]
fn params_stop_at_class_line() {
    let src = "class Dog {\n  x\n}";
    assert!(collect_params(src, 1).is_empty());
}

#[test]
fn params_ignore_pieces_not_two_words() {
    let src = "void f(int a, b, int c d) {\n x";
    assert_eq!(collect_params(src, 1), vec![pair("a", "int")]);
}
