use sea_lsp::features::{
    completion, completion_if_ready, definition_row, dot_completion, goto_definition, hover, signature_fits_at, signature_help, signature_help_if_fits, static_completion,
    CompletionEntry, CompletionKind,
};
use sea_lsp::symbol_table::{ClassInfo, FieldInfo, MethodInfo, SymbolTable};

fn method(name: &str, params: &[(&str, &str)], ret: &str, is_pub: bool, ctor: bool, drop: bool) -> MethodInfo {
    MethodInfo {
        name: name.to_string(),
        params: params.iter().map(|(t, n)| (t.to_string(), n.to_string())).collect(),
        return_type: ret.to_string(),
        line: 3,
        is_pub,
        is_constructor: ctor,
        is_drop: drop,
    }
}

fn table() -> SymbolTable {
    let mut t = SymbolTable::new();
    t.insert_class(ClassInfo {
        name: "Dog".to_string(),
        fields: vec![
            FieldInfo { name: "age".into(), field_type: "int".into(), line: 2, is_pub: true },
            FieldInfo { name: "secret".into(), field_type: "String".into(), line: 3, is_pub: false },
        ],
        methods: vec![
            method("init", &[("String", "name"), ("int", "age")], "void", true, true, false),
            method("bark", &[("int", "times")], "String", true, false, false),
            method("sleep", &[], "void", false, false, false),
            method("drop", &[], "void", true, false, true),
        ],
        parent: Some("Animal".to_string()),
        implements: vec!["Pet".to_string()],
        file: "/w/dog.sea".to_string(),
        line: 4,
    });
    t.insert_class(ClassInfo {
        name: "Cat".to_string(),
        fields: vec![],
        methods: vec![],
        parent: None,
        implements: vec![],
        file: "/w/cat.sea".to_string(),
        line: 1,
    });
    t
}

fn labels(items: &[CompletionEntry]) -> Vec<String> {
    items.iter().map(|e| e.label.clone()).collect()
}

#[test]
fn signature_help_for_constructor() {
    let t = table();
    let s = signature_help(&t, "Dog d = new Dog(\"rex\", ", 0, 23).unwrap();
    assert_eq!(s.label, "init(String name, int age)");
    assert_eq!(s.parameters, vec!["String name", "int age"]);
    assert_eq!(s.active_parameter, Some(1));
}

#[test]
fn signature_help_for_method_clamps_active() {
    let t = table();
    let s = signature_help(&t, "d.bark(1, 2, ", 0, 13).unwrap();
    assert_eq!(s.label, "bark(int times) -> String");
    assert_eq!(s.active_parameter, Some(0));
}

#[test]
fn signature_help_none_cases() {
    let t = table();
    assert!(signature_help(&t, "d.run(", 0, 6).is_none());
    assert!(signature_help(&t, "(", 0, 1).is_none());
    assert!(signature_help(&t, "x", 0, 1).is_none());
    assert!(signature_help(&t, "Cat(", 0, 4).is_none());
}

#[test]
fn signature_help_zero_parameters() {
    let t = table();
    assert!(signature_help(&t, "d.sleep(\r\n", 1, 0).is_none());
    let s = signature_help(&t, "d.sleep(\r\nx", 1, 0).unwrap();
    assert_eq!(s.label, "sleep() -> void");
    assert!(s.parameters.is_empty());
    assert_eq!(s.active_parameter, Some(0));
}

#[test]
fn hover_describes_class() {
    let t = table();
    let h = hover(&t, "Dog d;", 0, 1).unwrap();
    assert_eq!(
        h,
        "**class Dog**\n\ninherits: `Animal`\n\nimplements: `Pet`\n\n**Fields:**\n- `pub int age`\n- `String secret`\n\n**Methods:**\n- `pub init`\n- `pub bark`\n- `sleep`"
    );
    assert_eq!(hover(&t, "Cat c;", 0, 0).unwrap(), "**class Cat**");
    assert!(hover(&t, "Dog d;", 0, 4).is_none());
}

#[test]
fn goto_definition_targets_class_line() {
    let t = table();
    assert_eq!(goto_definition(&t, "x Dog", 0, 3), Some(("/w/dog.sea".to_string(), 4)));
    assert_eq!(goto_definition(&t, "Cat", 0, 0), Some(("/w/cat.sea".to_string(), 1)));
    assert_eq!(goto_definition(&t, "Bird", 0, 0), None);
    assert_eq!(definition_row(4), 3);
    assert_eq!(definition_row(1), 0);
}

#[test]
fn dot_completion_on_variable() {
    let t = table();
    let items = dot_completion(&t, "Dog d;\nd.", 1, 2).unwrap();
    assert_eq!(labels(&items), vec!["bark", "age"]);
    assert_eq!(items[0].kind, CompletionKind::Method);
    assert_eq!(items[0].detail, Some("bark(int times) -> String".to_string()));
    assert_eq!(items[0].insert_text, Some("bark($1)".to_string()));
    assert!(items[0].is_snippet);
    assert_eq!(items[1].kind, CompletionKind::Field);
    assert_eq!(items[1].detail, Some("int age".to_string()));
    assert!(items[1].insert_text.is_none());
}

#[test]
fn dot_completion_on_this_shows_private_members() {
    let t = table();
    let src = "class Dog {\n  void f() {\n    this.\n  }\n}";
    let items = dot_completion(&t, src, 2, 9).unwrap();
    assert_eq!(labels(&items), vec!["bark", "sleep", "age", "secret"]);
}

#[test]
fn dot_completion_none_cases() {
    let t = table();
    assert!(dot_completion(&t, "x.", 0, 2).is_none());
    assert!(dot_completion(&t, "Bird b;\nb.", 1, 2).is_none());
    assert!(dot_completion(&t, "d", 0, 1).is_none());
}

#[test]
fn static_completion_lists_everything() {
    let t = table();
    let src = "class Dog {\n  void f(int n) {\n    Dog d;\n    \n  }\n}";
    let items = static_completion(&t, src, 3);
    let got = labels(&items);
    let mut expected: Vec<String> = vec!["d".into(), "n".into()];
    for w in ["int", "char", "float", "double", "void", "String"] {
        expected.push(w.into());
    }
    for w in ["class", "interface", "inherit", "implements", "pub", "new", "this", "init", "import", "from"] {
        expected.push(w.into());
    }
    for w in ["if", "else", "while", "for", "switch", "case", "break", "continue", "return"] {
        expected.push(w.into());
    }
    expected.push("Dog".into());
    expected.push("Cat".into());
    assert_eq!(got, expected);
    assert_eq!(items[0].detail, Some("Dog".to_string()));
    assert_eq!(items[1].kind, CompletionKind::Variable);
    assert_eq!(items[1].detail, Some("int".to_string()));
    assert_eq!(items[2].kind, CompletionKind::TypeParameter);
    assert_eq!(items[8].kind, CompletionKind::Keyword);
    assert_eq!(items[items.len() - 1].kind, CompletionKind::Class);
}

#[test]
fn completion_dispatch() {
    let t = table();
    let dot = completion(&t, true, Some("Dog d;\nd."), 1, 2).unwrap();
    assert_eq!(labels(&dot), vec!["bark", "age"]);
    assert!(completion(&t, true, None, 0, 0).is_none());
    let plain = completion(&t, false, Some("x"), 0, 1).unwrap();
    assert_eq!(plain.len(), 6 + 10 + 9 + 2);
}

#[test]
fn hover_and_definition_agree() {
    let t = table();
    let doc = "Dog d = Cat();\r\nBird b;";
    for line in 0..3u32 {
        for ch in 0..16u32 {
            let h = hover(&t, doc, line, ch);
            let g = goto_definition(&t, doc, line, ch);
            assert_eq!(h.is_some(), g.is_some(), "at {}:{}", line, ch);
        }
    }
    assert!(hover(&t, doc, 0, 9).is_some());
    assert!(hover(&t, doc, 1, 1).is_none());
}

#[test]
fn completion_if_ready_refuses_unreadable_documents() {
    let t = table();
    assert!(completion_if_ready(&t, false, None, 0, 0).is_none());
    assert!(completion_if_ready(&t, false, Some("x"), 5, 0).is_none());
    let ready = completion_if_ready(&t, false, Some("x"), 0, 1).unwrap();
    let plain = completion(&t, false, Some("x"), 0, 1).unwrap();
    assert_eq!(ready.len(), plain.len());
    assert!(completion_if_ready(&t, true, None, 0, 0).is_none());
    assert!(completion_if_ready(&t, true, Some("Dog d;\nd."), 1, 2).is_some());
}

#[test]
fn signature_help_if_fits_agrees_where_counts_fit() {
    let t = table();
    for (doc, ch) in [("Dog d = new Dog(\"rex\", ", 23u32), ("d.bark(1, 2, ", 13), ("x", 1), ("Cat(", 4)] {
        assert!(signature_fits_at(&t, doc, 0, ch));
        let a = signature_help_if_fits(&t, doc, 0, ch).map(|s| (s.label, s.parameters, s.active_parameter));
        let b = signature_help(&t, doc, 0, ch).map(|s| (s.label, s.parameters, s.active_parameter));
        assert_eq!(a, b);
    }
}
