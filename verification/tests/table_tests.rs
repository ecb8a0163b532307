use sea_lsp::symbol_table::{ClassInfo, FieldInfo, MethodInfo, SymbolTable};

fn class(name: &str, file: &str, line: usize) -> ClassInfo {
    ClassInfo {
        name: name.to_string(),
        fields: Vec::new(),
        methods: Vec::new(),
        parent: None,
        implements: Vec::new(),
        file: file.to_string(),
        line,
    }
}

fn names(t: &SymbolTable) -> Vec<String> {
    t.classes.iter().map(|c| c.name.clone()).collect()
}

#[test]
fn insert_then_lookup() {
    let mut t = SymbolTable::new();
    t.insert_class(class("Dog", "/w/a.sea", 1));
    t.insert_class(class("Cat", "/w/a.sea", 5));
    t.insert_class(class("Fish", "/w/b.sea", 2));
    assert_eq!(t.get_class("Dog").unwrap().line, 1);
    assert_eq!(t.get_class("Fish").unwrap().file, "/w/b.sea");
    assert!(t.get_class("Bird").is_none());
    assert_eq!(t.file_classes.len(), 2);
    assert_eq!(t.file_classes[0].1, vec!["Dog".to_string(), "Cat".to_string()]);
}

#[test]
fn insert_same_name_replaces_in_place() {
    let mut t = SymbolTable::default();
    t.insert_class(class("Dog", "/w/a.sea", 1));
    t.insert_class(class("Cat", "/w/a.sea", 2));
    t.insert_class(class("Dog", "/w/b.sea", 9));
    assert_eq!(names(&t), vec!["Dog", "Cat"]);
    assert_eq!(t.get_class("Dog").unwrap().line, 9);
    assert_eq!(t.file_classes.len(), 2);
}

#[test]
fn remove_file_drops_its_classes() {
    let mut t = SymbolTable::new();
    t.insert_class(class("Dog", "/w/a.sea", 1));
    t.insert_class(class("Fish", "/w/b.sea", 2));
    t.insert_class(class("Cat", "/w/a.sea", 3));
    t.remove_file("/w/a.sea");
    assert_eq!(names(&t), vec!["Fish"]);
    assert!(!t.has_file("/w/a.sea"));
    assert!(t.has_file("/w/b.sea"));
}

#[test]
fn remove_file_drops_overwritten_name_too() {
    let mut t = SymbolTable::new();
    t.insert_class(class("Dog", "/w/a.sea", 1));
    t.insert_class(class("Dog", "/w/b.sea", 7));
    t.remove_file("/w/a.sea");
    assert!(t.get_class("Dog").is_none());
    assert!(t.has_file("/w/b.sea"));
}

#[test]
fn remove_unknown_file_changes_nothing() {
    let mut t = SymbolTable::new();
    t.insert_class(class("Dog", "/w/a.sea", 1));
    t.remove_file("/w/zzz.sea");
    assert_eq!(names(&t), vec!["Dog"]);
    assert_eq!(t.file_classes.len(), 1);
}

#[test]
fn remove_undoes_insert() {
    let mut t = SymbolTable::new();
    t.insert_class(class("Dog", "/w/a.sea", 1));
    t.insert_class(class("Cat", "/w/c.sea", 1));
    t.remove_file("/w/c.sea");
    assert_eq!(names(&t), vec!["Dog"]);
    assert_eq!(t.file_classes.len(), 1);
    assert_eq!(t.file_classes[0].0, "/w/a.sea");
}

#[test]
fn remove_twice_same_as_once() {
    let mut t = SymbolTable::new();
    t.insert_class(class("Dog", "/w/a.sea", 1));
    t.insert_class(class("Fish", "/w/b.sea", 2));
    t.remove_file("/w/a.sea");
    let once = names(&t);
    t.remove_file("/w/a.sea");
    assert_eq!(names(&t), once);
}

#[test]
fn path_spellings_name_same_file() {
    let mut t = SymbolTable::new();
    t.insert_class(class("Dog", "/w/./lib//a.sea", 1));
    assert!(t.has_file("/w/lib/a.sea"));
    t.remove_file("/w/lib/a.sea/");
    assert!(t.get_class("Dog").is_none());
}

#[test]
fn class_info_default_is_empty() {
    let c = ClassInfo::default();
    assert_eq!(c.name, "");
    assert_eq!(c.line, 0);
    assert!(c.parent.is_none());
    let f = FieldInfo { name: "x".into(), field_type: "int".into(), line: 1, is_pub: true };
    assert!(f.is_pub);
    let m = MethodInfo {
        name: "m".into(),
        params: vec![],
        return_type: "void".into(),
        line: 1,
        is_pub: false,
        is_constructor: false,
        is_drop: false,
    };
    assert!(!m.is_drop);
}

#[test]
fn describe_all_lists_every_class() {
    let mut t = SymbolTable::new();
    let mut c = class("Dog", "/w/a.sea", 12);
    c.parent = Some("Animal".to_string());
    c.implements = vec!["Pet".to_string(), "Loud".to_string()];
    c.fields.push(FieldInfo { name: "age".into(), field_type: "int".into(), line: 13, is_pub: true });
    c.methods.push(MethodInfo {
        name: "bark".into(),
        params: vec![],
        return_type: "void".into(),
        line: 14,
        is_pub: false,
        is_constructor: false,
        is_drop: false,
    });
    t.insert_class(c);
    t.insert_class(class("Cat", "/w/b.sea", 3));
    let expected = "Class: Dog (/w/a.sea:12)\n  inherits: Animal\n  implements: Pet, Loud\n  fields:\n    int age (pub: true, line: 13)\n  methods:\n    bark (pub: false, constructor: false, drop: false, line: 14)\n\nClass: Cat (/w/b.sea:3)\n  fields:\n  methods:\n\n";
    assert_eq!(t.describe_all(), expected);
}

#[test]
fn decimal_of_large_line() {
    let mut t = SymbolTable::new();
    t.insert_class(class("A", "f", 1234567));
    assert_eq!(t.describe_all(), "Class: A (f:1234567)\n  fields:\n  methods:\n\n");
}
