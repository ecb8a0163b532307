use sea_lsp::indexer::{
    collect_class_info, collect_field_info, collect_method_info, index_file, index_workspace,
    IndexStep,
};
use sea_lsp::symbol_table::SymbolTable;
use sea_lsp::syntax::{SyntaxNode, SyntaxTree};

struct Builder {
    nodes: Vec<SyntaxNode>,
}

impl Builder {
    fn new() -> Builder {
        let mut b = Builder { nodes: Vec::new() };
        b.node("source_file", "", 0);
        b
    }

    fn node(&mut self, kind: &str, text: &str, row: usize) -> usize {
        self.nodes.push(SyntaxNode {
            kind: kind.to_string(),
            text: text.to_string(),
            row,
            children: Vec::new(),
            fields: Vec::new(),
            first_named: None,
        });
        self.nodes.len() - 1
    }

    fn child(&mut self, parent: usize, kind: &str, text: &str, row: usize) -> usize {
        let c = self.node(kind, text, row);
        self.nodes[parent].children.push(c);
        if self.nodes[parent].first_named.is_none() && kind != "," {
            self.nodes[parent].first_named = Some(c);
        }
        c
    }

    fn field(&mut self, parent: usize, name: &str, kind: &str, text: &str, row: usize) -> usize {
        let c = self.child(parent, kind, text, row);
        self.nodes[parent].fields.push((name.to_string(), c));
        c
    }

    fn typed(&mut self, parent: usize, field: &str, base: &str, row: usize) {
        let t = self.field(parent, field, "type", base, row);
        self.field(t, "base", "identifier", base, row);
    }

    fn tree(self) -> SyntaxTree {
        SyntaxTree { nodes: self.nodes }
    }
}

/// import "lib"
/// class Dog inherit Animal implements Pet, Loud {
///   pub int age;
///   String secret;
///   pub bark(int times, String msg) -> String { }
///   pub init(int a) { }
///   drop { }
/// }
fn sample() -> (SyntaxTree, usize) {
    let mut b = Builder::new();
    let imp = b.child(0, "import_declaration", "import \"lib\"", 0);
    b.field(imp, "path", "string", "\"lib\"", 0);
    let class = b.child(0, "class_declaration", "class Dog ...", 1);
    b.field(class, "name", "identifier", "Dog", 1);
    let inh = b.field(class, "inherit", "inherit_clause", "inherit Animal", 1);
    b.field(inh, "parent", "identifier", "Animal", 1);
    let imps = b.field(class, "implements", "implements_clause", "implements Pet, Loud", 1);
    b.child(imps, "implements", "implements", 1);
    b.child(imps, "identifier", "Pet", 1);
    b.child(imps, ",", ",", 1);
    b.child(imps, "identifier", "Loud", 1);
    let f1 = b.child(class, "field_declaration", "pub int age;", 2);
    b.field(f1, "visibility", "visibility", "pub", 2);
    b.typed(f1, "type", "int", 2);
    b.field(f1, "name", "identifier", "age", 2);
    let f2 = b.child(class, "field_declaration", "String secret;", 3);
    b.typed(f2, "type", "String", 3);
    b.field(f2, "name", "identifier", "secret", 3);
    let m = b.child(class, "method_declaration", "pub bark...", 4);
    let sm = b.child(m, "sea_style_method", "pub bark...", 4);
    b.field(sm, "visibility", "visibility", "pub", 4);
    b.field(sm, "name", "identifier", "bark", 4);
    let ps = b.field(sm, "parameters", "parameters", "(int times, String msg)", 4);
    b.child(ps, "(", "(", 4);
    let p1 = b.child(ps, "sea_parameter", "int times", 4);
    b.typed(p1, "type", "int", 4);
    b.field(p1, "name", "identifier", "times", 4);
    b.child(ps, ",", ",", 4);
    let p2 = b.child(ps, "sea_parameter", "String msg", 4);
    b.typed(p2, "type", "String", 4);
    b.field(p2, "name", "identifier", "msg", 4);
    let rt = b.field(sm, "return_type", "return_type", "-> String", 4);
    let rtt = b.child(rt, "type", "String", 4);
    b.field(rtt, "base", "identifier", "String", 4);
    let init = b.child(class, "init_declaration", "pub init(int a) { }", 5);
    b.field(init, "visibility", "visibility", "pub", 5);
    let ips = b.field(init, "parameters", "parameters", "(int a)", 5);
    let ip = b.child(ips, "sea_parameter", "int a", 5);
    b.typed(ip, "type", "int", 5);
    b.field(ip, "name", "identifier", "a", 5);
    b.child(class, "drop_declaration", "drop { }", 6);
    (b.tree(), class)
}

#[test]
fn class_info_from_tree() {
    let (t, class) = sample();
    let c = collect_class_info(&t, class, &"/w/main.sea".to_string()).unwrap();
    assert_eq!(c.name, "Dog");
    assert_eq!(c.line, 2);
    assert_eq!(c.parent, Some("Animal".to_string()));
    assert_eq!(c.implements, vec!["Pet".to_string(), "Loud".to_string()]);
    assert_eq!(c.file, "/w/main.sea");
    assert_eq!(c.fields.len(), 2);
    assert_eq!(c.fields[0].name, "age");
    assert_eq!(c.fields[0].field_type, "int");
    assert!(c.fields[0].is_pub);
    assert_eq!(c.fields[0].line, 3);
    assert!(!c.fields[1].is_pub);
    assert_eq!(c.methods.len(), 3);
    let bark = &c.methods[0];
    assert_eq!(bark.name, "bark");
    assert_eq!(bark.return_type, "String");
    assert_eq!(
        bark.params,
        vec![("int".to_string(), "times".to_string()), ("String".to_string(), "msg".to_string())]
    );
    assert!(bark.is_pub && !bark.is_constructor && !bark.is_drop);
    let init = &c.methods[1];
    assert_eq!(init.name, "init");
    assert!(init.is_constructor);
    assert_eq!(init.return_type, "void");
    assert_eq!(init.params, vec![("int".to_string(), "a".to_string())]);
    let drop = &c.methods[2];
    assert_eq!(drop.name, "drop");
    assert!(drop.is_drop && !drop.is_pub);
    assert_eq!(drop.line, 7);
}

#[test]
fn field_without_type_is_malformed() {
    let mut b = Builder::new();
    let f = b.child(0, "field_declaration", "x;", 0);
    b.field(f, "name", "identifier", "x", 0);
    let t = b.tree();
    assert!(collect_field_info(&t, f).is_none());
}

#[test]
fn method_without_name_is_malformed() {
    let mut b = Builder::new();
    let m = b.child(0, "method_declaration", "()", 0);
    b.child(m, "sea_style_method", "()", 0);
    let t = b.tree();
    assert!(collect_method_info(&t, m).is_none());
}

#[test]
fn indexing_reads_classes_and_reports_imports() {
    let (t, _) = sample();
    let mut table = SymbolTable::new();
    let mut job = index_file(t, "/w/main.sea".to_string());
    match job.advance(&mut table) {
        IndexStep::Import(p) => assert_eq!(p, "/w/lib.sea"),
        _ => panic!("expected import"),
    }
    let mut lib = Builder::new();
    let lc = lib.child(0, "class_declaration", "class Lib {}", 0);
    lib.field(lc, "name", "identifier", "Lib", 0);
    job.enter_import(lib.tree(), "/w/lib.sea".to_string());
    let mut steps = 0;
    loop {
        match job.advance(&mut table) {
            IndexStep::Finished => break,
            IndexStep::Continue => {}
            _ => panic!("unexpected step"),
        }
        steps += 1;
    }
    assert_eq!(steps, 4);
    let names: Vec<String> = table.classes.iter().map(|c| c.name.clone()).collect();
    assert_eq!(names, vec!["Lib", "Dog"]);
    assert!(table.has_file("/w/lib.sea"));
    assert!(table.has_file("/w/main.sea"));
}

#[test]
fn indexed_import_is_not_reported_again() {
    let mut table = SymbolTable::new();
    let mut lib = Builder::new();
    let lc = lib.child(0, "class_declaration", "class Lib {}", 0);
    lib.field(lc, "name", "identifier", "Lib", 0);
    let mut job = index_file(lib.tree(), "/w/./lib.sea".to_string());
    while !matches!(job.advance(&mut table), IndexStep::Finished) {}
    let (t, _) = sample();
    let mut job = index_file(t, "/w/main.sea".to_string());
    assert!(matches!(job.advance(&mut table), IndexStep::Continue));
}

#[test]
fn class_without_name_is_malformed() {
    let mut b = Builder::new();
    b.child(0, "class_declaration", "class {}", 0);
    let mut table = SymbolTable::new();
    let mut job = index_file(b.tree(), "f.sea".to_string());
    assert!(matches!(job.advance(&mut table), IndexStep::Malformed));
    assert!(table.classes.is_empty());
}

#[test]
fn workspace_files_read_in_order() {
    let mut a = Builder::new();
    let ac = a.child(0, "class_declaration", "class A {}", 0);
    a.field(ac, "name", "identifier", "A", 0);
    let mut b = Builder::new();
    let bc = b.child(0, "class_declaration", "class B {}", 0);
    b.field(bc, "name", "identifier", "B", 0);
    let mut job = index_workspace(vec![(a.tree(), "a.sea".to_string()), (b.tree(), "b.sea".to_string())]);
    let mut table = SymbolTable::new();
    while !matches!(job.advance(&mut table), IndexStep::Finished) {}
    let names: Vec<String> = table.classes.iter().map(|c| c.name.clone()).collect();
    assert_eq!(names, vec!["A", "B"]);
}

#[test]
fn indexing_run_keeps_every_class_listed_by_its_file() {
    let mut a = Builder::new();
    let ac = a.child(0, "class_declaration", "class A {}", 0);
    a.field(ac, "name", "identifier", "A", 0);
    let mut b = Builder::new();
    let bc = b.child(0, "class_declaration", "class B {}", 0);
    b.field(bc, "name", "identifier", "B", 0);
    let bc2 = b.child(0, "class_declaration", "class A {}", 1);
    b.field(bc2, "name", "identifier", "A", 1);
    let mut job = index_workspace(vec![(a.tree(), "a.sea".to_string()), (b.tree(), "b.sea".to_string())]);
    let mut table = SymbolTable::new();
    let mut previous: Vec<(String, Vec<String>)> = Vec::new();
    while !matches!(job.advance(&mut table), IndexStep::Finished) {
        for (file, names) in &previous {
            let now = table.file_classes.iter().find(|(f, _)| f == file).expect("file kept");
            assert!(now.1.starts_with(names));
        }
        for class in &table.classes {
            let key = class.file.clone();
            let entry = table.file_classes.iter().find(|(f, _)| *f == key).expect("file listed");
            assert!(entry.1.contains(&class.name));
        }
        previous = table.file_classes.clone();
    }
    assert_eq!(table.file_classes.len(), 2);
}
