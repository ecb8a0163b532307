use sea_lsp::indexer::resolve_import;
use sea_lsp::workspace::{find_workspace_root, is_sea_source, workspace_marker, RootSearch};

#[test]
fn marker_path() {
    assert_eq!(workspace_marker("/home/u/proj"), "/home/u/proj/sea.toml");
}

#[test]
fn root_search_steps() {
    match find_workspace_root("/a/b".to_string(), true) {
        RootSearch::Found(d) => assert_eq!(d, "/a/b"),
        _ => panic!("expected found"),
    }
    match find_workspace_root("/a/b".to_string(), false) {
        RootSearch::Next(d) => assert_eq!(d, "/a"),
        _ => panic!("expected next"),
    }
    assert!(matches!(find_workspace_root("/".to_string(), false), RootSearch::NotFound));
    match find_workspace_root("rel".to_string(), false) {
        RootSearch::Next(d) => assert_eq!(d, ""),
        _ => panic!("expected next"),
    }
    assert!(matches!(find_workspace_root("".to_string(), false), RootSearch::NotFound));
}

#[test]
fn sea_sources_filter() {
    assert!(is_sea_source("/w/src/main.sea"));
    assert!(!is_sea_source("/w/src/main.rs"));
    assert!(!is_sea_source("/w/target/x.sea"));
    assert!(!is_sea_source("/w/.git/y.sea"));
    assert!(!is_sea_source("/w/node_modules/z.sea"));
    assert!(!is_sea_source("/w/.cargo/z.sea"));
    assert!(is_sea_source("/w/targets/ok.sea"));
    assert!(!is_sea_source("/w/noext"));
}

#[test]
fn import_resolution() {
    assert_eq!(resolve_import(&"/w/src/main.sea".to_string(), &"\"lib\"".to_string()), "/w/src/lib.sea");
    assert_eq!(resolve_import(&"main.sea".to_string(), &"\"util/x\"".to_string()), "util/x.sea");
    assert_eq!(resolve_import(&"".to_string(), &"a".to_string()), "./a.sea");
}

fn search(start: &str, marked: &[&str]) -> Option<String> {
    let mut current = start.to_string();
    loop {
        let has = marked.contains(&current.as_str());
        match find_workspace_root(current, has) {
            RootSearch::Found(d) => return Some(d),
            RootSearch::Next(p) => current = p,
            RootSearch::NotFound => return None,
        }
    }
}

#[test]
fn root_search_from_found_root_finds_it_again() {
    let marked = ["/w", "/w/x/y"];
    let root = search("/w/a/b", &marked).unwrap();
    assert_eq!(root, "/w");
    assert_eq!(search(&root, &marked), Some(root.clone()));
    let inner = search("/w/x/y/z", &marked).unwrap();
    assert_eq!(inner, "/w/x/y");
    assert_eq!(search(&inner, &marked), Some(inner.clone()));
    assert_eq!(search("/q/r", &marked), None);
}
