use wasm_linker::imports_map::ImportsMap;
use wasm_linker::library::Library;
use wasm_linker::linkage::FunctionLinkage;
use wasm_linker::wasm::{ModuleImport, ModuleType};

fn linkage(namespace: &str, name: &str) -> FunctionLinkage {
    FunctionLinkage {
        name: name.to_string(),
        is_async: false,
        namespace: namespace.to_string(),
        dependencies: vec![],
    }
}

fn import(namespace: &str, name: &str) -> ModuleImport {
    ModuleImport {
        namespace: namespace.to_string(),
        name: Some(name.to_string()),
        ty: ModuleType::Unknown,
    }
}

fn keys(v: &[(String, String)]) -> Vec<(&str, &str)> {
    v.iter().map(|(a, b)| (a.as_str(), b.as_str())).collect()
}

#[test]
fn two_libraries_satisfy_two_imports() {
    let imports = vec![import("env", "foo"), import("env", "bar")];
    let lib_a = Library { linkages: vec![linkage("env", "foo")], source: 0 };
    let lib_b = Library { linkages: vec![linkage("env", "bar")], source: 1 };
    let lib_c = Library { linkages: vec![], source: 2 };
    let (map, survivors) = ImportsMap::new(imports, vec![lib_a, lib_b, lib_c]);
    let sources: Vec<usize> = survivors.iter().map(|l| l.source).collect();
    assert_eq!(sources, vec![0, 1]);
    assert_eq!(keys(&map.symbols), vec![("env", "foo"), ("env", "bar")]);
    assert!(map.missing_symbols.is_empty());
    assert_eq!(map.to_string(), "{env:{foo,bar}}");
}

#[test]
fn unsatisfied_import_is_missing() {
    let imports = vec![import("env", "foo")];
    let (map, survivors) = ImportsMap::new(imports, vec![]);
    assert!(survivors.is_empty());
    assert!(map.symbols.is_empty());
    assert_eq!(keys(&map.missing_symbols), vec![("env", "foo")]);
    assert_eq!(map.to_string(), "{}");
}

#[test]
fn duplicate_imports_collapse() {
    let imports = vec![import("env", "foo"), import("env", "foo"), import("env", "foo")];
    let lib = Library { linkages: vec![linkage("env", "foo")], source: 7 };
    let (map, survivors) = ImportsMap::new(imports, vec![lib]);
    assert_eq!(keys(&map.symbols), vec![("env", "foo")]);
    assert!(map.missing_symbols.is_empty());
    assert_eq!(survivors.len(), 1);
}

#[test]
fn anonymous_import_appears_nowhere() {
    let anonymous = ModuleImport {
        namespace: "env".to_string(),
        name: None,
        ty: ModuleType::Memory,
    };
    let imports = vec![anonymous, import("env", "foo")];
    let lib = Library { linkages: vec![linkage("env", "foo")], source: 0 };
    let (map, _) = ImportsMap::new(imports, vec![lib]);
    assert_eq!(keys(&map.symbols), vec![("env", "foo")]);
    assert!(map.missing_symbols.is_empty());
}

#[test]
fn partition_covers_required_imports() {
    let imports = vec![import("env", "a"), import("math", "b"), import("env", "c")];
    let lib = Library { linkages: vec![linkage("math", "b")], source: 3 };
    let (map, survivors) = ImportsMap::new(imports, vec![lib]);
    assert_eq!(keys(&map.symbols), vec![("math", "b")]);
    assert_eq!(keys(&map.missing_symbols), vec![("env", "a"), ("env", "c")]);
    assert_eq!(survivors.len(), 1);
    for k in &map.symbols {
        assert!(!map.missing_symbols.contains(k));
    }
}

#[test]
fn matching_is_exact_on_namespace_and_name() {
    let imports = vec![import("env", "foo")];
    let wrong_ns = Library { linkages: vec![linkage("other", "foo")], source: 0 };
    let wrong_name = Library { linkages: vec![linkage("env", "bar")], source: 1 };
    let (map, survivors) = ImportsMap::new(imports, vec![wrong_ns, wrong_name]);
    assert!(survivors.is_empty());
    assert_eq!(keys(&map.missing_symbols), vec![("env", "foo")]);
}

#[test]
fn first_library_provides_redundant_symbol() {
    let imports = vec![import("env", "foo")];
    let lib_a = Library { linkages: vec![linkage("env", "foo")], source: 0 };
    let lib_b = Library { linkages: vec![linkage("env", "foo")], source: 1 };
    let (map, survivors) = ImportsMap::new(imports, vec![lib_a, lib_b]);
    // both redundant providers survive; the map records resolution only
    let sources: Vec<usize> = survivors.iter().map(|l| l.source).collect();
    assert_eq!(sources, vec![0, 1]);
    assert_eq!(keys(&map.symbols), vec![("env", "foo")]);
}

#[test]
fn serializes_single_symbol() {
    let map = ImportsMap {
        symbols: vec![("env".to_string(), "log".to_string())],
        missing_symbols: vec![],
    };
    assert_eq!(map.to_string(), "{env:{log}}");
}

#[test]
fn serializes_groups_in_first_appearance_order() {
    let map = ImportsMap {
        symbols: vec![
            ("env".to_string(), "foo".to_string()),
            ("math".to_string(), "add".to_string()),
            ("env".to_string(), "bar".to_string()),
        ],
        missing_symbols: vec![],
    };
    assert_eq!(map.to_string(), "{env:{foo,bar},math:{add}}");
}

#[test]
fn contains_symbol_scans_whole_table() {
    let lib = Library {
        linkages: vec![linkage("env", "a"), linkage("math", "b")],
        source: 0,
    };
    assert!(lib.contains_symbol(&"math".to_string(), &"b".to_string()));
    assert!(!lib.contains_symbol(&"math".to_string(), &"a".to_string()));
    assert!(!lib.contains_symbol(&"env".to_string(), &"b".to_string()));
}
