use wasm_linker::ast::{
    ArrayElem, Decorator, DecoratorArg, FnDecl, ObjectLit, ObjectProp, PropValue, Script, Stmt,
};
use wasm_linker::library::Library;
use wasm_linker::linkage::{FunctionLinkage, LinkageError};

fn str_prop(key: &str, value: &str) -> ObjectProp {
    ObjectProp { key: Some(key.to_string()), value: PropValue::Str(value.to_string()) }
}

fn deps_prop(names: &[&str]) -> ObjectProp {
    ObjectProp {
        key: Some("dependencies".to_string()),
        value: PropValue::Array(
            names.iter().map(|n| Some(ArrayElem::Str(n.to_string()))).collect(),
        ),
    }
}

fn linkage_decorator(props: Vec<ObjectProp>) -> Decorator {
    Decorator {
        callee: Some("linkage".to_string()),
        args: vec![DecoratorArg::Object(ObjectLit { props })],
    }
}

fn fn_decl(name: &str, is_async: bool, decorators: Vec<Decorator>) -> FnDecl {
    FnDecl { name: name.to_string(), is_async, decorators }
}

#[test]
fn extracts_namespace_and_dependencies() {
    let mut decl = fn_decl(
        "send",
        true,
        vec![linkage_decorator(vec![str_prop("namespace", "net"), deps_prop(&["a", "b"])])],
    );
    let got = FunctionLinkage::from(&mut decl).unwrap().unwrap();
    assert_eq!(got.name, "send");
    assert!(got.is_async);
    assert_eq!(got.namespace, "net");
    assert_eq!(got.dependencies, vec!["a".to_string(), "b".to_string()]);
    // the linkage decorator is removed from the declaration
    assert!(decl.decorators.is_empty());
}

#[test]
fn namespace_defaults_to_env() {
    let mut decl = fn_decl("f", false, vec![linkage_decorator(vec![])]);
    let got = FunctionLinkage::from(&mut decl).unwrap().unwrap();
    assert_eq!(got.namespace, "env");
    assert!(got.dependencies.is_empty());
}

#[test]
fn last_namespace_property_wins() {
    let mut decl = fn_decl(
        "f",
        false,
        vec![linkage_decorator(vec![str_prop("namespace", "one"), str_prop("namespace", "two")])],
    );
    let got = FunctionLinkage::from(&mut decl).unwrap().unwrap();
    assert_eq!(got.namespace, "two");
}

#[test]
fn unknown_properties_and_holes_are_ignored() {
    let holes = ObjectProp {
        key: Some("dependencies".to_string()),
        value: PropValue::Array(vec![None, Some(ArrayElem::Str("x".to_string())), None]),
    };
    let mut decl = fn_decl(
        "f",
        false,
        vec![linkage_decorator(vec![str_prop("color", "red"), holes])],
    );
    let got = FunctionLinkage::from(&mut decl).unwrap().unwrap();
    assert_eq!(got.namespace, "env");
    assert_eq!(got.dependencies, vec!["x".to_string()]);
}

#[test]
fn non_string_namespace_is_fatal() {
    let bad = ObjectProp { key: Some("namespace".to_string()), value: PropValue::Other };
    let mut decl = fn_decl("f", false, vec![linkage_decorator(vec![bad])]);
    assert_eq!(FunctionLinkage::from(&mut decl), Err(LinkageError::InvalidNamespace));
}

#[test]
fn non_array_dependencies_is_fatal() {
    let bad = ObjectProp {
        key: Some("dependencies".to_string()),
        value: PropValue::Str("nope".to_string()),
    };
    let mut decl = fn_decl("f", false, vec![linkage_decorator(vec![bad])]);
    assert_eq!(FunctionLinkage::from(&mut decl), Err(LinkageError::ExpectedDependencyArray));
}

#[test]
fn non_string_dependency_entry_is_fatal() {
    let bad = ObjectProp {
        key: Some("dependencies".to_string()),
        value: PropValue::Array(vec![Some(ArrayElem::Other)]),
    };
    let mut decl = fn_decl("f", false, vec![linkage_decorator(vec![bad])]);
    assert_eq!(FunctionLinkage::from(&mut decl), Err(LinkageError::InvalidDependency));
}

#[test]
fn linkage_decorator_without_argument_is_fatal() {
    let marker = Decorator { callee: Some("linkage".to_string()), args: vec![] };
    let mut decl = fn_decl("f", false, vec![marker]);
    assert_eq!(FunctionLinkage::from(&mut decl), Err(LinkageError::MissingArgument));
}

#[test]
fn function_without_linkage_is_untouched() {
    let other = Decorator { callee: Some("memo".to_string()), args: vec![] };
    let mut decl = fn_decl("f", false, vec![other]);
    let got = FunctionLinkage::from(&mut decl).unwrap();
    assert!(got.is_none());
    assert_eq!(decl.decorators.len(), 1);
    assert_eq!(decl.decorators[0].callee, Some("memo".to_string()));
}

#[test]
fn only_first_linkage_decorator_is_removed() {
    let other = Decorator { callee: Some("memo".to_string()), args: vec![] };
    let mut decl = fn_decl(
        "f",
        false,
        vec![other, linkage_decorator(vec![]), Decorator { callee: None, args: vec![] }],
    );
    let got = FunctionLinkage::from(&mut decl).unwrap().unwrap();
    assert_eq!(got.namespace, "env");
    // removal swaps the last decorator into the freed slot
    assert_eq!(decl.decorators.len(), 2);
    assert_eq!(decl.decorators[0].callee, Some("memo".to_string()));
    assert_eq!(decl.decorators[1].callee, None);
}

#[test]
fn library_collects_linkages_in_declaration_order() {
    let script = Script {
        stmts: vec![
            Stmt::Other,
            Stmt::Fn(fn_decl("a", false, vec![linkage_decorator(vec![])])),
            Stmt::Fn(fn_decl("plain", false, vec![])),
            Stmt::Fn(fn_decl(
                "b",
                true,
                vec![linkage_decorator(vec![str_prop("namespace", "net")])],
            )),
        ],
    };
    let (lib, out) = Library::new(42, script).unwrap();
    assert_eq!(lib.source, 42);
    let names: Vec<&str> = lib.linkages.iter().map(|l| l.name.as_str()).collect();
    assert_eq!(names, vec!["a", "b"]);
    assert_eq!(lib.linkages[0].namespace, "env");
    assert_eq!(lib.linkages[1].namespace, "net");
    assert!(lib.linkages[1].is_async);
    assert_eq!(out.stmts.len(), 4);
    match &out.stmts[3] {
        Stmt::Fn(f) => assert!(f.decorators.is_empty()),
        _ => panic!("expected a function declaration"),
    }
}

#[test]
fn library_reports_first_malformation() {
    let bad = ObjectProp { key: Some("namespace".to_string()), value: PropValue::Other };
    let script = Script {
        stmts: vec![
            Stmt::Fn(fn_decl("ok", false, vec![linkage_decorator(vec![])])),
            Stmt::Fn(fn_decl("bad", false, vec![linkage_decorator(vec![bad])])),
        ],
    };
    assert_eq!(Library::new(0, script), Err(LinkageError::InvalidNamespace));
}
