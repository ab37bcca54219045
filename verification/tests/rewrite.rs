use wasm_linker::ast::{Expr, MemberProp};
use wasm_linker::definitions::{Definitions, MetaDefinitionsTransformer};

fn defs(entries: &[(&str, &str)]) -> Definitions {
    Definitions {
        entries: entries.iter().map(|(k, v)| (k.to_string(), v.to_string())).collect(),
    }
}

fn lookup(name: &str) -> Expr {
    Expr::Member(
        Box::new(Expr::Member(
            Box::new(Expr::MetaProp),
            MemberProp::Ident("definition".to_string()),
        )),
        MemberProp::Ident(name.to_string()),
    )
}

#[test]
fn defined_name_becomes_string_literal() {
    let t = MetaDefinitionsTransformer::new(defs(&[("BUILD", "release")]));
    assert_eq!(t.rewrite_expr(&lookup("BUILD")), Expr::Str("release".to_string()));
}

#[test]
fn undefined_name_becomes_null_literal() {
    let t = MetaDefinitionsTransformer::new(defs(&[("BUILD", "release")]));
    assert_eq!(t.rewrite_expr(&lookup("MISSING")), Expr::Null);
}

#[test]
fn nested_occurrences_are_rewritten() {
    let t = MetaDefinitionsTransformer::new(defs(&[("BUILD", "release")]));
    // two levels deep: a call argument holding an array holding the lookup
    let e = Expr::Call(
        Box::new(Expr::Ident("f".to_string())),
        vec![Expr::Array(vec![lookup("BUILD"), Expr::Ident("x".to_string())])],
    );
    let want = Expr::Call(
        Box::new(Expr::Ident("f".to_string())),
        vec![Expr::Array(vec![
            Expr::Str("release".to_string()),
            Expr::Ident("x".to_string()),
        ])],
    );
    assert_eq!(t.rewrite_expr(&e), want);
}

#[test]
fn lookup_inside_computed_member_is_rewritten() {
    let t = MetaDefinitionsTransformer::new(defs(&[("K", "v")]));
    let e = Expr::Member(
        Box::new(Expr::Ident("table".to_string())),
        MemberProp::Computed(Box::new(lookup("K"))),
    );
    let want = Expr::Member(
        Box::new(Expr::Ident("table".to_string())),
        MemberProp::Computed(Box::new(Expr::Str("v".to_string()))),
    );
    assert_eq!(t.rewrite_expr(&e), want);
}

#[test]
fn unrelated_member_access_keeps_its_shape() {
    let t = MetaDefinitionsTransformer::new(defs(&[("BUILD", "release")]));
    let e = Expr::Member(
        Box::new(Expr::Ident("console".to_string())),
        MemberProp::Ident("log".to_string()),
    );
    assert_eq!(t.rewrite_expr(&e), e);
}

#[test]
fn wrong_attribute_is_not_a_lookup() {
    let t = MetaDefinitionsTransformer::new(defs(&[("BUILD", "release")]));
    let e = Expr::Member(
        Box::new(Expr::Member(
            Box::new(Expr::MetaProp),
            MemberProp::Ident("url".to_string()),
        )),
        MemberProp::Ident("BUILD".to_string()),
    );
    assert_eq!(t.rewrite_expr(&e), e);
}

#[test]
fn from_args_splits_on_first_equals() {
    let d = Definitions::from_args(vec![
        "BUILD=release".to_string(),
        "noequals".to_string(),
        "A=1=2".to_string(),
        "EMPTY=".to_string(),
    ]);
    let got: Vec<(&str, &str)> =
        d.entries.iter().map(|(k, v)| (k.as_str(), v.as_str())).collect();
    assert_eq!(got, vec![("BUILD", "release"), ("A", "1=2"), ("EMPTY", "")]);
}

#[test]
fn later_definition_overrides_earlier() {
    let d = Definitions::from_args(vec!["K=a".to_string(), "K=b".to_string()]);
    assert_eq!(d.get(&"K".to_string()), Some("b".to_string()));
    assert_eq!(d.get(&"Z".to_string()), None);
}
