//! A small model of the parsed shape of a candidate library's source, as
//! far as linkage extraction reads it: the top-level statements, function
//! declarations with their attached decorators, and the object-literal
//! payload a linkage decorator carries.  Parsing the source text itself is
//! the job of an external parser; this crate works on the parsed shape.

use vstd::prelude::*;

verus! {

broadcast use vstd::std_specs::vec::group_vec_axioms;

/// One element of an array literal inside a linkage payload: either a
/// string literal or some other expression form.
#[derive(Debug, PartialEq, Eq)]
pub enum ArrayElem {
    Str(String),
    Other,
}

/// The value of an object-literal property, as far as linkage decoding
/// distinguishes values: a string literal, an array literal (whose `None`
/// entries are elisions), or anything else.
#[derive(Debug, PartialEq, Eq)]
pub enum PropValue {
    Str(String),
    Array(Vec<Option<ArrayElem>>),
    Other,
}

/// One property of an object literal.  `key` is `Some` only for a
/// key-value property whose key is a plain identifier; every other
/// property form is skipped by linkage decoding.
#[derive(Debug, PartialEq, Eq)]
pub struct ObjectProp {
    pub key: Option<String>,
    pub value: PropValue,
}

/// An object literal, the payload shape of a linkage decorator.
#[derive(Debug, PartialEq, Eq)]
pub struct ObjectLit {
    pub props: Vec<ObjectProp>,
}

/// One argument of a decorator call: an object literal or anything else.
#[derive(Debug, PartialEq, Eq)]
pub enum DecoratorArg {
    Object(ObjectLit),
    Other,
}

/// One decorator attached to a function declaration.  `callee` is
/// `Some(name)` when the decorator expression is a call whose callee is a
/// plain identifier; its arguments are in `args`.  Any other decorator
/// shape has `callee == None` and is never a linkage marker.
#[derive(Debug, PartialEq, Eq)]
pub struct Decorator {
    pub callee: Option<String>,
    pub args: Vec<DecoratorArg>,
}

/// A top-level function declaration: its identifier, whether it is
/// declared `async`, and its decorators in source order.
#[derive(Debug, PartialEq, Eq)]
pub struct FnDecl {
    pub name: String,
    pub is_async: bool,
    pub decorators: Vec<Decorator>,
}

/// One top-level statement: a function declaration, or any other
/// statement form (left untouched by extraction).
#[derive(Debug, PartialEq, Eq)]
pub enum Stmt {
    Fn(FnDecl),
    Other,
}

/// The top-level statements of one parsed library source, in source order.
#[derive(Debug, PartialEq, Eq)]
pub struct Script {
    pub stmts: Vec<Stmt>,
}

/// The property part of a member access: a plain identifier
/// (`obj.name`) or a computed expression (`obj[expr]`).
#[derive(Debug, PartialEq, Eq)]
pub enum MemberProp {
    Ident(String),
    Computed(Box<Expr>),
}

/// An expression, as far as the placeholder rewrite distinguishes
/// shapes.  The build-time definition lookup it recognizes is the
/// two-level member access `MetaProp.definition.NAME`; every other form
/// only carries nested expression positions to recurse into.
#[derive(Debug, PartialEq, Eq)]
pub enum Expr {
    /// The meta-property of the enclosing module (`import.meta`).
    MetaProp,
    Ident(String),
    Str(String),
    Null,
    Member(Box<Expr>, MemberProp),
    Call(Box<Expr>, Vec<Expr>),
    Array(Vec<Expr>),
}

/// The mathematical shape of a member-access property.
#[verifier::ext_equal]
pub enum MemberPropV {
    Ident(Seq<char>),
    Computed(Box<ExprV>),
}

/// The mathematical shape of an expression.
#[verifier::ext_equal]
pub enum ExprV {
    MetaProp,
    Ident(Seq<char>),
    Str(Seq<char>),
    Null,
    Member(Box<ExprV>, MemberPropV),
    Call(Box<ExprV>, Seq<ExprV>),
    Array(Seq<ExprV>),
}

/// The shape of one expression.
pub open spec fn expr_view(e: Expr) -> ExprV
    decreases e,
{
    match e {
        Expr::MetaProp => ExprV::MetaProp,
        Expr::Ident(s) => ExprV::Ident(s@),
        Expr::Str(s) => ExprV::Str(s@),
        Expr::Null => ExprV::Null,
        Expr::Member(obj, prop) => ExprV::Member(
            Box::new(expr_view(*obj)),
            match prop {
                MemberProp::Ident(s) => MemberPropV::Ident(s@),
                MemberProp::Computed(b) => MemberPropV::Computed(Box::new(expr_view(*b))),
            },
        ),
        Expr::Call(f, args) => ExprV::Call(Box::new(expr_view(*f)), expr_views(args@)),
        Expr::Array(es) => ExprV::Array(expr_views(es@)),
    }
}

/// The shapes of a list of expressions.
pub open spec fn expr_views(es: Seq<Expr>) -> Seq<ExprV>
    decreases es,
{
    if es.len() == 0 {
        Seq::empty()
    } else {
        seq![expr_view(es[0])] + expr_views(es.drop_first())
    }
}

impl View for Expr {
    type V = ExprV;

    open spec fn view(&self) -> ExprV {
        expr_view(*self)
    }
}

/// `expr_views` is the elementwise image of `expr_view`.
pub proof fn lemma_expr_views(es: Seq<Expr>)
    ensures
        expr_views(es).len() == es.len(),
        forall|i: int| 0 <= i < es.len() ==> #[trigger] expr_views(es)[i] == expr_view(es[i]),
    decreases es.len(),
{
    if es.len() > 0 {
        lemma_expr_views(es.drop_first());
        assert(forall|i: int|
            1 <= i < es.len() ==> #[trigger] es.drop_first()[i - 1] == es[i]);
    }
}

} // verus!
