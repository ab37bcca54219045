//! Build-time definitions and the placeholder rewrite: a definitions
//! table parsed from `key=value` entries, and a single-pass tree rewrite
//! that replaces every occurrence of the definition-lookup expression
//! `MetaProp.definition.NAME` with the defined string literal, or with a
//! null literal when `NAME` is not defined.

use vstd::prelude::*;
use vstd::string::*;
use crate::ast::{expr_view, expr_views, lemma_expr_views, Expr, ExprV, MemberProp, MemberPropV};
use crate::imports_map::key_views;
use crate::linkage::str_views;

verus! {

broadcast use vstd::std_specs::vec::group_vec_axioms;

/// The value the definitions table gives a key: the value of the last
/// entry carrying that key, later entries overriding earlier ones.
pub open spec fn lookup_def(entries: Seq<(Seq<char>, Seq<char>)>, key: Seq<char>) -> Option<
    Seq<char>,
>
    decreases entries.len(),
{
    if entries.len() == 0 {
        None
    } else if entries.last().0 == key {
        Some(entries.last().1)
    } else {
        lookup_def(entries.drop_last(), key)
    }
}

/// The position of the first `=` in a definition argument, if any.
pub open spec fn eq_position(s: Seq<char>) -> Option<int>
    decreases s.len(),
{
    if s.len() == 0 {
        None
    } else if s[0] == '=' {
        Some(0)
    } else {
        match eq_position(s.drop_first()) {
            Some(j) => Some(j + 1),
            None => None,
        }
    }
}

/// The table parsed from a list of `key=value` arguments: each argument
/// split on its first `=`, arguments without one silently dropped.
pub open spec fn parsed_defs(args: Seq<Seq<char>>) -> Seq<(Seq<char>, Seq<char>)>
    decreases args.len(),
{
    if args.len() == 0 {
        Seq::empty()
    } else {
        (match eq_position(args[0]) {
            Some(j) => seq![(args[0].take(j), args[0].skip(j + 1))],
            None => Seq::<(Seq<char>, Seq<char>)>::empty(),
        }) + parsed_defs(args.drop_first())
    }
}

/// `eq_position` names the first `=` and nothing else.
proof fn lemma_eq_position(s: Seq<char>)
    ensures
        match eq_position(s) {
            None => forall|j: int| 0 <= j < s.len() ==> s[j] != '=',
            Some(j) => 0 <= j < s.len() && s[j] == '=' && (forall|t: int|
                0 <= t < j ==> s[t] != '='),
        },
    decreases s.len(),
{
    if s.len() > 0 && s[0] != '=' {
        let rest = s.drop_first();
        lemma_eq_position(rest);
        assert(forall|j: int| 1 <= j < s.len() ==> s[j] == #[trigger] rest[j - 1]);
        match eq_position(rest) {
            None => {
                assert forall|j: int| 0 <= j < s.len() implies s[j] != '=' by {
                    if j >= 1 {
                        assert(s[j] == rest[j - 1]);
                    }
                };
            },
            Some(j) => {
                assert(s[j + 1] == rest[j]);
                assert forall|t: int| 0 <= t < j + 1 implies s[t] != '=' by {
                    if t >= 1 {
                        assert(s[t] == rest[t - 1]);
                    }
                };
            },
        }
    }
}

/// A sequence whose first `=` stands at `j` has `j` as its `=` position.
proof fn lemma_eq_position_at(s: Seq<char>, j: int)
    requires
        0 <= j < s.len(),
        s[j] == '=',
        forall|t: int| 0 <= t < j ==> s[t] != '=',
    ensures
        eq_position(s) == Some(j),
    decreases j,
{
    if j > 0 {
        let rest = s.drop_first();
        assert(forall|t: int| 1 <= t < s.len() ==> s[t] == #[trigger] rest[t - 1]);
        lemma_eq_position_at(rest, j - 1);
    }
}

/// Extending the argument list by one argument appends its parsed entry,
/// if it has one.
proof fn lemma_parsed_defs_push(args: Seq<Seq<char>>, a: Seq<char>)
    ensures
        parsed_defs(args.push(a)) == parsed_defs(args) + (match eq_position(a) {
            Some(j) => seq![(a.take(j), a.skip(j + 1))],
            None => Seq::<(Seq<char>, Seq<char>)>::empty(),
        }),
    decreases args.len(),
{
    let tail = (match eq_position(a) {
        Some(j) => seq![(a.take(j), a.skip(j + 1))],
        None => Seq::<(Seq<char>, Seq<char>)>::empty(),
    });
    if args.len() == 0 {
        assert(args.push(a)[0] == a);
        assert(args.push(a).drop_first() =~= Seq::<Seq<char>>::empty());
        assert(parsed_defs(Seq::<Seq<char>>::empty()) =~= Seq::<(Seq<char>, Seq<char>)>::empty());
        assert(parsed_defs(args.push(a)) =~= parsed_defs(args) + tail);
    } else {
        assert(args.push(a)[0] == args[0]);
        assert(args.push(a).drop_first() =~= args.drop_first().push(a));
        lemma_parsed_defs_push(args.drop_first(), a);
        assert(parsed_defs(args.push(a)) =~= parsed_defs(args) + tail);
    }
}

/// The build-time definitions table, in entry order; a later entry for
/// the same key overrides an earlier one.
#[derive(Debug, PartialEq, Eq)]
pub struct Definitions {
    pub entries: Vec<(String, String)>,
}

impl Definitions {
    /// Parses a table from `key=value` arguments: each argument is split
    /// on its first `=`; an argument without `=` is silently dropped.
    #[verifier::loop_isolation(false)]
    pub fn from_args(args: Vec<String>) -> (r: Definitions)
        ensures
            key_views(r.entries@) == parsed_defs(str_views(args@)),
    {
        let mut entries: Vec<(String, String)> = Vec::new();
        let mut i: usize = 0;
        while i < args.len()
            invariant
                0 <= i <= args@.len(),
                key_views(entries@) == parsed_defs(str_views(args@.take(i as int))),
            decreases args@.len() - i,
        {
            let ghost prev = entries@;
            let a = &args[i];
            proof {
                assert(str_views(args@.take(i + 1)) =~= str_views(args@.take(i as int)).push(a@));
                lemma_parsed_defs_push(str_views(args@.take(i as int)), a@);
                lemma_eq_position(a@);
            }
            let n = a.as_str().unicode_len();
            let mut j: usize = 0;
            let mut split: Option<usize> = None;
            while j < n
                invariant
                    0 <= j <= a@.len(),
                    n == a@.len(),
                    match split {
                        None => forall|t: int| 0 <= t < j ==> a@[t] != '=',
                        Some(p) => 0 <= p < j && a@[p as int] == '=' && (forall|t: int|
                            0 <= t < p ==> a@[t] != '='),
                    },
                decreases a@.len() - j,
            {
                if split.is_none() && a.as_str().get_char(j) == '=' {
                    split = Some(j);
                }
                j = j + 1;
            }
            match split {
                Some(p) => {
                    proof {
                        lemma_eq_position_at(a@, p as int);
                    }
                    let k = a.as_str().substring_char(0, p).to_owned();
                    let v = a.as_str().substring_char(p + 1, n).to_owned();
                    entries.push((k, v));
                    proof {
                        assert(k@ =~= a@.take(p as int));
                        assert(v@ =~= a@.skip(p + 1));
                        assert(key_views(entries@) =~= key_views(prev).push((k@, v@)));
                    }
                },
                None => {
                    proof {
                        assert(eq_position(a@) is None);
                    }
                },
            }
            i = i + 1;
        }
        proof {
            assert(args@.take(args@.len() as int) =~= args@);
        }
        Definitions { entries }
    }

    /// Looks a name up in the table: the value of the last entry for it.
    pub fn get(&self, key: &String) -> (r: Option<String>)
        ensures
            match lookup_def(key_views(self.entries@), key@) {
                None => r is None,
                Some(v) => r matches Some(x) && x@ == v,
            },
    {
        proof {
            assert(self.entries@.take(self.entries@.len() as int) =~= self.entries@);
        }
        let mut i: usize = self.entries.len();
        while i > 0
            invariant
                0 <= i <= self.entries@.len(),
                lookup_def(key_views(self.entries@), key@) == lookup_def(
                    key_views(self.entries@.take(i as int)),
                    key@,
                ),
            decreases i,
        {
            let p = &self.entries[i - 1];
            proof {
                assert(key_views(self.entries@.take(i as int)).last() == (p.0@, p.1@));
                assert(key_views(self.entries@.take(i as int)).drop_last() =~= key_views(
                    self.entries@.take(i - 1),
                ));
            }
            if p.0 == *key {
                return Some(p.1.clone());
            }
            i = i - 1;
        }
        proof {
            assert(key_views(self.entries@.take(0)) =~= Seq::<(Seq<char>, Seq<char>)>::empty());
        }
        None
    }
}

/// The name a definition-lookup expression asks for: `e` has the exact
/// shape `MetaProp.definition.NAME` with plain identifier properties.
pub open spec fn lookup_name(e: ExprV) -> Option<Seq<char>> {
    match e {
        ExprV::Member(obj, MemberPropV::Ident(name)) => match *obj {
            ExprV::Member(obj2, MemberPropV::Ident(att)) => {
                if *obj2 == ExprV::MetaProp && att == "definition"@ {
                    Some(name)
                } else {
                    None
                }
            },
            _ => None,
        },
        _ => None,
    }
}

/// One pass of the placeholder rewrite: every definition lookup becomes
/// the defined string literal or a null literal; every other form keeps
/// its shape, with all nested expression positions rewritten.
pub open spec fn rewrite_spec(e: ExprV, defs: Seq<(Seq<char>, Seq<char>)>) -> ExprV
    decreases e,
{
    match lookup_name(e) {
        Some(name) => match lookup_def(defs, name) {
            Some(v) => ExprV::Str(v),
            None => ExprV::Null,
        },
        None => match e {
            ExprV::Member(obj, prop) => ExprV::Member(
                Box::new(rewrite_spec(*obj, defs)),
                match prop {
                    MemberPropV::Ident(s) => MemberPropV::Ident(s),
                    MemberPropV::Computed(b) => MemberPropV::Computed(
                        Box::new(rewrite_spec(*b, defs)),
                    ),
                },
            ),
            ExprV::Call(f, args) => ExprV::Call(
                Box::new(rewrite_spec(*f, defs)),
                rewrite_all(args, defs),
            ),
            ExprV::Array(es) => ExprV::Array(rewrite_all(es, defs)),
            _ => e,
        },
    }
}

/// The placeholder rewrite of each expression of a list.
pub open spec fn rewrite_all(es: Seq<ExprV>, defs: Seq<(Seq<char>, Seq<char>)>) -> Seq<ExprV>
    decreases es,
{
    if es.len() == 0 {
        Seq::empty()
    } else {
        seq![rewrite_spec(es[0], defs)] + rewrite_all(es.drop_first(), defs)
    }
}

/// `rewrite_all` is the elementwise image of `rewrite_spec`.
pub proof fn lemma_rewrite_all(es: Seq<ExprV>, defs: Seq<(Seq<char>, Seq<char>)>)
    ensures
        rewrite_all(es, defs).len() == es.len(),
        forall|i: int|
            0 <= i < es.len() ==> #[trigger] rewrite_all(es, defs)[i] == rewrite_spec(
                es[i],
                defs,
            ),
    decreases es.len(),
{
    if es.len() > 0 {
        lemma_rewrite_all(es.drop_first(), defs);
        assert(forall|i: int|
            1 <= i < es.len() ==> #[trigger] es.drop_first()[i - 1] == es[i]);
    }
}

/// Holds iff some definition-lookup expression occurs anywhere in `e`.
pub open spec fn has_lookup(e: ExprV) -> bool
    decreases e,
{
    ||| lookup_name(e) is Some
    ||| match e {
        ExprV::Member(obj, prop) => has_lookup(*obj) || (match prop {
            MemberPropV::Computed(b) => has_lookup(*b),
            _ => false,
        }),
        ExprV::Call(f, args) => has_lookup(*f) || exists|i: int|
            0 <= i < args.len() && has_lookup(#[trigger] args[i]),
        ExprV::Array(es) => exists|i: int| 0 <= i < es.len() && has_lookup(#[trigger] es[i]),
        _ => false,
    }
}

/// Only `MetaProp` itself rewrites to `MetaProp`: a lookup becomes a
/// string or null literal, and every other form keeps its shape.
proof fn lemma_rewrite_meta_inverse(x: ExprV, defs: Seq<(Seq<char>, Seq<char>)>)
    ensures
        rewrite_spec(x, defs) == ExprV::MetaProp ==> x == ExprV::MetaProp,
{
    if lookup_name(x) is Some {
    } else {
        match x {
            ExprV::MetaProp => {},
            ExprV::Ident(_) => {},
            ExprV::Str(_) => {},
            ExprV::Null => {},
            ExprV::Member(_, _) => {},
            ExprV::Call(_, _) => {},
            ExprV::Array(_) => {},
        }
    }
}

/// The rewrite replaces every definition lookup, however deeply nested:
/// none remains in its result.
pub proof fn lemma_rewrite_leaves_no_lookup(e: ExprV, defs: Seq<(Seq<char>, Seq<char>)>)
    ensures
        !has_lookup(rewrite_spec(e, defs)),
    decreases e,
{
    let r = rewrite_spec(e, defs);
    match lookup_name(e) {
        Some(_) => {},
        None => match e {
            ExprV::Member(obj, prop) => {
                lemma_rewrite_leaves_no_lookup(*obj, defs);
                match prop {
                    MemberPropV::Computed(b) => {
                        lemma_rewrite_leaves_no_lookup(*b, defs);
                    },
                    _ => {},
                }
                // were the result a lookup, the expression itself would
                // have been one
                if lookup_name(r) is Some {
                    match *obj {
                        ExprV::Member(o2, p2) => {
                            if lookup_name(*obj) is None {
                                lemma_rewrite_meta_inverse(*o2, defs);
                                assert(lookup_name(e) is Some);
                            }
                        },
                        _ => {},
                    }
                }
            },
            ExprV::Call(f, args) => {
                lemma_rewrite_leaves_no_lookup(*f, defs);
                lemma_rewrite_all(args, defs);
                assert forall|i: int|
                    0 <= i < rewrite_all(args, defs).len() implies !has_lookup(
                    #[trigger] rewrite_all(args, defs)[i],
                ) by {
                    lemma_rewrite_leaves_no_lookup(args[i], defs);
                };
            },
            ExprV::Array(es) => {
                lemma_rewrite_all(es, defs);
                assert forall|i: int|
                    0 <= i < rewrite_all(es, defs).len() implies !has_lookup(
                    #[trigger] rewrite_all(es, defs)[i],
                ) by {
                    lemma_rewrite_leaves_no_lookup(es[i], defs);
                };
            },
            _ => {},
        },
    }
}

/// The view of an expression is `MetaProp` exactly when the expression is.
proof fn lemma_view_meta(x: Expr)
    ensures
        (expr_view(x) == ExprV::MetaProp) == (x matches Expr::MetaProp),
{
    match x {
        Expr::MetaProp => {},
        Expr::Ident(_) => {},
        Expr::Str(_) => {},
        Expr::Null => {},
        Expr::Member(_, _) => {},
        Expr::Call(_, _) => {},
        Expr::Array(_) => {},
    }
}

/// The single-pass tree rewrite applied to each surviving library's
/// source before compilation, substituting build-time definitions.
#[derive(Debug, PartialEq, Eq)]
pub struct MetaDefinitionsTransformer {
    pub definitions: Definitions,
}

impl MetaDefinitionsTransformer {
    /// Wraps a definitions table for the rewrite pass.
    pub fn new(definitions: Definitions) -> (r: MetaDefinitionsTransformer)
        ensures
            r.definitions == definitions,
    {
        MetaDefinitionsTransformer { definitions }
    }

    /// Rewrites one expression tree: every definition lookup, however
    /// deeply nested, becomes the defined string or a null literal, and
    /// everything else keeps its shape.
    #[verifier::loop_isolation(false)]
    pub fn rewrite_expr(&self, e: &Expr) -> (r: Expr)
        ensures
            r@ == rewrite_spec(e@, key_views(self.definitions.entries@)),
        decreases e,
    {
        let ghost defs = key_views(self.definitions.entries@);
        match e {
            Expr::Member(obj, prop) => {
                let defn = String::from_str("definition");
                let matched: Option<&String> = match (&**obj, prop) {
                    (Expr::Member(obj2, MemberProp::Ident(att)), MemberProp::Ident(name)) => {
                        proof {
                            reveal_with_fuel(expr_view, 3);
                            lemma_view_meta(**obj2);
                        }
                        if matches!(&**obj2, Expr::MetaProp) && *att == defn {
                            Some(name)
                        } else {
                            None
                        }
                    },
                    _ => None,
                };
                match matched {
                    Some(name) => {
                        proof {
                            reveal_with_fuel(expr_view, 3);
                            assert(lookup_name(e@) == Some(name@));
                        }
                        match self.definitions.get(name) {
                            Some(v) => Expr::Str(v),
                            None => Expr::Null,
                        }
                    },
                    None => {
                        proof {
                            reveal_with_fuel(expr_view, 3);
                            assert(lookup_name(e@) is None);
                        }
                        let new_obj = self.rewrite_expr(obj);
                        let new_prop = match prop {
                            MemberProp::Ident(s) => MemberProp::Ident(s.clone()),
                            MemberProp::Computed(b) => MemberProp::Computed(
                                Box::new(self.rewrite_expr(b)),
                            ),
                        };
                        let r = Expr::Member(Box::new(new_obj), new_prop);
                        proof {
                            assert(r@ =~= rewrite_spec(e@, defs));
                        }
                        r
                    },
                }
            },
            Expr::Call(f, args) => {
                let new_f = self.rewrite_expr(f);
                let new_args = self.rewrite_exprs(args);
                let r = Expr::Call(Box::new(new_f), new_args);
                proof {
                    assert(r@ =~= rewrite_spec(e@, defs));
                }
                r
            },
            Expr::Array(es) => {
                let new_es = self.rewrite_exprs(es);
                let r = Expr::Array(new_es);
                proof {
                    assert(r@ =~= rewrite_spec(e@, defs));
                }
                r
            },
            Expr::MetaProp => Expr::MetaProp,
            Expr::Ident(s) => Expr::Ident(s.clone()),
            Expr::Str(s) => Expr::Str(s.clone()),
            Expr::Null => Expr::Null,
        }
    }

    /// Rewrites each expression of a list, keeping order and length.
    #[verifier::loop_isolation(false)]
    fn rewrite_exprs(&self, es: &Vec<Expr>) -> (r: Vec<Expr>)
        ensures
            expr_views(r@) == rewrite_all(expr_views(es@), key_views(self.definitions.entries@)),
        decreases es,
    {
        let ghost defs = key_views(self.definitions.entries@);
        let mut out: Vec<Expr> = Vec::new();
        let mut i: usize = 0;
        while i < es.len()
            invariant
                0 <= i <= es@.len(),
                out@.len() == i,
                forall|t: int|
                    0 <= t < i ==> expr_view(#[trigger] out@[t]) == rewrite_spec(
                        expr_view(es@[t]),
                        defs,
                    ),
            decreases es@.len() - i,
        {
            out.push(self.rewrite_expr(&es[i]));
            i = i + 1;
        }
        proof {
            lemma_expr_views(es@);
            lemma_expr_views(out@);
            lemma_rewrite_all(expr_views(es@), defs);
            assert(expr_views(out@) =~= rewrite_all(expr_views(es@), defs));
        }
        out
    }
}

} // verus!
