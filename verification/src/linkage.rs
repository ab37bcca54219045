//! Extraction of linkage declarations: a top-level function declaration
//! carrying a decorator named `linkage` whose first argument is an object
//! literal declares that the function is importable under a
//! `(namespace, name)` pair.

use vstd::prelude::*;
use vstd::string::*;
use crate::ast::{ArrayElem, Decorator, DecoratorArg, FnDecl, ObjectLit, ObjectProp, PropValue};

verus! {

/// A malformed linkage declaration.  Any of these is fatal for the whole
/// file: silently ignoring a malformed declaration would either wrongly
/// omit a provided symbol or silently produce an incorrect one.
#[derive(Debug, Clone, Copy, PartialEq, Eq, Structural)]
pub enum LinkageError {
    /// The `namespace` property's value is not a string literal.
    InvalidNamespace,
    /// The `dependencies` property's value is not an array literal.
    ExpectedDependencyArray,
    /// An entry of the `dependencies` array is not a string literal.
    InvalidDependency,
    /// The linkage decorator carries no argument at all.
    MissingArgument,
}

/// One extracted linkage declaration: the function's identifier, whether
/// it is async, the namespace it is importable under (`"env"` when the
/// declaration names none), and its declared dependencies (recorded for
/// downstream consumers, not enforced here).  Identity for matching is
/// the pair `(namespace, name)`.
#[derive(Debug, PartialEq, Eq)]
pub struct FunctionLinkage {
    pub name: String,
    pub is_async: bool,
    pub namespace: String,
    pub dependencies: Vec<String>,
}

/// The mathematical shape of a linkage declaration.
pub struct LinkageV {
    pub name: Seq<char>,
    pub is_async: bool,
    pub namespace: Seq<char>,
    pub dependencies: Seq<Seq<char>>,
}

/// The views of a sequence of strings.
pub open spec fn str_views(s: Seq<String>) -> Seq<Seq<char>> {
    s.map_values(|x: String| x@)
}

/// The views of a sequence of linkage declarations.
pub open spec fn linkage_views(s: Seq<FunctionLinkage>) -> Seq<LinkageV> {
    s.map_values(|l: FunctionLinkage| l@)
}

impl View for FunctionLinkage {
    type V = LinkageV;

    open spec fn view(&self) -> LinkageV {
        LinkageV {
            name: self.name@,
            is_async: self.is_async,
            namespace: self.namespace@,
            dependencies: str_views(self.dependencies@),
        }
    }
}

/// Holds iff `p` is a key-value property whose key is the identifier `key`.
pub open spec fn prop_is(p: ObjectProp, key: Seq<char>) -> bool {
    p.key matches Some(k) && k@ == key
}

/// The error that decoding one property of a linkage object reports, if any.
pub open spec fn prop_error(p: ObjectProp) -> Option<LinkageError> {
    if prop_is(p, "namespace"@) && !(p.value matches PropValue::Str(_)) {
        Some(LinkageError::InvalidNamespace)
    } else if prop_is(p, "dependencies"@) {
        match p.value {
            PropValue::Array(elems) => {
                if exists|i: int|
                    0 <= i < elems@.len() && #[trigger] elems@[i] matches Some(
                        ArrayElem::Other,
                    ) {
                    Some(LinkageError::InvalidDependency)
                } else {
                    None
                }
            },
            _ => Some(LinkageError::ExpectedDependencyArray),
        }
    } else {
        None
    }
}

/// The first error among the properties of a linkage object, in source
/// order, if any.
pub open spec fn props_error(props: Seq<ObjectProp>) -> Option<LinkageError>
    decreases props.len(),
{
    if props.len() == 0 {
        None
    } else if prop_error(props[0]) is Some {
        prop_error(props[0])
    } else {
        props_error(props.drop_first())
    }
}

/// The namespace a well-formed linkage object declares: the value of its
/// last `namespace` property, or `"env"` when it has none.
pub open spec fn namespace_of(props: Seq<ObjectProp>) -> Seq<char>
    decreases props.len(),
{
    if props.len() == 0 {
        "env"@
    } else if prop_is(props.last(), "namespace"@) {
        match props.last().value {
            PropValue::Str(s) => s@,
            _ => namespace_of(props.drop_last()),
        }
    } else {
        namespace_of(props.drop_last())
    }
}

/// The string entries of a well-formed `dependencies` array, elisions
/// skipped, in order.
pub open spec fn array_strings(elems: Seq<Option<ArrayElem>>) -> Seq<Seq<char>>
    decreases elems.len(),
{
    if elems.len() == 0 {
        Seq::empty()
    } else {
        let rest = array_strings(elems.drop_first());
        match elems[0] {
            Some(ArrayElem::Str(s)) => seq![s@] + rest,
            _ => rest,
        }
    }
}

/// The dependencies a well-formed linkage object declares: the decoded
/// entries of its last `dependencies` property, or none.
pub open spec fn dependencies_of(props: Seq<ObjectProp>) -> Seq<Seq<char>>
    decreases props.len(),
{
    if props.len() == 0 {
        Seq::empty()
    } else if prop_is(props.last(), "dependencies"@) {
        match props.last().value {
            PropValue::Array(elems) => array_strings(elems@),
            _ => dependencies_of(props.drop_last()),
        }
    } else {
        dependencies_of(props.drop_last())
    }
}

/// The linkage a well-formed object literal declares for a function with
/// the given identifier and asyncness.
pub open spec fn linkage_of_object(name: Seq<char>, is_async: bool, obj: ObjectLit) -> LinkageV {
    LinkageV {
        name: name,
        is_async: is_async,
        namespace: namespace_of(obj.props@),
        dependencies: dependencies_of(obj.props@),
    }
}

/// Holds iff `d` is a linkage marker: a decorator whose expression is a
/// call of the plain identifier `linkage`.
pub open spec fn is_linkage_decorator(d: Decorator) -> bool {
    d.callee matches Some(c) && c@ == "linkage"@
}

/// The index of the first linkage decorator in `decs`, if any.
pub open spec fn first_linkage_index(decs: Seq<Decorator>) -> Option<int>
    decreases decs.len(),
{
    if decs.len() == 0 {
        None
    } else if is_linkage_decorator(decs[0]) {
        Some(0)
    } else {
        match first_linkage_index(decs.drop_first()) {
            Some(i) => Some(i + 1),
            None => None,
        }
    }
}

/// `first_linkage_index` names the first matching decorator and nothing else.
pub proof fn lemma_first_linkage_index(decs: Seq<Decorator>)
    ensures
        match first_linkage_index(decs) {
            None => forall|j: int| 0 <= j < decs.len() ==> !is_linkage_decorator(decs[j]),
            Some(i) => 0 <= i < decs.len() && is_linkage_decorator(decs[i]) && (forall|j: int|
                0 <= j < i ==> !is_linkage_decorator(decs[j])),
        },
    decreases decs.len(),
{
    if decs.len() > 0 && !is_linkage_decorator(decs[0]) {
        let rest = decs.drop_first();
        lemma_first_linkage_index(rest);
        assert(forall|j: int| 1 <= j < decs.len() ==> decs[j] == #[trigger] rest[j - 1]);
        match first_linkage_index(rest) {
            None => {
                assert forall|j: int| 0 <= j < decs.len() implies !is_linkage_decorator(
                    decs[j],
                ) by {
                    if j >= 1 {
                        assert(decs[j] == rest[j - 1]);
                    }
                };
            },
            Some(i) => {
                assert(first_linkage_index(decs) == Some(i + 1));
                assert(decs[i + 1] == rest[i]);
                assert forall|j: int| 0 <= j < i + 1 implies !is_linkage_decorator(
                    decs[j],
                ) by {
                    if j >= 1 {
                        assert(decs[j] == rest[j - 1]);
                    }
                };
            },
        }
    }
}

/// What extracting a linkage from one decorator yields: the extracted
/// declaration, nothing (the first argument is not an object literal), or
/// a fatal malformation.
pub open spec fn decorator_outcome(name: Seq<char>, is_async: bool, d: Decorator) -> Result<
    Option<LinkageV>,
    LinkageError,
> {
    if d.args@.len() == 0 {
        Err(LinkageError::MissingArgument)
    } else {
        match d.args@[0] {
            DecoratorArg::Object(obj) => match props_error(obj.props@) {
                Some(e) => Err(e),
                None => Ok(Some(linkage_of_object(name, is_async, obj))),
            },
            DecoratorArg::Other => Ok(None),
        }
    }
}

/// The decorator list after the extraction pass over one declaration:
/// the first linkage decorator is removed (by a swap with the last
/// element, as the extractor does), every other decorator is kept.
pub open spec fn decorators_after(decs: Seq<Decorator>) -> Seq<Decorator> {
    match first_linkage_index(decs) {
        None => decs,
        Some(i) => decs.update(i, decs.last()).drop_last(),
    }
}

/// Finds the first linkage decorator of a declaration.
pub fn linkage_decorator_index(decs: &Vec<Decorator>) -> (r: Option<usize>)
    ensures
        match first_linkage_index(decs@) {
            None => r is None,
            Some(i) => r matches Some(j) && j == i,
        },
{
    proof {
        lemma_first_linkage_index(decs@);
    }
    let linkage_name = String::from_str("linkage");
    let mut i: usize = 0;
    while i < decs.len()
        invariant
            0 <= i <= decs@.len(),
            linkage_name@ == "linkage"@,
            forall|j: int| 0 <= j < i ==> !is_linkage_decorator(decs@[j]),
        decreases decs@.len() - i,
    {
        let is_marker = match &decs[i].callee {
            Some(c) => *c == linkage_name,
            None => false,
        };
        if is_marker {
            proof {
                lemma_first_linkage_prefix(decs@, i as int);
            }
            return Some(i);
        }
        i = i + 1;
    }
    None
}

/// Extending a property list by one property reports the old first
/// error, or the new property's error when there was none.
proof fn lemma_props_error_push(s: Seq<ObjectProp>, p: ObjectProp)
    ensures
        props_error(s.push(p)) == (if props_error(s) is Some {
            props_error(s)
        } else {
            prop_error(p)
        }),
    decreases s.len(),
{
    if s.len() == 0 {
        assert(s.push(p)[0] == p);
        assert(s.push(p).drop_first() =~= Seq::<ObjectProp>::empty());
        assert(props_error(Seq::<ObjectProp>::empty()) is None);
    } else {
        assert(s.push(p)[0] == s[0]);
        assert(s.push(p).drop_first() =~= s.drop_first().push(p));
        lemma_props_error_push(s.drop_first(), p);
    }
}

/// The first error of a prefix, if any, is the first error of the whole
/// property list.
proof fn lemma_props_error_extend(s: Seq<ObjectProp>, k: int)
    requires
        0 <= k <= s.len(),
        props_error(s.take(k)) is Some,
    ensures
        props_error(s) == props_error(s.take(k)),
    decreases k,
{
    assert(k > 0);
    assert(s.take(k)[0] == s[0]);
    if prop_error(s[0]) is Some {
    } else {
        assert(s.take(k).drop_first() =~= s.drop_first().take(k - 1));
        lemma_props_error_extend(s.drop_first(), k - 1);
    }
}

/// Extending an array by one element appends its decoded entry, if it is
/// a string literal.
proof fn lemma_array_strings_push(s: Seq<Option<ArrayElem>>, e: Option<ArrayElem>)
    ensures
        array_strings(s.push(e)) == array_strings(s) + (match e {
            Some(ArrayElem::Str(x)) => seq![x@],
            _ => Seq::<Seq<char>>::empty(),
        }),
    decreases s.len(),
{
    let tail = (match e {
        Some(ArrayElem::Str(x)) => seq![x@],
        _ => Seq::<Seq<char>>::empty(),
    });
    if s.len() == 0 {
        assert(s.push(e)[0] == e);
        assert(s.push(e).drop_first() =~= Seq::<Option<ArrayElem>>::empty());
        assert(array_strings(Seq::<Option<ArrayElem>>::empty()) =~= Seq::<Seq<char>>::empty());
        assert(array_strings(s.push(e)) =~= array_strings(s) + tail);
    } else {
        assert(s.push(e)[0] == s[0]);
        assert(s.push(e).drop_first() =~= s.drop_first().push(e));
        lemma_array_strings_push(s.drop_first(), e);
        match s[0] {
            Some(ArrayElem::Str(x)) => {
                assert(array_strings(s.push(e)) =~= array_strings(s) + tail);
            },
            _ => {
                assert(array_strings(s.push(e)) =~= array_strings(s) + tail);
            },
        }
    }
}

impl FunctionLinkage {
    /// Decodes the payload of a linkage decorator into the declaration it
    /// makes for the function `name`, reporting the first malformation.
    #[verifier::loop_isolation(false)]
    pub fn from_linkage_object(name: String, is_async: bool, obj: &ObjectLit) -> (r: Result<
        FunctionLinkage,
        LinkageError,
    >)
        ensures
            match props_error(obj.props@) {
                Some(e) => r == Err::<FunctionLinkage, LinkageError>(e),
                None => r matches Ok(l) && l@ == linkage_of_object(name@, is_async, *obj),
            },
    {
        let namespace_key = String::from_str("namespace");
        let dependencies_key = String::from_str("dependencies");
        proof {
            reveal_strlit("namespace");
            reveal_strlit("dependencies");
            assert("namespace"@.len() == 9);
            assert("dependencies"@.len() == 12);
        }
        let mut namespace: Option<String> = None;
        let mut dependencies: Option<Vec<String>> = None;
        let mut i: usize = 0;
        while i < obj.props.len()
            invariant
                0 <= i <= obj.props@.len(),
                namespace_key@ == "namespace"@,
                dependencies_key@ == "dependencies"@,
                "namespace"@ != "dependencies"@,
                props_error(obj.props@.take(i as int)) is None,
                match namespace {
                    None => namespace_of(obj.props@.take(i as int)) == "env"@,
                    Some(ns) => ns@ == namespace_of(obj.props@.take(i as int)),
                },
                match dependencies {
                    None => dependencies_of(obj.props@.take(i as int)) == Seq::<
                        Seq<char>,
                    >::empty(),
                    Some(ds) => str_views(ds@) == dependencies_of(obj.props@.take(i as int)),
                },
            decreases obj.props@.len() - i,
        {
            let ghost prefix = obj.props@.take(i as int);
            let ghost prop = obj.props@[i as int];
            proof {
                assert(obj.props@.take(i + 1) =~= prefix.push(prop));
                assert(prefix.push(prop).drop_last() =~= prefix);
                assert(prefix.push(prop).last() == prop);
                lemma_props_error_push(prefix, prop);
            }
            let p = &obj.props[i];
            match &p.key {
                Some(k) => {
                    if *k == namespace_key {
                        match &p.value {
                            PropValue::Str(s) => {
                                namespace = Some(s.clone());
                            },
                            _ => {
                                proof {
                                    lemma_props_error_extend(obj.props@, i + 1);
                                }
                                return Err(LinkageError::InvalidNamespace);
                            },
                        }
                    } else if *k == dependencies_key {
                        match &p.value {
                            PropValue::Array(elems) => {
                                let mut deps: Vec<String> = Vec::new();
                                let mut j: usize = 0;
                                while j < elems.len()
                                    invariant
                                        0 <= j <= elems@.len(),
                                        forall|t: int|
                                            0 <= t < j ==> !(#[trigger] elems@[t] matches Some(
                                                ArrayElem::Other,
                                            )),
                                        str_views(deps@) == array_strings(elems@.take(j as int)),
                                    decreases elems@.len() - j,
                                {
                                    let ghost dprefix = elems@.take(j as int);
                                    proof {
                                        assert(elems@.take(j + 1) =~= dprefix.push(
                                            elems@[j as int],
                                        ));
                                        lemma_array_strings_push(dprefix, elems@[j as int]);
                                    }
                                    let ghost old_deps = deps@;
                                    match &elems[j] {
                                        Some(ArrayElem::Str(s)) => {
                                            deps.push(s.clone());
                                            proof {
                                                assert(str_views(deps@) =~= str_views(
                                                    old_deps,
                                                ) + seq![s@]);
                                                assert(str_views(deps@) =~= array_strings(
                                                    elems@.take(j + 1),
                                                ));
                                            }
                                        },
                                        Some(ArrayElem::Other) => {
                                            proof {
                                                assert(0 <= j < elems@.len() && elems@[j as int]
                                                    matches Some(ArrayElem::Other));
                                                assert(prop_error(prop) == Some(
                                                    LinkageError::InvalidDependency,
                                                ));
                                                lemma_props_error_extend(obj.props@, i + 1);
                                            }
                                            return Err(LinkageError::InvalidDependency);
                                        },
                                        None => {
                                            proof {
                                                assert(str_views(deps@) =~= array_strings(
                                                    elems@.take(j + 1),
                                                ));
                                            }
                                        },
                                    }
                                    j = j + 1;
                                }
                                proof {
                                    assert(elems@.take(elems@.len() as int) =~= elems@);
                                }
                                dependencies = Some(deps);
                            },
                            _ => {
                                proof {
                                    lemma_props_error_extend(obj.props@, i + 1);
                                }
                                return Err(LinkageError::ExpectedDependencyArray);
                            },
                        }
                    }
                },
                None => {},
            }
            i = i + 1;
        }
        proof {
            assert(obj.props@.take(obj.props@.len() as int) =~= obj.props@);
        }
        let final_namespace = match namespace {
            Some(ns) => ns,
            None => String::from_str("env"),
        };
        let final_dependencies = match dependencies {
            Some(ds) => ds,
            None => Vec::new(),
        };
        proof {
            assert(str_views(Seq::<String>::empty()) =~= Seq::<Seq<char>>::empty());
        }
        Ok(
            FunctionLinkage {
                namespace: final_namespace,
                dependencies: final_dependencies,
                is_async: is_async,
                name: name,
            },
        )
    }

    /// Extracts the linkage declaration of one function declaration, if
    /// any, removing the first linkage decorator from the declaration so
    /// it does not appear in the emitted output.  The declaration is
    /// returned exactly when the decorator's first argument is an object
    /// literal; a malformed payload is a fatal error.
    pub fn from(decl: &mut FnDecl) -> (r: Result<Option<FunctionLinkage>, LinkageError>)
        ensures
            final(decl).name == old(decl).name,
            final(decl).is_async == old(decl).is_async,
            final(decl).decorators@ == decorators_after(old(decl).decorators@),
            match first_linkage_index(old(decl).decorators@) {
                None => r matches Ok(None),
                Some(i) => match decorator_outcome(
                    old(decl).name@,
                    old(decl).is_async,
                    old(decl).decorators@[i],
                ) {
                    Err(e) => r == Err::<Option<FunctionLinkage>, LinkageError>(e),
                    Ok(None) => r matches Ok(None),
                    Ok(Some(lv)) => r matches Ok(Some(l)) && l@ == lv,
                },
            },
    {
        proof {
            lemma_first_linkage_index(decl.decorators@);
        }
        let i = match linkage_decorator_index(&decl.decorators) {
            Some(i) => i,
            None => {
                return Ok(None);
            },
        };
        let decorator = decl.decorators.swap_remove(i);
        if decorator.args.len() < 1 {
            return Err(LinkageError::MissingArgument);
        }
        let mut args = decorator.args;
        let arg = args.swap_remove(0);
        match arg {
            DecoratorArg::Object(obj) => {
                match Self::from_linkage_object(decl.name.clone(), decl.is_async, &obj) {
                    Ok(l) => Ok(Some(l)),
                    Err(e) => Err(e),
                }
            },
            DecoratorArg::Other => Ok(None),
        }
    }
}

/// A sequence whose first `i` decorators are no linkage markers and whose
/// `i`-th is one has `i` as its first linkage index.
proof fn lemma_first_linkage_prefix(decs: Seq<Decorator>, i: int)
    requires
        0 <= i < decs.len(),
        is_linkage_decorator(decs[i]),
        forall|j: int| 0 <= j < i ==> !is_linkage_decorator(decs[j]),
    ensures
        first_linkage_index(decs) == Some(i),
    decreases i,
{
    if i > 0 {
        assert(forall|j: int|
            1 <= j < decs.len() ==> decs[j] == #[trigger] decs.drop_first()[j - 1]);
        lemma_first_linkage_prefix(decs.drop_first(), i - 1);
    }
}

} // verus!
