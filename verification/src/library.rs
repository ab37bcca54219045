//! One candidate host library: the linkage table extracted from its
//! parsed source, and a handle to that source for the later rewriting and
//! compilation stages.

use vstd::prelude::*;
use crate::ast::{Script, Stmt};
use crate::linkage::{
    decorators_after, decorator_outcome, first_linkage_index, linkage_views, FunctionLinkage,
    LinkageError, LinkageV,
};

verus! {

/// One candidate library.  `linkages` is its symbol table, in declaration
/// order; `source` is an opaque handle under which the caller keeps the
/// parsed source this table was extracted from.
#[derive(Debug, PartialEq, Eq)]
pub struct Library {
    pub linkages: Vec<FunctionLinkage>,
    pub source: usize,
}

/// What the extraction pass yields for one top-level statement: a linkage
/// declaration, nothing, or a fatal malformation.  Only function
/// declarations are inspected.
pub open spec fn stmt_outcome(s: Stmt) -> Result<Option<LinkageV>, LinkageError> {
    match s {
        Stmt::Fn(f) => match first_linkage_index(f.decorators@) {
            None => Ok(None),
            Some(i) => decorator_outcome(f.name@, f.is_async, f.decorators@[i]),
        },
        Stmt::Other => Ok(None),
    }
}

/// The first fatal malformation among the statements, in source order.
pub open spec fn extraction_error(stmts: Seq<Stmt>) -> Option<LinkageError>
    decreases stmts.len(),
{
    if stmts.len() == 0 {
        None
    } else {
        match stmt_outcome(stmts[0]) {
            Err(e) => Some(e),
            _ => extraction_error(stmts.drop_first()),
        }
    }
}

/// The linkage table of a well-formed statement list, in declaration order.
pub open spec fn linkages_of(stmts: Seq<Stmt>) -> Seq<LinkageV>
    decreases stmts.len(),
{
    if stmts.len() == 0 {
        Seq::empty()
    } else {
        (match stmt_outcome(stmts[0]) {
            Ok(Some(lv)) => seq![lv],
            _ => Seq::<LinkageV>::empty(),
        }) + linkages_of(stmts.drop_first())
    }
}

/// How one statement looks after the extraction pass: a function
/// declaration loses its first linkage decorator, everything else is
/// untouched.
pub open spec fn stmt_extracted(s: Stmt, t: Stmt) -> bool {
    match s {
        Stmt::Fn(f) => t matches Stmt::Fn(g) && g.name == f.name && g.is_async == f.is_async
            && g.decorators@ == decorators_after(f.decorators@),
        Stmt::Other => t == s,
    }
}

/// Extending a statement list by one statement reports the old first
/// error, or the new statement's error when there was none.
proof fn lemma_extraction_error_push(s: Seq<Stmt>, x: Stmt)
    ensures
        extraction_error(s.push(x)) == (if extraction_error(s) is Some {
            extraction_error(s)
        } else {
            match stmt_outcome(x) {
                Err(e) => Some(e),
                _ => None::<LinkageError>,
            }
        }),
    decreases s.len(),
{
    if s.len() == 0 {
        assert(s.push(x)[0] == x);
        assert(s.push(x).drop_first() =~= Seq::<Stmt>::empty());
        assert(extraction_error(Seq::<Stmt>::empty()) is None);
    } else {
        assert(s.push(x)[0] == s[0]);
        assert(s.push(x).drop_first() =~= s.drop_first().push(x));
        lemma_extraction_error_push(s.drop_first(), x);
    }
}

/// Extending a statement list by one statement appends its extracted
/// linkage, if any.
proof fn lemma_linkages_of_push(s: Seq<Stmt>, x: Stmt)
    ensures
        linkages_of(s.push(x)) == linkages_of(s) + (match stmt_outcome(x) {
            Ok(Some(lv)) => seq![lv],
            _ => Seq::<LinkageV>::empty(),
        }),
    decreases s.len(),
{
    let tail = (match stmt_outcome(x) {
        Ok(Some(lv)) => seq![lv],
        _ => Seq::<LinkageV>::empty(),
    });
    if s.len() == 0 {
        assert(s.push(x)[0] == x);
        assert(s.push(x).drop_first() =~= Seq::<Stmt>::empty());
        assert(linkages_of(Seq::<Stmt>::empty()) =~= Seq::<LinkageV>::empty());
        assert(linkages_of(s.push(x)) =~= linkages_of(s) + tail);
    } else {
        assert(s.push(x)[0] == s[0]);
        assert(s.push(x).drop_first() =~= s.drop_first().push(x));
        lemma_linkages_of_push(s.drop_first(), x);
        assert(linkages_of(s.push(x)) =~= linkages_of(s) + tail);
    }
}

/// The first error of a prefix, if any, is the first error of the whole
/// statement list.
proof fn lemma_extraction_error_extend(s: Seq<Stmt>, k: int)
    requires
        0 <= k <= s.len(),
        extraction_error(s.take(k)) is Some,
    ensures
        extraction_error(s) == extraction_error(s.take(k)),
    decreases k,
{
    assert(k > 0);
    assert(s.take(k)[0] == s[0]);
    if stmt_outcome(s[0]) is Err {
    } else {
        assert(s.take(k).drop_first() =~= s.drop_first().take(k - 1));
        lemma_extraction_error_extend(s.drop_first(), k - 1);
    }
}

impl Library {
    /// Builds one candidate library from its parsed source shape: walks
    /// the top-level statements in order, extracts every linkage
    /// declaration, and removes the extracted decorators.  Returns the
    /// library together with the statement list as it must appear in the
    /// emitted output.  The first malformed declaration is fatal for the
    /// whole file.
    #[verifier::loop_isolation(false)]
    pub fn new(source: usize, script: Script) -> (r: Result<(Library, Script), LinkageError>)
        ensures
            match extraction_error(script.stmts@) {
                Some(e) => r == Err::<(Library, Script), LinkageError>(e),
                None => r matches Ok((lib, out)) && {
                    &&& lib.source == source
                    &&& linkage_views(lib.linkages@) == linkages_of(script.stmts@)
                    &&& out.stmts@.len() == script.stmts@.len()
                    &&& forall|i: int|
                        0 <= i < script.stmts@.len() ==> stmt_extracted(
                            script.stmts@[i],
                            #[trigger] out.stmts@[i],
                        )
                },
            },
    {
        let mut stmts = script.stmts;
        let ghost input = stmts@;
        let mut out_stmts: Vec<Stmt> = Vec::new();
        let mut linkages: Vec<FunctionLinkage> = Vec::new();
        while stmts.len() > 0
            invariant
                out_stmts@.len() + stmts@.len() == input.len(),
                stmts@ == input.subrange(out_stmts@.len() as int, input.len() as int),
                extraction_error(input.take(out_stmts@.len() as int)) is None,
                linkage_views(linkages@) == linkages_of(input.take(out_stmts@.len() as int)),
                forall|i: int|
                    0 <= i < out_stmts@.len() ==> stmt_extracted(
                        input[i],
                        #[trigger] out_stmts@[i],
                    ),
            decreases stmts@.len(),
        {
            let ghost k = out_stmts@.len() as int;
            let ghost prefix = input.take(k);
            let s = stmts.remove(0);
            proof {
                assert(s == input[k]);
                assert(stmts@ =~= input.subrange(k + 1, input.len() as int));
                assert(input.take(k + 1) =~= prefix.push(s));
                lemma_extraction_error_push(prefix, s);
                lemma_linkages_of_push(prefix, s);
            }
            match s {
                Stmt::Fn(mut f) => {
                    let ghost f0 = f;
                    match FunctionLinkage::from(&mut f) {
                        Ok(Some(l)) => {
                            let ghost old_linkages = linkages@;
                            linkages.push(l);
                            out_stmts.push(Stmt::Fn(f));
                            proof {
                                assert(linkage_views(linkages@) =~= linkage_views(old_linkages)
                                    + seq![l@]);
                            }
                        },
                        Ok(None) => {
                            out_stmts.push(Stmt::Fn(f));
                        },
                        Err(e) => {
                            proof {
                                assert(extraction_error(input.take(k + 1)) == Some(e));
                                lemma_extraction_error_extend(input, k + 1);
                            }
                            return Err(e);
                        },
                    }
                },
                Stmt::Other => {
                    out_stmts.push(Stmt::Other);
                },
            }
            proof {
                assert(input.take(out_stmts@.len() as int) =~= prefix.push(input[k]));
            }
        }
        proof {
            assert(input.take(input.len() as int) =~= input);
        }
        Ok((Library { linkages, source }, Script { stmts: out_stmts }))
    }

    /// Whether this library declares a linkage for the symbol
    /// `(namespace, name)`: a full scan of its linkage table, matching
    /// both parts exactly.
    pub fn contains_symbol(&self, namespace: &String, name: &String) -> (r: bool)
        ensures
            r == lib_contains(*self, namespace@, name@),
    {
        let mut i: usize = 0;
        while i < self.linkages.len()
            invariant
                0 <= i <= self.linkages@.len(),
                forall|j: int|
                    0 <= j < i ==> !((#[trigger] self.linkages@[j]).namespace@ == namespace@
                        && self.linkages@[j].name@ == name@),
            decreases self.linkages@.len() - i,
        {
            let link = &self.linkages[i];
            if link.namespace == *namespace && link.name == *name {
                return true;
            }
            i = i + 1;
        }
        false
    }
}

/// Whether `lib` declares a linkage whose namespace and name are exactly
/// the given symbol key.
pub open spec fn lib_contains(lib: Library, namespace: Seq<char>, name: Seq<char>) -> bool {
    exists|i: int|
        0 <= i < lib.linkages@.len() && (#[trigger] lib.linkages@[i]).namespace@ == namespace
            && lib.linkages@[i].name@ == name
}

} // verus!
