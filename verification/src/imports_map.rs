//! The import resolver: partitions a module's required imports into those
//! some candidate library declares linkage for and those no library
//! satisfies, and drops the libraries that contribute nothing.

use vstd::prelude::*;
use vstd::string::*;
use crate::library::{lib_contains, Library};
use crate::linkage::str_views;
use crate::wasm::ModuleImport;

verus! {

/// The result of resolution: the required symbol keys some surviving
/// library declares (`symbols`) and the required keys no library declares
/// (`missing_symbols`).  Both lists carry set semantics: each key appears
/// at most once, and the two never share a key.
#[derive(Debug, PartialEq, Eq)]
pub struct ImportsMap {
    pub symbols: Vec<(String, String)>,
    pub missing_symbols: Vec<(String, String)>,
}

/// The views of a list of symbol keys.
pub open spec fn key_views(s: Seq<(String, String)>) -> Seq<(Seq<char>, Seq<char>)> {
    s.map_values(|p: (String, String)| (p.0@, p.1@))
}

/// Each key appears at most once.
pub open spec fn unique_keys(s: Seq<(String, String)>) -> bool {
    forall|a: int, b: int|
        0 <= a < b < s.len() ==> #[trigger] key_views(s)[a] != #[trigger] key_views(s)[b]
}

/// The symbol key of one import: its namespace and field name.  An import
/// with no field name is unaddressable and has no key.
pub open spec fn import_key(imp: ModuleImport) -> Option<(Seq<char>, Seq<char>)> {
    match imp.name {
        Some(n) => Some((imp.namespace@, n@)),
        None => None,
    }
}

/// The set of keys the module requires: the keys of its addressable
/// imports, duplicates collapsed.
pub open spec fn required_keys(imports: Seq<ModuleImport>) -> Set<(Seq<char>, Seq<char>)>
    decreases imports.len(),
{
    if imports.len() == 0 {
        Set::empty()
    } else {
        let rest = required_keys(imports.drop_last());
        match import_key(imports.last()) {
            Some(k) => rest.insert(k),
            None => rest,
        }
    }
}

/// A required key comes from an addressable import, and from nothing else.
pub proof fn lemma_required_keys_iff(imports: Seq<ModuleImport>, k: (Seq<char>, Seq<char>))
    ensures
        required_keys(imports).contains(k) <==> exists|i: int|
            0 <= i < imports.len() && #[trigger] import_key(imports[i]) == Some(k),
    decreases imports.len(),
{
    if imports.len() > 0 {
        let prev = imports.drop_last();
        lemma_required_keys_iff(prev, k);
        assert(forall|i: int| 0 <= i < prev.len() ==> #[trigger] prev[i] == imports[i]);
        if required_keys(imports).contains(k) {
            if import_key(imports.last()) == Some(k) {
                assert(import_key(imports[imports.len() - 1]) == Some(k));
            } else {
                let i = choose|i: int|
                    0 <= i < prev.len() && #[trigger] import_key(prev[i]) == Some(k);
                assert(import_key(imports[i]) == Some(k));
            }
        }
        if exists|i: int| 0 <= i < imports.len() && #[trigger] import_key(imports[i]) == Some(k) {
            let i = choose|i: int|
                0 <= i < imports.len() && #[trigger] import_key(imports[i]) == Some(k);
            if i == imports.len() - 1 {
                assert(import_key(imports.last()) == Some(k));
            } else {
                assert(import_key(prev[i]) == Some(k));
            }
            assert(required_keys(imports).contains(k));
        }
    }
}

/// Whether some library of `libs` declares the key `k`.
pub open spec fn any_library_contains(libs: Seq<Library>, k: (Seq<char>, Seq<char>)) -> bool {
    exists|i: int| 0 <= i < libs.len() && lib_contains(#[trigger] libs[i], k.0, k.1)
}

/// Whether `l` declares some key of `keys`.
pub open spec fn matches_any(l: Library, keys: Seq<(Seq<char>, Seq<char>)>) -> bool {
    exists|j: int| 0 <= j < keys.len() && lib_contains(l, (#[trigger] keys[j]).0, keys[j].1)
}

/// Whether `l` declares linkage for at least one required import of the
/// module: only such a library survives resolution.
pub open spec fn library_matches(l: Library, imports: Seq<ModuleImport>) -> bool {
    exists|k: (Seq<char>, Seq<char>)|
        #[trigger] required_keys(imports).contains(k) && lib_contains(l, k.0, k.1)
}

/// The candidate libraries that survive resolution, in input order:
/// exactly those declaring linkage for at least one required import.
pub open spec fn surviving_libraries(
    libraries: Seq<Library>,
    imports: Seq<ModuleImport>,
) -> Seq<Library> {
    libraries.filter(|l: Library| library_matches(l, imports))
}

/// Appending one library keeps the surviving list and appends the new
/// library exactly when it matches a required import.
proof fn lemma_surviving_push(libs: Seq<Library>, imports: Seq<ModuleImport>, x: Library)
    ensures
        surviving_libraries(libs.push(x), imports) == surviving_libraries(libs, imports) + (
        if library_matches(x, imports) {
            seq![x]
        } else {
            Seq::<Library>::empty()
        }),
{
    reveal_with_fuel(Seq::<Library>::filter, 2);
    assert(libs.push(x).drop_last() =~= libs);
    assert(libs.push(x).last() == x);
    if library_matches(x, imports) {
        assert(surviving_libraries(libs.push(x), imports) =~= surviving_libraries(libs, imports)
            + seq![x]);
    } else {
        assert(surviving_libraries(libs.push(x), imports) =~= surviving_libraries(libs, imports)
            + Seq::<Library>::empty());
    }
}

/// Appending one library extends what the list can satisfy by exactly
/// what that library declares.
proof fn lemma_any_contains_push(libs: Seq<Library>, x: Library, k: (Seq<char>, Seq<char>))
    ensures
        any_library_contains(libs.push(x), k) == (any_library_contains(libs, k) || lib_contains(
            x,
            k.0,
            k.1,
        )),
{
    if any_library_contains(libs, k) {
        let i = choose|i: int| 0 <= i < libs.len() && lib_contains(#[trigger] libs[i], k.0, k.1);
        assert(libs.push(x)[i] == libs[i]);
    }
    if lib_contains(x, k.0, k.1) {
        assert(libs.push(x)[libs.len() as int] == x);
    }
    if any_library_contains(libs.push(x), k) {
        let i = choose|i: int|
            0 <= i < libs.push(x).len() && lib_contains(#[trigger] libs.push(x)[i], k.0, k.1);
        if i < libs.len() {
            assert(libs[i] == libs.push(x)[i]);
        } else {
            assert(libs.push(x)[i] == x);
        }
    }
}

/// A list whose keys are the required keys lets `matches_any` decide
/// `library_matches`.
proof fn lemma_matches_equiv(l: Library, keys: Seq<(Seq<char>, Seq<char>)>, imports: Seq<ModuleImport>)
    requires
        forall|k: (Seq<char>, Seq<char>)| #[trigger]
            keys.contains(k) <==> required_keys(imports).contains(k),
    ensures
        matches_any(l, keys) == library_matches(l, imports),
{
    if matches_any(l, keys) {
        let j = choose|j: int|
            0 <= j < keys.len() && lib_contains(l, (#[trigger] keys[j]).0, keys[j].1);
        assert(keys.contains(keys[j]));
        assert(required_keys(imports).contains(keys[j]));
    }
    if library_matches(l, imports) {
        let k = choose|k: (Seq<char>, Seq<char>)|
            #[trigger] required_keys(imports).contains(k) && lib_contains(l, k.0, k.1);
        assert(keys.contains(k));
        let j = choose|j: int| 0 <= j < keys.len() && keys[j] == k;
        assert(lib_contains(l, (keys[j]).0, keys[j].1));
    }
}

/// An element is in a pushed sequence iff it is the new element or was
/// there before.
proof fn lemma_push_contains<T>(s: Seq<T>, x: T)
    ensures
        forall|y: T| #[trigger] s.push(x).contains(y) <==> (s.contains(y) || y == x),
{
    assert forall|y: T| #[trigger] s.push(x).contains(y) implies (s.contains(y) || y == x) by {
        let a = choose|a: int| 0 <= a < s.push(x).len() && s.push(x)[a] == y;
        if a < s.len() {
            assert(s[a] == y);
        }
    };
    assert forall|y: T| (s.contains(y) || y == x) implies #[trigger] s.push(x).contains(y) by {
        if s.contains(y) {
            let a = choose|a: int| 0 <= a < s.len() && s[a] == y;
            assert(s.push(x)[a] == y);
        } else {
            assert(s.push(x)[s.len() as int] == y);
        }
    };
}

/// Pushing a fresh key keeps a key list duplicate-free.
proof fn lemma_push_unique(s: Seq<(String, String)>, kv: (String, String))
    requires
        unique_keys(s),
        !key_views(s).contains((kv.0@, kv.1@)),
    ensures
        unique_keys(s.push(kv)),
{
    assert(key_views(s.push(kv)) =~= key_views(s).push((kv.0@, kv.1@)));
    assert forall|a: int, b: int| 0 <= a < b < s.push(kv).len() implies #[trigger] key_views(
        s.push(kv),
    )[a] != #[trigger] key_views(s.push(kv))[b] by {
        if b < s.len() {
            assert(key_views(s.push(kv))[a] == key_views(s)[a]);
            assert(key_views(s.push(kv))[b] == key_views(s)[b]);
        } else {
            assert(key_views(s.push(kv))[b] == (kv.0@, kv.1@));
            assert(key_views(s.push(kv))[a] == key_views(s)[a]);
            assert(key_views(s).contains(key_views(s)[a]));
        }
    };
}

/// Pushing a pair with a fresh key view keeps a key list duplicate-free.
proof fn lemma_push_unique_pair(s: Seq<(String, String)>, ns: Seq<char>, n: Seq<char>)
    requires
        unique_keys(s),
        !key_views(s).contains((ns, n)),
    ensures
        forall|p: (String, String)|
            p.0@ == ns && p.1@ == n ==> unique_keys(#[trigger] s.push(p)),
{
    assert forall|p: (String, String)| p.0@ == ns && p.1@ == n implies unique_keys(
        #[trigger] s.push(p),
    ) by {
        lemma_push_unique(s, p);
    };
}

/// Whether the key list `v` holds the key `(ns, n)`.
fn contains_key(v: &Vec<(String, String)>, ns: &String, n: &String) -> (r: bool)
    ensures
        r == key_views(v@).contains((ns@, n@)),
{
    let mut i: usize = 0;
    while i < v.len()
        invariant
            0 <= i <= v@.len(),
            forall|j: int| 0 <= j < i ==> #[trigger] key_views(v@)[j] != (ns@, n@),
        decreases v@.len() - i,
    {
        let p = &v[i];
        if p.0 == *ns && p.1 == *n {
            assert(key_views(v@)[i as int] == (ns@, n@));
            return true;
        }
        assert(key_views(v@)[i as int] == (v@[i as int].0@, v@[i as int].1@));
        i = i + 1;
    }
    assert forall|j: int| 0 <= j < v@.len() implies #[trigger] key_views(v@)[j] != (ns@, n@) by {}
    false
}

/// Whether `l` declares some key of the list `keys`.
fn library_matches_keys(l: &Library, keys: &Vec<(String, String)>) -> (r: bool)
    ensures
        r == matches_any(*l, key_views(keys@)),
{
    let mut j: usize = 0;
    while j < keys.len()
        invariant
            0 <= j <= keys@.len(),
            forall|t: int|
                0 <= t < j ==> !lib_contains(*l, (#[trigger] key_views(keys@)[t]).0, key_views(
                    keys@,
                )[t].1),
        decreases keys@.len() - j,
    {
        let p = &keys[j];
        if l.contains_symbol(&p.0, &p.1) {
            assert(key_views(keys@)[j as int] == (p.0@, p.1@));
            return true;
        }
        assert(key_views(keys@)[j as int] == (p.0@, p.1@));
        j = j + 1;
    }
    false
}

/// Whether some library of `libs` declares the key `(ns, n)`.
fn any_library_contains_key(libs: &Vec<Library>, ns: &String, n: &String) -> (r: bool)
    ensures
        r == any_library_contains(libs@, (ns@, n@)),
{
    let mut i: usize = 0;
    while i < libs.len()
        invariant
            0 <= i <= libs@.len(),
            forall|j: int| 0 <= j < i ==> !lib_contains(#[trigger] libs@[j], ns@, n@),
        decreases libs@.len() - i,
    {
        if libs[i].contains_symbol(ns, n) {
            return true;
        }
        i = i + 1;
    }
    false
}

impl ImportsMap {
    /// Resolves the module's imports against the candidate libraries.
    ///
    /// Drops the unaddressable imports, collapses the rest into a set of
    /// required keys, keeps exactly the libraries declaring at least one
    /// required key (in input order), and partitions the required keys
    /// into `symbols` (some library declares it) and `missing_symbols`
    /// (none does): every addressable required import lands in exactly
    /// one of the two, and nothing else is in either.
    #[verifier::loop_isolation(false)]
    pub fn new(imports: Vec<ModuleImport>, libraries: Vec<Library>) -> (r: (ImportsMap, Vec<Library>))
        ensures
            forall|k: (Seq<char>, Seq<char>)| #[trigger]
                key_views(r.0.symbols@).contains(k) <==> required_keys(imports@).contains(k)
                    && any_library_contains(libraries@, k),
            forall|k: (Seq<char>, Seq<char>)| #[trigger]
                key_views(r.0.missing_symbols@).contains(k) <==> required_keys(imports@).contains(
                    k,
                ) && !any_library_contains(libraries@, k),
            forall|k: (Seq<char>, Seq<char>)|
                !(#[trigger] key_views(r.0.symbols@).contains(k) && key_views(
                    r.0.missing_symbols@,
                ).contains(k)),
            forall|k: (Seq<char>, Seq<char>)| #[trigger]
                required_keys(imports@).contains(k) <==> (key_views(r.0.symbols@).contains(k)
                    || key_views(r.0.missing_symbols@).contains(k)),
            unique_keys(r.0.symbols@),
            unique_keys(r.0.missing_symbols@),
            r.1@ == surviving_libraries(libraries@, imports@),
    {
        let ghost imps = imports@;
        let ghost libs = libraries@;

        // Collapse the addressable imports into a deduplicated key list.
        let mut required: Vec<(String, String)> = Vec::new();
        let mut i: usize = 0;
        while i < imports.len()
            invariant
                0 <= i <= imps.len(),
                unique_keys(required@),
                forall|k: (Seq<char>, Seq<char>)| #[trigger]
                    key_views(required@).contains(k) <==> required_keys(imps.take(i as int)).contains(
                        k,
                    ),
            decreases imps.len() - i,
        {
            let ghost prev = required@;
            let imp = &imports[i];
            proof {
                assert(imps.take(i + 1) =~= imps.take(i as int).push(imps[i as int]));
                assert(imps.take(i + 1).drop_last() =~= imps.take(i as int));
                assert(imps.take(i + 1).last() == imps[i as int]);
            }
            match &imp.name {
                Some(n) => {
                    let ghost k0 = (imp.namespace@, n@);
                    proof {
                        assert(import_key(imps[i as int]) == Some(k0));
                    }
                    if !contains_key(&required, &imp.namespace, n) {
                        required.push((imp.namespace.clone(), n.clone()));
                        proof {
                            lemma_push_contains(key_views(prev), k0);
                            assert(key_views(required@) =~= key_views(prev).push(k0));
                            lemma_push_unique_pair(prev, imp.namespace@, n@);
                        }
                    } else {
                        proof {
                            assert forall|k: (Seq<char>, Seq<char>)| #[trigger]
                                key_views(required@).contains(k) <==> required_keys(
                                imps.take(i + 1),
                            ).contains(k) by {
                                assert(required_keys(imps.take(i + 1)).contains(k)
                                    == (required_keys(imps.take(i as int)).contains(k) || k
                                    == k0));
                            };
                        }
                    }
                },
                None => {
                    proof {
                        assert(import_key(imps[i as int]) is None);
                    }
                },
            }
            i = i + 1;
        }
        proof {
            assert(imps.take(imps.len() as int) =~= imps);
        }

        // Keep only the libraries that declare at least one required key.
        let mut remaining = libraries;
        let mut survivors: Vec<Library> = Vec::new();
        let ghost mut processed: int = 0;
        while remaining.len() > 0
            invariant
                0 <= processed <= libs.len(),
                remaining@ == libs.subrange(processed, libs.len() as int),
                survivors@ == surviving_libraries(libs.take(processed), imps),
                forall|k: (Seq<char>, Seq<char>)| #[trigger]
                    key_views(required@).contains(k) ==> (any_library_contains(
                        libs.take(processed),
                        k,
                    ) <==> any_library_contains(survivors@, k)),
            decreases remaining@.len(),
        {
            let ghost old_survivors = survivors@;
            let l = remaining.remove(0);
            proof {
                assert(l == libs[processed]);
                assert(remaining@ =~= libs.subrange(processed + 1, libs.len() as int));
                assert(libs.take(processed + 1) =~= libs.take(processed).push(l));
                lemma_surviving_push(libs.take(processed), imps, l);
                lemma_matches_equiv(l, key_views(required@), imps);
            }
            let keeps = library_matches_keys(&l, &required);
            if keeps {
                survivors.push(l);
                proof {
                    assert(survivors@ =~= surviving_libraries(libs.take(processed), imps) + seq![
                        libs[processed],
                    ]);
                }
            } else {
                proof {
                    assert(survivors@ =~= surviving_libraries(libs.take(processed), imps)
                        + Seq::<Library>::empty());
                }
            }
            proof {
                assert forall|k: (Seq<char>, Seq<char>)| #[trigger]
                    key_views(required@).contains(k) implies (any_library_contains(
                    libs.take(processed + 1),
                    k,
                ) <==> any_library_contains(survivors@, k)) by {
                    lemma_any_contains_push(libs.take(processed), libs[processed], k);
                    if keeps {
                        lemma_any_contains_push(old_survivors, libs[processed], k);
                    } else {
                        if lib_contains(libs[processed], k.0, k.1) {
                            assert(matches_any(libs[processed], key_views(required@)));
                        }
                    }
                };
                processed = processed + 1;
            }
        }
        proof {
            assert(libs.take(libs.len() as int) =~= libs);
        }

        // Partition the required keys by whether a surviving library
        // declares them.
        let ghost req = required@;
        let mut pending = required;
        let mut symbols: Vec<(String, String)> = Vec::new();
        let mut missing_symbols: Vec<(String, String)> = Vec::new();
        let ghost mut done: int = 0;
        while pending.len() > 0
            invariant
                0 <= done <= req.len(),
                pending@ == req.subrange(done, req.len() as int),
                unique_keys(symbols@),
                unique_keys(missing_symbols@),
                forall|k: (Seq<char>, Seq<char>)| #[trigger]
                    key_views(symbols@).contains(k) <==> (key_views(req.take(done)).contains(k)
                        && any_library_contains(survivors@, k)),
                forall|k: (Seq<char>, Seq<char>)| #[trigger]
                    key_views(missing_symbols@).contains(k) <==> (key_views(req.take(done)).contains(
                        k,
                    ) && !any_library_contains(survivors@, k)),
            decreases pending@.len(),
        {
            let kv = pending.remove(0);
            proof {
                assert(kv == req[done]);
                assert(pending@ =~= req.subrange(done + 1, req.len() as int));
                assert(key_views(req.take(done + 1)) =~= key_views(req.take(done)).push(
                    (kv.0@, kv.1@),
                ));
                assert forall|a: int| 0 <= a < done implies #[trigger] key_views(req)[a] != (
                kv.0@,
                kv.1@,
                ) by {
                    assert(key_views(req)[done] == (kv.0@, kv.1@));
                };
                assert(!key_views(req.take(done)).contains((kv.0@, kv.1@))) by {
                    if key_views(req.take(done)).contains((kv.0@, kv.1@)) {
                        let a = choose|a: int|
                            0 <= a < done && #[trigger] key_views(req.take(done))[a] == (
                            kv.0@,
                            kv.1@,
                            );
                        assert(key_views(req)[a] == key_views(req.take(done))[a]);
                    }
                };
            }
            let ghost old_symbols = symbols@;
            let ghost old_missing = missing_symbols@;
            let ghost newk = (req[done].0@, req[done].1@);
            proof {
                lemma_push_contains(key_views(req.take(done)), newk);
            }
            let found = any_library_contains_key(&survivors, &kv.0, &kv.1);
            if found {
                proof {
                    lemma_push_unique(old_symbols, kv);
                    lemma_push_contains(key_views(old_symbols), newk);
                }
                symbols.push(kv);
                proof {
                    assert(key_views(symbols@) =~= key_views(old_symbols).push(newk));
                }
            } else {
                proof {
                    lemma_push_unique(old_missing, kv);
                    lemma_push_contains(key_views(old_missing), newk);
                }
                missing_symbols.push(kv);
                proof {
                    assert(key_views(missing_symbols@) =~= key_views(old_missing).push(newk));
                }
            }
            proof {
                done = done + 1;
            }
        }
        proof {
            assert(req.take(req.len() as int) =~= req);
            assert forall|k: (Seq<char>, Seq<char>)| #[trigger]
                key_views(symbols@).contains(k) <==> (required_keys(imps).contains(k)
                && any_library_contains(libs, k)) by {
                assert(key_views(required@).contains(k) <==> required_keys(imps).contains(k));
                if key_views(symbols@).contains(k) {
                    assert(key_views(req).contains(k) && any_library_contains(survivors@, k));
                }
                if required_keys(imps).contains(k) && any_library_contains(libs, k) {
                    assert(key_views(req).contains(k));
                }
            };
            assert forall|k: (Seq<char>, Seq<char>)| #[trigger]
                key_views(missing_symbols@).contains(k) <==> (required_keys(imps).contains(k)
                && !any_library_contains(libs, k)) by {
                assert(key_views(required@).contains(k) <==> required_keys(imps).contains(k));
                if key_views(missing_symbols@).contains(k) {
                    assert(key_views(req).contains(k) && !any_library_contains(survivors@, k));
                }
                if required_keys(imps).contains(k) && !any_library_contains(libs, k) {
                    assert(key_views(req).contains(k));
                }
            };
            assert forall|k: (Seq<char>, Seq<char>)|
                !(#[trigger] key_views(symbols@).contains(k) && key_views(
                    missing_symbols@,
                ).contains(k)) by {
                if key_views(symbols@).contains(k) {
                    assert(required_keys(imps).contains(k) && any_library_contains(libs, k));
                }
            };
            assert forall|k: (Seq<char>, Seq<char>)| #[trigger]
                required_keys(imps).contains(k) <==> (key_views(symbols@).contains(k)
                || key_views(missing_symbols@).contains(k)) by {
                if required_keys(imps).contains(k) {
                    if any_library_contains(libs, k) {
                        assert(key_views(symbols@).contains(k));
                    } else {
                        assert(key_views(missing_symbols@).contains(k));
                    }
                }
            };
        }

        (ImportsMap { symbols, missing_symbols }, survivors)
    }
}

/// A library declaring no linkage matching any required import is not
/// among the surviving libraries, so none of its code is emitted.
pub proof fn lemma_unmatched_library_dropped(
    libraries: Seq<Library>,
    imports: Seq<ModuleImport>,
    l: Library,
)
    requires
        !library_matches(l, imports),
    ensures
        !surviving_libraries(libraries, imports).contains(l),
{
    let survivors = surviving_libraries(libraries, imports);
    if survivors.contains(l) {
        let i = choose|i: int| 0 <= i < survivors.len() && survivors[i] == l;
        libraries.lemma_filter_pred(|x: Library| library_matches(x, imports), i);
    }
}

/// An import with no field name contributes no required key: every key
/// of `symbols` or `missing_symbols` is the key of an import that has a
/// field name.
pub proof fn lemma_anonymous_imports_excluded(
    imports: Seq<ModuleImport>,
    k: (Seq<char>, Seq<char>),
)
    requires
        required_keys(imports).contains(k),
    ensures
        exists|i: int|
            0 <= i < imports.len() && #[trigger] import_key(imports[i]) == Some(k)
                && imports[i].name is Some,
{
    lemma_required_keys_iff(imports, k);
    let i = choose|i: int| 0 <= i < imports.len() && #[trigger] import_key(imports[i]) == Some(k);
    assert(imports[i].name is Some);
}

/// The namespaces of the resolved keys, in first-appearance order, each
/// once.
pub open spec fn namespaces_of(keys: Seq<(Seq<char>, Seq<char>)>) -> Seq<Seq<char>>
    decreases keys.len(),
{
    if keys.len() == 0 {
        Seq::empty()
    } else {
        let prev = namespaces_of(keys.drop_last());
        if prev.contains(keys.last().0) {
            prev
        } else {
            prev.push(keys.last().0)
        }
    }
}

/// The names the resolved keys give to one namespace, in order.
pub open spec fn names_in(keys: Seq<(Seq<char>, Seq<char>)>, ns: Seq<char>) -> Seq<Seq<char>>
    decreases keys.len(),
{
    if keys.len() == 0 {
        Seq::empty()
    } else {
        let prev = names_in(keys.drop_last(), ns);
        if keys.last().0 == ns {
            prev.push(keys.last().1)
        } else {
            prev
        }
    }
}

/// The given parts joined by commas.
pub open spec fn join_commas(parts: Seq<Seq<char>>) -> Seq<char>
    decreases parts.len(),
{
    if parts.len() == 0 {
        Seq::empty()
    } else if parts.len() == 1 {
        parts[0]
    } else {
        join_commas(parts.drop_last()) + ","@ + parts.last()
    }
}

/// One namespace's clause of the serialized imports object:
/// `ns:{name,name}`.
pub open spec fn group_clause(keys: Seq<(Seq<char>, Seq<char>)>, ns: Seq<char>) -> Seq<char> {
    ns + ":{"@ + join_commas(names_in(keys, ns)) + "}"@
}

/// The serialized imports object: the resolved keys grouped by
/// namespace into `ns:{name,...}` clauses, joined by commas, wrapped in
/// braces.
pub open spec fn imports_object(keys: Seq<(Seq<char>, Seq<char>)>) -> Seq<char> {
    "{"@ + join_commas(namespaces_of(keys).map_values(|ns: Seq<char>| group_clause(keys, ns)))
        + "}"@
}

/// Every namespace appears in the grouping once.
proof fn lemma_namespaces_unique(keys: Seq<(Seq<char>, Seq<char>)>)
    ensures
        forall|i: int, j: int|
            0 <= i < j < namespaces_of(keys).len() ==> namespaces_of(keys)[i] != namespaces_of(
                keys,
            )[j],
    decreases keys.len(),
{
    if keys.len() > 0 {
        let prev = namespaces_of(keys.drop_last());
        lemma_namespaces_unique(keys.drop_last());
        if !prev.contains(keys.last().0) {
            assert forall|i: int, j: int|
                0 <= i < j < namespaces_of(keys).len() implies namespaces_of(keys)[i]
                != namespaces_of(keys)[j] by {
                if j == prev.len() {
                    assert(prev.contains(prev[i]));
                }
            };
        }
    }
}

/// A namespace outside the grouping groups no names.
proof fn lemma_names_in_empty(keys: Seq<(Seq<char>, Seq<char>)>, ns: Seq<char>)
    requires
        !namespaces_of(keys).contains(ns),
    ensures
        names_in(keys, ns) == Seq::<Seq<char>>::empty(),
    decreases keys.len(),
{
    if keys.len() > 0 {
        let prev = namespaces_of(keys.drop_last());
        if keys.last().0 == ns {
            if prev.contains(ns) {
                assert(namespaces_of(keys).contains(ns));
            } else {
                assert(namespaces_of(keys)[prev.len() as int] == ns);
            }
        } else {
            assert forall|x: Seq<char>| prev.contains(x) implies namespaces_of(keys).contains(
                x,
            ) by {
                let i = choose|i: int| 0 <= i < prev.len() && prev[i] == x;
                assert(namespaces_of(keys)[i] == x);
            };
            lemma_names_in_empty(keys.drop_last(), ns);
        }
    }
}

/// Joining one more part appends a comma and the part, the comma only
/// after a first part.
proof fn lemma_join_push(parts: Seq<Seq<char>>, x: Seq<char>)
    ensures
        join_commas(parts.push(x)) == (if parts.len() == 0 {
            x
        } else {
            join_commas(parts) + ","@ + x
        }),
{
    assert(parts.push(x).drop_last() =~= parts);
    assert(parts.push(x).last() == x);
    if parts.len() == 0 {
        assert(join_commas(parts.push(x)) =~= x);
    }
}

/// Finds the group of one namespace, if present.
fn find_group(groups: &Vec<(String, Vec<String>)>, ns: &String) -> (r: Option<usize>)
    ensures
        match r {
            None => forall|j: int| 0 <= j < groups@.len() ==> (#[trigger] groups@[j]).0@ != ns@,
            Some(i) => i < groups@.len() && groups@[i as int].0@ == ns@,
        },
{
    let mut i: usize = 0;
    while i < groups.len()
        invariant
            0 <= i <= groups@.len(),
            forall|j: int| 0 <= j < i ==> (#[trigger] groups@[j]).0@ != ns@,
        decreases groups@.len() - i,
    {
        if groups[i].0 == *ns {
            return Some(i);
        }
        i = i + 1;
    }
    None
}

impl ImportsMap {
    /// Serializes the resolved imports as the glue module's imports
    /// object: the keys grouped by namespace, in first-appearance order,
    /// as `{ns:{name,name},ns:{name}}`.
    #[verifier::loop_isolation(false)]
    pub fn to_string(self) -> (r: String)
        ensures
            r@ == imports_object(key_views(self.symbols@)),
    {
        let ghost keys = key_views(self.symbols@);
        let mut groups: Vec<(String, Vec<String>)> = Vec::new();
        let mut syms = self.symbols;
        let ghost mut done: int = 0;
        while syms.len() > 0
            invariant
                0 <= done <= keys.len(),
                keys == key_views(self.symbols@),
                syms@ == self.symbols@.subrange(done, self.symbols@.len() as int),
                groups@.len() == namespaces_of(keys.take(done)).len(),
                forall|i: int|
                    0 <= i < groups@.len() ==> (#[trigger] groups@[i]).0@ == namespaces_of(
                        keys.take(done),
                    )[i],
                forall|i: int|
                    0 <= i < groups@.len() ==> str_views((#[trigger] groups@[i]).1@) == names_in(
                        keys.take(done),
                        groups@[i].0@,
                    ),
            decreases syms@.len(),
        {
            let kv = syms.remove(0);
            proof {
                assert(kv == self.symbols@[done]);
                assert(syms@ =~= self.symbols@.subrange(done + 1, self.symbols@.len() as int));
                assert(keys.take(done + 1) =~= keys.take(done).push((kv.0@, kv.1@)));
                assert(keys.take(done + 1).drop_last() =~= keys.take(done));
                lemma_namespaces_unique(keys.take(done));
            }
            let ghost prev_groups = groups@;
            match find_group(&groups, &kv.0) {
                Some(i) => {
                    let mut g = groups.remove(i);
                    g.1.push(kv.1);
                    proof {
                        assert(str_views(g.1@) =~= str_views(prev_groups[i as int].1@).push(
                            kv.1@,
                        ));
                    }
                    groups.insert(i, g);
                    proof {
                        assert(namespaces_of(keys.take(done)).contains(
                            namespaces_of(keys.take(done))[i as int],
                        ));
                        assert(namespaces_of(keys.take(done + 1)) =~= namespaces_of(
                            keys.take(done),
                        ));
                        assert forall|t: int| 0 <= t < groups@.len() implies str_views(
                            (#[trigger] groups@[t]).1@,
                        ) == names_in(keys.take(done + 1), groups@[t].0@) by {
                            if t != i {
                                assert(groups@[t] == prev_groups[t]);
                                assert(groups@[t].0@ != kv.0@);
                            }
                        };
                    }
                },
                None => {
                    let mut names: Vec<String> = Vec::new();
                    names.push(kv.1);
                    groups.push((kv.0, names));
                    proof {
                        if namespaces_of(keys.take(done)).contains(kv.0@) {
                            let i = choose|i: int|
                                0 <= i < namespaces_of(keys.take(done)).len() && namespaces_of(
                                    keys.take(done),
                                )[i] == kv.0@;
                            assert(prev_groups[i].0@ == kv.0@);
                        }
                        assert(namespaces_of(keys.take(done + 1)) =~= namespaces_of(
                            keys.take(done),
                        ).push(kv.0@));
                        lemma_names_in_empty(keys.take(done), kv.0@);
                        assert forall|t: int| 0 <= t < groups@.len() implies str_views(
                            (#[trigger] groups@[t]).1@,
                        ) == names_in(keys.take(done + 1), groups@[t].0@) by {
                            if t < prev_groups.len() {
                                assert(groups@[t] == prev_groups[t]);
                                assert(namespaces_of(keys.take(done)).contains(
                                    namespaces_of(keys.take(done))[t],
                                ));
                                assert(groups@[t].0@ != kv.0@);
                            } else {
                                assert(str_views(groups@[t].1@) =~= Seq::<
                                    Seq<char>,
                                >::empty().push(kv.1@));
                            }
                        };
                    }
                },
            }
            proof {
                done = done + 1;
            }
        }
        proof {
            assert(keys.take(keys.len() as int) =~= keys);
        }
        let ghost clauses = namespaces_of(keys).map_values(|ns: Seq<char>| group_clause(keys, ns));
        let mut out = String::from_str("{");
        let mut t: usize = 0;
        while t < groups.len()
            invariant
                0 <= t <= groups@.len(),
                groups@.len() == namespaces_of(keys).len(),
                forall|i: int|
                    0 <= i < groups@.len() ==> (#[trigger] groups@[i]).0@ == namespaces_of(keys)[i],
                forall|i: int|
                    0 <= i < groups@.len() ==> str_views((#[trigger] groups@[i]).1@) == names_in(
                        keys,
                        groups@[i].0@,
                    ),
                clauses == namespaces_of(keys).map_values(
                    |ns: Seq<char>| group_clause(keys, ns),
                ),
                out@ == "{"@ + join_commas(clauses.take(t as int)),
            decreases groups@.len() - t,
        {
            proof {
                assert(clauses.take(t + 1) =~= clauses.take(t as int).push(clauses[t as int]));
                lemma_join_push(clauses.take(t as int), clauses[t as int]);
                assert(clauses[t as int] == group_clause(keys, groups@[t as int].0@));
            }
            if t > 0 {
                out.append(",");
            }
            let g = &groups[t];
            let mut clause = String::new();
            clause.append(g.0.as_str());
            clause.append(":{");
            let ghost gnames = str_views(g.1@);
            let mut j: usize = 0;
            while j < g.1.len()
                invariant
                    0 <= j <= g.1@.len(),
                    gnames == str_views(g.1@),
                    clause@ == g.0@ + ":{"@ + join_commas(gnames.take(j as int)),
                decreases g.1@.len() - j,
            {
                proof {
                    assert(gnames.take(j + 1) =~= gnames.take(j as int).push(gnames[j as int]));
                    lemma_join_push(gnames.take(j as int), gnames[j as int]);
                }
                if j > 0 {
                    clause.append(",");
                }
                clause.append(g.1[j].as_str());
                j = j + 1;
            }
            proof {
                assert(gnames.take(gnames.len() as int) =~= gnames);
            }
            clause.append("}");
            proof {
                assert(clause@ =~= group_clause(keys, groups@[t as int].0@));
            }
            out.append(clause.as_str());
            t = t + 1;
        }
        proof {
            assert(clauses.take(clauses.len() as int) =~= clauses);
        }
        out.append("}");
        proof {
            assert(out@ =~= imports_object(keys));
        }
        out
    }
}

} // verus!
