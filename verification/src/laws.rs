//! What holds of every load, proved from the definitions of
//! [`crate::resolve`].

use vstd::prelude::*;
use vstd::utf8::*;
use crate::error::ErrorView;
use crate::module::ModuleView;
use crate::path::{join, normalize, parent};
use crate::resolve::{
    adopt, assemble, gap_end, lemma_failure_stays, load, load_from_path, replaced,
    resolve_includes, resolve_module, resolve_root, working, Linked,
};
use crate::scan::{scan, well_placed, IncludeView};
use crate::storage::{lemma_visit, stored, unvisited};
use crate::validate::wgsl_diagnostic;

verus! {

/// Whether `after` holds everything that `before` holds, unchanged, and
/// nothing new under a path of `trace`.
pub open spec fn grown(
    before: Map<Seq<char>, ModuleView>,
    after: Map<Seq<char>, ModuleView>,
    trace: Seq<Seq<char>>,
) -> bool {
    &&& forall|p: Seq<char>| #[trigger]
        before.contains_key(p) ==> after.contains_key(p) && after[p] == before[p]
    &&& forall|p: Seq<char>| #[trigger]
        after.contains_key(p) && !before.contains_key(p) ==> !trace.contains(p)
}

/// The canonical path that include `i` of a module in the directory `dir`
/// names.
pub open spec fn included_path(dir: Seq<char>, incs: Seq<IncludeView>, i: int) -> Seq<char> {
    normalize(join(dir, incs[i].path))
}

/// Resolving a module only adds to the cache: what was cached stays as it
/// is, nothing is cached under a path that is being resolved, and a
/// module that was resolved is cached under its path. A failure caches
/// nothing under the path that failed.
pub proof fn lemma_resolve_module_grows(
    files: Seq<(Seq<char>, Seq<char>)>,
    cache: Map<Seq<char>, ModuleView>,
    trace: Seq<Seq<char>>,
    path: Seq<char>,
)
    ensures
        grown(cache, resolve_module(files, cache, trace, path).cache, trace),
        resolve_module(files, cache, trace, path).result matches Ok(module) ==> resolve_module(
            files,
            cache,
            trace,
            path,
        ).cache.contains_key(path) && resolve_module(files, cache, trace, path).cache[path]
            == module,
        resolve_module(files, cache, trace, path).result is Err && !cache.contains_key(path)
            ==> !resolve_module(files, cache, trace, path).cache.contains_key(path),
    decreases unvisited(files, trace), 0int,
{
    if trace.contains(path) {
    } else if cache.contains_key(path) {
    } else {
        match stored(files, path) {
            None => {},
            Some(source) => match parent(path) {
                None => {},
                Some(dir) => {
                    lemma_visit(files, trace, path);
                    let incs = scan(source);
                    let longer = trace.push(path);
                    let linked = resolve_includes(files, cache, longer, dir, source, incs, 0);
                    lemma_resolve_includes_grows(files, cache, longer, dir, source, incs, 0);
                    assert(longer[trace.len() as int] == path);
                    assert(longer.contains(path));
                    assert forall|p: Seq<char>| trace.contains(p) implies longer.contains(p) by {
                        let i = choose|i: int| 0 <= i < trace.len() && trace[i] == p;
                        assert(longer[i] == p);
                    }
                    assert(!linked.cache.contains_key(path));
                },
            },
        }
    }
}

/// Resolving includes only adds to the cache, and where it succeeds every
/// module that was included is cached.
pub proof fn lemma_resolve_includes_grows(
    files: Seq<(Seq<char>, Seq<char>)>,
    cache: Map<Seq<char>, ModuleView>,
    trace: Seq<Seq<char>>,
    dir: Seq<char>,
    source: Seq<char>,
    incs: Seq<IncludeView>,
    k: int,
)
    ensures
        grown(cache, resolve_includes(files, cache, trace, dir, source, incs, k).cache, trace),
        resolve_includes(files, cache, trace, dir, source, incs, k).result is Ok ==> forall|i: int|
            0 <= k <= i < incs.len() ==> resolve_includes(
                files,
                cache,
                trace,
                dir,
                source,
                incs,
                k,
            ).cache.contains_key(#[trigger] included_path(dir, incs, i)),
    decreases unvisited(files, trace), incs.len() - k + 1,
{
    if k < 0 || k >= incs.len() {
    } else {
        let later = resolve_includes(files, cache, trace, dir, source, incs, k + 1);
        lemma_resolve_includes_grows(files, cache, trace, dir, source, incs, k + 1);
        match later.result {
            Err(e) => {},
            Ok(linked) => {
                let child_path = included_path(dir, incs, k);
                lemma_resolve_module_grows(files, later.cache, trace, child_path);
                let child = resolve_module(files, later.cache, trace, child_path);
                assert(grown(cache, child.cache, trace));
                if child.result is Ok {
                    assert forall|i: int| 0 <= k <= i < incs.len() implies child.cache.contains_key(
                        #[trigger] included_path(dir, incs, i),
                    ) by {
                        if i > k {
                            assert(later.cache.contains_key(included_path(dir, incs, i)));
                        }
                    }
                }
            },
        }
    }
}

/// Whether the module `module`, cached under `path`, has in `cache` and
/// among its dependencies what its includes name: each included module is
/// cached, is a dependency, and has all its dependencies among those of
/// `module`.
pub open spec fn covers(cache: Map<Seq<char>, ModuleView>, path: Seq<char>, module: ModuleView) -> bool {
    match parent(path) {
        None => true,
        Some(dir) => forall|i: int|
            0 <= i < module.includes.len() ==> {
                &&& cache.contains_key(#[trigger] included_path(dir, module.includes, i))
                &&& module.dependencies.contains(included_path(dir, module.includes, i))
                &&& cache[included_path(dir, module.includes, i)].dependencies.subset_of(
                    module.dependencies,
                )
            },
    }
}

/// Whether every module of `cache` has in `cache` and among its
/// dependencies what its includes name.
pub open spec fn coherent(cache: Map<Seq<char>, ModuleView>) -> bool {
    forall|p: Seq<char>| #[trigger] cache.contains_key(p) ==> covers(cache, p, cache[p])
}

/// A module that is covered in a cache is covered in every cache that has
/// grown out of it.
pub proof fn lemma_covers_grown(
    before: Map<Seq<char>, ModuleView>,
    after: Map<Seq<char>, ModuleView>,
    trace: Seq<Seq<char>>,
    path: Seq<char>,
    module: ModuleView,
)
    requires
        grown(before, after, trace),
        covers(before, path, module),
    ensures
        covers(after, path, module),
{
    match parent(path) {
        None => {},
        Some(dir) => {
            assert forall|i: int| 0 <= i < module.includes.len() implies {
                &&& after.contains_key(#[trigger] included_path(dir, module.includes, i))
                &&& module.dependencies.contains(included_path(dir, module.includes, i))
                &&& after[included_path(dir, module.includes, i)].dependencies.subset_of(
                    module.dependencies,
                )
            } by {
                assert(before.contains_key(included_path(dir, module.includes, i)));
            }
        },
    }
}

/// Resolving a module keeps a coherent cache coherent.
pub proof fn lemma_resolve_module_coherent(
    files: Seq<(Seq<char>, Seq<char>)>,
    cache: Map<Seq<char>, ModuleView>,
    trace: Seq<Seq<char>>,
    path: Seq<char>,
)
    requires
        coherent(cache),
    ensures
        coherent(resolve_module(files, cache, trace, path).cache),
    decreases unvisited(files, trace), 0int,
{
    if trace.contains(path) {
    } else if cache.contains_key(path) {
    } else {
        match stored(files, path) {
            None => {},
            Some(source) => match parent(path) {
                None => {},
                Some(dir) => {
                    lemma_visit(files, trace, path);
                    let incs = scan(source);
                    let longer = trace.push(path);
                    let linked = resolve_includes(files, cache, longer, dir, source, incs, 0);
                    lemma_resolve_includes_coherent(files, cache, longer, dir, source, incs, 0);
                    lemma_resolve_includes_grows(files, cache, longer, dir, source, incs, 0);
                    assert(longer[trace.len() as int] == path);
                    assert(!linked.cache.contains_key(path));
                    match linked.result {
                        Err(e) => {},
                        Ok(l) => {
                            let module = assemble(source, incs, l);
                            lemma_insert_coherent(linked.cache, path, module);
                        },
                    }
                },
            },
        }
    }
}

/// Caching a covered module under a path that was free keeps a coherent
/// cache coherent.
pub proof fn lemma_insert_coherent(
    cache: Map<Seq<char>, ModuleView>,
    path: Seq<char>,
    module: ModuleView,
)
    requires
        coherent(cache),
        !cache.contains_key(path),
        covers(cache, path, module),
    ensures
        coherent(cache.insert(path, module)),
{
    let after = cache.insert(path, module);
    let none: Seq<Seq<char>> = seq![];
    assert(grown(cache, after, none));
    assert forall|p: Seq<char>| #[trigger] after.contains_key(p) implies covers(
        after,
        p,
        after[p],
    ) by {
        if p == path {
            lemma_covers_grown(cache, after, none, path, module);
        } else {
            assert(cache.contains_key(p));
            lemma_covers_grown(cache, after, none, p, cache[p]);
        }
    }
}

/// Resolving includes keeps a coherent cache coherent, and where it
/// succeeds the dependencies it gathered hold every included module and
/// all the dependencies of each.
pub proof fn lemma_resolve_includes_coherent(
    files: Seq<(Seq<char>, Seq<char>)>,
    cache: Map<Seq<char>, ModuleView>,
    trace: Seq<Seq<char>>,
    dir: Seq<char>,
    source: Seq<char>,
    incs: Seq<IncludeView>,
    k: int,
)
    requires
        coherent(cache),
    ensures
        coherent(resolve_includes(files, cache, trace, dir, source, incs, k).cache),
        resolve_includes(files, cache, trace, dir, source, incs, k).result matches Ok(linked)
            ==> forall|i: int|
            0 <= k <= i < incs.len() ==> {
                &&& resolve_includes(files, cache, trace, dir, source, incs, k).cache.contains_key(
                    #[trigger] included_path(dir, incs, i),
                )
                &&& linked.dependencies.contains(included_path(dir, incs, i))
                &&& resolve_includes(
                    files,
                    cache,
                    trace,
                    dir,
                    source,
                    incs,
                    k,
                ).cache[included_path(dir, incs, i)].dependencies.subset_of(linked.dependencies)
            },
    decreases unvisited(files, trace), incs.len() - k + 1,
{
    if k < 0 || k >= incs.len() {
    } else {
        let later = resolve_includes(files, cache, trace, dir, source, incs, k + 1);
        lemma_resolve_includes_coherent(files, cache, trace, dir, source, incs, k + 1);
        match later.result {
            Err(e) => {},
            Ok(linked) => {
                let child_path = included_path(dir, incs, k);
                lemma_resolve_module_coherent(files, later.cache, trace, child_path);
                lemma_resolve_module_grows(files, later.cache, trace, child_path);
                let child = resolve_module(files, later.cache, trace, child_path);
                match child.result {
                    Err(e) => {},
                    Ok(module) => match parent(child_path) {
                        None => {},
                        Some(child_dir) => {
                            let all = adopt(
                                linked.dependencies,
                                child_path,
                                child_dir,
                                module.dependencies,
                            );
                            assert forall|i: int| 0 <= k <= i < incs.len() implies {
                                &&& child.cache.contains_key(#[trigger] included_path(dir, incs, i))
                                &&& all.contains(included_path(dir, incs, i))
                                &&& child.cache[included_path(dir, incs, i)].dependencies.subset_of(
                                    all,
                                )
                            } by {
                                if i > k {
                                    assert(later.cache.contains_key(included_path(dir, incs, i)));
                                }
                            }
                        },
                    },
                }
            },
        }
    }
}

/// A text without include directives is its own code: loading it
/// succeeds exactly where its path has a directory and the text is valid,
/// and the module then has the text as its source and as its code, and no
/// dependencies.
pub proof fn law_code_is_source_without_includes(
    files: Seq<(Seq<char>, Seq<char>)>,
    cache: Map<Seq<char>, ModuleView>,
    path: Seq<char>,
    source: Seq<char>,
)
    requires
        scan(source).len() == 0,
    ensures
        load(files, cache, path, source).result is Ok <==> parent(normalize(path)) is Some
            && wgsl_diagnostic(source) is None,
        load(files, cache, path, source).result matches Ok(module) ==> module == (ModuleView {
            source,
            includes: Seq::empty(),
            code: source,
            dependencies: Set::empty(),
        }) && load(files, cache, path, source).cache == cache.insert(normalize(path), module),
{
    let bytes = encode_utf8(source);
    assert(bytes.subrange(0, bytes.len() as int) + Seq::<u8>::empty() == bytes);
    encode_utf8_decode_utf8(source);
    assert(scan(source) == Seq::<IncludeView>::empty());
}

/// A module without include directives that is read from the storage is
/// its own code, too.
pub proof fn law_stored_code_is_source_without_includes(
    files: Seq<(Seq<char>, Seq<char>)>,
    cache: Map<Seq<char>, ModuleView>,
    trace: Seq<Seq<char>>,
    path: Seq<char>,
    source: Seq<char>,
)
    requires
        !trace.contains(path),
        !cache.contains_key(path),
        stored(files, path) == Some(source),
        parent(path) is Some,
        scan(source).len() == 0,
    ensures
        resolve_module(files, cache, trace, path).result == Ok::<ModuleView, ErrorView>(
            ModuleView {
                source,
                includes: Seq::empty(),
                code: source,
                dependencies: Set::empty(),
            },
        ),
{
    let bytes = encode_utf8(source);
    assert(bytes.subrange(0, bytes.len() as int) + Seq::<u8>::empty() == bytes);
    encode_utf8_decode_utf8(source);
    assert(scan(source) == Seq::<IncludeView>::empty());
}

/// Loading keeps a coherent cache coherent, as long as it does not
/// replace a module that is cached: loading from a path never does, and
/// loading a text does not where its path is not cached yet.
pub proof fn law_loading_keeps_cache_coherent(
    files: Seq<(Seq<char>, Seq<char>)>,
    cache: Map<Seq<char>, ModuleView>,
    path: Seq<char>,
    source: Seq<char>,
)
    requires
        coherent(cache),
    ensures
        coherent(load_from_path(files, cache, path).cache),
        !cache.contains_key(normalize(path)) ==> coherent(load(files, cache, path, source).cache),
{
    let canonical = normalize(path);
    if !cache.contains_key(canonical) {
        lemma_resolve_root_coherent(files, cache, canonical, source);
        if parent(canonical) is Some && stored(files, canonical) is Some {
            lemma_resolve_root_coherent(files, cache, canonical, stored(files, canonical)->0);
        }
    }
}

/// Resolving the module that was asked for keeps a coherent cache
/// coherent where its path is not cached yet.
pub proof fn lemma_resolve_root_coherent(
    files: Seq<(Seq<char>, Seq<char>)>,
    cache: Map<Seq<char>, ModuleView>,
    path: Seq<char>,
    source: Seq<char>,
)
    requires
        coherent(cache),
        !cache.contains_key(path),
    ensures
        coherent(resolve_root(files, cache, path, source).cache),
{
    match parent(path) {
        None => {},
        Some(dir) => {
            let incs = scan(source);
            let trace = seq![path];
            lemma_resolve_includes_coherent(files, cache, trace, dir, source, incs, 0);
            lemma_resolve_includes_grows(files, cache, trace, dir, source, incs, 0);
            let linked = resolve_includes(files, cache, trace, dir, source, incs, 0);
            assert(trace[0] == path);
            assert(!linked.cache.contains_key(path));
            match linked.result {
                Err(e) => {},
                Ok(l) => {
                    lemma_insert_coherent(linked.cache, path, assemble(source, incs, l));
                },
            }
        },
    }
}

/// In a coherent cache the dependencies of a module hold the modules it
/// includes and the modules that those include: where `a` includes `b`
/// and `b` includes `c`, both `b` and `c` are dependencies of `a`.
pub proof fn law_dependencies_are_transitive(
    cache: Map<Seq<char>, ModuleView>,
    a: Seq<char>,
    i: int,
    j: int,
)
    requires
        coherent(cache),
        cache.contains_key(a),
        parent(a) is Some,
        0 <= i < cache[a].includes.len(),
        parent(included_path(parent(a)->0, cache[a].includes, i)) is Some,
        0 <= j < cache[included_path(parent(a)->0, cache[a].includes, i)].includes.len(),
    ensures
        ({
            let b = included_path(parent(a)->0, cache[a].includes, i);
            let c = included_path(parent(b)->0, cache[b].includes, j);
            &&& cache.contains_key(b)
            &&& cache.contains_key(c)
            &&& cache[a].dependencies.contains(b)
            &&& cache[a].dependencies.contains(c)
            &&& cache[b].dependencies.subset_of(cache[a].dependencies)
            &&& cache[c].dependencies.subset_of(cache[a].dependencies)
        }),
{
    let b = included_path(parent(a)->0, cache[a].includes, i);
    assert(covers(cache, a, cache[a]));
    assert(cache.contains_key(b));
    assert(covers(cache, b, cache[b]));
    let c = included_path(parent(b)->0, cache[b].includes, j);
    assert(cache.contains_key(c));
}

/// A module that was loaded has the modules it includes, and the modules
/// that those include, among its dependencies. This holds of a load into
/// a coherent cache (an empty one is coherent) that does not replace a
/// cached module.
pub proof fn law_loaded_module_has_transitive_dependencies(
    files: Seq<(Seq<char>, Seq<char>)>,
    cache: Map<Seq<char>, ModuleView>,
    path: Seq<char>,
    source: Seq<char>,
    i: int,
    j: int,
)
    requires
        coherent(cache),
        !cache.contains_key(normalize(path)),
        load(files, cache, path, source).result is Ok,
        0 <= i < scan(source).len(),
        parent(included_path(parent(normalize(path))->0, scan(source), i)) is Some,
        0 <= j < load(files, cache, path, source).cache[included_path(
            parent(normalize(path))->0,
            scan(source),
            i,
        )].includes.len(),
    ensures
        ({
            let out = load(files, cache, path, source);
            let module = out.result->Ok_0;
            let b = included_path(parent(normalize(path))->0, scan(source), i);
            let c = included_path(parent(b)->0, out.cache[b].includes, j);
            &&& coherent(Map::<Seq<char>, ModuleView>::empty())
            &&& out.cache.contains_key(b)
            &&& out.cache.contains_key(c)
            &&& module.dependencies.contains(b)
            &&& module.dependencies.contains(c)
        }),
{
    let a = normalize(path);
    let out = load(files, cache, path, source);
    law_loading_keeps_cache_coherent(files, cache, path, source);
    assert(out.cache.contains_key(a));
    assert(out.cache[a] == out.result->Ok_0);
    law_dependencies_are_transitive(out.cache, a, i, j);
}

/// A path that is asked for while it is being resolved is a cycle: the
/// failure names the path and the module that asked for it, and the cache
/// stays as it is.
pub proof fn law_path_in_trace_is_a_cycle(
    files: Seq<(Seq<char>, Seq<char>)>,
    cache: Map<Seq<char>, ModuleView>,
    trace: Seq<Seq<char>>,
    path: Seq<char>,
)
    requires
        trace.contains(path),
    ensures
        resolve_module(files, cache, trace, path).result == Err::<ModuleView, ErrorView>(
            ErrorView::CircularDependency { path, from: trace.last() },
        ),
        resolve_module(files, cache, trace, path).cache == cache,
{
}

/// The failure of an include is the failure of the module: where the
/// includes behind include `i` resolve and the module that include `i`
/// names fails, resolving the includes fails in the same way.
pub proof fn law_first_failure_is_final(
    files: Seq<(Seq<char>, Seq<char>)>,
    cache: Map<Seq<char>, ModuleView>,
    trace: Seq<Seq<char>>,
    dir: Seq<char>,
    source: Seq<char>,
    incs: Seq<IncludeView>,
    i: int,
)
    requires
        0 <= i < incs.len(),
        resolve_includes(files, cache, trace, dir, source, incs, i + 1).result is Ok,
        resolve_module(
            files,
            resolve_includes(files, cache, trace, dir, source, incs, i + 1).cache,
            trace,
            included_path(dir, incs, i),
        ).result is Err,
    ensures
        ({
            let child = resolve_module(
                files,
                resolve_includes(files, cache, trace, dir, source, incs, i + 1).cache,
                trace,
                included_path(dir, incs, i),
            );
            let all = resolve_includes(files, cache, trace, dir, source, incs, 0);
            all.cache == child.cache && all.result == Err::<Linked, ErrorView>(
                child.result->Err_0,
            )
        }),
{
    lemma_failure_stays(files, cache, trace, dir, source, incs, 0, i);
}

/// A direct cycle fails as a circular dependency. Let `a` be the module
/// that is asked for, `b` the module that its include `i` names, and let
/// include `j` of `b` name `a` again. Where the includes of `a` behind `i`
/// and those of `b` behind `j` resolve, and `b` is read from the storage,
/// the load fails with the cycle, naming `a` and `b` as the module that
/// asked for it.
pub proof fn law_direct_cycle(
    files: Seq<(Seq<char>, Seq<char>)>,
    cache: Map<Seq<char>, ModuleView>,
    a: Seq<char>,
    source_a: Seq<char>,
    i: int,
    source_b: Seq<char>,
    j: int,
)
    requires
        parent(a) is Some,
        0 <= i < scan(source_a).len(),
        resolve_includes(
            files,
            cache,
            seq![a],
            parent(a)->0,
            source_a,
            scan(source_a),
            i + 1,
        ).result is Ok,
        included_path(parent(a)->0, scan(source_a), i) != a,
        parent(included_path(parent(a)->0, scan(source_a), i)) is Some,
        !resolve_includes(
            files,
            cache,
            seq![a],
            parent(a)->0,
            source_a,
            scan(source_a),
            i + 1,
        ).cache.contains_key(included_path(parent(a)->0, scan(source_a), i)),
        stored(files, included_path(parent(a)->0, scan(source_a), i)) == Some(source_b),
        0 <= j < scan(source_b).len(),
        resolve_includes(
            files,
            resolve_includes(
                files,
                cache,
                seq![a],
                parent(a)->0,
                source_a,
                scan(source_a),
                i + 1,
            ).cache,
            seq![a, included_path(parent(a)->0, scan(source_a), i)],
            parent(included_path(parent(a)->0, scan(source_a), i))->0,
            source_b,
            scan(source_b),
            j + 1,
        ).result is Ok,
        included_path(
            parent(included_path(parent(a)->0, scan(source_a), i))->0,
            scan(source_b),
            j,
        ) == a,
    ensures
        resolve_root(files, cache, a, source_a).result == Err::<ModuleView, ErrorView>(
            ErrorView::CircularDependency {
                path: a,
                from: included_path(parent(a)->0, scan(source_a), i),
            },
        ),
{
    let dir_a = parent(a)->0;
    let incs_a = scan(source_a);
    let b = included_path(dir_a, incs_a, i);
    let dir_b = parent(b)->0;
    let incs_b = scan(source_b);
    let trace_a = seq![a];
    let trace_b = seq![a, b];
    let behind = resolve_includes(files, cache, trace_a, dir_a, source_a, incs_a, i + 1);
    assert(trace_a.push(b) == trace_b);
    assert(trace_b[0] == a);
    assert(trace_b.contains(a));
    assert(trace_b.last() == b);
    assert(!trace_a.contains(b));
    law_first_failure_is_final(files, behind.cache, trace_b, dir_b, source_b, incs_b, j);
    law_first_failure_is_final(files, cache, trace_a, dir_a, source_a, incs_a, i);
}

/// A module that includes itself fails as a circular dependency that
/// names the module twice, where the includes behind that include resolve.
pub proof fn law_self_include_is_a_cycle(
    files: Seq<(Seq<char>, Seq<char>)>,
    cache: Map<Seq<char>, ModuleView>,
    a: Seq<char>,
    source: Seq<char>,
    i: int,
)
    requires
        parent(a) is Some,
        0 <= i < scan(source).len(),
        resolve_includes(files, cache, seq![a], parent(a)->0, source, scan(source), i + 1).result
            is Ok,
        included_path(parent(a)->0, scan(source), i) == a,
    ensures
        resolve_root(files, cache, a, source).result == Err::<ModuleView, ErrorView>(
            ErrorView::CircularDependency { path: a, from: a },
        ),
{
    let trace = seq![a];
    assert(trace[0] == a);
    assert(trace.contains(a));
    law_first_failure_is_final(files, cache, trace, parent(a)->0, source, scan(source), i);
}

/// A module that is cached is not read again: resolving it yields the
/// cached module whatever the storage holds.
pub proof fn law_cached_module_is_not_read(
    files: Seq<(Seq<char>, Seq<char>)>,
    other_files: Seq<(Seq<char>, Seq<char>)>,
    cache: Map<Seq<char>, ModuleView>,
    trace: Seq<Seq<char>>,
    path: Seq<char>,
)
    requires
        cache.contains_key(path),
    ensures
        resolve_module(files, cache, trace, path) == resolve_module(other_files, cache, trace, path),
        !trace.contains(path) ==> resolve_module(files, cache, trace, path).result == Ok::<
            ModuleView,
            ErrorView,
        >(cache[path]) && resolve_module(files, cache, trace, path).cache == cache,
{
}

/// A second load of a path is served from the cache: after a load that
/// succeeded, loading the same path again yields the same module and
/// leaves the cache as it is, whatever the storage holds by then.
pub proof fn law_second_load_is_served_from_cache(
    files: Seq<(Seq<char>, Seq<char>)>,
    other_files: Seq<(Seq<char>, Seq<char>)>,
    cache: Map<Seq<char>, ModuleView>,
    path: Seq<char>,
    source: Seq<char>,
)
    ensures
        load_from_path(files, cache, path).result is Ok ==> load_from_path(
            other_files,
            load_from_path(files, cache, path).cache,
            path,
        ) == load_from_path(files, cache, path),
        load(files, cache, path, source).result is Ok ==> load_from_path(
            other_files,
            load(files, cache, path, source).cache,
            path,
        ) == load(files, cache, path, source),
{
    let canonical = normalize(path);
    let first = load_from_path(files, cache, path);
    if first.result is Ok {
        assert(first.cache.contains_key(canonical));
        assert(first.cache[canonical] == first.result->Ok_0);
        assert(first.cache.insert(canonical, first.result->Ok_0) =~= first.cache);
    }
    let given = load(files, cache, path, source);
    if given.result is Ok {
        assert(given.cache.contains_key(canonical));
    }
}

/// Only the module that was asked for is validated: no module that is
/// resolved on the way fails the validation.
pub proof fn lemma_resolve_module_not_validated(
    files: Seq<(Seq<char>, Seq<char>)>,
    cache: Map<Seq<char>, ModuleView>,
    trace: Seq<Seq<char>>,
    path: Seq<char>,
)
    ensures
        resolve_module(files, cache, trace, path).result matches Err(e) ==> !(e
            is ValidationError),
    decreases unvisited(files, trace), 0int,
{
    if !trace.contains(path) && !cache.contains_key(path) {
        match stored(files, path) {
            None => {},
            Some(source) => match parent(path) {
                None => {},
                Some(dir) => {
                    lemma_visit(files, trace, path);
                    lemma_resolve_includes_not_validated(
                        files,
                        cache,
                        trace.push(path),
                        dir,
                        source,
                        scan(source),
                        0,
                    );
                },
            },
        }
    }
}

/// No include fails the validation.
pub proof fn lemma_resolve_includes_not_validated(
    files: Seq<(Seq<char>, Seq<char>)>,
    cache: Map<Seq<char>, ModuleView>,
    trace: Seq<Seq<char>>,
    dir: Seq<char>,
    source: Seq<char>,
    incs: Seq<IncludeView>,
    k: int,
)
    ensures
        resolve_includes(files, cache, trace, dir, source, incs, k).result matches Err(e) ==> !(e
            is ValidationError),
    decreases unvisited(files, trace), incs.len() - k + 1,
{
    if 0 <= k < incs.len() {
        let later = resolve_includes(files, cache, trace, dir, source, incs, k + 1);
        lemma_resolve_includes_not_validated(files, cache, trace, dir, source, incs, k + 1);
        if later.result is Ok {
            lemma_resolve_module_not_validated(
                files,
                later.cache,
                trace,
                included_path(dir, incs, k),
            );
        }
    }
}

/// A load that fails leaves the cache sound: whatever was cached before
/// stays as it is, the failed module is not cached under the path that
/// was asked for, and a coherent cache stays coherent. Where the failure is that of the
/// validation, every module that the text includes has been resolved and
/// is cached.
pub proof fn law_failure_keeps_cache(
    files: Seq<(Seq<char>, Seq<char>)>,
    cache: Map<Seq<char>, ModuleView>,
    path: Seq<char>,
    source: Seq<char>,
)
    requires
        load(files, cache, path, source).result is Err,
    ensures
        grown(cache, load(files, cache, path, source).cache, seq![normalize(path)]),
        !cache.contains_key(normalize(path)) ==> !load(
            files,
            cache,
            path,
            source,
        ).cache.contains_key(normalize(path)),
        coherent(cache) ==> coherent(load(files, cache, path, source).cache),
        load(files, cache, path, source).result->Err_0 is ValidationError ==> parent(
            normalize(path),
        ) is Some && forall|i: int|
            0 <= i < scan(source).len() ==> load(files, cache, path, source).cache.contains_key(
                #[trigger] included_path(parent(normalize(path))->0, scan(source), i),
            ),
{
    let canonical = normalize(path);
    let trace = seq![canonical];
    assert(trace[0] == canonical);
    match parent(canonical) {
        None => {},
        Some(dir) => {
            let incs = scan(source);
            lemma_resolve_includes_grows(files, cache, trace, dir, source, incs, 0);
            lemma_resolve_includes_not_validated(files, cache, trace, dir, source, incs, 0);
            if coherent(cache) {
                lemma_resolve_includes_coherent(files, cache, trace, dir, source, incs, 0);
            }
        },
    }
}

/// The same holds of a load from a path that fails.
pub proof fn law_failure_from_path_keeps_cache(
    files: Seq<(Seq<char>, Seq<char>)>,
    cache: Map<Seq<char>, ModuleView>,
    path: Seq<char>,
)
    requires
        load_from_path(files, cache, path).result is Err,
    ensures
        grown(cache, load_from_path(files, cache, path).cache, seq![normalize(path)]),
        !cache.contains_key(normalize(path)) ==> !load_from_path(
            files,
            cache,
            path,
        ).cache.contains_key(normalize(path)),
        coherent(cache) ==> coherent(load_from_path(files, cache, path).cache),
{
    let canonical = normalize(path);
    if !cache.contains_key(canonical) && parent(canonical) is Some && stored(files, canonical)
        is Some {
        let source = stored(files, canonical)->0;
        let trace = seq![canonical];
        assert(trace[0] == canonical);
        let dir = parent(canonical)->0;
        let incs = scan(source);
        lemma_resolve_includes_grows(files, cache, trace, dir, source, incs, 0);
        if coherent(cache) {
            lemma_resolve_includes_coherent(files, cache, trace, dir, source, incs, 0);
        }
    }
}

/// Splicing replaces one directive at a time, the last one first, and no
/// replacement moves a directive that is still to be replaced: the working
/// copy with the includes from `k` on replaced is the working copy with
/// the includes behind `k` replaced, in which the byte range of include
/// `k` is replaced by the code of the module it names. Every byte outside
/// that range stays as it is.
pub proof fn law_splice_replaces_the_directive(
    files: Seq<(Seq<char>, Seq<char>)>,
    cache: Map<Seq<char>, ModuleView>,
    trace: Seq<Seq<char>>,
    dir: Seq<char>,
    source: Seq<char>,
    incs: Seq<IncludeView>,
    k: int,
)
    requires
        well_placed(incs, encode_utf8(source)),
        0 <= k < incs.len(),
        resolve_includes(files, cache, trace, dir, source, incs, k).result is Ok,
    ensures
        ({
            let bytes = encode_utf8(source);
            let now = resolve_includes(files, cache, trace, dir, source, incs, k);
            let behind = resolve_includes(files, cache, trace, dir, source, incs, k + 1);
            &&& behind.result is Ok
            &&& now.cache.contains_key(included_path(dir, incs, k))
            &&& working(bytes, incs, k, now.result->Ok_0.tail) == replaced(
                working(bytes, incs, k + 1, behind.result->Ok_0.tail),
                incs[k].start,
                incs[k].end,
                encode_utf8(now.cache[included_path(dir, incs, k)].code),
            )
        }),
{
    let bytes = encode_utf8(source);
    let len = bytes.len() as int;
    let behind = resolve_includes(files, cache, trace, dir, source, incs, k + 1);
    let child_path = included_path(dir, incs, k);
    lemma_resolve_module_grows(files, behind.cache, trace, child_path);
    let child = resolve_module(files, behind.cache, trace, child_path);
    let code = encode_utf8(child.result->Ok_0.code);
    let tail = behind.result->Ok_0.tail;
    let start = incs[k].start;
    let end = incs[k].end;
    let stop = gap_end(incs, k, len);
    if k + 1 < incs.len() {
        assert(incs[k].end <= incs[k + 1].start);
    }
    let before = working(bytes, incs, k + 1, tail);
    assert(before == bytes.subrange(0, stop) + tail);
    assert(before.subrange(0, start) == bytes.subrange(0, start));
    assert(before.subrange(end, before.len() as int) == bytes.subrange(end, stop) + tail);
    assert(gap_end(incs, k - 1, len) == start);
    assert(bytes.subrange(0, start) + (code + bytes.subrange(end, stop) + tail) == bytes.subrange(
        0,
        start,
    ) + code + (bytes.subrange(end, stop) + tail));
}

/// The code of a module with a single include is its source with the
/// directive replaced by the code of the included module, byte for byte.
pub proof fn law_single_include_is_replaced(
    source: Seq<char>,
    incs: Seq<IncludeView>,
    code: Seq<char>,
    dependencies: Set<Seq<char>>,
)
    requires
        incs.len() == 1,
        well_placed(incs, encode_utf8(source)),
    ensures
        ({
            let bytes = encode_utf8(source);
            let tail = encode_utf8(code) + bytes.subrange(incs[0].end, bytes.len() as int);
            encode_utf8(assemble(source, incs, Linked { tail, dependencies }).code) == replaced(
                bytes,
                incs[0].start,
                incs[0].end,
                encode_utf8(code),
            )
        }),
{
    let bytes = encode_utf8(source);
    let tail = encode_utf8(code) + bytes.subrange(incs[0].end, bytes.len() as int);
    let whole = bytes.subrange(0, incs[0].start) + tail;
    assert(whole == replaced(bytes, incs[0].start, incs[0].end, encode_utf8(code)));
    encode_utf8_valid_utf8(source);
    encode_utf8_valid_utf8(code);
    valid_utf8_split(bytes, incs[0].start);
    valid_utf8_split(bytes, incs[0].end);
    valid_utf8_concat(encode_utf8(code), bytes.subrange(incs[0].end, bytes.len() as int));
    valid_utf8_concat(bytes.subrange(0, incs[0].start), tail);
    decode_utf8_encode_utf8(whole);
}

/// What the includes of a source become is text: the tail that resolving
/// them yields is valid UTF-8.
pub proof fn lemma_tail_is_text(
    files: Seq<(Seq<char>, Seq<char>)>,
    cache: Map<Seq<char>, ModuleView>,
    trace: Seq<Seq<char>>,
    dir: Seq<char>,
    source: Seq<char>,
    incs: Seq<IncludeView>,
    k: int,
)
    requires
        well_placed(incs, encode_utf8(source)),
    ensures
        resolve_includes(files, cache, trace, dir, source, incs, k).result matches Ok(linked)
            ==> valid_utf8(linked.tail),
    decreases incs.len() - k,
{
    let bytes = encode_utf8(source);
    let len = bytes.len() as int;
    encode_utf8_valid_utf8(source);
    if 0 <= k < incs.len() {
        lemma_tail_is_text(files, cache, trace, dir, source, incs, k + 1);
        let now = resolve_includes(files, cache, trace, dir, source, incs, k);
        let behind = resolve_includes(files, cache, trace, dir, source, incs, k + 1);
        if now.result is Ok {
            let child = resolve_module(files, behind.cache, trace, included_path(dir, incs, k));
            let code = encode_utf8(child.result->Ok_0.code);
            let stop = gap_end(incs, k, len);
            let end = incs[k].end;
            encode_utf8_valid_utf8(child.result->Ok_0.code);
            is_char_boundary_start_end_of_seq(bytes);
            if k + 1 < incs.len() {
                assert(incs[k].end <= incs[k + 1].start);
            }
            valid_utf8_split(bytes, stop);
            let head = bytes.subrange(0, stop);
            crate::text::lemma_boundary_in_prefix(bytes, end, stop);
            valid_utf8_split(head, end);
            assert(head.subrange(end, head.len() as int) == bytes.subrange(end, stop));
            valid_utf8_concat(code, bytes.subrange(end, stop));
            valid_utf8_concat(code + bytes.subrange(end, stop), behind.result->Ok_0.tail);
        }
    }
}

/// The code of a resolved module is, byte for byte, the working copy of
/// its source with every include replaced.
pub proof fn law_code_is_the_working_copy(
    files: Seq<(Seq<char>, Seq<char>)>,
    cache: Map<Seq<char>, ModuleView>,
    trace: Seq<Seq<char>>,
    dir: Seq<char>,
    source: Seq<char>,
)
    requires
        resolve_includes(files, cache, trace, dir, source, scan(source), 0).result is Ok,
    ensures
        encode_utf8(
            assemble(
                source,
                scan(source),
                resolve_includes(files, cache, trace, dir, source, scan(source), 0).result->Ok_0,
            ).code,
        ) == working(
            encode_utf8(source),
            scan(source),
            0,
            resolve_includes(files, cache, trace, dir, source, scan(source), 0).result->Ok_0.tail,
        ),
{
    let incs = scan(source);
    let bytes = encode_utf8(source);
    let len = bytes.len() as int;
    let tail = resolve_includes(files, cache, trace, dir, source, incs, 0).result->Ok_0.tail;
    crate::scan::lemma_scan_well_placed(source);
    lemma_tail_is_text(files, cache, trace, dir, source, incs, 0);
    encode_utf8_valid_utf8(source);
    is_char_boundary_start_end_of_seq(bytes);
    let first = gap_end(incs, -1, len);
    valid_utf8_split(bytes, first);
    valid_utf8_concat(bytes.subrange(0, first), tail);
    decode_utf8_encode_utf8(bytes.subrange(0, first) + tail);
}

} // verus!
