//! What a load yields, stated over mathematical values: the storage as a
//! list of texts by path, the cache as a map from canonical path to module,
//! the trace as the list of the paths that are being resolved.

use vstd::prelude::*;
use vstd::utf8::*;
use crate::error::{ErrorView, NOT_STORED};
use crate::module::ModuleView;
use crate::path::{join, normalize, parent};
use crate::scan::{scan, IncludeView};
use crate::storage::{lemma_visit, stored, unvisited};
use crate::validate::wgsl_diagnostic;

verus! {

/// The cache that a step leaves behind, and what the step yields.
pub struct Outcome<T> {
    pub cache: Map<Seq<char>, ModuleView>,
    pub result: Result<T, ErrorView>,
}

/// What resolving the includes of a module from some include on yields:
/// the flattened text from the start of that include to the end of the
/// source, and the dependencies gathered on the way.
pub struct Linked {
    pub tail: Seq<u8>,
    pub dependencies: Set<Seq<char>>,
}

/// Where the text behind include `k` ends: at the start of the next
/// include, or with the text. For `k == -1` this is where the text before
/// the first include ends.
pub open spec fn gap_end(incs: Seq<IncludeView>, k: int, len: int) -> int {
    if k + 1 < incs.len() {
        incs[k + 1].start
    } else {
        len
    }
}

/// `text` with the bytes from `start` to `end` replaced by `insert`.
pub open spec fn replaced(text: Seq<u8>, start: int, end: int, insert: Seq<u8>) -> Seq<u8> {
    text.subrange(0, start) + insert + text.subrange(end, text.len() as int)
}

/// The working copy of a source with the bytes `bytes` once its includes
/// from `k` on are replaced and have become `tail`: the source up to
/// include `k`, then `tail`.
pub open spec fn working(bytes: Seq<u8>, incs: Seq<IncludeView>, k: int, tail: Seq<u8>) -> Seq<u8> {
    bytes.subrange(0, gap_end(incs, k - 1, bytes.len() as int)) + tail
}

/// The paths `deps`, each taken as seen from the directory `dir`.
pub open spec fn rebased(deps: Set<Seq<char>>, dir: Seq<char>) -> Set<Seq<char>> {
    deps.map(|d: Seq<char>| normalize(join(dir, d)))
}

/// The dependencies `own` of a module with those that an included module
/// brings: the path of that module, its dependencies as they are, and its
/// dependencies as seen from its directory.
pub open spec fn adopt(
    own: Set<Seq<char>>,
    child_path: Seq<char>,
    child_dir: Seq<char>,
    child_deps: Set<Seq<char>>,
) -> Set<Seq<char>> {
    own.union(child_deps).union(rebased(child_deps, child_dir)).insert(child_path)
}

/// The module with the source `source` and the includes `incs`, its
/// includes resolved to `linked`: the code is the text before the first
/// include, then what the includes and the text between them became.
pub open spec fn assemble(source: Seq<char>, incs: Seq<IncludeView>, linked: Linked) -> ModuleView {
    let bytes = encode_utf8(source);
    ModuleView {
        source,
        includes: incs,
        code: decode_utf8(bytes.subrange(0, gap_end(incs, -1, bytes.len() as int)) + linked.tail),
        dependencies: linked.dependencies,
    }
}

/// Resolves the module at `path` while the modules of `trace` are being
/// resolved. A path of the trace is a cycle; a cached module is taken as it
/// is; anything else is read, has its includes resolved with `path` added
/// to the trace, and is cached.
pub open spec fn resolve_module(
    files: Seq<(Seq<char>, Seq<char>)>,
    cache: Map<Seq<char>, ModuleView>,
    trace: Seq<Seq<char>>,
    path: Seq<char>,
) -> Outcome<ModuleView>
    decreases unvisited(files, trace), 0int,
{
    if trace.contains(path) {
        Outcome {
            cache,
            result: Err(ErrorView::CircularDependency { path, from: trace.last() }),
        }
    } else if cache.contains_key(path) {
        Outcome { cache, result: Ok(cache[path]) }
    } else {
        match stored(files, path) {
            None => Outcome {
                cache,
                result: Err(ErrorView::IoError { path, cause: NOT_STORED@ }),
            },
            Some(source) => match parent(path) {
                None => Outcome { cache, result: Err(ErrorView::InvalidPath { path }) },
                Some(dir) => {
                    proof {
                        lemma_visit(files, trace, path);
                    }
                    let incs = scan(source);
                    let linked = resolve_includes(
                        files,
                        cache,
                        trace.push(path),
                        dir,
                        source,
                        incs,
                        0,
                    );
                    match linked.result {
                        Err(e) => Outcome { cache: linked.cache, result: Err(e) },
                        Ok(l) => {
                            let module = assemble(source, incs, l);
                            Outcome {
                                cache: linked.cache.insert(path, module),
                                result: Ok(module),
                            }
                        },
                    }
                },
            },
        }
    }
}

/// Resolves the includes `incs[k..]` of the module with the source
/// `source` in the directory `dir`, the last one first: the module that an
/// include names is resolved, and its code and what it brings as
/// dependencies are taken up. The first failure ends it; what was cached
/// until then stays cached.
pub open spec fn resolve_includes(
    files: Seq<(Seq<char>, Seq<char>)>,
    cache: Map<Seq<char>, ModuleView>,
    trace: Seq<Seq<char>>,
    dir: Seq<char>,
    source: Seq<char>,
    incs: Seq<IncludeView>,
    k: int,
) -> Outcome<Linked>
    decreases unvisited(files, trace), incs.len() - k + 1,
{
    if k < 0 || k >= incs.len() {
        Outcome { cache, result: Ok(Linked { tail: seq![], dependencies: Set::empty() }) }
    } else {
        let later = resolve_includes(files, cache, trace, dir, source, incs, k + 1);
        match later.result {
            Err(e) => later,
            Ok(linked) => {
                let child_path = normalize(join(dir, incs[k].path));
                let child = resolve_module(files, later.cache, trace, child_path);
                match child.result {
                    Err(e) => Outcome { cache: child.cache, result: Err(e) },
                    Ok(module) => match parent(child_path) {
                        None => Outcome {
                            cache: child.cache,
                            result: Err(ErrorView::InvalidPath { path: child_path }),
                        },
                        Some(child_dir) => {
                            let bytes = encode_utf8(source);
                            Outcome {
                                cache: child.cache,
                                result: Ok(
                                    Linked {
                                        tail: encode_utf8(module.code) + bytes.subrange(
                                            incs[k].end,
                                            gap_end(incs, k, bytes.len() as int),
                                        ) + linked.tail,
                                        dependencies: adopt(
                                            linked.dependencies,
                                            child_path,
                                            child_dir,
                                            module.dependencies,
                                        ),
                                    },
                                ),
                            }
                        },
                    },
                }
            },
        }
    }
}

/// Resolves the module that was asked for: `source` under the canonical
/// path `path`. Its includes are resolved with `path` alone in the trace;
/// the flattened code is then validated, and only a valid module is cached.
pub open spec fn resolve_root(
    files: Seq<(Seq<char>, Seq<char>)>,
    cache: Map<Seq<char>, ModuleView>,
    path: Seq<char>,
    source: Seq<char>,
) -> Outcome<ModuleView> {
    match parent(path) {
        None => Outcome { cache, result: Err(ErrorView::InvalidPath { path }) },
        Some(dir) => {
            let incs = scan(source);
            let linked = resolve_includes(files, cache, seq![path], dir, source, incs, 0);
            match linked.result {
                Err(e) => Outcome { cache: linked.cache, result: Err(e) },
                Ok(l) => {
                    let module = assemble(source, incs, l);
                    match wgsl_diagnostic(module.code) {
                        Some(diagnostic) => Outcome {
                            cache: linked.cache,
                            result: Err(ErrorView::ValidationError { diagnostic }),
                        },
                        None => Outcome {
                            cache: linked.cache.insert(path, module),
                            result: Ok(module),
                        },
                    }
                },
            }
        },
    }
}

/// Loads the text `source` under the path `path`: the path is made
/// canonical, the text resolved as the module that was asked for.
pub open spec fn load(
    files: Seq<(Seq<char>, Seq<char>)>,
    cache: Map<Seq<char>, ModuleView>,
    path: Seq<char>,
    source: Seq<char>,
) -> Outcome<ModuleView> {
    resolve_root(files, cache, normalize(path), source)
}

/// Loads the module at `path`. A module that is cached under the canonical
/// path is validated and handed out as it is, whatever the storage holds
/// by now; any other is read from the storage and resolved.
pub open spec fn load_from_path(
    files: Seq<(Seq<char>, Seq<char>)>,
    cache: Map<Seq<char>, ModuleView>,
    path: Seq<char>,
) -> Outcome<ModuleView> {
    let canonical = normalize(path);
    if cache.contains_key(canonical) {
        match wgsl_diagnostic(cache[canonical].code) {
            Some(diagnostic) => Outcome {
                cache,
                result: Err(ErrorView::ValidationError { diagnostic }),
            },
            None => Outcome { cache, result: Ok(cache[canonical]) },
        }
    } else if parent(canonical) is None {
        Outcome { cache, result: Err(ErrorView::InvalidPath { path: canonical }) }
    } else {
        match stored(files, canonical) {
            None => Outcome {
                cache,
                result: Err(ErrorView::IoError { path: canonical, cause: NOT_STORED@ }),
            },
            Some(source) => resolve_root(files, cache, canonical, source),
        }
    }
}

/// A failure at include `k` is the outcome for every include before it:
/// nothing more is resolved once an include has failed.
pub proof fn lemma_failure_stays(
    files: Seq<(Seq<char>, Seq<char>)>,
    cache: Map<Seq<char>, ModuleView>,
    trace: Seq<Seq<char>>,
    dir: Seq<char>,
    source: Seq<char>,
    incs: Seq<IncludeView>,
    j: int,
    k: int,
)
    requires
        0 <= j <= k,
        resolve_includes(files, cache, trace, dir, source, incs, k).result is Err,
    ensures
        resolve_includes(files, cache, trace, dir, source, incs, j) == resolve_includes(
            files,
            cache,
            trace,
            dir,
            source,
            incs,
            k,
        ),
    decreases k - j,
{
    if j < k {
        lemma_failure_stays(files, cache, trace, dir, source, incs, j + 1, k);
    }
}

/// Rebasing one more path adds its rebased form.
pub proof fn lemma_rebased_insert(deps: Set<Seq<char>>, dep: Seq<char>, dir: Seq<char>)
    ensures
        rebased(deps.insert(dep), dir) == rebased(deps, dir).insert(normalize(join(dir, dep))),
{
    let f = |d: Seq<char>| normalize(join(dir, d));
    let left = rebased(deps.insert(dep), dir);
    let right = rebased(deps, dir).insert(normalize(join(dir, dep)));
    assert forall|p: Seq<char>| left.contains(p) <==> right.contains(p) by {
        if left.contains(p) {
            let x = choose|x: Seq<char>| deps.insert(dep).contains(x) && p == f(x);
            if x != dep {
                assert(deps.contains(x) && p == f(x));
            }
        }
        if right.contains(p) {
            if p == f(dep) {
                assert(deps.insert(dep).contains(dep));
            } else {
                let x = choose|x: Seq<char>| deps.contains(x) && p == f(x);
                assert(deps.insert(dep).contains(x) && p == f(x));
            }
        }
    }
    assert(left =~= right);
}

/// Nothing rebased is nothing.
pub proof fn lemma_rebased_empty(dir: Seq<char>)
    ensures
        rebased(Set::empty(), dir) == Set::<Seq<char>>::empty(),
{
    assert(rebased(Set::empty(), dir) =~= Set::<Seq<char>>::empty());
}

} // verus!
