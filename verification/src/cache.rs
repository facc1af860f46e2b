//! The module cache: resolved modules by canonical path, and the loading
//! that fills it.

use vstd::prelude::*;
use vstd::string::*;
use vstd::utf8::*;
use crate::error::{Error, ErrorView, NOT_STORED};
use crate::module::{texts, Module, ModuleView};
use crate::path::{join, join_path, normalize, normpath, parent_path};
use crate::resolve::{
    adopt, assemble, gap_end, lemma_failure_stays, lemma_rebased_empty, lemma_rebased_insert, load,
    load_from_path, rebased, resolve_includes, resolve_module, resolve_root, Linked,
};
use crate::scan::{include_views, well_placed};
use crate::storage::{unvisited, SourceFiles};
use crate::text::{push_text, slice};
use crate::validate::validate;

verus! {

/// One cached module and the canonical path it is cached under.
#[derive(Debug, PartialEq, Eq)]
pub struct CacheEntry {
    path: String,
    module: Module,
}

/// Resolved modules by canonical path. A module that is in the cache is
/// fully resolved; one load after the other may use the same cache, and
/// then shares what is in it.
#[derive(Debug, PartialEq, Eq)]
pub struct ModuleCache {
    entries: Vec<CacheEntry>,
}

/// Whether `entries` holds an entry for `path` at `i`.
spec fn holds_at(entries: Seq<CacheEntry>, path: Seq<char>, i: int) -> bool {
    0 <= i < entries.len() && entries[i].path@ == path
}

impl View for ModuleCache {
    type V = Map<Seq<char>, ModuleView>;

    closed spec fn view(&self) -> Map<Seq<char>, ModuleView> {
        Map::new(
            |path: Seq<char>| exists|i: int| holds_at(self.entries@, path, i),
            |path: Seq<char>| self.entries@[choose|i: int| holds_at(self.entries@, path, i)].module@,
        )
    }
}

impl ModuleCache {
    /// No path has two entries.
    #[verifier::type_invariant]
    spec fn one_entry_each(self) -> bool {
        forall|i: int, j: int|
            0 <= i < j < self.entries@.len() ==> self.entries@[i].path@ != self.entries@[j].path@
    }

    /// Whether the entry at `at` is the one for `path`.
    pub(crate) closed spec fn stands_at(&self, path: Seq<char>, at: int) -> bool {
        holds_at(self.entries@, path, at)
    }

    /// The module of the entry at `at`.
    pub(crate) closed spec fn entry_view(&self, at: int) -> ModuleView {
        self.entries@[at].module@
    }

    /// A cache that holds no module.
    pub fn new() -> (r: ModuleCache)
        ensures
            r@ == Map::<Seq<char>, ModuleView>::empty(),
    {
        let r = ModuleCache { entries: Vec::new() };
        proof {
            assert(r@ =~= Map::<Seq<char>, ModuleView>::empty());
        }
        r
    }

    /// Where the entry for `path` stands, if there is one.
    fn find(&self, path: &str) -> (r: Option<usize>)
        ensures
            match r {
                Some(i) => holds_at(self.entries@, path@, i as int) && self@.contains_key(path@)
                    && self@[path@] == self.entries@[i as int].module@,
                None => !self@.contains_key(path@),
            },
    {
        proof {
            use_type_invariant(self);
        }
        let wanted = String::from_str(path);
        let mut i: usize = 0;
        while i < self.entries.len()
            invariant
                i <= self.entries@.len(),
                wanted@ == path@,
                self.one_entry_each(),
                forall|k: int| 0 <= k < i ==> !holds_at(self.entries@, path@, k),
            decreases self.entries@.len() - i,
        {
            if self.entries[i].path == wanted {
                proof {
                    assert(holds_at(self.entries@, path@, i as int));
                    let chosen = choose|k: int| holds_at(self.entries@, path@, k);
                    assert(chosen == i);
                }
                return Some(i);
            }
            i += 1;
        }
        None
    }

    /// The module that is cached under `path`, taken as it is written.
    pub fn module(&self, path: &str) -> (r: Option<&Module>)
        ensures
            match r {
                Some(module) => self@.contains_key(path@) && self@[path@] == module@,
                None => !self@.contains_key(path@),
            },
    {
        match self.find(path) {
            Some(i) => Some(&self.entries[i].module),
            None => None,
        }
    }

    /// Every cached module with its path, each path once.
    pub fn modules(&self) -> (r: Vec<(&str, &Module)>)
        ensures
            forall|i: int|
                0 <= i < r@.len() ==> self@.contains_key((#[trigger] r@[i]).0@) && self@[r@[i].0@]
                    == r@[i].1@,
            forall|path: Seq<char>|
                self@.contains_key(path) ==> exists|i: int|
                    0 <= i < r@.len() && (#[trigger] r@[i]).0@ == path,
            forall|i: int, j: int| 0 <= i < j < r@.len() ==> r@[i].0@ != r@[j].0@,
    {
        proof {
            use_type_invariant(self);
        }
        let mut out: Vec<(&str, &Module)> = Vec::new();
        let mut i: usize = 0;
        while i < self.entries.len()
            invariant
                i <= self.entries@.len(),
                out@.len() == i,
                forall|k: int|
                    0 <= k < i ==> (#[trigger] out@[k]).0@ == self.entries@[k].path@ && out@[k].1@
                        == self.entries@[k].module@,
            decreases self.entries@.len() - i,
        {
            out.push((self.entries[i].path.as_str(), &self.entries[i].module));
            i += 1;
        }
        proof {
            assert forall|k: int| 0 <= k < out@.len() implies self@.contains_key(
                (#[trigger] out@[k]).0@,
            ) && self@[out@[k].0@] == out@[k].1@ by {
                let path = out@[k].0@;
                assert(holds_at(self.entries@, path, k));
                let chosen = choose|c: int| holds_at(self.entries@, path, c);
                assert(chosen == k);
            }
            assert forall|path: Seq<char>| self@.contains_key(path) implies exists|k: int|
                0 <= k < out@.len() && (#[trigger] out@[k]).0@ == path by {
                let chosen = choose|c: int| holds_at(self.entries@, path, c);
                assert(out@[chosen].0@ == path);
            }
        }
        out
    }

    /// Caches `module` under `path`, in place of what was cached there.
    fn put(&mut self, path: &str, module: Module) -> (at: usize)
        ensures
            final(self)@ == old(self)@.insert(path@, module@),
            holds_at(final(self).entries@, path@, at as int),
            final(self).entries@[at as int].module@ == module@,
    {
        proof {
            use_type_invariant(&*self);
        }
        let ghost before = self.entries@;
        let ghost old_view = self@;
        let ghost added = module@;
        let entry = CacheEntry { path: String::from_str(path), module };
        let found = self.find(path);
        let mut entries: Vec<CacheEntry> = Vec::new();
        std::mem::swap(&mut self.entries, &mut entries);
        let at = match found {
            Some(i) => {
                entries.set(i, entry);
                i
            },
            None => {
                entries.push(entry);
                entries.len() - 1
            },
        };
        proof {
            let after = entries@;
            assert forall|i: int, j: int| 0 <= i < j < after.len() implies after[i].path@
                != after[j].path@ by {
                if j < before.len() {
                    assert(after[i].path@ == before[i].path@ && after[j].path@ == before[j].path@);
                } else {
                    assert(!holds_at(before, path@, i));
                }
            }
        }
        self.entries = entries;
        proof {
            let after = self.entries@;
            assert forall|p: Seq<char>| #[trigger]
                self@.contains_key(p) <==> old_view.insert(path@, added).contains_key(p) by {
                if p == path@ {
                    assert(holds_at(after, p, at as int));
                } else {
                    if exists|i: int| holds_at(after, p, i) {
                        let i = choose|i: int| holds_at(after, p, i);
                        assert(holds_at(before, p, i));
                    }
                    if exists|i: int| holds_at(before, p, i) {
                        let i = choose|i: int| holds_at(before, p, i);
                        assert(holds_at(after, p, i));
                    }
                }
            }
            assert forall|p: Seq<char>| self@.contains_key(p) implies #[trigger] self@[p]
                == old_view.insert(path@, added)[p] by {
                let i = choose|i: int| holds_at(after, p, i);
                if p == path@ {
                    assert(holds_at(after, p, at as int));
                    assert(i == at);
                } else {
                    assert(holds_at(before, p, i));
                    let j = choose|j: int| holds_at(before, p, j);
                    assert(i == j);
                }
            }
            assert(self@ =~= old_view.insert(path@, added));
        }
        at
    }
}

/// Whether `path` is among the texts of `list`.
pub fn contains_text(list: &Vec<String>, path: &str) -> (r: bool)
    ensures
        r == texts(list@).contains(path@),
{
    let wanted = String::from_str(path);
    let mut i: usize = 0;
    while i < list.len()
        invariant
            i <= list@.len(),
            wanted@ == path@,
            forall|k: int| 0 <= k < i ==> texts(list@)[k] != path@,
        decreases list@.len() - i,
    {
        if list[i] == wanted {
            proof {
                assert(texts(list@)[i as int] == path@);
            }
            return true;
        }
        i += 1;
    }
    false
}

/// Adds `item` to `list` unless it is there already.
pub(crate) fn add_unique(list: &mut Vec<String>, item: String)
    requires
        texts(old(list)@).no_duplicates(),
    ensures
        texts(final(list)@).no_duplicates(),
        texts(final(list)@).to_set() == texts(old(list)@).to_set().insert(item@),
{
    let ghost before = texts(list@);
    if !contains_text(list, item.as_str()) {
        let ghost added = item@;
        list.push(item);
        proof {
            let after = texts(list@);
            assert(after == before.push(added));
            assert forall|i: int, j: int| 0 <= i < j < after.len() implies after[i] != after[j] by {
                if j < before.len() {
                    assert(after[i] == before[i] && after[j] == before[j]);
                } else {
                    assert(after[i] == before[i]);
                }
            }
            assert forall|p: Seq<char>| after.to_set().contains(p) <==> before.to_set().insert(
                added,
            ).contains(p) by {
                if after.contains(p) {
                    let i = choose|i: int| 0 <= i < after.len() && after[i] == p;
                    if i < before.len() {
                        assert(before[i] == p);
                    }
                }
                if before.contains(p) {
                    let i = choose|i: int| 0 <= i < before.len() && before[i] == p;
                    assert(after[i] == p);
                }
                if p == added {
                    assert(after[before.len() as int] == p);
                }
            }
            assert(after.to_set() =~= before.to_set().insert(added));
        }
    } else {
        proof {
            assert(before.to_set() =~= before.to_set().insert(item@));
        }
    }
}

/// Adds to `deps` what an included module brings: its dependencies as they
/// are and as seen from its directory, and its own path.
pub(crate) fn adopt_dependencies(
    deps: &mut Vec<String>,
    child_path: String,
    child_dir: &str,
    child_deps: &Vec<String>,
)
    requires
        texts(old(deps)@).no_duplicates(),
    ensures
        texts(final(deps)@).no_duplicates(),
        texts(final(deps)@).to_set() == adopt(
            texts(old(deps)@).to_set(),
            child_path@,
            child_dir@,
            texts(child_deps@).to_set(),
        ),
{
    let ghost own = texts(deps@).to_set();
    let ghost theirs = texts(child_deps@);
    proof {
        lemma_rebased_empty(child_dir@);
        assert(theirs.take(0).to_set() =~= Set::<Seq<char>>::empty());
        assert(own.union(Set::empty()).union(Set::empty()) =~= own);
    }
    let mut j: usize = 0;
    while j < child_deps.len()
        invariant
            j <= child_deps@.len(),
            theirs == texts(child_deps@),
            texts(deps@).no_duplicates(),
            texts(deps@).to_set() == own.union(theirs.take(j as int).to_set()).union(
                rebased(theirs.take(j as int).to_set(), child_dir@),
            ),
        decreases child_deps@.len() - j,
    {
        let ghost seen = theirs.take(j as int).to_set();
        let ghost dep = theirs[j as int];
        proof {
            assert(theirs.take(j + 1) == theirs.take(j as int).push(dep));
            assert(theirs.take(j + 1).to_set() =~= seen.insert(dep)) by {
                let longer = theirs.take(j + 1);
                let shorter = theirs.take(j as int);
                assert forall|p: Seq<char>| longer.to_set().contains(p) <==> seen.insert(
                    dep,
                ).contains(p) by {
                    if longer.contains(p) {
                        let i = choose|i: int| 0 <= i < longer.len() && longer[i] == p;
                        if i < shorter.len() {
                            assert(shorter[i] == p);
                        }
                    }
                    if shorter.contains(p) {
                        let i = choose|i: int| 0 <= i < shorter.len() && shorter[i] == p;
                        assert(longer[i] == p);
                    }
                    if p == dep {
                        assert(longer[j as int] == p);
                    }
                }
            }
            lemma_rebased_insert(seen, dep, child_dir@);
        }
        add_unique(deps, child_deps[j].clone());
        let moved = normpath(join_path(child_dir, child_deps[j].as_str()).as_str());
        add_unique(deps, moved);
        proof {
            let moved_text = normalize(join(child_dir@, dep));
            assert(texts(deps@).to_set() =~= own.union(seen.insert(dep)).union(
                rebased(seen, child_dir@).insert(moved_text),
            ));
        }
        j += 1;
    }
    proof {
        assert(theirs.take(child_deps@.len() as int) == theirs);
    }
    add_unique(deps, child_path);
}

impl Module {
    /// Resolves the includes of this module, the last one first, and hands
    /// back the module with its code and its dependencies. `dir` is the
    /// directory of the module, `trace` holds the modules that are being
    /// resolved, this one last. The first include that fails ends it.
    pub fn resolve_includes(
        self,
        cache: &mut ModuleCache,
        files: &SourceFiles,
        trace: &mut Vec<String>,
        dir: &str,
    ) -> (r: Result<Module, Error>)
        ensures
            ({
                let out = resolve_includes(
                    files@,
                    old(cache)@,
                    texts(old(trace)@),
                    dir@,
                    self@.source,
                    self@.includes,
                    0,
                );
                &&& final(cache)@ == out.cache
                &&& final(trace)@ == old(trace)@
                &&& match r {
                    Ok(module) => out.result is Ok && module@ == assemble(
                        self@.source,
                        self@.includes,
                        out.result->Ok_0,
                    ),
                    Err(e) => out.result == Err::<Linked, ErrorView>(e@),
                }
            }),
        decreases unvisited(files@, texts(old(trace)@)), self@.includes.len() + 1,
    {
        let ghost first_cache = cache@;
        let ghost first_trace = trace@;
        let ghost incs = self@.includes;
        let ghost text = self@.source;
        let ghost bytes = encode_utf8(text);
        let source = self.source();
        let includes = self.includes();
        let n = includes.len();
        let mut tail = String::new();
        let mut deps: Vec<String> = Vec::new();
        let mut cursor: usize = source.as_bytes().len();
        let mut k: usize = n;
        proof {
            encode_utf8_valid_utf8(text);
            is_char_boundary_start_end_of_seq(bytes);
            assert(texts(deps@).to_set() =~= Set::<Seq<char>>::empty());
        }
        while k > 0
            invariant
                k <= n,
                n == incs.len(),
                include_views(includes@) == incs,
                source@ == text,
                bytes == encode_utf8(text),
                valid_utf8(bytes),
                is_char_boundary(bytes, bytes.len() as int),
                well_placed(incs, bytes),
                first_cache == old(cache)@,
                first_trace == old(trace)@,
                trace@ == first_trace,
                incs == self@.includes,
                text == self@.source,
                cursor as int == gap_end(incs, k - 1, bytes.len() as int),
                cursor <= bytes.len(),
                texts(deps@).no_duplicates(),
                ({
                    let out = resolve_includes(
                        files@,
                        first_cache,
                        texts(first_trace),
                        dir@,
                        text,
                        incs,
                        k as int,
                    );
                    &&& out.cache == cache@
                    &&& out.result is Ok
                    &&& out.result->Ok_0.tail == encode_utf8(tail@)
                    &&& out.result->Ok_0.dependencies == texts(deps@).to_set()
                }),
            decreases k,
        {
            let i = k - 1;
            let inc = &includes[i];
            proof {
                assert(incs[i as int] == inc@);
            }
            let child_path = normpath(join_path(dir, inc.path.as_str()).as_str());
            let at = match cache.resolve_module(files, trace, child_path.as_str()) {
                Ok(at) => at,
                Err(e) => {
                    proof {
                        lemma_failure_stays(
                            files@,
                            first_cache,
                            texts(first_trace),
                            dir@,
                            text,
                            incs,
                            0,
                            i as int,
                        );
                    }
                    return Err(e);
                },
            };
            let child_dir = match parent_path(child_path.as_str()) {
                Ok(d) => d,
                Err(e) => {
                    proof {
                        lemma_failure_stays(
                            files@,
                            first_cache,
                            texts(first_trace),
                            dir@,
                            text,
                            incs,
                            0,
                            i as int,
                        );
                    }
                    return Err(e);
                },
            };
            let child = &cache.entries[at].module;
            let mut next = String::from_str(child.code());
            proof {
                if i + 1 < n {
                    assert(incs[i as int].end <= incs[i + 1].start);
                }
            }
            push_text(&mut next, slice(source, inc.end, cursor));
            push_text(&mut next, tail.as_str());
            adopt_dependencies(&mut deps, child_path, child_dir.as_str(), child.dependencies());
            tail = next;
            cursor = inc.start;
            k = i;
        }
        let mut code = String::from_str(slice(source, 0, cursor));
        push_text(&mut code, tail.as_str());
        proof {
            encode_utf8_decode_utf8(code@);
        }
        Ok(self.resolved(code, deps))
    }
}

impl ModuleCache {
    /// Resolves the module at the canonical path `path` and hands back
    /// where it stands in the cache. A path of the trace is a cycle; a
    /// module that is cached is taken as it is; any other is read from
    /// `files`, has its includes resolved, and is cached.
    pub(crate) fn resolve_module(&mut self, files: &SourceFiles, trace: &mut Vec<String>, path: &str) -> (r:
        Result<usize, Error>)
        ensures
            ({
                let out = resolve_module(files@, old(self)@, texts(old(trace)@), path@);
                &&& final(self)@ == out.cache
                &&& final(trace)@ == old(trace)@
                &&& match r {
                    Ok(at) => final(self).stands_at(path@, at as int) && out.result == Ok::<
                        ModuleView,
                        ErrorView,
                    >(final(self).entry_view(at as int)),
                    Err(e) => out.result == Err::<ModuleView, ErrorView>(e@),
                }
            }),
        decreases unvisited(files@, texts(old(trace)@)), 0int,
    {
        if contains_text(trace, path) {
            let from = trace[trace.len() - 1].clone();
            proof {
                assert(texts(trace@).last() == from@);
            }
            return Err(Error::CircularDependency { path: String::from_str(path), from });
        }
        match self.find(path) {
            Some(at) => {
                return Ok(at);
            },
            None => {},
        }
        let source = match files.read(path) {
            Some(text) => text,
            None => {
                return Err(
                    Error::IoError {
                        path: String::from_str(path),
                        cause: String::from_str(NOT_STORED),
                    },
                );
            },
        };
        let dir = match parent_path(path) {
            Ok(d) => d,
            Err(e) => {
                return Err(e);
            },
        };
        let module = Module::load_source(source);
        let ghost before = trace@;
        trace.push(String::from_str(path));
        proof {
            assert(texts(trace@) == texts(before).push(path@));
            crate::storage::lemma_visit(files@, texts(before), path@);
        }
        let linked = module.resolve_includes(self, files, trace, dir.as_str());
        trace.pop();
        proof {
            assert(trace@ == before);
        }
        match linked {
            Err(e) => Err(e),
            Ok(resolved) => {
                let at = self.put(path, resolved);
                Ok(at)
            },
        }
    }
}

impl ModuleCache {
    /// Resolves `source` as the module that was asked for, under the
    /// canonical path `path`: its includes are resolved with `path` alone
    /// in the trace, its code is validated, and the valid module is cached.
    pub(crate) fn resolve_root(&mut self, path: &str, source: &str, files: &SourceFiles) -> (r: Result<
        usize,
        Error,
    >)
        ensures
            ({
                let out = resolve_root(files@, old(self)@, path@, source@);
                &&& final(self)@ == out.cache
                &&& match r {
                    Ok(at) => final(self).stands_at(path@, at as int) && out.result == Ok::<
                        ModuleView,
                        ErrorView,
                    >(final(self).entry_view(at as int)),
                    Err(e) => out.result == Err::<ModuleView, ErrorView>(e@),
                }
            }),
    {
        let dir = match parent_path(path) {
            Ok(d) => d,
            Err(e) => {
                return Err(e);
            },
        };
        let module = Module::load_source(source);
        let mut trace: Vec<String> = Vec::new();
        trace.push(String::from_str(path));
        proof {
            assert(texts(trace@) == seq![path@]);
        }
        let resolved = match module.resolve_includes(self, files, &mut trace, dir.as_str()) {
            Ok(m) => m,
            Err(e) => {
                return Err(e);
            },
        };
        match validate(resolved.code()) {
            Err(e) => Err(e),
            Ok(_) => Ok(self.put(path, resolved)),
        }
    }

    /// Loads a module and hands back where it stands in the cache: with a
    /// text, that text under `path`; without one, the module at `path`,
    /// from the cache if it is there, else from `files`.
    pub(crate) fn load_helper(&mut self, path: &str, source_code: Option<&str>, files: &SourceFiles) -> (r:
        Result<usize, Error>)
        ensures
            ({
                let out = match source_code {
                    Some(text) => load(files@, old(self)@, path@, text@),
                    None => load_from_path(files@, old(self)@, path@),
                };
                &&& final(self)@ == out.cache
                &&& match r {
                    Ok(at) => final(self).stands_at(normalize(path@), at as int) && out.result
                        == Ok::<ModuleView, ErrorView>(final(self).entry_view(at as int)),
                    Err(e) => out.result == Err::<ModuleView, ErrorView>(e@),
                }
            }),
    {
        let canonical = normpath(path);
        match source_code {
            Some(text) => self.resolve_root(canonical.as_str(), text, files),
            None => {
                match self.find(canonical.as_str()) {
                    Some(at) => {
                        return match validate(self.entries[at].module.code()) {
                            Err(e) => Err(e),
                            Ok(_) => Ok(at),
                        };
                    },
                    None => {},
                }
                match parent_path(canonical.as_str()) {
                    Ok(_) => {},
                    Err(e) => {
                        return Err(e);
                    },
                }
                match files.read(canonical.as_str()) {
                    None => Err(
                        Error::IoError { path: canonical, cause: String::from_str(NOT_STORED) },
                    ),
                    Some(text) => self.resolve_root(canonical.as_str(), text, files),
                }
            },
        }
    }

    /// Loads the text `source_code` under `path`: resolves its includes
    /// against the directory of `path`, reading included files from `files`
    /// unless they are cached, validates the flattened code, caches the
    /// module under the canonical path, and hands it out.
    pub fn load(&mut self, path: &str, source_code: &str, files: &SourceFiles) -> (r: Result<
        &Module,
        Error,
    >)
        ensures
            ({
                let out = load(files@, old(self)@, path@, source_code@);
                &&& final(self)@ == out.cache
                &&& match r {
                    Ok(module) => out.result == Ok::<ModuleView, ErrorView>(module@),
                    Err(e) => out.result == Err::<ModuleView, ErrorView>(e@),
                }
            }),
    {
        match self.load_helper(path, Some(source_code), files) {
            Ok(at) => Ok(&self.entries[at].module),
            Err(e) => Err(e),
        }
    }

    /// Loads the module at `path`. A module that is cached under the
    /// canonical path is validated and handed out as it is; any other is
    /// read from `files`, resolved, validated and cached.
    pub fn load_from_path(&mut self, path: &str, files: &SourceFiles) -> (r: Result<&Module, Error>)
        ensures
            ({
                let out = load_from_path(files@, old(self)@, path@);
                &&& final(self)@ == out.cache
                &&& match r {
                    Ok(module) => out.result == Ok::<ModuleView, ErrorView>(module@),
                    Err(e) => out.result == Err::<ModuleView, ErrorView>(e@),
                }
            }),
    {
        match self.load_helper(path, None, files) {
            Ok(at) => Ok(&self.entries[at].module),
            Err(e) => Err(e),
        }
    }

    /// Gives the cache up for the module of the entry at `at`.
    fn into_module(self, at: usize, Ghost(path): Ghost<Seq<char>>) -> (r: Module)
        requires
            self.stands_at(path, at as int),
        ensures
            r@ == self.entry_view(at as int),
    {
        let mut entries = self.entries;
        entries.swap_remove(at).module
    }
}

impl Module {
    /// Loads the text `source_code` under `path` with a cache of its own,
    /// and hands back the module alone.
    pub fn load(path: &str, source_code: &str, files: &SourceFiles) -> (r: Result<Module, Error>)
        ensures
            ({
                let out = load(files@, Map::empty(), path@, source_code@);
                match r {
                    Ok(module) => out.result == Ok::<ModuleView, ErrorView>(module@),
                    Err(e) => out.result == Err::<ModuleView, ErrorView>(e@),
                }
            }),
    {
        let mut cache = ModuleCache::new();
        match cache.load_helper(path, Some(source_code), files) {
            Ok(at) => Ok(cache.into_module(at, Ghost(normalize(path@)))),
            Err(e) => Err(e),
        }
    }

    /// Loads the module at `path` with a cache of its own, and hands back
    /// the module alone.
    pub fn load_from_path(path: &str, files: &SourceFiles) -> (r: Result<Module, Error>)
        ensures
            ({
                let out = load_from_path(files@, Map::empty(), path@);
                match r {
                    Ok(module) => out.result == Ok::<ModuleView, ErrorView>(module@),
                    Err(e) => out.result == Err::<ModuleView, ErrorView>(e@),
                }
            }),
    {
        let mut cache = ModuleCache::new();
        match cache.load_helper(path, None, files) {
            Ok(at) => Ok(cache.into_module(at, Ghost(normalize(path@)))),
            Err(e) => Err(e),
        }
    }
}

} // verus!
