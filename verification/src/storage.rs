//! The sources that a load may read: a snapshot of storage, held in memory.
//!
//! Resolution never touches a file. Whoever calls it reads the files and
//! hands them over here, path by path.

use vstd::prelude::*;
use vstd::string::*;

verus! {

/// The text that `files` holds for `path`: that of the last entry with this
/// path, or none.
pub open spec fn stored(files: Seq<(Seq<char>, Seq<char>)>, path: Seq<char>) -> Option<Seq<char>>
    decreases files.len(),
{
    if files.len() == 0 {
        None
    } else if files.last().0 == path {
        Some(files.last().1)
    } else {
        stored(files.drop_last(), path)
    }
}

/// How many entries of `files` have a path that is not in `trace`.
pub open spec fn unvisited(files: Seq<(Seq<char>, Seq<char>)>, trace: Seq<Seq<char>>) -> nat
    decreases files.len(),
{
    if files.len() == 0 {
        0
    } else if trace.contains(files.last().0) {
        unvisited(files.drop_last(), trace)
    } else {
        unvisited(files.drop_last(), trace) + 1
    }
}

/// A longer trace leaves no more entries unvisited.
pub proof fn lemma_unvisited_shrinks(
    files: Seq<(Seq<char>, Seq<char>)>,
    trace: Seq<Seq<char>>,
    path: Seq<char>,
)
    ensures
        unvisited(files, trace.push(path)) <= unvisited(files, trace),
    decreases files.len(),
{
    if files.len() > 0 {
        lemma_unvisited_shrinks(files.drop_last(), trace, path);
        if trace.contains(files.last().0) {
            let i = choose|i: int| 0 <= i < trace.len() && trace[i] == files.last().0;
            assert(trace.push(path)[i] == files.last().0);
        }
    }
}

/// Taking up a stored path that is not yet in the trace leaves fewer
/// entries unvisited.
pub proof fn lemma_visit(
    files: Seq<(Seq<char>, Seq<char>)>,
    trace: Seq<Seq<char>>,
    path: Seq<char>,
)
    requires
        stored(files, path) is Some,
        !trace.contains(path),
    ensures
        unvisited(files, trace.push(path)) < unvisited(files, trace),
    decreases files.len(),
{
    let longer = trace.push(path);
    if files.len() > 0 {
        if files.last().0 == path {
            lemma_unvisited_shrinks(files.drop_last(), trace, path);
            assert(longer[trace.len() as int] == path);
        } else {
            lemma_visit(files.drop_last(), trace, path);
            if trace.contains(files.last().0) {
                let i = choose|i: int| 0 <= i < trace.len() && trace[i] == files.last().0;
                assert(longer[i] == files.last().0);
            } else {
                assert forall|i: int| 0 <= i < longer.len() implies longer[i] != files.last().0 by {
                    if i < trace.len() {
                        assert(longer[i] == trace[i]);
                    }
                }
            }
        }
    }
}

/// One source: the path it is stored under, and its text.
#[derive(Debug, Clone, PartialEq, Eq)]
pub struct SourceFile {
    pub path: String,
    pub text: String,
}

/// The sources that a load may read, by path.
#[derive(Debug, Clone, PartialEq, Eq)]
pub struct SourceFiles {
    files: Vec<SourceFile>,
}

impl View for SourceFiles {
    type V = Seq<(Seq<char>, Seq<char>)>;

    closed spec fn view(&self) -> Seq<(Seq<char>, Seq<char>)> {
        Seq::new(self.files@.len(), |i: int| (self.files@[i].path@, self.files@[i].text@))
    }
}

impl SourceFiles {
    /// A snapshot that holds no source.
    pub fn new() -> (r: SourceFiles)
        ensures
            r@ == Seq::<(Seq<char>, Seq<char>)>::empty(),
    {
        SourceFiles { files: Vec::new() }
    }

    /// Stores `text` under `path`. It takes the place of a text stored
    /// under the same path before.
    pub fn insert(&mut self, path: &str, text: &str)
        ensures
            final(self)@ == old(self)@.push((path@, text@)),
            stored(final(self)@, path@) == Some(text@),
            forall|other: Seq<char>|
                other != path@ ==> stored(final(self)@, other) == stored(old(self)@, other),
    {
        let ghost before = self@;
        self.files.push(SourceFile { path: String::from_str(path), text: String::from_str(text) });
        proof {
            assert(self@ == before.push((path@, text@)));
            assert(self@.drop_last() == before);
        }
    }

    /// The text stored under `path`, if there is one.
    pub fn read(&self, path: &str) -> (r: Option<&str>)
        ensures
            match r {
                Some(text) => stored(self@, path@) == Some(text@),
                None => stored(self@, path@) is None,
            },
    {
        let wanted = String::from_str(path);
        let mut i = self.files.len();
        proof {
            assert(self@.take(i as int) == self@);
        }
        while i > 0
            invariant
                i <= self.files@.len(),
                wanted@ == path@,
                stored(self@, path@) == stored(self@.take(i as int), path@),
            decreases i,
        {
            proof {
                assert(self@.take(i as int).drop_last() == self@.take(i - 1));
                assert(self@.take(i as int).last() == self@[i - 1]);
            }
            i -= 1;
            if self.files[i].path == wanted {
                return Some(self.files[i].text.as_str());
            }
        }
        None
    }

    /// Whether a text is stored under `path`.
    pub fn contains(&self, path: &str) -> (r: bool)
        ensures
            r == stored(self@, path@) is Some,
    {
        self.read(path).is_some()
    }
}

} // verus!
