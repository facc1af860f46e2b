//! Lexical handling of module paths.
//!
//! A path is a string whose segments are separated by `/`. Nothing here looks
//! at a file system: `.` and `..` are resolved against the text alone.

use vstd::prelude::*;
use vstd::string::*;
use crate::error::{Error, ErrorView};

verus! {

/// The state of a left-to-right split of a path at its separators: the
/// segments that are complete, and the characters of the one being read.
pub struct Split {
    pub done: Seq<Seq<char>>,
    pub open: Seq<char>,
}

/// `done` with the segment `open` added, unless it is empty.
pub open spec fn close_segment(done: Seq<Seq<char>>, open: Seq<char>) -> Seq<Seq<char>> {
    if open.len() > 0 {
        done.push(open)
    } else {
        done
    }
}

/// The split of `path` after all of its characters were read.
pub open spec fn split(path: Seq<char>) -> Split
    decreases path.len(),
{
    if path.len() == 0 {
        Split { done: seq![], open: seq![] }
    } else {
        let before = split(path.drop_last());
        if path.last() == '/' {
            Split { done: close_segment(before.done, before.open), open: seq![] }
        } else {
            Split { done: before.done, open: before.open.push(path.last()) }
        }
    }
}

/// The non-empty pieces of `path` between its separators, in order.
pub open spec fn segments(path: Seq<char>) -> Seq<Seq<char>> {
    close_segment(split(path).done, split(path).open)
}

/// Whether `segment` names the directory itself (`.`).
pub open spec fn is_current(segment: Seq<char>) -> bool {
    segment =~= seq!['.']
}

/// Whether `segment` names the directory above (`..`).
pub open spec fn is_parent(segment: Seq<char>) -> bool {
    segment =~= seq!['.', '.']
}

/// `stack` after one more segment: `.` changes nothing, `..` removes the
/// real segment on top and stays where there is none, anything else is
/// added.
pub open spec fn collapse_step(stack: Seq<Seq<char>>, segment: Seq<char>) -> Seq<Seq<char>> {
    if is_current(segment) {
        stack
    } else if is_parent(segment) && stack.len() > 0 && !is_parent(stack.last()) {
        stack.drop_last()
    } else {
        stack.push(segment)
    }
}

/// The segments that are left of `segs` once every `.` is gone and every
/// `..` has removed the real segment before it.
pub open spec fn collapse(segs: Seq<Seq<char>>) -> Seq<Seq<char>>
    decreases segs.len(),
{
    if segs.len() == 0 {
        seq![]
    } else {
        collapse_step(collapse(segs.drop_last()), segs.last())
    }
}

/// `segs` written out with one separator between neighbours.
pub open spec fn render(segs: Seq<Seq<char>>) -> Seq<char>
    decreases segs.len(),
{
    if segs.len() == 0 {
        seq![]
    } else if segs.len() == 1 {
        segs[0]
    } else {
        render(segs.drop_last()) + seq!['/'] + segs.last()
    }
}

/// Whether `path` starts at the root.
pub open spec fn is_absolute(path: Seq<char>) -> bool {
    path.len() > 0 && path[0] == '/'
}

/// The root marker of an absolute path, nothing for a relative one.
pub open spec fn root_of(path: Seq<char>) -> Seq<char> {
    if is_absolute(path) {
        seq!['/']
    } else {
        seq![]
    }
}

/// The canonical form of `path`: its root marker, then its collapsed
/// segments.
pub open spec fn normalize(path: Seq<char>) -> Seq<char> {
    root_of(path) + render(collapse(segments(path)))
}

/// `rel` as seen from the directory `base`: an absolute `rel` stands for
/// itself, a relative one is appended to `base` behind a separator.
pub open spec fn join(base: Seq<char>, rel: Seq<char>) -> Seq<char> {
    if is_absolute(rel) || base.len() == 0 {
        rel
    } else if base.last() == '/' {
        base + rel
    } else {
        base + seq!['/'] + rel
    }
}

/// The directory that holds `path`: `path` without its last segment. There
/// is none where `path` has no segment at all (the empty path, the root).
pub open spec fn parent(path: Seq<char>) -> Option<Seq<char>> {
    if segments(path).len() == 0 {
        None
    } else {
        Some(root_of(path) + render(segments(path).drop_last()))
    }
}

/// The characters that the index ranges of `ranges` select from `text`.
pub open spec fn pieces(text: Seq<char>, ranges: Seq<(usize, usize)>) -> Seq<Seq<char>> {
    Seq::new(ranges.len(), |i: int| text.subrange(ranges[i].0 as int, ranges[i].1 as int))
}

/// Whether every range of `ranges` lies inside a text of `len` characters.
pub open spec fn ranges_within(ranges: Seq<(usize, usize)>, len: nat) -> bool {
    forall|i: int| 0 <= i < ranges.len() ==> (#[trigger] ranges[i]).0 <= ranges[i].1 <= len
}

/// The characters of `s`, collected.
pub fn chars_of(s: &str) -> (r: Vec<char>)
    ensures
        r@ == s@,
{
    let mut out: Vec<char> = Vec::new();
    for c in it: s.chars()
        invariant
            out@ == it.seq().take(it.index() as int),
            it.seq() == s@,
    {
        out.push(c);
    }
    out
}

/// Splits `chars` at its separators and hands back the index range of each
/// segment.
pub fn split_segments(chars: &Vec<char>) -> (r: Vec<(usize, usize)>)
    ensures
        ranges_within(r@, chars@.len()),
        pieces(chars@, r@) == segments(chars@),
{
    let n = chars.len();
    let mut done: Vec<(usize, usize)> = Vec::new();
    let mut start: usize = 0;
    let mut i: usize = 0;
    while i < n
        invariant
            n == chars@.len(),
            start <= i <= n,
            ranges_within(done@, chars@.len()),
            pieces(chars@, done@) == split(chars@.take(i as int)).done,
            chars@.subrange(start as int, i as int) == split(chars@.take(i as int)).open,
        decreases n - i,
    {
        proof {
            assert(chars@.take(i + 1).drop_last() == chars@.take(i as int));
        }
        if chars[i] == '/' {
            if start < i {
                proof {
                    assert(pieces(chars@, done@.push((start, i))) == pieces(chars@, done@).push(
                        chars@.subrange(start as int, i as int),
                    ));
                }
                done.push((start, i));
            }
            start = i + 1;
            proof {
                assert(chars@.subrange(start as int, start as int) == Seq::<char>::empty());
            }
        } else {
            proof {
                assert(chars@.subrange(start as int, i + 1) == chars@.subrange(
                    start as int,
                    i as int,
                ).push(chars@[i as int]));
            }
        }
        i += 1;
    }
    proof {
        assert(chars@.take(n as int) == chars@);
    }
    if start < n {
        proof {
            assert(pieces(chars@, done@.push((start, n))) == pieces(chars@, done@).push(
                chars@.subrange(start as int, n as int),
            ));
        }
        done.push((start, n));
    }
    done
}

/// Whether the range `range` of `chars` spells `.`.
fn range_is_current(chars: &Vec<char>, range: (usize, usize)) -> (r: bool)
    requires
        range.0 <= range.1 <= chars@.len(),
    ensures
        r == is_current(chars@.subrange(range.0 as int, range.1 as int)),
{
    let ghost piece = chars@.subrange(range.0 as int, range.1 as int);
    if range.1 - range.0 == 1 {
        assert(piece[0] == chars@[range.0 as int]);
        chars[range.0] == '.'
    } else {
        false
    }
}

/// Whether the range `range` of `chars` spells `..`.
fn range_is_parent(chars: &Vec<char>, range: (usize, usize)) -> (r: bool)
    requires
        range.0 <= range.1 <= chars@.len(),
    ensures
        r == is_parent(chars@.subrange(range.0 as int, range.1 as int)),
{
    let ghost piece = chars@.subrange(range.0 as int, range.1 as int);
    if range.1 - range.0 == 2 {
        assert(piece[0] == chars@[range.0 as int]);
        assert(piece[1] == chars@[range.0 + 1]);
        chars[range.0] == '.' && chars[range.0 + 1] == '.'
    } else {
        false
    }
}

/// Collapses the segments `segs` of `chars`, given and returned as index
/// ranges.
pub fn collapse_segments(chars: &Vec<char>, segs: &Vec<(usize, usize)>) -> (r: Vec<(usize, usize)>)
    requires
        ranges_within(segs@, chars@.len()),
    ensures
        ranges_within(r@, chars@.len()),
        pieces(chars@, r@) == collapse(pieces(chars@, segs@)),
{
    let mut stack: Vec<(usize, usize)> = Vec::new();
    let mut k: usize = 0;
    while k < segs.len()
        invariant
            k <= segs.len(),
            ranges_within(segs@, chars@.len()),
            ranges_within(stack@, chars@.len()),
            pieces(chars@, stack@) == collapse(pieces(chars@, segs@).take(k as int)),
        decreases segs.len() - k,
    {
        let seg = segs[k];
        let ghost all = pieces(chars@, segs@);
        proof {
            assert(all.take(k + 1).drop_last() == all.take(k as int));
            assert(all.take(k + 1).last() == chars@.subrange(seg.0 as int, seg.1 as int));
        }
        if range_is_current(chars, seg) {
        } else {
            let up = range_is_parent(chars, seg);
            let mut on_real = false;
            if up && stack.len() > 0 {
                let top = stack[stack.len() - 1];
                proof {
                    assert(pieces(chars@, stack@).last() == chars@.subrange(
                        top.0 as int,
                        top.1 as int,
                    ));
                }
                on_real = !range_is_parent(chars, top);
            }
            if on_real {
                proof {
                    assert(pieces(chars@, stack@.drop_last()) == pieces(
                        chars@,
                        stack@,
                    ).drop_last());
                }
                stack.pop();
            } else {
                proof {
                    assert(pieces(chars@, stack@.push(seg)) == pieces(chars@, stack@).push(
                        chars@.subrange(seg.0 as int, seg.1 as int),
                    ));
                }
                stack.push(seg);
            }
        }
        k += 1;
    }
    proof {
        assert(pieces(chars@, segs@).take(segs.len() as int) == pieces(chars@, segs@));
    }
    stack
}

/// Writes the segments `segs` of `text` behind `prefix`, one separator
/// between neighbours.
pub fn render_segments(prefix: String, text: &str, segs: &Vec<(usize, usize)>) -> (r: String)
    requires
        ranges_within(segs@, text@.len()),
    ensures
        r@ == prefix@ + render(pieces(text@, segs@)),
{
    let mut out = prefix;
    let mut k: usize = 0;
    while k < segs.len()
        invariant
            k <= segs.len(),
            ranges_within(segs@, text@.len()),
            out@ == prefix@ + render(pieces(text@, segs@).take(k as int)),
        decreases segs.len() - k,
    {
        let seg = segs[k];
        let ghost all = pieces(text@, segs@);
        proof {
            assert(all.take(k + 1).drop_last() == all.take(k as int));
            assert(all.take(k + 1).last() == text@.subrange(seg.0 as int, seg.1 as int));
            assert(all.take(1)[0] == all[0]);
            reveal_strlit("/");
        }
        if k > 0 {
            out.append("/");
        }
        out.append(text.substring_char(seg.0, seg.1));
        k += 1;
    }
    proof {
        assert(pieces(text@, segs@).take(segs.len() as int) == pieces(text@, segs@));
    }
    out
}

/// The root marker of `chars` as a string.
fn root_prefix(chars: &Vec<char>) -> (r: String)
    ensures
        r@ == root_of(chars@),
{
    proof {
        reveal_strlit("/");
    }
    if chars.len() > 0 && chars[0] == '/' {
        String::from_str("/")
    } else {
        String::new()
    }
}

/// Reduces `path` to its canonical form: `.` segments and repeated
/// separators go, each `..` takes the real segment before it with it, and a
/// `..` with no real segment before it stays.
pub fn normpath(path: &str) -> (r: String)
    ensures
        r@ == normalize(path@),
{
    let chars = chars_of(path);
    let segs = split_segments(&chars);
    let kept = collapse_segments(&chars, &segs);
    render_segments(root_prefix(&chars), path, &kept)
}

/// `rel` as seen from the directory `base`.
pub fn join_path(base: &str, rel: &str) -> (r: String)
    ensures
        r@ == join(base@, rel@),
{
    let base_len = base.unicode_len();
    let rel_absolute = rel.unicode_len() > 0 && rel.get_char(0) == '/';
    if rel_absolute || base_len == 0 {
        String::from_str(rel)
    } else {
        let mut out = String::from_str(base);
        if base.get_char(base_len - 1) != '/' {
            proof {
                reveal_strlit("/");
            }
            out.append("/");
        }
        out.append(rel);
        out
    }
}

/// The directory that holds `path`. A path without a segment has none and
/// is an invalid path.
pub fn parent_path(path: &str) -> (r: Result<String, Error>)
    ensures
        match r {
            Ok(dir) => parent(path@) == Some(dir@),
            Err(e) => parent(path@) is None && e@ == (ErrorView::InvalidPath { path: path@ }),
        },
{
    let chars = chars_of(path);
    let mut segs = split_segments(&chars);
    if segs.len() == 0 {
        Err(Error::InvalidPath { path: String::from_str(path) })
    } else {
        proof {
            assert(pieces(chars@, segs@.drop_last()) == pieces(chars@, segs@).drop_last());
        }
        segs.pop();
        Ok(render_segments(root_prefix(&chars), path, &segs))
    }
}

/// Whether `segment` is a piece of a path: not empty, and without a
/// separator.
pub open spec fn is_segment(segment: Seq<char>) -> bool {
    segment.len() > 0 && !segment.contains('/')
}

/// Whether every entry of `segs` is a segment.
pub open spec fn all_segments(segs: Seq<Seq<char>>) -> bool {
    forall|i: int| 0 <= i < segs.len() ==> is_segment(#[trigger] segs[i])
}

/// Whether `segs` is collapsed: it holds no `.`, and no `..` behind a real
/// segment.
pub open spec fn settled(segs: Seq<Seq<char>>) -> bool {
    &&& forall|i: int| 0 <= i < segs.len() ==> !is_current(#[trigger] segs[i])
    &&& forall|i: int, j: int|
        0 <= i < j < segs.len() && is_parent(#[trigger] segs[j]) ==> is_parent(#[trigger] segs[i])
}

/// What a split has found is segments, and what it is reading holds no
/// separator.
pub proof fn lemma_split_finds_segments(path: Seq<char>)
    ensures
        all_segments(split(path).done),
        !split(path).open.contains('/'),
        all_segments(segments(path)),
    decreases path.len(),
{
    if path.len() > 0 {
        lemma_split_finds_segments(path.drop_last());
        let before = split(path.drop_last());
        if path.last() != '/' {
            let open = before.open.push(path.last());
            assert forall|i: int| 0 <= i < open.len() implies open[i] != '/' by {
                if i < before.open.len() {
                    assert(before.open[i] == open[i]);
                    assert(before.open.contains(open[i]));
                }
            }
        }
    }
}

/// Reading a segment behind a text adds it to what the split is reading.
pub proof fn lemma_split_append_segment(text: Seq<char>, segment: Seq<char>)
    requires
        !segment.contains('/'),
    ensures
        split(text + segment) == (Split {
            done: split(text).done,
            open: split(text).open + segment,
        }),
    decreases segment.len(),
{
    if segment.len() == 0 {
        assert(text + segment == text);
        assert(split(text).open + segment == split(text).open);
    } else {
        let shorter = segment.drop_last();
        assert(segment[segment.len() - 1] == segment.last());
        assert(segment.contains(segment.last()));
        assert forall|i: int| 0 <= i < shorter.len() implies shorter[i] != '/' by {
            assert(segment[i] == shorter[i]);
            assert(segment.contains(shorter[i]));
        }
        lemma_split_append_segment(text, shorter);
        assert((text + segment).drop_last() == text + shorter);
        assert((split(text).open + shorter).push(segment.last()) == split(text).open + segment);
    }
}

/// The segments of a rendered path are the segments that were rendered.
pub proof fn lemma_split_rendered(root: Seq<char>, segs: Seq<Seq<char>>)
    requires
        root == Seq::<char>::empty() || root == seq!['/'],
        all_segments(segs),
    ensures
        segs.len() == 0 ==> split(root + render(segs)) == (Split { done: seq![], open: seq![] }),
        segs.len() > 0 ==> split(root + render(segs)) == (Split {
            done: segs.drop_last(),
            open: segs.last(),
        }),
        segments(root + render(segs)) == segs,
    decreases segs.len(),
{
    let nothing = Split { done: seq![], open: seq![] };
    assert(split(root) == nothing) by {
        if root.len() > 0 {
            assert(root.last() == '/');
            assert(root.drop_last() == Seq::<char>::empty());
            assert(split(root.drop_last()) == nothing);
            assert(split(root).done == close_segment(nothing.done, nothing.open));
        }
    }
    if segs.len() == 0 {
        assert(root + render(segs) == root);
    } else if segs.len() == 1 {
        lemma_split_append_segment(root, segs[0]);
        assert(Seq::<char>::empty() + segs[0] == segs[0]);
        assert(segs.drop_last() == Seq::<Seq<char>>::empty());
        assert(seq![segs[0]] == segs);
        assert(Seq::<Seq<char>>::empty().push(segs[0]) == segs);
    } else {
        let front = segs.drop_last();
        assert forall|i: int| 0 <= i < front.len() implies is_segment(#[trigger] front[i]) by {
            assert(front[i] == segs[i]);
        }
        lemma_split_rendered(root, front);
        let head = root + render(front);
        let cut = head + seq!['/'];
        assert(cut.drop_last() == head);
        assert(front.drop_last().push(front.last()) == front);
        assert(split(cut) == (Split { done: front, open: seq![] }));
        lemma_split_append_segment(cut, segs.last());
        assert(Seq::<char>::empty() + segs.last() == segs.last());
        assert(root + render(segs) == cut + segs.last());
        assert(front.push(segs.last()) == segs);
    }
}

/// A rendered path begins with the first character of its first segment.
pub proof fn lemma_rendered_start(segs: Seq<Seq<char>>)
    requires
        all_segments(segs),
        segs.len() > 0,
    ensures
        render(segs).len() > 0,
        render(segs)[0] == segs[0][0],
    decreases segs.len(),
{
    if segs.len() > 1 {
        let front = segs.drop_last();
        assert forall|i: int| 0 <= i < front.len() implies is_segment(#[trigger] front[i]) by {
            assert(front[i] == segs[i]);
        }
        lemma_rendered_start(front);
        assert(front[0] == segs[0]);
    }
}

/// Collapsing segments leaves segments, and leaves them settled.
pub proof fn lemma_collapse_settles(segs: Seq<Seq<char>>)
    requires
        all_segments(segs),
    ensures
        all_segments(collapse(segs)),
        settled(collapse(segs)),
    decreases segs.len(),
{
    if segs.len() > 0 {
        let front = segs.drop_last();
        assert forall|i: int| 0 <= i < front.len() implies is_segment(#[trigger] front[i]) by {
            assert(front[i] == segs[i]);
        }
        lemma_collapse_settles(front);
        let stack = collapse(front);
        let segment = segs.last();
        let out = collapse_step(stack, segment);
        if is_current(segment) {
        } else if is_parent(segment) && stack.len() > 0 && !is_parent(stack.last()) {
            assert forall|i: int| 0 <= i < out.len() implies is_segment(#[trigger] out[i])
                && !is_current(out[i]) by {
                assert(out[i] == stack[i]);
            }
            assert forall|i: int, j: int|
                0 <= i < j < out.len() && is_parent(#[trigger] out[j]) implies is_parent(
                #[trigger] out[i],
            ) by {
                assert(out[i] == stack[i] && out[j] == stack[j]);
            }
        } else {
            assert forall|i: int| 0 <= i < out.len() implies is_segment(#[trigger] out[i])
                && !is_current(out[i]) by {
                if i < stack.len() {
                    assert(out[i] == stack[i]);
                }
            }
            assert forall|i: int, j: int|
                0 <= i < j < out.len() && is_parent(#[trigger] out[j]) implies is_parent(
                #[trigger] out[i],
            ) by {
                if j < stack.len() {
                    assert(out[i] == stack[i] && out[j] == stack[j]);
                } else {
                    assert(out[i] == stack[i]);
                    if i < stack.len() - 1 {
                        assert(is_parent(stack[stack.len() - 1]));
                    }
                }
            }
        }
    }
}

/// Collapsing what is settled changes nothing.
pub proof fn lemma_collapse_settled(segs: Seq<Seq<char>>)
    requires
        settled(segs),
    ensures
        collapse(segs) == segs,
    decreases segs.len(),
{
    if segs.len() > 0 {
        let front = segs.drop_last();
        assert forall|i: int| 0 <= i < front.len() implies !is_current(#[trigger] front[i]) by {
            assert(front[i] == segs[i]);
        }
        assert forall|i: int, j: int|
            0 <= i < j < front.len() && is_parent(#[trigger] front[j]) implies is_parent(
            #[trigger] front[i],
        ) by {
            assert(front[i] == segs[i] && front[j] == segs[j]);
        }
        lemma_collapse_settled(front);
        assert(!is_current(segs[segs.len() - 1]));
        if is_parent(segs.last()) && front.len() > 0 {
            assert(is_parent(segs[segs.len() - 1]));
            assert(is_parent(segs[front.len() - 1]));
            assert(front.last() == segs[front.len() - 1]);
        }
        assert(front.push(segs.last()) == segs);
    }
}

/// A canonical path is its own canonical form: normalizing twice is
/// normalizing once. The canonical form of a path starts at the root
/// exactly where the path does, and its segments are the collapsed
/// segments of the path.
pub proof fn law_normalize_is_idempotent(path: Seq<char>)
    ensures
        normalize(normalize(path)) == normalize(path),
        is_absolute(normalize(path)) == is_absolute(path),
        segments(normalize(path)) == collapse(segments(path)),
        settled(segments(normalize(path))),
{
    let kept = collapse(segments(path));
    let canonical = normalize(path);
    lemma_split_finds_segments(path);
    lemma_collapse_settles(segments(path));
    lemma_split_rendered(root_of(path), kept);
    lemma_collapse_settled(kept);
    if is_absolute(path) {
        assert(canonical[0] == '/');
    } else {
        assert(canonical == render(kept));
        if kept.len() > 0 {
            lemma_rendered_start(kept);
            assert(kept[0].contains(kept[0][0]));
        }
    }
}

} // verus!
