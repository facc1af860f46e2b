//! The include scanner: finds the include directives of a source text.
//!
//! A directive is written in one of two forms, each given by a pattern. The
//! scanner asks the pattern engine for one match after the other, reads a
//! byte range and a path off each, and keeps the directives in the order of
//! their place in the text.

use vstd::prelude::*;
use vstd::string::*;
use vstd::utf8::*;
use crate::regex::{captures_at, regex_captures};
use crate::text::{cut_ok, slice};

verus! {

/// The line form: `& include "path"` behind an anchor, up to a `;` or the
/// end of the line, with an optional `//` in front.
pub const LINE_PATTERN: &'static str =
    r#"(\n|}|;|^)(\s*)(?://)?\s*&\s*include\s+(?:"|')(.+?)(?:"|')\s*(;|\n)"#;

/// The block form: `/* & include "path" */` behind an anchor.
pub const BLOCK_PATTERN: &'static str =
    r#"(\n|}|;|^)(\s*)/\*\s*&\s*include\s+(?:"|')(.+?)(?:"|')\s*;?\s*\*/()"#;

/// One include directive of a source text: the path as it is written, and
/// the byte range that the directive takes up in the text.
#[derive(Debug, Clone, PartialEq, Eq)]
pub struct Include {
    pub path: String,
    pub start: usize,
    pub end: usize,
}

/// An [`Include`] as a mathematical value.
pub struct IncludeView {
    pub path: Seq<char>,
    pub start: int,
    pub end: int,
}

impl View for Include {
    type V = IncludeView;

    open spec fn view(&self) -> IncludeView {
        IncludeView { path: self.path@, start: self.start as int, end: self.end as int }
    }
}

/// The views of a list of includes.
pub open spec fn include_views(includes: Seq<Include>) -> Seq<IncludeView> {
    Seq::new(includes.len(), |i: int| includes[i]@)
}

/// Whether a match has the five groups of a directive pattern (the match,
/// the anchor, the indent, the path, the terminator), each a range of a text
/// of `len` bytes.
pub open spec fn complete(groups: Seq<Option<(usize, usize)>>, len: nat) -> bool {
    &&& groups.len() >= 5
    &&& forall|i: int|
        0 <= i < 5 ==> (#[trigger] groups[i]) is Some && groups[i].unwrap().0
            <= groups[i].unwrap().1 <= len
}

/// Whether the anchor of a match is a `}` or a `;`: such an anchor takes the
/// indent behind it out of the directive.
pub open spec fn anchor_takes_indent(bytes: Seq<u8>, groups: Seq<Option<(usize, usize)>>) -> bool {
    let anchor = groups[1].unwrap();
    anchor.1 - anchor.0 == 1 && (bytes[anchor.0 as int] == 0x7d || bytes[anchor.0 as int]
        == 0x3b)
}

/// Whether the terminator of a match is a line break: it stays in the text.
pub open spec fn ends_line(bytes: Seq<u8>, groups: Seq<Option<(usize, usize)>>) -> bool {
    let term = groups[4].unwrap();
    term.1 - term.0 == 1 && bytes[term.0 as int] == 0x0a
}

/// Where the directive of a match begins: behind the anchor, and behind the
/// indent too where the anchor takes it.
pub open spec fn directive_start(bytes: Seq<u8>, groups: Seq<Option<(usize, usize)>>) -> int {
    let whole = groups[0].unwrap();
    let anchor = groups[1].unwrap();
    let indent = groups[2].unwrap();
    whole.0 + (anchor.1 - anchor.0) + if anchor_takes_indent(bytes, groups) {
        indent.1 - indent.0
    } else {
        0
    }
}

/// Where the directive of a match ends: with the match, or before the line
/// break that ends it.
pub open spec fn directive_end(bytes: Seq<u8>, groups: Seq<Option<(usize, usize)>>) -> int {
    groups[0].unwrap().1 - if ends_line(bytes, groups) {
        1int
    } else {
        0int
    }
}

/// The directive that a complete match stands for. There is none where the
/// range is empty or cuts a character, or the path does.
pub open spec fn directive(bytes: Seq<u8>, groups: Seq<Option<(usize, usize)>>) -> Option<
    IncludeView,
> {
    let start = directive_start(bytes, groups);
    let end = directive_end(bytes, groups);
    let path = groups[3].unwrap();
    if start < end && cut_ok(bytes, start, end) && cut_ok(bytes, path.0 as int, path.1 as int) {
        Some(
            IncludeView {
                path: decode_utf8(bytes.subrange(path.0 as int, path.1 as int)),
                start,
                end,
            },
        )
    } else {
        None
    }
}

/// Where the search goes on behind a complete match: at its terminator.
pub open spec fn resume(groups: Seq<Option<(usize, usize)>>) -> int {
    groups[0].unwrap().1 - (groups[4].unwrap().1 - groups[4].unwrap().0)
}

/// The directives that `pattern` finds in `text` from the byte offset `from`
/// on, in the order in which they are found. The search ends where nothing
/// matches any more, where a match is not complete, or where it would not
/// move forward.
pub open spec fn candidates(pattern: Seq<char>, text: Seq<char>, from: int) -> Seq<IncludeView>
    decreases encode_utf8(text).len() - from,
{
    let bytes = encode_utf8(text);
    if from < 0 || from > bytes.len() {
        seq![]
    } else {
        match regex_captures(pattern, text, from) {
            None => seq![],
            Some(groups) => {
                if !complete(groups, bytes.len()) {
                    seq![]
                } else {
                    let found = match directive(bytes, groups) {
                        Some(d) => seq![d],
                        None => seq![],
                    };
                    if from < resume(groups) {
                        found + candidates(pattern, text, resume(groups))
                    } else {
                        found
                    }
                }
            },
        }
    }
}

/// Whether `incs` are directives of a text with the bytes `bytes`, in the
/// order of their place: each a range that is not empty and cuts no
/// character, none reaching into the next.
pub open spec fn well_placed(incs: Seq<IncludeView>, bytes: Seq<u8>) -> bool {
    &&& forall|i: int|
        0 <= i < incs.len() ==> (#[trigger] incs[i]).start < incs[i].end && cut_ok(
            bytes,
            incs[i].start,
            incs[i].end,
        )
    &&& forall|i: int, j: int|
        0 <= i < j < incs.len() ==> (#[trigger] incs[i]).end <= (#[trigger] incs[j]).start
}

/// How many directives at the front of `list` end at or before the start of
/// `d`.
pub open spec fn lead(list: Seq<IncludeView>, d: IncludeView) -> int
    decreases list.len(),
{
    if list.len() == 0 || list[0].end > d.start {
        0
    } else {
        1 + lead(list.drop_first(), d)
    }
}

/// `list` with `d` at its place, or `list` as it is where `d` reaches into a
/// directive that is already there.
pub open spec fn place(list: Seq<IncludeView>, d: IncludeView) -> Seq<IncludeView> {
    let at = lead(list, d);
    if at == list.len() || d.end <= list[at].start {
        list.insert(at, d)
    } else {
        list
    }
}

/// The directives `found`, placed one after the other.
pub open spec fn arrange(found: Seq<IncludeView>) -> Seq<IncludeView>
    decreases found.len(),
{
    if found.len() == 0 {
        seq![]
    } else {
        place(arrange(found.drop_last()), found.last())
    }
}

/// The include directives of `text`: what the line form finds and then what
/// the block form finds, by ascending place, none overlapping another.
pub open spec fn scan(text: Seq<char>) -> Seq<IncludeView> {
    arrange(candidates(LINE_PATTERN@, text, 0) + candidates(BLOCK_PATTERN@, text, 0))
}

/// Whether `d` is a range of `bytes` that is not empty and cuts no character.
pub open spec fn sound(d: IncludeView, bytes: Seq<u8>) -> bool {
    d.start < d.end && cut_ok(bytes, d.start, d.end)
}

/// [`lead`] counts the directives that stand before `d`, and stops at the
/// first that does not.
pub proof fn lemma_lead(list: Seq<IncludeView>, d: IncludeView)
    ensures
        0 <= lead(list, d) <= list.len(),
        forall|t: int| 0 <= t < lead(list, d) ==> (#[trigger] list[t]).end <= d.start,
        lead(list, d) < list.len() ==> list[lead(list, d)].end > d.start,
    decreases list.len(),
{
    if list.len() == 0 || list[0].end > d.start {
    } else {
        let rest = list.drop_first();
        lemma_lead(rest, d);
        assert forall|t: int| 0 <= t < lead(list, d) implies (#[trigger] list[t]).end
            <= d.start by {
            if t > 0 {
                assert(list[t] == rest[t - 1]);
            }
        }
        if lead(list, d) < list.len() {
            assert(list[lead(list, d)] == rest[lead(rest, d)]);
        }
    }
}

/// A list whose first `front` directives end at or before the start of `d`
/// has a lead of `front` and what the rest of the list adds to it.
pub proof fn lemma_lead_skip(list: Seq<IncludeView>, d: IncludeView, front: int)
    requires
        0 <= front <= list.len(),
        forall|t: int| 0 <= t < front ==> (#[trigger] list[t]).end <= d.start,
    ensures
        lead(list, d) == front + lead(list.skip(front), d),
    decreases front,
{
    if front == 0 {
        assert(list.skip(0) == list);
    } else {
        let rest = list.drop_first();
        assert(list[0].end <= d.start);
        assert forall|t: int| 0 <= t < front - 1 implies (#[trigger] rest[t]).end <= d.start by {
            assert(rest[t] == list[t + 1]);
        }
        lemma_lead_skip(rest, d, front - 1);
        assert(rest.skip(front - 1) == list.skip(front));
    }
}

/// Placing a sound directive in a well-placed list leaves the list well
/// placed.
pub proof fn lemma_place_well_placed(list: Seq<IncludeView>, d: IncludeView, bytes: Seq<u8>)
    requires
        well_placed(list, bytes),
        sound(d, bytes),
    ensures
        well_placed(place(list, d), bytes),
{
    lemma_lead(list, d);
    let at = lead(list, d);
    if at == list.len() || d.end <= list[at].start {
        let out = list.insert(at, d);
        assert forall|i: int| 0 <= i < out.len() implies (#[trigger] out[i]).start < out[i].end
            && cut_ok(bytes, out[i].start, out[i].end) by {
            if i < at {
                assert(out[i] == list[i]);
            } else if i > at {
                assert(out[i] == list[i - 1]);
            }
        }
        assert forall|i: int, j: int| 0 <= i < j < out.len() implies (#[trigger] out[i]).end <= (
        #[trigger] out[j]).start by {
            if j < at {
                assert(out[i] == list[i] && out[j] == list[j]);
            } else if j == at {
                assert(out[i] == list[i]);
            } else if i == at {
                assert(out[j] == list[j - 1]);
                if j - 1 > at {
                    assert(list[at].end <= list[j - 1].start);
                }
            } else if i < at {
                assert(out[i] == list[i] && out[j] == list[j - 1]);
            } else {
                assert(out[i] == list[i - 1] && out[j] == list[j - 1]);
            }
        }
    }
}

/// Sound directives, arranged, are well placed.
pub proof fn lemma_arrange_well_placed(found: Seq<IncludeView>, bytes: Seq<u8>)
    requires
        forall|i: int| 0 <= i < found.len() ==> sound(#[trigger] found[i], bytes),
    ensures
        well_placed(arrange(found), bytes),
    decreases found.len(),
{
    if found.len() > 0 {
        let before = found.drop_last();
        assert forall|i: int| 0 <= i < before.len() implies sound(#[trigger] before[i], bytes) by {
            assert(before[i] == found[i]);
        }
        lemma_arrange_well_placed(before, bytes);
        lemma_place_well_placed(arrange(before), found.last(), bytes);
    }
}

/// Every directive that a pattern finds in a text is sound for that text.
pub proof fn lemma_candidates_sound(pattern: Seq<char>, text: Seq<char>, from: int)
    ensures
        forall|i: int|
            0 <= i < candidates(pattern, text, from).len() ==> sound(
                #[trigger] candidates(pattern, text, from)[i],
                encode_utf8(text),
            ),
    decreases encode_utf8(text).len() - from,
{
    let bytes = encode_utf8(text);
    if from < 0 || from > bytes.len() {
    } else {
        match regex_captures(pattern, text, from) {
            None => {},
            Some(groups) => {
                if complete(groups, bytes.len()) {
                    let found = match directive(bytes, groups) {
                        Some(d) => seq![d],
                        None => seq![],
                    };
                    let all = candidates(pattern, text, from);
                    if from < resume(groups) {
                        let rest = candidates(pattern, text, resume(groups));
                        lemma_candidates_sound(pattern, text, resume(groups));
                        assert forall|i: int| 0 <= i < all.len() implies sound(
                            #[trigger] all[i],
                            bytes,
                        ) by {
                            if i >= found.len() {
                                assert(all[i] == rest[i - found.len()]);
                            } else {
                                assert(all[i] == found[i]);
                            }
                        }
                    } else {
                        assert(all == found);
                    }
                }
            },
        }
    }
}

/// The includes of a text are well placed in it.
pub proof fn lemma_scan_well_placed(text: Seq<char>)
    ensures
        well_placed(scan(text), encode_utf8(text)),
{
    lemma_candidates_sound(LINE_PATTERN@, text, 0);
    lemma_candidates_sound(BLOCK_PATTERN@, text, 0);
    lemma_arrange_well_placed(
        candidates(LINE_PATTERN@, text, 0) + candidates(BLOCK_PATTERN@, text, 0),
        encode_utf8(text),
    );
}

/// Whether `groups` is a complete match in a text of `len` bytes.
pub fn is_complete(groups: &Vec<Option<(usize, usize)>>, len: usize) -> (r: bool)
    ensures
        r == complete(groups@, len as nat),
{
    if groups.len() < 5 {
        return false;
    }
    let mut i: usize = 0;
    while i < 5
        invariant
            i <= 5,
            groups.len() >= 5,
            forall|k: int|
                0 <= k < i ==> (#[trigger] groups@[k]) is Some && groups@[k].unwrap().0
                    <= groups@[k].unwrap().1 <= len,
        decreases 5 - i,
    {
        match groups[i] {
            Some(span) => {
                if span.0 > span.1 || span.1 > len {
                    return false;
                }
            },
            None => {
                return false;
            },
        }
        i += 1;
    }
    true
}

/// The span of group `i` of a complete match.
fn span_of(groups: &Vec<Option<(usize, usize)>>, i: usize, Ghost(len): Ghost<nat>) -> (r: (
    usize,
    usize,
))
    requires
        complete(groups@, len),
        i < 5,
    ensures
        r == groups@[i as int].unwrap(),
        r.0 <= r.1 <= len,
{
    match groups[i] {
        Some(span) => span,
        None => (0, 0),
    }
}

/// Reads the directive off a complete match in `text`.
pub fn read_directive(text: &str, groups: &Vec<Option<(usize, usize)>>) -> (r: Option<Include>)
    requires
        complete(groups@, text.spec_bytes().len()),
    ensures
        match r {
            Some(d) => directive(text.spec_bytes(), groups@) == Some(d@),
            None => directive(text.spec_bytes(), groups@) is None,
        },
{
    let bytes = text.as_bytes();
    let ghost len = text.spec_bytes().len();
    let whole = span_of(groups, 0, Ghost(len));
    let anchor = span_of(groups, 1, Ghost(len));
    let indent = span_of(groups, 2, Ghost(len));
    let path = span_of(groups, 3, Ghost(len));
    let term = span_of(groups, 4, Ghost(len));
    let takes_indent = anchor.1 - anchor.0 == 1 && (bytes[anchor.0] == 0x7d || bytes[anchor.0]
        == 0x3b);
    let ends_line = term.1 - term.0 == 1 && bytes[term.0] == 0x0a;
    let skipped = if takes_indent {
        indent.1 - indent.0
    } else {
        0
    };
    let cut: usize = if ends_line {
        1
    } else {
        0
    };
    // a sum that does not fit `usize` lies behind the end of the text
    let start = match whole.0.checked_add(anchor.1 - anchor.0) {
        Some(s) => match s.checked_add(skipped) {
            Some(s) => s,
            None => {
                return None;
            },
        },
        None => {
            return None;
        },
    };
    if whole.1 < cut {
        return None;
    }
    let end = whole.1 - cut;
    if !(start < end) {
        return None;
    }
    if !text.is_char_boundary(start) || !text.is_char_boundary(end) {
        return None;
    }
    if !text.is_char_boundary(path.0) || !text.is_char_boundary(path.1) {
        return None;
    }
    let written = slice(text, path.0, path.1);
    Some(Include { path: String::from_str(written), start, end })
}

/// Puts `d` at its place in `list`, unless it reaches into a directive that
/// is already there.
pub fn insert_include(list: &mut Vec<Include>, d: Include)
    ensures
        include_views(final(list)@) == place(include_views(old(list)@), d@),
{
    let ghost views = include_views(list@);
    let n = list.len();
    let mut at: usize = 0;
    while at < n && list[at].end <= d.start
        invariant
            n == list.len(),
            at <= n,
            *list == *old(list),
            views == include_views(list@),
            forall|t: int| 0 <= t < at ==> (#[trigger] views[t]).end <= d@.start,
        decreases n - at,
    {
        at += 1;
    }
    proof {
        lemma_lead_skip(views, d@, at as int);
        if at < n {
            assert(views.skip(at as int)[0] == views[at as int]);
        }
        assert(lead(views, d@) == at);
    }
    if at == n || d.end <= list[at].start {
        let ghost dv = d@;
        list.insert(at, d);
        proof {
            assert(include_views(list@) =~= views.insert(at as int, dv));
        }
    }
}

/// Places in `list` the directives that `pattern` finds in `text`.
fn scan_with(
    pattern: &str,
    text: &str,
    list: &mut Vec<Include>,
    Ghost(earlier): Ghost<Seq<IncludeView>>,
)
    requires
        include_views(old(list)@) == arrange(earlier),
    ensures
        include_views(final(list)@) == arrange(earlier + candidates(pattern@, text@, 0)),
{
    let len = text.as_bytes().len();
    let ghost all = candidates(pattern@, text@, 0);
    let ghost mut found: Seq<IncludeView> = seq![];
    let mut from: usize = 0;
    let mut searching = true;
    proof {
        assert(earlier + found == earlier);
        assert(found + all == all);
    }
    while searching
        invariant
            len == text.spec_bytes().len(),
            from <= len,
            all == candidates(pattern@, text@, 0),
            searching ==> all == found + candidates(pattern@, text@, from as int),
            !searching ==> all == found,
            include_views(list@) == arrange(earlier + found),
        decreases len - from, if searching { 1int } else { 0int },
    {
        match captures_at(pattern, text, from) {
            None => {
                searching = false;
                proof {
                    assert(found + Seq::<IncludeView>::empty() == found);
                }
            },
            Some(groups) => {
                if !is_complete(&groups, len) {
                    searching = false;
                    proof {
                        assert(found + Seq::<IncludeView>::empty() == found);
                    }
                } else {
                    let ghost rest = candidates(pattern@, text@, from as int);
                    let ghost before = found;
                    match read_directive(text, &groups) {
                        Some(d) => {
                            proof {
                                found = found.push(d@);
                                assert((earlier + found).drop_last() == earlier + before);
                            }
                            insert_include(list, d);
                        },
                        None => {},
                    }
                    let whole = span_of(&groups, 0, Ghost(len as nat));
                    let term = span_of(&groups, 4, Ghost(len as nat));
                    if term.1 - term.0 <= whole.1 && from < whole.1 - (term.1 - term.0) {
                        proof {
                            let next = candidates(pattern@, text@, resume(groups@));
                            assert(before + rest == found + next);
                        }
                        from = whole.1 - (term.1 - term.0);
                    } else {
                        proof {
                            assert(before + rest == found);
                        }
                        searching = false;
                    }
                }
            },
        }
    }
}

/// Finds the include directives of `text`.
pub fn scan_includes(text: &str) -> (r: Vec<Include>)
    ensures
        include_views(r@) == scan(text@),
        well_placed(include_views(r@), text.spec_bytes()),
{
    let mut list: Vec<Include> = Vec::new();
    proof {
        assert(include_views(list@) == arrange(Seq::<IncludeView>::empty()));
    }
    scan_with(LINE_PATTERN, text, &mut list, Ghost(Seq::empty()));
    let ghost line = candidates(LINE_PATTERN@, text@, 0);
    proof {
        assert(Seq::<IncludeView>::empty() + line == line);
    }
    scan_with(BLOCK_PATTERN, text, &mut list, Ghost(line));
    proof {
        lemma_scan_well_placed(text@);
    }
    list
}

} // verus!
