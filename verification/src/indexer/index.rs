//! Load a per-book `<stem>.index` sidecar: the complete printed-page -> titles
//! index, transcribed by reading the rendered TOC pages. One
//! `<printed-page> <title>` per line; blank lines and `#` comments ignored.
//!
//! A printed page may hold more than one tune (some books print two short
//! charts on a single page), so several lines can share the same page number;
//! all are kept, in the order they appear.

use std::collections::BTreeMap;

use vstd::prelude::*;

use crate::keys::{i32_keys_ordered, lemma_i32_keys_ordered};
use crate::text::{
    chars_of, is_whitespace, is_ws, lines, parse_i32, parse_i32_spec, slice_range, split_lines,
    string_of, trim, trim_chars,
};

verus! {

broadcast use vstd::std_specs::btree::group_btree_axioms;

// ---------------------------------------------------------------------------
// One sidecar line
// ---------------------------------------------------------------------------

/// Blank lines and `#` comments carry no entry.
pub open spec fn skipped(raw: Seq<char>) -> bool {
    trim(raw).len() == 0 || trim(raw)[0] == '#'
}

/// Index of the first whitespace character at or after `i`, or the length.
pub open spec fn first_ws_from(l: Seq<char>, i: int) -> int
    decreases l.len() - i,
{
    if i >= l.len() {
        l.len() as int
    } else if is_ws(l[i]) {
        i
    } else {
        first_ws_from(l, i + 1)
    }
}

/// The page token: the trimmed line up to its first whitespace.
pub open spec fn page_token(raw: Seq<char>) -> Seq<char> {
    let l = trim(raw);
    l.take(first_ws_from(l, 0))
}

/// The title: what follows that whitespace, trimmed (empty when there is none).
pub open spec fn title_of(raw: Seq<char>) -> Seq<char> {
    let l = trim(raw);
    let p = first_ws_from(l, 0);
    if p < l.len() {
        trim(l.skip(p + 1))
    } else {
        seq![]
    }
}

pub open spec fn line_page(raw: Seq<char>) -> Option<i32> {
    parse_i32_spec(page_token(raw))
}

/// A line that is skipped, or has a valid page and a non-empty title.
pub open spec fn line_ok(raw: Seq<char>) -> bool {
    skipped(raw) || (line_page(raw) is Some && title_of(raw).len() > 0)
}

/// The first line (from `i` on) that is not well-formed, or the line count.
pub open spec fn first_bad_from(ls: Seq<Seq<char>>, i: int) -> int
    decreases ls.len() - i,
{
    if i >= ls.len() {
        ls.len() as int
    } else if !line_ok(ls[i]) {
        i
    } else {
        first_bad_from(ls, i + 1)
    }
}

/// What a sidecar line holds.
pub enum LineClass {
    Skip,
    Entry(i32, Vec<char>),
    BadPage(Vec<char>),
    MissingTitle(i32),
}

pub open spec fn classified(raw: Seq<char>, c: LineClass) -> bool {
    match c {
        LineClass::Skip => skipped(raw),
        LineClass::Entry(p, t) => !skipped(raw) && line_page(raw) == Some(p) && t@ == title_of(raw)
            && t@.len() > 0,
        LineClass::BadPage(tok) => !skipped(raw) && line_page(raw) is None && tok@ == page_token(
            raw,
        ),
        LineClass::MissingTitle(p) => !skipped(raw) && line_page(raw) == Some(p) && title_of(
            raw,
        ).len() == 0,
    }
}

/// Split one sidecar line into page and title.
pub fn classify_line(raw: &[char]) -> (c: LineClass)
    ensures
        classified(raw@, c),
{
    let l = trim_chars(raw);
    if l.len() == 0 || l[0] == '#' {
        return LineClass::Skip;
    }
    let mut p: usize = 0;
    while p < l.len() && !is_whitespace(l[p])
        invariant
            p <= l@.len(),
            first_ws_from(l@, 0) == first_ws_from(l@, p as int),
        decreases l@.len() - p,
    {
        p = p + 1;
    }
    let tok = slice_range(l.as_slice(), 0, p);
    let title = if p < l.len() {
        let rest = slice_range(l.as_slice(), p + 1, l.len());
        assert(rest@ =~= l@.skip(p + 1));
        trim_chars(rest.as_slice())
    } else {
        Vec::new()
    };
    assert(title@ =~= title_of(raw@));
    match parse_i32(tok.as_slice()) {
        None => LineClass::BadPage(tok),
        Some(page) => {
            if title.len() == 0 {
                LineClass::MissingTitle(page)
            } else {
                LineClass::Entry(page, title)
            }
        },
    }
}

/// Why a sidecar could not be read: the 1-based line number and what was
/// wrong on it.
#[derive(Debug)]
pub enum SidecarError {
    /// The page token is not an integer.
    BadPage { line: usize, token: String },
    /// A page with no title after it.
    MissingTitle { line: usize, page: i32 },
}

/// `e` reports the first malformed line of `ls`.
pub open spec fn reports_first_bad(ls: Seq<Seq<char>>, e: SidecarError) -> bool {
    let b = first_bad_from(ls, 0);
    &&& b < ls.len()
    &&& match e {
        SidecarError::BadPage { line, token } => line == b + 1 && line_page(ls[b]) is None
            && token@ == page_token(ls[b]),
        SidecarError::MissingTitle { line, page } => line == b + 1 && line_page(ls[b]) == Some(
            page,
        ) && title_of(ls[b]).len() == 0,
    }
}

// ---------------------------------------------------------------------------
// The index sidecar
// ---------------------------------------------------------------------------

/// Printed page -> titles on that page, in sidecar order.
pub open spec fn index_map(ls: Seq<Seq<char>>) -> Map<i32, Seq<Seq<char>>>
    decreases ls.len(),
{
    if ls.len() == 0 {
        Map::empty()
    } else {
        let m = index_map(ls.drop_last());
        let l = ls.last();
        if skipped(l) {
            m
        } else {
            let p = line_page(l)->0;
            let old = if m.contains_key(p) {
                m[p]
            } else {
                seq![]
            };
            m.insert(p, old.push(title_of(l)))
        }
    }
}

pub open spec fn titles_view(v: Vec<String>) -> Seq<Seq<char>> {
    v@.map_values(|s: String| s@)
}

/// `m` holds exactly the pages of `spec`, each with the titles `spec` gives.
pub open spec fn index_matches(m: Map<i32, Vec<String>>, spec: Map<i32, Seq<Seq<char>>>) -> bool {
    &&& m.dom() == spec.dom()
    &&& forall|p: i32| #[trigger] m.contains_key(p) ==> titles_view(m[p]) == spec[p]
}

pub proof fn lemma_first_bad_step(ls: Seq<Seq<char>>, i: int)
    requires
        0 <= i < ls.len(),
        forall|k: int| 0 <= k < i ==> line_ok(#[trigger] ls[k]),
    ensures
        first_bad_from(ls, 0) == first_bad_from(ls, i),
    decreases i,
{
    if i > 0 {
        lemma_first_bad_step(ls, i - 1);
        assert(line_ok(ls[i - 1]));
    }
}

pub proof fn lemma_first_bad_none(ls: Seq<Seq<char>>, i: int)
    requires
        0 <= i <= ls.len(),
        forall|k: int| i <= k < ls.len() ==> line_ok(#[trigger] ls[k]),
    ensures
        first_bad_from(ls, i) == ls.len(),
    decreases ls.len() - i,
{
    if i < ls.len() {
        assert(line_ok(ls[i]));
        lemma_first_bad_none(ls, i + 1);
    }
}

/// Parse sidecar text into printed page -> titles. The first malformed line
/// (a page token that is no integer, or a page without a title) is reported.
pub fn parse(text: &str) -> (r: Result<BTreeMap<i32, Vec<String>>, SidecarError>)
    ensures
        match r {
            Ok(m) => first_bad_from(lines(text@), 0) == lines(text@).len() && index_matches(
                m@,
                index_map(lines(text@)),
            ),
            Err(e) => reports_first_bad(lines(text@), e),
        },
{
    proof {
        lemma_i32_keys_ordered();
    }
    let chars = chars_of(text);
    let ls = split_lines(chars.as_slice());
    let ghost lsv = lines(text@);
    let mut map: BTreeMap<i32, Vec<String>> = BTreeMap::new();
    let mut i: usize = 0;
    while i < ls.len()
        invariant
            i <= ls@.len(),
            ls@.len() == lsv.len(),
            lsv == lines(text@),
            forall|k: int| 0 <= k < ls@.len() ==> (#[trigger] ls@[k])@ == lsv[k],
            forall|k: int| 0 <= k < i ==> line_ok(#[trigger] lsv[k]),
            index_matches(map@, index_map(lsv.take(i as int))),
            i32_keys_ordered(),
        decreases ls@.len() - i,
    {
        let ghost before = index_map(lsv.take(i as int));
        proof {
            assert(lsv.take(i + 1).drop_last() =~= lsv.take(i as int));
            assert(lsv.take(i + 1).last() == lsv[i as int]);
        }
        match classify_line(ls[i].as_slice()) {
            LineClass::Skip => {},
            LineClass::Entry(page, title) => {
                let t = string_of(title.as_slice());
                let ghost m0 = map@;
                let mut v = match map.remove(&page) {
                    Some(v) => v,
                    None => Vec::new(),
                };
                let ghost old_titles = if before.contains_key(page) {
                    before[page]
                } else {
                    seq![]
                };
                assert(titles_view(v) == old_titles);
                v.push(t);
                assert(titles_view(v) =~= old_titles.push(title@));
                let ghost vv = v;
                map.insert(page, v);
                proof {
                    let after = before.insert(page, old_titles.push(title@));
                    assert(map@ == m0.remove(page).insert(page, vv));
                    assert(map@.dom() =~= after.dom());
                    assert forall|q: i32| #[trigger] map@.contains_key(q) implies titles_view(map@[q])
                        == after[q] by {
                        if q != page {
                            assert(m0.contains_key(q));
                        }
                    }
                }
            },
            LineClass::BadPage(tok) => {
                proof {
                    lemma_first_bad_step(lsv, i as int);
                }
                return Err(SidecarError::BadPage { line: i + 1, token: string_of(tok.as_slice()) });
            },
            LineClass::MissingTitle(page) => {
                proof {
                    lemma_first_bad_step(lsv, i as int);
                }
                return Err(SidecarError::MissingTitle { line: i + 1, page });
            },
        }
        i = i + 1;
    }
    proof {
        lemma_first_bad_none(lsv, 0);
        assert(lsv.take(i as int) =~= lsv);
    }
    Ok(map)
}

} // verus!
