//! Optional per-book title corrections, applied after OCR/parse.
//!
//! A sidecar `<stem>.corrections` next to the PDF fixes titles by *printed*
//! page number, which is stable across OCR changes. The indexer overrides the
//! matching entry's title, or adds an entry if OCR dropped that page entirely.
//!
//! Format: one `<printed-page> <title>` per line (page, then whitespace, then
//! the title, which may contain spaces). Blank lines and lines starting with
//! `#` are ignored.

use std::collections::{BTreeMap, BTreeSet};

use vstd::prelude::*;
use vstd::std_specs::iter::IteratorSpec;

use crate::indexer::index::{
    classify_line, first_bad_from, lemma_first_bad_none, lemma_first_bad_step, line_page,
    reports_first_bad, skipped, title_of, LineClass, SidecarError,
};
use crate::indexer::resolve::resolvable;
use crate::keys::{i32_keys_ordered, lemma_i32_keys_ordered, lemma_increasing_i32, lemma_key_listing_unique};
use crate::text::{
    append_chars, chars_of, debug_quoted, decimal, decimal_chars, lines, split_lines, str_debug,
    string_of,
};

verus! {

broadcast use vstd::std_specs::btree::group_btree_axioms;

/// Printed page number -> corrected title.
pub type Corrections = BTreeMap<i32, String>;

// ---------------------------------------------------------------------------
// Parsing
// ---------------------------------------------------------------------------

/// Printed page -> title; a later line for the same page wins.
pub open spec fn corrections_map(ls: Seq<Seq<char>>) -> Map<i32, Seq<char>>
    decreases ls.len(),
{
    if ls.len() == 0 {
        Map::empty()
    } else {
        let m = corrections_map(ls.drop_last());
        let l = ls.last();
        if skipped(l) {
            m
        } else {
            m.insert(line_page(l)->0, title_of(l))
        }
    }
}

/// `m` holds exactly the pages of `spec`, each with the title `spec` gives.
pub open spec fn corrections_match(m: Map<i32, String>, spec: Map<i32, Seq<char>>) -> bool {
    &&& m.dom() == spec.dom()
    &&& forall|p: i32| #[trigger] m.contains_key(p) ==> m[p]@ == spec[p]
}

/// Parse the sidecar text into printed page -> title. The first malformed
/// line (a page token that is no integer, or a page without a title) is
/// reported.
pub fn parse(text: &str) -> (r: Result<Corrections, SidecarError>)
    ensures
        match r {
            Ok(m) => first_bad_from(lines(text@), 0) == lines(text@).len() && corrections_match(
                m@,
                corrections_map(lines(text@)),
            ),
            Err(e) => reports_first_bad(lines(text@), e),
        },
{
    proof {
        lemma_i32_keys_ordered();
    }
    let chars = chars_of(text);
    let ls = split_lines(chars.as_slice());
    let ghost lsv = lines(text@);
    let mut map: BTreeMap<i32, String> = BTreeMap::new();
    let mut i: usize = 0;
    while i < ls.len()
        invariant
            i <= ls@.len(),
            ls@.len() == lsv.len(),
            lsv == lines(text@),
            forall|k: int| 0 <= k < ls@.len() ==> (#[trigger] ls@[k])@ == lsv[k],
            forall|k: int| 0 <= k < i ==> crate::indexer::index::line_ok(#[trigger] lsv[k]),
            corrections_match(map@, corrections_map(lsv.take(i as int))),
            i32_keys_ordered(),
        decreases ls@.len() - i,
    {
        let ghost before = corrections_map(lsv.take(i as int));
        proof {
            assert(lsv.take(i + 1).drop_last() =~= lsv.take(i as int));
            assert(lsv.take(i + 1).last() == lsv[i as int]);
        }
        match classify_line(ls[i].as_slice()) {
            LineClass::Skip => {},
            LineClass::Entry(page, title) => {
                let t = string_of(title.as_slice());
                let ghost m0 = map@;
                let ghost tt = t;
                map.insert(page, t);
                proof {
                    let after = before.insert(page, title@);
                    assert(map@ == m0.insert(page, tt));
                    assert(map@.dom() =~= after.dom());
                }
            },
            LineClass::BadPage(tok) => {
                proof {
                    lemma_first_bad_step(lsv, i as int);
                }
                return Err(SidecarError::BadPage { line: i + 1, token: string_of(tok.as_slice()) });
            },
            LineClass::MissingTitle(page) => {
                proof {
                    lemma_first_bad_step(lsv, i as int);
                }
                return Err(SidecarError::MissingTitle { line: i + 1, page });
            },
        }
        i = i + 1;
    }
    proof {
        lemma_first_bad_none(lsv, 0);
        assert(lsv.take(i as int) =~= lsv);
    }
    Ok(map)
}

// ---------------------------------------------------------------------------
// Warnings
// ---------------------------------------------------------------------------

/// 0-based scan page of a printed page: `printed + offset - 1`.
pub open spec fn scan_page(printed: i32, offset: i32) -> int {
    printed + offset - 1
}

/// Warning for a correction that matched no OCR'd entry and was added.
pub open spec fn added_warning(printed: i32, title: Seq<char>) -> Seq<char> {
    "correction for p."@ + decimal(printed as int) + " ("@ + debug_quoted(title)
        + ") matched no OCR'd entry \u{2014} added as a new row (typo in the page number?)"@
}

/// Warning for a correction whose page resolves outside the PDF.
pub open spec fn outside_warning(printed: i32, title: Seq<char>, scan: int, n_pages: i32) -> Seq<
    char,
> {
    "correction for p."@ + decimal(printed as int) + " ("@ + debug_quoted(title)
        + ") maps to scan page "@ + decimal(scan + 1) + " \u{2014} outside the PDF's 1..="@
        + decimal(n_pages as int) + "; clamped (check the page number or --offset)"@
}

/// The warnings for corrections listed in page order: none for a page that
/// overrides an OCR'd entry; "added" when its scan page lies in
/// `0..n_pages`; "outside" otherwise.
pub open spec fn warnings_spec(
    entries: Seq<(i32, Seq<char>)>,
    ocr: Set<i32>,
    offset: i32,
    n_pages: i32,
) -> Seq<Seq<char>>
    decreases entries.len(),
{
    if entries.len() == 0 {
        seq![]
    } else {
        let rest = warnings_spec(entries.drop_last(), ocr, offset, n_pages);
        let (p, t) = entries.last();
        let scan = scan_page(p, offset);
        if ocr.contains(p) {
            rest
        } else if 0 <= scan < n_pages {
            rest.push(added_warning(p, t))
        } else {
            rest.push(outside_warning(p, t, scan, n_pages))
        }
    }
}

/// `entries` lists the map's pages in increasing order with their titles.
pub open spec fn in_page_order(entries: Seq<(i32, Seq<char>)>, m: Map<i32, String>) -> bool {
    &&& forall|i: int, j: int| 0 <= i < j < entries.len() ==> #[trigger] entries[i].0 < #[trigger] entries[j].0
    &&& forall|i: int| 0 <= i < entries.len() ==> m.contains_key(#[trigger] entries[i].0) && m[entries[i].0]@ == entries[i].1
    &&& forall|p: i32| #[trigger] m.contains_key(p) ==> exists|i: int| 0 <= i < entries.len() && #[trigger] entries[i].0 == p
}

/// A map has only one listing in page order, so the warnings are determined
/// by their inputs.
pub proof fn law_page_order_unique(m: Map<i32, String>, e1: Seq<(i32, Seq<char>)>, e2: Seq<(i32, Seq<char>)>)
    requires
        in_page_order(e1, m),
        in_page_order(e2, m),
    ensures
        e1 == e2,
{
    assert forall|x: (i32, Seq<char>)| e1.contains(x) <==> e2.contains(x) by {
        if e1.contains(x) {
            let i = choose|i: int| 0 <= i < e1.len() && e1[i] == x;
            assert(m.contains_key(e1[i].0));
            let j = choose|j: int| 0 <= j < e2.len() && #[trigger] e2[j].0 == x.0;
            assert(e2[j] == x);
        }
        if e2.contains(x) {
            let i = choose|i: int| 0 <= i < e2.len() && e2[i] == x;
            assert(m.contains_key(e2[i].0));
            let j = choose|j: int| 0 <= j < e1.len() && #[trigger] e1[j].0 == x.0;
            assert(e1[j] == x);
        }
    }
    lemma_key_listing_unique(e1, e2);
}

pub open spec fn string_seq_views(v: Seq<String>) -> Seq<Seq<char>> {
    v.map_values(|s: String| s@)
}

fn push_literal(out: &mut Vec<char>, lit: &str)
    ensures
        final(out)@ == old(out)@ + lit@,
{
    let l = chars_of(lit);
    append_chars(out, l.as_slice());
}

fn added_text(printed: i32, title: &String) -> (r: String)
    ensures
        r@ == added_warning(printed, title@),
{
    let mut out: Vec<char> = Vec::new();
    push_literal(&mut out, "correction for p.");
    let d = decimal_chars(printed as i64);
    append_chars(&mut out, d.as_slice());
    push_literal(&mut out, " (");
    let q = str_debug(title.as_str());
    let qc = chars_of(q.as_str());
    append_chars(&mut out, qc.as_slice());
    push_literal(
        &mut out,
        ") matched no OCR'd entry \u{2014} added as a new row (typo in the page number?)",
    );
    assert(out@ =~= added_warning(printed, title@));
    string_of(out.as_slice())
}

fn outside_text(printed: i32, title: &String, scan: i64, n_pages: i32) -> (r: String)
    requires
        scan < i64::MAX,
    ensures
        r@ == outside_warning(printed, title@, scan as int, n_pages),
{
    let mut out: Vec<char> = Vec::new();
    push_literal(&mut out, "correction for p.");
    let d = decimal_chars(printed as i64);
    append_chars(&mut out, d.as_slice());
    push_literal(&mut out, " (");
    let q = str_debug(title.as_str());
    let qc = chars_of(q.as_str());
    append_chars(&mut out, qc.as_slice());
    push_literal(&mut out, ") maps to scan page ");
    let s = decimal_chars(scan + 1);
    append_chars(&mut out, s.as_slice());
    push_literal(&mut out, " \u{2014} outside the PDF's 1..=");
    let np = decimal_chars(n_pages as i64);
    append_chars(&mut out, np.as_slice());
    push_literal(&mut out, "; clamped (check the page number or --offset)");
    assert(out@ =~= outside_warning(printed, title@, scan as int, n_pages));
    string_of(out.as_slice())
}

/// User-facing warnings for corrections that don't cleanly override an OCR'd
/// entry, in page order: those that matched no entry (added as a new row) and
/// those whose page resolves outside the PDF. `ocr_pages` is the set of OCR'd
/// printed pages; a printed page resolves to scan page
/// `printed + offset - 1`, which must land in `0..n_pages` (and must not
/// overflow, for the pages that get a warning).
pub fn warnings(
    corrections: &Corrections,
    ocr_pages: &BTreeSet<i32>,
    offset: i32,
    n_pages: i32,
) -> (out: Vec<String>)
    requires
        forall|p: i32|
            #[trigger] corrections@.contains_key(p) && !ocr_pages@.contains(p) ==> resolvable(p, offset),
    ensures
        exists|entries: Seq<(i32, Seq<char>)>|
            in_page_order(entries, corrections@) && string_seq_views(out@) == warnings_spec(
                entries,
                ocr_pages@,
                offset,
                n_pages,
            ),
{
    proof {
        lemma_i32_keys_ordered();
    }
    let mut out: Vec<String> = Vec::new();
    let iter = corrections.iter();
    let ghost all = iter.remaining();
    let ghost entries = all.map_values(|kv: (&i32, &String)| (*kv.0, kv.1@));
    proof {
        lemma_increasing_i32(all.map_values(|kv: (&i32, &String)| *kv.0));
    }
    for kv in it: iter
        invariant
            i32_keys_ordered(),
            it.seq() == all,
            entries == all.map_values(|kv: (&i32, &String)| (*kv.0, kv.1@)),
            string_seq_views(out@) == warnings_spec(
                entries.take(it.index() as int),
                ocr_pages@,
                offset,
                n_pages,
            ),
    {
        let (printed, title) = kv;
        let ghost idx = it.index();
        assert(entries.take(idx + 1).drop_last() =~= entries.take(idx as int));
        assert(entries.take(idx + 1).last() == (*printed, title@));
        if ocr_pages.contains(printed) {
        } else {
            let scan: i64 = *printed as i64 + offset as i64 - 1;
            if 0 <= scan && scan < n_pages as i64 {
                let w = added_text(*printed, title);
                out.push(w);
            } else {
                let w = outside_text(*printed, title, scan, n_pages);
                out.push(w);
            }
            assert(string_seq_views(out@) =~= warnings_spec(
                entries.take(idx + 1),
                ocr_pages@,
                offset,
                n_pages,
            ));
        }
    }
    proof {
        assert(entries.take(entries.len() as int) =~= entries);
        let keys = all.map_values(|kv: (&i32, &String)| *kv.0);
        assert forall|i: int, j: int| 0 <= i < j < entries.len() implies #[trigger] entries[i].0
            < #[trigger] entries[j].0 by {
            assert(keys[i] < keys[j]);
        }
        assert forall|p: i32| #[trigger] corrections@.contains_key(p) implies exists|i: int|
            0 <= i < entries.len() && #[trigger] entries[i].0 == p by {
            assert(all.contains((&p, &corrections@[p])));
            let i = choose|i: int| 0 <= i < all.len() && all[i] == (&p, &corrections@[p]);
            assert(entries[i].0 == p);
        }
        assert(all == vstd::std_specs::btree::spec_btree_map_iter(corrections).remaining());
        assert forall|i: int| 0 <= i < entries.len() implies corrections@.contains_key(
            #[trigger] entries[i].0,
        ) && corrections@[entries[i].0]@ == entries[i].1 by {
            assert(corrections@.contains_key(*all[i].0));
            assert(corrections@[*all[i].0] == *all[i].1);
        }
        assert(in_page_order(entries, corrections@));
    }
    out
}

} // verus!
