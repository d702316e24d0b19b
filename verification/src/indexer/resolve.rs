//! Mapping printed pages to scan pages when building a book's index.
//!
//! `offset` = (1-based scan page) - (printed page). A single offset can't
//! model a scan with missing/extra pages, so entries that resolve outside the
//! PDF are clamped to its page range and counted.

use std::collections::BTreeMap;

use vstd::prelude::*;
use vstd::std_specs::iter::IteratorSpec;

use crate::keys::{i32_keys_ordered, lemma_i32_keys_ordered, lemma_increasing_i32, lemma_key_listing_unique};

verus! {

broadcast use vstd::std_specs::btree::group_btree_axioms;

/// Printed page number -> titles printed on it.
pub type Index = BTreeMap<i32, Vec<String>>;

/// `printed + offset - 1` computes without overflow.
pub open spec fn resolvable(printed: i32, offset: i32) -> bool {
    i32::MIN <= printed + offset <= i32::MAX && i32::MIN <= printed + offset - 1
}

/// Whether `printed + offset - 1` computes without overflow.
pub fn resolvable_page(printed: i32, offset: i32) -> (r: bool)
    ensures
        r == resolvable(printed, offset),
{
    let s = printed as i64 + offset as i64;
    i32::MIN as i64 <= s && s <= i32::MAX as i64 && i32::MIN as i64 <= s - 1
}

/// 0-based scan page for a printed page.
pub fn resolve_page(printed: i32, offset: i32) -> (scan: i32)
    requires
        resolvable(printed, offset),
    ensures
        scan == printed + offset - 1,
{
    printed + offset - 1
}

/// Addition that stops at `usize::MAX`.
pub open spec fn sat_add(a: nat, b: nat) -> nat {
    if a + b > usize::MAX {
        usize::MAX as nat
    } else {
        a + b
    }
}

pub open spec fn clamp_page(scan: int, n_pages: u16) -> int {
    let last = if n_pages == 0 {
        0
    } else {
        n_pages - 1
    };
    if scan < 0 {
        0
    } else if scan > last {
        last
    } else {
        scan
    }
}

/// A row `(printed, title, scan)` with this title and scan page exists.
pub open spec fn seen(rows: Seq<(i32, Seq<char>, i32)>, title: Seq<char>, scan: int) -> bool {
    exists|k: int| 0 <= k < rows.len() && #[trigger] rows[k].1 == title && rows[k].2 == scan
}

/// Add one row per title of a printed page, skipping exact duplicates of a
/// `(title, scan)` already present.
pub open spec fn add_titles(
    rows: Seq<(i32, Seq<char>, i32)>,
    printed: i32,
    titles: Seq<Seq<char>>,
    scan: int,
) -> Seq<(i32, Seq<char>, i32)>
    decreases titles.len(),
{
    if titles.len() == 0 {
        rows
    } else {
        let r = add_titles(rows, printed, titles.drop_last(), scan);
        let t = titles.last();
        if seen(r, t, scan) {
            r
        } else {
            r.push((printed, t, scan as i32))
        }
    }
}

/// Rows and out-of-range count after the pages `entries` (in page order):
/// each printed page resolves to `printed + offset - 1`, clamped into
/// `0..n_pages` (0 when the PDF is empty); a clamped page counts all its
/// titles as out of range.
pub open spec fn rows_spec(entries: Seq<(i32, Seq<Seq<char>>)>, offset: i32, n_pages: u16) -> (
    Seq<(i32, Seq<char>, i32)>,
    nat,
)
    decreases entries.len(),
{
    if entries.len() == 0 {
        (seq![], 0)
    } else {
        let (rows, oor) = rows_spec(entries.drop_last(), offset, n_pages);
        let (p, titles) = entries.last();
        let scan = p + offset - 1;
        let clamped = clamp_page(scan, n_pages);
        let oor2 = if scan != clamped {
            sat_add(oor, titles.len())
        } else {
            oor
        };
        (add_titles(rows, p, titles, clamped), oor2)
    }
}

/// No two rows share both title and scan page.
pub open spec fn rows_distinct(rows: Seq<(i32, Seq<char>, i32)>) -> bool {
    forall|i: int, j: int|
        0 <= i < j < rows.len() ==> !(#[trigger] rows[i].1 == #[trigger] rows[j].1 && rows[i].2 == rows[j].2)
}

/// Every row's scan page is a page of the PDF (page 0 when it has none).
pub open spec fn rows_in_book(rows: Seq<(i32, Seq<char>, i32)>, n_pages: u16) -> bool {
    forall|i: int| 0 <= i < rows.len() ==> 0 <= #[trigger] rows[i].2 && (rows[i].2 < n_pages || rows[i].2 == 0)
}

proof fn lemma_add_titles_keeps(
    rows: Seq<(i32, Seq<char>, i32)>,
    printed: i32,
    titles: Seq<Seq<char>>,
    scan: int,
    n_pages: u16,
)
    requires
        rows_distinct(rows),
        rows_in_book(rows, n_pages),
        0 <= scan,
        scan < n_pages || scan == 0,
    ensures
        rows_distinct(add_titles(rows, printed, titles, scan)),
        rows_in_book(add_titles(rows, printed, titles, scan), n_pages),
    decreases titles.len(),
{
    if titles.len() > 0 {
        lemma_add_titles_keeps(rows, printed, titles.drop_last(), scan, n_pages);
        let r = add_titles(rows, printed, titles.drop_last(), scan);
        let t = titles.last();
        if !seen(r, t, scan) {
            let n = r.push((printed, t, scan as i32));
            assert forall|i: int, j: int| 0 <= i < j < n.len() implies !(#[trigger] n[i].1 == #[trigger] n[j].1 && n[i].2 == n[j].2) by {
                if j == n.len() - 1 {
                    assert(n[i] == r[i]);
                    if n[i].1 == t && n[i].2 == scan {
                        assert(r[i].1 == t);
                    }
                } else {
                    assert(n[i] == r[i] && n[j] == r[j]);
                }
            }
            assert forall|i: int| 0 <= i < n.len() implies 0 <= #[trigger] n[i].2 && (n[i].2 < n_pages || n[i].2 == 0) by {
                if i < r.len() {
                    assert(n[i] == r[i]);
                }
            }
        }
    }
}

/// The rows never repeat a (title, scan page) pair, and every scan page lies
/// inside the PDF: out-of-range pages are clamped to its first or last page.
pub proof fn law_rows_distinct_in_book(entries: Seq<(i32, Seq<Seq<char>>)>, offset: i32, n_pages: u16)
    ensures
        rows_distinct(rows_spec(entries, offset, n_pages).0),
        rows_in_book(rows_spec(entries, offset, n_pages).0, n_pages),
    decreases entries.len(),
{
    if entries.len() > 0 {
        law_rows_distinct_in_book(entries.drop_last(), offset, n_pages);
        let (p, titles) = entries.last();
        let clamped = clamp_page(p + offset - 1, n_pages);
        lemma_add_titles_keeps(rows_spec(entries.drop_last(), offset, n_pages).0, p, titles, clamped, n_pages);
    }
}

pub open spec fn titles_views(v: Vec<String>) -> Seq<Seq<char>> {
    v@.map_values(|s: String| s@)
}

/// `entries` lists the index's pages in increasing order with their titles.
pub open spec fn index_in_page_order(entries: Seq<(i32, Seq<Seq<char>>)>, m: Map<i32, Vec<String>>) -> bool {
    &&& forall|i: int, j: int| 0 <= i < j < entries.len() ==> #[trigger] entries[i].0 < #[trigger] entries[j].0
    &&& forall|i: int| 0 <= i < entries.len() ==> m.contains_key(#[trigger] entries[i].0) && titles_views(m[entries[i].0]) == entries[i].1
    &&& forall|p: i32| #[trigger] m.contains_key(p) ==> exists|i: int| 0 <= i < entries.len() && #[trigger] entries[i].0 == p
}

/// The scan page a printed page lands on: `printed + offset - 1`, clamped
/// into the PDF's pages (page 0 when it has none).
pub open spec fn landing_page(printed: int, offset: int, n_pages: int) -> int {
    let last = if n_pages <= 0 { 0 } else { n_pages - 1 };
    let v = printed + offset - 1;
    if v < 0 {
        0
    } else if v > last {
        last
    } else {
        v
    }
}

/// A row sits on the page its printed page lands on, and carries a title
/// listed for that printed page.
pub open spec fn row_placed(
    entries: Seq<(i32, Seq<Seq<char>>)>,
    offset: i32,
    n_pages: u16,
    row: (i32, Seq<char>, i32),
) -> bool {
    &&& row.2 == landing_page(row.0 as int, offset as int, n_pages as int)
    &&& exists|e: int| 0 <= e < entries.len() && #[trigger] entries[e].0 == row.0 && entries[e].1.contains(row.1)
}

proof fn lemma_add_titles_rows(rows: Seq<(i32, Seq<char>, i32)>, printed: i32, titles: Seq<Seq<char>>, scan: int)
    requires
        0 <= scan <= 65535,
    ensures
        add_titles(rows, printed, titles, scan).len() >= rows.len(),
        forall|k: int| 0 <= k < rows.len() ==> #[trigger] add_titles(rows, printed, titles, scan)[k] == rows[k],
        forall|k: int|
            rows.len() <= k < add_titles(rows, printed, titles, scan).len() ==> {
                &&& (#[trigger] add_titles(rows, printed, titles, scan)[k]).0 == printed
                &&& add_titles(rows, printed, titles, scan)[k].2 == scan
                &&& titles.contains(add_titles(rows, printed, titles, scan)[k].1)
            },
    decreases titles.len(),
{
    if titles.len() > 0 {
        let td = titles.drop_last();
        lemma_add_titles_rows(rows, printed, td, scan);
        let r = add_titles(rows, printed, td, scan);
        let res = add_titles(rows, printed, titles, scan);
        assert forall|k: int| rows.len() <= k < r.len() implies titles.contains(#[trigger] r[k].1) by {
            assert(td.contains(r[k].1));
            let j = choose|j: int| 0 <= j < td.len() && td[j] == r[k].1;
            assert(titles[j] == td[j]);
        }
        if !seen(r, titles.last(), scan) {
            assert(res == r.push((printed, titles.last(), scan as i32)));
            assert(titles.contains(titles.last())) by {
                assert(titles[titles.len() - 1] == titles.last());
            }
        }
    }
}

/// Every row lies on the scan page its printed page resolves to
/// (`printed + offset - 1`, clamped into the PDF), and carries a title the
/// index lists for that printed page.
pub proof fn law_rows_on_their_scan_page(entries: Seq<(i32, Seq<Seq<char>>)>, offset: i32, n_pages: u16)
    ensures
        forall|k: int|
            0 <= k < rows_spec(entries, offset, n_pages).0.len() ==> row_placed(
                entries,
                offset,
                n_pages,
                #[trigger] rows_spec(entries, offset, n_pages).0[k],
            ),
    decreases entries.len(),
{
    if entries.len() > 0 {
        let ed = entries.drop_last();
        law_rows_on_their_scan_page(ed, offset, n_pages);
        let rows = rows_spec(ed, offset, n_pages).0;
        let (p, titles) = entries.last();
        let clamped = landing_page(p as int, offset as int, n_pages as int);
        lemma_add_titles_rows(rows, p, titles, clamped);
        let res = rows_spec(entries, offset, n_pages).0;
        assert(res == add_titles(rows, p, titles, clamped));
        assert forall|k: int| 0 <= k < res.len() implies row_placed(entries, offset, n_pages, #[trigger] res[k]) by {
            if k < rows.len() {
                assert(res[k] == rows[k]);
                assert(row_placed(ed, offset, n_pages, rows[k]));
                let e = choose|e: int| 0 <= e < ed.len() && #[trigger] ed[e].0 == rows[k].0 && ed[e].1.contains(rows[k].1);
                assert(entries[e] == ed[e]);
            } else {
                assert(entries[entries.len() - 1] == entries.last());
                assert(res[k].2 == clamped);
            }
        }
    }
}

/// An index has only one listing in page order, so the rows and the count
/// are determined by their inputs.
pub proof fn law_index_order_unique(
    m: Map<i32, Vec<String>>,
    e1: Seq<(i32, Seq<Seq<char>>)>,
    e2: Seq<(i32, Seq<Seq<char>>)>,
)
    requires
        index_in_page_order(e1, m),
        index_in_page_order(e2, m),
    ensures
        e1 == e2,
{
    assert forall|x: (i32, Seq<Seq<char>>)| e1.contains(x) <==> e2.contains(x) by {
        if e1.contains(x) {
            let i = choose|i: int| 0 <= i < e1.len() && e1[i] == x;
            assert(m.contains_key(e1[i].0));
            let j = choose|j: int| 0 <= j < e2.len() && #[trigger] e2[j].0 == x.0;
            assert(e2[j] == x);
        }
        if e2.contains(x) {
            let i = choose|i: int| 0 <= i < e2.len() && e2[i] == x;
            assert(m.contains_key(e2[i].0));
            let j = choose|j: int| 0 <= j < e1.len() && #[trigger] e1[j].0 == x.0;
            assert(e1[j] == x);
        }
    }
    lemma_key_listing_unique(e1, e2);
}

pub open spec fn row_views(v: Seq<(i32, String, i32)>) -> Seq<(i32, Seq<char>, i32)> {
    v.map_values(|r: (i32, String, i32)| (r.0, r.1@, r.2))
}

fn string_eq(a: &String, b: &String) -> (r: bool)
    ensures
        r == (a@ == b@),
{
    a.eq(b)
}

fn already_seen(rows: &Vec<(i32, String, i32)>, title: &String, scan: i32) -> (r: bool)
    ensures
        r == seen(row_views(rows@), title@, scan as int),
{
    let mut k: usize = 0;
    while k < rows.len()
        invariant
            k <= rows@.len(),
            forall|j: int|
                0 <= j < k ==> !(#[trigger] row_views(rows@)[j].1 == title@ && row_views(rows@)[j].2
                    == scan),
        decreases rows@.len() - k,
    {
        if string_eq(&rows[k].1, title) && rows[k].2 == scan {
            assert(row_views(rows@)[k as int].1 == title@);
            return true;
        }
        k = k + 1;
    }
    false
}

/// Resolve every printed page of `index` to a clamped 0-based scan page and
/// list `(printed, title, scan)` rows in page order, dropping exact-duplicate
/// `(title, scan)` rows. Also returns how many entries fell outside the PDF.
pub fn resolve_rows(index: &Index, offset: i32, n_pages: u16) -> (r: (Vec<(i32, String, i32)>, usize))
    requires
        forall|p: i32| #[trigger] index@.contains_key(p) ==> resolvable(p, offset),
    ensures
        exists|entries: Seq<(i32, Seq<Seq<char>>)>|
            index_in_page_order(entries, index@) && row_views(r.0@) == rows_spec(entries, offset, n_pages).0
                && r.1 == rows_spec(entries, offset, n_pages).1,
        forall|k: int|
            0 <= k < r.0@.len() ==> (#[trigger] r.0@[k]).2 == landing_page(r.0@[k].0 as int, offset as int, n_pages as int),
{
    proof {
        lemma_i32_keys_ordered();
    }
    let mut rows: Vec<(i32, String, i32)> = Vec::new();
    let mut out_of_range: usize = 0;
    let last: i32 = if n_pages == 0 {
        0
    } else {
        (n_pages - 1) as i32
    };
    let iter = index.iter();
    let ghost all = iter.remaining();
    let ghost entries = all.map_values(|kv: (&i32, &Vec<String>)| (*kv.0, titles_views(*kv.1)));
    proof {
        lemma_increasing_i32(all.map_values(|kv: (&i32, &Vec<String>)| *kv.0));
        assert(all == vstd::std_specs::btree::spec_btree_map_iter(index).remaining());
    }
    for kv in it: iter
        invariant
            i32_keys_ordered(),
            it.seq() == all,
            all == vstd::std_specs::btree::spec_btree_map_iter(index).remaining(),
            forall|p: i32| #[trigger] index@.contains_key(p) ==> resolvable(p, offset),
            entries == all.map_values(|kv: (&i32, &Vec<String>)| (*kv.0, titles_views(*kv.1))),
            last as int == (if n_pages == 0 { 0 } else { n_pages - 1 }),
            row_views(rows@) == rows_spec(entries.take(it.index() as int), offset, n_pages).0,
            out_of_range == rows_spec(entries.take(it.index() as int), offset, n_pages).1,
    {
        let (printed, titles) = kv;
        let ghost idx = it.index();
        assert(entries.take(idx + 1).drop_last() =~= entries.take(idx as int));
        assert(entries.take(idx + 1).last() == (*printed, titles_views(*titles)));
        assert(index@.contains_key(*all[idx as int].0));
        let scan = resolve_page(*printed, offset);
        let clamped: i32 = if scan < 0 {
            0
        } else if scan > last {
            last
        } else {
            scan
        };
        let ghost base = rows_spec(entries.take(idx as int), offset, n_pages);
        if scan != clamped {
            out_of_range = if out_of_range > usize::MAX - titles.len() {
                usize::MAX
            } else {
                out_of_range + titles.len()
            };
        }
        let mut j: usize = 0;
        while j < titles.len()
            invariant
                j <= titles@.len(),
                row_views(rows@) == add_titles(
                    base.0,
                    *printed,
                    titles_views(*titles).take(j as int),
                    clamped as int,
                ),
            decreases titles@.len() - j,
        {
            let ghost tv = titles_views(*titles);
            assert(tv.take(j + 1).drop_last() =~= tv.take(j as int));
            assert(tv.take(j + 1).last() == titles@[j as int]@);
            if !already_seen(&rows, &titles[j], clamped) {
                let t = titles[j].clone();
                rows.push((*printed, t, clamped));
                assert(row_views(rows@) =~= add_titles(
                    base.0,
                    *printed,
                    tv.take(j as int),
                    clamped as int,
                ).push((*printed, tv[j as int], clamped)));
            }
            j = j + 1;
        }
        assert(titles_views(*titles).take(titles@.len() as int) =~= titles_views(*titles));
    }
    proof {
        assert(entries.take(entries.len() as int) =~= entries);
        let keys = all.map_values(|kv: (&i32, &Vec<String>)| *kv.0);
        assert forall|i: int, j: int| 0 <= i < j < entries.len() implies #[trigger] entries[i].0
            < #[trigger] entries[j].0 by {
            assert(keys[i] < keys[j]);
        }
        assert forall|p: i32| #[trigger] index@.contains_key(p) implies exists|i: int|
            0 <= i < entries.len() && #[trigger] entries[i].0 == p by {
            assert(all.contains((&p, &index@[p])));
            let i = choose|i: int| 0 <= i < all.len() && all[i] == (&p, &index@[p]);
            assert(entries[i].0 == p);
        }
        assert forall|i: int| 0 <= i < entries.len() implies index@.contains_key(
            #[trigger] entries[i].0,
        ) && titles_views(index@[entries[i].0]) == entries[i].1 by {
            assert(index@.contains_key(*all[i].0));
            assert(index@[*all[i].0] == *all[i].1);
        }
        assert(index_in_page_order(entries, index@));
        law_rows_on_their_scan_page(entries, offset, n_pages);
        assert forall|k: int| 0 <= k < rows@.len() implies (#[trigger] rows@[k]).2 == landing_page(
            rows@[k].0 as int,
            offset as int,
            n_pages as int,
        ) by {
            assert(row_views(rows@)[k] == rows_spec(entries, offset, n_pages).0[k]);
        }
    }
    (rows, out_of_range)
}

} // verus!
