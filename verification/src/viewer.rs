//! What the main window decides: the viewer's page and song navigation, the
//! friendly book names shown beside songs, and the status lines. Drawing the
//! window, rendering pages and reading files are the caller's part.

use vstd::prelude::*;

use crate::db::{book_status_view, BookStatus, Song};
use crate::path::{file_stem, file_stem_chars};
use crate::text::{
    append_chars, chars_eq, chars_of, decimal, decimal_chars, nat_decimal, push_nat_decimal, str_to_lowercase,
    string_of, trim, trim_chars, unicode_lower,
};

verus! {

/// Width, in pixels, that PDF pages are rasterized to on opening a song.
pub const RENDER_WIDTH: i32 = 1200;

/// Max search results shown at once.
pub const SEARCH_LIMIT: usize = 300;

/// Tab indices, in the order the window lays the tabs out.
pub const TAB_SEARCH: i32 = 0;

pub const TAB_BOOKS: i32 = 2;

/// The book stem of a PDF path: its file stem, or empty when it has none.
pub open spec fn stem_of_path(p: Seq<char>) -> Seq<char> {
    match file_stem(p) {
        Some(s) => s,
        None => Seq::empty(),
    }
}

pub fn book_stem_from_path(path: &str) -> (r: String)
    ensures
        r@ == stem_of_path(path@),
{
    match file_stem_chars(chars_of(path).as_slice()) {
        Some(s) => string_of(s.as_slice()),
        None => String::new(),
    }
}

/// The tab shown at start: Books when nothing is installed yet (a fresh setup
/// needs PDFs), Search otherwise.
pub fn start_tab(library_empty: bool) -> (r: i32)
    ensures
        r == (if library_empty { TAB_BOOKS } else { TAB_SEARCH }),
{
    if library_empty {
        TAB_BOOKS
    } else {
        TAB_SEARCH
    }
}

// ---------------------------------------------------------------------------
// Friendly book titles
// ---------------------------------------------------------------------------

/// Lowercased book name → title, for the books whose index records a title,
/// in listing order (a later entry for a name overrides an earlier one).
pub open spec fn titles_spec(books: Seq<(Seq<char>, Option<Seq<char>>, bool)>) -> Seq<(Seq<char>, Seq<char>)>
    decreases books.len(),
{
    if books.len() == 0 {
        Seq::empty()
    } else {
        let rest = titles_spec(books.drop_last());
        match books.last().1 {
            Some(t) => rest.push((unicode_lower(books.last().0), t)),
            None => rest,
        }
    }
}

/// The title recorded last for `key`, as a map that overwrites on insert
/// gives it.
pub open spec fn lookup_last(t: Seq<(Seq<char>, Seq<char>)>, key: Seq<char>) -> Option<Seq<char>>
    decreases t.len(),
{
    if t.len() == 0 {
        None
    } else if t.last().0 == key {
        Some(t.last().1)
    } else {
        lookup_last(t.drop_last(), key)
    }
}

/// The friendly name of a book: its recorded title, found by its lowercased
/// stem, or the stem itself.
pub open spec fn label_spec(t: Seq<(Seq<char>, Seq<char>)>, stem: Seq<char>) -> Seq<char> {
    match lookup_last(t, unicode_lower(stem)) {
        Some(x) => x,
        None => stem,
    }
}

/// A book's recorded title is what its label shows, found by its own stem
/// in whatever case: for a titled book that no later titled book shares a
/// name with (ignoring case), the label of its name is its title.
pub proof fn law_recorded_title_is_shown(books: Seq<(Seq<char>, Option<Seq<char>>, bool)>, i: int)
    requires
        0 <= i < books.len(),
        books[i].1 is Some,
        forall|j: int|
            i < j < books.len() && (#[trigger] books[j]).1 is Some ==> unicode_lower(books[j].0) != unicode_lower(
                books[i].0,
            ),
    ensures
        label_spec(titles_spec(books), books[i].0) == books[i].1->0,
    decreases books.len(),
{
    let key = unicode_lower(books[i].0);
    if i == books.len() - 1 {
        assert(books.last() == books[i]);
        assert(titles_spec(books).last() == (key, books[i].1->0));
    } else {
        let bd = books.drop_last();
        assert(bd[i] == books[i]);
        assert forall|j: int| i < j < bd.len() && (#[trigger] bd[j]).1 is Some implies unicode_lower(bd[j].0)
            != unicode_lower(bd[i].0) by {
            assert(bd[j] == books[j]);
        }
        law_recorded_title_is_shown(bd, i);
        let last = books.last();
        assert(last == books[books.len() - 1]);
        if last.1 is Some {
            assert(titles_spec(books) == titles_spec(bd).push((unicode_lower(last.0), last.1->0)));
            assert(titles_spec(books).drop_last() =~= titles_spec(bd));
        }
    }
}

pub open spec fn pair_views(v: Seq<(String, String)>) -> Seq<(Seq<char>, Seq<char>)> {
    v.map_values(|p: (String, String)| (p.0@, p.1@))
}

/// The book stem → title table built from the indexed books.
pub fn book_titles(books: &[BookStatus]) -> (r: Vec<(String, String)>)
    ensures
        pair_views(r@) == titles_spec(books@.map_values(|b: BookStatus| book_status_view(b))),
{
    let ghost bv = books@.map_values(|b: BookStatus| book_status_view(b));
    let mut out: Vec<(String, String)> = Vec::new();
    let mut k: usize = 0;
    assert(bv.take(0).len() == 0);
    assert(pair_views(out@) =~= titles_spec(bv.take(0)));
    while k < books.len()
        invariant
            k <= books@.len(),
            bv == books@.map_values(|b: BookStatus| book_status_view(b)),
            pair_views(out@) == titles_spec(bv.take(k as int)),
        decreases books@.len() - k,
    {
        assert(bv.take(k + 1).drop_last() =~= bv.take(k as int));
        assert(bv.take(k + 1).last() == book_status_view(books@[k as int]));
        match &books[k].title {
            Some(t) => {
                let key = str_to_lowercase(books[k].name.as_str());
                let ghost prev = out@;
                out.push((key, t.clone()));
                assert(pair_views(out@) =~= pair_views(prev).push((key@, t@)));
            },
            None => {},
        }
        k = k + 1;
    }
    assert(bv.take(k as int) =~= bv);
    out
}

/// Friendly book name for `stem`, falling back to the stem when the index
/// recorded no title.
pub fn book_label(titles: &[(String, String)], stem: &str) -> (r: String)
    ensures
        r@ == label_spec(pair_views(titles@), stem@),
{
    let key = str_to_lowercase(stem);
    book_label_by_key(titles, key.as_str(), stem)
}

/// The label lookup given the stem's lower-cased form `key`: the title
/// recorded last for `key`, or `stem` itself.
pub fn book_label_by_key(titles: &[(String, String)], key: &str, stem: &str) -> (r: String)
    ensures
        r@ == (match lookup_last(pair_views(titles@), key@) {
            Some(x) => x,
            None => stem@,
        }),
{
    let kc = chars_of(key);
    let ghost tv = pair_views(titles@);
    let mut k: usize = titles.len();
    assert(tv.take(k as int) =~= tv);
    while k > 0
        invariant
            k <= titles@.len(),
            tv == pair_views(titles@),
            kc@ == key@,
            lookup_last(tv, kc@) == lookup_last(tv.take(k as int), kc@),
        decreases k,
    {
        assert(tv.take(k as int).drop_last() =~= tv.take(k - 1));
        assert(tv.take(k as int).last() == tv[k - 1]);
        let c = chars_of(titles[k - 1].0.as_str());
        if chars_eq(c.as_slice(), kc.as_slice()) {
            return titles[k - 1].1.clone();
        }
        k = k - 1;
    }
    assert(tv.take(0).len() == 0);
    string_of(chars_of(stem).as_slice())
}

pub open spec fn subtitle_spec(t: Seq<(Seq<char>, Seq<char>)>, stem: Seq<char>, page: int) -> Seq<char> {
    label_spec(t, stem) + " \u{b7} p."@ + decimal(page + 1)
}

/// "Book Title · p.N" for a song row; N is the 1-based page the viewer shows
/// for the 0-based render page `page`.
pub fn book_subtitle(titles: &[(String, String)], stem: &str, page: i32) -> (r: String)
    requires
        page < i32::MAX,
    ensures
        r@ == subtitle_spec(pair_views(titles@), stem@, page as int),
{
    let label = book_label(titles, stem);
    let mut out = chars_of(label.as_str());
    let sep = chars_of(" \u{b7} p.");
    append_chars(&mut out, sep.as_slice());
    let n = decimal_chars((page + 1) as i64);
    append_chars(&mut out, n.as_slice());
    string_of(out.as_slice())
}

// ---------------------------------------------------------------------------
// Status lines
// ---------------------------------------------------------------------------

pub open spec fn idle_status_spec(n_songs: nat, n_books: nat, pdf_dir: Seq<char>) -> Seq<char> {
    if n_songs > 0 {
        nat_decimal(n_songs) + " songs indexed. Type to search."@
    } else if n_books == 0 {
        "No song indexes found in\n"@ + pdf_dir + "\nTap Reload to download them."@
    } else {
        "No PDFs installed yet. Copy them to\n"@ + pdf_dir + "\nvia USB."@
    }
}

/// The status line shown when no search is active: how many songs are
/// searchable, or, with none, where the indexes or the PDFs are missing from.
pub fn idle_status(n_songs: usize, n_books: usize, pdf_dir: &str) -> (r: String)
    ensures
        r@ == idle_status_spec(n_songs as nat, n_books as nat, pdf_dir@),
{
    let mut out: Vec<char> = Vec::new();
    if n_songs > 0 {
        push_nat_decimal(&mut out, n_songs as u64);
        append_chars(&mut out, chars_of(" songs indexed. Type to search.").as_slice());
    } else if n_books == 0 {
        append_chars(&mut out, chars_of("No song indexes found in\n").as_slice());
        append_chars(&mut out, chars_of(pdf_dir).as_slice());
        append_chars(&mut out, chars_of("\nTap Reload to download them.").as_slice());
    } else {
        append_chars(&mut out, chars_of("No PDFs installed yet. Copy them to\n").as_slice());
        append_chars(&mut out, chars_of(pdf_dir).as_slice());
        append_chars(&mut out, chars_of("\nvia USB.").as_slice());
    }
    string_of(out.as_slice())
}

pub open spec fn results_status_spec(n: nat) -> Seq<char> {
    if n == 0 {
        "No results"@
    } else {
        nat_decimal(n) + " result(s)"@
    }
}

/// The status line after a search with `n` hits.
pub fn results_status(n: usize) -> (r: String)
    ensures
        r@ == results_status_spec(n as nat),
{
    if n == 0 {
        return string_of(chars_of("No results").as_slice());
    }
    let mut out: Vec<char> = Vec::new();
    push_nat_decimal(&mut out, n as u64);
    append_chars(&mut out, chars_of(" result(s)").as_slice());
    string_of(out.as_slice())
}

/// The query a search box text stands for: the text trimmed, or none when
/// that leaves nothing (the search is then cleared).
pub fn search_query(text: &str) -> (r: Option<String>)
    ensures
        match r {
            Some(q) => trim(text@).len() > 0 && q@ == trim(text@),
            None => trim(text@).len() == 0,
        },
{
    let t = trim_chars(chars_of(text).as_slice());
    if t.len() == 0 {
        None
    } else {
        Some(string_of(t.as_slice()))
    }
}

// ---------------------------------------------------------------------------
// The viewer
// ---------------------------------------------------------------------------

/// The page a song opens at: its page, clamped to the book's pages.
pub open spec fn open_page_spec(song_page: int, count: int) -> int {
    let hi = if count == 0 { 0 } else { count - 1 };
    if song_page < 0 {
        0
    } else if song_page > hi {
        hi
    } else {
        song_page
    }
}

/// The page after "next page": one on, unless it is the last.
pub open spec fn next_page_spec(page: int, count: int) -> int {
    if count > 0 && page + 1 < count {
        page + 1
    } else {
        page
    }
}

/// The page after "previous page": one back, unless it is the first.
pub open spec fn prev_page_spec(page: int) -> int {
    if page > 0 {
        page - 1
    } else {
        page
    }
}

/// What is currently shown in the viewer.
pub struct ViewerState {
    pub path: String,
    /// 0-based page shown.
    pub page: u16,
    /// Pages in the book (0 when the PDF could not be read).
    pub count: u16,
    /// Index into the list being stepped through, for Prev/Next result.
    pub result_idx: usize,
    /// Width the page is currently rasterized at.
    pub render_width: i32,
}

impl ViewerState {
    /// The viewer state for opening a song of `count` pages at `song_page`,
    /// the `idx`-th of the list being stepped through.
    pub fn open(path: String, song_page: i32, count: u16, idx: usize) -> (r: Self)
        ensures
            r.path == path,
            r.page == open_page_spec(song_page as int, count as int),
            r.count == count,
            r.result_idx == idx,
            r.render_width == RENDER_WIDTH,
    {
        let hi: i32 = if count == 0 { 0 } else { (count - 1) as i32 };
        let p: i32 = if song_page < 0 {
            0
        } else if song_page > hi {
            hi
        } else {
            song_page
        };
        ViewerState { path, page: p as u16, count, result_idx: idx, render_width: RENDER_WIDTH }
    }

    /// Step to the next page; returns whether the page changed.
    pub fn next_page(&mut self) -> (moved: bool)
        ensures
            final(self).page == next_page_spec(old(self).page as int, old(self).count as int),
            moved == (final(self).page != old(self).page),
            final(self).path == old(self).path,
            final(self).count == old(self).count,
            final(self).result_idx == old(self).result_idx,
            final(self).render_width == old(self).render_width,
    {
        if self.count > 0 && (self.page as u32) + 1 < self.count as u32 {
            self.page = self.page + 1;
            true
        } else {
            false
        }
    }

    /// Step to the previous page; returns whether the page changed.
    pub fn prev_page(&mut self) -> (moved: bool)
        ensures
            final(self).page == prev_page_spec(old(self).page as int),
            moved == (final(self).page != old(self).page),
            final(self).path == old(self).path,
            final(self).count == old(self).count,
            final(self).result_idx == old(self).result_idx,
            final(self).render_width == old(self).render_width,
    {
        if self.page > 0 {
            self.page = self.page - 1;
            true
        } else {
            false
        }
    }
}

/// What opening a song of the list being stepped through shows: the viewer
/// state, and the position "`result_index` of `result_count`".
pub struct OpenedSong {
    pub state: ViewerState,
    pub result_index: usize,
    pub result_count: usize,
}

/// Open the `idx`-th song of `nav`, whose PDF has `count` pages. An index
/// past the end opens nothing, and the viewer stays as it was.
pub fn open_at(nav: &[Song], idx: usize, count: u16) -> (r: Option<OpenedSong>)
    ensures
        idx >= nav@.len() ==> r is None,
        idx < nav@.len() ==> (r matches Some(o) && {
            &&& o.state.path@ == nav@[idx as int].file@
            &&& o.state.page == open_page_spec(nav@[idx as int].page as int, count as int)
            &&& o.state.count == count
            &&& o.state.result_idx == idx
            &&& o.state.render_width == RENDER_WIDTH
            &&& o.result_index == idx
            &&& o.result_count == nav@.len()
        }),
{
    if idx >= nav.len() {
        return None;
    }
    let song = &nav[idx];
    let state = ViewerState::open(song.file.clone(), song.page, count, idx);
    Some(OpenedSong { state, result_index: idx, result_count: nav.len() })
}

/// The song "next result" opens: the one after the current one, if any.
pub fn next_result(current: Option<usize>, nav_len: usize) -> (r: Option<usize>)
    ensures
        match current {
            Some(i) => if i + 1 < nav_len { r == Some((i + 1) as usize) } else { r is None },
            None => r is None,
        },
{
    match current {
        Some(i) => if i < nav_len && i + 1 < nav_len {
            Some(i + 1)
        } else {
            None
        },
        None => None,
    }
}

/// The song "previous result" opens: the one before the current one, if any.
pub fn prev_result(current: Option<usize>) -> (r: Option<usize>)
    ensures
        match current {
            Some(i) => if i > 0 { r == Some((i - 1) as usize) } else { r is None },
            None => r is None,
        },
{
    match current {
        Some(i) => if i > 0 {
            Some(i - 1)
        } else {
            None
        },
        None => None,
    }
}

/// The viewer never shows a page outside the book: a song opens inside it,
/// and stepping pages keeps it there.
pub proof fn law_page_stays_in_book(song_page: int, page: int, count: int)
    requires
        count > 0,
        0 <= page < count,
    ensures
        0 <= open_page_spec(song_page, count) < count,
        0 <= next_page_spec(page, count) < count,
        0 <= prev_page_spec(page) < count,
{
}

/// "Next page" undone by "previous page", and the other way round, except at
/// the ends of the book where the step does nothing.
pub proof fn law_page_steps_undo(page: int, count: int)
    requires
        0 <= page < count,
    ensures
        next_page_spec(page, count) != page ==> prev_page_spec(next_page_spec(page, count)) == page,
        prev_page_spec(page) != page ==> next_page_spec(prev_page_spec(page), count) == page,
{
}

} // verus!
