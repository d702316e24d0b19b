//! The song library: which index belongs to which book, listing books, and
//! searching songs.
//!
//! A book `<stem>.PDF` (in the PDF folder) has an index `<stem>.db`. The index
//! is taken from the PDF folder first (locally authored) and falls back to the
//! download folder (fetched by Reload), so downloads never shadow
//! work-in-progress. Stems match ignoring ASCII case. Reading the directories
//! and the SQLite files is the caller's part; the decisions are made here.

use vstd::prelude::*;

use crate::order::{lemma_lex_asymmetric, lemma_lex_irreflexive, lemma_lex_total, lemma_lex_transitive, chars_lt, lex_lt};
use crate::path::{file_stem, file_stem_chars};
use crate::text::{ascii_lower, chars_contains, chars_eq, chars_eq_ignore_ascii_case, chars_of, contains, eq_ignore_ascii_case, str_to_lowercase, string_of, trim, trim_chars, unicode_lower};

verus! {

/// One indexed song, resolved to a concrete PDF file and render page.
#[derive(Clone, Debug)]
pub struct Song {
    pub title: String,
    /// Book display name (the PDF file stem).
    pub book: String,
    /// Path of the PDF to open.
    pub file: String,
    /// 0-based page to render.
    pub page: i32,
}

/// A book known to the app: it has an index, and may or may not have its PDF
/// installed yet.
pub struct BookStatus {
    /// Book display name (the index file stem).
    pub name: String,
    /// Human-readable title from the index's `meta` table, if recorded.
    pub title: Option<String>,
    /// Whether the matching PDF is present (the book is searchable now).
    pub has_pdf: bool,
}

pub open spec fn song_view(s: Song) -> (Seq<char>, Seq<char>, Seq<char>, i32) {
    (s.title@, s.book@, s.file@, s.page)
}

pub open spec fn string_views(v: Seq<String>) -> Seq<Seq<char>> {
    v.map_values(|s: String| s@)
}

// ---------------------------------------------------------------------------
// Matching files by stem
// ---------------------------------------------------------------------------

/// The file's stem equals `stem`, ignoring ASCII case.
pub open spec fn stem_matches(p: Seq<char>, stem: Seq<char>) -> bool {
    file_stem(p) is Some && eq_ignore_ascii_case(file_stem(p)->0, stem)
}

/// Index of the first file whose stem matches `stem`.
pub open spec fn first_match(files: Seq<Seq<char>>, stem: Seq<char>) -> Option<int>
    decreases files.len(),
{
    if files.len() == 0 {
        None
    } else {
        match first_match(files.drop_last(), stem) {
            Some(i) => Some(i),
            None => if stem_matches(files.last(), stem) {
                Some(files.len() - 1)
            } else {
                None
            },
        }
    }
}

pub proof fn lemma_first_match_bounds(files: Seq<Seq<char>>, stem: Seq<char>)
    ensures
        first_match(files, stem) matches Some(i) ==> 0 <= i < files.len() && stem_matches(files[i], stem),
    decreases files.len(),
{
    if files.len() > 0 {
        lemma_first_match_bounds(files.drop_last(), stem);
    }
}

/// Some file's stem matches exactly when there is a first one.
pub proof fn lemma_first_match_exists(files: Seq<Seq<char>>, stem: Seq<char>)
    ensures
        (first_match(files, stem) is Some) == (exists|i: int| 0 <= i < files.len() && #[trigger] stem_matches(files[i], stem)),
    decreases files.len(),
{
    if files.len() > 0 {
        let fd = files.drop_last();
        lemma_first_match_exists(fd, stem);
        if exists|i: int| 0 <= i < fd.len() && #[trigger] stem_matches(fd[i], stem) {
            let i = choose|i: int| 0 <= i < fd.len() && #[trigger] stem_matches(fd[i], stem);
            assert(files[i] == fd[i]);
        }
        if exists|i: int| 0 <= i < files.len() && #[trigger] stem_matches(files[i], stem) {
            let i = choose|i: int| 0 <= i < files.len() && #[trigger] stem_matches(files[i], stem);
            if i < files.len() - 1 {
                assert(fd[i] == files[i]);
            } else {
                assert(files.last() == files[i]);
            }
        }
    }
}

fn stem_matches_exec(p: &String, stem: &[char]) -> (b: bool)
    ensures
        b == stem_matches(p@, stem@),
{
    let pc = chars_of(p.as_str());
    match file_stem_chars(pc.as_slice()) {
        Some(s) => chars_eq_ignore_ascii_case(s.as_slice(), stem),
        None => false,
    }
}

/// First file whose stem matches `stem` (ignoring ASCII case).
pub fn find_by_stem(files: &[String], stem: &[char]) -> (r: Option<usize>)
    ensures
        match r {
            Some(i) => first_match(string_views(files@), stem@) == Some(i as int),
            None => first_match(string_views(files@), stem@) is None,
        },
{
    let mut i: usize = 0;
    while i < files.len()
        invariant
            i <= files@.len(),
            first_match(string_views(files@.take(i as int)), stem@) is None,
        decreases files@.len() - i,
    {
        assert(string_views(files@.take(i + 1)).drop_last() =~= string_views(files@.take(i as int)));
        if stem_matches_exec(&files[i], stem) {
            proof {
                assert(string_views(files@.take(i + 1)) =~= string_views(files@).take(i + 1));
                lemma_first_match_prefix(string_views(files@), stem@, i + 1);
            }
            return Some(i);
        }
        i = i + 1;
    }
    assert(files@.take(files@.len() as int) =~= files@);
    None
}

/// A match in a prefix is the match of the whole list.
pub proof fn lemma_first_match_prefix(files: Seq<Seq<char>>, stem: Seq<char>, n: int)
    requires
        0 <= n <= files.len(),
        first_match(files.take(n), stem) is Some,
    ensures
        first_match(files, stem) == first_match(files.take(n), stem),
    decreases files.len() - n,
{
    if n < files.len() {
        assert(files.drop_last().take(n) =~= files.take(n));
        lemma_first_match_prefix(files.drop_last(), stem, n);
    } else {
        assert(files.take(n) =~= files);
    }
}

/// Path of an installed PDF by its stem (ignoring ASCII case), or `None` if
/// no PDF with that stem is installed. `pdfs` lists the PDF folder.
pub fn resolve_pdf(pdfs: &[String], stem: &str) -> (r: Option<String>)
    ensures
        match r {
            Some(p) => exists|i: int| first_match(string_views(pdfs@), stem@) == Some(i) && p@ == pdfs@[i]@,
            None => first_match(string_views(pdfs@), stem@) is None,
        },
{
    let s = chars_of(stem);
    proof {
        lemma_first_match_bounds(string_views(pdfs@), s@);
    }
    match find_by_stem(pdfs, s.as_slice()) {
        Some(i) => Some(pdfs[i].clone()),
        None => None,
    }
}

// ---------------------------------------------------------------------------
// Loading the library
// ---------------------------------------------------------------------------

/// A book whose songs can be loaded: its PDF, stem, and the index to read.
pub struct BookSource {
    pub pdf: String,
    pub stem: String,
    pub db: String,
}

/// The index for a PDF: the first local index with its stem, else the first
/// downloaded one; none if the PDF has no stem or no index.
pub open spec fn source_for(pdf: Seq<char>, local: Seq<Seq<char>>, downloaded: Seq<Seq<char>>) -> Option<
    (Seq<char>, Seq<char>, Seq<char>),
> {
    match file_stem(pdf) {
        None => None,
        Some(st) => match first_match(local, st) {
            Some(i) => Some((pdf, st, local[i])),
            None => match first_match(downloaded, st) {
                Some(j) => Some((pdf, st, downloaded[j])),
                None => None,
            },
        },
    }
}

/// The loadable books, in PDF order.
pub open spec fn sources_spec(pdfs: Seq<Seq<char>>, local: Seq<Seq<char>>, downloaded: Seq<Seq<char>>) -> Seq<
    (Seq<char>, Seq<char>, Seq<char>),
>
    decreases pdfs.len(),
{
    if pdfs.len() == 0 {
        seq![]
    } else {
        let rest = sources_spec(pdfs.drop_last(), local, downloaded);
        match source_for(pdfs.last(), local, downloaded) {
            Some(s) => rest.push(s),
            None => rest,
        }
    }
}

/// The index chosen for a book is the locally authored one when there is
/// one, and a downloaded one only otherwise.
pub open spec fn prefers_local(
    local: Seq<Seq<char>>,
    downloaded: Seq<Seq<char>>,
    src: (Seq<char>, Seq<char>, Seq<char>),
) -> bool {
    match first_match(local, src.1) {
        Some(i) => src.2 == local[i],
        None => first_match(downloaded, src.1) matches Some(j) && src.2 == downloaded[j],
    }
}

/// A download never shadows a locally authored index: every loadable book
/// reads the first local index with its stem, and falls back to a downloaded
/// one only when there is none.
pub proof fn law_local_index_first(pdfs: Seq<Seq<char>>, local: Seq<Seq<char>>, downloaded: Seq<Seq<char>>)
    ensures
        forall|k: int|
            0 <= k < sources_spec(pdfs, local, downloaded).len() ==> prefers_local(
                local,
                downloaded,
                #[trigger] sources_spec(pdfs, local, downloaded)[k],
            ),
    decreases pdfs.len(),
{
    if pdfs.len() > 0 {
        law_local_index_first(pdfs.drop_last(), local, downloaded);
        let rest = sources_spec(pdfs.drop_last(), local, downloaded);
        let all = sources_spec(pdfs, local, downloaded);
        match source_for(pdfs.last(), local, downloaded) {
            Some(src) => {
                assert(all == rest.push(src));
                assert(prefers_local(local, downloaded, src));
                assert forall|k: int| 0 <= k < all.len() implies prefers_local(local, downloaded, #[trigger] all[k]) by {
                    if k < rest.len() {
                        assert(all[k] == rest[k]);
                    }
                }
            },
            None => {
                assert(all == rest);
            },
        }
    }
}

/// Stems match whatever the ASCII case on either side: a PDF named
/// `RealBk1h.PDF` is found for the book `realbk1h` and for `REALBK1H` alike.
pub proof fn law_stem_case_ignored(p: Seq<char>, a: Seq<char>, b: Seq<char>)
    requires
        eq_ignore_ascii_case(a, b),
    ensures
        stem_matches(p, a) == stem_matches(p, b),
{
    if file_stem(p) is Some {
        let st = file_stem(p)->0;
        if stem_matches(p, a) {
            assert forall|i: int| 0 <= i < st.len() implies ascii_lower(#[trigger] st[i]) == ascii_lower(b[i]) by {
                assert(ascii_lower(st[i]) == ascii_lower(a[i]));
                assert(ascii_lower(a[i]) == ascii_lower(b[i]));
            }
        }
        if stem_matches(p, b) {
            assert forall|i: int| 0 <= i < st.len() implies ascii_lower(#[trigger] st[i]) == ascii_lower(a[i]) by {
                assert(ascii_lower(st[i]) == ascii_lower(b[i]));
                assert(ascii_lower(a[i]) == ascii_lower(b[i]));
            }
        }
    }
}

pub open spec fn source_views(v: Seq<BookSource>) -> Seq<(Seq<char>, Seq<char>, Seq<char>)> {
    v.map_values(|s: BookSource| (s.pdf@, s.stem@, s.db@))
}

fn copy_chars_string(v: &Vec<char>) -> (s: String)
    ensures
        s@ == v@,
{
    string_of(v.as_slice())
}

/// Pair every PDF (in listing order) with the index to read for it; PDFs
/// with no index yet are skipped.
pub fn library_sources(pdfs: &[String], local_dbs: &[String], downloaded_dbs: &[String]) -> (r: Vec<BookSource>)
    ensures
        source_views(r@) == sources_spec(string_views(pdfs@), string_views(local_dbs@), string_views(downloaded_dbs@)),
{
    let ghost lv = string_views(local_dbs@);
    let ghost dv = string_views(downloaded_dbs@);
    let mut out: Vec<BookSource> = Vec::new();
    let mut i: usize = 0;
    while i < pdfs.len()
        invariant
            i <= pdfs@.len(),
            lv == string_views(local_dbs@),
            dv == string_views(downloaded_dbs@),
            source_views(out@) == sources_spec(string_views(pdfs@.take(i as int)), lv, dv),
        decreases pdfs@.len() - i,
    {
        assert(string_views(pdfs@.take(i + 1)).drop_last() =~= string_views(pdfs@.take(i as int)));
        assert(string_views(pdfs@.take(i + 1)).last() == pdfs@[i as int]@);
        let pc = chars_of(pdfs[i].as_str());
        match file_stem_chars(pc.as_slice()) {
            None => {},
            Some(st) => {
                proof {
                    lemma_first_match_bounds(lv, st@);
                    lemma_first_match_bounds(dv, st@);
                }
                let found = match find_by_stem(local_dbs, st.as_slice()) {
                    Some(k) => Some(local_dbs[k].clone()),
                    None => match find_by_stem(downloaded_dbs, st.as_slice()) {
                        Some(k) => Some(downloaded_dbs[k].clone()),
                        None => None,
                    },
                };
                match found {
                    Some(db) => {
                        let src = BookSource { pdf: pdfs[i].clone(), stem: copy_chars_string(&st), db };
                        out.push(src);
                        assert(source_views(out@) =~= sources_spec(string_views(pdfs@.take(i as int)), lv, dv).push(
                            source_for(pdfs@[i as int]@, lv, dv)->0,
                        ));
                    },
                    None => {},
                }
            },
        }
        i = i + 1;
    }
    assert(pdfs@.take(pdfs@.len() as int) =~= pdfs@);
    out
}

/// Songs of loaded books: for each source whose index was read (`tables[k]`
/// is `Some`), one song per `(title, page)` row of that index, in order.
pub open spec fn songs_spec(sources: Seq<(Seq<char>, Seq<char>, Seq<char>)>, tables: Seq<Option<Seq<(Seq<char>, i32)>>>) -> Seq<
    (Seq<char>, Seq<char>, Seq<char>, i32),
>
    decreases sources.len(),
{
    if sources.len() == 0 || tables.len() == 0 {
        seq![]
    } else {
        let n = if sources.len() < tables.len() { sources.len() } else { tables.len() };
        let rest = songs_spec(sources.take(n - 1), tables.take(n - 1));
        let (pdf, stem, _db) = sources[n - 1];
        match tables[n - 1] {
            Some(rows) => rest + rows.map_values(|r: (Seq<char>, i32)| (r.0, stem, pdf, r.1)),
            None => rest,
        }
    }
}

pub open spec fn table_views(t: Seq<Option<Vec<(String, i32)>>>) -> Seq<Option<Seq<(Seq<char>, i32)>>> {
    t.map_values(|o: Option<Vec<(String, i32)>>| match o {
        Some(v) => Some(v@.map_values(|r: (String, i32)| (r.0@, r.1))),
        None => None,
    })
}

pub open spec fn song_views(v: Seq<Song>) -> Seq<(Seq<char>, Seq<char>, Seq<char>, i32)> {
    v.map_values(|s: Song| song_view(s))
}

/// Assemble the library from the rows read out of each source's index
/// (`tables[k]` for `sources[k]`; `None` where reading failed, which skips
/// that book).
pub fn load_library(sources: &[BookSource], tables: &[Option<Vec<(String, i32)>>]) -> (r: Vec<Song>)
    ensures
        song_views(r@) == songs_spec(source_views(sources@), table_views(tables@)),
{
    let n = if sources.len() < tables.len() { sources.len() } else { tables.len() };
    let mut out: Vec<Song> = Vec::new();
    let mut k: usize = 0;
    while k < n
        invariant
            k <= n,
            n <= sources@.len(),
            n <= tables@.len(),
            n == sources@.len() || n == tables@.len(),
            song_views(out@) == songs_spec(source_views(sources@.take(k as int)), table_views(tables@.take(k as int))),
        decreases n - k,
    {
        let ghost before = song_views(out@);
        proof {
            assert(source_views(sources@.take(k + 1)).take(k as int) =~= source_views(sources@.take(k as int)));
            assert(table_views(tables@.take(k + 1)).take(k as int) =~= table_views(tables@.take(k as int)));
        }
        match &tables[k] {
            Some(rows) => {
                let src = &sources[k];
                let mut j: usize = 0;
                while j < rows.len()
                    invariant
                        j <= rows@.len(),
                        song_views(out@) == before + rows@.take(j as int).map_values(
                            |r: (String, i32)| (r.0@, src.stem@, src.pdf@, r.1),
                        ),
                    decreases rows@.len() - j,
                {
                    let song = Song {
                        title: rows[j].0.clone(),
                        book: src.stem.clone(),
                        file: src.pdf.clone(),
                        page: rows[j].1,
                    };
                    let ghost old_out = out@;
                    assert(song_view(song) == (rows@[j as int].0@, src.stem@, src.pdf@, rows@[j as int].1));
                    out.push(song);
                    assert(out@ =~= old_out.push(song));
                    assert(song_views(out@) =~= song_views(old_out).push(song_view(song)));
                    assert(rows@.take(j + 1) =~= rows@.take(j as int).push(rows@[j as int]));
                    assert(song_views(out@) =~= before + rows@.take(j + 1).map_values(
                        |r: (String, i32)| (r.0@, src.stem@, src.pdf@, r.1),
                    ));
                    j = j + 1;
                }
                assert(rows@.take(rows@.len() as int) =~= rows@);
                assert(rows@.map_values(|r: (String, i32)| (r.0@, src.stem@, src.pdf@, r.1)) =~= rows@.map_values(
                    |r: (String, i32)| (r.0@, r.1),
                ).map_values(|r: (Seq<char>, i32)| (r.0, src.stem@, src.pdf@, r.1)));
            },
            None => {},
        }
        k = k + 1;
    }
    proof {
        assert(sources@.take(n as int) =~= sources@ || tables@.take(n as int) =~= tables@);
        lemma_songs_spec_trim(source_views(sources@), table_views(tables@));
        assert(source_views(sources@.take(n as int)) =~= source_views(sources@).take(n as int));
        assert(table_views(tables@.take(n as int)) =~= table_views(tables@).take(n as int));
    }
    out
}

/// Only the first `min(len, len)` pairs of sources and tables matter.
pub proof fn lemma_songs_spec_trim(sources: Seq<(Seq<char>, Seq<char>, Seq<char>)>, tables: Seq<Option<Seq<(Seq<char>, i32)>>>)
    ensures
        ({
            let n = if sources.len() < tables.len() { sources.len() } else { tables.len() };
            songs_spec(sources, tables) == songs_spec(sources.take(n as int), tables.take(n as int))
        }),
{
    let n = if sources.len() < tables.len() { sources.len() } else { tables.len() };
    if n > 0 {
        assert(sources.take(n as int).take(n - 1) =~= sources.take(n - 1));
        assert(tables.take(n as int).take(n - 1) =~= tables.take(n - 1));
    }
}


// ---------------------------------------------------------------------------
// Listing books
// ---------------------------------------------------------------------------

/// An index file standing for one book: `key` is its lower-cased stem (books
/// are told apart ignoring case), `name` its stem as written.
pub struct BookFile {
    pub key: String,
    pub name: String,
    pub db: String,
}

pub open spec fn book_file_view(b: BookFile) -> (Seq<char>, Seq<char>, Seq<char>) {
    (b.key@, b.name@, b.db@)
}

pub open spec fn book_file_views(v: Seq<BookFile>) -> Seq<(Seq<char>, Seq<char>, Seq<char>)> {
    v.map_values(|b: BookFile| book_file_view(b))
}

/// `(key, name, db)` for each index file that has a stem, in listing order.
pub open spec fn book_candidates(dbs: Seq<Seq<char>>) -> Seq<(Seq<char>, Seq<char>, Seq<char>)>
    decreases dbs.len(),
{
    if dbs.len() == 0 {
        seq![]
    } else {
        let rest = book_candidates(dbs.drop_last());
        match file_stem(dbs.last()) {
            Some(st) => rest.push((unicode_lower(st), st, dbs.last())),
            None => rest,
        }
    }
}

/// `res` has one entry per distinct key of `cands`, sorted by key, each the
/// first candidate with its key.
pub open spec fn firsts_by_key(
    cands: Seq<(Seq<char>, Seq<char>, Seq<char>)>,
    res: Seq<(Seq<char>, Seq<char>, Seq<char>)>,
) -> bool {
    &&& forall|i: int, j: int| 0 <= i < j < res.len() ==> lex_lt(#[trigger] res[i].0, #[trigger] res[j].0)
    &&& forall|i: int| 0 <= i < res.len() ==> #[trigger] is_first_of_key(cands, res[i])
    &&& forall|c: int| 0 <= c < cands.len() ==> #[trigger] key_listed(res, cands[c].0)
}

/// `e` is a candidate, and no earlier candidate has its key.
pub open spec fn is_first_of_key(
    cands: Seq<(Seq<char>, Seq<char>, Seq<char>)>,
    e: (Seq<char>, Seq<char>, Seq<char>),
) -> bool {
    exists|c: int| #[trigger] first_with_key(cands, c, e)
}

pub open spec fn key_listed(res: Seq<(Seq<char>, Seq<char>, Seq<char>)>, k: Seq<char>) -> bool {
    exists|i: int| 0 <= i < res.len() && #[trigger] res[i].0 == k
}

pub open spec fn first_with_key(
    cands: Seq<(Seq<char>, Seq<char>, Seq<char>)>,
    c: int,
    e: (Seq<char>, Seq<char>, Seq<char>),
) -> bool {
    &&& 0 <= c < cands.len()
    &&& cands[c] == e
    &&& forall|d: int| 0 <= d < c ==> #[trigger] cands[d].0 != e.0
}

fn book_key(stem: &[char]) -> (k: String)
    ensures
        k@ == unicode_lower(stem@),
{
    let s = string_of(stem);
    str_to_lowercase(s.as_str())
}

fn key_before(res: &Vec<BookFile>, pos: usize, key: &[char]) -> (b: bool)
    requires
        pos < res@.len(),
    ensures
        b == lex_lt(res@[pos as int].key@, key@),
{
    let rk = chars_of(res[pos].key.as_str());
    chars_lt(rk.as_slice(), key)
}

/// A candidate whose key is already listed leaves the list as it is.
pub proof fn lemma_firsts_skip(
    cands: Seq<(Seq<char>, Seq<char>, Seq<char>)>,
    rv: Seq<(Seq<char>, Seq<char>, Seq<char>)>,
    c: (Seq<char>, Seq<char>, Seq<char>),
    pos: int,
)
    requires
        firsts_by_key(cands, rv),
        0 <= pos < rv.len(),
        rv[pos].0 == c.0,
    ensures
        firsts_by_key(cands.push(c), rv),
{
    let nc = cands.push(c);
    assert forall|i: int| 0 <= i < rv.len() implies #[trigger] is_first_of_key(nc, rv[i]) by {
        assert(is_first_of_key(cands, rv[i]));
        let d = choose|d: int| #[trigger] first_with_key(cands, d, rv[i]);
        assert(first_with_key(nc, d, rv[i]));
    }
    assert forall|d: int| 0 <= d < nc.len() implies #[trigger] key_listed(rv, nc[d].0) by {
        if d == cands.len() {
            assert(rv[pos].0 == nc[d].0);
        } else {
            assert(nc[d] == cands[d]);
            assert(key_listed(rv, cands[d].0));
        }
    }
}

/// A candidate with a new key goes in at the first position that does not
/// sort before it.
pub proof fn lemma_firsts_insert(
    cands: Seq<(Seq<char>, Seq<char>, Seq<char>)>,
    rv: Seq<(Seq<char>, Seq<char>, Seq<char>)>,
    c: (Seq<char>, Seq<char>, Seq<char>),
    pos: int,
)
    requires
        firsts_by_key(cands, rv),
        0 <= pos <= rv.len(),
        forall|i: int| 0 <= i < pos ==> lex_lt(#[trigger] rv[i].0, c.0),
        pos < rv.len() ==> !lex_lt(rv[pos].0, c.0) && rv[pos].0 != c.0,
    ensures
        firsts_by_key(cands.push(c), rv.insert(pos, c)),
{
    let key = c.0;
    let nc = cands.push(c);
    if pos < rv.len() {
        lemma_lex_total(rv[pos].0, key);
    }
    assert forall|i: int| pos <= i < rv.len() implies lex_lt(key, #[trigger] rv[i].0) by {
        if i > pos {
            assert(lex_lt(rv[pos].0, rv[i].0));
            lemma_lex_transitive(key, rv[pos].0, rv[i].0);
        }
    }
    assert forall|d: int| 0 <= d < cands.len() implies #[trigger] cands[d].0 != key by {
        assert(key_listed(rv, cands[d].0));
        let i = choose|i: int| 0 <= i < rv.len() && #[trigger] rv[i].0 == cands[d].0;
        lemma_lex_irreflexive(key);
        if i < pos {
            assert(lex_lt(rv[i].0, key));
        } else {
            assert(lex_lt(key, rv[i].0));
        }
    }
    let nv = rv.insert(pos, c);
    assert forall|i: int, j: int| 0 <= i < j < nv.len() implies lex_lt(#[trigger] nv[i].0, #[trigger] nv[j].0) by {
        if j < pos {
            assert(nv[i] == rv[i] && nv[j] == rv[j]);
        } else if j == pos {
            assert(nv[i] == rv[i]);
        } else if i == pos {
            assert(nv[j] == rv[j - 1]);
        } else if i < pos {
            assert(nv[i] == rv[i] && nv[j] == rv[j - 1]);
            assert(lex_lt(rv[i].0, key));
            lemma_lex_transitive(rv[i].0, key, rv[j - 1].0);
        } else {
            assert(nv[i] == rv[i - 1] && nv[j] == rv[j - 1]);
        }
    }
    assert forall|i: int| 0 <= i < nv.len() implies #[trigger] is_first_of_key(nc, nv[i]) by {
        if i == pos {
            assert(first_with_key(nc, cands.len() as int, nv[i]));
        } else {
            let oi = if i < pos { i } else { i - 1 };
            assert(nv[i] == rv[oi]);
            assert(is_first_of_key(cands, rv[oi]));
            let d = choose|d: int| #[trigger] first_with_key(cands, d, rv[oi]);
            assert(first_with_key(nc, d, nv[i]));
        }
    }
    assert forall|d: int| 0 <= d < nc.len() implies #[trigger] key_listed(nv, nc[d].0) by {
        if d == cands.len() {
            assert(nv[pos].0 == nc[d].0);
        } else {
            assert(nc[d] == cands[d]);
            assert(key_listed(rv, cands[d].0));
            let oi = choose|oi: int| 0 <= oi < rv.len() && #[trigger] rv[oi].0 == cands[d].0;
            if oi < pos {
                assert(nv[oi].0 == nc[d].0);
            } else {
                assert(nv[oi + 1].0 == nc[d].0);
            }
        }
    }
}

fn key_equal(res: &Vec<BookFile>, pos: usize, key: &[char]) -> (b: bool)
    requires
        pos < res@.len(),
    ensures
        b == (res@[pos as int].key@ == key@),
{
    let rk = chars_of(res[pos].key.as_str());
    chars_eq(rk.as_slice(), key)
}

/// Add one index file to the sorted, de-duplicated list.
fn add_book_file(res: &mut Vec<BookFile>, db: &String, Ghost(cands): Ghost<Seq<(Seq<char>, Seq<char>, Seq<char>)>>) -> (new_cands: Ghost<Seq<(Seq<char>, Seq<char>, Seq<char>)>>)
    requires
        firsts_by_key(cands, book_file_views(old(res)@)),
    ensures
        firsts_by_key(new_cands@, book_file_views(final(res)@)),
        new_cands@ == match file_stem(db@) {
            Some(st) => cands.push((unicode_lower(st), st, db@)),
            None => cands,
        },
{
    let pc = chars_of(db.as_str());
    let st = match file_stem_chars(pc.as_slice()) {
        None => {
            return Ghost(cands);
        },
        Some(st) => st,
    };
    let key = book_key(st.as_slice());
    let kc = chars_of(key.as_str());
    let ghost c = (key@, st@, db@);
    let ghost rv = book_file_views(res@);
    let mut pos: usize = 0;
    while pos < res.len() && key_before(res, pos, kc.as_slice())
        invariant
            pos <= res@.len(),
            rv == book_file_views(res@),
            kc@ == key@,
            forall|i: int| 0 <= i < pos ==> lex_lt(#[trigger] rv[i].0, key@),
        decreases res@.len() - pos,
    {
        pos = pos + 1;
    }
    if pos < res.len() && key_equal(res, pos, kc.as_slice()) {
        proof {
            lemma_firsts_skip(cands, rv, c, pos as int);
        }
        return Ghost(cands.push(c));
    }
    let entry = BookFile { key, name: string_of(st.as_slice()), db: db.clone() };
    assert(book_file_view(entry) == c);
    proof {
        lemma_firsts_insert(cands, rv, c, pos as int);
    }
    res.insert(pos, entry);
    assert(book_file_views(res@) =~= rv.insert(pos as int, c));
    Ghost(cands.push(c))
}

/// The index files that stand for distinct books: one per stem (ignoring
/// case), the first in listing order (local before downloaded), sorted by
/// lower-cased stem.
pub fn book_files(local_dbs: &[String], downloaded_dbs: &[String]) -> (r: Vec<BookFile>)
    ensures
        firsts_by_key(
            book_candidates(string_views(local_dbs@) + string_views(downloaded_dbs@)),
            book_file_views(r@),
        ),
{
    let mut res: Vec<BookFile> = Vec::new();
    let ghost all = string_views(local_dbs@) + string_views(downloaded_dbs@);
    let ghost mut cands: Seq<(Seq<char>, Seq<char>, Seq<char>)> = seq![];
    assert(book_file_views(res@) =~= seq![]);
    let mut i: usize = 0;
    while i < local_dbs.len()
        invariant
            i <= local_dbs@.len(),
            all == string_views(local_dbs@) + string_views(downloaded_dbs@),
            cands == book_candidates(all.take(i as int)),
            firsts_by_key(cands, book_file_views(res@)),
        decreases local_dbs@.len() - i,
    {
        assert(all.take(i + 1).drop_last() =~= all.take(i as int));
        assert(all.take(i + 1).last() == local_dbs@[i as int]@);
        let Ghost(nc) = add_book_file(&mut res, &local_dbs[i], Ghost(cands));
        proof {
            cands = nc;
        }
        i = i + 1;
    }
    let nl = local_dbs.len();
    let mut j: usize = 0;
    while j < downloaded_dbs.len()
        invariant
            j <= downloaded_dbs@.len(),
            nl == local_dbs@.len(),
            all == string_views(local_dbs@) + string_views(downloaded_dbs@),
            cands == book_candidates(all.take(nl + j)),
            firsts_by_key(cands, book_file_views(res@)),
        decreases downloaded_dbs@.len() - j,
    {
        assert(all.take(nl + j + 1).drop_last() =~= all.take(nl + j));
        assert(all.take(nl + j + 1).last() == downloaded_dbs@[j as int]@);
        let Ghost(nc) = add_book_file(&mut res, &downloaded_dbs[j], Ghost(cands));
        proof {
            cands = nc;
        }
        j = j + 1;
    }
    assert(all.take(nl + j) =~= all);
    res
}

pub open spec fn book_status_view(b: BookStatus) -> (Seq<char>, Option<Seq<char>>, bool) {
    (b.name@, match b.title {
        Some(t) => Some(t@),
        None => None,
    }, b.has_pdf)
}

/// The book list: for each book file, its name, the title read from its
/// index (`titles[k]`), and whether a PDF with its stem is installed.
pub open spec fn list_books_spec(
    files: Seq<(Seq<char>, Seq<char>, Seq<char>)>,
    titles: Seq<Option<Seq<char>>>,
    pdfs: Seq<Seq<char>>,
) -> Seq<(Seq<char>, Option<Seq<char>>, bool)> {
    let n = if files.len() < titles.len() { files.len() } else { titles.len() };
    Seq::new(n, |k: int| (files[k].1, titles[k], first_match(pdfs, files[k].1) is Some))
}

pub open spec fn title_views(v: Seq<Option<String>>) -> Seq<Option<Seq<char>>> {
    v.map_values(|o: Option<String>| match o {
        Some(t) => Some(t@),
        None => None,
    })
}

fn clone_title(t: &Option<String>) -> (r: Option<String>)
    ensures
        match (r, *t) {
            (Some(a), Some(b)) => a@ == b@,
            (None, None) => true,
            _ => false,
        },
{
    match t {
        Some(s) => Some(s.clone()),
        None => None,
    }
}

/// Every book that has an index, with whether its PDF is installed. `files`
/// comes from [`book_files`]; `titles[k]` is the title read from `files[k]`'s
/// index (`None` when it has none or cannot be read).
/// A listed book counts as installed exactly when some PDF's file stem
/// equals its name ignoring ASCII case, so a change of case in the name
/// changes nothing.
pub proof fn law_installed_ignores_case(
    files: Seq<(Seq<char>, Seq<char>, Seq<char>)>,
    titles: Seq<Option<Seq<char>>>,
    pdfs: Seq<Seq<char>>,
    k: int,
)
    requires
        0 <= k < list_books_spec(files, titles, pdfs).len(),
    ensures
        list_books_spec(files, titles, pdfs)[k].0 == files[k].1,
        list_books_spec(files, titles, pdfs)[k].2 == exists|i: int|
            0 <= i < pdfs.len() && file_stem(pdfs[i]) is Some && #[trigger] eq_ignore_ascii_case(
                file_stem(pdfs[i])->0,
                files[k].1,
            ),
{
    lemma_first_match_exists(pdfs, files[k].1);
    let b = list_books_spec(files, titles, pdfs)[k].2;
    if b {
        let i = choose|i: int| 0 <= i < pdfs.len() && #[trigger] stem_matches(pdfs[i], files[k].1);
        assert(eq_ignore_ascii_case(file_stem(pdfs[i])->0, files[k].1));
    }
    if exists|i: int|
        0 <= i < pdfs.len() && file_stem(pdfs[i]) is Some && #[trigger] eq_ignore_ascii_case(
            file_stem(pdfs[i])->0,
            files[k].1,
        ) {
        let i = choose|i: int|
            0 <= i < pdfs.len() && file_stem(pdfs[i]) is Some && #[trigger] eq_ignore_ascii_case(
                file_stem(pdfs[i])->0,
                files[k].1,
            );
        assert(stem_matches(pdfs[i], files[k].1));
    }
}

pub fn list_books(files: &[BookFile], titles: &[Option<String>], pdfs: &[String]) -> (r: Vec<BookStatus>)
    ensures
        r@.map_values(|b: BookStatus| book_status_view(b)) == list_books_spec(
            book_file_views(files@),
            title_views(titles@),
            string_views(pdfs@),
        ),
        forall|k: int|
            0 <= k < r@.len() ==> (#[trigger] r@[k]).has_pdf == exists|i: int|
                0 <= i < pdfs@.len() && file_stem(pdfs@[i]@) is Some && #[trigger] eq_ignore_ascii_case(
                    file_stem(pdfs@[i]@)->0,
                    r@[k].name@,
                ),
{
    let n = if files.len() < titles.len() { files.len() } else { titles.len() };
    let mut out: Vec<BookStatus> = Vec::new();
    let mut k: usize = 0;
    while k < n
        invariant
            k <= n,
            n <= files@.len(),
            n <= titles@.len(),
            n == files@.len() || n == titles@.len(),
            out@.len() == k,
            forall|i: int| 0 <= i < k ==> book_status_view(#[trigger] out@[i]) == list_books_spec(
                book_file_views(files@),
                title_views(titles@),
                string_views(pdfs@),
            )[i],
        decreases n - k,
    {
        let name_chars = chars_of(files[k].name.as_str());
        let has_pdf = find_by_stem(pdfs, name_chars.as_slice()).is_some();
        let st = BookStatus { name: files[k].name.clone(), title: clone_title(&titles[k]), has_pdf };
        out.push(st);
        k = k + 1;
    }
    assert(out@.map_values(|b: BookStatus| book_status_view(b)) =~= list_books_spec(
        book_file_views(files@),
        title_views(titles@),
        string_views(pdfs@),
    ));
    proof {
        let pv = string_views(pdfs@);
        assert forall|k: int| 0 <= k < out@.len() implies (#[trigger] out@[k]).has_pdf == exists|i: int|
            0 <= i < pdfs@.len() && file_stem(pdfs@[i]@) is Some && #[trigger] eq_ignore_ascii_case(
                file_stem(pdfs@[i]@)->0,
                out@[k].name@,
            ) by {
            let fv = book_file_views(files@);
            law_installed_ignores_case(fv, title_views(titles@), pv, k);
            assert(book_status_view(out@[k]) == list_books_spec(fv, title_views(titles@), pv)[k]);
            let name = fv[k].1;
            assert(out@[k].name@ == name);
            if out@[k].has_pdf {
                let i = choose|i: int|
                    0 <= i < pv.len() && file_stem(pv[i]) is Some && #[trigger] eq_ignore_ascii_case(
                        file_stem(pv[i])->0,
                        name,
                    );
                assert(pv[i] == pdfs@[i]@);
            }
            if exists|i: int|
                0 <= i < pdfs@.len() && file_stem(pdfs@[i]@) is Some && #[trigger] eq_ignore_ascii_case(
                    file_stem(pdfs@[i]@)->0,
                    out@[k].name@,
                ) {
                let i = choose|i: int|
                    0 <= i < pdfs@.len() && file_stem(pdfs@[i]@) is Some && #[trigger] eq_ignore_ascii_case(
                        file_stem(pdfs@[i]@)->0,
                        out@[k].name@,
                    );
                assert(pv[i] == pdfs@[i]@);
                assert(eq_ignore_ascii_case(file_stem(pv[i])->0, name));
            }
        }
    }
    out
}


// ---------------------------------------------------------------------------
// Searching
// ---------------------------------------------------------------------------

/// What a query searches for: the query trimmed and lower-cased.
pub open spec fn needle_of(query: Seq<char>) -> Seq<char> {
    unicode_lower(trim(query))
}

/// The songs' titles, lower-cased.
pub open spec fn title_lowers(songs: Seq<Song>) -> Seq<Seq<char>> {
    songs.map_values(|s: Song| unicode_lower(s.title@))
}

/// Song `i`'s lower-cased title (`lows[i]`) contains the needle.
pub open spec fn is_hit(lows: Seq<Seq<char>>, needle: Seq<char>, i: int) -> bool {
    contains(lows[i], needle)
}

/// Search order: by lower-cased title (`lows`), then by book, then by
/// position in the library (the sort is stable).
pub open spec fn song_before(lows: Seq<Seq<char>>, songs: Seq<Song>, i: int, j: int) -> bool {
    let ti = lows[i];
    let tj = lows[j];
    ||| lex_lt(ti, tj)
    ||| ti == tj && lex_lt(songs[i].book@, songs[j].book@)
    ||| ti == tj && songs[i].book@ == songs[j].book@ && i < j
}

/// `full` lists every hit exactly once, in search order.
pub open spec fn hits_in_order(lows: Seq<Seq<char>>, songs: Seq<Song>, needle: Seq<char>, full: Seq<int>) -> bool {
    &&& forall|k: int| 0 <= k < full.len() ==> 0 <= #[trigger] full[k] < songs.len()
    &&& forall|k: int, l: int| 0 <= k < l < full.len() ==> song_before(lows, songs, #[trigger] full[k], #[trigger] full[l])
    &&& forall|i: int| 0 <= i < songs.len() ==> (is_hit(lows, needle, i) <==> #[trigger] full.contains(i))
}

pub proof fn lemma_song_before_irreflexive(lows: Seq<Seq<char>>, songs: Seq<Song>, i: int)
    ensures
        !song_before(lows, songs, i, i),
{
    lemma_lex_irreflexive(lows[i]);
    lemma_lex_irreflexive(songs[i].book@);
}

pub proof fn lemma_song_before_transitive(lows: Seq<Seq<char>>, songs: Seq<Song>, i: int, j: int, k: int)
    requires
        song_before(lows, songs, i, j),
        song_before(lows, songs, j, k),
    ensures
        song_before(lows, songs, i, k),
{
    let ti = lows[i];
    let tj = lows[j];
    let tk = lows[k];
    if lex_lt(ti, tj) && lex_lt(tj, tk) {
        lemma_lex_transitive(ti, tj, tk);
    } else if lex_lt(songs[i].book@, songs[j].book@) && lex_lt(songs[j].book@, songs[k].book@) {
        lemma_lex_transitive(songs[i].book@, songs[j].book@, songs[k].book@);
    }
}

pub proof fn lemma_song_before_total(lows: Seq<Seq<char>>, songs: Seq<Song>, i: int, j: int)
    requires
        i != j,
    ensures
        song_before(lows, songs, i, j) || song_before(lows, songs, j, i),
{
    lemma_lex_total(lows[i], lows[j]);
    lemma_lex_total(songs[i].book@, songs[j].book@);
}

/// Two listings of the same positions, each sorted in search order, are the
/// same listing.
proof fn lemma_sorted_listing_unique(lows: Seq<Seq<char>>, songs: Seq<Song>, a: Seq<int>, b: Seq<int>)
    requires
        forall|k: int, l: int| 0 <= k < l < a.len() ==> song_before(lows, songs, #[trigger] a[k], #[trigger] a[l]),
        forall|k: int, l: int| 0 <= k < l < b.len() ==> song_before(lows, songs, #[trigger] b[k], #[trigger] b[l]),
        forall|x: int| a.contains(x) <==> b.contains(x),
    ensures
        a == b,
    decreases a.len(),
{
    if a.len() == 0 {
        if b.len() > 0 {
            assert(b.contains(b[0]));
        }
        assert(a =~= b);
    } else {
        assert(a.contains(a[0]));
        assert(b.len() > 0);
        assert(b.contains(b[0]));
        if a[0] != b[0] {
            let p = choose|p: int| 0 <= p < b.len() && b[p] == a[0];
            let q = choose|q: int| 0 <= q < a.len() && a[q] == b[0];
            assert(p > 0 && q > 0);
            assert(song_before(lows, songs, a[0], a[q]));
            assert(song_before(lows, songs, b[0], b[p]));
            lemma_song_before_transitive(lows, songs, a[0], b[0], a[0]);
            lemma_song_before_irreflexive(lows, songs, a[0]);
        }
        let a2 = a.drop_first();
        let b2 = b.drop_first();
        assert forall|x: int| a2.contains(x) <==> b2.contains(x) by {
            if a2.contains(x) {
                let i = choose|i: int| 0 <= i < a2.len() && a2[i] == x;
                assert(a[i + 1] == x);
                assert(song_before(lows, songs, a[0], a[i + 1]));
                lemma_song_before_irreflexive(lows, songs, x);
                assert(a.contains(x));
                let j = choose|j: int| 0 <= j < b.len() && b[j] == x;
                assert(j != 0);
                assert(b2[j - 1] == x);
            }
            if b2.contains(x) {
                let i = choose|i: int| 0 <= i < b2.len() && b2[i] == x;
                assert(b[i + 1] == x);
                assert(song_before(lows, songs, b[0], b[i + 1]));
                lemma_song_before_irreflexive(lows, songs, x);
                assert(b.contains(x));
                let j = choose|j: int| 0 <= j < a.len() && a[j] == x;
                assert(j != 0);
                assert(a2[j - 1] == x);
            }
        }
        assert forall|k: int, l: int| 0 <= k < l < a2.len() implies song_before(lows, songs, #[trigger] a2[k], #[trigger] a2[l]) by {
            assert(a2[k] == a[k + 1] && a2[l] == a[l + 1]);
        }
        assert forall|k: int, l: int| 0 <= k < l < b2.len() implies song_before(lows, songs, #[trigger] b2[k], #[trigger] b2[l]) by {
            assert(b2[k] == b[k + 1] && b2[l] == b[l + 1]);
        }
        lemma_sorted_listing_unique(lows, songs, a2, b2);
        assert(a =~= b) by {
            assert forall|t: int| 0 <= t < a.len() implies a[t] == b[t] by {
                if t > 0 {
                    assert(a[t] == a2[t - 1] && b[t] == b2[t - 1]);
                }
            }
        }
    }
}

/// The hits of a search have exactly one order: the listing behind a search
/// result is determined by the library and the query, so the result is too.
pub proof fn law_search_order_unique(lows: Seq<Seq<char>>, songs: Seq<Song>, needle: Seq<char>, f1: Seq<int>, f2: Seq<int>)
    requires
        hits_in_order(lows, songs, needle, f1),
        hits_in_order(lows, songs, needle, f2),
    ensures
        f1 == f2,
{
    assert forall|x: int| f1.contains(x) <==> f2.contains(x) by {
        if f1.contains(x) {
            let i = choose|i: int| 0 <= i < f1.len() && f1[i] == x;
            assert(0 <= f1[i] < songs.len());
        }
        if f2.contains(x) {
            let i = choose|i: int| 0 <= i < f2.len() && f2[i] == x;
            assert(0 <= f2[i] < songs.len());
        }
    }
    lemma_sorted_listing_unique(lows, songs, f1, f2);
}

fn song_before_exec(
    songs: &[Song],
    lowers: &Vec<Vec<char>>,
    Ghost(lows_v): Ghost<Seq<Seq<char>>>,
    i: usize,
    j: usize,
) -> (b: bool)
    requires
        i < songs@.len(),
        j < songs@.len(),
        lowers@.len() == songs@.len(),
        forall|k: int| 0 <= k < songs@.len() ==> (#[trigger] lowers@[k])@ == lows_v[k],
    ensures
        b == song_before(lows_v, songs@, i as int, j as int),
{
    let ti = lowers[i].as_slice();
    let tj = lowers[j].as_slice();
    if chars_lt(ti, tj) {
        return true;
    }
    if !chars_eq(ti, tj) {
        return false;
    }
    let bi = chars_of(songs[i].book.as_str());
    let bj = chars_of(songs[j].book.as_str());
    if chars_lt(bi.as_slice(), bj.as_slice()) {
        return true;
    }
    chars_eq(bi.as_slice(), bj.as_slice()) && i < j
}

/// Search `songs` for titles containing `query` (trimmed, case-insensitive
/// substring), returning at most `limit`, ordered by title (ignoring case),
/// then book, then library order.
pub fn search<'a>(songs: &'a [Song], query: &str, limit: usize) -> (r: Vec<&'a Song>)
    ensures
        exists|full: Seq<int>|
            #[trigger] hits_in_order(title_lowers(songs@), songs@, needle_of(query@), full) && r@.len() == (if limit < full.len() { limit as int } else { full.len() as int })
                && forall|k: int| 0 <= k < r@.len() ==> *(#[trigger] r@[k]) == songs@[full[k]],
{
    let q = chars_of(query);
    let qt = trim_chars(q.as_slice());
    let qs = string_of(qt.as_slice());
    let needle = str_to_lowercase(qs.as_str());
    let mut lows: Vec<String> = Vec::new();
    let mut i: usize = 0;
    while i < songs.len()
        invariant
            i <= songs@.len(),
            lows@.len() == i,
            forall|k: int| 0 <= k < i ==> (#[trigger] lows@[k])@ == unicode_lower(songs@[k].title@),
        decreases songs@.len() - i,
    {
        lows.push(str_to_lowercase(songs[i].title.as_str()));
        i = i + 1;
    }
    assert(string_views(lows@) =~= title_lowers(songs@));
    assert(needle@ == needle_of(query@));
    let r = search_lowered(songs, lows.as_slice(), needle.as_str(), limit);
    proof {
        let full = choose|full: Seq<int>|
            #[trigger] hits_in_order(string_views(lows@), songs@, needle@, full) && r@.len() == (if limit < full.len() { limit as int } else { full.len() as int })
                && forall|k: int| 0 <= k < r@.len() ==> *(#[trigger] r@[k]) == songs@[full[k]];
        assert(hits_in_order(title_lowers(songs@), songs@, needle_of(query@), full));
    }
    r
}

/// The search, given each song's lower-cased title (`lows[i]` for
/// `songs[i]`) and the lower-cased needle: the songs whose lower-cased title
/// contains `needle`, at most `limit`, in search order.
pub fn search_lowered<'a>(songs: &'a [Song], lows: &[String], needle: &str, limit: usize) -> (r: Vec<&'a Song>)
    requires
        lows@.len() == songs@.len(),
    ensures
        exists|full: Seq<int>|
            #[trigger] hits_in_order(string_views(lows@), songs@, needle@, full) && r@.len() == (if limit < full.len() { limit as int } else { full.len() as int })
                && forall|k: int| 0 <= k < r@.len() ==> *(#[trigger] r@[k]) == songs@[full[k]],
{
    let ghost lows_v = string_views(lows@);
    let needle = chars_of(needle);
    let ghost nd = needle@;
    let mut lowers: Vec<Vec<char>> = Vec::new();
    let mut i: usize = 0;
    while i < songs.len()
        invariant
            i <= songs@.len(),
            lows@.len() == songs@.len(),
            lows_v == string_views(lows@),
            lowers@.len() == i,
            forall|k: int| 0 <= k < i ==> (#[trigger] lowers@[k])@ == lows_v[k],
        decreases songs@.len() - i,
    {
        lowers.push(chars_of(lows[i].as_str()));
        i = i + 1;
    }

    // Insertion sort of the hits, in library order, into search order.
    let mut order: Vec<usize> = Vec::new();
    let ghost mut og: Seq<int> = seq![];
    assert(og =~= order@.map_values(|x: usize| x as int));
    let mut h: usize = 0;
    while h < songs.len()
        invariant
            h <= songs@.len(),
            needle@ == nd,
            lowers@.len() == songs@.len(),
            forall|k: int| 0 <= k < songs@.len() ==> (#[trigger] lowers@[k])@ == lows_v[k],
            forall|k: int| 0 <= k < order@.len() ==> #[trigger] order@[k] < h,
            forall|k: int, l: int| 0 <= k < l < order@.len() ==> song_before(lows_v, songs@, #[trigger] order@[k] as int, #[trigger] order@[l] as int),
            og == order@.map_values(|x: usize| x as int),
            forall|i: int| 0 <= i < h ==> (is_hit(lows_v, nd, i) <==> #[trigger] og.contains(i)),
        decreases songs@.len() - h,
    {
        let ghost ov = og;
        if chars_contains(lowers[h].as_slice(), needle.as_slice()) {
            let mut pos: usize = 0;
            while pos < order.len() && song_before_exec(songs, &lowers, Ghost(lows_v), order[pos], h)
                invariant
                    pos <= order@.len(),
                    h < songs@.len(),
                    lowers@.len() == songs@.len(),
                    forall|k: int| 0 <= k < songs@.len() ==> (#[trigger] lowers@[k])@ == lows_v[k],
                    forall|k: int| 0 <= k < order@.len() ==> #[trigger] order@[k] < h,
                    forall|k: int| 0 <= k < pos ==> song_before(lows_v, songs@, #[trigger] order@[k] as int, h as int),
                decreases order@.len() - pos,
            {
                pos = pos + 1;
            }
            proof {
                if pos < order@.len() {
                    lemma_song_before_total(lows_v, songs@, order@[pos as int] as int, h as int);
                    assert(song_before(lows_v, songs@, h as int, order@[pos as int] as int));
                    assert forall|l: int| pos <= l < order@.len() implies song_before(lows_v, songs@, h as int, #[trigger] order@[l] as int) by {
                        if l > pos {
                            lemma_song_before_transitive(lows_v, songs@, h as int, order@[pos as int] as int, order@[l] as int);
                        }
                    }
                }
            }
            let ghost old_order = order@;
            order.insert(pos, h);
            proof {
                assert(order@ =~= old_order.insert(pos as int, h));
                assert forall|k: int, l: int| 0 <= k < l < order@.len() implies song_before(lows_v, songs@, #[trigger] order@[k] as int, #[trigger] order@[l] as int) by {
                    if l < pos {
                        assert(order@[k] == old_order[k] && order@[l] == old_order[l]);
                    } else if l == pos {
                        assert(order@[k] == old_order[k]);
                    } else if k == pos {
                        assert(order@[l] == old_order[l - 1]);
                    } else if k < pos {
                        assert(order@[k] == old_order[k] && order@[l] == old_order[l - 1]);
                        lemma_song_before_transitive(lows_v, songs@, old_order[k] as int, h as int, old_order[l - 1] as int);
                    } else {
                        assert(order@[k] == old_order[k - 1] && order@[l] == old_order[l - 1]);
                    }
                }
                let nv = order@.map_values(|x: usize| x as int);
                assert(nv =~= ov.insert(pos as int, h as int));
                assert forall|i: int| 0 <= i < h + 1 implies (is_hit(lows_v, nd, i) <==> #[trigger] nv.contains(i)) by {
                    if i < h {
                        if ov.contains(i) {
                            let k = choose|k: int| 0 <= k < ov.len() && ov[k] == i;
                            if k < pos {
                                assert(nv[k] == i);
                            } else {
                                assert(nv[k + 1] == i);
                            }
                        }
                        if nv.contains(i) {
                            let k = choose|k: int| 0 <= k < nv.len() && nv[k] == i;
                            if k < pos {
                                assert(ov[k] == i);
                            } else if k == pos {
                                assert(false);
                            } else {
                                assert(ov[k - 1] == i);
                            }
                        }
                    } else {
                        assert(nv[pos as int] == h);
                    }
                }
                og = nv;
            }
        } else {
            proof {
                assert forall|i: int| 0 <= i < h + 1 implies (is_hit(lows_v, nd, i) <==> #[trigger] ov.contains(i)) by {
                    if i == h {
                        if ov.contains(i) {
                            let k = choose|k: int| 0 <= k < ov.len() && ov[k] == i;
                            assert(order@[k] < h);
                        }
                    }
                }
            }
        }
        h = h + 1;
    }

    let n = if limit < order.len() { limit } else { order.len() };
    let mut out: Vec<&'a Song> = Vec::new();
    let mut k: usize = 0;
    while k < n
        invariant
            k <= n,
            n <= order@.len(),
            forall|j: int| 0 <= j < order@.len() ==> #[trigger] order@[j] < songs@.len(),
            out@.len() == k,
            forall|j: int| 0 <= j < k ==> *(#[trigger] out@[j]) == songs@[order@[j] as int],
        decreases n - k,
    {
        out.push(&songs[order[k]]);
        k = k + 1;
    }
    proof {
        let full = og;
        assert(hits_in_order(lows_v, songs@, nd, full));
    }
    out
}

} // verus!
