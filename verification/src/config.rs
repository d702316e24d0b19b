//! Per-book configuration: maps the book codes used in `MasterIndex.PDF` to the
//! actual PDF file and the page offset needed to open it at the right place.
//!
//! Stored as `books.toml` in the data directory. Reading and writing the file
//! is the caller's part; the table kept here behaves as a map ordered by code.

use vstd::prelude::*;

use crate::order::{chars_lt, lemma_lex_asymmetric, lemma_lex_irreflexive, lemma_lex_total, lemma_lex_transitive, lex_lt};
use crate::storage::{data_dir, path_join, resolved, slot_view};
use crate::text::{chars_eq, chars_eq_ignore_ascii_case, chars_of, eq_ignore_ascii_case};

verus! {

/// One book: its PDF and where its printed page 1 sits.
#[derive(Debug)]
pub struct BookConfig {
    /// PDF file name inside the `pdfs/` folder.
    pub file: String,
    /// The viewer page number that displays the book's *printed* page 1.
    /// Defaults to 1 (printed numbering matches viewer numbering).
    pub first_page: i32,
}

pub open spec fn book_view(b: BookConfig) -> (Seq<char>, i32) {
    (b.file@, b.first_page)
}

/// The `first_page` of a book whose entry leaves it out.
pub fn default_first_page() -> (r: i32)
    ensures
        r == 1,
{
    1
}

/// A configuration entry as the contracts see it: code, then (file, first page).
pub type EntryView = (Seq<char>, (Seq<char>, i32));

/// Every code sorts strictly before the next one.
pub open spec fn keys_increasing(e: Seq<EntryView>) -> bool {
    forall|i: int, j: int| 0 <= i < j < e.len() ==> lex_lt(#[trigger] e[i].0, #[trigger] e[j].0)
}

/// How many leading entries have a code before `k`: where `k` belongs.
pub open spec fn lower_bound(e: Seq<EntryView>, k: Seq<char>) -> nat
    decreases e.len(),
{
    if e.len() == 0 {
        0
    } else if lex_lt(e[0].0, k) {
        1 + lower_bound(e.drop_first(), k)
    } else {
        0
    }
}

/// `BTreeMap::insert` on the ordered entries: a present code gets the new
/// value, an absent one is inserted where it sorts.
pub open spec fn insert_entry(e: Seq<EntryView>, k: Seq<char>, v: (Seq<char>, i32)) -> Seq<EntryView> {
    let p = lower_bound(e, k) as int;
    if p < e.len() && e[p].0 == k {
        e.update(p, (k, v))
    } else {
        e.insert(p, (k, v))
    }
}

/// The entries after inserting `items` one after the other.
pub open spec fn insert_all(e: Seq<EntryView>, items: Seq<EntryView>) -> Seq<EntryView>
    decreases items.len(),
{
    if items.len() == 0 {
        e
    } else {
        insert_all(insert_entry(e, items[0].0, items[0].1), items.drop_first())
    }
}

/// The codes of the entries, in order.
pub open spec fn entry_codes(e: Seq<EntryView>) -> Seq<Seq<char>> {
    e.map_values(|x: EntryView| x.0)
}

/// Index of the first entry whose code equals `code` ignoring ASCII case.
pub open spec fn is_first_ci(e: Seq<EntryView>, code: Seq<char>, i: int) -> bool {
    &&& 0 <= i < e.len()
    &&& eq_ignore_ascii_case(e[i].0, code)
    &&& forall|j: int| 0 <= j < i ==> !eq_ignore_ascii_case(#[trigger] e[j].0, code)
}

pub proof fn lemma_lower_bound(e: Seq<EntryView>, k: Seq<char>)
    ensures
        lower_bound(e, k) <= e.len(),
        forall|j: int| 0 <= j < lower_bound(e, k) ==> lex_lt(#[trigger] e[j].0, k),
        lower_bound(e, k) < e.len() ==> !lex_lt(e[lower_bound(e, k) as int].0, k),
    decreases e.len(),
{
    if e.len() > 0 && lex_lt(e[0].0, k) {
        lemma_lower_bound(e.drop_first(), k);
        assert forall|j: int| 0 <= j < lower_bound(e, k) implies lex_lt(#[trigger] e[j].0, k) by {
            if j > 0 {
                assert(e[j] == e.drop_first()[j - 1]);
            }
        }
    }
}

pub proof fn lemma_lower_bound_at(e: Seq<EntryView>, k: Seq<char>, i: int)
    requires
        0 <= i <= e.len(),
        forall|j: int| 0 <= j < i ==> lex_lt(#[trigger] e[j].0, k),
        i < e.len() ==> !lex_lt(e[i].0, k),
    ensures
        lower_bound(e, k) == i,
    decreases i,
{
    if i > 0 {
        assert(lex_lt(e[0].0, k));
        assert forall|j: int| 0 <= j < i - 1 implies lex_lt(#[trigger] e.drop_first()[j].0, k) by {
            assert(e.drop_first()[j] == e[j + 1]);
        }
        lemma_lower_bound_at(e.drop_first(), k, i - 1);
    }
}

/// Inserting keeps the codes strictly increasing.
pub proof fn lemma_insert_keeps_order(e: Seq<EntryView>, k: Seq<char>, v: (Seq<char>, i32))
    requires
        keys_increasing(e),
    ensures
        keys_increasing(insert_entry(e, k, v)),
{
    lemma_lower_bound(e, k);
    let p = lower_bound(e, k) as int;
    let n = insert_entry(e, k, v);
    if p < e.len() && e[p].0 == k {
        assert forall|i: int, j: int| 0 <= i < j < n.len() implies lex_lt(#[trigger] n[i].0, #[trigger] n[j].0) by {
            assert(n[i].0 == e[i].0);
            assert(n[j].0 == e[j].0);
        }
    } else {
        if p < e.len() {
            lemma_lex_total(e[p].0, k);
        }
        assert forall|m: int| p <= m < e.len() implies lex_lt(k, #[trigger] e[m].0) by {
            if m > p {
                assert(lex_lt(e[p].0, e[m].0));
                lemma_lex_transitive(k, e[p].0, e[m].0);
            }
        }
        assert forall|i: int, j: int| 0 <= i < j < n.len() implies lex_lt(#[trigger] n[i].0, #[trigger] n[j].0) by {
            if j < p {
                assert(n[i] == e[i] && n[j] == e[j]);
            } else if j == p {
                assert(n[i] == e[i]);
            } else if i < p {
                assert(n[i] == e[i] && n[j] == e[j - 1]);
                assert(lex_lt(e[i].0, e[j - 1].0));
            } else if i == p {
                assert(n[j] == e[j - 1]);
            } else {
                assert(n[i] == e[i - 1] && n[j] == e[j - 1]);
            }
        }
    }
}

/// All book configurations, keyed by book code and ordered by it.
#[derive(Debug)]
pub struct BooksConfig {
    books: Vec<(String, BookConfig)>,
}

impl BooksConfig {
    /// The entries, in code order.
    pub closed spec fn entries(&self) -> Seq<EntryView> {
        self.books@.map_values(|p: (String, BookConfig)| (p.0@, book_view(p.1)))
    }

    #[verifier::type_invariant]
    spec fn codes_increasing(self) -> bool {
        keys_increasing(self.entries())
    }

    /// A configuration built from `items` as a `BTreeMap` collects them: a
    /// later entry for a code replaces an earlier one.
    pub fn from_entries(items: Vec<(String, BookConfig)>) -> (r: Self)
        ensures
            r.entries() == insert_all(
                Seq::empty(),
                items@.map_values(|p: (String, BookConfig)| (p.0@, book_view(p.1))),
            ),
    {
        let ghost all = items@.map_values(|p: (String, BookConfig)| (p.0@, book_view(p.1)));
        let mut rest = items;
        let mut r = BooksConfig { books: Vec::new() };
        assert(r.entries() =~= Seq::<EntryView>::empty());
        while rest.len() > 0
            invariant
                insert_all(r.entries(), rest@.map_values(|p: (String, BookConfig)| (p.0@, book_view(p.1))))
                    == insert_all(Seq::empty(), all),
            decreases rest.len(),
        {
            let ghost before = rest@.map_values(|p: (String, BookConfig)| (p.0@, book_view(p.1)));
            let (code, book) = rest.remove(0);
            proof {
                let after = rest@.map_values(|p: (String, BookConfig)| (p.0@, book_view(p.1)));
                assert(after =~= before.drop_first());
            }
            r.insert(code, book);
        }
        proof {
            assert(rest@.map_values(|p: (String, BookConfig)| (p.0@, book_view(p.1))) =~= Seq::<EntryView>::empty());
        }
        r
    }

    /// Set the configuration of `code`, as `BTreeMap::insert` does.
    pub fn insert(&mut self, code: String, book: BookConfig)
        ensures
            final(self).entries() == insert_entry(old(self).entries(), code@, book_view(book)),
    {
        proof {
            use_type_invariant(&*self);
        }
        let ghost e = self.entries();
        let mut books: Vec<(String, BookConfig)> = Vec::new();
        std::mem::swap(&mut books, &mut self.books);
        assert(books@.map_values(|p: (String, BookConfig)| (p.0@, book_view(p.1))) == e);
        let kc = chars_of(code.as_str());
        let mut i: usize = 0;
        let mut done = false;
        while !done && i < books.len()
            invariant
                books@.map_values(|p: (String, BookConfig)| (p.0@, book_view(p.1))) == e,
                kc@ == code@,
                i <= e.len(),
                forall|j: int| 0 <= j < i ==> lex_lt(#[trigger] e[j].0, code@),
                done ==> i < e.len() && !lex_lt(e[i as int].0, code@),
            decreases e.len() - i + (if done { 0int } else { 1int }),
        {
            let ki = chars_of(books[i].0.as_str());
            assert(ki@ == e[i as int].0);
            if chars_lt(ki.as_slice(), kc.as_slice()) {
                i = i + 1;
            } else {
                done = true;
            }
        }
        proof {
            lemma_lower_bound_at(e, code@, i as int);
            lemma_insert_keeps_order(e, code@, book_view(book));
        }
        let ghost entry = (code@, book_view(book));
        let same = if i < books.len() {
            let ki = chars_of(books[i].0.as_str());
            assert(ki@ == e[i as int].0);
            chars_eq(ki.as_slice(), kc.as_slice())
        } else {
            false
        };
        if same {
            books.set(i, (code, book));
            assert(books@.map_values(|p: (String, BookConfig)| (p.0@, book_view(p.1))) =~= e.update(i as int, entry));
        } else {
            books.insert(i, (code, book));
            assert(books@.map_values(|p: (String, BookConfig)| (p.0@, book_view(p.1))) =~= e.insert(i as int, entry));
        }
        self.books = books;
    }

    /// Known book codes, in order (used by the master-index parser to
    /// recognize entries). They are strictly increasing, so none repeats.
    pub fn codes(&self) -> (r: Vec<String>)
        ensures
            r@.map_values(|s: String| s@) == entry_codes(self.entries()),
            keys_increasing(self.entries()),
    {
        proof {
            use_type_invariant(self);
        }
        let mut r: Vec<String> = Vec::new();
        let mut i: usize = 0;
        assert(r@.map_values(|s: String| s@) =~= entry_codes(self.entries()).take(0));
        while i < self.books.len()
            invariant
                i <= self.books@.len(),
                self.entries().len() == self.books@.len(),
                entry_codes(self.entries()).len() == self.books@.len(),
                r@.map_values(|s: String| s@) == entry_codes(self.entries()).take(i as int),
            decreases self.books@.len() - i,
        {
            let k = self.books[i].0.clone();
            assert(k@ == self.entries()[i as int].0);
            let ghost prev = r@;
            r.push(k);
            proof {
                let want = entry_codes(self.entries()).take(i + 1);
                let got = r@.map_values(|s: String| s@);
                assert(r@ == prev.push(k));
                assert(prev.map_values(|s: String| s@).len() == prev.len());
                assert(prev.len() == i);
                assert(got.len() == i + 1);
                assert(want.len() == i + 1);
                assert forall|j: int| 0 <= j < got.len() implies got[j] == want[j] by {
                    if j < i {
                        assert(got[j] == prev.map_values(|s: String| s@)[j]);
                    }
                }
                assert(got =~= want);
            }
            i = i + 1;
        }
        assert(entry_codes(self.entries()).take(i as int) =~= entry_codes(self.entries()));
        r
    }

    /// Look up a book by code, case-insensitively: the first code in order
    /// that equals `code` ignoring ASCII case.
    pub fn get(&self, code: &str) -> (r: Option<&BookConfig>)
        ensures
            match r {
                Some(b) => exists|i: int| #[trigger] is_first_ci(self.entries(), code@, i)
                    && self.entries()[i].1 == book_view(*b),
                None => forall|i: int| 0 <= i < self.entries().len()
                    ==> !eq_ignore_ascii_case(#[trigger] self.entries()[i].0, code@),
            },
    {
        let c = chars_of(code);
        let ghost e = self.entries();
        let mut i: usize = 0;
        while i < self.books.len()
            invariant
                e == self.entries(),
                c@ == code@,
                i <= e.len(),
                e.len() == self.books@.len(),
                forall|j: int| 0 <= j < i ==> !eq_ignore_ascii_case(#[trigger] e[j].0, code@),
            decreases e.len() - i,
        {
            let ki = chars_of(self.books[i].0.as_str());
            assert(ki@ == e[i as int].0);
            if chars_eq_ignore_ascii_case(ki.as_slice(), c.as_slice()) {
                assert(is_first_ci(e, code@, i as int));
                return Some(&self.books[i].1);
            }
            i = i + 1;
        }
        None
    }
}

impl Default for BooksConfig {
    fn default() -> (r: Self)
        ensures
            r.entries() == Seq::<EntryView>::empty(),
    {
        let r = BooksConfig { books: Vec::new() };
        assert(r.entries() =~= Seq::<EntryView>::empty());
        r
    }
}

/// Where `books.toml` lives: in the data-dir root.
pub fn config_path(slot: &mut Option<String>) -> (r: String)
    ensures
        slot_view(*final(slot)) matches Some(d) && r@ == path_join(d, "books.toml"@),
        exists|system: Option<Seq<char>>| slot_view(*final(slot)) == Some(#[trigger] resolved(slot_view(*old(slot)), system)),
{
    let d = data_dir(slot);
    crate::storage::join(d.as_str(), "books.toml")
}

} // verus!
