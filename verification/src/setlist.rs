//! User-created setlists: named, ordered collections of songs.
//!
//! A setlist song is stored by **book stem + page + title**, never an absolute
//! path: the concrete PDF is resolved at play time, exactly like the library
//! loader does. Reading and writing the JSON file is the caller's part; the
//! edits the setlist editor makes are here.

use vstd::prelude::*;

use crate::db::{first_match, string_views, Song};
use crate::text::{chars_of, string_of, trim, trim_chars};

verus! {

/// One song in a setlist. `book` is the PDF file stem; `page` is the 0-based
/// render page (same convention as `db::Song`).
#[derive(Clone, Debug)]
pub struct SetlistSong {
    pub title: String,
    pub book: String,
    pub page: i32,
}

/// A named, ordered list of songs.
#[derive(Clone, Debug)]
pub struct Setlist {
    pub name: String,
    pub songs: Vec<SetlistSong>,
}

pub type SongItem = (Seq<char>, Seq<char>, i32);

pub type ListView = (Seq<char>, Seq<SongItem>);

pub open spec fn song_item(s: SetlistSong) -> SongItem {
    (s.title@, s.book@, s.page)
}

pub open spec fn songs_view(v: Seq<SetlistSong>) -> Seq<SongItem> {
    v.map_values(|s: SetlistSong| song_item(s))
}

pub open spec fn setlist_view(s: Setlist) -> ListView {
    (s.name@, songs_view(s.songs@))
}

pub open spec fn lists_view(v: Seq<Setlist>) -> Seq<ListView> {
    v.map_values(|s: Setlist| setlist_view(s))
}

/// `s` with the items at `i - 1` and `i` swapped; unchanged at the start or
/// out of range.
pub open spec fn moved_up<A>(s: Seq<A>, i: int) -> Seq<A> {
    if 0 < i < s.len() {
        s.update(i - 1, s[i]).update(i, s[i - 1])
    } else {
        s
    }
}

/// `s` with the items at `i` and `i + 1` swapped; unchanged at the end or
/// out of range.
pub open spec fn moved_down<A>(s: Seq<A>, i: int) -> Seq<A> {
    if 0 <= i && i + 1 < s.len() {
        s.update(i, s[i + 1]).update(i + 1, s[i])
    } else {
        s
    }
}

/// Swap the items at `i - 1` and `i` of a vector (`i - 1 < i < len`).
fn swap_with_previous<A>(v: &mut Vec<A>, i: usize)
    requires
        0 < i < old(v)@.len(),
    ensures
        final(v)@ == old(v)@.update(i - 1, old(v)@[i as int]).update(i as int, old(v)@[i - 1]),
{
    let x = v.remove(i);
    v.insert(i - 1, x);
    assert(v@ =~= old(v)@.update(i - 1, old(v)@[i as int]).update(i as int, old(v)@[i - 1]));
}

/// Move the song at `i` one position earlier (no-op at the start or out of range).
pub fn move_up(songs: &mut Vec<SetlistSong>, i: usize)
    ensures
        final(songs)@ == moved_up(old(songs)@, i as int),
{
    if i > 0 && i < songs.len() {
        swap_with_previous(songs, i);
    }
}

/// Move the song at `i` one position later (no-op at the end or out of range).
pub fn move_down(songs: &mut Vec<SetlistSong>, i: usize)
    ensures
        final(songs)@ == moved_down(old(songs)@, i as int),
{
    if i < songs.len() && songs.len() - i > 1 {
        swap_with_previous(songs, i + 1);
        assert(songs@ =~= moved_down(old(songs)@, i as int));
    }
}

/// Moving an item up and then moving it back down restores the order, and
/// the other way round.
pub proof fn law_moves_undo<A>(s: Seq<A>, i: int)
    ensures
        0 < i < s.len() ==> moved_down(moved_up(s, i), i - 1) == s,
        0 <= i && i + 1 < s.len() ==> moved_up(moved_down(s, i), i + 1) == s,
{
    if 0 < i < s.len() {
        assert(moved_down(moved_up(s, i), i - 1) =~= s);
    }
    if 0 <= i && i + 1 < s.len() {
        assert(moved_up(moved_down(s, i), i + 1) =~= s);
    }
}

/// A move only reorders: the length stays and every item is still there.
pub proof fn law_moves_permute<A>(s: Seq<A>, i: int)
    ensures
        moved_up(s, i).len() == s.len(),
        moved_down(s, i).len() == s.len(),
        moved_up(s, i).to_multiset() == s.to_multiset(),
        moved_down(s, i).to_multiset() == s.to_multiset(),
{
    if 0 < i < s.len() {
        lemma_swap_multiset(s, i - 1, i);
    }
    if 0 <= i && i + 1 < s.len() {
        lemma_swap_multiset(s, i, i + 1);
    }
}

proof fn lemma_swap_multiset<A>(s: Seq<A>, a: int, b: int)
    requires
        0 <= a < b < s.len(),
    ensures
        s.update(a, s[b]).update(b, s[a]).to_multiset() == s.to_multiset(),
{
    broadcast use vstd::seq_lib::group_to_multiset_ensures;

    let t = s.update(a, s[b]);
    assert(t.to_multiset() == s.to_multiset().insert(s[b]).remove(s[a]));
    assert(t[b] == s[b]);
    assert(t.update(b, s[a]).to_multiset() == t.to_multiset().insert(s[a]).remove(s[b]));
    assert(s.to_multiset().count(s[a]) > 0) by {
        assert(s.contains(s[a]));
    }
    assert(s.to_multiset().insert(s[b]).remove(s[a]).insert(s[a]).remove(s[b]) =~= s.to_multiset());
}

// ---------------------------------------------------------------------------
// The setlist editor
// ---------------------------------------------------------------------------

/// `b` is `a` with only the setlist at `idx` replaced.
pub open spec fn same_except(a: Seq<ListView>, b: Seq<ListView>, idx: int) -> bool {
    &&& a.len() == b.len()
    &&& forall|j: int| 0 <= j < a.len() && j != idx ==> #[trigger] b[j] == a[j]
}

/// Take the setlist at `idx` out, so that it can be edited and put back.
fn take_list(lists: &mut Vec<Setlist>, idx: usize) -> (r: Setlist)
    requires
        idx < old(lists)@.len(),
    ensures
        r == old(lists)@[idx as int],
        final(lists)@ == old(lists)@.remove(idx as int),
{
    lists.remove(idx)
}

/// Put an edited setlist back at `idx`.
proof fn lemma_put_back(old_lists: Seq<Setlist>, mid: Seq<Setlist>, new_lists: Seq<Setlist>, idx: int, s: Setlist)
    requires
        0 <= idx < old_lists.len(),
        mid == old_lists.remove(idx),
        new_lists == mid.insert(idx, s),
    ensures
        same_except(lists_view(old_lists), lists_view(new_lists), idx),
        lists_view(new_lists)[idx] == setlist_view(s),
{
    assert(new_lists =~= old_lists.update(idx, s));
}

/// Create a setlist named by `name` trimmed, with no songs. A name that is
/// empty once trimmed creates nothing. Returns whether a setlist was created,
/// which is when the caller saves and refreshes.
pub fn create_setlist(lists: &mut Vec<Setlist>, name: &str) -> (acted: bool)
    ensures
        acted == (trim(name@).len() > 0),
        trim(name@).len() == 0 ==> lists_view(final(lists)@) == lists_view(old(lists)@),
        trim(name@).len() > 0 ==> lists_view(final(lists)@) == lists_view(old(lists)@).push(
            (trim(name@), Seq::<SongItem>::empty()),
        ),
{
    let t = trim_chars(chars_of(name).as_slice());
    if t.len() == 0 {
        return false;
    }
    let s = Setlist { name: string_of(t.as_slice()), songs: Vec::new() };
    lists.push(s);
    assert(songs_view(s.songs@) =~= Seq::<SongItem>::empty());
    assert(lists_view(lists@) =~= lists_view(old(lists)@).push((trim(name@), Seq::<SongItem>::empty())));
    true
}

/// Rename the setlist at `idx` to `name` trimmed. An empty name (once
/// trimmed) or an index out of range changes nothing. Returns whether the
/// name was accepted (not empty), which is when the caller saves and
/// refreshes, whatever the index.
pub fn rename_setlist(lists: &mut Vec<Setlist>, idx: usize, name: &str) -> (acted: bool)
    ensures
        acted == (trim(name@).len() > 0),
        trim(name@).len() == 0 || idx >= old(lists)@.len() ==> lists_view(final(lists)@) == lists_view(old(lists)@),
        trim(name@).len() > 0 && idx < old(lists)@.len() ==> same_except(lists_view(old(lists)@), lists_view(final(lists)@), idx as int)
            && lists_view(final(lists)@)[idx as int] == (trim(name@), lists_view(old(lists)@)[idx as int].1),
{
    let t = trim_chars(chars_of(name).as_slice());
    if t.len() == 0 {
        return false;
    }
    if idx >= lists.len() {
        return true;
    }
    let mut s = take_list(lists, idx);
    s.name = string_of(t.as_slice());
    let ghost mid = lists@;
    lists.insert(idx, s);
    proof {
        lemma_put_back(old(lists)@, mid, lists@, idx as int, s);
    }
    true
}

/// Delete the setlist at `idx`; out of range, nothing happens.
pub fn delete_setlist(lists: &mut Vec<Setlist>, idx: usize)
    ensures
        idx < old(lists)@.len() ==> lists_view(final(lists)@) == lists_view(old(lists)@).remove(idx as int),
        idx >= old(lists)@.len() ==> lists_view(final(lists)@) == lists_view(old(lists)@),
{
    if idx < lists.len() {
        let _ = lists.remove(idx);
        assert(lists_view(lists@) =~= lists_view(old(lists)@).remove(idx as int));
    }
}

/// Append `song` to the setlist being edited (`editing`); with none being
/// edited, or an index out of range, nothing happens.
/// Returns whether a setlist is being edited, which is when the caller saves
/// and refreshes (also when the index is out of range).
pub fn add_song_to_editing(lists: &mut Vec<Setlist>, editing: Option<usize>, song: &Song) -> (acted: bool)
    ensures
        acted == editing is Some,
        match editing {
            Some(i) if i < old(lists)@.len() => same_except(lists_view(old(lists)@), lists_view(final(lists)@), i as int)
                && lists_view(final(lists)@)[i as int] == (
                    lists_view(old(lists)@)[i as int].0,
                    lists_view(old(lists)@)[i as int].1.push((song.title@, song.book@, song.page)),
                ),
            _ => lists_view(final(lists)@) == lists_view(old(lists)@),
        },
{
    let i = match editing {
        Some(i) => i,
        None => return false,
    };
    if i >= lists.len() {
        return true;
    }
    let mut s = take_list(lists, i);
    let ghost before = s.songs@;
    s.songs.push(SetlistSong { title: song.title.clone(), book: song.book.clone(), page: song.page });
    assert(songs_view(s.songs@) =~= songs_view(before).push((song.title@, song.book@, song.page)));
    let ghost mid = lists@;
    lists.insert(i, s);
    proof {
        lemma_put_back(old(lists)@, mid, lists@, i as int, s);
    }
    true
}

/// Remove the song at `j` from the setlist being edited; out of range, or
/// with none being edited, nothing happens.
/// Returns whether a setlist is being edited, which is when the caller saves
/// and refreshes (also when the index is out of range).
pub fn remove_song_from_editing(lists: &mut Vec<Setlist>, editing: Option<usize>, j: usize) -> (acted: bool)
    ensures
        acted == editing is Some,
        match editing {
            Some(i) if i < old(lists)@.len() => same_except(lists_view(old(lists)@), lists_view(final(lists)@), i as int)
                && lists_view(final(lists)@)[i as int] == (
                    lists_view(old(lists)@)[i as int].0,
                    if j < lists_view(old(lists)@)[i as int].1.len() {
                        lists_view(old(lists)@)[i as int].1.remove(j as int)
                    } else {
                        lists_view(old(lists)@)[i as int].1
                    },
                ),
            _ => lists_view(final(lists)@) == lists_view(old(lists)@),
        },
{
    let i = match editing {
        Some(i) => i,
        None => return false,
    };
    if i >= lists.len() {
        return true;
    }
    let mut s = take_list(lists, i);
    let ghost before = s.songs@;
    if j < s.songs.len() {
        let _ = s.songs.remove(j);
        assert(songs_view(s.songs@) =~= songs_view(before).remove(j as int));
    }
    let ghost mid = lists@;
    lists.insert(i, s);
    proof {
        lemma_put_back(old(lists)@, mid, lists@, i as int, s);
    }
    true
}

/// Move the song at `j` of the setlist being edited one place earlier.
/// Returns whether a setlist is being edited, which is when the caller saves
/// and refreshes (also when the index is out of range).
pub fn move_song_up_in_editing(lists: &mut Vec<Setlist>, editing: Option<usize>, j: usize) -> (acted: bool)
    ensures
        acted == editing is Some,
        match editing {
            Some(i) if i < old(lists)@.len() => same_except(lists_view(old(lists)@), lists_view(final(lists)@), i as int)
                && lists_view(final(lists)@)[i as int] == (
                    lists_view(old(lists)@)[i as int].0,
                    moved_up(lists_view(old(lists)@)[i as int].1, j as int),
                ),
            _ => lists_view(final(lists)@) == lists_view(old(lists)@),
        },
{
    let i = match editing {
        Some(i) => i,
        None => return false,
    };
    if i >= lists.len() {
        return true;
    }
    let mut s = take_list(lists, i);
    let ghost before = s.songs@;
    move_up(&mut s.songs, j);
    assert(songs_view(s.songs@) =~= moved_up(songs_view(before), j as int));
    let ghost mid = lists@;
    lists.insert(i, s);
    proof {
        lemma_put_back(old(lists)@, mid, lists@, i as int, s);
    }
    true
}

/// Move the song at `j` of the setlist being edited one place later.
/// Returns whether a setlist is being edited, which is when the caller saves
/// and refreshes (also when the index is out of range).
pub fn move_song_down_in_editing(lists: &mut Vec<Setlist>, editing: Option<usize>, j: usize) -> (acted: bool)
    ensures
        acted == editing is Some,
        match editing {
            Some(i) if i < old(lists)@.len() => same_except(lists_view(old(lists)@), lists_view(final(lists)@), i as int)
                && lists_view(final(lists)@)[i as int] == (
                    lists_view(old(lists)@)[i as int].0,
                    moved_down(lists_view(old(lists)@)[i as int].1, j as int),
                ),
            _ => lists_view(final(lists)@) == lists_view(old(lists)@),
        },
{
    let i = match editing {
        Some(i) => i,
        None => return false,
    };
    if i >= lists.len() {
        return true;
    }
    let mut s = take_list(lists, i);
    let ghost before = s.songs@;
    move_down(&mut s.songs, j);
    assert(songs_view(s.songs@) =~= moved_down(songs_view(before), j as int));
    let ghost mid = lists@;
    lists.insert(i, s);
    proof {
        lemma_put_back(old(lists)@, mid, lists@, i as int, s);
    }
    true
}

/// The PDF a setlist song plays from: the first of `pdfs` whose stem matches
/// its book, or the empty path when that book is not installed.
pub open spec fn play_file(pdfs: Seq<Seq<char>>, book: Seq<char>) -> Seq<char> {
    match first_match(pdfs, book) {
        Some(i) => pdfs[i],
        None => Seq::empty(),
    }
}

/// The songs of `list` as the viewer plays them, each resolved to its PDF
/// among `pdfs`.
pub fn setlist_songs(list: &Setlist, pdfs: &[String]) -> (r: Vec<Song>)
    ensures
        r@.len() == list.songs@.len(),
        forall|k: int| 0 <= k < r@.len() ==> {
            &&& (#[trigger] r@[k]).title@ == list.songs@[k].title@
            &&& r@[k].book@ == list.songs@[k].book@
            &&& r@[k].page == list.songs@[k].page
            &&& r@[k].file@ == play_file(string_views(pdfs@), list.songs@[k].book@)
        },
{
    let mut out: Vec<Song> = Vec::new();
    let mut k: usize = 0;
    while k < list.songs.len()
        invariant
            k <= list.songs@.len(),
            out@.len() == k,
            forall|m: int| 0 <= m < k ==> {
                &&& (#[trigger] out@[m]).title@ == list.songs@[m].title@
                &&& out@[m].book@ == list.songs@[m].book@
                &&& out@[m].page == list.songs@[m].page
                &&& out@[m].file@ == play_file(string_views(pdfs@), list.songs@[m].book@)
            },
        decreases list.songs@.len() - k,
    {
        let s = &list.songs[k];
        let file = match crate::db::resolve_pdf(pdfs, s.book.as_str()) {
            Some(p) => {
                proof {
                    let i = choose|i: int| first_match(string_views(pdfs@), s.book@) == Some(i) && p@ == pdfs@[i]@;
                    crate::db::lemma_first_match_bounds(string_views(pdfs@), s.book@);
                    assert(string_views(pdfs@)[i] == pdfs@[i]@);
                }
                p
            },
            None => String::new(),
        };
        assert(file@ == play_file(string_views(pdfs@), list.songs@[k as int].book@));
        let ghost prev = out@;
        out.push(Song { title: s.title.clone(), book: s.book.clone(), file, page: s.page });
        assert(forall|m: int| 0 <= m < k ==> out@[m] == prev[m]);
        k = k + 1;
    }
    out
}

/// A missing, unreadable or unparsable setlists file reads as no setlists:
/// `parsed` is what the file held, if it could be read and parsed.
pub fn loaded_or_empty(parsed: Option<Vec<Setlist>>) -> (r: Vec<Setlist>)
    ensures
        match parsed {
            Some(v) => r@ == v@,
            None => r@.len() == 0,
        },
{
    match parsed {
        Some(v) => v,
        None => Vec::new(),
    }
}

} // verus!
