//! Parse OCR'd table-of-contents text into `(title, printed_page)` entries.
//!
//! TOC lines typically look like `Affirmation .......... 1` or
//! `All The Things You Are    4`. The trailing token is read as the printed
//! page and everything before it (minus dot leaders) as the title. Long titles
//! wrap across lines (page on the last line); a line with no page is treated as
//! a title fragment and prepended to the next entry.

use vstd::prelude::*;

use crate::text::{
    append_chars, char_is_alphabetic, char_is_lowercase, chars_contains, chars_eq, chars_of,
    contains, count_alpha, count_alphabetic, is_ascii_alnum, is_ascii_alphanumeric, is_ascii_digit,
    is_digit, join, join_range, parse_i32, parse_i32_spec, slice_range, split_words, str_to_uppercase,
    string_of, trim, trim_chars, trim_chars_class, trim_class, trim_end_chars, trim_end_class,
    trim_start_chars, trim_start_class, unicode_alphabetic, unicode_lowercase, unicode_upper, words, words_from, is_ws,
    CharClass,
};

verus! {

// ---------------------------------------------------------------------------
// Page numbers
// ---------------------------------------------------------------------------

/// The digit an OCR letter-for-digit lookalike stands for: `O`/`o` -> 0,
/// `I`/`l` -> 1, `Z`/`z` -> 2, `S`/`s` -> 5, `G` -> 6, `B` -> 8; digits stand
/// for themselves.
pub open spec fn lookalike(c: char) -> Option<char> {
    if is_digit(c) {
        Some(c)
    } else if c == 'O' || c == 'o' {
        Some('0')
    } else if c == 'I' || c == 'l' {
        Some('1')
    } else if c == 'Z' || c == 'z' {
        Some('2')
    } else if c == 'S' || c == 's' {
        Some('5')
    } else if c == 'G' {
        Some('6')
    } else if c == 'B' {
        Some('8')
    } else {
        None
    }
}

pub open spec fn all_lookalike(s: Seq<char>) -> bool {
    forall|i: int| 0 <= i < s.len() ==> #[trigger] lookalike(s[i]) is Some
}

pub open spec fn has_digit(s: Seq<char>) -> bool {
    exists|i: int| 0 <= i < s.len() && is_digit(#[trigger] s[i])
}

/// Reading of a token made only of digits and lookalikes.
pub open spec fn recover_page_digits_spec(core: Seq<char>) -> Option<i32> {
    if all_lookalike(core) {
        parse_i32_spec(Seq::new(core.len(), |i: int| lookalike(core[i])->0))
    } else {
        None
    }
}

/// A TOC line's trailing token read as a printed page number: strip
/// surrounding non-alphanumeric noise; if a real digit is present and every
/// character is a digit or a lookalike, read the whole token; otherwise read
/// the digits left after stripping non-digits from both ends.
pub open spec fn parse_page_spec(tok: Seq<char>) -> Option<i32> {
    let core = trim_class(tok, CharClass::NotAsciiAlnum);
    if core.len() == 0 {
        None
    } else if has_digit(core) && recover_page_digits_spec(core) is Some {
        recover_page_digits_spec(core)
    } else {
        parse_i32_spec(trim_class(core, CharClass::NotAsciiDigit))
    }
}

fn lookalike_digit(c: char) -> (r: Option<char>)
    ensures
        r == lookalike(c),
{
    if '0' <= c && c <= '9' {
        Some(c)
    } else if c == 'O' || c == 'o' {
        Some('0')
    } else if c == 'I' || c == 'l' {
        Some('1')
    } else if c == 'Z' || c == 'z' {
        Some('2')
    } else if c == 'S' || c == 's' {
        Some('5')
    } else if c == 'G' {
        Some('6')
    } else if c == 'B' {
        Some('8')
    } else {
        None
    }
}

fn recover_chars(core: &[char]) -> (r: Option<i32>)
    ensures
        r == recover_page_digits_spec(core@),
{
    let mut digits: Vec<char> = Vec::new();
    let mut i: usize = 0;
    while i < core.len()
        invariant
            i <= core@.len(),
            digits@.len() == i,
            forall|k: int| 0 <= k < i ==> #[trigger] lookalike(core@[k]) is Some,
            forall|k: int| 0 <= k < i ==> digits@[k] == #[trigger] lookalike(core@[k])->0,
        decreases core@.len() - i,
    {
        match lookalike_digit(core[i]) {
            Some(d) => digits.push(d),
            None => {
                return None;
            },
        }
        i = i + 1;
    }
    assert(digits@ =~= Seq::new(core@.len(), |i: int| lookalike(core@[i])->0));
    parse_i32(digits.as_slice())
}

fn has_ascii_digit(s: &[char]) -> (b: bool)
    ensures
        b == has_digit(s@),
{
    let mut i: usize = 0;
    while i < s.len()
        invariant
            i <= s@.len(),
            forall|k: int| 0 <= k < i ==> !is_digit(#[trigger] s@[k]),
        decreases s@.len() - i,
    {
        if is_ascii_digit(s[i]) {
            return true;
        }
        i = i + 1;
    }
    false
}

fn parse_page_chars(tok: &[char]) -> (r: Option<i32>)
    ensures
        r == parse_page_spec(tok@),
{
    let core = trim_chars_class(tok, &CharClass::NotAsciiAlnum);
    if core.len() == 0 {
        return None;
    }
    if has_ascii_digit(core.as_slice()) {
        if let Some(n) = recover_chars(core.as_slice()) {
            return Some(n);
        }
    }
    let digits = trim_chars_class(core.as_slice(), &CharClass::NotAsciiDigit);
    parse_i32(digits.as_slice())
}

/// Read a TOC line's trailing token as a printed page number, recovering OCR
/// letter-for-digit misreads (`3G3` -> 363, `S0` -> 50) when a real digit
/// anchors the token; otherwise the digits embedded in it (`p.14` -> 14).
/// `None` if it isn't a page.
pub fn parse_page(tok: &str) -> (r: Option<i32>)
    ensures
        r == parse_page_spec(tok@),
{
    let v = chars_of(tok);
    parse_page_chars(v.as_slice())
}

/// Map a token of digits and OCR digit-lookalike letters to a number, or
/// `None` if any character is neither a digit nor a known lookalike (or the
/// number does not fit).
pub fn recover_page_digits(core: &str) -> (r: Option<i32>)
    ensures
        r == recover_page_digits_spec(core@),
{
    let v = chars_of(core);
    recover_chars(v.as_slice())
}

// ---------------------------------------------------------------------------
// Titles
// ---------------------------------------------------------------------------

/// A dot leader starts at `i`: two dots, or three `c`s (a leader misread).
pub open spec fn leader_at(s: Seq<char>, i: int) -> bool {
    ||| s[i] == '.' && i + 1 < s.len() && s[i + 1] == '.'
    ||| s[i] == 'c' && i + 1 < s.len() && s[i + 1] == 'c' && i + 2 < s.len() && s[i + 2] == 'c'
}

/// The first leader position at or after `i`, or the length.
pub open spec fn first_leader_from(s: Seq<char>, i: int) -> int
    decreases s.len() - i,
{
    if i >= s.len() {
        s.len() as int
    } else if leader_at(s, i) {
        i
    } else {
        first_leader_from(s, i + 1)
    }
}

/// A token is leader noise when none of its letters is upper-case or
/// caseless: it has no letters, or only lower-case ones.
pub open spec fn is_junk(t: Seq<char>) -> bool {
    forall|i: int| 0 <= i < t.len() ==> (unicode_alphabetic(#[trigger] t[i]) ==> unicode_lowercase(t[i]))
}

pub open spec fn drop_front_junk(toks: Seq<Seq<char>>) -> Seq<Seq<char>>
    decreases toks.len(),
{
    if toks.len() > 0 && is_junk(toks[0]) {
        drop_front_junk(toks.drop_first())
    } else {
        toks
    }
}

pub open spec fn drop_back_junk(toks: Seq<Seq<char>>) -> Seq<Seq<char>>
    decreases toks.len(),
{
    if toks.len() > 0 && is_junk(toks.last()) {
        drop_back_junk(toks.drop_last())
    } else {
        toks
    }
}

/// A TOC title with dot-leader garbage removed: cut at the first leader, drop
/// junk tokens at both ends, rejoin with single spaces, strip quote/dash junk
/// in front and punctuation behind, and trim.
pub open spec fn clean_title_spec(s: Seq<char>) -> Seq<char> {
    let head = s.take(first_leader_from(s, 0));
    let toks = drop_back_junk(drop_front_junk(words(head)));
    let joined = join(toks, seq![' ']);
    trim(trim_end_class(trim_start_class(joined, CharClass::TitleLeadJunk), CharClass::TitleTailJunk))
}

/// A letter that is not lower-case (upper-case, title-case or caseless).
pub open spec fn unicode_capital(c: char) -> bool {
    unicode_alphabetic(c) && !unicode_lowercase(c)
}

/// `is_junk`, with `caps` listing the characters read as capitals: a token is
/// junk when none of its characters is among them.
pub open spec fn is_junk_in(t: Seq<char>, caps: Seq<char>) -> bool {
    forall|i: int| 0 <= i < t.len() ==> !caps.contains(#[trigger] t[i])
}

pub open spec fn drop_front_junk_in(toks: Seq<Seq<char>>, caps: Seq<char>) -> Seq<Seq<char>>
    decreases toks.len(),
{
    if toks.len() > 0 && is_junk_in(toks[0], caps) {
        drop_front_junk_in(toks.drop_first(), caps)
    } else {
        toks
    }
}

pub open spec fn drop_back_junk_in(toks: Seq<Seq<char>>, caps: Seq<char>) -> Seq<Seq<char>>
    decreases toks.len(),
{
    if toks.len() > 0 && is_junk_in(toks.last(), caps) {
        drop_back_junk_in(toks.drop_last(), caps)
    } else {
        toks
    }
}

/// `clean_title_spec`, with `caps` listing the characters read as capitals.
pub open spec fn clean_title_by_spec(s: Seq<char>, caps: Seq<char>) -> Seq<char> {
    let head = s.take(first_leader_from(s, 0));
    let toks = drop_back_junk_in(drop_front_junk_in(words(head), caps), caps);
    let joined = join(toks, seq![' ']);
    trim(trim_end_class(trim_start_class(joined, CharClass::TitleLeadJunk), CharClass::TitleTailJunk))
}

proof fn lemma_first_leader_bound_from(s: Seq<char>, i: int)
    requires
        0 <= i,
    ensures
        0 <= first_leader_from(s, i) <= s.len() || i > s.len(),
    decreases s.len() - i,
{
    if i < s.len() && !leader_at(s, i) {
        lemma_first_leader_bound_from(s, i + 1);
    }
}

proof fn lemma_first_leader_bound(s: Seq<char>)
    ensures
        0 <= first_leader_from(s, 0) <= s.len(),
{
    lemma_first_leader_bound_from(s, 0);
}

/// Every character of every word of `s` (with `cur` being read) is in `pool`.
proof fn lemma_words_chars(s: Seq<char>, cur: Seq<char>, pool: Seq<char>)
    requires
        forall|j: int| 0 <= j < cur.len() ==> pool.contains(#[trigger] cur[j]),
        forall|j: int| 0 <= j < s.len() ==> pool.contains(#[trigger] s[j]),
    ensures
        forall|k: int, j: int|
            0 <= k < words_from(s, cur).len() && 0 <= j < words_from(s, cur)[k].len() ==> pool.contains(
                #[trigger] words_from(s, cur)[k][j],
            ),
    decreases s.len(),
{
    if s.len() == 0 {
        let all = words_from(s, cur);
        assert forall|k: int, j: int| 0 <= k < all.len() && 0 <= j < all[k].len() implies pool.contains(
            #[trigger] all[k][j],
        ) by {
            assert(all[k] == cur);
        }
    } else {
        let s2 = s.drop_first();
        assert forall|j: int| 0 <= j < s2.len() implies pool.contains(#[trigger] s2[j]) by {
            assert(s2[j] == s[j + 1]);
        }
        if is_ws(s[0]) {
            if cur.len() == 0 {
                lemma_words_chars(s2, cur, pool);
                assert(words_from(s, cur) == words_from(s2, cur));
            } else {
                lemma_words_chars(s2, seq![], pool);
                let rest = words_from(s2, seq![]);
                let all = seq![cur] + rest;
                assert(words_from(s, cur) == all);
                assert forall|k: int, j: int| 0 <= k < all.len() && 0 <= j < all[k].len() implies pool.contains(
                    #[trigger] all[k][j],
                ) by {
                    if k > 0 {
                        assert(all[k] == rest[k - 1]);
                    }
                }
            }
        } else {
            let c2 = cur.push(s[0]);
            assert forall|j: int| 0 <= j < c2.len() implies pool.contains(#[trigger] c2[j]) by {
                if j < cur.len() {
                    assert(c2[j] == cur[j]);
                }
            }
            lemma_words_chars(s2, c2, pool);
            assert(words_from(s, cur) == words_from(s2, c2));
        }
    }
}

/// Both junk tests agree on every token.
pub open spec fn junk_agrees(toks: Seq<Seq<char>>, caps: Seq<char>) -> bool {
    forall|k: int| 0 <= k < toks.len() ==> (is_junk_in(#[trigger] toks[k], caps) == is_junk(toks[k]))
}

proof fn lemma_drop_junk_agree(toks: Seq<Seq<char>>, caps: Seq<char>)
    requires
        junk_agrees(toks, caps),
    ensures
        drop_front_junk_in(toks, caps) == drop_front_junk(toks),
        drop_back_junk_in(toks, caps) == drop_back_junk(toks),
        junk_agrees(drop_front_junk(toks), caps),
    decreases toks.len(),
{
    if toks.len() > 0 {
        let t1 = toks.drop_first();
        let t2 = toks.drop_last();
        assert(junk_agrees(t1, caps)) by {
            assert forall|k: int| 0 <= k < t1.len() implies (is_junk_in(#[trigger] t1[k], caps) == is_junk(t1[k])) by {
                assert(t1[k] == toks[k + 1]);
            }
        }
        assert(junk_agrees(t2, caps)) by {
            assert forall|k: int| 0 <= k < t2.len() implies (is_junk_in(#[trigger] t2[k], caps) == is_junk(t2[k])) by {
                assert(t2[k] == toks[k]);
            }
        }
        assert(is_junk_in(toks[0], caps) == is_junk(toks[0]));
        assert(is_junk_in(toks.last(), caps) == is_junk(toks.last()));
        lemma_drop_junk_agree(t1, caps);
        lemma_drop_junk_agree(t2, caps);
    }
}

/// When `caps` holds exactly the capitals among the characters of `s`, the
/// title cleaned with `caps` is the title cleaned by the Unicode tables.
pub proof fn lemma_clean_title_by_caps(s: Seq<char>, caps: Seq<char>)
    requires
        forall|j: int| 0 <= j < s.len() ==> (caps.contains(#[trigger] s[j]) == unicode_capital(s[j])),
    ensures
        clean_title_by_spec(s, caps) == clean_title_spec(s),
{
    let head = s.take(first_leader_from(s, 0));
    lemma_first_leader_bound(s);
    assert forall|j: int| 0 <= j < head.len() implies s.contains(#[trigger] head[j]) by {
        assert(head[j] == s[j]);
    }
    lemma_words_chars(head, seq![], s);
    let ws = words(head);
    assert(junk_agrees(ws, caps)) by {
        assert forall|k: int| 0 <= k < ws.len() implies (is_junk_in(#[trigger] ws[k], caps) == is_junk(ws[k])) by {
            let t = ws[k];
            assert forall|i: int| 0 <= i < t.len() implies (caps.contains(#[trigger] t[i]) == unicode_capital(t[i])) by {
                assert(s.contains(ws[k][i]));
                let j = choose|j: int| 0 <= j < s.len() && s[j] == t[i];
                assert(caps.contains(s[j]) == unicode_capital(s[j]));
            }
            if is_junk_in(t, caps) {
                assert forall|i: int| 0 <= i < t.len() && unicode_alphabetic(#[trigger] t[i]) implies unicode_lowercase(t[i]) by {
                    assert(!caps.contains(t[i]));
                }
            }
            if is_junk(t) {
                assert forall|i: int| 0 <= i < t.len() implies !caps.contains(#[trigger] t[i]) by {
                    assert(unicode_alphabetic(t[i]) ==> unicode_lowercase(t[i]));
                }
            }
        }
    }
    lemma_drop_junk_agree(ws, caps);
    lemma_drop_junk_agree(drop_front_junk(ws), caps);
}

proof fn lemma_drop_front_junk_skip(toks: Seq<Seq<char>>, caps: Seq<char>, k: int)
    requires
        0 <= k <= toks.len(),
        forall|i: int| 0 <= i < k ==> is_junk_in(#[trigger] toks[i], caps),
    ensures
        drop_front_junk_in(toks, caps) == drop_front_junk_in(toks.skip(k), caps),
    decreases k,
{
    if k > 0 {
        let t = toks.drop_first();
        assert(is_junk_in(toks[0], caps));
        assert forall|i: int| 0 <= i < k - 1 implies is_junk_in(#[trigger] t[i], caps) by {
            assert(t[i] == toks[i + 1]);
        }
        lemma_drop_front_junk_skip(t, caps, k - 1);
        assert(t.skip(k - 1) =~= toks.skip(k));
    } else {
        assert(toks.skip(0) =~= toks);
    }
}

proof fn lemma_drop_back_junk_take(toks: Seq<Seq<char>>, caps: Seq<char>, k: int)
    requires
        0 <= k <= toks.len(),
        forall|i: int| k <= i < toks.len() ==> is_junk_in(#[trigger] toks[i], caps),
    ensures
        drop_back_junk_in(toks, caps) == drop_back_junk_in(toks.take(k), caps),
    decreases toks.len() - k,
{
    if k < toks.len() {
        let t = toks.drop_last();
        assert(is_junk_in(toks.last(), caps));
        lemma_drop_back_junk_take(t, caps, k);
        assert(t.take(k) =~= toks.take(k));
    } else {
        assert(toks.take(k) =~= toks);
    }
}

fn char_listed(c: char, caps: &[char]) -> (b: bool)
    ensures
        b == caps@.contains(c),
{
    let mut i: usize = 0;
    while i < caps.len()
        invariant
            i <= caps@.len(),
            forall|k: int| 0 <= k < i ==> #[trigger] caps@[k] != c,
        decreases caps@.len() - i,
    {
        if caps[i] == c {
            return true;
        }
        i = i + 1;
    }
    false
}

fn token_is_junk(t: &[char], caps: &[char]) -> (b: bool)
    ensures
        b == is_junk_in(t@, caps@),
{
    let mut i: usize = 0;
    while i < t.len()
        invariant
            i <= t@.len(),
            forall|k: int| 0 <= k < i ==> !caps@.contains(#[trigger] t@[k]),
        decreases t@.len() - i,
    {
        if char_listed(t[i], caps) {
            return false;
        }
        i = i + 1;
    }
    true
}

fn first_leader(s: &[char]) -> (cut: usize)
    ensures
        cut == first_leader_from(s@, 0),
        cut <= s@.len(),
{
    let n = s.len();
    let mut i: usize = 0;
    while i < n
        invariant
            n == s@.len(),
            i <= n,
            first_leader_from(s@, 0) == first_leader_from(s@, i as int),
        decreases n - i,
    {
        let two_dots = s[i] == '.' && i + 1 < n && s[i + 1] == '.';
        let three_cs = s[i] == 'c' && i + 1 < n && s[i + 1] == 'c' && i + 2 < n && s[i + 2] == 'c';
        if two_dots || three_cs {
            return i;
        }
        i = i + 1;
    }
    n
}

fn clean_title_by_chars(s: &[char], caps: &[char]) -> (r: Vec<char>)
    ensures
        r@ == clean_title_by_spec(s@, caps@),
{
    let cut = first_leader(s);
    let head = slice_range(s, 0, cut);
    assert(head@ =~= s@.take(first_leader_from(s@, 0)));
    let toks = split_words(head.as_slice());
    let ghost ws = words(head@);
    assert(toks@.map_values(|v: Vec<char>| v@) =~= ws);
    let mut lo: usize = 0;
    while lo < toks.len() && token_is_junk(toks[lo].as_slice(), caps)
        invariant
            lo <= toks@.len(),
            toks@.len() == ws.len(),
            forall|k: int| 0 <= k < toks@.len() ==> (#[trigger] toks@[k])@ == ws[k],
            forall|k: int| 0 <= k < lo ==> is_junk_in(#[trigger] ws[k], caps@),
        decreases toks@.len() - lo,
    {
        lo = lo + 1;
    }
    proof {
        lemma_drop_front_junk_skip(ws, caps@, lo as int);
        if lo < ws.len() {
            assert(!is_junk_in(ws.skip(lo as int)[0], caps@));
        }
        assert(drop_front_junk_in(ws.skip(lo as int), caps@) == ws.skip(lo as int));
    }
    let mut hi: usize = toks.len();
    while hi > lo && token_is_junk(toks[hi - 1].as_slice(), caps)
        invariant
            lo <= hi <= toks@.len(),
            toks@.len() == ws.len(),
            forall|k: int| 0 <= k < toks@.len() ==> (#[trigger] toks@[k])@ == ws[k],
            forall|k: int| hi <= k < ws.len() ==> is_junk_in(#[trigger] ws[k], caps@),
        decreases hi,
    {
        hi = hi - 1;
    }
    proof {
        let f = ws.skip(lo as int);
        assert forall|k: int| hi - lo <= k < f.len() implies is_junk_in(#[trigger] f[k], caps@) by {
            assert(f[k] == ws[k + lo]);
        }
        lemma_drop_back_junk_take(f, caps@, hi - lo);
        if hi > lo {
            assert(!is_junk_in(f.take(hi - lo).last(), caps@));
        }
        assert(f.take(hi - lo) =~= toks@.subrange(lo as int, hi as int).map_values(
            |v: Vec<char>| v@,
        ));
    }
    let sep = vec![' '];
    assert(sep@ =~= seq![' ']);
    let joined = join_range(&toks, lo, hi, sep.as_slice());
    let a = trim_start_chars(joined.as_slice(), &CharClass::TitleLeadJunk);
    let b = trim_end_chars(a.as_slice(), &CharClass::TitleTailJunk);
    trim_chars(b.as_slice())
}

/// The capitals (letters that are not lower-case) among the characters of `s`.
fn capitals_of(s: &[char]) -> (r: Vec<char>)
    ensures
        forall|j: int| 0 <= j < s@.len() ==> (r@.contains(#[trigger] s@[j]) == unicode_capital(s@[j])),
{
    let mut r: Vec<char> = Vec::new();
    let mut i: usize = 0;
    while i < s.len()
        invariant
            i <= s@.len(),
            forall|k: int| 0 <= k < r@.len() ==> unicode_capital(#[trigger] r@[k]),
            forall|j: int| 0 <= j < i ==> (r@.contains(#[trigger] s@[j]) == unicode_capital(s@[j])),
        decreases s@.len() - i,
    {
        let c = s[i];
        if char_is_alphabetic(c) && !char_is_lowercase(c) {
            let ghost prev = r@;
            r.push(c);
            proof {
                assert(r@ == prev.push(c));
                assert forall|j: int| 0 <= j < i + 1 implies (r@.contains(#[trigger] s@[j]) == unicode_capital(s@[j])) by {
                    if prev.contains(s@[j]) {
                        let k = choose|k: int| 0 <= k < prev.len() && prev[k] == s@[j];
                        assert(r@[k] == s@[j]);
                    }
                    if r@.contains(s@[j]) {
                        let k = choose|k: int| 0 <= k < r@.len() && r@[k] == s@[j];
                        assert(unicode_capital(r@[k]));
                        if k < prev.len() {
                            assert(prev[k] == s@[j]);
                        }
                    }
                    if j == i {
                        assert(r@[prev.len() as int] == c);
                    }
                }
            }
        } else {
            proof {
                assert(!unicode_capital(c));
                if r@.contains(c) {
                    let k = choose|k: int| 0 <= k < r@.len() && r@[k] == c;
                    assert(unicode_capital(r@[k]));
                }
            }
        }
        i = i + 1;
    }
    r
}

fn clean_title_chars(s: &[char]) -> (r: Vec<char>)
    ensures
        r@ == clean_title_spec(s@),
{
    let caps = capitals_of(s);
    let r = clean_title_by_chars(s, caps.as_slice());
    proof {
        lemma_clean_title_by_caps(s@, caps@);
    }
    r
}

/// Strip dot-leader OCR garbage from a TOC title.
pub fn clean_title(s: &str) -> (r: String)
    ensures
        r@ == clean_title_spec(s@),
{
    let v = chars_of(s);
    let c = clean_title_chars(v.as_slice());
    string_of(c.as_slice())
}

/// `clean_title`, with `capitals` listing the characters to read as
/// capitals (letters that are not lower-case): a token none of whose
/// characters is listed counts as leader noise.
pub fn clean_title_with(s: &str, capitals: &[char]) -> (r: String)
    ensures
        r@ == clean_title_by_spec(s@, capitals@),
{
    let v = chars_of(s);
    let c = clean_title_by_chars(v.as_slice(), capitals);
    string_of(c.as_slice())
}

// ---------------------------------------------------------------------------
// Headers
// ---------------------------------------------------------------------------

/// The ASCII letters and digits of `s`, in order.
pub open spec fn ascii_alnum_only(s: Seq<char>) -> Seq<char>
    decreases s.len(),
{
    if s.len() == 0 {
        seq![]
    } else if is_ascii_alnum(s.last()) {
        ascii_alnum_only(s.drop_last()).push(s.last())
    } else {
        ascii_alnum_only(s.drop_last())
    }
}

pub open spec fn is_cont_word(n: Seq<char>) -> bool {
    n == "CONT"@ || n == "CONTD"@ || n == "CONTINUED"@
}

/// An alphabetical section-continuation header like `S-Cont.` or
/// `A CONTINUED`, given the upper-cased line: its ASCII letters and digits
/// spell `CONT`, `CONTD` or `CONTINUED`, possibly after one section letter.
pub open spec fn is_continuation_header_spec(upper: Seq<char>) -> bool {
    let norm = ascii_alnum_only(upper);
    is_cont_word(norm) || (norm.len() > 4 && is_cont_word(norm.skip(1)))
}

/// A common TOC header line that must not be merged into a title.
pub open spec fn looks_like_header_spec(s: Seq<char>) -> bool {
    upper_is_header(unicode_upper(s))
}

/// The upper-cased line `u` is a TOC header.
pub open spec fn upper_is_header(u: Seq<char>) -> bool {
    ||| contains(u, "INDEX"@)
    ||| u == "SONG TITLE"@
    ||| u == "SONG TITLE PAGE"@
    ||| u == "TITLE"@
    ||| u == "PAGE"@
    ||| u == "CONTENTS"@
    ||| u == "TABLE OF CONTENTS"@
    ||| is_continuation_header_spec(u)
}

fn ascii_alnum_chars(s: &[char]) -> (r: Vec<char>)
    ensures
        r@ == ascii_alnum_only(s@),
{
    let mut r: Vec<char> = Vec::new();
    let mut i: usize = 0;
    while i < s.len()
        invariant
            i <= s@.len(),
            r@ == ascii_alnum_only(s@.take(i as int)),
        decreases s@.len() - i,
    {
        assert(s@.take(i + 1).drop_last() =~= s@.take(i as int));
        if is_ascii_alphanumeric(s[i]) {
            r.push(s[i]);
        }
        i = i + 1;
    }
    assert(s@.take(s@.len() as int) =~= s@);
    r
}

fn equals_literal(s: &[char], lit: &str) -> (b: bool)
    ensures
        b == (s@ == lit@),
{
    let l = chars_of(lit);
    chars_eq(s, l.as_slice())
}

fn is_cont_chars(n: &[char]) -> (b: bool)
    ensures
        b == is_cont_word(n@),
{
    equals_literal(n, "CONT") || equals_literal(n, "CONTD") || equals_literal(n, "CONTINUED")
}

fn is_continuation_header_chars(upper: &[char]) -> (b: bool)
    ensures
        b == is_continuation_header_spec(upper@),
{
    let norm = ascii_alnum_chars(upper);
    if is_cont_chars(norm.as_slice()) {
        return true;
    }
    if norm.len() > 4 {
        let rest = slice_range(norm.as_slice(), 1, norm.len());
        assert(rest@ =~= norm@.skip(1));
        is_cont_chars(rest.as_slice())
    } else {
        false
    }
}

/// True for alphabetical section-continuation headers like `S-Cont.`,
/// `(Cont'd)`, or `A CONTINUED`. `upper` is the already-uppercased line.
pub fn is_continuation_header(upper: &str) -> (b: bool)
    ensures
        b == is_continuation_header_spec(upper@),
{
    let v = chars_of(upper);
    is_continuation_header_chars(v.as_slice())
}

fn looks_like_header_chars(s: &[char]) -> (b: bool)
    ensures
        b == looks_like_header_spec(s@),
{
    let st = string_of(s);
    let up = str_to_uppercase(st.as_str());
    is_header_line_upper(up.as_str())
}

/// Whether an already upper-cased line `upper` is a TOC header: it mentions
/// `INDEX`, is one of the column titles, or is a section-continuation header.
pub fn is_header_line_upper(upper: &str) -> (b: bool)
    ensures
        b == upper_is_header(upper@),
{
    let u = chars_of(upper);
    let index = chars_of("INDEX");
    chars_contains(u.as_slice(), index.as_slice()) || equals_literal(u.as_slice(), "SONG TITLE")
        || equals_literal(u.as_slice(), "SONG TITLE PAGE") || equals_literal(u.as_slice(), "TITLE")
        || equals_literal(u.as_slice(), "PAGE") || equals_literal(u.as_slice(), "CONTENTS")
        || equals_literal(u.as_slice(), "TABLE OF CONTENTS") || is_continuation_header_chars(
        u.as_slice(),
    )
}

/// True for common TOC header lines that must not be merged into a title.
pub fn looks_like_header(s: &str) -> (b: bool)
    ensures
        b == looks_like_header_spec(s@),
{
    let v = chars_of(s);
    looks_like_header_chars(v.as_slice())
}

// ---------------------------------------------------------------------------
// Whole TOC
// ---------------------------------------------------------------------------

/// Parser state between lines: the entries so far, and the title fragments
/// waiting for the line that carries their page.
pub struct TocState {
    pub entries: Seq<(Seq<char>, i32)>,
    pub prefix: Seq<Seq<char>>,
}

/// One line of the TOC. A blank line changes nothing (OCR puts blanks between
/// wrapped halves). A line whose last token is no page is a wrapped-title
/// fragment, kept if it has at least two letters and is no header, and
/// otherwise clears pending fragments. A line ending in a page yields the
/// entry (pending fragments, then the cleaned title) if the title has at least
/// two letters; either way pending fragments are cleared.
pub open spec fn toc_step(st: TocState, raw: Seq<char>) -> TocState {
    let line = trim(raw);
    if line.len() == 0 {
        st
    } else {
        let toks = words(line);
        let last = if toks.len() > 0 {
            toks.last()
        } else {
            seq![]
        };
        match parse_page_spec(last) {
            None => {
                let frag = clean_title_spec(line);
                if count_alpha(frag) >= 2 && !looks_like_header_spec(frag) {
                    TocState { entries: st.entries, prefix: st.prefix.push(frag) }
                } else {
                    TocState { entries: st.entries, prefix: seq![] }
                }
            },
            Some(page) => {
                let t0 = clean_title_spec(join(toks.drop_last(), seq![' ']));
                let t1 = if st.prefix.len() > 0 {
                    join(st.prefix, seq![' ']) + seq![' '] + t0
                } else {
                    t0
                };
                let title = trim(t1);
                if count_alpha(title) >= 2 {
                    TocState { entries: st.entries.push((title, page)), prefix: seq![] }
                } else {
                    TocState { entries: st.entries, prefix: seq![] }
                }
            },
        }
    }
}

pub open spec fn toc_fold(lines: Seq<Seq<char>>) -> TocState
    decreases lines.len(),
{
    if lines.len() == 0 {
        TocState { entries: seq![], prefix: seq![] }
    } else {
        toc_step(toc_fold(lines.drop_last()), lines.last())
    }
}

/// The `(title, page)` entries of a TOC given as lines.
pub open spec fn parse_toc_spec(lines: Seq<Seq<char>>) -> Seq<(Seq<char>, i32)> {
    toc_fold(lines).entries
}

pub open spec fn entry_views(v: Seq<(String, i32)>) -> Seq<(Seq<char>, i32)> {
    v.map_values(|e: (String, i32)| (e.0@, e.1))
}

pub open spec fn string_views(v: Seq<String>) -> Seq<Seq<char>> {
    v.map_values(|s: String| s@)
}

pub open spec fn char_vec_views(v: Seq<Vec<char>>) -> Seq<Seq<char>> {
    v.map_values(|s: Vec<char>| s@)
}

/// Parse TOC lines into `(title, printed_page)` pairs.
pub fn parse_toc(lines: &[String]) -> (r: Vec<(String, i32)>)
    ensures
        entry_views(r@) == parse_toc_spec(string_views(lines@)),
{
    let mut out: Vec<(String, i32)> = Vec::new();
    let mut prefix: Vec<Vec<char>> = Vec::new();
    let mut i: usize = 0;
    while i < lines.len()
        invariant
            i <= lines@.len(),
            entry_views(out@) == toc_fold(string_views(lines@.take(i as int))).entries,
            char_vec_views(prefix@) == toc_fold(string_views(lines@.take(i as int))).prefix,
        decreases lines@.len() - i,
    {
        let ghost st = toc_fold(string_views(lines@.take(i as int)));
        proof {
            assert(string_views(lines@.take(i + 1)).drop_last() =~= string_views(
                lines@.take(i as int),
            ));
            assert(string_views(lines@.take(i + 1)).last() == lines@[i as int]@);
        }
        let raw = chars_of(lines[i].as_str());
        let line = trim_chars(raw.as_slice());
        if line.len() > 0 {
            let toks = split_words(line.as_slice());
            let ghost ws = words(line@);
            assert(char_vec_views(toks@) =~= ws);
            let empty: Vec<char> = Vec::new();
            let page = if toks.len() > 0 {
                parse_page_chars(toks[toks.len() - 1].as_slice())
            } else {
                parse_page_chars(empty.as_slice())
            };
            match page {
                None => {
                    let frag = clean_title_chars(line.as_slice());
                    if count_alphabetic(frag.as_slice()) >= 2 && !looks_like_header_chars(
                        frag.as_slice(),
                    ) {
                        prefix.push(frag);
                        assert(char_vec_views(prefix@) =~= st.prefix.push(frag@));
                    } else {
                        prefix = Vec::new();
                        assert(char_vec_views(prefix@) =~= seq![]);
                    }
                },
                Some(p) => {
                    let sep = vec![' '];
                    assert(sep@ =~= seq![' ']);
                    assert(toks@.len() > 0);
                    let body = join_range(&toks, 0, toks.len() - 1, sep.as_slice());
                    assert(toks@.subrange(0, toks@.len() - 1).map_values(|v: Vec<char>| v@)
                        =~= ws.drop_last());
                    let mut title = clean_title_chars(body.as_slice());
                    if prefix.len() > 0 {
                        let mut t1 = join_range(&prefix, 0, prefix.len(), sep.as_slice());
                        assert(prefix@.subrange(0, prefix@.len() as int).map_values(
                            |v: Vec<char>| v@,
                        ) =~= st.prefix);
                        t1.push(' ');
                        append_chars(&mut t1, title.as_slice());
                        assert(t1@ =~= join(st.prefix, seq![' ']) + seq![' '] + clean_title_spec(
                            join(ws.drop_last(), seq![' ']),
                        ));
                        title = t1;
                    }
                    let t = trim_chars(title.as_slice());
                    if count_alphabetic(t.as_slice()) >= 2 {
                        let s = string_of(t.as_slice());
                        out.push((s, p));
                        assert(entry_views(out@) =~= st.entries.push((t@, p)));
                    }
                    prefix = Vec::new();
                    assert(char_vec_views(prefix@) =~= seq![]);
                },
            }
        }
        i = i + 1;
    }
    assert(lines@.take(lines@.len() as int) =~= lines@);
    out
}

// ---------------------------------------------------------------------------
// Laws
// ---------------------------------------------------------------------------

/// The line, trimmed, is not blank and its last token reads as a page number.
pub open spec fn carries_page(raw: Seq<char>) -> bool {
    let line = trim(raw);
    let toks = words(line);
    &&& line.len() > 0
    &&& toks.len() > 0
    &&& parse_page_spec(toks.last()) is Some
}

/// The TOC read from state `st` on.
pub open spec fn fold_from(st: TocState, lines: Seq<Seq<char>>) -> TocState
    decreases lines.len(),
{
    if lines.len() == 0 {
        st
    } else {
        toc_step(fold_from(st, lines.drop_last()), lines.last())
    }
}

pub open spec fn toc_start() -> TocState {
    TocState { entries: seq![], prefix: seq![] }
}

proof fn lemma_fold_from_start(lines: Seq<Seq<char>>)
    ensures
        fold_from(toc_start(), lines) == toc_fold(lines),
    decreases lines.len(),
{
    if lines.len() > 0 {
        lemma_fold_from_start(lines.drop_last());
    }
}

proof fn lemma_fold_from_concat(st: TocState, a: Seq<Seq<char>>, b: Seq<Seq<char>>)
    ensures
        fold_from(st, a + b) == fold_from(fold_from(st, a), b),
    decreases b.len(),
{
    if b.len() == 0 {
        assert(a + b =~= a);
    } else {
        lemma_fold_from_concat(st, a, b.drop_last());
        assert((a + b).drop_last() =~= a + b.drop_last());
        assert((a + b).last() == b.last());
    }
}

/// A step only appends to the entries already read, and what it appends and
/// leaves pending depends on the pending fragments alone.
proof fn lemma_step_appends(st: TocState, raw: Seq<char>)
    ensures
        toc_step(st, raw).entries =~= st.entries + toc_step(TocState { entries: seq![], prefix: st.prefix }, raw).entries,
        toc_step(st, raw).prefix == toc_step(TocState { entries: seq![], prefix: st.prefix }, raw).prefix,
{
}

proof fn lemma_fold_appends(e: Seq<(Seq<char>, i32)>, p: Seq<Seq<char>>, lines: Seq<Seq<char>>)
    ensures
        fold_from(TocState { entries: e, prefix: p }, lines).entries =~= e + fold_from(
            TocState { entries: seq![], prefix: p },
            lines,
        ).entries,
        fold_from(TocState { entries: e, prefix: p }, lines).prefix == fold_from(
            TocState { entries: seq![], prefix: p },
            lines,
        ).prefix,
    decreases lines.len(),
{
    if lines.len() > 0 {
        lemma_fold_appends(e, p, lines.drop_last());
        let s1 = fold_from(TocState { entries: e, prefix: p }, lines.drop_last());
        let s2 = fold_from(TocState { entries: seq![], prefix: p }, lines.drop_last());
        lemma_step_appends(s1, lines.last());
        lemma_step_appends(s2, lines.last());
        assert(s1.prefix == s2.prefix);
        assert(s1.entries =~= e + s2.entries);
    }
}

/// A line carrying a page ends every pending wrapped title: whatever came
/// before it never leaks into a later entry, so the TOC splits there. The
/// entries of `a + b`, where `a` ends with such a line, are those of `a`
/// followed by those of `b` read on its own.
pub proof fn law_page_line_splits(a: Seq<Seq<char>>, b: Seq<Seq<char>>)
    requires
        a.len() > 0,
        carries_page(a.last()),
    ensures
        parse_toc_spec(a + b) == parse_toc_spec(a) + parse_toc_spec(b),
{
    lemma_fold_from_start(a + b);
    lemma_fold_from_start(a);
    lemma_fold_from_start(b);
    lemma_fold_from_concat(toc_start(), a, b);
    let sa = fold_from(toc_start(), a);
    assert(sa == toc_step(fold_from(toc_start(), a.drop_last()), a.last()));
    assert(sa.prefix == Seq::<Seq<char>>::empty());
    assert(sa == TocState { entries: sa.entries, prefix: seq![] });
    lemma_fold_appends(sa.entries, seq![], b);
}

/// After a line carrying a page, no title fragment is pending.
pub proof fn law_page_line_clears_pending(st: TocState, raw: Seq<char>)
    requires
        carries_page(raw),
    ensures
        toc_step(st, raw).prefix.len() == 0,
{
}

} // verus!
