//! Parsing of `MasterIndex.PDF`'s extracted text into song entries.
//!
//! Each data line looks like `<Song Title...> <BookCode> <PageLabel>`, e.g.
//! `Affirmation NewReal1 1`. Book codes are single tokens; page labels are
//! usually numbers but sometimes appendix labels like `A1`. A few lines have a
//! missing space between the title and the code (`...LifeRealbk1`), so the
//! code is matched as a known suffix of the second-to-last token rather than
//! trusting whitespace alone.

use vstd::prelude::*;

use crate::text::{
    append_chars, chars_eq_ignore_ascii_case, chars_of, eq_ignore_ascii_case, join, join_range,
    slice_range, split_words, string_of, trim, trim_chars, words,
};

verus! {

/// One parsed index entry. `code` is the canonical code (the config key casing).
#[derive(Debug)]
pub struct RawEntry {
    pub title: String,
    pub code: String,
    pub page: String,
}

/// `code` is an ASCII-case-insensitive suffix of `tok`.
pub open spec fn code_matches(tok: Seq<char>, code: Seq<char>) -> bool {
    code.len() <= tok.len() && eq_ignore_ascii_case(tok.skip(tok.len() - code.len()), code)
}

/// `codes[c]` is the code recognized in `tok`: a matching code of greatest
/// length, the first listed among equally long ones.
pub open spec fn is_best_code(tok: Seq<char>, codes: Seq<Seq<char>>, c: int) -> bool {
    &&& 0 <= c < codes.len()
    &&& code_matches(tok, codes[c])
    &&& forall|j: int|
        0 <= j < codes.len() && #[trigger] code_matches(tok, codes[j]) ==> codes[j].len()
            <= codes[c].len() && (codes[j].len() == codes[c].len() ==> c <= j)
}

pub open spec fn best_code(tok: Seq<char>, codes: Seq<Seq<char>>) -> Option<int> {
    if exists|c: int| #[trigger] is_best_code(tok, codes, c) {
        Some(choose|c: int| #[trigger] is_best_code(tok, codes, c))
    } else {
        None
    }
}

/// Header lines of the extracted index.
pub open spec fn is_header_line(line: Seq<char>) -> bool {
    eq_ignore_ascii_case(line, "Master Index"@) || eq_ignore_ascii_case(
        line,
        "Song Title Book Page"@,
    )
}

/// The entry `(title, code, page)` a line yields, if any.
pub open spec fn master_line(raw: Seq<char>, codes: Seq<Seq<char>>) -> Option<
    (Seq<char>, Seq<char>, Seq<char>),
> {
    let line = trim(raw);
    let toks = words(line);
    let n = toks.len() as int;
    if line.len() == 0 || is_header_line(line) || n < 3 {
        None
    } else {
        let page = toks[n - 1];
        let book_tok = toks[n - 2];
        match best_code(book_tok, codes) {
            None => None,
            Some(c) => {
                let code = codes[c];
                let glued = book_tok.take(book_tok.len() - code.len());
                let front = join(toks.take(n - 2), seq![' ']);
                let title = if glued.len() == 0 {
                    front
                } else if front.len() == 0 {
                    glued
                } else {
                    front + seq![' '] + glued
                };
                if title.len() == 0 {
                    None
                } else {
                    Some((title, code, page))
                }
            },
        }
    }
}

/// Entries of all lines, in order.
pub open spec fn parse_master_spec(ls: Seq<Seq<char>>, codes: Seq<Seq<char>>) -> Seq<
    (Seq<char>, Seq<char>, Seq<char>),
>
    decreases ls.len(),
{
    if ls.len() == 0 {
        seq![]
    } else {
        let rest = parse_master_spec(ls.drop_last(), codes);
        match master_line(ls.last(), codes) {
            Some(e) => rest.push(e),
            None => rest,
        }
    }
}

pub open spec fn entry_views(v: Seq<RawEntry>) -> Seq<(Seq<char>, Seq<char>, Seq<char>)> {
    v.map_values(|e: RawEntry| (e.title@, e.code@, e.page@))
}

pub open spec fn string_views(v: Seq<String>) -> Seq<Seq<char>> {
    v.map_values(|s: String| s@)
}

fn code_matches_exec(tok: &[char], code: &[char]) -> (b: bool)
    ensures
        b == code_matches(tok@, code@),
{
    if code.len() > tok.len() {
        return false;
    }
    let suffix = slice_range(tok, tok.len() - code.len(), tok.len());
    assert(suffix@ =~= tok@.skip(tok@.len() - code@.len()));
    chars_eq_ignore_ascii_case(suffix.as_slice(), code)
}

fn find_code(tok: &[char], codes: &Vec<Vec<char>>) -> (r: Option<usize>)
    ensures
        match r {
            Some(c) => is_best_code(tok@, codes@.map_values(|v: Vec<char>| v@), c as int),
            None => forall|j: int|
                0 <= j < codes@.len() ==> !code_matches(tok@, #[trigger] codes@[j]@),
        },
{
    let ghost cv = codes@.map_values(|v: Vec<char>| v@);
    let mut best: Option<usize> = None;
    let mut i: usize = 0;
    while i < codes.len()
        invariant
            i <= codes@.len(),
            cv == codes@.map_values(|v: Vec<char>| v@),
            match best {
                Some(c) => c < i && code_matches(tok@, cv[c as int]) && forall|j: int|
                    0 <= j < i && #[trigger] code_matches(tok@, cv[j]) ==> cv[j].len() <= cv[c as int].len()
                        && (cv[j].len() == cv[c as int].len() ==> c <= j),
                None => forall|j: int| 0 <= j < i ==> !#[trigger] code_matches(tok@, cv[j]),
            },
        decreases codes@.len() - i,
    {
        if code_matches_exec(tok, codes[i].as_slice()) {
            match best {
                None => {
                    best = Some(i);
                },
                Some(c) => {
                    if codes[i].len() > codes[c].len() {
                        best = Some(i);
                    }
                },
            }
        }
        i = i + 1;
    }
    match best {
        Some(c) => {},
        None => {
            assert forall|j: int| 0 <= j < codes@.len() implies !code_matches(
                tok@,
                #[trigger] codes@[j]@,
            ) by {
                assert(cv[j] == codes@[j]@);
            }
        },
    }
    best
}

fn equals_ignore_case_literal(s: &[char], lit: &str) -> (b: bool)
    ensures
        b == eq_ignore_ascii_case(s@, lit@),
{
    let l = chars_of(lit);
    chars_eq_ignore_ascii_case(s, l.as_slice())
}

fn master_line_exec(raw: &String, codes: &Vec<Vec<char>>) -> (r: Option<RawEntry>)
    ensures
        match r {
            Some(e) => master_line(raw@, codes@.map_values(|v: Vec<char>| v@)) == Some(
                (e.title@, e.code@, e.page@),
            ),
            None => master_line(raw@, codes@.map_values(|v: Vec<char>| v@)) is None,
        },
{
    let ghost cv = codes@.map_values(|v: Vec<char>| v@);
    let rc = chars_of(raw.as_str());
    let line = trim_chars(rc.as_slice());
    if line.len() == 0 || equals_ignore_case_literal(line.as_slice(), "Master Index")
        || equals_ignore_case_literal(line.as_slice(), "Song Title Book Page") {
        return None;
    }
    let toks = split_words(line.as_slice());
    let ghost ws = words(line@);
    let n = toks.len();
    if n < 3 {
        return None;
    }
    let book_tok = toks[n - 2].as_slice();
    let found = find_code(book_tok, codes);
    let c = match found {
        None => {
            assert(best_code(ws[n - 2], cv) is None) by {
                if exists|c: int| #[trigger] is_best_code(ws[n - 2], cv, c) {
                    let c = choose|c: int| #[trigger] is_best_code(ws[n - 2], cv, c);
                    assert(code_matches(book_tok@, codes@[c]@));
                }
            }
            return None;
        },
        Some(c) => c,
    };
    proof {
        assert(is_best_code(ws[n - 2], cv, c as int));
        let c2 = choose|c2: int| #[trigger] is_best_code(ws[n - 2], cv, c2);
        assert(is_best_code(ws[n - 2], cv, c2));
        assert(code_matches(ws[n - 2], cv[c2]));
        assert(code_matches(ws[n - 2], cv[c as int]));
        assert(c2 == c);
    }
    let code = &codes[c];
    let glued = slice_range(book_tok, 0, book_tok.len() - code.len());
    let sep = vec![' '];
    assert(sep@ =~= seq![' ']);
    let mut title = join_range(&toks, 0, n - 2, sep.as_slice());
    assert(toks@.subrange(0, n - 2).map_values(|v: Vec<char>| v@) =~= ws.take(n - 2));
    if glued.len() > 0 {
        if title.len() > 0 {
            title.push(' ');
        }
        append_chars(&mut title, glued.as_slice());
    }
    if title.len() == 0 {
        return None;
    }
    let page = string_of(toks[n - 1].as_slice());
    let e = RawEntry {
        title: string_of(title.as_slice()),
        code: string_of(code.as_slice()),
        page,
    };
    proof {
        let front = join(ws.take(n - 2), seq![' ']);
        if glued@.len() == 0 {
            assert(title@ =~= front);
        } else if front.len() == 0 {
            assert(title@ =~= glued@);
        } else {
            assert(title@ =~= front + seq![' '] + glued@);
        }
    }
    Some(e)
}

/// Parse extracted index text lines into entries, recognizing only the given
/// `known_codes` (canonical casing). Header lines and anything not ending in a
/// known book code followed by a page label are skipped. When several codes
/// match, the longest wins (the first listed among equally long ones).
pub fn parse_master_index(lines: &[String], known_codes: &[String]) -> (r: Vec<RawEntry>)
    ensures
        entry_views(r@) == parse_master_spec(string_views(lines@), string_views(known_codes@)),
{
    let mut codes: Vec<Vec<char>> = Vec::new();
    let mut k: usize = 0;
    while k < known_codes.len()
        invariant
            k <= known_codes@.len(),
            codes@.len() == k,
            forall|j: int| 0 <= j < k ==> (#[trigger] codes@[j])@ == known_codes@[j]@,
        decreases known_codes@.len() - k,
    {
        codes.push(chars_of(known_codes[k].as_str()));
        k = k + 1;
    }
    assert(codes@.map_values(|v: Vec<char>| v@) =~= string_views(known_codes@));
    let mut out: Vec<RawEntry> = Vec::new();
    let mut i: usize = 0;
    while i < lines.len()
        invariant
            i <= lines@.len(),
            codes@.map_values(|v: Vec<char>| v@) == string_views(known_codes@),
            entry_views(out@) == parse_master_spec(
                string_views(lines@.take(i as int)),
                string_views(known_codes@),
            ),
        decreases lines@.len() - i,
    {
        proof {
            assert(string_views(lines@.take(i + 1)).drop_last() =~= string_views(
                lines@.take(i as int),
            ));
            assert(string_views(lines@.take(i + 1)).last() == lines@[i as int]@);
        }
        match master_line_exec(&lines[i], &codes) {
            Some(e) => {
                out.push(e);
                assert(entry_views(out@) =~= parse_master_spec(
                    string_views(lines@.take(i as int)),
                    string_views(known_codes@),
                ).push((e.title@, e.code@, e.page@)));
            },
            None => {},
        }
        i = i + 1;
    }
    assert(lines@.take(lines@.len() as int) =~= lines@);
    out
}

} // verus!
