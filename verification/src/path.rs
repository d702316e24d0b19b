//! File-path decomposition on `/`-separated paths, as `std::path::Path` does
//! it on Unix: file name, stem and extension.

use vstd::prelude::*;

use crate::text::{chars_eq_ignore_ascii_case, chars_of, eq_ignore_ascii_case, slice_range};

verus! {

/// The `/`-separated segments of `s` (empty ones included); `cur` is the
/// segment being read.
pub open spec fn segments_from(s: Seq<char>, cur: Seq<char>) -> Seq<Seq<char>>
    decreases s.len(),
{
    if s.len() == 0 {
        seq![cur]
    } else if s[0] == '/' {
        seq![cur] + segments_from(s.drop_first(), seq![])
    } else {
        segments_from(s.drop_first(), cur.push(s[0]))
    }
}

pub open spec fn segments(s: Seq<char>) -> Seq<Seq<char>> {
    segments_from(s, seq![])
}

/// The last segment that is neither empty nor `.`, if any.
pub open spec fn last_component(segs: Seq<Seq<char>>) -> Option<Seq<char>>
    decreases segs.len(),
{
    if segs.len() == 0 {
        None
    } else if segs.last().len() == 0 || segs.last() == seq!['.'] {
        last_component(segs.drop_last())
    } else {
        Some(segs.last())
    }
}

/// `Path::file_name`: the last component, unless it is `..` or there is none.
pub open spec fn file_name(p: Seq<char>) -> Option<Seq<char>> {
    match last_component(segments(p)) {
        Some(c) => if c == seq!['.', '.'] {
            None
        } else {
            Some(c)
        },
        None => None,
    }
}

/// Position of the last `.` in `s` before `i`, if any.
pub open spec fn last_dot_before(s: Seq<char>, i: int) -> Option<int>
    decreases i,
{
    if i <= 0 {
        None
    } else if s[i - 1] == '.' {
        Some(i - 1)
    } else {
        last_dot_before(s, i - 1)
    }
}

/// `Path::file_stem` of a file name: the part before the last `.`, or the
/// whole name when it has no `.` or only a leading one.
pub open spec fn stem_of_name(name: Seq<char>) -> Seq<char> {
    match last_dot_before(name, name.len() as int) {
        Some(d) => if d == 0 {
            name
        } else {
            name.take(d)
        },
        None => name,
    }
}

/// `Path::extension` of a file name: the part after the last `.`, unless the
/// name has no `.` or only a leading one.
pub open spec fn ext_of_name(name: Seq<char>) -> Option<Seq<char>> {
    match last_dot_before(name, name.len() as int) {
        Some(d) => if d == 0 {
            None
        } else {
            Some(name.skip(d + 1))
        },
        None => None,
    }
}

pub open spec fn file_stem(p: Seq<char>) -> Option<Seq<char>> {
    match file_name(p) {
        Some(n) => Some(stem_of_name(n)),
        None => None,
    }
}

pub open spec fn extension(p: Seq<char>) -> Option<Seq<char>> {
    match file_name(p) {
        Some(n) => ext_of_name(n),
        None => None,
    }
}

/// The path's extension equals `ext`, ignoring ASCII case.
pub open spec fn has_ext_spec(p: Seq<char>, ext: Seq<char>) -> bool {
    extension(p) is Some && eq_ignore_ascii_case(extension(p)->0, ext)
}

fn split_segments(s: &[char]) -> (r: Vec<Vec<char>>)
    ensures
        r@.len() == segments(s@).len(),
        forall|i: int| 0 <= i < r@.len() ==> (#[trigger] r@[i])@ == segments(s@)[i],
{
    let mut out: Vec<Vec<char>> = Vec::new();
    let mut cur: Vec<char> = Vec::new();
    let mut i: usize = 0;
    let ghost mut acc: Seq<Seq<char>> = seq![];
    assert(s@.skip(0) =~= s@);
    assert(cur@ =~= seq![]);
    assert(acc + segments_from(s@, cur@) =~= segments_from(s@, cur@));
    while i < s.len()
        invariant
            i <= s@.len(),
            out@.len() == acc.len(),
            forall|k: int| 0 <= k < out@.len() ==> (#[trigger] out@[k])@ == acc[k],
            segments(s@) == acc + segments_from(s@.skip(i as int), cur@),
        decreases s@.len() - i,
    {
        let ghost rest = s@.skip(i as int);
        assert(rest.drop_first() =~= s@.skip(i + 1));
        if s[i] == '/' {
            let w = cur;
            proof {
                assert(acc + (seq![w@] + segments_from(rest.drop_first(), seq![])) =~= acc.push(w@)
                    + segments_from(rest.drop_first(), seq![]));
                acc = acc.push(w@);
            }
            out.push(w);
            cur = Vec::new();
            assert(cur@ =~= seq![]);
        } else {
            cur.push(s[i]);
        }
        i = i + 1;
    }
    proof {
        assert(s@.skip(i as int) =~= seq![]);
        acc = acc.push(cur@);
    }
    out.push(cur);
    proof {
        assert(segments(s@) =~= acc);
    }
    out
}

fn is_dot(seg: &Vec<char>) -> (b: bool)
    ensures
        b == (seg@ == seq!['.']),
{
    if seg.len() == 1 && seg[0] == '.' {
        assert(seg@ =~= seq!['.']);
        true
    } else {
        false
    }
}

fn is_dot_dot(seg: &Vec<char>) -> (b: bool)
    ensures
        b == (seg@ == seq!['.', '.']),
{
    if seg.len() == 2 && seg[0] == '.' && seg[1] == '.' {
        assert(seg@ =~= seq!['.', '.']);
        true
    } else {
        false
    }
}

/// `Path::file_name` on characters.
pub fn file_name_chars(p: &[char]) -> (r: Option<Vec<char>>)
    ensures
        match r {
            Some(n) => file_name(p@) == Some(n@),
            None => file_name(p@) is None,
        },
{
    let segs = split_segments(p);
    let ghost sv = segments(p@);
    let mut k: usize = segs.len();
    assert(sv.take(sv.len() as int) =~= sv);
    while k > 0 && (segs[k - 1].len() == 0 || is_dot(&segs[k - 1]))
        invariant
            k <= segs@.len(),
            segs@.len() == sv.len(),
            forall|i: int| 0 <= i < segs@.len() ==> (#[trigger] segs@[i])@ == sv[i],
            last_component(sv) == last_component(sv.take(k as int)),
        decreases k,
    {
        assert(sv.take(k as int).drop_last() =~= sv.take(k - 1));
        k = k - 1;
    }
    if k == 0 {
        return None;
    }
    let last = &segs[k - 1];
    if is_dot_dot(last) {
        return None;
    }
    let n = slice_range(last.as_slice(), 0, last.len());
    assert(n@ =~= last@);
    Some(n)
}

fn last_dot(name: &[char]) -> (r: Option<usize>)
    ensures
        match r {
            Some(d) => last_dot_before(name@, name@.len() as int) == Some(d as int) && d < name@.len(),
            None => last_dot_before(name@, name@.len() as int) is None,
        },
{
    let mut i: usize = name.len();
    while i > 0
        invariant
            i <= name@.len(),
            last_dot_before(name@, name@.len() as int) == last_dot_before(name@, i as int),
        decreases i,
    {
        if name[i - 1] == '.' {
            return Some(i - 1);
        }
        i = i - 1;
    }
    None
}

/// `Path::file_stem` on characters.
pub fn file_stem_chars(p: &[char]) -> (r: Option<Vec<char>>)
    ensures
        match r {
            Some(s) => file_stem(p@) == Some(s@),
            None => file_stem(p@) is None,
        },
{
    match file_name_chars(p) {
        None => None,
        Some(name) => match last_dot(name.as_slice()) {
            Some(d) => if d == 0 {
                Some(name)
            } else {
                let s = slice_range(name.as_slice(), 0, d);
                assert(s@ =~= name@.take(d as int));
                Some(s)
            },
            None => Some(name),
        },
    }
}

/// `Path::extension` on characters.
pub fn extension_chars(p: &[char]) -> (r: Option<Vec<char>>)
    ensures
        match r {
            Some(s) => extension(p@) == Some(s@),
            None => extension(p@) is None,
        },
{
    match file_name_chars(p) {
        None => None,
        Some(name) => match last_dot(name.as_slice()) {
            Some(d) => if d == 0 || d >= name.len() {
                None
            } else {
                let s = slice_range(name.as_slice(), d + 1, name.len());
                assert(s@ =~= name@.skip(d + 1));
                Some(s)
            },
            None => None,
        },
    }
}

/// Case-insensitive extension check.
pub fn has_ext(path: &str, ext: &str) -> (b: bool)
    ensures
        b == has_ext_spec(path@, ext@),
{
    let p = chars_of(path);
    let e = chars_of(ext);
    match extension_chars(p.as_slice()) {
        Some(x) => chars_eq_ignore_ascii_case(x.as_slice(), e.as_slice()),
        None => false,
    }
}

} // verus!
