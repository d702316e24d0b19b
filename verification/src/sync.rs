//! Which published indexes to download from the TuneCall server.
//!
//! The server holds an `index.txt` manifest (one `<book>.db` per line) plus
//! the `.db` files themselves, served over plain `http://`. Fetching them is
//! the caller's part; reading the manifest and naming the URLs is here.

use vstd::prelude::*;

use crate::text::{append_chars, chars_of, lines, split_lines, string_of, trim, trim_chars};

verus! {

/// Where the indexes are published.
pub open spec fn base_url() -> Seq<char> {
    "http://www.davidfaure.fr/tunecall"@
}

/// The URL of a file published beside the indexes.
pub open spec fn url_of(name: Seq<char>) -> Seq<char> {
    base_url() + "/"@ + name
}

pub fn file_url(name: &str) -> (r: String)
    ensures
        r@ == url_of(name@),
{
    let mut out = chars_of("http://www.davidfaure.fr/tunecall");
    append_chars(&mut out, chars_of("/").as_slice());
    append_chars(&mut out, chars_of(name).as_slice());
    string_of(out.as_slice())
}

/// `s` ends with `.db` (case matters).
pub open spec fn ends_with_db(s: Seq<char>) -> bool {
    s.len() >= 3 && s.skip(s.len() - 3) == seq!['.', 'd', 'b']
}

/// The index files a manifest lists: each line trimmed, keeping the
/// non-empty ones that end in `.db`, in manifest order.
pub open spec fn manifest_names_spec(ls: Seq<Seq<char>>) -> Seq<Seq<char>>
    decreases ls.len(),
{
    if ls.len() == 0 {
        Seq::empty()
    } else {
        let rest = manifest_names_spec(ls.drop_last());
        let n = trim(ls.last());
        if n.len() > 0 && ends_with_db(n) {
            rest.push(n)
        } else {
            rest
        }
    }
}

/// The index files listed in the manifest text.
pub fn manifest_names(manifest: &str) -> (r: Vec<String>)
    ensures
        r@.map_values(|s: String| s@) == manifest_names_spec(lines(manifest@)),
{
    let ls = split_lines(chars_of(manifest).as_slice());
    let ghost lv = lines(manifest@);
    let mut out: Vec<String> = Vec::new();
    let mut k: usize = 0;
    assert(out@.map_values(|s: String| s@) =~= manifest_names_spec(lv.take(0)));
    while k < ls.len()
        invariant
            k <= ls@.len(),
            lv == lines(manifest@),
            ls@.len() == lv.len(),
            forall|i: int| 0 <= i < ls@.len() ==> (#[trigger] ls@[i])@ == lv[i],
            out@.map_values(|s: String| s@) == manifest_names_spec(lv.take(k as int)),
        decreases ls@.len() - k,
    {
        assert(lv.take(k + 1).drop_last() =~= lv.take(k as int));
        assert(lv.take(k + 1).last() == ls@[k as int]@);
        let n = trim_chars(ls[k].as_slice());
        let keep = n.len() >= 3 && n[n.len() - 3] == '.' && n[n.len() - 2] == 'd' && n[n.len() - 1] == 'b';
        proof {
            if n@.len() >= 3 {
                assert(keep == (n@.skip(n@.len() - 3) =~= seq!['.', 'd', 'b']));
            }
        }
        if keep {
            let ghost prev = out@;
            out.push(string_of(n.as_slice()));
            assert(out@.map_values(|s: String| s@) =~= prev.map_values(|s: String| s@).push(n@));
        }
        k = k + 1;
    }
    assert(lv.take(k as int) =~= lv);
    out
}

} // verus!
