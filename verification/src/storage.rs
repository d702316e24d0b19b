//! App-specific filesystem locations.
//!
//! On desktop the base directory comes from the platform's data directory; on
//! Android it is set once at startup from the app-specific path. The base is
//! resolved at most once: the first of [`set_data_dir`] and [`data_dir`] fixes
//! it, and later calls see the same value.

use vstd::prelude::*;

use crate::text::{append_chars, chars_of, string_of};

verus! {

/// `PathBuf::push` on Unix: an absolute `p` replaces the base; otherwise `p`
/// is appended, after a `/` unless the base is empty or already ends in one.
pub open spec fn path_join(base: Seq<char>, p: Seq<char>) -> Seq<char> {
    if p.len() > 0 && p[0] == '/' {
        p
    } else if base.len() > 0 && base.last() != '/' {
        base + seq!['/'] + p
    } else {
        base + p
    }
}

/// `base.join(p)`.
pub fn join(base: &str, p: &str) -> (r: String)
    ensures
        r@ == path_join(base@, p@),
{
    let b = chars_of(base);
    let pc = chars_of(p);
    if pc.len() > 0 && pc[0] == '/' {
        return string_of(pc.as_slice());
    }
    let mut out = b;
    if out.len() > 0 && out[out.len() - 1] != '/' {
        out.push('/');
    }
    append_chars(&mut out, pc.as_slice());
    string_of(out.as_slice())
}

/// Default base directory: `tunecall` inside the platform's data directory,
/// or inside `.` when the platform has none.
pub open spec fn default_data_dir_spec(system: Option<Seq<char>>) -> Seq<char> {
    match system {
        Some(d) => path_join(d, "tunecall"@),
        None => path_join("."@, "tunecall"@),
    }
}

/// The view of a base-directory slot.
pub open spec fn slot_view(slot: Option<String>) -> Option<Seq<char>> {
    match slot {
        Some(d) => Some(d@),
        None => None,
    }
}

/// The slot after an override: only an unresolved slot takes the new value.
pub open spec fn after_set(slot: Option<Seq<char>>, dir: Seq<char>) -> Option<Seq<char>> {
    match slot {
        Some(d) => Some(d),
        None => Some(dir),
    }
}

/// The base directory that a read of the slot gives, the platform's data
/// directory being `system`.
pub open spec fn resolved(slot: Option<Seq<char>>, system: Option<Seq<char>>) -> Seq<char> {
    match slot {
        Some(d) => d,
        None => default_data_dir_spec(system),
    }
}

/// `dirs::data_dir`, the platform's per-user data directory (`None` when the
/// platform has none), converted to text. What it returns depends on the
/// environment of the process, so nothing is stated of it. A path that is not
/// valid UTF-8 is converted lossily (invalid sequences become U+FFFD), since
/// the library holds paths as text.
#[verifier::external_body]
fn platform_data_dir() -> (r: Option<String>) {
    match dirs::data_dir() {
        Some(p) => Some(p.to_string_lossy().into_owned()),
        None => None,
    }
}

/// Default base directory given the platform's data directory.
pub fn default_data_dir(system: Option<String>) -> (r: String)
    ensures
        r@ == default_data_dir_spec(slot_view(system)),
{
    match system {
        Some(d) => join(d.as_str(), "tunecall"),
        None => join(".", "tunecall"),
    }
}

/// Override the base data directory. A no-op if it was already resolved.
pub fn set_data_dir(slot: &mut Option<String>, dir: String)
    ensures
        slot_view(*final(slot)) == after_set(slot_view(*old(slot)), dir@),
{
    if slot.is_none() {
        *slot = Some(dir);
    }
}

/// The base directory, resolved from the platform's data directory `system`
/// when the slot is still empty; the slot keeps what is returned.
pub fn resolve_data_dir(slot: &mut Option<String>, system: Option<String>) -> (r: String)
    ensures
        r@ == resolved(slot_view(*old(slot)), slot_view(system)),
        slot_view(*final(slot)) == Some(r@),
{
    match slot {
        Some(d) => d.clone(),
        None => {
            let d = default_data_dir(system);
            *slot = Some(d.clone());
            d
        },
    }
}

/// The base directory for all app data. On first use it is resolved from the
/// platform's data directory; after that the same value is returned.
pub fn data_dir(slot: &mut Option<String>) -> (r: String)
    ensures
        slot_view(*final(slot)) == Some(r@),
        exists|system: Option<Seq<char>>| r@ == #[trigger] resolved(slot_view(*old(slot)), system),
        *old(slot) is Some ==> slot_view(*old(slot)) == Some(r@),
{
    let system = if slot.is_none() {
        platform_data_dir()
    } else {
        None
    };
    let r = resolve_data_dir(slot, system);
    proof {
        let ghost s = slot_view(system);
        assert(r@ == resolved(slot_view(*old(slot)), s));
    }
    r
}

/// Folder holding the `.pdf` books and any locally authored `.db` indexes.
pub fn pdf_dir(slot: &mut Option<String>) -> (r: String)
    ensures
        slot_view(*final(slot)) matches Some(d) && r@ == path_join(d, "pdfs"@),
        exists|system: Option<Seq<char>>| slot_view(*final(slot)) == Some(#[trigger] resolved(slot_view(*old(slot)), system)),
{
    let d = data_dir(slot);
    join(d.as_str(), "pdfs")
}

/// Folder where Reload writes the indexes it downloads, kept apart from
/// [`pdf_dir`] so a download never clobbers locally authored indexes.
pub fn download_dir(slot: &mut Option<String>) -> (r: String)
    ensures
        slot_view(*final(slot)) matches Some(d) && r@ == path_join(d, "downloaded"@),
        exists|system: Option<Seq<char>>| slot_view(*final(slot)) == Some(#[trigger] resolved(slot_view(*old(slot)), system)),
{
    let d = data_dir(slot);
    join(d.as_str(), "downloaded")
}

/// File holding the user's setlists (JSON), in the data-dir root.
pub fn setlists_path(slot: &mut Option<String>) -> (r: String)
    ensures
        slot_view(*final(slot)) matches Some(d) && r@ == path_join(d, "setlists.json"@),
        exists|system: Option<Seq<char>>| slot_view(*final(slot)) == Some(#[trigger] resolved(slot_view(*old(slot)), system)),
{
    let d = data_dir(slot);
    join(d.as_str(), "setlists.json")
}

/// File holding the user's app settings (JSON), beside `setlists.json`.
pub fn settings_path(slot: &mut Option<String>) -> (r: String)
    ensures
        slot_view(*final(slot)) matches Some(d) && r@ == path_join(d, "settings.json"@),
        exists|system: Option<Seq<char>>| slot_view(*final(slot)) == Some(#[trigger] resolved(slot_view(*old(slot)), system)),
{
    let d = data_dir(slot);
    join(d.as_str(), "settings.json")
}

/// Once the base directory is resolved it never changes: a later read gives
/// the same value whatever the platform reports, and a later override is
/// ignored.
pub proof fn law_data_dir_stable(
    slot: Option<Seq<char>>,
    system: Option<Seq<char>>,
    later: Option<Seq<char>>,
    dir: Seq<char>,
)
    ensures
        resolved(Some(resolved(slot, system)), later) == resolved(slot, system),
        after_set(Some(resolved(slot, system)), dir) == Some(resolved(slot, system)),
{
}

/// Downloads land apart from the locally authored files: for every base
/// directory, the download folder is not the PDF folder.
pub proof fn law_download_dir_apart(base: Seq<char>)
    ensures
        path_join(base, "downloaded"@) != path_join(base, "pdfs"@),
{
    reveal_strlit("downloaded");
    reveal_strlit("pdfs");
    assert(path_join(base, "downloaded"@).len() != path_join(base, "pdfs"@).len());
}

/// An override made before the first read is what every read returns.
pub proof fn law_set_then_read(dir: Seq<char>, system: Option<Seq<char>>)
    ensures
        resolved(after_set(None, dir), system) == dir,
{
}

} // verus!
