//! Windows paths of the Steam layout, as strings.
//!
//! Paths are plain strings in Windows form. Both `\` and `/` separate
//! components; a drive prefix is a letter followed by `:`. `parent_of` and
//! `join` below are the two operations the layout needs:
//!
//! * a path is a drive prefix (`C:`, optional), a root separator
//!   (optional), and components; empty and `.` components are skipped,
//!   except a leading `.` in an unrooted path (as `std::path::Path` reads
//!   Windows paths; UNC and verbatim prefixes are not modelled);
//! * the parent of a path is the path without its last component and the
//!   separators and `.` components before it; a path with no component
//!   (empty, a bare root, a bare drive) has none; the name of a path is
//!   its last component unless that is `..`;
//! * joining appends `\` and the name, unless the base is empty, already
//!   ends with a separator, or is a bare drive prefix.
use vstd::prelude::*;

use crate::text::{append_chars, chars_of, copy_range, string_of, trim_end_char, trim_end_matching};

verus! {

pub open spec fn is_sep(c: char) -> bool {
    c == '\\' || c == '/'
}

pub open spec fn is_ascii_letter(c: char) -> bool {
    ('a' <= c && c <= 'z') || ('A' <= c && c <= 'Z')
}

/// A bare drive prefix: a letter and `:`.
pub open spec fn is_drive_prefix(s: Seq<char>) -> bool {
    s.len() == 2 && s[1] == ':' && is_ascii_letter(s[0])
}

/// Length of the drive prefix `X:` that `p` starts with (0 for none).
pub open spec fn prefix_len(p: Seq<char>) -> int {
    if p.len() >= 2 && p[1] == ':' && is_ascii_letter(p[0]) {
        2
    } else {
        0
    }
}

/// A separator right after the prefix: the path is rooted.
pub open spec fn has_root(p: Seq<char>) -> bool {
    p.len() > prefix_len(p) && is_sep(p[prefix_len(p)])
}

/// An unrooted path whose first component is `.`.
pub open spec fn has_cur_dir(p: Seq<char>) -> bool {
    let k = prefix_len(p);
    &&& !has_root(p)
    &&& p.len() > k
    &&& p[k] == '.'
    &&& (p.len() == k + 1 || is_sep(p[k + 1]))
}

/// Where the components after prefix, root and a leading `.` begin.
pub open spec fn body_start(p: Seq<char>) -> int {
    prefix_len(p) + (if has_root(p) {
        1int
    } else {
        0int
    }) + (if has_cur_dir(p) {
        1int
    } else {
        0int
    })
}

/// `s` without its trailing separators and `.` components, down to `lb`.
pub open spec fn trim_back(s: Seq<char>, lb: int) -> Seq<char>
    decreases s.len(),
{
    if s.len() <= lb || s.len() == 0 {
        s
    } else if is_sep(s.last()) || (s.last() == '.' && (s.len() - 1 == lb || (s.len() >= 2 && is_sep(
        s[s.len() - 2],
    )))) {
        trim_back(s.drop_last(), lb)
    } else {
        s
    }
}

/// Where the last component of `s` begins: after its last separator at or
/// beyond `lb`, else at `lb`.
pub open spec fn comp_start(s: Seq<char>, lb: int) -> int
    decreases s.len(),
{
    if s.len() <= lb || s.len() == 0 {
        lb
    } else if is_sep(s.last()) {
        s.len() as int
    } else {
        comp_start(s.drop_last(), lb)
    }
}

/// The parent directory of a path (see the module documentation).
pub open spec fn parent_of(p: Seq<char>) -> Option<Seq<char>> {
    let lb = body_start(p);
    let t = trim_back(p, lb);
    if t.len() > lb {
        Some(trim_back(t.take(comp_start(t, lb)), lb))
    } else if has_cur_dir(p) {
        Some(p.take(lb - 1))
    } else {
        None
    }
}

/// The last component of a path, when it is a name: none for a path
/// without components after its prefix and root, or ending in `..`.
pub open spec fn file_name_of(p: Seq<char>) -> Option<Seq<char>> {
    let lb = body_start(p);
    let t = trim_back(p, lb);
    if t.len() > lb {
        let c = t.skip(comp_start(t, lb));
        if c == seq!['.', '.'] {
            None
        } else {
            Some(c)
        }
    } else {
        None
    }
}

/// `base` joined with the relative name `name`.
pub open spec fn join(base: Seq<char>, name: Seq<char>) -> Seq<char> {
    if base.len() == 0 || is_sep(base.last()) || is_drive_prefix(base) {
        base + name
    } else {
        base + seq!['\\'] + name
    }
}

fn is_separator(c: char) -> (r: bool)
    ensures
        r == is_sep(c),
{
    c == '\\' || c == '/'
}

fn drive_prefix(s: &Vec<char>) -> (r: bool)
    ensures
        r == is_drive_prefix(s@),
{
    s.len() == 2 && s[1] == ':' && (('a' <= s[0] && s[0] <= 'z') || ('A' <= s[0] && s[0] <= 'Z'))
}

fn body_start_of(p: &Vec<char>) -> (r: usize)
    ensures
        r == body_start(p@),
        r <= p@.len(),
{
    let n = p.len();
    let k: usize = if n >= 2 && p[1] == ':' && (('a' <= p[0] && p[0] <= 'z') || ('A' <= p[0]
        && p[0] <= 'Z')) {
        2
    } else {
        0
    };
    if n > k && is_separator(p[k]) {
        k + 1
    } else if n > k && p[k] == '.' && (n == k + 1 || is_separator(p[k + 1])) {
        k + 1
    } else {
        k
    }
}

/// Length of `trim_back(p.take(n), lb)`.
fn trim_back_len(p: &Vec<char>, n: usize, lb: usize) -> (m: usize)
    requires
        n <= p@.len(),
    ensures
        m <= n,
        n > lb ==> m >= lb,
        n <= lb ==> m == n,
        trim_back(p@.take(n as int), lb as int) == p@.take(m as int),
{
    let mut hi = n;
    proof {
        assert(p@.take(n as int) =~= p@.take(hi as int));
    }
    while hi > lb && hi > 0 && (is_separator(p[hi - 1]) || (p[hi - 1] == '.' && (hi - 1 == lb || (
    hi >= 2 && is_separator(p[hi - 2])))))
        invariant
            hi <= n <= p@.len(),
            n > lb ==> hi >= lb,
            n <= lb ==> hi == n,
            trim_back(p@.take(n as int), lb as int) == trim_back(p@.take(hi as int), lb as int),
        decreases hi,
    {
        proof {
            let s = p@.take(hi as int);
            assert(s.last() == p@[hi - 1]);
            if hi >= 2 {
                assert(s[s.len() - 2] == p@[hi - 2]);
            }
            assert(s.drop_last() =~= p@.take(hi - 1));
        }
        hi = hi - 1;
    }
    proof {
        let s = p@.take(hi as int);
        if hi > lb && hi > 0 {
            assert(s.last() == p@[hi - 1]);
            if hi >= 2 {
                assert(s[s.len() - 2] == p@[hi - 2]);
            }
        }
    }
    hi
}

/// `comp_start(p.take(n), lb)`.
fn comp_start_of(p: &Vec<char>, n: usize, lb: usize) -> (k: usize)
    requires
        lb <= n <= p@.len(),
    ensures
        lb <= k <= n,
        k == comp_start(p@.take(n as int), lb as int),
{
    let mut j = n;
    while j > lb && !is_separator(p[j - 1])
        invariant
            lb <= j <= n <= p@.len(),
            comp_start(p@.take(n as int), lb as int) == comp_start(p@.take(j as int), lb as int),
        decreases j,
    {
        proof {
            assert(p@.take(j as int).last() == p@[j - 1]);
            assert(p@.take(j as int).drop_last() =~= p@.take(j - 1));
        }
        j = j - 1;
    }
    proof {
        if j > lb {
            assert(p@.take(j as int).last() == p@[j - 1]);
        }
    }
    j
}

/// Parent directory of `p`, if it has one.
pub fn parent_path(p: &Vec<char>) -> (r: Option<Vec<char>>)
    ensures
        r matches Some(v) ==> parent_of(p@) == Some(v@),
        r is None ==> parent_of(p@) is None,
{
    let lb = body_start_of(p);
    let tl = trim_back_len(p, p.len(), lb);
    proof {
        assert(p@.take(p@.len() as int) =~= p@);
    }
    if tl > lb {
        let k = comp_start_of(p, tl, lb);
        let m = trim_back_len(p, k, lb);
        proof {
            let t = p@.take(tl as int);
            assert(t.take(k as int) =~= p@.take(k as int));
        }
        Some(copy_range(p, 0, m))
    } else if lb > 0 && has_cur_dir_of(p) {
        let r = copy_range(p, 0, lb - 1);
        Some(r)
    } else {
        proof {
            assert(p@.take(tl as int).len() == tl);
        }
        None
    }
}

fn has_cur_dir_of(p: &Vec<char>) -> (r: bool)
    ensures
        r == has_cur_dir(p@),
{
    let n = p.len();
    let k: usize = if n >= 2 && p[1] == ':' && (('a' <= p[0] && p[0] <= 'z') || ('A' <= p[0]
        && p[0] <= 'Z')) {
        2
    } else {
        0
    };
    !(n > k && is_separator(p[k])) && n > k && p[k] == '.' && (n == k + 1 || is_separator(p[k + 1]))
}

/// The last component of `p`, when it is a name.
pub fn file_name(p: &Vec<char>) -> (r: Option<Vec<char>>)
    ensures
        r matches Some(v) ==> file_name_of(p@) == Some(v@),
        r is None ==> file_name_of(p@) is None,
{
    let lb = body_start_of(p);
    let tl = trim_back_len(p, p.len(), lb);
    proof {
        assert(p@.take(p@.len() as int) =~= p@);
    }
    if tl > lb {
        let k = comp_start_of(p, tl, lb);
        let c = copy_range(p, k, tl);
        proof {
            assert(c@ =~= p@.take(tl as int).skip(k as int));
        }
        if c.len() == 2 && c[0] == '.' && c[1] == '.' {
            proof {
                assert(c@ =~= seq!['.', '.']);
            }
            None
        } else {
            Some(c)
        }
    } else {
        proof {
            assert(p@.take(tl as int).len() == tl);
        }
        None
    }
}

/// `base` joined with `name`.
pub fn join_path(base: &Vec<char>, name: &Vec<char>) -> (r: Vec<char>)
    ensures
        r@ == join(base@, name@),
{
    let mut r = copy_range(base, 0, base.len());
    proof {
        assert(r@ =~= base@);
    }
    let n = base.len();
    if !(n == 0 || is_separator(base[n - 1]) || drive_prefix(base)) {
        r.push('\\');
    }
    append_chars(&mut r, name);
    r
}

// ---------------------------------------------------------------------
// The Steam layout
// ---------------------------------------------------------------------

/// A drive letter as given by the user, without its trailing `:`s.
pub open spec fn letter_of(drive: Seq<char>) -> Seq<char> {
    trim_end_char(drive, ':')
}

pub open spec fn steam_common_path_spec(drive: Seq<char>) -> Seq<char> {
    letter_of(drive) + ":\\SteamLibrary\\steamapps\\common"@
}

pub open spec fn steamapps_path_spec(drive: Seq<char>) -> Seq<char> {
    letter_of(drive) + ":\\SteamLibrary\\steamapps"@
}

pub open spec fn vaultsync_db_path_spec(drive: Seq<char>) -> Seq<char> {
    letter_of(drive) + ":\\vaultsync.db"@
}

pub open spec fn drive_root_spec(drive: Seq<char>) -> Seq<char> {
    letter_of(drive) + ":\\"@
}

/// The drive letter with its trailing `:`s removed.
pub fn trim_drive_letter(drive_letter: &str) -> (r: String)
    ensures
        r@ == letter_of(drive_letter@),
{
    let d = chars_of(drive_letter);
    string_of(trim_end_matching(&d, ':'))
}

fn letter_then(drive_letter: &str, tail: &str) -> (r: String)
    ensures
        r@ == letter_of(drive_letter@) + tail@,
{
    let d = chars_of(drive_letter);
    let mut v = trim_end_matching(&d, ':');
    let t = chars_of(tail);
    append_chars(&mut v, &t);
    string_of(v)
}

/// `<letter>:\SteamLibrary\steamapps\common` on the given drive.
pub fn steam_common_path(drive_letter: &str) -> (p: String)
    ensures
        p@ == steam_common_path_spec(drive_letter@),
{
    letter_then(drive_letter, ":\\SteamLibrary\\steamapps\\common")
}

/// `<letter>:\SteamLibrary\steamapps` on the given drive: where Steam keeps
/// the `appmanifest_*.acf` files of the library.
pub fn steamapps_path(drive_letter: &str) -> (p: String)
    ensures
        p@ == steamapps_path_spec(drive_letter@),
{
    letter_then(drive_letter, ":\\SteamLibrary\\steamapps")
}

/// `<letter>:\vaultsync.db`: the catalog database at the root of a vault.
pub fn vaultsync_db_path(drive_letter: &str) -> (p: String)
    ensures
        p@ == vaultsync_db_path_spec(drive_letter@),
{
    letter_then(drive_letter, ":\\vaultsync.db")
}

/// `<letter>:\`: the root of the drive.
pub fn drive_root(drive_letter: &str) -> (p: String)
    ensures
        p@ == drive_root_spec(drive_letter@),
{
    letter_then(drive_letter, ":\\")
}

/// The vault's `steamapps\common` folder (same as `steam_common_path`).
pub fn vault_common_path(drive_letter: &str) -> (p: String)
    ensures
        p@ == steam_common_path_spec(drive_letter@),
{
    steam_common_path(drive_letter)
}

pub open spec fn libraryfolders_vdf_spec() -> Seq<char> {
    "C:\\Program Files (x86)\\Steam\\steamapps\\libraryfolders.vdf"@
}

/// Where Steam keeps its list of libraries.
pub fn libraryfolders_vdf_path() -> (p: String)
    ensures
        p@ == libraryfolders_vdf_spec(),
{
    string_of(chars_of("C:\\Program Files (x86)\\Steam\\steamapps\\libraryfolders.vdf"))
}

/// The backup of `libraryfolders.vdf` taken while a vault is isolated.
pub fn vdf_backup_path() -> (p: String)
    ensures
        p@ == libraryfolders_vdf_spec() + ".vaultsync-backup"@,
{
    let mut v = chars_of("C:\\Program Files (x86)\\Steam\\steamapps\\libraryfolders.vdf");
    let t = chars_of(".vaultsync-backup");
    append_chars(&mut v, &t);
    string_of(v)
}

/// `appmanifest_<app_id>.acf`.
pub open spec fn manifest_name(app_id: Seq<char>) -> Seq<char> {
    "appmanifest_"@ + app_id + ".acf"@
}

/// The manifest of `app_id` in the `steamapps` folder above the library's
/// `common` folder, when that folder has a parent.
pub open spec fn manifest_path_spec(lib_common: Seq<char>, app_id: Seq<char>) -> Option<Seq<char>> {
    match parent_of(lib_common) {
        Some(steamapps) => Some(join(steamapps, manifest_name(app_id))),
        None => None,
    }
}

/// The manifest renamed aside while the vault is isolated.
pub open spec fn hidden_manifest_path_spec(lib_common: Seq<char>, app_id: Seq<char>) -> Option<
    Seq<char>,
> {
    match parent_of(lib_common) {
        Some(steamapps) => Some(join(steamapps, manifest_name(app_id) + ".vaultsync-hidden"@)),
        None => None,
    }
}

fn manifest_file_name(app_id: &Vec<char>, hidden: bool) -> (r: Vec<char>)
    ensures
        r@ == (if hidden {
            manifest_name(app_id@) + ".vaultsync-hidden"@
        } else {
            manifest_name(app_id@)
        }),
{
    let mut r = chars_of("appmanifest_");
    append_chars(&mut r, app_id);
    let ext = chars_of(".acf");
    append_chars(&mut r, &ext);
    if hidden {
        let h = chars_of(".vaultsync-hidden");
        append_chars(&mut r, &h);
    }
    r
}

/// Path of the manifest of `app_id` for the library whose `common`
/// folder is `lib_common`.
pub fn vault_manifest_path(lib_common: &str, app_id: &str) -> (r: Option<String>)
    ensures
        r matches Some(p) ==> manifest_path_spec(lib_common@, app_id@) == Some(p@),
        r is None ==> manifest_path_spec(lib_common@, app_id@) is None,
{
    let lib = chars_of(lib_common);
    let app = chars_of(app_id);
    match parent_path(&lib) {
        Some(steamapps) => {
            let name = manifest_file_name(&app, false);
            Some(string_of(join_path(&steamapps, &name)))
        },
        None => None,
    }
}

/// Path of the hidden manifest of `app_id` for the library whose
/// `common` folder is `lib_common`.
pub fn vault_hidden_manifest_path(lib_common: &str, app_id: &str) -> (r: Option<String>)
    ensures
        r matches Some(p) ==> hidden_manifest_path_spec(lib_common@, app_id@) == Some(p@),
        r is None ==> hidden_manifest_path_spec(lib_common@, app_id@) is None,
{
    let lib = chars_of(lib_common);
    let app = chars_of(app_id);
    match parent_path(&lib) {
        Some(steamapps) => {
            let name = manifest_file_name(&app, true);
            Some(string_of(join_path(&steamapps, &name)))
        },
        None => None,
    }
}

/// `base` joined with `name`, as strings.
pub fn join_str(base: &str, name: &str) -> (r: String)
    ensures
        r@ == join(base@, name@),
{
    let b = chars_of(base);
    let n = chars_of(name);
    string_of(join_path(&b, &n))
}

/// The parent of `p`, as strings.
pub fn parent_str(p: &str) -> (r: Option<String>)
    ensures
        r matches Some(v) ==> parent_of(p@) == Some(v@),
        r is None ==> parent_of(p@) is None,
{
    let v = chars_of(p);
    match parent_path(&v) {
        Some(x) => Some(string_of(x)),
        None => None,
    }
}

// ---------------------------------------------------------------------
// Laws of the layout
// ---------------------------------------------------------------------

/// A drive letter names the same paths with or without its `:`: the
/// letter, the library folders, the catalog and the root of `S` and `S:`
/// coincide.
pub proof fn lemma_drive_colon_optional(drive: Seq<char>)
    ensures
        letter_of(drive + ":"@) == letter_of(drive),
        steam_common_path_spec(drive + ":"@) == steam_common_path_spec(drive),
        steamapps_path_spec(drive + ":"@) == steamapps_path_spec(drive),
        vaultsync_db_path_spec(drive + ":"@) == vaultsync_db_path_spec(drive),
        drive_root_spec(drive + ":"@) == drive_root_spec(drive),
{
    reveal_strlit(":");
    let d = drive + ":"@;
    assert(d.drop_last() =~= drive);
    assert(d.last() == ':');
}

proof fn lemma_comp_start_before_name(base: Seq<char>, name: Seq<char>, lb: int)
    requires
        forall|i: int| 0 <= i < name.len() ==> !is_sep(#[trigger] name[i]),
        0 <= lb <= base.len(),
    ensures
        comp_start(base.push('\\') + name, lb) == base.len() + 1,
    decreases name.len(),
{
    let s = base.push('\\') + name;
    if name.len() == 0 {
        assert(s =~= base.push('\\'));
    } else {
        assert(s.drop_last() =~= base.push('\\') + name.drop_last());
        assert(s.last() == name[name.len() - 1]);
        lemma_comp_start_before_name(base, name.drop_last(), lb);
    }
}

/// The vault's manifests lie next to its `common` folder: the parent of
/// `steam_common_path` is `steamapps_path`, so the manifest found by a
/// rescan of the vault and the one hidden while it is isolated are the
/// same file.
pub proof fn lemma_vault_manifests_beside_common(drive: Seq<char>, app_id: Seq<char>)
    ensures
        parent_of(steam_common_path_spec(drive)) == Some(steamapps_path_spec(drive)),
        manifest_path_spec(steam_common_path_spec(drive), app_id) == Some(
            join(steamapps_path_spec(drive), manifest_name(app_id)),
        ),
{
    reveal_strlit(":\\SteamLibrary\\steamapps\\common");
    reveal_strlit(":\\SteamLibrary\\steamapps");
    let x = steamapps_path_spec(drive);
    let name = seq!['c', 'o', 'm', 'm', 'o', 'n'];
    let c = steam_common_path_spec(drive);
    assert(c =~= x.push('\\') + name);
    let lb = body_start(c);
    assert(lb <= 3);
    assert(x.len() >= 24);
    assert(trim_back(c, lb) == c);
    lemma_comp_start_before_name(x, name, lb);
    assert(c.take(x.len() + 1int) =~= x.push('\\'));
    assert(x.push('\\').drop_last() =~= x);
    assert(x.last() == 's');
    assert(trim_back(x, lb) == x);
    assert(trim_back(x.push('\\'), lb) == x);
}

} // verus!
