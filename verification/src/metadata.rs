//! Steam metadata: matching folder names against the Steam app list,
//! pending-update detection from app manifests, and the shape of the
//! store metadata handed to the interface.
use vstd::prelude::*;

use crate::catalog::{
    cover_url, cover_url_spec, opt_view, parse_appmanifest, parse_appmanifest_spec, ManifestView,
};
use crate::paths::{manifest_path_spec, vault_manifest_path};
use crate::text::{chars_eq, chars_of, decimal, decimal_string, string_of};

verus! {

// ---------------------------------------------------------------------
// Name normalisation
// ---------------------------------------------------------------------

/// What `str::to_lowercase` returns for a string (Unicode lower-case
/// mapping, including its context-dependent rules).
pub uninterp spec fn lowercase(s: Seq<char>) -> Seq<char>;

/// What `char::is_alphanumeric` returns for a character (Unicode
/// `Alphabetic` or `Numeric`).
pub uninterp spec fn alphanumeric(c: char) -> bool;

/// `str::to_lowercase`: its result is the named lower-case mapping of the
/// argument; nothing more is claimed about its characters.
#[verifier::external_body]
fn to_lowercase(s: &str) -> (r: String)
    ensures
        r@ == lowercase(s@),
{
    s.to_lowercase()
}

/// `char::is_alphanumeric`: its result is the named property of the
/// argument.
#[verifier::external_body]
fn is_alphanumeric(c: char) -> (r: bool)
    ensures
        r == alphanumeric(c),
{
    c.is_alphanumeric()
}

/// The alphanumeric characters of `s`, in order.
pub open spec fn keep_alphanumeric(s: Seq<char>) -> Seq<char>
    decreases s.len(),
{
    if s.len() == 0 {
        seq![]
    } else if alphanumeric(s.last()) {
        keep_alphanumeric(s.drop_last()).push(s.last())
    } else {
        keep_alphanumeric(s.drop_last())
    }
}

/// A title reduced for comparison: lower-cased, then only its
/// alphanumeric characters kept.
pub open spec fn normalize_spec(s: Seq<char>) -> Seq<char> {
    keep_alphanumeric(lowercase(s))
}

/// The alphanumeric characters of an already lower-cased text, in order.
pub fn keep_alphanumeric_text(lower: &str) -> (r: String)
    ensures
        r@ == keep_alphanumeric(lower@),
{
    let cs = chars_of(lower);
    let mut out: Vec<char> = Vec::new();
    let mut i: usize = 0;
    while i < cs.len()
        invariant
            i <= cs@.len(),
            cs@ == lower@,
            out@ == keep_alphanumeric(cs@.take(i as int)),
        decreases cs@.len() - i,
    {
        proof {
            assert(cs@.take(i + 1).drop_last() =~= cs@.take(i as int));
        }
        if is_alphanumeric(cs[i]) {
            out.push(cs[i]);
        }
        i = i + 1;
    }
    proof {
        assert(cs@.take(cs@.len() as int) =~= cs@);
    }
    string_of(out)
}

/// Lower-cases `s` and keeps its alphanumeric characters.
pub fn normalize(s: &str) -> (r: String)
    ensures
        r@ == normalize_spec(s@),
{
    let lower = to_lowercase(s);
    keep_alphanumeric_text(lower.as_str())
}

// ---------------------------------------------------------------------
// Resolving a folder name to an AppID
// ---------------------------------------------------------------------

/// An entry of Steam's public app list.
pub struct SteamApp {
    pub appid: u64,
    pub name: String,
}

/// `b` occurs in `a`.
pub open spec fn contains_seq(a: Seq<char>, b: Seq<char>) -> bool {
    exists|i: int| 0 <= i && i + b.len() <= a.len() && #[trigger] a.subrange(i, i + b.len()) == b
}

/// Number of bytes of a character in UTF-8.
pub open spec fn utf8_width(c: char) -> nat {
    let n = c as u32;
    if n < 0x80 {
        1
    } else if n < 0x800 {
        2
    } else if n < 0x10000 {
        3
    } else {
        4
    }
}

/// Length in bytes of the UTF-8 encoding of `s` (what `str::len` gives).
pub open spec fn byte_len(s: Seq<char>) -> nat
    decreases s.len(),
{
    if s.len() == 0 {
        0
    } else {
        byte_len(s.drop_last()) + utf8_width(s.last())
    }
}

fn utf8_len(s: &Vec<char>) -> (r: u128)
    ensures
        r == byte_len(s@),
{
    let mut total: u128 = 0;
    let mut i: usize = 0;
    while i < s.len()
        invariant
            i <= s@.len(),
            total == byte_len(s@.take(i as int)),
            total <= 4 * i,
        decreases s@.len() - i,
    {
        proof {
            assert(s@.take(i + 1).drop_last() =~= s@.take(i as int));
        }
        let n = s[i] as u32;
        let w: u128 = if n < 0x80 {
            1
        } else if n < 0x800 {
            2
        } else if n < 0x10000 {
            3
        } else {
            4
        };
        total = total + w;
        i = i + 1;
    }
    proof {
        assert(s@.take(s@.len() as int) =~= s@);
    }
    total
}

pub open spec fn abs_diff(a: nat, b: nat) -> nat {
    if a >= b {
        (a - b) as nat
    } else {
        (b - a) as nat
    }
}

/// The scan over the app list: an app whose normalised name equals the
/// target ends it; otherwise, among apps whose normalised name contains
/// the target or is contained in it, the first with the smallest
/// difference of byte lengths is kept.
pub open spec fn resolve_scan(
    apps: Seq<(u64, Seq<char>)>,
    target: Seq<char>,
    best: Option<(u64, nat)>,
) -> Option<u64>
    decreases apps.len(),
{
    if apps.len() == 0 {
        match best {
            Some(b) => Some(b.0),
            None => None,
        }
    } else {
        let (id, name) = apps[0];
        let norm = normalize_spec(name);
        if norm == target {
            Some(id)
        } else if contains_seq(norm, target) || contains_seq(target, norm) {
            let score = abs_diff(byte_len(norm), byte_len(target));
            let nb = match best {
                Some(b) => if score < b.1 {
                    Some((id, score))
                } else {
                    best
                },
                None => Some((id, score)),
            };
            resolve_scan(apps.drop_first(), target, nb)
        } else {
            resolve_scan(apps.drop_first(), target, best)
        }
    }
}

pub open spec fn app_views(apps: Seq<SteamApp>) -> Seq<(u64, Seq<char>)> {
    apps.map_values(|a: SteamApp| (a.appid, a.name@))
}

/// The AppID (as decimal text) that a folder name resolves to.
pub open spec fn resolve_app_id_spec(apps: Seq<SteamApp>, folder_name: Seq<char>) -> Option<
    Seq<char>,
> {
    match resolve_scan(app_views(apps), normalize_spec(folder_name), None) {
        Some(id) => Some(decimal(id as nat)),
        None => None,
    }
}

spec fn best_view(b: Option<(u64, u128)>) -> Option<(u64, nat)> {
    match b {
        Some(x) => Some((x.0, x.1 as nat)),
        None => None,
    }
}

fn contains_chars(a: &Vec<char>, b: &Vec<char>) -> (r: bool)
    ensures
        r == contains_seq(a@, b@),
{
    if b.len() > a.len() {
        proof {
            assert forall|i: int| 0 <= i && i + b@.len() <= a@.len() implies #[trigger] a@.subrange(
                i,
                i + b@.len(),
            ) != b@ by {}
        }
        return false;
    }
    let alen = a.len();
    let last = alen - b.len();
    let mut i: usize = 0;
    while i <= last
        invariant
            alen == a@.len(),
            last == a@.len() - b@.len(),
            b@.len() <= a@.len(),
            forall|k: int| 0 <= k < i ==> #[trigger] a@.subrange(k, k + b@.len()) != b@,
        decreases last + 1 - i,
    {
        let mut j: usize = 0;
        let mut same = true;
        while j < b.len()
            invariant
                alen == a@.len(),
                i <= last,
                last == a@.len() - b@.len(),
                a@.len() == last + b@.len(),
                j <= b@.len(),
                same ==> forall|m: int| 0 <= m < j ==> a@[i + m] == b@[m],
                !same ==> a@.subrange(i as int, i + b@.len()) != b@,
            decreases b@.len() - j,
        {
            if a[i + j] != b[j] {
                proof {
                    assert(a@.subrange(i as int, i + b@.len())[j as int] != b@[j as int]);
                }
                same = false;
            }
            j = j + 1;
        }
        if same {
            proof {
                assert(a@.subrange(i as int, i + b@.len()) =~= b@);
            }
            return true;
        }
        if i == last {
            proof {
                assert forall|k: int| 0 <= k && k + b@.len() <= a@.len() implies #[trigger] a@.subrange(
                    k,
                    k + b@.len(),
                ) != b@ by {
                    assert(k <= last);
                }
            }
            return false;
        }
        i = i + 1;
    }
    proof {
        assert forall|k: int| 0 <= k && k + b@.len() <= a@.len() implies #[trigger] a@.subrange(
            k,
            k + b@.len(),
        ) != b@ by {}
    }
    false
}

/// Resolves a game folder name to a Steam AppID using the app list: an
/// exact match of the normalised names wins; otherwise the closest
/// containment match (by length), if any.
pub fn resolve_app_id(folder_name: &str, apps: &Vec<SteamApp>) -> (r: Option<String>)
    ensures
        opt_view(r) == resolve_app_id_spec(apps@, folder_name@),
{
    let target_s = normalize(folder_name);
    let target = chars_of(target_s.as_str());
    let tlen = utf8_len(&target);
    let mut best: Option<(u64, u128)> = None;
    let ghost views = app_views(apps@);
    let ghost tv = normalize_spec(folder_name@);
    let mut i: usize = 0;
    proof {
        assert(views.skip(0) =~= views);
    }
    while i < apps.len()
        invariant
            i <= apps@.len(),
            views == app_views(apps@),
            target@ == tv,
            tv == normalize_spec(folder_name@),
            tlen == byte_len(tv),
            resolve_scan(views, tv, None) == resolve_scan(views.skip(i as int), tv, best_view(best)),
        decreases apps@.len() - i,
    {
        proof {
            assert(views.skip(i as int).drop_first() =~= views.skip(i + 1));
            assert(views.skip(i as int)[0] == (apps@[i as int].appid, apps@[i as int].name@));
        }
        let app = &apps[i];
        let norm_s = normalize(app.name.as_str());
        let norm = chars_of(norm_s.as_str());
        if chars_eq(&norm, &target) {
            proof {
                let sk = views.skip(i as int);
                assert(sk[0].1 == app.name@);
                assert(normalize_spec(sk[0].1) == tv);
                assert(resolve_scan(sk, tv, best_view(best)) == Some(sk[0].0));
            }
            return Some(decimal_string(app.appid));
        }
        if contains_chars(&norm, &target) || contains_chars(&target, &norm) {
            let nlen = utf8_len(&norm);
            let score = if nlen >= tlen {
                nlen - tlen
            } else {
                tlen - nlen
            };
            let better = match best {
                Some(b) => score < b.1,
                None => true,
            };
            if better {
                best = Some((app.appid, score));
            }
        }
        i = i + 1;
    }
    proof {
        assert(views.skip(i as int).len() == 0);
    }
    match best {
        Some(b) => Some(decimal_string(b.0)),
        None => None,
    }
}

/// When some app's name normalises exactly to the folder's, the folder
/// resolves to the first such app.
pub proof fn lemma_exact_match_wins(apps: Seq<SteamApp>, folder_name: Seq<char>, k: int)
    requires
        0 <= k < apps.len(),
        normalize_spec(apps[k].name@) == normalize_spec(folder_name),
        forall|j: int|
            0 <= j < k ==> normalize_spec(#[trigger] apps[j].name@) != normalize_spec(folder_name),
    ensures
        resolve_app_id_spec(apps, folder_name) == Some(decimal(apps[k].appid as nat)),
{
    lemma_scan_exact(app_views(apps), normalize_spec(folder_name), None, k);
}

proof fn lemma_scan_exact(
    apps: Seq<(u64, Seq<char>)>,
    target: Seq<char>,
    best: Option<(u64, nat)>,
    k: int,
)
    requires
        0 <= k < apps.len(),
        normalize_spec(apps[k].1) == target,
        forall|j: int| 0 <= j < k ==> normalize_spec(#[trigger] apps[j].1) != target,
    ensures
        resolve_scan(apps, target, best) == Some(apps[k].0),
    decreases k,
{
    if k > 0 {
        let (id, name) = apps[0];
        assert(normalize_spec(apps[0].1) != target);
        let rest = apps.drop_first();
        assert forall|j: int| 0 <= j < k - 1 implies normalize_spec(#[trigger] rest[j].1) != target by {
            assert(rest[j] == apps[j + 1]);
        }
        let norm = normalize_spec(name);
        if contains_seq(norm, target) || contains_seq(target, norm) {
            let score = abs_diff(byte_len(norm), byte_len(target));
            let nb = match best {
                Some(b) => if score < b.1 {
                    Some((id, score))
                } else {
                    best
                },
                None => Some((id, score)),
            };
            lemma_scan_exact(rest, target, nb, k - 1);
        } else {
            lemma_scan_exact(rest, target, best, k - 1);
        }
    }
}

/// No app of the list is related to the target.
pub open spec fn none_related(apps: Seq<(u64, Seq<char>)>, target: Seq<char>) -> bool {
    forall|j: int| 0 <= j < apps.len() ==> !related(normalize_spec(#[trigger] apps[j].1), target)
}

/// The AppID is that of an app of the list related to the target.
pub open spec fn some_related_id(apps: Seq<(u64, Seq<char>)>, target: Seq<char>, id: u64) -> bool {
    exists|j: int|
        0 <= j < apps.len() && related(normalize_spec(#[trigger] apps[j].1), target) && id
            == apps[j].0
}

/// A resolved AppID is always that of an app whose normalised name
/// equals, contains or is contained in the folder's normalised name; and
/// the folder resolves to nothing exactly when no app is related that way.
pub proof fn lemma_resolution_is_related(apps: Seq<SteamApp>, folder_name: Seq<char>)
    ensures
        resolve_app_id_spec(apps, folder_name) is None <==> none_related(
            app_views(apps),
            normalize_spec(folder_name),
        ),
        resolve_scan(app_views(apps), normalize_spec(folder_name), None) matches Some(id)
            ==> some_related_id(app_views(apps), normalize_spec(folder_name), id),
{
    lemma_scan_related(app_views(apps), normalize_spec(folder_name), None);
}

/// Two normalised names are related when one contains the other (equal
/// names included).
pub open spec fn related(norm: Seq<char>, target: Seq<char>) -> bool {
    norm == target || contains_seq(norm, target) || contains_seq(target, norm)
}

proof fn lemma_scan_related(apps: Seq<(u64, Seq<char>)>, target: Seq<char>, best: Option<(u64, nat)>)
    ensures
        resolve_scan(apps, target, best) is None <==> (best is None && none_related(apps, target)),
        resolve_scan(apps, target, best) matches Some(id) ==> (best matches Some(b) && id == b.0)
            || some_related_id(apps, target, id),
    decreases apps.len(),
{
    if apps.len() > 0 {
        let (id, name) = apps[0];
        let norm = normalize_spec(name);
        let rest = apps.drop_first();
        assert forall|j: int| 0 <= j < rest.len() implies #[trigger] rest[j] == apps[j + 1] by {}
        let nb = if norm == target {
            best
        } else if contains_seq(norm, target) || contains_seq(target, norm) {
            let score = abs_diff(byte_len(norm), byte_len(target));
            match best {
                Some(b) => if score < b.1 {
                    Some((id, score))
                } else {
                    best
                },
                None => Some((id, score)),
            }
        } else {
            best
        };
        lemma_scan_related(rest, target, nb);
        if related(norm, target) {
            assert(related(normalize_spec(apps[0].1), target));
            assert(!none_related(apps, target));
        } else {
            assert(none_related(rest, target) ==> none_related(apps, target)) by {
                if none_related(rest, target) {
                    assert forall|j: int| 0 <= j < apps.len() implies !related(
                        normalize_spec(#[trigger] apps[j].1),
                        target,
                    ) by {
                        if j > 0 {
                            assert(apps[j] == rest[j - 1]);
                        }
                    }
                }
            }
            assert(none_related(apps, target) ==> none_related(rest, target)) by {
                if none_related(apps, target) {
                    assert forall|j: int| 0 <= j < rest.len() implies !related(
                        normalize_spec(#[trigger] rest[j].1),
                        target,
                    ) by {
                        assert(rest[j] == apps[j + 1]);
                    }
                }
            }
        }
        if let Some(r) = resolve_scan(apps, target, best) {
            if norm != target && some_related_id(rest, target, r) {
                let j = choose|j: int|
                    0 <= j < rest.len() && related(normalize_spec(#[trigger] rest[j].1), target)
                        && r == rest[j].0;
                assert(apps[j + 1] == rest[j]);
            }
        }
    }
}

// ---------------------------------------------------------------------
// Pending updates
// ---------------------------------------------------------------------

/// Steam's `StateFlags` value for "Fully Installed".
pub open spec fn fully_installed_spec(m: ManifestView) -> bool {
    m.state_flags == Some("4"@)
}

/// The manifest text shows a pending update (or another unfinished
/// state): it parses and its `StateFlags` is not exactly `4`.
pub open spec fn shows_pending(content: Option<Seq<char>>) -> bool {
    match content {
        Some(c) => match parse_appmanifest_spec(c) {
            Some(m) => !fully_installed_spec(m),
            None => false,
        },
        None => false,
    }
}

fn state_is_fully_installed(flags: &Option<String>) -> (r: bool)
    ensures
        r == (opt_view(*flags) == Some("4"@)),
{
    match flags {
        Some(f) => {
            let v = chars_of(f.as_str());
            let four = chars_of("4");
            chars_eq(&v, &four)
        },
        None => false,
    }
}

pub open spec fn opt_views(v: Seq<Option<String>>) -> Seq<Option<Seq<char>>> {
    v.map_values(|o: Option<String>| opt_view(o))
}

/// One of the manifest texts (one per library; `None` where the library
/// has none) shows the game not fully installed.
pub open spec fn any_pending(ms: Seq<Option<Seq<char>>>) -> bool {
    exists|j: int| 0 <= j < ms.len() && shows_pending(#[trigger] ms[j])
}

/// `true` when one of the manifests (one per library; `None` where the
/// library has none) shows the game not fully installed.
pub fn has_pending_update(manifests: &Vec<Option<String>>) -> (r: bool)
    ensures
        r == any_pending(opt_views(manifests@)),
{
    let ghost ov = opt_views(manifests@);
    let mut j: usize = 0;
    while j < manifests.len()
        invariant
            j <= manifests@.len(),
            ov == opt_views(manifests@),
            forall|k: int| 0 <= k < j ==> !shows_pending(#[trigger] ov[k]),
        decreases manifests@.len() - j,
    {
        match &manifests[j] {
            Some(content) => match parse_appmanifest(content.as_str()) {
                Some(m) => {
                    if !state_is_fully_installed(&m.state_flags) {
                        proof {
                            assert(shows_pending(ov[j as int]));
                        }
                        return true;
                    }
                },
                None => {},
            },
            None => {},
        }
        proof {
            assert(!shows_pending(ov[j as int]));
        }
        j = j + 1;
    }
    false
}

/// The manifest files to look at for `app_id`: one in the `steamapps`
/// folder above each library's `common` folder (libraries without a
/// parent folder are skipped).
pub open spec fn manifest_paths_spec(library_paths: Seq<Seq<char>>, app_id: Seq<char>) -> Seq<
    Seq<char>,
>
    decreases library_paths.len(),
{
    if library_paths.len() == 0 {
        seq![]
    } else {
        let rest = manifest_paths_spec(library_paths.drop_last(), app_id);
        match manifest_path_spec(library_paths.last(), app_id) {
            Some(p) => rest.push(p),
            None => rest,
        }
    }
}

pub open spec fn string_views(v: Seq<String>) -> Seq<Seq<char>> {
    v.map_values(|s: String| s@)
}

/// The manifest paths of `app_id` across the given libraries.
pub fn manifest_paths(library_paths: &Vec<String>, app_id: &str) -> (r: Vec<String>)
    ensures
        string_views(r@) == manifest_paths_spec(string_views(library_paths@), app_id@),
{
    let mut r: Vec<String> = Vec::new();
    let mut i: usize = 0;
    while i < library_paths.len()
        invariant
            i <= library_paths@.len(),
            string_views(r@) == manifest_paths_spec(
                string_views(library_paths@).take(i as int),
                app_id@,
            ),
        decreases library_paths@.len() - i,
    {
        proof {
            assert(string_views(library_paths@).take(i + 1).drop_last() =~= string_views(
                library_paths@,
            ).take(i as int));
        }
        match vault_manifest_path(library_paths[i].as_str(), app_id) {
            Some(p) => {
                let ghost before = r@;
                r.push(p);
                proof {
                    assert(string_views(r@) =~= string_views(before).push(p@));
                }
            },
            None => {},
        }
        i = i + 1;
    }
    proof {
        assert(string_views(library_paths@).take(library_paths@.len() as int) =~= string_views(
            library_paths@,
        ));
    }
    r
}

/// The AppIDs with a pending update, given for each AppID the manifest
/// texts found across the libraries: each such AppID once, in the order
/// of first appearance.
pub fn check_vault_updates(app_ids: &Vec<String>, manifests: &Vec<Vec<Option<String>>>) -> (r: Vec<
    String,
>)
    requires
        app_ids@.len() == manifests@.len(),
    ensures
        forall|x: Seq<char>|
            string_views(r@).contains(x) <==> exists|k: int|
                0 <= k < app_ids@.len() && #[trigger] app_ids@[k]@ == x && any_pending(
                    opt_views(manifests@[k]@),
                ),
        string_views(r@).no_duplicates(),
{
    let mut r: Vec<String> = Vec::new();
    let mut i: usize = 0;
    while i < app_ids.len()
        invariant
            i <= app_ids@.len(),
            app_ids@.len() == manifests@.len(),
            forall|x: Seq<char>|
                string_views(r@).contains(x) <==> exists|k: int|
                    0 <= k < i && #[trigger] app_ids@[k]@ == x && any_pending(
                        opt_views(manifests@[k]@),
                    ),
            string_views(r@).no_duplicates(),
        decreases app_ids@.len() - i,
    {
        let ghost before = r@;
        let pending = has_pending_update(&manifests[i]);
        let ghost id_v = app_ids@[i as int]@;
        let ghost mut added = false;
        if pending {
            let id = chars_of(app_ids[i].as_str());
            let mut seen = false;
            let mut k: usize = 0;
            while k < r.len()
                invariant
                    k <= r@.len(),
                    id@ == id_v,
                    seen == exists|m: int| 0 <= m < k && #[trigger] r@[m]@ == id_v,
                decreases r@.len() - k,
            {
                let v = chars_of(r[k].as_str());
                if chars_eq(&v, &id) {
                    seen = true;
                }
                k = k + 1;
            }
            if !seen {
                r.push(app_ids[i].clone());
                proof {
                    added = true;
                    assert(string_views(r@) =~= string_views(before).push(id_v));
                    assert(!string_views(before).contains(id_v)) by {
                        if string_views(before).contains(id_v) {
                            let p = choose|p: int|
                                0 <= p < string_views(before).len() && string_views(before)[p]
                                    == id_v;
                            assert(before[p]@ == id_v);
                        }
                    }
                    assert(string_views(r@)[before.len() as int] == id_v);
                }
            } else {
                proof {
                    let m = choose|m: int| 0 <= m < before.len() && #[trigger] before[m]@ == id_v;
                    assert(string_views(before)[m] == id_v);
                }
            }
        }
        proof {
            if added {
                assert(string_views(r@) =~= string_views(before).push(id_v));
            } else {
                assert(r@ == before);
            }
            assert(pending ==> string_views(r@).contains(id_v));
        }
        proof {
            assert forall|x: Seq<char>|
                string_views(r@).contains(x) <==> exists|k: int|
                    0 <= k < i + 1 && #[trigger] app_ids@[k]@ == x && any_pending(
                        opt_views(manifests@[k]@),
                    ) by {
                let old_side = exists|k: int|
                    0 <= k < i && #[trigger] app_ids@[k]@ == x && any_pending(
                        opt_views(manifests@[k]@),
                    );
                assert(string_views(before).contains(x) == old_side);
                if x == id_v && pending {
                    assert(app_ids@[i as int]@ == x);
                    assert(string_views(r@).contains(x));
                } else {
                    if added {
                        assert(string_views(r@).contains(x) == string_views(before).contains(x)) by {
                            if string_views(r@).contains(x) {
                                let p = choose|p: int|
                                    0 <= p < string_views(r@).len() && string_views(r@)[p] == x;
                                assert(string_views(before)[p] == x);
                            }
                            if string_views(before).contains(x) {
                                let p = choose|p: int|
                                    0 <= p < string_views(before).len() && string_views(before)[p]
                                        == x;
                                assert(string_views(r@)[p] == x);
                            }
                        }
                    }
                    assert(string_views(r@).contains(x) == string_views(before).contains(x));
                    if exists|k: int|
                        0 <= k < i + 1 && #[trigger] app_ids@[k]@ == x && any_pending(
                            opt_views(manifests@[k]@),
                        ) {
                        let k = choose|k: int|
                            0 <= k < i + 1 && #[trigger] app_ids@[k]@ == x && any_pending(
                                opt_views(manifests@[k]@),
                            );
                        assert(k < i);
                    }
                }
            }
        }
        i = i + 1;
    }
    r
}

// ---------------------------------------------------------------------
// A library's manifest while Steam updates it
// ---------------------------------------------------------------------

/// What the interface shows of a local manifest while Steam patches the
/// game.
pub struct LocalManifestState {
    pub app_id: String,
    pub build_id: Option<String>,
    pub state_flags: Option<String>,
    /// `StateFlags` is exactly `4` ("Fully Installed").
    pub fully_installed: bool,
}

/// The state read from a local manifest: absent when the text does not
/// parse as a manifest.
pub fn local_manifest_state(content: &str) -> (r: Option<LocalManifestState>)
    ensures
        r is None <==> parse_appmanifest_spec(content@) is None,
        r matches Some(s) ==> {
            let m = parse_appmanifest_spec(content@)->0;
            &&& s.app_id@ == m.app_id
            &&& opt_view(s.build_id) == m.build_id
            &&& opt_view(s.state_flags) == m.state_flags
            &&& s.fully_installed == fully_installed_spec(m)
        },
{
    match parse_appmanifest(content) {
        Some(m) => {
            let full = state_is_fully_installed(&m.state_flags);
            Some(
                LocalManifestState {
                    app_id: m.app_id,
                    build_id: m.build_id,
                    state_flags: m.state_flags,
                    fully_installed: full,
                },
            )
        },
        None => None,
    }
}

// ---------------------------------------------------------------------
// Store metadata
// ---------------------------------------------------------------------

/// Finds the store's answer for `app_id` among the keys of the JSON
/// object it returned: the index of the key equal to `app_id`, or
/// `App not found` when there is none.
pub fn find_app_entry(keys: &Vec<String>, app_id: &str) -> (r: Result<usize, String>)
    ensures
        r matches Ok(i) ==> i < keys@.len() && keys@[i as int]@ == app_id@,
        r is Err <==> forall|i: int| 0 <= i < keys@.len() ==> #[trigger] keys@[i]@ != app_id@,
        r matches Err(e) ==> e@ == "App not found"@,
{
    let a = chars_of(app_id);
    let mut i: usize = 0;
    while i < keys.len()
        invariant
            i <= keys@.len(),
            a@ == app_id@,
            forall|j: int| 0 <= j < i ==> #[trigger] keys@[j]@ != app_id@,
        decreases keys@.len() - i,
    {
        let k = chars_of(keys[i].as_str());
        if chars_eq(&k, &a) {
            return Ok(i);
        }
        i = i + 1;
    }
    Err(string_of(chars_of("App not found")))
}

/// Store metadata of one game, as the interface shows it.
pub struct GameMetadata {
    pub app_id: String,
    pub name: String,
    pub header_image: Option<String>,
    pub library_cover: Option<String>,
    pub short_description: Option<String>,
}

/// The `data` part of a store `appdetails` answer.
pub struct AppDetails {
    pub name: String,
    pub steam_appid: u64,
    pub header_image: Option<String>,
    pub short_description: Option<String>,
}

/// Builds the metadata from a store `appdetails` entry for `app_id`:
/// an error when the store reports no success or gives no data; otherwise
/// the store's own AppID (in decimal), name, header image, description and
/// the library cover URL of that AppID.
pub fn game_metadata(app_id: &str, success: bool, data: Option<AppDetails>) -> (r: Result<
    GameMetadata,
    String,
>)
    ensures
        !success ==> (r matches Err(e) && e@ == "Steam API returned no data for app "@ + app_id@),
        success && data is None ==> (r matches Err(e) && e@ == "No data field"@),
        success && data is Some ==> (r matches Ok(g) && {
            let d = data->0;
            &&& g.app_id@ == decimal(d.steam_appid as nat)
            &&& g.name@ == d.name@
            &&& opt_view(g.header_image) == opt_view(d.header_image)
            &&& opt_view(g.library_cover) == Some(cover_url_spec(decimal(d.steam_appid as nat)))
            &&& opt_view(g.short_description) == opt_view(d.short_description)
        }),
{
    if !success {
        let mut e = chars_of("Steam API returned no data for app ");
        let a = chars_of(app_id);
        crate::text::append_chars(&mut e, &a);
        return Err(string_of(e));
    }
    match data {
        None => Err(string_of(chars_of("No data field"))),
        Some(d) => {
            let id = decimal_string(d.steam_appid);
            let cover = cover_url(id.as_str());
            Ok(
                GameMetadata {
                    app_id: id,
                    name: d.name,
                    header_image: d.header_image,
                    library_cover: Some(cover),
                    short_description: d.short_description,
                },
            )
        },
    }
}


// ---------------------------------------------------------------------
// Laws of update detection
// ---------------------------------------------------------------------

/// Every library counts: a game has a pending update exactly when some
/// manifest in the list, at any position, parses and has a `StateFlags`
/// other than `4`, whatever the manifests before it say.
pub proof fn lemma_pending_in_any_library(ms: Seq<Option<Seq<char>>>)
    ensures
        any_pending(ms) <==> exists|j: int|
            0 <= j < ms.len() && (#[trigger] ms[j]) is Some && parse_appmanifest_spec(ms[j]->0) is Some
                && parse_appmanifest_spec(ms[j]->0)->0.state_flags != Some("4"@),
{
    if any_pending(ms) {
        let j = choose|j: int| 0 <= j < ms.len() && shows_pending(#[trigger] ms[j]);
        assert(ms[j] is Some && parse_appmanifest_spec(ms[j]->0) is Some && parse_appmanifest_spec(
            ms[j]->0,
        )->0.state_flags != Some("4"@));
    }
    if exists|j: int|
        0 <= j < ms.len() && (#[trigger] ms[j]) is Some && parse_appmanifest_spec(ms[j]->0) is Some
            && parse_appmanifest_spec(ms[j]->0)->0.state_flags != Some("4"@) {
        let j = choose|j: int|
            0 <= j < ms.len() && (#[trigger] ms[j]) is Some && parse_appmanifest_spec(ms[j]->0) is Some
                && parse_appmanifest_spec(ms[j]->0)->0.state_flags != Some("4"@);
        assert(shows_pending(ms[j]));
    }
}

// ---------------------------------------------------------------------
// Laws of the resolution
// ---------------------------------------------------------------------

/// How far app `j`'s normalised name is from the target in byte length.
pub open spec fn closeness(apps: Seq<(u64, Seq<char>)>, target: Seq<char>, j: int) -> nat {
    abs_diff(byte_len(normalize_spec(apps[j].1)), byte_len(target))
}

/// App `j`'s normalised name contains the target or is contained in it.
pub open spec fn rel_at(apps: Seq<(u64, Seq<char>)>, target: Seq<char>, j: int) -> bool {
    contains_seq(normalize_spec(apps[j].1), target) || contains_seq(target, normalize_spec(apps[j].1))
}

/// What the scan from an accumulated best answers, without exact match.
pub open spec fn closest_result(
    apps: Seq<(u64, Seq<char>)>,
    target: Seq<char>,
    best: Option<(u64, nat)>,
    r: Option<u64>,
) -> bool {
    match r {
        None => best is None && forall|j: int| 0 <= j < apps.len() ==> !#[trigger] rel_at(apps, target, j),
        Some(id) => {
            ||| (best matches Some(b) && id == b.0 && forall|j: int|
                0 <= j < apps.len() && #[trigger] rel_at(apps, target, j) ==> b.1 <= closeness(
                    apps,
                    target,
                    j,
                ))
            ||| exists|k: int|
                0 <= k < apps.len() && #[trigger] rel_at(apps, target, k) && id == apps[k].0 && (
                best matches Some(b) ==> closeness(apps, target, k) < b.1) && (forall|j: int|
                    0 <= j < apps.len() && #[trigger] rel_at(apps, target, j) ==> closeness(
                        apps,
                        target,
                        k,
                    ) <= closeness(apps, target, j)) && (forall|j: int|
                    0 <= j < k && #[trigger] rel_at(apps, target, j) ==> closeness(apps, target, j)
                        > closeness(apps, target, k))
        },
    }
}

proof fn lemma_scan_closest(apps: Seq<(u64, Seq<char>)>, target: Seq<char>, best: Option<(u64, nat)>)
    requires
        forall|j: int| 0 <= j < apps.len() ==> normalize_spec(#[trigger] apps[j].1) != target,
    ensures
        closest_result(apps, target, best, resolve_scan(apps, target, best)),
    decreases apps.len(),
{
    if apps.len() > 0 {
        let (id0, name0) = apps[0];
        let norm = normalize_spec(name0);
        let rest = apps.drop_first();
        assert forall|j: int| 0 <= j < rest.len() implies normalize_spec(#[trigger] rest[j].1) != target by {
            assert(rest[j] == apps[j + 1]);
        }
        assert forall|j: int| 0 <= j < rest.len() implies rel_at(rest, target, j) == rel_at(
            apps,
            target,
            j + 1,
        ) && closeness(rest, target, j) == closeness(apps, target, j + 1) by {
            assert(rest[j] == apps[j + 1]);
        }
        assert(norm != target);
        let related0 = contains_seq(norm, target) || contains_seq(target, norm);
        assert(related0 == rel_at(apps, target, 0));
        let s0 = abs_diff(byte_len(norm), byte_len(target));
        assert(s0 == closeness(apps, target, 0));
        let nb = if related0 {
            match best {
                Some(b) => if s0 < b.1 {
                    Some((id0, s0))
                } else {
                    best
                },
                None => Some((id0, s0)),
            }
        } else {
            best
        };
        assert(resolve_scan(apps, target, best) == resolve_scan(rest, target, nb));
        lemma_scan_closest(rest, target, nb);
        let r = resolve_scan(rest, target, nb);
        match r {
            None => {
                assert forall|j: int| 0 <= j < apps.len() implies !#[trigger] rel_at(apps, target, j) by {
                    if j > 0 {
                        assert(!rel_at(rest, target, j - 1));
                    }
                }
            },
            Some(id) => {
                if nb matches Some(b) && id == b.0 && forall|j: int|
                    0 <= j < rest.len() && #[trigger] rel_at(rest, target, j) ==> b.1 <= closeness(
                        rest,
                        target,
                        j,
                    ) {
                    let b = nb->0;
                    if related0 && nb != best {
                        // app 0 is the answer
                        assert(b == (id0, s0));
                        assert forall|j: int|
                            0 <= j < apps.len() && #[trigger] rel_at(apps, target, j) implies closeness(
                            apps,
                            target,
                            0,
                        ) <= closeness(apps, target, j) by {
                            if j > 0 {
                                assert(rel_at(rest, target, j - 1));
                            }
                        }
                        assert(closest_result(apps, target, best, Some(id)));
                    } else {
                        assert(nb == best);
                        assert forall|j: int|
                            0 <= j < apps.len() && #[trigger] rel_at(apps, target, j) implies b.1
                            <= closeness(apps, target, j) by {
                            if j > 0 {
                                assert(rel_at(rest, target, j - 1));
                            }
                        }
                    }
                } else {
                    let k = choose|k: int|
                        0 <= k < rest.len() && #[trigger] rel_at(rest, target, k) && id == rest[k].0
                            && (nb matches Some(b) ==> closeness(rest, target, k) < b.1) && (forall|j: int|
                            0 <= j < rest.len() && #[trigger] rel_at(rest, target, j) ==> closeness(
                                rest,
                                target,
                                k,
                            ) <= closeness(rest, target, j)) && (forall|j: int|
                            0 <= j < k && #[trigger] rel_at(rest, target, j) ==> closeness(
                                rest,
                                target,
                                j,
                            ) > closeness(rest, target, k));
                    let k1 = k + 1;
                    assert(rel_at(apps, target, k1));
                    assert(apps[k1] == rest[k]);
                    assert(closeness(apps, target, k1) == closeness(rest, target, k));
                    if related0 {
                        assert(closeness(apps, target, k1) < s0) by {
                            match best {
                                Some(b) => {},
                                None => {},
                            }
                        }
                    }
                    assert forall|j: int|
                        0 <= j < apps.len() && #[trigger] rel_at(apps, target, j) implies closeness(
                        apps,
                        target,
                        k1,
                    ) <= closeness(apps, target, j) by {
                        if j > 0 {
                            assert(rel_at(rest, target, j - 1));
                        }
                    }
                    assert forall|j: int| 0 <= j < k1 && #[trigger] rel_at(apps, target, j) implies closeness(
                        apps,
                        target,
                        j,
                    ) > closeness(apps, target, k1) by {
                        if j > 0 {
                            assert(rel_at(rest, target, j - 1));
                        }
                    }
                    assert(best matches Some(b) ==> closeness(apps, target, k1) < b.1);
                }
            },
        }
    }
}

/// Without an exact match, a folder resolves to the related app whose
/// normalised name is closest to the folder's in byte length: no related
/// app is strictly closer, every related app before it is strictly
/// farther (the first of equally close ones wins), and nothing is
/// resolved only when no app is related.
pub proof fn lemma_resolution_is_closest(apps: Seq<SteamApp>, folder_name: Seq<char>)
    requires
        forall|j: int|
            0 <= j < apps.len() ==> normalize_spec(#[trigger] apps[j].name@) != normalize_spec(
                folder_name,
            ),
    ensures
        ({
            let v = app_views(apps);
            let t = normalize_spec(folder_name);
            match resolve_app_id_spec(apps, folder_name) {
                None => forall|j: int| 0 <= j < apps.len() ==> !#[trigger] rel_at(v, t, j),
                Some(id) => exists|k: int|
                    0 <= k < apps.len() && #[trigger] rel_at(v, t, k) && id == decimal(
                        apps[k].appid as nat,
                    ) && (forall|j: int|
                        0 <= j < apps.len() && #[trigger] rel_at(v, t, j) ==> closeness(v, t, k)
                            <= closeness(v, t, j)) && (forall|j: int|
                        0 <= j < k && #[trigger] rel_at(v, t, j) ==> closeness(v, t, j) > closeness(
                            v,
                            t,
                            k,
                        )),
            }
        }),
{
    let v = app_views(apps);
    let t = normalize_spec(folder_name);
    assert forall|j: int| 0 <= j < v.len() implies normalize_spec(#[trigger] v[j].1) != t by {
        assert(v[j].1 == apps[j].name@);
    }
    lemma_scan_closest(v, t, None);
    match resolve_scan(v, t, None) {
        Some(id) => {
            let k = choose|k: int|
                0 <= k < v.len() && #[trigger] rel_at(v, t, k) && id == v[k].0 && (forall|j: int|
                    0 <= j < v.len() && #[trigger] rel_at(v, t, j) ==> closeness(v, t, k) <= closeness(
                        v,
                        t,
                        j,
                    )) && (forall|j: int|
                    0 <= j < k && #[trigger] rel_at(v, t, j) ==> closeness(v, t, j) > closeness(v, t, k));
            assert(v[k].0 == apps[k].appid);
        },
        None => {},
    }
}

} // verus!
