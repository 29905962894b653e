//! Vault drives and local Steam libraries: which drive letters to probe,
//! which libraries from Steam's list are local ones, a vault's identity,
//! and which locally installed games are missing from every vault.
use vstd::prelude::*;

use crate::catalog::{
    cover_url, cover_url_spec, manifest_views, manifests_of, opt_view, file_views,
    parse_manifest_files, AppManifest, ManifestView,
};
use crate::paths::{join, join_str, letter_of, trim_drive_letter};
use crate::text::{
    append_chars, chars_eq, chars_of, string_of, to_upper, to_upper_all, trim_end_char,
    trim_end_matching, upper, upper_all, views,
};

verus! {

pub open spec fn string_views(v: Seq<String>) -> Seq<Seq<char>> {
    v.map_values(|s: String| s@)
}

// ---------------------------------------------------------------------
// Drive letters
// ---------------------------------------------------------------------

/// The drive letters `A` to `Z`, in order: the candidates probed for a
/// `vaultsync.db`.
pub fn drive_letters() -> (r: Vec<String>)
    ensures
        r@.len() == 26,
        forall|i: int| 0 <= i < 26 ==> #[trigger] r@[i]@ == seq![(65 + i) as char],
{
    let mut r: Vec<String> = Vec::new();
    let mut c: u8 = 65;
    while c <= 90
        invariant
            65 <= c <= 91,
            r@.len() == c - 65,
            forall|i: int| 0 <= i < r@.len() ==> #[trigger] r@[i]@ == seq![(65 + i) as char],
        decreases 91 - c,
    {
        let mut v: Vec<char> = Vec::new();
        v.push(c as char);
        r.push(string_of(v));
        c = c + 1;
    }
    r
}

/// The first character of `s`, in ASCII upper case, as a string (empty
/// for an empty `s`).
pub open spec fn first_upper(s: Seq<char>) -> Seq<char> {
    if s.len() > 0 {
        seq![upper(s[0])]
    } else {
        seq![]
    }
}

/// The drive letter of a path: its first character in ASCII upper case.
pub fn path_drive_letter(path: &str) -> (r: String)
    ensures
        r@ == first_upper(path@),
{
    let p = chars_of(path);
    let mut v: Vec<char> = Vec::new();
    if p.len() > 0 {
        v.push(to_upper(p[0]));
    }
    proof {
        if p@.len() > 0 {
            assert(v@ =~= seq![upper(p@[0])]);
        } else {
            assert(v@ =~= Seq::<char>::empty());
        }
    }
    string_of(v)
}

// ---------------------------------------------------------------------
// Local libraries
// ---------------------------------------------------------------------

/// A Steam library on this PC.
pub struct LocalLibrary {
    /// The library's `steamapps\common` folder.
    pub path: String,
    pub drive_letter: String,
    /// The game folders in it.
    pub games: Vec<String>,
}

/// A vault drive letter as compared: no trailing `:`, ASCII upper case.
pub open spec fn vault_key(letter: Seq<char>) -> Seq<char> {
    upper_all(trim_end_char(letter, ':'))
}

/// The vault keys of a list of drive letters.
pub open spec fn vault_keys_spec(vaults: Seq<Seq<char>>) -> Seq<Seq<char>> {
    vaults.map_values(|v: Seq<char>| vault_key(v))
}

/// `steamapps\common` under a library folder.
pub open spec fn library_common(path: Seq<char>) -> Seq<char> {
    join(join(path, "steamapps"@), "common"@)
}

/// The libraries kept from Steam's list: those whose drive letter is not
/// a vault's, as `(common folder, drive letter)`, in order.
pub open spec fn local_library_plan(paths: Seq<Seq<char>>, vaults: Seq<Seq<char>>) -> Seq<
    (Seq<char>, Seq<char>),
>
    decreases paths.len(),
{
    if paths.len() == 0 {
        seq![]
    } else {
        let rest = local_library_plan(paths.drop_last(), vaults);
        let p = paths.last();
        if vault_keys_spec(vaults).contains(first_upper(p)) {
            rest
        } else {
            rest.push((library_common(p), first_upper(p)))
        }
    }
}

pub open spec fn library_views(libs: Seq<LocalLibrary>) -> Seq<(Seq<char>, Seq<char>)> {
    libs.map_values(|l: LocalLibrary| (l.path@, l.drive_letter@))
}

fn vault_keys(vaults: &Vec<String>) -> (r: Vec<Vec<char>>)
    ensures
        r@.len() == vaults@.len(),
        forall|i: int| 0 <= i < r@.len() ==> #[trigger] r@[i]@ == vault_key(vaults@[i]@),
{
    let mut r: Vec<Vec<char>> = Vec::new();
    let mut i: usize = 0;
    while i < vaults.len()
        invariant
            i <= vaults@.len(),
            r@.len() == i,
            forall|k: int| 0 <= k < i ==> #[trigger] r@[k]@ == vault_key(vaults@[k]@),
        decreases vaults@.len() - i,
    {
        let v = chars_of(vaults[i].as_str());
        r.push(to_upper_all(&trim_end_matching(&v, ':')));
        i = i + 1;
    }
    r
}

fn contains_key(keys: &Vec<Vec<char>>, k: &Vec<char>) -> (r: bool)
    ensures
        r == exists|i: int| 0 <= i < keys@.len() && #[trigger] keys@[i]@ == k@,
{
    let mut i: usize = 0;
    while i < keys.len()
        invariant
            i <= keys@.len(),
            forall|j: int| 0 <= j < i ==> #[trigger] keys@[j]@ != k@,
        decreases keys@.len() - i,
    {
        if chars_eq(&keys[i], k) {
            return true;
        }
        i = i + 1;
    }
    false
}

/// The local libraries from Steam's list of library folders, leaving out
/// those on a vault drive. Each comes with its `steamapps\common` folder
/// and drive letter and no games yet: the caller drops the ones whose
/// folder does not exist and lists the game folders of the others.
pub fn plan_local_libraries(paths: &Vec<String>, vault_drive_letters: &Vec<String>) -> (r: Vec<
    LocalLibrary,
>)
    ensures
        library_views(r@) == local_library_plan(string_views(paths@), string_views(vault_drive_letters@)),
        forall|i: int| 0 <= i < r@.len() ==> (#[trigger] r@[i]).games@.len() == 0,
{
    let keys = vault_keys(vault_drive_letters);
    let ghost vaults = string_views(vault_drive_letters@);
    proof {
        assert forall|x: Seq<char>| #[trigger] vault_keys_spec(vaults).contains(x)
            <==> exists|i: int| 0 <= i < keys@.len() && #[trigger] keys@[i]@ == x by {
            if vault_keys_spec(vaults).contains(x) {
                let i = choose|i: int| 0 <= i < vaults.len() && #[trigger] vault_keys_spec(vaults)[i] == x;
                assert(keys@[i]@ == x);
            }
            if exists|i: int| 0 <= i < keys@.len() && #[trigger] keys@[i]@ == x {
                let i = choose|i: int| 0 <= i < keys@.len() && #[trigger] keys@[i]@ == x;
                assert(vault_keys_spec(vaults)[i] == x);
            }
        }
    }
    let mut r: Vec<LocalLibrary> = Vec::new();
    let mut i: usize = 0;
    while i < paths.len()
        invariant
            i <= paths@.len(),
            vaults == string_views(vault_drive_letters@),
            forall|x: Seq<char>| #[trigger] vault_keys_spec(vaults).contains(x)
                <==> exists|j: int| 0 <= j < keys@.len() && #[trigger] keys@[j]@ == x,
            library_views(r@) == local_library_plan(string_views(paths@).take(i as int), vaults),
            forall|k: int| 0 <= k < r@.len() ==> (#[trigger] r@[k]).games@.len() == 0,
        decreases paths@.len() - i,
    {
        proof {
            assert(string_views(paths@).take(i + 1).drop_last() =~= string_views(paths@).take(
                i as int,
            ));
            assert(string_views(paths@).take(i + 1).last() == paths@[i as int]@);
        }
        let p = paths[i].as_str();
        let letter = path_drive_letter(p);
        let lc = chars_of(letter.as_str());
        if !contains_key(&keys, &lc) {
            let common = join_str(join_str(p, "steamapps").as_str(), "common");
            let ghost before = r@;
            r.push(LocalLibrary { path: common, drive_letter: letter, games: Vec::new() });
            proof {
                assert(library_views(r@) =~= library_views(before).push(
                    (library_common(paths@[i as int]@), first_upper(paths@[i as int]@)),
                ));
            }
        }
        i = i + 1;
    }
    proof {
        assert(string_views(paths@).take(paths@.len() as int) =~= string_views(paths@));
    }
    r
}

// ---------------------------------------------------------------------
// A vault's identity
// ---------------------------------------------------------------------

/// What the interface shows of a vault drive.
pub struct SsdInfo {
    pub id: String,
    pub name: String,
    pub drive_letter: String,
    pub connected: bool,
    pub total_games: u32,
}

/// The identity of a vault, with what has to be stored back in its
/// catalog (a freshly made id or the default name, when they were not
/// stored yet).
pub struct SsdIdentity {
    pub info: SsdInfo,
    pub store_id: Option<String>,
    pub store_name: Option<String>,
}

pub open spec fn is_lower_hex(c: char) -> bool {
    ('0' <= c && c <= '9') || ('a' <= c && c <= 'f')
}

/// The hyphenated lower-case text of a version-4 (random) UUID.
pub open spec fn is_uuid_v4_text(s: Seq<char>) -> bool {
    &&& s.len() == 36
    &&& forall|i: int|
        0 <= i < 36 ==> if i == 8 || i == 13 || i == 18 || i == 23 {
            #[trigger] s[i] == '-'
        } else {
            is_lower_hex(s[i])
        }
    &&& s[14] == '4'
    &&& (s[19] == '8' || s[19] == '9' || s[19] == 'a' || s[19] == 'b')
}

/// `uuid::Uuid::new_v4().to_string()`: a random UUID in its hyphenated
/// lower-case form. The contract states the shape the uuid crate gives
/// every such text (version nibble `4`, RFC 4122 variant); which UUID
/// comes out is chance and left unsaid.
#[verifier::external_body]
fn new_uuid_v4() -> (r: String)
    ensures
        is_uuid_v4_text(r@),
{
    uuid::Uuid::new_v4().to_string()
}

/// The name given to a vault that has none yet.
pub open spec fn default_ssd_name(drive: Seq<char>) -> Seq<char> {
    "SSD Vault ("@ + letter_of(drive) + ":)"@
}

/// The identity of the vault on `drive_letter`, from what its catalog
/// holds: a stored id and name are kept; a missing id is a fresh random
/// UUID and a missing name the default one, both to be stored.
pub fn ssd_identity(
    stored_id: Option<String>,
    stored_name: Option<String>,
    drive_letter: &str,
    total_games: u32,
) -> (r: SsdIdentity)
    ensures
        r.info.drive_letter@ == letter_of(drive_letter@),
        r.info.connected,
        r.info.total_games == total_games,
        match stored_id {
            Some(id) => r.info.id@ == id@ && r.store_id is None,
            None => is_uuid_v4_text(r.info.id@) && opt_view(r.store_id) == Some(r.info.id@),
        },
        match stored_name {
            Some(n) => r.info.name@ == n@ && r.store_name is None,
            None => r.info.name@ == default_ssd_name(drive_letter@) && opt_view(r.store_name) == Some(
                r.info.name@,
            ),
        },
{
    let (id, store_id) = match stored_id {
        Some(id) => (id, None),
        None => {
            let fresh = new_uuid_v4();
            let copy = fresh.clone();
            (fresh, Some(copy))
        },
    };
    let (name, store_name) = match stored_name {
        Some(n) => (n, None),
        None => {
            let mut v = chars_of("SSD Vault (");
            let d = chars_of(drive_letter);
            let l = trim_end_matching(&d, ':');
            append_chars(&mut v, &l);
            let t = chars_of(":)");
            append_chars(&mut v, &t);
            let n = string_of(v);
            let copy = n.clone();
            (n, Some(copy))
        },
    };
    SsdIdentity {
        info: SsdInfo {
            id,
            name,
            drive_letter: trim_drive_letter(drive_letter),
            connected: true,
            total_games,
        },
        store_id,
        store_name,
    }
}

// ---------------------------------------------------------------------
// Local games missing from the vaults
// ---------------------------------------------------------------------

/// A game installed in a local library that no vault holds.
pub struct LocalCandidate {
    /// The library's `steamapps\common` folder.
    pub common_path: String,
    pub drive_letter: String,
    pub app_id: String,
    pub name: String,
    pub install_dir: String,
    pub build_id: Option<String>,
    /// The game's folder: the common folder joined with the install folder.
    pub game_folder: String,
    pub cover_url: String,
}

pub struct CandidateView {
    pub common_path: Seq<char>,
    pub drive_letter: Seq<char>,
    pub app_id: Seq<char>,
    pub name: Seq<char>,
    pub install_dir: Seq<char>,
    pub build_id: Option<Seq<char>>,
    pub game_folder: Seq<char>,
    pub cover_url: Seq<char>,
}

impl View for LocalCandidate {
    type V = CandidateView;

    open spec fn view(&self) -> CandidateView {
        CandidateView {
            common_path: self.common_path@,
            drive_letter: self.drive_letter@,
            app_id: self.app_id@,
            name: self.name@,
            install_dir: self.install_dir@,
            build_id: opt_view(self.build_id),
            game_folder: self.game_folder@,
            cover_url: self.cover_url@,
        }
    }
}

fn copy_opt(o: &Option<String>) -> (r: Option<String>)
    ensures
        opt_view(r) == opt_view(*o),
{
    match o {
        Some(s) => Some(s.clone()),
        None => None,
    }
}

fn copy_manifest(m: &AppManifest) -> (r: AppManifest)
    ensures
        r@ == m@,
{
    AppManifest {
        app_id: m.app_id.clone(),
        name: m.name.clone(),
        install_dir: m.install_dir.clone(),
        build_id: copy_opt(&m.build_id),
        state_flags: copy_opt(&m.state_flags),
    }
}

/// A library as read for the scan: its common folder and the
/// `(file name, content)` pairs of its `steamapps` folder.
pub open spec fn library_manifests(common: Seq<char>, files: Seq<(Seq<char>, Seq<char>)>) -> Seq<
    (Seq<char>, ManifestView),
> {
    manifests_of(files).map_values(|m: ManifestView| (common, m))
}

/// Every manifest of every library, tagged with its library, in order.
pub open spec fn all_manifests(libs: Seq<(Seq<char>, Seq<(Seq<char>, Seq<char>)>)>) -> Seq<
    (Seq<char>, ManifestView),
>
    decreases libs.len(),
{
    if libs.len() == 0 {
        seq![]
    } else {
        all_manifests(libs.drop_last()) + library_manifests(libs.last().0, libs.last().1)
    }
}

pub open spec fn candidate_of(common: Seq<char>, m: ManifestView) -> CandidateView {
    CandidateView {
        common_path: common,
        drive_letter: first_upper(common),
        app_id: m.app_id,
        name: m.name,
        install_dir: m.install_dir,
        build_id: m.build_id,
        game_folder: join(common, m.install_dir),
        cover_url: cover_url_spec(m.app_id),
    }
}

/// Key under which a game counts once: `<drive letter>:<install folder>`.
pub open spec fn candidate_key(c: CandidateView) -> Seq<char> {
    c.drive_letter + ":"@ + c.install_dir
}

/// The candidates among the manifests: those whose install folder is in
/// no vault, in order.
pub open spec fn vault_free(entries: Seq<(Seq<char>, ManifestView)>, vault: Seq<Seq<char>>) -> Seq<
    CandidateView,
>
    decreases entries.len(),
{
    if entries.len() == 0 {
        seq![]
    } else {
        let rest = vault_free(entries.drop_first(), vault);
        let (common, m) = entries[0];
        if vault.contains(m.install_dir) {
            rest
        } else {
            seq![candidate_of(common, m)] + rest
        }
    }
}

/// The selection among candidates, given whether each one's game folder
/// exists: a candidate without its folder is dropped, and of the others
/// the first for each key is taken.
pub open spec fn select_local(cands: Seq<CandidateView>, exists: Seq<bool>, seen: Set<Seq<char>>) -> Seq<
    CandidateView,
>
    decreases cands.len(),
{
    if cands.len() == 0 {
        seq![]
    } else {
        let c = cands[0];
        let key = candidate_key(c);
        if !exists[0] || seen.contains(key) {
            select_local(cands.drop_first(), exists.drop_first(), seen)
        } else {
            seq![c] + select_local(cands.drop_first(), exists.drop_first(), seen.insert(key))
        }
    }
}

pub open spec fn libs_view(libs: Seq<(String, Vec<(String, String)>)>) -> Seq<
    (Seq<char>, Seq<(Seq<char>, Seq<char>)>),
> {
    libs.map_values(|l: (String, Vec<(String, String)>)| (l.0@, file_views(l.1@)))
}

pub open spec fn candidate_views(v: Seq<LocalCandidate>) -> Seq<CandidateView> {
    v.map_values(|c: LocalCandidate| c@)
}

fn copy_candidate(c: &LocalCandidate) -> (r: LocalCandidate)
    ensures
        r@ == c@,
{
    LocalCandidate {
        common_path: c.common_path.clone(),
        drive_letter: c.drive_letter.clone(),
        app_id: c.app_id.clone(),
        name: c.name.clone(),
        install_dir: c.install_dir.clone(),
        build_id: copy_opt(&c.build_id),
        game_folder: c.game_folder.clone(),
        cover_url: c.cover_url.clone(),
    }
}

fn contains_string(v: &Vec<String>, x: &Vec<char>) -> (r: bool)
    ensures
        r == string_views(v@).contains(x@),
{
    let mut i: usize = 0;
    while i < v.len()
        invariant
            i <= v@.len(),
            forall|j: int| 0 <= j < i ==> #[trigger] string_views(v@)[j] != x@,
        decreases v@.len() - i,
    {
        let vc = chars_of(v[i].as_str());
        if chars_eq(&vc, x) {
            proof {
                assert(string_views(v@)[i as int] == x@);
            }
            return true;
        }
        i = i + 1;
    }
    false
}

/// The local games that no vault holds, given the vaults' folder names
/// and, for each local library, its common folder and the
/// `(file name, content)` pairs of its `steamapps` folder: one candidate
/// per parsed manifest whose install folder is in no vault, in order.
/// The caller then tells `select_local_only_games` which candidates'
/// game folders exist.
pub fn local_game_candidates(
    vault_folder_names: &Vec<String>,
    libraries: &Vec<(String, Vec<(String, String)>)>,
) -> (r: Vec<LocalCandidate>)
    ensures
        candidate_views(r@) == vault_free(
            all_manifests(libs_view(libraries@)),
            string_views(vault_folder_names@),
        ),
{
    // Gather every manifest with its library.
    let mut entries: Vec<(String, AppManifest)> = Vec::new();
    let mut i: usize = 0;
    while i < libraries.len()
        invariant
            i <= libraries@.len(),
            entries@.map_values(|e: (String, AppManifest)| (e.0@, e.1@)) == all_manifests(
                libs_view(libraries@).take(i as int),
            ),
        decreases libraries@.len() - i,
    {
        proof {
            assert(libs_view(libraries@).take(i + 1).drop_last() =~= libs_view(libraries@).take(
                i as int,
            ));
            assert(libs_view(libraries@).take(i + 1).last() == (
                libraries@[i as int].0@,
                file_views(libraries@[i as int].1@),
            ));
        }
        let (common, files) = &libraries[i];
        let ms = parse_manifest_files(files);
        let ghost start = entries@.map_values(|e: (String, AppManifest)| (e.0@, e.1@));
        let ghost all_ms = manifest_views(ms@);
        let mut j: usize = 0;
        while j < ms.len()
            invariant
                j <= ms@.len(),
                all_ms == manifest_views(ms@),
                all_ms == manifests_of(file_views(libraries@[i as int].1@)),
                entries@.map_values(|e: (String, AppManifest)| (e.0@, e.1@)) == start
                    + all_ms.take(j as int).map_values(|m: ManifestView| (common@, m)),
            decreases ms@.len() - j,
        {
            let ghost before = entries@;
            let m = copy_manifest(&ms[j]);
            proof {
                assert(m@ == all_ms[j as int]);
            }
            entries.push((common.clone(), m));
            proof {
                assert(all_ms.take(j + 1).map_values(|x: ManifestView| (common@, x)) =~= all_ms.take(
                    j as int,
                ).map_values(|x: ManifestView| (common@, x)).push((common@, all_ms[j as int])));
                assert(entries@.map_values(|e: (String, AppManifest)| (e.0@, e.1@)) =~= before.map_values(
                    |e: (String, AppManifest)| (e.0@, e.1@),
                ).push((common@, all_ms[j as int])));
            }
            j = j + 1;
        }
        let ghost n = ms@.len();
        proof {
            assert(all_ms.take(n as int) =~= all_ms);
        }
        i = i + 1;
    }
    proof {
        assert(libs_view(libraries@).take(libraries@.len() as int) =~= libs_view(libraries@));
    }
    let ghost all = all_manifests(libs_view(libraries@));
    let ghost vault = string_views(vault_folder_names@);
    let mut out: Vec<LocalCandidate> = Vec::new();
    let mut k: usize = 0;
    proof {
        assert(all.skip(0) =~= all);
        assert(candidate_views(out@) + vault_free(all, vault) =~= vault_free(all, vault));
    }
    while k < entries.len()
        invariant
            k <= entries@.len(),
            entries@.map_values(|e: (String, AppManifest)| (e.0@, e.1@)) == all,
            vault == string_views(vault_folder_names@),
            vault_free(all, vault) == candidate_views(out@) + vault_free(all.skip(k as int), vault),
        decreases entries@.len() - k,
    {
        proof {
            assert(all.skip(k as int)[0] == (entries@[k as int].0@, entries@[k as int].1@));
            assert(all.skip(k as int).drop_first() =~= all.skip(k + 1));
        }
        let (common, m) = &entries[k];
        let dir = chars_of(m.install_dir.as_str());
        if !contains_string(vault_folder_names, &dir) {
            let ghost before_out = out@;
            let cand = LocalCandidate {
                common_path: common.clone(),
                drive_letter: path_drive_letter(common.as_str()),
                app_id: m.app_id.clone(),
                name: m.name.clone(),
                install_dir: m.install_dir.clone(),
                build_id: copy_opt(&m.build_id),
                game_folder: join_str(common.as_str(), m.install_dir.as_str()),
                cover_url: cover_url(m.app_id.as_str()),
            };
            proof {
                assert(cand@ == candidate_of(common@, m@));
            }
            out.push(cand);
            proof {
                assert(candidate_views(out@) =~= candidate_views(before_out).push(
                    candidate_of(common@, m@),
                ));
                assert(candidate_views(before_out) + (seq![candidate_of(common@, m@)] + vault_free(
                    all.skip(k + 1),
                    vault,
                )) =~= candidate_views(out@) + vault_free(all.skip(k + 1), vault));
            }
        }
        k = k + 1;
    }
    proof {
        assert(all.skip(k as int) =~= Seq::<(Seq<char>, ManifestView)>::empty());
        assert(candidate_views(out@) + Seq::<CandidateView>::empty() =~= candidate_views(out@));
    }
    out
}

/// Selects among the candidates (see `local_game_candidates`), given for
/// each whether its game folder exists: a candidate whose folder is
/// missing is dropped, and of the others the first for each drive letter
/// and install folder is taken, in order.
pub fn select_local_only_games(candidates: &Vec<LocalCandidate>, folder_exists: &Vec<bool>) -> (r:
    Vec<LocalCandidate>)
    requires
        folder_exists@.len() == candidates@.len(),
    ensures
        candidate_views(r@) == select_local(
            candidate_views(candidates@),
            folder_exists@,
            Set::empty(),
        ),
{
    let ghost all = candidate_views(candidates@);
    let mut out: Vec<LocalCandidate> = Vec::new();
    let mut seen: Vec<Vec<char>> = Vec::new();
    let mut k: usize = 0;
    proof {
        assert(views(seen@).to_set() =~= Set::<Seq<char>>::empty());
        assert(all.skip(0) =~= all);
        assert(folder_exists@.skip(0) =~= folder_exists@);
        assert(candidate_views(out@) + select_local(all, folder_exists@, Set::empty())
            =~= select_local(all, folder_exists@, Set::empty()));
    }
    while k < candidates.len()
        invariant
            k <= candidates@.len(),
            folder_exists@.len() == candidates@.len(),
            all == candidate_views(candidates@),
            select_local(all, folder_exists@, Set::empty()) == candidate_views(out@) + select_local(
                all.skip(k as int),
                folder_exists@.skip(k as int),
                views(seen@).to_set(),
            ),
        decreases candidates@.len() - k,
    {
        let ghost seen_set = views(seen@).to_set();
        let c = &candidates[k];
        proof {
            assert(all.skip(k as int)[0] == c@);
            assert(all.skip(k as int).drop_first() =~= all.skip(k + 1));
            assert(folder_exists@.skip(k as int)[0] == folder_exists@[k as int]);
            assert(folder_exists@.skip(k as int).drop_first() =~= folder_exists@.skip(k + 1));
        }
        let mut key = chars_of(c.drive_letter.as_str());
        let colon = chars_of(":");
        append_chars(&mut key, &colon);
        let dir = chars_of(c.install_dir.as_str());
        append_chars(&mut key, &dir);
        let mut already = false;
        let mut s: usize = 0;
        while s < seen.len()
            invariant
                s <= seen@.len(),
                already == exists|w: int| 0 <= w < s && #[trigger] seen@[w]@ == key@,
            decreases seen@.len() - s,
        {
            if chars_eq(&seen[s], &key) {
                already = true;
            }
            s = s + 1;
        }
        proof {
            assert(key@ == candidate_key(c@));
            assert(already == seen_set.contains(key@)) by {
                if already {
                    let w = choose|w: int| 0 <= w < seen@.len() && #[trigger] seen@[w]@ == key@;
                    assert(views(seen@)[w] == key@);
                }
                if seen_set.contains(key@) {
                    let w = choose|w: int|
                        0 <= w < seen@.len() && #[trigger] views(seen@)[w] == key@;
                    assert(seen@[w]@ == key@);
                }
            }
        }
        if folder_exists[k] && !already {
            let ghost before_out = out@;
            let ghost before_seen = seen@;
            out.push(copy_candidate(c));
            seen.push(key);
            proof {
                let kk = candidate_key(c@);
                assert(candidate_views(out@) =~= candidate_views(before_out).push(c@));
                assert(views(seen@) =~= views(before_seen).push(kk));
                assert(views(seen@).to_set() =~= seen_set.insert(kk)) by {
                    Seq::<Seq<char>>::lemma_to_set_insert_commutes(views(before_seen), kk);
                    assert(views(before_seen) + seq![kk] =~= views(seen@));
                }
                assert(candidate_views(before_out) + (seq![c@] + select_local(
                    all.skip(k + 1),
                    folder_exists@.skip(k + 1),
                    seen_set.insert(kk),
                )) =~= candidate_views(out@) + select_local(
                    all.skip(k + 1),
                    folder_exists@.skip(k + 1),
                    seen_set.insert(kk),
                ));
            }
        }
        k = k + 1;
    }
    proof {
        assert(all.skip(k as int) =~= Seq::<CandidateView>::empty());
        assert(candidate_views(out@) + Seq::<CandidateView>::empty() =~= candidate_views(out@));
    }
    out
}

/// The text hashed into a local game's id: `<common folder>|<install folder>`.
pub fn id_seed(common_path: &str, install_dir: &str) -> (r: String)
    ensures
        r@ == common_path@ + "|"@ + install_dir@,
{
    let mut v = chars_of(common_path);
    let bar = chars_of("|");
    append_chars(&mut v, &bar);
    let d = chars_of(install_dir);
    append_chars(&mut v, &d);
    string_of(v)
}

/// The 64 hash bits read as a signed integer.
pub open spec fn signed_of(hash: u64) -> int {
    if hash < 0x8000_0000_0000_0000 {
        hash as int
    } else {
        hash - 0x1_0000_0000_0000_0000int
    }
}

/// A local game's id from the hash of its seed: the absolute value of
/// the hash read as a signed integer, so that it is never negative (the
/// one value with no positive counterpart gives `i64::MAX`).
pub fn synthetic_id(hash: u64) -> (r: i64)
    ensures
        signed_of(hash) == i64::MIN ==> r == i64::MAX,
        signed_of(hash) != i64::MIN ==> r == (if signed_of(hash) < 0 {
            -signed_of(hash)
        } else {
            signed_of(hash)
        }),
        r >= 0,
{
    if hash < 0x8000_0000_0000_0000 {
        hash as i64
    } else if hash == 0x8000_0000_0000_0000 {
        i64::MAX
    } else {
        let m: u64 = u64::MAX - hash + 1;
        m as i64
    }
}

// ---------------------------------------------------------------------
// Laws of the scans
// ---------------------------------------------------------------------

/// The libraries kept from Steam's list are never on a vault drive: a
/// vault is a source of games, not a destination.
pub proof fn lemma_plan_excludes_vaults(paths: Seq<Seq<char>>, vaults: Seq<Seq<char>>)
    ensures
        forall|i: int|
            0 <= i < local_library_plan(paths, vaults).len() ==> !vault_keys_spec(vaults).contains(
                (#[trigger] local_library_plan(paths, vaults)[i]).1,
            ),
    decreases paths.len(),
{
    if paths.len() > 0 {
        lemma_plan_excludes_vaults(paths.drop_last(), vaults);
        let rest = local_library_plan(paths.drop_last(), vaults);
        let plan = local_library_plan(paths, vaults);
        assert forall|i: int| 0 <= i < plan.len() implies !vault_keys_spec(vaults).contains(
            (#[trigger] plan[i]).1,
        ) by {
            if i < rest.len() {
                assert(plan[i] == rest[i]);
            }
        }
    }
}

/// Every candidate's install folder is in no vault.
proof fn lemma_vault_free_sound(entries: Seq<(Seq<char>, ManifestView)>, vault: Seq<Seq<char>>)
    ensures
        forall|i: int|
            0 <= i < vault_free(entries, vault).len() ==> !vault.contains(
                (#[trigger] vault_free(entries, vault)[i]).install_dir,
            ),
    decreases entries.len(),
{
    if entries.len() > 0 {
        lemma_vault_free_sound(entries.drop_first(), vault);
        let rest = vault_free(entries.drop_first(), vault);
        let r = vault_free(entries, vault);
        let (common, m) = entries[0];
        assert forall|i: int| 0 <= i < r.len() implies !vault.contains(
            (#[trigger] r[i]).install_dir,
        ) by {
            if !vault.contains(m.install_dir) && i > 0 {
                assert(r[i] == rest[i - 1]);
            }
        }
    }
}

proof fn lemma_select_local_sound(cands: Seq<CandidateView>, exists: Seq<bool>, seen: Set<Seq<char>>)
    requires
        exists.len() == cands.len(),
    ensures
        ({
            let r = select_local(cands, exists, seen);
            &&& forall|i: int|
                0 <= i < r.len() ==> exists|j: int|
                    0 <= j < cands.len() && exists[j] && #[trigger] r[i] == cands[j]
            &&& forall|i: int| 0 <= i < r.len() ==> !seen.contains(candidate_key(#[trigger] r[i]))
            &&& forall|i: int, j: int|
                0 <= i < j < r.len() ==> candidate_key(#[trigger] r[i]) != candidate_key(
                    #[trigger] r[j],
                )
            &&& forall|j: int|
                0 <= j < cands.len() && exists[j] ==> seen.contains(candidate_key(#[trigger] cands[j]))
                    || (exists|i: int| 0 <= i < r.len() && candidate_key(r[i]) == candidate_key(cands[j]))
        }),
    decreases cands.len(),
{
    if cands.len() > 0 {
        let c = cands[0];
        let key = candidate_key(c);
        let tail = cands.drop_first();
        let ex = exists.drop_first();
        let r = select_local(cands, exists, seen);
        if !exists[0] || seen.contains(key) {
            lemma_select_local_sound(tail, ex, seen);
            let rest = select_local(tail, ex, seen);
            assert(r == rest);
            assert forall|i: int| 0 <= i < r.len() implies exists|j: int|
                0 <= j < cands.len() && exists[j] && #[trigger] r[i] == cands[j] by {
                let j = choose|j: int| 0 <= j < tail.len() && ex[j] && #[trigger] rest[i] == tail[j];
                assert(cands[j + 1] == tail[j] && exists[j + 1] == ex[j]);
            }
            assert forall|j: int| 0 <= j < cands.len() && exists[j] implies seen.contains(
                candidate_key(#[trigger] cands[j]),
            ) || (exists|i: int| 0 <= i < r.len() && candidate_key(r[i]) == candidate_key(cands[j])) by {
                if j > 0 {
                    assert(cands[j] == tail[j - 1] && exists[j] == ex[j - 1]);
                }
            }
        } else {
            let seen2 = seen.insert(key);
            lemma_select_local_sound(tail, ex, seen2);
            let rest = select_local(tail, ex, seen2);
            assert(r == seq![c] + rest);
            assert forall|i: int| 0 <= i < r.len() implies exists|j: int|
                0 <= j < cands.len() && exists[j] && #[trigger] r[i] == cands[j] by {
                if i == 0 {
                    assert(r[0] == cands[0]);
                } else {
                    assert(r[i] == rest[i - 1]);
                    let j = choose|j: int|
                        0 <= j < tail.len() && ex[j] && #[trigger] rest[i - 1] == tail[j];
                    assert(cands[j + 1] == tail[j] && exists[j + 1] == ex[j]);
                }
            }
            assert forall|i: int| 0 <= i < r.len() implies !seen.contains(
                candidate_key(#[trigger] r[i]),
            ) by {
                if i > 0 {
                    assert(r[i] == rest[i - 1]);
                }
            }
            assert forall|i: int, j: int| 0 <= i < j < r.len() implies candidate_key(
                #[trigger] r[i],
            ) != candidate_key(#[trigger] r[j]) by {
                assert(r[j] == rest[j - 1]);
                if i > 0 {
                    assert(r[i] == rest[i - 1]);
                } else {
                    assert(seen2.contains(key));
                }
            }
            assert forall|j: int| 0 <= j < cands.len() && exists[j] implies seen.contains(
                candidate_key(#[trigger] cands[j]),
            ) || (exists|i: int| 0 <= i < r.len() && candidate_key(r[i]) == candidate_key(cands[j])) by {
                if j == 0 {
                    assert(r[0] == c);
                } else {
                    assert(cands[j] == tail[j - 1] && exists[j] == ex[j - 1]);
                    let kj = candidate_key(cands[j]);
                    if kj == key {
                        assert(candidate_key(r[0]) == kj);
                    } else if !seen.contains(kj) {
                        assert(!seen2.contains(kj));
                        let i = choose|i: int|
                            0 <= i < rest.len() && candidate_key(rest[i]) == candidate_key(tail[j - 1]);
                        assert(r[i + 1] == rest[i]);
                    }
                }
            }
        }
    }
}

/// The local-only scan finds every local game that no vault holds: it
/// never offers a game whose install folder is in a vault or whose folder
/// is missing, it offers each drive letter and install folder at most
/// once, and for every candidate whose folder exists it offers that drive
/// letter and install folder.
pub proof fn lemma_local_only_games_sound(
    libs: Seq<(Seq<char>, Seq<(Seq<char>, Seq<char>)>)>,
    vault: Seq<Seq<char>>,
    exists: Seq<bool>,
)
    requires
        exists.len() == vault_free(all_manifests(libs), vault).len(),
    ensures
        ({
            let cands = vault_free(all_manifests(libs), vault);
            let r = select_local(cands, exists, Set::empty());
            &&& forall|i: int| 0 <= i < r.len() ==> !vault.contains((#[trigger] r[i]).install_dir)
            &&& forall|i: int|
                0 <= i < r.len() ==> exists|j: int|
                    0 <= j < cands.len() && exists[j] && #[trigger] r[i] == cands[j]
            &&& forall|i: int, j: int|
                0 <= i < j < r.len() ==> candidate_key(#[trigger] r[i]) != candidate_key(
                    #[trigger] r[j],
                )
            &&& forall|j: int|
                0 <= j < cands.len() && exists[j] ==> exists|i: int|
                    0 <= i < r.len() && candidate_key(r[i]) == candidate_key(#[trigger] cands[j])
        }),
{
    let cands = vault_free(all_manifests(libs), vault);
    lemma_vault_free_sound(all_manifests(libs), vault);
    lemma_select_local_sound(cands, exists, Set::empty());
    let r = select_local(cands, exists, Set::empty());
    assert forall|i: int| 0 <= i < r.len() implies !vault.contains((#[trigger] r[i]).install_dir) by {
        let j = choose|j: int| 0 <= j < cands.len() && exists[j] && #[trigger] r[i] == cands[j];
        assert(!vault.contains(cands[j].install_dir));
    }
}

} // verus!
