//! Reading Steam's `appmanifest_*.acf` files and turning the folders of a
//! vault into catalog rows.
use vstd::prelude::*;

use crate::text::{
    append_chars, chars_eq, chars_of, ends_with, has_char, has_prefix, has_suffix, kv_value,
    lemma_kv_value_of_pair, trim_end, trim_start,
    kv_value_chars, lines_of, split_lines, starts_with, string_of, trim, trim_chars, views,
};

verus! {

/// What an app manifest says about one game.
pub struct AppManifest {
    pub app_id: String,
    pub name: String,
    pub install_dir: String,
    pub build_id: Option<String>,
    pub state_flags: Option<String>,
}

/// The model of an `AppManifest`: its fields as character sequences.
pub struct ManifestView {
    pub app_id: Seq<char>,
    pub name: Seq<char>,
    pub install_dir: Seq<char>,
    pub build_id: Option<Seq<char>>,
    pub state_flags: Option<Seq<char>>,
}

pub open spec fn opt_view(o: Option<String>) -> Option<Seq<char>> {
    match o {
        Some(s) => Some(s@),
        None => None,
    }
}

impl View for AppManifest {
    type V = ManifestView;

    open spec fn view(&self) -> ManifestView {
        ManifestView {
            app_id: self.app_id@,
            name: self.name@,
            install_dir: self.install_dir@,
            build_id: opt_view(self.build_id),
            state_flags: opt_view(self.state_flags),
        }
    }
}

/// The fields found so far while reading a manifest.
pub struct AcfFields {
    pub app_id: Option<Seq<char>>,
    pub name: Option<Seq<char>>,
    pub install_dir: Option<Seq<char>>,
    pub state_flags: Option<Seq<char>>,
    pub build_id: Option<Seq<char>>,
}

pub open spec fn acf_none() -> AcfFields {
    AcfFields { app_id: None, name: None, install_dir: None, state_flags: None, build_id: None }
}

/// The three fields that name the game are known.
pub open spec fn acf_complete(f: AcfFields) -> bool {
    f.app_id is Some && f.name is Some && f.install_dir is Some
}

/// The two state fields are known.
pub open spec fn acf_state_complete(f: AcfFields) -> bool {
    f.state_flags is Some && f.build_id is Some
}

/// One line of a manifest for the naming fields: a line whose trimmed
/// text starts with `"appid"`, `"name"` or `"installdir"` sets that field
/// to the line's value (or clears it when the line has no value).
pub open spec fn acf_update(f: AcfFields, line: Seq<char>) -> AcfFields {
    let t = trim(line);
    if has_prefix(t, "\"appid\""@) {
        AcfFields { app_id: kv_value(t), ..f }
    } else if has_prefix(t, "\"name\""@) {
        AcfFields { name: kv_value(t), ..f }
    } else if has_prefix(t, "\"installdir\""@) {
        AcfFields { install_dir: kv_value(t), ..f }
    } else {
        f
    }
}

/// One line of a manifest for the state fields: `"StateFlags"` and
/// `"buildid"` lines, in the same way.
pub open spec fn acf_state_update(f: AcfFields, line: Seq<char>) -> AcfFields {
    let t = trim(line);
    if has_prefix(t, "\"StateFlags\""@) {
        AcfFields { state_flags: kv_value(t), ..f }
    } else if has_prefix(t, "\"buildid\""@) {
        AcfFields { build_id: kv_value(t), ..f }
    } else {
        f
    }
}

/// Reads the lines in order for the naming fields, stopping as soon as
/// the three are known.
pub open spec fn acf_scan(lines: Seq<Seq<char>>, f: AcfFields) -> AcfFields
    decreases lines.len(),
{
    if lines.len() == 0 || acf_complete(f) {
        f
    } else {
        acf_scan(lines.drop_first(), acf_update(f, lines[0]))
    }
}

/// Reads the lines in order for the state fields, stopping as soon as
/// both are known.
pub open spec fn acf_state_scan(lines: Seq<Seq<char>>, f: AcfFields) -> AcfFields
    decreases lines.len(),
{
    if lines.len() == 0 || acf_state_complete(f) {
        f
    } else {
        acf_state_scan(lines.drop_first(), acf_state_update(f, lines[0]))
    }
}

/// The manifest described by `content`: present when it names both the
/// AppID and the install folder; the display name defaults to the install
/// folder.
pub open spec fn parse_appmanifest_spec(content: Seq<char>) -> Option<ManifestView> {
    let f = acf_scan(lines_of(content), acf_none());
    let g = acf_state_scan(lines_of(content), acf_none());
    match (f.install_dir, f.app_id) {
        (Some(dir), Some(id)) => Some(
            ManifestView {
                app_id: id,
                name: match f.name {
                    Some(n) => n,
                    None => dir,
                },
                install_dir: dir,
                build_id: g.build_id,
                state_flags: g.state_flags,
            },
        ),
        _ => None,
    }
}

spec fn opt_chars(o: Option<Vec<char>>) -> Option<Seq<char>> {
    match o {
        Some(v) => Some(v@),
        None => None,
    }
}

fn opt_string(o: Option<Vec<char>>) -> (r: Option<String>)
    ensures
        opt_view(r) == (match o {
            Some(v) => Some(v@),
            None => None::<Seq<char>>,
        }),
{
    match o {
        Some(v) => Some(string_of(v)),
        None => None,
    }
}

/// The value of an ACF line `"key"  "value"`: the text between its third
/// and fourth double quote.
pub fn extract_acf_value(line: &str) -> (r: Option<String>)
    ensures
        opt_view(r) == kv_value(line@),
{
    let v = chars_of(line);
    opt_string(kv_value_chars(&v))
}

spec fn fields_of(
    a: Option<Vec<char>>,
    b: Option<Vec<char>>,
    c: Option<Vec<char>>,
    d: Option<Vec<char>>,
    e: Option<Vec<char>>,
) -> AcfFields {
    AcfFields {
        app_id: opt_chars(a),
        name: opt_chars(b),
        install_dir: opt_chars(c),
        state_flags: opt_chars(d),
        build_id: opt_chars(e),
    }
}

/// The naming fields `(appid, name, installdir)` of the lines.
fn scan_naming(lines: &Vec<Vec<char>>) -> (r: (Option<Vec<char>>, Option<Vec<char>>, Option<Vec<char>>))
    ensures
        ({
            let f = acf_scan(views(lines@), acf_none());
            opt_chars(r.0) == f.app_id && opt_chars(r.1) == f.name && opt_chars(r.2) == f.install_dir
        }),
{
    let ghost all = views(lines@);
    let k_appid = chars_of("\"appid\"");
    let k_name = chars_of("\"name\"");
    let k_dir = chars_of("\"installdir\"");
    let mut app_id: Option<Vec<char>> = None;
    let mut name: Option<Vec<char>> = None;
    let mut install_dir: Option<Vec<char>> = None;
    let mut i: usize = 0;
    proof {
        assert(all.skip(0) =~= all);
    }
    while i < lines.len() && !(app_id.is_some() && name.is_some() && install_dir.is_some())
        invariant
            all == views(lines@),
            i <= lines@.len(),
            k_appid@ == "\"appid\""@,
            k_name@ == "\"name\""@,
            k_dir@ == "\"installdir\""@,
            acf_scan(all, acf_none()) == acf_scan(
                all.skip(i as int),
                fields_of(app_id, name, install_dir, None, None),
            ),
        decreases lines@.len() - i,
    {
        proof {
            assert(all.skip(i as int).drop_first() =~= all.skip(i + 1));
            assert(all.skip(i as int)[0] == lines@[i as int]@);
        }
        let t = trim_chars(&lines[i]);
        let ghost before = fields_of(app_id, name, install_dir, None, None);
        if starts_with(&t, &k_appid) {
            app_id = kv_value_chars(&t);
        } else if starts_with(&t, &k_name) {
            name = kv_value_chars(&t);
        } else if starts_with(&t, &k_dir) {
            install_dir = kv_value_chars(&t);
        }
        proof {
            assert(acf_update(before, lines@[i as int]@) == fields_of(
                app_id,
                name,
                install_dir,
                None,
                None,
            ));
        }
        i = i + 1;
    }
    proof {
        if i == lines@.len() {
            assert(all.skip(i as int).len() == 0);
        }
    }
    (app_id, name, install_dir)
}

/// The state fields `(StateFlags, buildid)` of the lines.
fn scan_state(lines: &Vec<Vec<char>>) -> (r: (Option<Vec<char>>, Option<Vec<char>>))
    ensures
        ({
            let g = acf_state_scan(views(lines@), acf_none());
            opt_chars(r.0) == g.state_flags && opt_chars(r.1) == g.build_id
        }),
{
    let ghost all = views(lines@);
    let k_flags = chars_of("\"StateFlags\"");
    let k_build = chars_of("\"buildid\"");
    let mut state_flags: Option<Vec<char>> = None;
    let mut build_id: Option<Vec<char>> = None;
    let mut i: usize = 0;
    proof {
        assert(all.skip(0) =~= all);
    }
    while i < lines.len() && !(state_flags.is_some() && build_id.is_some())
        invariant
            all == views(lines@),
            i <= lines@.len(),
            k_flags@ == "\"StateFlags\""@,
            k_build@ == "\"buildid\""@,
            acf_state_scan(all, acf_none()) == acf_state_scan(
                all.skip(i as int),
                fields_of(None, None, None, state_flags, build_id),
            ),
        decreases lines@.len() - i,
    {
        proof {
            assert(all.skip(i as int).drop_first() =~= all.skip(i + 1));
            assert(all.skip(i as int)[0] == lines@[i as int]@);
        }
        let t = trim_chars(&lines[i]);
        let ghost before = fields_of(None, None, None, state_flags, build_id);
        if starts_with(&t, &k_flags) {
            state_flags = kv_value_chars(&t);
        } else if starts_with(&t, &k_build) {
            build_id = kv_value_chars(&t);
        }
        proof {
            assert(acf_state_update(before, lines@[i as int]@) == fields_of(
                None,
                None,
                None,
                state_flags,
                build_id,
            ));
        }
        i = i + 1;
    }
    proof {
        if i == lines@.len() {
            assert(all.skip(i as int).len() == 0);
        }
    }
    (state_flags, build_id)
}

/// Reads an app manifest: its AppID, display name and install folder
/// (read until the three are found), and its build id and `StateFlags`
/// (read until both are found).
pub fn parse_appmanifest(content: &str) -> (r: Option<AppManifest>)
    ensures
        r matches Some(m) ==> parse_appmanifest_spec(content@) == Some(m@),
        r is None ==> parse_appmanifest_spec(content@) is None,
{
    let text = chars_of(content);
    let lines = split_lines(&text);
    let (app_id, name, install_dir) = scan_naming(&lines);
    let (state_flags, build_id) = scan_state(&lines);
    match (install_dir, app_id) {
        (Some(dir), Some(id)) => {
            let nm = match name {
                Some(n) => n,
                None => copy_chars(&dir),
            };
            Some(
                AppManifest {
                    app_id: string_of(id),
                    name: string_of(nm),
                    install_dir: string_of(dir),
                    build_id: opt_string(build_id),
                    state_flags: opt_string(state_flags),
                },
            )
        },
        _ => None,
    }
}

fn copy_chars(v: &Vec<char>) -> (r: Vec<char>)
    ensures
        r@ == v@,
{
    let mut r: Vec<char> = Vec::new();
    append_chars(&mut r, v);
    r
}

// ---------------------------------------------------------------------
// Manifests of a library folder
// ---------------------------------------------------------------------

/// A file name of the form `appmanifest_*.acf`.
pub open spec fn is_manifest_file_name(name: Seq<char>) -> bool {
    has_prefix(name, "appmanifest_"@) && has_suffix(name, ".acf"@)
}

/// `true` for `appmanifest_*.acf` file names.
pub fn is_manifest_file(name: &str) -> (r: bool)
    ensures
        r == is_manifest_file_name(name@),
{
    let n = chars_of(name);
    let p = chars_of("appmanifest_");
    let s = chars_of(".acf");
    starts_with(&n, &p) && ends_with(&n, &s)
}

/// The manifests among the files of a `steamapps` folder, in the order of
/// the files: those whose name is `appmanifest_*.acf` and whose content
/// parses.
pub open spec fn manifests_of(files: Seq<(Seq<char>, Seq<char>)>) -> Seq<ManifestView>
    decreases files.len(),
{
    if files.len() == 0 {
        seq![]
    } else {
        let rest = manifests_of(files.drop_last());
        let (name, content) = files.last();
        if is_manifest_file_name(name) {
            match parse_appmanifest_spec(content) {
                Some(m) => rest.push(m),
                None => rest,
            }
        } else {
            rest
        }
    }
}

pub open spec fn file_views(files: Seq<(String, String)>) -> Seq<(Seq<char>, Seq<char>)> {
    files.map_values(|f: (String, String)| (f.0@, f.1@))
}

pub open spec fn manifest_views(ms: Seq<AppManifest>) -> Seq<ManifestView> {
    ms.map_values(|m: AppManifest| m@)
}

/// Parses the `appmanifest_*.acf` files among `(file name, content)` pairs.
pub fn parse_manifest_files(files: &Vec<(String, String)>) -> (r: Vec<AppManifest>)
    ensures
        manifest_views(r@) == manifests_of(file_views(files@)),
{
    let mut r: Vec<AppManifest> = Vec::new();
    let mut i: usize = 0;
    while i < files.len()
        invariant
            i <= files@.len(),
            manifest_views(r@) == manifests_of(file_views(files@).take(i as int)),
        decreases files@.len() - i,
    {
        proof {
            assert(file_views(files@).take(i + 1).drop_last() =~= file_views(files@).take(
                i as int,
            ));
            assert(file_views(files@).take(i + 1).last() == (files@[i as int].0@, files@[i as int].1@));
        }
        let (name, content) = &files[i];
        if is_manifest_file(name.as_str()) {
            match parse_appmanifest(content.as_str()) {
                Some(m) => {
                    let ghost before = r@;
                    r.push(m);
                    proof {
                        assert(manifest_views(r@) =~= manifest_views(before).push(m@));
                    }
                },
                None => {},
            }
        }
        i = i + 1;
    }
    proof {
        assert(file_views(files@).take(files@.len() as int) =~= file_views(files@));
    }
    r
}

/// The manifest Steam uses for a folder: the last one naming it as its
/// install folder.
pub open spec fn manifest_for_folder(ms: Seq<ManifestView>, folder: Seq<char>) -> Option<ManifestView>
    decreases ms.len(),
{
    if ms.len() == 0 {
        None
    } else if ms.last().install_dir == folder {
        Some(ms.last())
    } else {
        manifest_for_folder(ms.drop_last(), folder)
    }
}

/// The manifest for `folder` among `manifests` (the last whose install
/// folder is `folder`), if any.
pub fn find_manifest<'a>(manifests: &'a Vec<AppManifest>, folder: &str) -> (r: Option<&'a AppManifest>)
    ensures
        r matches Some(m) ==> manifest_for_folder(manifest_views(manifests@), folder@) == Some(m@),
        r is None ==> manifest_for_folder(manifest_views(manifests@), folder@) is None,
{
    let f = chars_of(folder);
    let mut i = manifests.len();
    proof {
        assert(manifest_views(manifests@).take(i as int) =~= manifest_views(manifests@));
    }
    while i > 0
        invariant
            i <= manifests@.len(),
            f@ == folder@,
            manifest_for_folder(manifest_views(manifests@), folder@) == manifest_for_folder(
                manifest_views(manifests@).take(i as int),
                folder@,
            ),
        decreases i,
    {
        let m = &manifests[i - 1];
        let d = chars_of(m.install_dir.as_str());
        proof {
            assert(manifest_views(manifests@).take(i as int).last() == m@);
            assert(manifest_views(manifests@).take(i as int).drop_last() =~= manifest_views(
                manifests@,
            ).take(i - 1));
        }
        if chars_eq(&d, &f) {
            return Some(m);
        }
        i = i - 1;
    }
    None
}

// ---------------------------------------------------------------------
// Catalog rows
// ---------------------------------------------------------------------

/// Cover art on Steam's CDN for an AppID.
pub open spec fn cover_url_spec(app_id: Seq<char>) -> Seq<char> {
    "https://cdn.cloudflare.steamstatic.com/steam/apps/"@ + app_id + "/library_600x900.jpg"@
}

/// The URL of the 600x900 library cover of `app_id`.
pub fn cover_url(app_id: &str) -> (r: String)
    ensures
        r@ == cover_url_spec(app_id@),
{
    let mut v = chars_of("https://cdn.cloudflare.steamstatic.com/steam/apps/");
    let a = chars_of(app_id);
    append_chars(&mut v, &a);
    let t = chars_of("/library_600x900.jpg");
    append_chars(&mut v, &t);
    string_of(v)
}

/// What a rescan records for a folder of the vault (its size is measured
/// apart).
pub struct GameRow {
    pub app_id: Option<String>,
    pub title: String,
    pub folder_name: String,
    pub cover_url: Option<String>,
}

/// The row for `folder`, given the manifest that names it (if any): the
/// manifest supplies AppID, title and cover; without one the title is the
/// folder name.
pub open spec fn game_row_spec(folder: Seq<char>, m: Option<ManifestView>) -> (
    Option<Seq<char>>,
    Seq<char>,
    Seq<char>,
    Option<Seq<char>>,
) {
    match m {
        Some(m) => (Some(m.app_id), m.name, folder, Some(cover_url_spec(m.app_id))),
        None => (None, folder, folder, None),
    }
}

/// The catalog row for one folder of the vault.
pub fn game_row(folder: &str, manifest: Option<&AppManifest>) -> (r: GameRow)
    ensures
        (opt_view(r.app_id), r.title@, r.folder_name@, opt_view(r.cover_url)) == game_row_spec(
            folder@,
            match manifest {
                Some(m) => Some(m@),
                None => None,
            },
        ),
{
    match manifest {
        Some(m) => GameRow {
            app_id: Some(m.app_id.clone()),
            title: m.name.clone(),
            folder_name: folder.to_string(),
            cover_url: Some(cover_url(m.app_id.as_str())),
        },
        None => GameRow {
            app_id: None,
            title: folder.to_string(),
            folder_name: folder.to_string(),
            cover_url: None,
        },
    }
}

pub open spec fn row_view(r: GameRow) -> (Option<Seq<char>>, Seq<char>, Seq<char>, Option<Seq<char>>) {
    (opt_view(r.app_id), r.title@, r.folder_name@, opt_view(r.cover_url))
}

/// The row stored by a rescan for a folder already in the catalog as
/// `old` (if it is): a row named by a manifest replaces AppID and title;
/// without a manifest the old AppID and title stay; a cover is replaced
/// only by a cover.
pub open spec fn merged_row_spec(
    old: Option<(Option<Seq<char>>, Seq<char>, Seq<char>, Option<Seq<char>>)>,
    new: (Option<Seq<char>>, Seq<char>, Seq<char>, Option<Seq<char>>),
) -> (Option<Seq<char>>, Seq<char>, Seq<char>, Option<Seq<char>>) {
    match old {
        None => new,
        Some(o) => (
            if new.0 is Some { new.0 } else { o.0 },
            if new.0 is Some { new.1 } else { o.1 },
            new.2,
            if new.3 is Some { new.3 } else { o.3 },
        ),
    }
}

fn clone_opt(o: &Option<String>) -> (r: Option<String>)
    ensures
        opt_view(r) == opt_view(*o),
{
    match o {
        Some(s) => Some(s.clone()),
        None => None,
    }
}

/// The row a rescan stores, given the row already in the catalog for the
/// same folder (if any) and the freshly computed one.
pub fn merge_rescan_row(old: Option<&GameRow>, new: &GameRow) -> (r: GameRow)
    ensures
        row_view(r) == merged_row_spec(
            match old {
                Some(o) => Some(row_view(*o)),
                None => None,
            },
            row_view(*new),
        ),
{
    match old {
        None => GameRow {
            app_id: clone_opt(&new.app_id),
            title: new.title.clone(),
            folder_name: new.folder_name.clone(),
            cover_url: clone_opt(&new.cover_url),
        },
        Some(o) => {
            let named = new.app_id.is_some();
            GameRow {
                app_id: if named { clone_opt(&new.app_id) } else { clone_opt(&o.app_id) },
                title: if named { new.title.clone() } else { o.title.clone() },
                folder_name: new.folder_name.clone(),
                cover_url: if new.cover_url.is_some() {
                    clone_opt(&new.cover_url)
                } else {
                    clone_opt(&o.cover_url)
                },
            }
        },
    }
}

/// The rows a rescan writes: one per folder, in order, each with the
/// manifest that names the folder.
pub fn rescan_rows(folders: &Vec<String>, manifests: &Vec<AppManifest>) -> (r: Vec<GameRow>)
    ensures
        r@.len() == folders@.len(),
        forall|i: int|
            0 <= i < r@.len() ==> (
            opt_view(#[trigger] r@[i].app_id),
            r@[i].title@,
            r@[i].folder_name@,
            opt_view(r@[i].cover_url),
        ) == game_row_spec(
                folders@[i]@,
                manifest_for_folder(manifest_views(manifests@), folders@[i]@),
            ),
{
    let mut r: Vec<GameRow> = Vec::new();
    let mut i: usize = 0;
    while i < folders.len()
        invariant
            i <= folders@.len(),
            r@.len() == i,
            forall|j: int|
                0 <= j < i ==> (
                opt_view(#[trigger] r@[j].app_id),
                r@[j].title@,
                r@[j].folder_name@,
                opt_view(r@[j].cover_url),
            ) == game_row_spec(
                    folders@[j]@,
                    manifest_for_folder(manifest_views(manifests@), folders@[j]@),
                ),
        decreases folders@.len() - i,
    {
        let m = find_manifest(manifests, folders[i].as_str());
        let row = game_row(folders[i].as_str(), m);
        r.push(row);
        i = i + 1;
    }
    r
}


// ---------------------------------------------------------------------
// Laws of manifest parsing
// ---------------------------------------------------------------------

/// An ACF line `"<key>"<tab><tab>"<value>"`, as Steam writes it.
pub open spec fn acf_line(key: Seq<char>, value: Seq<char>) -> Seq<char> {
    seq!['"'] + key + seq!['"'] + seq!['\t', '\t'] + seq!['"'] + value + seq!['"']
}

proof fn lemma_acf_line(key: Seq<char>, value: Seq<char>)
    requires
        !has_char(key, '"'),
        !has_char(value, '"'),
    ensures
        trim(acf_line(key, value)) == acf_line(key, value),
        kv_value(acf_line(key, value)) == Some(value),
        acf_line(key, value).take(key.len() + 2int) == seq!['"'] + key + seq!['"'],
        acf_line(key, value)[0] == '"',
        key.len() > 0 ==> acf_line(key, value)[1] == key[0],
{
    let l = acf_line(key, value);
    assert(!has_char(seq!['\t', '\t'], '"'));
    lemma_kv_value_of_pair(key, seq!['\t', '\t'], value);
    assert(l[0] == '"');
    assert(l.last() == '"');
    assert(trim_start(l) == l);
    assert(trim_end(l) == l);
    assert(l.take(key.len() + 2int) =~= seq!['"'] + key + seq!['"']);
}

/// A manifest whose lines are its AppID, display name and install folder,
/// in the order Steam writes them, parses to exactly those three values
/// (the display name is the `"name"` line's value, not the folder), with
/// no build id or `StateFlags`.
pub proof fn lemma_manifest_fields_from_lines(
    content: Seq<char>,
    app_id: Seq<char>,
    name: Seq<char>,
    install_dir: Seq<char>,
)
    requires
        !has_char(app_id, '"'),
        !has_char(name, '"'),
        !has_char(install_dir, '"'),
        lines_of(content) == seq![
            acf_line("appid"@, app_id),
            acf_line("name"@, name),
            acf_line("installdir"@, install_dir),
        ],
    ensures
        parse_appmanifest_spec(content) == Some(
            ManifestView {
                app_id: app_id,
                name: name,
                install_dir: install_dir,
                build_id: None,
                state_flags: None,
            },
        ),
{
    reveal_strlit("appid");
    reveal_strlit("name");
    reveal_strlit("installdir");
    reveal_strlit("\"appid\"");
    reveal_strlit("\"name\"");
    reveal_strlit("\"installdir\"");
    reveal_strlit("\"StateFlags\"");
    reveal_strlit("\"buildid\"");
    let ka = "appid"@;
    let kn = "name"@;
    let kd = "installdir"@;
    assert(!has_char(ka, '"'));
    assert(!has_char(kn, '"'));
    assert(!has_char(kd, '"'));
    let l1 = acf_line(ka, app_id);
    let l2 = acf_line(kn, name);
    let l3 = acf_line(kd, install_dir);
    lemma_acf_line(ka, app_id);
    lemma_acf_line(kn, name);
    lemma_acf_line(kd, install_dir);
    assert("\"appid\""@ =~= seq!['"'] + ka + seq!['"']);
    assert("\"name\""@ =~= seq!['"'] + kn + seq!['"']);
    assert("\"installdir\""@ =~= seq!['"'] + kd + seq!['"']);
    assert(has_prefix(l1, "\"appid\""@));
    assert(!has_prefix(l2, "\"appid\""@)) by {
        assert(l2[1] != "\"appid\""@[1]);
        assert(l2.take(7)[1] == l2[1]);
    }
    assert(has_prefix(l2, "\"name\""@));
    assert(!has_prefix(l3, "\"appid\""@)) by {
        assert(l3.take(7)[1] == l3[1]);
    }
    assert(!has_prefix(l3, "\"name\""@)) by {
        assert(l3.take(6)[1] == l3[1]);
    }
    assert(has_prefix(l3, "\"installdir\""@));
    let lines = lines_of(content);
    let f1 = acf_update(acf_none(), l1);
    assert(f1 == AcfFields { app_id: Some(app_id), ..acf_none() });
    let f2 = acf_update(f1, l2);
    assert(f2 == AcfFields { app_id: Some(app_id), name: Some(name), ..acf_none() });
    let f3 = acf_update(f2, l3);
    assert(acf_complete(f3));
    assert(lines.drop_first() =~= seq![l2, l3]);
    assert(lines.drop_first().drop_first() =~= seq![l3]);
    assert(lines.drop_first().drop_first().drop_first() =~= Seq::<Seq<char>>::empty());
    assert(lines[0] == l1 && lines.drop_first()[0] == l2 && lines.drop_first().drop_first()[0] == l3);
    assert(acf_scan(lines.drop_first().drop_first().drop_first(), f3) == f3);
    assert(acf_scan(lines.drop_first().drop_first(), f2) == f3);
    assert(acf_scan(lines.drop_first(), f1) == f3);
    assert(acf_scan(lines, acf_none()) == f3);
    // none of the lines is a state line
    assert(!has_prefix(l1, "\"StateFlags\""@)) by {
        if l1.len() >= 12 {
            assert(l1.take(12)[1] == l1[1]);
        }
    }
    assert(!has_prefix(l1, "\"buildid\""@)) by {
        assert(l1.take(9)[1] == l1[1]);
    }
    assert(!has_prefix(l2, "\"StateFlags\""@)) by {
        if l2.len() >= 12 {
            assert(l2.take(12)[1] == l2[1]);
        }
    }
    assert(!has_prefix(l2, "\"buildid\""@)) by {
        assert(l2.take(9)[1] == l2[1]);
    }
    assert(!has_prefix(l3, "\"StateFlags\""@)) by {
        if l3.len() >= 12 {
            assert(l3.take(12)[1] == l3[1]);
        }
    }
    assert(!has_prefix(l3, "\"buildid\""@)) by {
        assert(l3.take(9)[1] == l3[1]);
    }
    let g = acf_none();
    assert(acf_state_update(g, l1) == g);
    assert(acf_state_update(g, l2) == g);
    assert(acf_state_update(g, l3) == g);
    assert(acf_state_scan(lines.drop_first().drop_first().drop_first(), g) == g);
    assert(acf_state_scan(lines.drop_first().drop_first(), g) == g);
    assert(acf_state_scan(lines.drop_first(), g) == g);
    assert(acf_state_scan(lines, acf_none()) == acf_none());
}

} // verus!
