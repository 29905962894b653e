//! Steam's library list (`libraryfolders.vdf`) read through
//! `keyvalues_parser`, the `steam://` URIs the app opens, and the check of
//! which vault games are present in local libraries.
use vstd::prelude::*;

use crate::paths::{join, join_str};
use crate::text::{append_chars, chars_eq, chars_of, string_of};

verus! {

// ---------------------------------------------------------------------
// The VDF tree
// ---------------------------------------------------------------------

/// A KeyValues value: a string, or an object mapping keys to the list of
/// values given under each key.
pub enum VdfValue {
    Str(String),
    Obj(Vec<VdfEntry>),
}

/// One key of an object with the values given under it, in order.
pub struct VdfEntry {
    pub key: String,
    pub values: Vec<VdfValue>,
}

#[verifier::external_type_specification]
#[verifier::external_body]
pub struct ExKvValue<'a>(keyvalues_parser::Value<'a>);

/// What `keyvalues_parser::parse` makes of a text, in the library's tree
/// form (its top-level value; `None` when the text does not parse).
pub uninterp spec fn vdf_document(raw: Seq<char>) -> Option<VdfValue>;

/// `keyvalues_parser::parse` (backslash escapes interpreted): on success
/// its top-level value copied into the library's tree, whose objects list
/// their keys in the parser's map order, each key once; on failure the
/// parser's error message. The contract says only that success and the
/// tree are the parser's for this text; the message text is left unsaid.
#[verifier::external_body]
fn parse_vdf(raw: &str) -> (r: Result<VdfValue, String>)
    ensures
        r is Ok <==> vdf_document(raw@) is Some,
        r matches Ok(v) ==> vdf_document(raw@) == Some(v),
{
    match keyvalues_parser::parse(raw) {
        Ok(doc) => Ok(vdf_tree(&doc.value)),
        Err(e) => Err(e.to_string()),
    }
}

/// Copies a parsed `keyvalues_parser::Value` into the library's tree, one
/// for one: a string as itself, an object as its keys in the map's order,
/// each with its values in order. (The conversion half of `parse_vdf`.)
#[verifier::external_body]
fn vdf_tree(v: &keyvalues_parser::Value<'_>) -> VdfValue {
    match v {
        keyvalues_parser::Value::Str(s) => VdfValue::Str(s.to_string()),
        keyvalues_parser::Value::Obj(o) => VdfValue::Obj(
            o.iter().map(|(k, vs)| VdfEntry {
                key: k.to_string(),
                values: vs.iter().map(vdf_tree).collect(),
            }).collect(),
        ),
    }
}

// ---------------------------------------------------------------------
// Library paths
// ---------------------------------------------------------------------

/// `s` with every `\\` (two backslashes, left to right, not overlapping)
/// replaced by one backslash (`str::replace("\\\\", "\\")`).
pub open spec fn collapse_backslashes(s: Seq<char>) -> Seq<char>
    decreases s.len(),
{
    if s.len() == 0 {
        seq![]
    } else if s.len() >= 2 && s[0] == '\\' && s[1] == '\\' {
        seq!['\\'] + collapse_backslashes(s.skip(2))
    } else {
        seq![s[0]] + collapse_backslashes(s.drop_first())
    }
}

fn collapse_backslashes_chars(s: &Vec<char>) -> (r: Vec<char>)
    ensures
        r@ == collapse_backslashes(s@),
{
    let mut r: Vec<char> = Vec::new();
    let mut i: usize = 0;
    proof {
        assert(s@.skip(0) =~= s@);
    }
    while i < s.len()
        invariant
            i <= s@.len(),
            collapse_backslashes(s@) == r@ + collapse_backslashes(s@.skip(i as int)),
        decreases s@.len() - i,
    {
        let ghost rest = s@.skip(i as int);
        if i + 1 < s.len() && s[i] == '\\' && s[i + 1] == '\\' {
            proof {
                assert(rest[0] == '\\' && rest[1] == '\\');
                assert(rest.skip(2) =~= s@.skip(i + 2));
                assert(r@.push('\\') + collapse_backslashes(s@.skip(i + 2)) =~= r@ + (seq!['\\']
                    + collapse_backslashes(rest.skip(2))));
            }
            r.push('\\');
            i = i + 2;
        } else {
            proof {
                assert(rest[0] == s@[i as int]);
                assert(rest.drop_first() =~= s@.skip(i + 1));
                assert(r@.push(s@[i as int]) + collapse_backslashes(s@.skip(i + 1)) =~= r@ + (seq![
                    s@[i as int],
                ] + collapse_backslashes(rest.drop_first())));
            }
            r.push(s[i]);
            i = i + 1;
        }
    }
    proof {
        assert(s@.skip(i as int) =~= Seq::<char>::empty());
        assert(r@ + Seq::<char>::empty() =~= r@);
    }
    r
}

/// The string values among `vals`, in order.
pub open spec fn str_values(vals: Seq<VdfValue>) -> Seq<Seq<char>>
    decreases vals.len(),
{
    if vals.len() == 0 {
        seq![]
    } else {
        let rest = str_values(vals.drop_last());
        match vals.last() {
            VdfValue::Str(s) => rest.push(s@),
            VdfValue::Obj(_) => rest,
        }
    }
}

/// Index of the first entry with the given key.
pub open spec fn first_key(entries: Seq<VdfEntry>, key: Seq<char>) -> Option<int>
    decreases entries.len(),
{
    if entries.len() == 0 {
        None
    } else if entries[0].key@ == key {
        Some(0)
    } else {
        match first_key(entries.drop_first(), key) {
            Some(i) => Some(i + 1),
            None => None,
        }
    }
}

/// The paths a library entry lists: the string values of its `path` key,
/// `\\` collapsed to `\`.
pub open spec fn entry_paths(v: VdfValue) -> Seq<Seq<char>> {
    match v {
        VdfValue::Obj(es) => match first_key(es@, "path"@) {
            Some(i) => str_values(es@[i].values@).map_values(|p: Seq<char>| collapse_backslashes(p)),
            None => seq![],
        },
        VdfValue::Str(_) => seq![],
    }
}

/// The paths of all values, in order.
pub open spec fn paths_of_values(vals: Seq<VdfValue>) -> Seq<Seq<char>>
    decreases vals.len(),
{
    if vals.len() == 0 {
        seq![]
    } else {
        paths_of_values(vals.drop_last()) + entry_paths(vals.last())
    }
}

/// The paths of all entries, in order.
pub open spec fn paths_of_entries(entries: Seq<VdfEntry>) -> Seq<Seq<char>>
    decreases entries.len(),
{
    if entries.len() == 0 {
        seq![]
    } else {
        paths_of_entries(entries.drop_last()) + paths_of_values(entries.last().values@)
    }
}

/// The library paths listed by a parsed `libraryfolders.vdf`: for every
/// value under every key of the top-level object, the paths it lists.
pub open spec fn library_paths_spec(root: VdfValue) -> Seq<Seq<char>> {
    match root {
        VdfValue::Obj(es) => paths_of_entries(es@),
        VdfValue::Str(_) => seq![],
    }
}

pub open spec fn string_views(v: Seq<String>) -> Seq<Seq<char>> {
    v.map_values(|s: String| s@)
}

fn push_paths_of_value(out: &mut Vec<String>, v: &VdfValue)
    ensures
        string_views(final(out)@) == string_views(old(out)@) + entry_paths(*v),
{
    let ghost start = string_views(out@);
    match v {
        VdfValue::Obj(es) => {
            let key = chars_of("path");
            let mut k: usize = 0;
            let mut hit = false;
            while k < es.len() && !hit
                invariant
                    k <= es@.len(),
                    key@ == "path"@,
                    forall|m: int| 0 <= m < k ==> es@[m].key@ != "path"@,
                    hit ==> k < es@.len() && es@[k as int].key@ == "path"@,
                    string_views(out@) == start,
                decreases 2 * (es@.len() - k) + if hit {
                    0int
                } else {
                    1int
                },
            {
                let kc = chars_of(es[k].key.as_str());
                if chars_eq(&kc, &key) {
                    hit = true;
                } else {
                    k = k + 1;
                }
            }
            proof {
                lemma_first_key_at(es@, "path"@, k as int);
            }
            if k < es.len() {
                let vals = &es[k].values;
                let mut j: usize = 0;
                while j < vals.len()
                    invariant
                        j <= vals@.len(),
                        string_views(out@) == start + str_values(vals@.take(j as int)).map_values(
                            |p: Seq<char>| collapse_backslashes(p),
                        ),
                    decreases vals@.len() - j,
                {
                    proof {
                        assert(vals@.take(j + 1).drop_last() =~= vals@.take(j as int));
                    }
                    let ghost before = out@;
                    match &vals[j] {
                        VdfValue::Str(s) => {
                            let c = chars_of(s.as_str());
                            let fixed = string_of(collapse_backslashes_chars(&c));
                            out.push(fixed);
                            proof {
                                assert(string_views(out@) =~= string_views(before).push(
                                    collapse_backslashes(s@),
                                ));
                                assert(str_values(vals@.take(j + 1)).map_values(
                                    |p: Seq<char>| collapse_backslashes(p),
                                ) =~= str_values(vals@.take(j as int)).map_values(
                                    |p: Seq<char>| collapse_backslashes(p),
                                ).push(collapse_backslashes(s@)));
                            }
                        },
                        VdfValue::Obj(_) => {},
                    }
                    j = j + 1;
                }
                proof {
                    assert(vals@.take(vals@.len() as int) =~= vals@);
                }
            } else {
                proof {
                    assert(start + Seq::<Seq<char>>::empty() =~= start);
                }
            }
        },
        VdfValue::Str(_) => {
            proof {
                assert(start + Seq::<Seq<char>>::empty() =~= start);
            }
        },
    }
}

proof fn lemma_first_key_at(es: Seq<VdfEntry>, key: Seq<char>, k: int)
    requires
        0 <= k <= es.len(),
        forall|m: int| 0 <= m < k ==> es[m].key@ != key,
        k < es.len() ==> es[k].key@ == key,
    ensures
        k < es.len() ==> first_key(es, key) == Some(k),
        k == es.len() ==> first_key(es, key) is None,
    decreases k,
{
    if k > 0 {
        let rest = es.drop_first();
        assert forall|m: int| 0 <= m < k - 1 implies rest[m].key@ != key by {
            assert(rest[m] == es[m + 1]);
        }
        if k < es.len() {
            assert(rest[k - 1] == es[k]);
        }
        lemma_first_key_at(rest, key, k - 1);
    }
}

/// The library paths listed by a parsed `libraryfolders.vdf`.
pub fn library_paths(root: &VdfValue) -> (r: Vec<String>)
    ensures
        string_views(r@) == library_paths_spec(*root),
{
    let mut out: Vec<String> = Vec::new();
    match root {
        VdfValue::Obj(es) => {
            let mut i: usize = 0;
            while i < es.len()
                invariant
                    i <= es@.len(),
                    string_views(out@) == paths_of_entries(es@.take(i as int)),
                decreases es@.len() - i,
            {
                proof {
                    assert(es@.take(i + 1).drop_last() =~= es@.take(i as int));
                }
                let vals = &es[i].values;
                let ghost at_entry = string_views(out@);
                let mut j: usize = 0;
                while j < vals.len()
                    invariant
                        j <= vals@.len(),
                        string_views(out@) == at_entry + paths_of_values(vals@.take(j as int)),
                    decreases vals@.len() - j,
                {
                    proof {
                        assert(vals@.take(j + 1).drop_last() =~= vals@.take(j as int));
                    }
                    push_paths_of_value(&mut out, &vals[j]);
                    proof {
                        assert(string_views(out@) =~= at_entry + paths_of_values(
                            vals@.take(j + 1),
                        ));
                    }
                    j = j + 1;
                }
                proof {
                    assert(vals@.take(vals@.len() as int) =~= vals@);
                    assert(es@.take(i + 1).last() == es@[i as int]);
                }
                i = i + 1;
            }
            proof {
                assert(es@.take(es@.len() as int) =~= es@);
            }
        },
        VdfValue::Str(_) => {
            proof {
                assert(string_views(out@) =~= Seq::<Seq<char>>::empty());
            }
        },
    }
    out
}

/// Reads the library paths out of the text of `libraryfolders.vdf`: the
/// parser's error (prefixed with `VDF parse error: `) when the text does
/// not parse, otherwise the paths the parsed document lists.
pub fn library_folders_from_vdf(raw: &str) -> (r: Result<Vec<String>, String>)
    ensures
        r is Ok <==> vdf_document(raw@) is Some,
        r matches Ok(paths) ==> string_views(paths@) == library_paths_spec(vdf_document(raw@)->0),
        r matches Err(e) ==> crate::text::has_prefix(e@, "VDF parse error: "@),
{
    match parse_vdf(raw) {
        Ok(doc) => Ok(library_paths(&doc)),
        Err(msg) => {
            let mut e = chars_of("VDF parse error: ");
            let m = chars_of(msg.as_str());
            append_chars(&mut e, &m);
            proof {
                assert(e@.take("VDF parse error: "@.len() as int) =~= "VDF parse error: "@);
            }
            Err(string_of(e))
        },
    }
}

// ---------------------------------------------------------------------
// steam:// URIs
// ---------------------------------------------------------------------

/// `steam://install/<app_id>`: asks Steam to pick up an installed copy.
pub fn install_uri(app_id: &str) -> (r: String)
    ensures
        r@ == "steam://install/"@ + app_id@,
{
    let mut v = chars_of("steam://install/");
    let a = chars_of(app_id);
    append_chars(&mut v, &a);
    string_of(v)
}

/// `steam://rungameid/<app_id>`: launches the game.
pub fn run_game_uri(app_id: &str) -> (r: String)
    ensures
        r@ == "steam://rungameid/"@ + app_id@,
{
    let mut v = chars_of("steam://rungameid/");
    let a = chars_of(app_id);
    append_chars(&mut v, &a);
    string_of(v)
}

/// `steam://exit`: asks Steam to shut down.
pub fn exit_uri() -> (r: String)
    ensures
        r@ == "steam://exit"@,
{
    string_of(chars_of("steam://exit"))
}

// ---------------------------------------------------------------------
// Which vault games are present in local libraries
// ---------------------------------------------------------------------

/// The folder each vault game would have in each local library:
/// `candidates[l][g]` is library `l` joined with game folder `g`.
pub fn install_candidates(local_libraries: &Vec<String>, vault_games: &Vec<String>) -> (r: Vec<
    Vec<String>,
>)
    ensures
        r@.len() == local_libraries@.len(),
        forall|l: int|
            0 <= l < r@.len() ==> #[trigger] r@[l]@.len() == vault_games@.len() && forall|g: int|
                0 <= g < vault_games@.len() ==> #[trigger] r@[l]@[g]@ == join(
                    local_libraries@[l]@,
                    vault_games@[g]@,
                ),
{
    let mut r: Vec<Vec<String>> = Vec::new();
    let mut l: usize = 0;
    while l < local_libraries.len()
        invariant
            l <= local_libraries@.len(),
            r@.len() == l,
            forall|k: int|
                0 <= k < l ==> #[trigger] r@[k]@.len() == vault_games@.len() && forall|g: int|
                    0 <= g < vault_games@.len() ==> #[trigger] r@[k]@[g]@ == join(
                        local_libraries@[k]@,
                        vault_games@[g]@,
                    ),
        decreases local_libraries@.len() - l,
    {
        let mut row: Vec<String> = Vec::new();
        let mut g: usize = 0;
        while g < vault_games.len()
            invariant
                l < local_libraries@.len(),
                g <= vault_games@.len(),
                row@.len() == g,
                forall|h: int|
                    0 <= h < g ==> #[trigger] row@[h]@ == join(
                        local_libraries@[l as int]@,
                        vault_games@[h]@,
                    ),
            decreases vault_games@.len() - g,
        {
            row.push(join_str(local_libraries[l].as_str(), vault_games[g].as_str()));
            g = g + 1;
        }
        r.push(row);
        l = l + 1;
    }
    r
}

/// The library recorded for a game name: the last library (in order) in
/// which some vault game of that name is present.
pub open spec fn installed_in(
    libs: Seq<Seq<char>>,
    games: Seq<Seq<char>>,
    present: Seq<Seq<bool>>,
    name: Seq<char>,
) -> Option<Seq<char>>
    decreases libs.len(),
{
    if libs.len() == 0 {
        None
    } else if exists|g: int|
        0 <= g < games.len() && games[g] == name && #[trigger] present[libs.len() - 1][g] {
        Some(libs.last())
    } else {
        installed_in(libs.drop_last(), games, present.drop_last(), name)
    }
}

pub open spec fn presence(present: Seq<Vec<bool>>) -> Seq<Seq<bool>> {
    present.map_values(|v: Vec<bool>| v@)
}

fn present_in_library(
    games: &Vec<String>,
    row: &Vec<bool>,
    name: &Vec<char>,
) -> (r: bool)
    requires
        row@.len() == games@.len(),
    ensures
        r == exists|g: int| 0 <= g < games@.len() && games@[g]@ == name@ && #[trigger] row@[g],
{
    let mut g: usize = 0;
    while g < games.len()
        invariant
            g <= games@.len(),
            row@.len() == games@.len(),
            forall|h: int| 0 <= h < g ==> !(games@[h]@ == name@ && #[trigger] row@[h]),
        decreases games@.len() - g,
    {
        let gc = chars_of(games[g].as_str());
        if row[g] && chars_eq(&gc, name) {
            return true;
        }
        g = g + 1;
    }
    false
}

/// For each vault game name (each name once, in order of first
/// appearance) that is present in some local library, the pair
/// `(name, library)` with the library Steam would see it in: the last one
/// in which it is present. `present[l][g]` tells whether
/// `candidates[l][g]` is an existing folder.
pub fn check_installed_games(
    vault_games: &Vec<String>,
    local_libraries: &Vec<String>,
    present: &Vec<Vec<bool>>,
) -> (r: Vec<(String, String)>)
    requires
        present@.len() == local_libraries@.len(),
        forall|l: int| 0 <= l < present@.len() ==> #[trigger] present@[l]@.len() == vault_games@.len(),
    ensures
        forall|k: int|
            0 <= k < r@.len() ==> installed_in(
                string_views(local_libraries@),
                string_views(vault_games@),
                presence(present@),
                (#[trigger] r@[k]).0@,
            ) == Some(r@[k].1@),
        forall|g: int|
            0 <= g < vault_games@.len() && installed_in(
                string_views(local_libraries@),
                string_views(vault_games@),
                presence(present@),
                #[trigger] vault_games@[g]@,
            ) is Some ==> exists|k: int| 0 <= k < r@.len() && r@[k].0@ == vault_games@[g]@,
        forall|k1: int, k2: int|
            0 <= k1 < k2 < r@.len() ==> (#[trigger] r@[k1]).0@ != (#[trigger] r@[k2]).0@,
{
    let ghost libs = string_views(local_libraries@);
    let ghost games = string_views(vault_games@);
    let ghost pres = presence(present@);
    let mut r: Vec<(String, String)> = Vec::new();
    let mut g: usize = 0;
    while g < vault_games.len()
        invariant
            g <= vault_games@.len(),
            libs == string_views(local_libraries@),
            games == string_views(vault_games@),
            pres == presence(present@),
            present@.len() == local_libraries@.len(),
            forall|l: int| 0 <= l < present@.len() ==> #[trigger] present@[l]@.len() == vault_games@.len(),
            forall|k: int|
                0 <= k < r@.len() ==> installed_in(libs, games, pres, (#[trigger] r@[k]).0@)
                    == Some(r@[k].1@),
            forall|h: int|
                0 <= h < g && installed_in(libs, games, pres, #[trigger] vault_games@[h]@) is Some
                    ==> exists|k: int| 0 <= k < r@.len() && r@[k].0@ == vault_games@[h]@,
            forall|k: int| 0 <= k < r@.len() ==> exists|h: int| 0 <= h < g && #[trigger] r@[k].0@ == vault_games@[h]@,
            forall|k1: int, k2: int|
                0 <= k1 < k2 < r@.len() ==> (#[trigger] r@[k1]).0@ != (#[trigger] r@[k2]).0@,
        decreases vault_games@.len() - g,
    {
        let name = chars_of(vault_games[g].as_str());
        // already recorded?
        let mut seen = false;
        let mut k: usize = 0;
        while k < r.len()
            invariant
                k <= r@.len(),
                name@ == vault_games@[g as int]@,
                seen == exists|m: int| 0 <= m < k && #[trigger] r@[m].0@ == name@,
            decreases r@.len() - k,
        {
            let kc = chars_of(r[k].0.as_str());
            if chars_eq(&kc, &name) {
                seen = true;
            }
            k = k + 1;
        }
        if !seen {
            // search the libraries from the last one
            let mut l = local_libraries.len();
            let mut hit = false;
            proof {
                assert(libs.take(l as int) =~= libs);
                assert(pres.take(l as int) =~= pres);
            }
            while l > 0 && !hit
                invariant
                    l <= local_libraries@.len(),
                    libs == string_views(local_libraries@),
                    games == string_views(vault_games@),
                    pres == presence(present@),
                    present@.len() == local_libraries@.len(),
                    forall|m: int| 0 <= m < present@.len() ==> #[trigger] present@[m]@.len() == vault_games@.len(),
                    name@ == vault_games@[g as int]@,
                    hit ==> l > 0 && installed_in(libs, games, pres, name@) == Some(
                        local_libraries@[l - 1]@,
                    ),
                    !hit ==> installed_in(libs, games, pres, name@) == installed_in(
                        libs.take(l as int),
                        games,
                        pres.take(l as int),
                        name@,
                    ),
                decreases 2 * l + if hit {
                    0int
                } else {
                    1int
                },
            {
                let h = present_in_library(vault_games, &present[l - 1], &name);
                proof {
                    assert(libs.take(l as int).drop_last() =~= libs.take(l - 1));
                    assert(pres.take(l as int).drop_last() =~= pres.take(l - 1));
                    assert(pres.take(l as int)[l - 1] == present@[l - 1]@);
                    assert(libs.take(l as int).last() == local_libraries@[l - 1]@);
                    if h {
                        let w = choose|w: int|
                            0 <= w < vault_games@.len() && vault_games@[w]@ == name@
                                && #[trigger] present@[l - 1]@[w];
                        assert(games[w] == name@);
                        assert(pres.take(l as int)[l - 1][w]);
                    } else {
                        assert forall|w: int|
                            0 <= w < games.len() && games[w] == name@ implies !#[trigger] pres.take(
                                l as int,
                            )[l - 1][w] by {
                            assert(games[w] == vault_games@[w]@);
                        }
                    }
                }
                if h {
                    hit = true;
                } else {
                    l = l - 1;
                }
            }
            let ghost before = r@;
            if hit {
                r.push((vault_games[g].clone(), local_libraries[l - 1].clone()));
                proof {
                    assert(r@[before.len() as int].0@ == name@);
                    assert forall|k1: int, k2: int|
                        0 <= k1 < k2 < r@.len() implies (#[trigger] r@[k1]).0@ != (
                        #[trigger] r@[k2]).0@ by {
                        if k2 == before.len() {
                            assert(r@[k1] == before[k1]);
                        } else {
                            assert(r@[k1] == before[k1] && r@[k2] == before[k2]);
                        }
                    }
                    assert forall|k2: int| 0 <= k2 < r@.len() implies exists|h: int|
                        0 <= h < g + 1 && #[trigger] r@[k2].0@ == vault_games@[h]@ by {
                        if k2 < before.len() {
                            assert(r@[k2] == before[k2]);
                        } else {
                            assert(r@[k2].0@ == vault_games@[g as int]@);
                        }
                    }
                }
            } else {
                proof {
                    assert(libs.take(0).len() == 0);
                }
            }
            proof {
                assert forall|h: int|
                    0 <= h < g + 1 && installed_in(libs, games, pres, #[trigger] vault_games@[h]@) is Some
                        implies exists|k: int| 0 <= k < r@.len() && r@[k].0@ == vault_games@[h]@ by {
                    if h == g {
                        assert(r@[before.len() as int].0@ == vault_games@[h]@);
                    } else {
                        let k = choose|k: int| 0 <= k < before.len() && before[k].0@ == vault_games@[h]@;
                        assert(r@[k] == before[k]);
                    }
                }
            }
        } else {
            proof {
                let m = choose|m: int| 0 <= m < r@.len() && #[trigger] r@[m].0@ == name@;
                assert(r@[m].0@ == vault_games@[g as int]@);
                assert forall|h: int|
                    0 <= h < g + 1 && installed_in(libs, games, pres, #[trigger] vault_games@[h]@) is Some
                        implies exists|k: int| 0 <= k < r@.len() && r@[k].0@ == vault_games@[h]@ by {
                    if h == g {
                        assert(r@[m].0@ == vault_games@[h]@);
                    }
                }
            }
        }
        g = g + 1;
    }
    r
}

} // verus!
