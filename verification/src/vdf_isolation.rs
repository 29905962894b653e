//! Line-based surgery on Steam's `libraryfolders.vdf`: removing one AppID
//! from the `apps` block of the vault's library entry while every other
//! line of the file is kept byte for byte.
use vstd::prelude::*;

use crate::paths::{
    hidden_manifest_path_spec, manifest_path_spec, vault_hidden_manifest_path, vault_manifest_path,
};
use crate::text::{
    append_chars, chars_eq, chars_of, concat_all, copy_range, ends_with_char, has_char, has_prefix,
    lemma_segments_concat, lemma_segments_of_concat, parses_as_u32, parses_u32, segments_of,
    segments_ok, split_segments,
    starts_with, starts_with_char, string_of, to_upper, to_upper_all, trim, trim_chars,
    trim_end_char, trim_end_matching, trim_start, trim_start_chars, upper, upper_all, views,
    kv_value, kv_value_chars,
    lemma_trim_idempotent, lemma_trim_around, lemma_has_char_concat, lemma_kv_value_of_pair,
    is_ws, is_digit, u32_digits, trim_end, lemma_trim_start_blank,
};

verus! {

// ---------------------------------------------------------------------
// Line classifiers
// ---------------------------------------------------------------------

/// `"` + `s` + `"`.
pub open spec fn quoted(s: Seq<char>) -> Seq<char> {
    seq!['"'] + s + seq!['"']
}

pub open spec fn path_key() -> Seq<char> {
    seq!['"', 'p', 'a', 't', 'h', '"']
}

pub open spec fn apps_key() -> Seq<char> {
    seq!['"', 'a', 'p', 'p', 's', '"']
}

/// A trimmed line of the form `"<n>"` where `<n>` is accepted as a `u32`:
/// the key that opens one library entry.
///
/// (The length test is on bytes in a `str`; for a line that begins and
/// ends with `"` it agrees with the test on characters.)
pub open spec fn is_library_index_key_spec(line: Seq<char>) -> bool {
    let t = trim(line);
    &&& starts_with_char(t, '"')
    &&& ends_with_char(t, '"')
    &&& t.len() >= 3
    &&& parses_as_u32(t.subrange(1, t.len() - 1))
}

/// A trimmed line of the form `"<app_id>"  "<anything>"`.
pub open spec fn is_app_entry_line_spec(line: Seq<char>, app_id: Seq<char>) -> bool {
    let t = trim(line);
    let pat = quoted(app_id);
    &&& has_prefix(t, pat)
    &&& {
        let rest = trim_start(t.skip(pat.len() as int));
        starts_with_char(rest, '"') && ends_with_char(rest, '"')
    }
}

fn quote_chars(s: &Vec<char>) -> (r: Vec<char>)
    ensures
        r@ == quoted(s@),
{
    let mut r: Vec<char> = Vec::new();
    r.push('"');
    append_chars(&mut r, s);
    r.push('"');
    proof {
        assert(r@ =~= quoted(s@));
    }
    r
}

fn library_index_key(line: &Vec<char>) -> (r: bool)
    ensures
        r == is_library_index_key_spec(line@),
{
    let t = trim_chars(line);
    let n = t.len();
    if n == 0 || t[0] != '"' || t[n - 1] != '"' || n < 3 {
        return false;
    }
    let inner = copy_range(&t, 1, n - 1);
    parses_u32(&inner)
}

fn app_entry_line(line: &Vec<char>, pat: &Vec<char>, Ghost(app_id): Ghost<Seq<char>>) -> (r: bool)
    requires
        pat@ == quoted(app_id),
    ensures
        r == is_app_entry_line_spec(line@, app_id),
{
    let t = trim_chars(line);
    if !starts_with(&t, pat) {
        return false;
    }
    let tail = copy_range(&t, pat.len(), t.len());
    proof {
        assert(tail@ =~= t@.skip(pat@.len() as int));
    }
    let rest = trim_start_chars(&tail);
    let n = rest.len();
    n > 0 && rest[0] == '"' && rest[n - 1] == '"'
}

/// `true` when the trimmed `line` is `"<n>"` with `<n>` a `u32`.
pub fn is_library_index_key(line: &str) -> (r: bool)
    ensures
        r == is_library_index_key_spec(line@),
{
    let v = chars_of(line);
    library_index_key(&v)
}

/// `true` when the trimmed `line` is an entry `"<app_id>"  "<value>"`.
pub fn is_app_entry_line(line: &str, app_id: &str) -> (r: bool)
    ensures
        r == is_app_entry_line_spec(line@, app_id@),
{
    let v = chars_of(line);
    let a = chars_of(app_id);
    let pat = quote_chars(&a);
    app_entry_line(&v, &pat, Ghost(app_id@))
}

/// The value of a `"key"  "value"` line, if it has one.
pub fn extract_kv_value(line: &str) -> (r: Option<String>)
    ensures
        r matches Some(v) ==> kv_value(line@) == Some(v@),
        r is None ==> kv_value(line@) is None,
{
    let v = chars_of(line);
    match kv_value_chars(&v) {
        Some(x) => Some(string_of(x)),
        None => None,
    }
}

// ---------------------------------------------------------------------
// The line-by-line scan
// ---------------------------------------------------------------------

/// What the scan knows after each line.
pub struct StripState {
    /// Nesting depth of `{` … `}` blocks.
    pub depth: int,
    /// Inside the library entry whose `path` is on the vault drive.
    pub in_target_lib: bool,
    /// Inside an `apps` block.
    pub in_apps: bool,
    /// Depth of the library entry currently open, if any.
    pub lib_depth: Option<int>,
    /// Depth of the `apps` block currently open, if any.
    pub apps_depth: Option<int>,
    /// The previous line was a library index key.
    pub pending_lib: bool,
    /// The previous line was `"apps"`.
    pub pending_apps: bool,
}

pub open spec fn strip_start() -> StripState {
    StripState {
        depth: 0,
        in_target_lib: false,
        in_apps: false,
        lib_depth: None,
        apps_depth: None,
        pending_lib: false,
        pending_apps: false,
    }
}

/// The vault's drive letter as compared: trailing `:` removed, ASCII
/// upper case.
pub open spec fn vault_letter(drive: Seq<char>) -> Seq<char> {
    upper_all(trim_end_char(drive, ':'))
}

/// The first character of `v` in ASCII upper case, as a string (empty for
/// an empty `v`).
pub open spec fn first_upper(v: Seq<char>) -> Seq<char> {
    if v.len() > 0 {
        seq![upper(v[0])]
    } else {
        seq![]
    }
}

/// One line of the scan: the state after it, and whether the line is kept.
pub open spec fn strip_step(st: StripState, line: Seq<char>, letter: Seq<char>, app_id: Seq<char>) -> (
    StripState,
    bool,
) {
    let t = trim(line);
    if st.in_apps && st.in_target_lib && has_prefix(t, quoted(app_id)) && is_app_entry_line_spec(
        t,
        app_id,
    ) {
        (st, false)
    } else if t == seq!['{'] {
        let d = st.depth + 1;
        if st.pending_lib {
            (
                StripState {
                    depth: d,
                    lib_depth: Some(d),
                    in_target_lib: false,
                    pending_lib: false,
                    ..st
                },
                true,
            )
        } else if st.pending_apps {
            (
                StripState {
                    depth: d,
                    apps_depth: Some(d),
                    in_apps: true,
                    pending_apps: false,
                    ..st
                },
                true,
            )
        } else {
            (StripState { depth: d, ..st }, true)
        }
    } else if t == seq!['}'] {
        let s1 = if st.in_apps && st.apps_depth == Some(st.depth) {
            StripState { in_apps: false, apps_depth: None, ..st }
        } else {
            st
        };
        let s2 = if s1.lib_depth == Some(st.depth) {
            StripState { in_target_lib: false, lib_depth: None, ..s1 }
        } else {
            s1
        };
        (StripState { depth: st.depth - 1, pending_apps: false, pending_lib: false, ..s2 }, true)
    } else if has_prefix(t, path_key()) {
        let hit = match kv_value(t) {
            Some(v) => first_upper(v) == letter,
            None => false,
        };
        (
            StripState {
                in_target_lib: st.in_target_lib || hit,
                pending_apps: false,
                pending_lib: false,
                ..st
            },
            true,
        )
    } else if t == apps_key() {
        (StripState { pending_apps: true, pending_lib: false, ..st }, true)
    } else if is_library_index_key_spec(t) {
        (StripState { pending_lib: true, pending_apps: false, ..st }, true)
    } else if t.len() > 0 {
        (StripState { pending_apps: false, pending_lib: false, ..st }, true)
    } else {
        (st, true)
    }
}

/// The lines kept by the scan started in state `st`.
pub open spec fn kept_lines(
    lines: Seq<Seq<char>>,
    st: StripState,
    letter: Seq<char>,
    app_id: Seq<char>,
) -> Seq<Seq<char>>
    decreases lines.len(),
{
    if lines.len() == 0 {
        seq![]
    } else {
        let (st2, keep) = strip_step(st, lines[0], letter, app_id);
        let rest = kept_lines(lines.drop_first(), st2, letter, app_id);
        if keep {
            seq![lines[0]] + rest
        } else {
            rest
        }
    }
}

/// The text `strip_app_from_vault_library` produces: the kept lines of
/// `content`, each with its own terminator, so that every kept byte of the
/// file is unchanged. (A line is classified by its trimmed text, which its
/// terminator does not change.)
pub open spec fn strip_app_spec(content: Seq<char>, drive: Seq<char>, app_id: Seq<char>) -> Seq<
    char,
> {
    concat_all(kept_lines(segments_of(content), strip_start(), vault_letter(drive), app_id))
}

/// The scan's state in executable form.
struct ScanVars {
    depth: i64,
    in_target_lib: bool,
    in_apps: bool,
    lib_depth: Option<i64>,
    apps_depth: Option<i64>,
    pending_lib: bool,
    pending_apps: bool,
}

spec fn opt_int(o: Option<i64>) -> Option<int> {
    match o {
        Some(x) => Some(x as int),
        None => None,
    }
}

impl ScanVars {
    spec fn view(&self) -> StripState {
        StripState {
            depth: self.depth as int,
            in_target_lib: self.in_target_lib,
            in_apps: self.in_apps,
            lib_depth: opt_int(self.lib_depth),
            apps_depth: opt_int(self.apps_depth),
            pending_lib: self.pending_lib,
            pending_apps: self.pending_apps,
        }
    }

    spec fn bounded(&self, n: int) -> bool {
        &&& -n <= self.depth <= n
        &&& (self.lib_depth matches Some(x) ==> -n <= x <= n)
        &&& (self.apps_depth matches Some(x) ==> -n <= x <= n)
    }
}

fn same_depth(o: Option<i64>, d: i64) -> (r: bool)
    ensures
        r == (opt_int(o) == Some(d as int)),
{
    match o {
        Some(x) => x == d,
        None => false,
    }
}

/// Applies one line to the scan state; returns whether the line is kept.
fn scan_line(
    st: &mut ScanVars,
    line: &Vec<char>,
    letter: &Vec<char>,
    pat: &Vec<char>,
    Ghost(app_id): Ghost<Seq<char>>,
    Ghost(n): Ghost<int>,
) -> (keep: bool)
    requires
        pat@ == quoted(app_id),
        old(st).bounded(n),
        n < i64::MAX,
    ensures
        (final(st).view(), keep) == strip_step(old(st).view(), line@, letter@, app_id),
        final(st).bounded(n + 1),
{
    let t = trim_chars(line);
    if st.in_apps && st.in_target_lib && starts_with(&t, pat) && app_entry_line(
        &t,
        pat,
        Ghost(app_id),
    ) {
        return false;
    }
    let is_open = t.len() == 1 && t[0] == '{';
    let is_close = t.len() == 1 && t[0] == '}';
    proof {
        assert(is_open == (t@ == seq!['{'])) by {
            if t@.len() == 1 && t@[0] == '{' {
                assert(t@ =~= seq!['{']);
            }
        }
        assert(is_close == (t@ == seq!['}'])) by {
            if t@.len() == 1 && t@[0] == '}' {
                assert(t@ =~= seq!['}']);
            }
        }
    }
    if is_open {
        st.depth = st.depth + 1;
        if st.pending_lib {
            st.lib_depth = Some(st.depth);
            st.in_target_lib = false;
            st.pending_lib = false;
        } else if st.pending_apps {
            st.apps_depth = Some(st.depth);
            st.in_apps = true;
            st.pending_apps = false;
        }
    } else if is_close {
        if st.in_apps && same_depth(st.apps_depth, st.depth) {
            st.in_apps = false;
            st.apps_depth = None;
        }
        if same_depth(st.lib_depth, st.depth) {
            st.in_target_lib = false;
            st.lib_depth = None;
        }
        st.depth = st.depth - 1;
        st.pending_apps = false;
        st.pending_lib = false;
    } else {
        let path_key_v = vec!['"', 'p', 'a', 't', 'h', '"'];
        let apps_key_v = vec!['"', 'a', 'p', 'p', 's', '"'];
        if starts_with(&t, &path_key_v) {
            match kv_value_chars(&t) {
                Some(v) => {
                    let first: Vec<char> = if v.len() > 0 {
                        let mut f: Vec<char> = Vec::new();
                        f.push(to_upper(v[0]));
                        f
                    } else {
                        Vec::new()
                    };
                    proof {
                        if v@.len() > 0 {
                            assert(first@ =~= seq![upper(v@[0])]);
                        } else {
                            assert(first@ =~= Seq::<char>::empty());
                        }
                    }
                    if chars_eq(&first, letter) {
                        st.in_target_lib = true;
                    }
                },
                None => {},
            }
            st.pending_apps = false;
            st.pending_lib = false;
        } else if chars_eq(&t, &apps_key_v) {
            st.pending_apps = true;
            st.pending_lib = false;
        } else if library_index_key(&t) {
            st.pending_lib = true;
            st.pending_apps = false;
        } else if t.len() > 0 {
            st.pending_apps = false;
            st.pending_lib = false;
        }
    }
    true
}

/// Removes the AppID's entry from the `apps` block of the library entry
/// whose `path` lies on the vault drive. Every other line is kept byte
/// for byte, its line terminator included.
pub fn strip_app_from_vault_library(content: &str, vault_drive_letter: &str, app_id: &str) -> (out:
    String)
    requires
        content@.len() <= isize::MAX,
    ensures
        out@ == strip_app_spec(content@, vault_drive_letter@, app_id@),
{
    let text = chars_of(content);
    let drive = chars_of(vault_drive_letter);
    let letter = to_upper_all(&trim_end_matching(&drive, ':'));
    let app = chars_of(app_id);
    let pat = quote_chars(&app);
    let lines = split_segments(&text);
    proof {
        lemma_segments_concat(text@);
        lemma_segments_count(segments_of(text@));
    }
    let ghost all = segments_of(text@);
    let ghost letter_s = vault_letter(vault_drive_letter@);
    let mut st = ScanVars {
        depth: 0,
        in_target_lib: false,
        in_apps: false,
        lib_depth: None,
        apps_depth: None,
        pending_lib: false,
        pending_apps: false,
    };
    let mut out: Vec<char> = Vec::new();
    let ghost mut kept: Seq<Seq<char>> = seq![];
    let mut i: usize = 0;
    proof {
        assert(all.skip(0) =~= all);
        assert(st.view() == strip_start());
        assert(kept + kept_lines(all, strip_start(), letter_s, app_id@) =~= kept_lines(
            all,
            strip_start(),
            letter_s,
            app_id@,
        ));
        assert(out@ =~= concat_all(kept));
    }
    while i < lines.len()
        invariant
            views(lines@) == all,
            all.len() <= isize::MAX,
            letter@ == letter_s,
            pat@ == quoted(app_id@),
            i <= lines@.len(),
            st.bounded(i as int),
            kept_lines(all, strip_start(), letter_s, app_id@) == kept + kept_lines(
                all.skip(i as int),
                st.view(),
                letter_s,
                app_id@,
            ),
            out@ == concat_all(kept),
        decreases lines@.len() - i,
    {
        proof {
            assert(all.skip(i as int).drop_first() =~= all.skip(i + 1));
            assert(all.skip(i as int)[0] == lines@[i as int]@);
        }
        let keep = scan_line(&mut st, &lines[i], &letter, &pat, Ghost(app_id@), Ghost(i as int));
        if keep {
            let ghost line = lines@[i as int]@;
            append_chars(&mut out, &lines[i]);
            proof {
                assert(kept.push(line).drop_last() =~= kept);
                assert(out@ =~= concat_all(kept.push(line)));
                assert(kept + (seq![line] + kept_lines(all.skip(i + 1), st.view(), letter_s, app_id@))
                    =~= kept.push(line) + kept_lines(all.skip(i + 1), st.view(), letter_s, app_id@));
                kept = kept.push(line);
            }
        }
        i = i + 1;
    }
    proof {
        assert(all.skip(i as int) =~= Seq::<Seq<char>>::empty());
        assert(kept + Seq::<Seq<char>>::empty() =~= kept);
    }
    string_of(out)
}

/// Well-formed segments are no more than their characters.
proof fn lemma_segments_count(k: Seq<Seq<char>>)
    requires
        segments_ok(k),
    ensures
        k.len() <= concat_all(k).len(),
    decreases k.len(),
{
    if k.len() > 0 {
        let k2 = k.drop_last();
        assert(segments_ok(k2)) by {
            assert forall|i: int| 0 <= i < k2.len() implies {
                &&& (#[trigger] k2[i]).len() > 0
                &&& !has_char(k2[i].drop_last(), '\n')
                &&& (i < k2.len() - 1 ==> k2[i].last() == '\n')
            } by {
                assert(k2[i] == k[i]);
            }
        }
        lemma_segments_count(k2);
        assert(k[k.len() - 1].len() > 0);
    }
}

} // verus!

verus! {

// ---------------------------------------------------------------------
// Laws of the strip
// ---------------------------------------------------------------------

/// `K` is `L` with some of its lines deleted, each deleted line being an
/// entry line `"<app_id>"  "<value>"`; the remaining lines are unchanged
/// and in their original order.
pub open spec fn deletes_only_entries(l: Seq<Seq<char>>, k: Seq<Seq<char>>, app_id: Seq<char>) -> bool
    decreases l.len(),
{
    if l.len() == 0 {
        k.len() == 0
    } else {
        ||| (k.len() > 0 && k[0] == l[0] && deletes_only_entries(
            l.drop_first(),
            k.drop_first(),
            app_id,
        ))
        ||| (is_app_entry_line_spec(l[0], app_id) && deletes_only_entries(l.drop_first(), k, app_id))
    }
}

proof fn lemma_kept_deletes_only(
    l: Seq<Seq<char>>,
    st: StripState,
    letter: Seq<char>,
    app_id: Seq<char>,
)
    ensures
        deletes_only_entries(l, kept_lines(l, st, letter, app_id), app_id),
    decreases l.len(),
{
    if l.len() > 0 {
        let (st2, keep) = strip_step(st, l[0], letter, app_id);
        lemma_kept_deletes_only(l.drop_first(), st2, letter, app_id);
        let k = kept_lines(l, st, letter, app_id);
        if keep {
            assert(k.drop_first() =~= kept_lines(l.drop_first(), st2, letter, app_id));
        } else {
            lemma_trim_idempotent(l[0]);
        }
    }
}

/// The strip only ever deletes lines of the form `"<app_id>"  "<value>"`:
/// every other line of the input comes out unchanged and in order.
pub proof fn lemma_strip_deletes_only_app_entries(
    content: Seq<char>,
    drive: Seq<char>,
    app_id: Seq<char>,
)
    ensures
        content == concat_all(segments_of(content)),
        strip_app_spec(content, drive, app_id) == concat_all(
            kept_lines(segments_of(content), strip_start(), vault_letter(drive), app_id),
        ),
        deletes_only_entries(
            segments_of(content),
            kept_lines(segments_of(content), strip_start(), vault_letter(drive), app_id),
            app_id,
        ),
{
    lemma_segments_concat(content);
    lemma_kept_deletes_only(segments_of(content), strip_start(), vault_letter(drive), app_id);
}

proof fn lemma_kept_all_when_no_entry(
    l: Seq<Seq<char>>,
    st: StripState,
    letter: Seq<char>,
    app_id: Seq<char>,
)
    requires
        forall|i: int| 0 <= i < l.len() ==> !is_app_entry_line_spec(#[trigger] l[i], app_id),
    ensures
        kept_lines(l, st, letter, app_id) == l,
    decreases l.len(),
{
    if l.len() > 0 {
        let (st2, keep) = strip_step(st, l[0], letter, app_id);
        assert forall|i: int| 0 <= i < l.drop_first().len() implies !is_app_entry_line_spec(
            #[trigger] l.drop_first()[i],
            app_id,
        ) by {
            assert(l.drop_first()[i] == l[i + 1]);
        }
        lemma_kept_all_when_no_entry(l.drop_first(), st2, letter, app_id);
        lemma_trim_idempotent(l[0]);
        assert(!is_app_entry_line_spec(l[0], app_id));
        assert(seq![l[0]] + l.drop_first() =~= l);
    }
}

/// When no line is an entry `"<app_id>"  "<value>"`, the strip returns
/// the text unchanged.
pub proof fn lemma_strip_noop_without_entry(content: Seq<char>, drive: Seq<char>, app_id: Seq<char>)
    requires
        forall|i: int|
            0 <= i < segments_of(content).len() ==> !is_app_entry_line_spec(
                #[trigger] segments_of(content)[i],
                app_id,
            ),
    ensures
        strip_app_spec(content, drive, app_id) == content,
{
    lemma_segments_concat(content);
    lemma_kept_all_when_no_entry(segments_of(content), strip_start(), vault_letter(drive), app_id);
}

/// The line names the vault drive in its `"path"` value.
pub open spec fn names_vault_path(line: Seq<char>, letter: Seq<char>) -> bool {
    let t = trim(line);
    has_prefix(t, path_key()) && (kv_value(t) matches Some(v) && first_upper(v) == letter)
}

proof fn lemma_kept_all_without_vault(
    l: Seq<Seq<char>>,
    st: StripState,
    letter: Seq<char>,
    app_id: Seq<char>,
)
    requires
        !st.in_target_lib,
        forall|i: int| 0 <= i < l.len() ==> !names_vault_path(#[trigger] l[i], letter),
    ensures
        kept_lines(l, st, letter, app_id) == l,
    decreases l.len(),
{
    if l.len() > 0 {
        let (st2, keep) = strip_step(st, l[0], letter, app_id);
        assert(!names_vault_path(l[0], letter));
        assert(!st2.in_target_lib && keep);
        assert forall|i: int| 0 <= i < l.drop_first().len() implies !names_vault_path(
            #[trigger] l.drop_first()[i],
            letter,
        ) by {
            assert(l.drop_first()[i] == l[i + 1]);
        }
        lemma_kept_all_without_vault(l.drop_first(), st2, letter, app_id);
        assert(seq![l[0]] + l.drop_first() =~= l);
    }
}

/// When no library entry has its `"path"` on the vault drive, the strip
/// returns the text unchanged.
pub proof fn lemma_strip_noop_without_vault_library(
    content: Seq<char>,
    drive: Seq<char>,
    app_id: Seq<char>,
)
    requires
        forall|i: int|
            0 <= i < segments_of(content).len() ==> !names_vault_path(
                #[trigger] segments_of(content)[i],
                vault_letter(drive),
            ),
    ensures
        strip_app_spec(content, drive, app_id) == content,
{
    lemma_segments_concat(content);
    lemma_kept_all_without_vault(segments_of(content), strip_start(), vault_letter(drive), app_id);
}

proof fn lemma_kept_ok(l: Seq<Seq<char>>, st: StripState, letter: Seq<char>, app_id: Seq<char>)
    requires
        segments_ok(l),
    ensures
        segments_ok(kept_lines(l, st, letter, app_id)),
    decreases l.len(),
{
    if l.len() > 0 {
        let (st2, keep) = strip_step(st, l[0], letter, app_id);
        let tail = l.drop_first();
        assert(segments_ok(tail)) by {
            assert forall|i: int| 0 <= i < tail.len() implies {
                &&& (#[trigger] tail[i]).len() > 0
                &&& !has_char(tail[i].drop_last(), '\n')
                &&& (i < tail.len() - 1 ==> tail[i].last() == '\n')
            } by {
                assert(tail[i] == l[i + 1]);
            }
        }
        lemma_kept_ok(tail, st2, letter, app_id);
        let rest = kept_lines(tail, st2, letter, app_id);
        if keep {
            let k = seq![l[0]] + rest;
            assert(rest.len() <= tail.len()) by {
                lemma_kept_len(tail, st2, letter, app_id);
            }
            assert forall|i: int| 0 <= i < k.len() implies {
                &&& (#[trigger] k[i]).len() > 0
                &&& !has_char(k[i].drop_last(), '\n')
                &&& (i < k.len() - 1 ==> k[i].last() == '\n')
            } by {
                if i == 0 {
                    assert(k[0] == l[0]);
                } else {
                    assert(k[i] == rest[i - 1]);
                }
            }
        }
    }
}

proof fn lemma_kept_len(l: Seq<Seq<char>>, st: StripState, letter: Seq<char>, app_id: Seq<char>)
    ensures
        kept_lines(l, st, letter, app_id).len() <= l.len(),
    decreases l.len(),
{
    if l.len() > 0 {
        let (st2, keep) = strip_step(st, l[0], letter, app_id);
        lemma_kept_len(l.drop_first(), st2, letter, app_id);
    }
}

proof fn lemma_kept_twice(l: Seq<Seq<char>>, st: StripState, letter: Seq<char>, app_id: Seq<char>)
    ensures
        kept_lines(kept_lines(l, st, letter, app_id), st, letter, app_id) == kept_lines(
            l,
            st,
            letter,
            app_id,
        ),
    decreases l.len(),
{
    if l.len() > 0 {
        let (st2, keep) = strip_step(st, l[0], letter, app_id);
        lemma_kept_twice(l.drop_first(), st2, letter, app_id);
        if keep {
            let k = kept_lines(l, st, letter, app_id);
            assert(k[0] == l[0]);
            assert(k.drop_first() =~= kept_lines(l.drop_first(), st2, letter, app_id));
        } else {
            lemma_kept_twice(l.drop_first(), st, letter, app_id);
        }
    }
}

/// Stripping twice is stripping once: the strip leaves no entry of the
/// AppID in the vault's `apps` block for a second strip to remove.
pub proof fn lemma_strip_idempotent(content: Seq<char>, drive: Seq<char>, app_id: Seq<char>)
    ensures
        strip_app_spec(strip_app_spec(content, drive, app_id), drive, app_id) == strip_app_spec(
            content,
            drive,
            app_id,
        ),
{
    let l = segments_of(content);
    let letter = vault_letter(drive);
    lemma_segments_concat(content);
    let k = kept_lines(l, strip_start(), letter, app_id);
    lemma_kept_ok(l, strip_start(), letter, app_id);
    lemma_segments_of_concat(k);
    lemma_kept_twice(l, strip_start(), letter, app_id);
}

} // verus!

verus! {

// ---------------------------------------------------------------------
// Decisions around the surgery
// ---------------------------------------------------------------------

/// The permanent edit of `libraryfolders.vdf` made when a game is deleted
/// from the vault: the stripped text when it differs from the file's
/// text, nothing when the AppID was not listed (the file stays as it is).
pub fn libraryfolders_edit(content: &str, vault_drive_letter: &str, app_id: &str) -> (r: Option<
    String,
>)
    requires
        content@.len() <= isize::MAX,
    ensures
        r matches Some(s) ==> s@ == strip_app_spec(content@, vault_drive_letter@, app_id@) && s@
            != content@,
        r is None ==> strip_app_spec(content@, vault_drive_letter@, app_id@) == content@,
{
    let stripped = strip_app_from_vault_library(content, vault_drive_letter, app_id);
    let original = content.to_string();
    if stripped == original {
        None
    } else {
        Some(stripped)
    }
}

/// What to do with the hidden manifest when a vault is restored after an
/// isolation.
pub enum ManifestRestore {
    /// No hidden manifest: nothing to do.
    Nothing,
    /// A fresh manifest was written meanwhile: delete the hidden one.
    DiscardHidden,
    /// No manifest took its place: rename the hidden one back.
    PutBack,
}

/// The decision on the hidden manifest, given which of the two files
/// exist.
pub open spec fn restore_decision(hidden_exists: bool, manifest_exists: bool) -> ManifestRestore {
    if !hidden_exists {
        ManifestRestore::Nothing
    } else if manifest_exists {
        ManifestRestore::DiscardHidden
    } else {
        ManifestRestore::PutBack
    }
}

pub fn manifest_restore(hidden_exists: bool, manifest_exists: bool) -> (r: ManifestRestore)
    ensures
        r == restore_decision(hidden_exists, manifest_exists),
{
    if !hidden_exists {
        ManifestRestore::Nothing
    } else if manifest_exists {
        ManifestRestore::DiscardHidden
    } else {
        ManifestRestore::PutBack
    }
}

/// Which of (hidden manifest, manifest) exist after carrying out the
/// decision.
pub open spec fn restore_effect(hidden_exists: bool, manifest_exists: bool, d: ManifestRestore) -> (
    bool,
    bool,
) {
    match d {
        ManifestRestore::Nothing => (hidden_exists, manifest_exists),
        ManifestRestore::DiscardHidden => (false, true),
        ManifestRestore::PutBack => (false, true),
    }
}

/// Restoring is idempotent: after one restore no hidden manifest is left,
/// the game has a manifest exactly when it had one of the two before, and
/// a second restore has nothing to do.
pub proof fn lemma_restore_idempotent(hidden_exists: bool, manifest_exists: bool)
    ensures
        ({
            let d = restore_decision(hidden_exists, manifest_exists);
            let (h, m) = restore_effect(hidden_exists, manifest_exists, d);
            &&& !h
            &&& m == (hidden_exists || manifest_exists)
            &&& restore_decision(h, m) == ManifestRestore::Nothing
        }),
{
}

/// One poll while waiting for Steam to exit.
pub enum ExitWait {
    /// Steam is gone.
    Done,
    /// Still running, time left: sleep and poll again.
    Poll,
    /// Still running after the timeout.
    TimedOut,
}

/// The decision of one poll, given whether Steam runs and how many whole
/// seconds have passed.
pub fn exit_wait_step(running: bool, elapsed_secs: u64, timeout_secs: u64) -> (r: ExitWait)
    ensures
        !running ==> r == ExitWait::Done,
        running && elapsed_secs >= timeout_secs ==> r == ExitWait::TimedOut,
        running && elapsed_secs < timeout_secs ==> r == ExitWait::Poll,
{
    if !running {
        ExitWait::Done
    } else if elapsed_secs >= timeout_secs {
        ExitWait::TimedOut
    } else {
        ExitWait::Poll
    }
}

/// The error returned when Steam does not exit in time.
pub fn exit_timeout_message(timeout_secs: u64) -> (r: String)
    ensures
        r@ == "Steam did not exit within "@ + crate::text::decimal(timeout_secs as nat)
            + " seconds — it may be busy with another download. Close Steam manually and retry, or pick the manual ↑ Vault workflow instead."@,
{
    let mut v = chars_of("Steam did not exit within ");
    crate::text::push_decimal(timeout_secs, &mut v);
    let t = chars_of(
        " seconds — it may be busy with another download. Close Steam manually and retry, or pick the manual ↑ Vault workflow instead.",
    );
    append_chars(&mut v, &t);
    string_of(v)
}

/// `true` when one of the process names is `steam.exe`, in any ASCII case.
pub fn is_steam_among(process_names: &Vec<String>) -> (r: bool)
    ensures
        r == exists|i: int|
            0 <= i < process_names@.len() && crate::text::eq_ignore_case(
                #[trigger] process_names@[i]@,
                "steam.exe"@,
            ),
{
    let target = to_upper_all(&chars_of("steam.exe"));
    let mut i: usize = 0;
    while i < process_names.len()
        invariant
            i <= process_names@.len(),
            target@ == upper_all("steam.exe"@),
            forall|k: int|
                0 <= k < i ==> !crate::text::eq_ignore_case(#[trigger] process_names@[k]@, "steam.exe"@),
        decreases process_names@.len() - i,
    {
        let n = to_upper_all(&chars_of(process_names[i].as_str()));
        if chars_eq(&n, &target) {
            return true;
        }
        i = i + 1;
    }
    false
}

} // verus!

verus! {

// ---------------------------------------------------------------------
// Isolating the vault for a Steam update
// ---------------------------------------------------------------------
//
// Before Steam patches a local copy of a game that the vault also holds,
// the vault is hidden from Steam: its manifest is renamed aside,
// `libraryfolders.vdf` is backed up and stripped of the AppID, and Steam
// is shut down so that it does not overwrite the edit. The steps below
// are a machine that asks for one file-system or process action at a
// time and decides from each answer what to do next; the caller carries
// the actions out. `S` is the string type: `String` in the machine,
// `Seq<char>` in its model.

/// An action the caller carries out, answering with an `IsoEvent`.
pub enum IsoAction<S> {
    /// Does the file exist? (answer: `Exists`)
    CheckExists(S),
    /// Delete the file (answer: `Done` or `Failed`; a failure is ignored).
    RemoveFile(S),
    /// Rename the first path to the second (answer: `Done` or `Failed`).
    Rename(S, S),
    /// Copy the first file to the second (answer: `Done` or `Failed`).
    Copy(S, S),
    /// Read the file (answer: `Read` or `Failed`).
    ReadFile(S),
    /// Write the text to the file (answer: `Done` or `Failed`).
    WriteFile(S, S),
    /// Is Steam running? (answer: `SteamRunning`)
    CheckSteamRunning,
    /// Open `steam://exit` (answer: `Done`, or `Failed` with the message).
    FireSteamExit,
    /// Wait for Steam to exit (answer: `Done`, or `Failed` with the
    /// timeout message).
    WaitForSteamExit,
    /// The isolation is over: whether the manifest was hidden, or the
    /// error.
    Finish(Result<bool, S>),
}

/// The caller's answer to the last action.
pub enum IsoEvent<S> {
    Exists(bool),
    Done,
    Failed(S),
    Read(S),
    SteamRunning(bool),
}

/// Which action the machine waits on.
pub enum IsoPhase<S> {
    CheckHidden,
    RemoveHidden,
    CheckManifest,
    HideManifest,
    CheckVdf,
    UnhideForMissingVdf,
    CheckBackup,
    RemoveBackup,
    BackUp,
    ReadVdf,
    WriteVdf,
    CheckSteam,
    FireExit,
    WaitExit,
    /// Putting the backup back after Steam did not exit (with the error).
    RestoreVdf(S),
    /// Renaming the manifest back after Steam did not exit.
    RestoreManifest(S),
    Finished(Result<bool, S>),
}

/// The isolation of one AppID on one vault.
pub struct Isolation<S> {
    pub manifest: S,
    pub hidden: S,
    pub vdf: S,
    pub backup: S,
    pub drive: S,
    pub app_id: S,
    /// The manifest has been renamed aside.
    pub manifest_hidden: bool,
    pub phase: IsoPhase<S>,
}

pub open spec fn res_view(r: Result<bool, String>) -> Result<bool, Seq<char>> {
    match r {
        Ok(b) => Ok(b),
        Err(e) => Err(e@),
    }
}

pub open spec fn action_view(a: IsoAction<String>) -> IsoAction<Seq<char>> {
    match a {
        IsoAction::CheckExists(p) => IsoAction::CheckExists(p@),
        IsoAction::RemoveFile(p) => IsoAction::RemoveFile(p@),
        IsoAction::Rename(a, b) => IsoAction::Rename(a@, b@),
        IsoAction::Copy(a, b) => IsoAction::Copy(a@, b@),
        IsoAction::ReadFile(p) => IsoAction::ReadFile(p@),
        IsoAction::WriteFile(p, c) => IsoAction::WriteFile(p@, c@),
        IsoAction::CheckSteamRunning => IsoAction::CheckSteamRunning,
        IsoAction::FireSteamExit => IsoAction::FireSteamExit,
        IsoAction::WaitForSteamExit => IsoAction::WaitForSteamExit,
        IsoAction::Finish(r) => IsoAction::Finish(res_view(r)),
    }
}

pub open spec fn event_view(e: IsoEvent<String>) -> IsoEvent<Seq<char>> {
    match e {
        IsoEvent::Exists(b) => IsoEvent::Exists(b),
        IsoEvent::Done => IsoEvent::Done,
        IsoEvent::Failed(m) => IsoEvent::Failed(m@),
        IsoEvent::Read(c) => IsoEvent::Read(c@),
        IsoEvent::SteamRunning(b) => IsoEvent::SteamRunning(b),
    }
}

pub open spec fn phase_view(p: IsoPhase<String>) -> IsoPhase<Seq<char>> {
    match p {
        IsoPhase::CheckHidden => IsoPhase::CheckHidden,
        IsoPhase::RemoveHidden => IsoPhase::RemoveHidden,
        IsoPhase::CheckManifest => IsoPhase::CheckManifest,
        IsoPhase::HideManifest => IsoPhase::HideManifest,
        IsoPhase::CheckVdf => IsoPhase::CheckVdf,
        IsoPhase::UnhideForMissingVdf => IsoPhase::UnhideForMissingVdf,
        IsoPhase::CheckBackup => IsoPhase::CheckBackup,
        IsoPhase::RemoveBackup => IsoPhase::RemoveBackup,
        IsoPhase::BackUp => IsoPhase::BackUp,
        IsoPhase::ReadVdf => IsoPhase::ReadVdf,
        IsoPhase::WriteVdf => IsoPhase::WriteVdf,
        IsoPhase::CheckSteam => IsoPhase::CheckSteam,
        IsoPhase::FireExit => IsoPhase::FireExit,
        IsoPhase::WaitExit => IsoPhase::WaitExit,
        IsoPhase::RestoreVdf(e) => IsoPhase::RestoreVdf(e@),
        IsoPhase::RestoreManifest(e) => IsoPhase::RestoreManifest(e@),
        IsoPhase::Finished(r) => IsoPhase::Finished(res_view(r)),
    }
}

impl Isolation<String> {
    pub open spec fn view(&self) -> Isolation<Seq<char>> {
        Isolation {
            manifest: self.manifest@,
            hidden: self.hidden@,
            vdf: self.vdf@,
            backup: self.backup@,
            drive: self.drive@,
            app_id: self.app_id@,
            manifest_hidden: self.manifest_hidden,
            phase: phase_view(self.phase),
        }
    }
}

/// The answer fits the action the machine waits on.
pub open spec fn event_fits(p: IsoPhase<Seq<char>>, e: IsoEvent<Seq<char>>) -> bool {
    match p {
        IsoPhase::CheckHidden | IsoPhase::CheckManifest | IsoPhase::CheckVdf
        | IsoPhase::CheckBackup => e is Exists,
        IsoPhase::ReadVdf => e is Read || e is Failed,
        IsoPhase::CheckSteam => e is SteamRunning,
        IsoPhase::Finished(_) => true,
        _ => e is Done || e is Failed,
    }
}

pub open spec fn not_found_message(vdf: Seq<char>) -> Seq<char> {
    "libraryfolders.vdf not found at "@ + vdf
}

pub open spec fn finish(st: Isolation<Seq<char>>, r: Result<bool, Seq<char>>) -> (
    Isolation<Seq<char>>,
    IsoAction<Seq<char>>,
) {
    (Isolation { phase: IsoPhase::Finished(r), ..st }, IsoAction::Finish(r))
}

pub open spec fn go(st: Isolation<Seq<char>>, p: IsoPhase<Seq<char>>, a: IsoAction<Seq<char>>) -> (
    Isolation<Seq<char>>,
    IsoAction<Seq<char>>,
) {
    (Isolation { phase: p, ..st }, a)
}

/// One step of the isolation: the state after the answer `e` and the next
/// action.
pub open spec fn iso_step(st: Isolation<Seq<char>>, e: IsoEvent<Seq<char>>) -> (
    Isolation<Seq<char>>,
    IsoAction<Seq<char>>,
) {
    match st.phase {
        IsoPhase::CheckHidden => if e == IsoEvent::<Seq<char>>::Exists(true) {
            go(st, IsoPhase::RemoveHidden, IsoAction::RemoveFile(st.hidden))
        } else {
            go(st, IsoPhase::CheckManifest, IsoAction::CheckExists(st.manifest))
        },
        IsoPhase::RemoveHidden => go(st, IsoPhase::CheckManifest, IsoAction::CheckExists(st.manifest)),
        IsoPhase::CheckManifest => if e == IsoEvent::<Seq<char>>::Exists(true) {
            go(st, IsoPhase::HideManifest, IsoAction::Rename(st.manifest, st.hidden))
        } else {
            go(
                Isolation { manifest_hidden: false, ..st },
                IsoPhase::CheckVdf,
                IsoAction::CheckExists(st.vdf),
            )
        },
        IsoPhase::HideManifest => match e {
            IsoEvent::Failed(m) => finish(st, Err("Failed to hide vault manifest: "@ + m)),
            _ => go(
                Isolation { manifest_hidden: true, ..st },
                IsoPhase::CheckVdf,
                IsoAction::CheckExists(st.vdf),
            ),
        },
        IsoPhase::CheckVdf => if e == IsoEvent::<Seq<char>>::Exists(true) {
            go(st, IsoPhase::CheckBackup, IsoAction::CheckExists(st.backup))
        } else if st.manifest_hidden {
            go(st, IsoPhase::UnhideForMissingVdf, IsoAction::Rename(st.hidden, st.manifest))
        } else {
            finish(st, Err(not_found_message(st.vdf)))
        },
        IsoPhase::UnhideForMissingVdf => finish(st, Err(not_found_message(st.vdf))),
        IsoPhase::CheckBackup => if e == IsoEvent::<Seq<char>>::Exists(true) {
            go(st, IsoPhase::RemoveBackup, IsoAction::RemoveFile(st.backup))
        } else {
            go(st, IsoPhase::BackUp, IsoAction::Copy(st.vdf, st.backup))
        },
        IsoPhase::RemoveBackup => go(st, IsoPhase::BackUp, IsoAction::Copy(st.vdf, st.backup)),
        IsoPhase::BackUp => match e {
            IsoEvent::Failed(m) => finish(st, Err("Failed to back up libraryfolders.vdf: "@ + m)),
            _ => go(st, IsoPhase::ReadVdf, IsoAction::ReadFile(st.vdf)),
        },
        IsoPhase::ReadVdf => match e {
            IsoEvent::Read(c) => go(
                st,
                IsoPhase::WriteVdf,
                IsoAction::WriteFile(st.vdf, strip_app_spec(c, st.drive, st.app_id)),
            ),
            IsoEvent::Failed(m) => finish(st, Err("Failed to read libraryfolders.vdf: "@ + m)),
            _ => finish(st, Err("Failed to read libraryfolders.vdf: "@)),
        },
        IsoPhase::WriteVdf => match e {
            IsoEvent::Failed(m) => finish(st, Err("Failed to write libraryfolders.vdf: "@ + m)),
            _ => go(st, IsoPhase::CheckSteam, IsoAction::CheckSteamRunning),
        },
        IsoPhase::CheckSteam => if e == IsoEvent::<Seq<char>>::SteamRunning(true) {
            go(st, IsoPhase::FireExit, IsoAction::FireSteamExit)
        } else {
            finish(st, Ok(st.manifest_hidden))
        },
        IsoPhase::FireExit => match e {
            IsoEvent::Failed(m) => finish(st, Err(m)),
            _ => go(st, IsoPhase::WaitExit, IsoAction::WaitForSteamExit),
        },
        IsoPhase::WaitExit => match e {
            IsoEvent::Failed(m) => go(st, IsoPhase::RestoreVdf(m), IsoAction::Rename(st.backup, st.vdf)),
            _ => finish(st, Ok(st.manifest_hidden)),
        },
        IsoPhase::RestoreVdf(m) => if st.manifest_hidden {
            go(st, IsoPhase::RestoreManifest(m), IsoAction::Rename(st.hidden, st.manifest))
        } else {
            finish(st, Err(m))
        },
        IsoPhase::RestoreManifest(m) => finish(st, Err(m)),
        IsoPhase::Finished(r) => finish(st, r),
    }
}

fn concat_str(a: &str, b: &str) -> (r: String)
    ensures
        r@ == a@ + b@,
{
    let mut v = chars_of(a);
    let w = chars_of(b);
    append_chars(&mut v, &w);
    string_of(v)
}

fn clone_result(r: &Result<bool, String>) -> (c: Result<bool, String>)
    ensures
        res_view(c) == res_view(*r),
{
    match r {
        Ok(b) => Ok(*b),
        Err(e) => Err(e.clone()),
    }
}

impl Isolation<String> {
    /// Starts the isolation of `app_id` on the vault library whose common
    /// folder is `vault_lib_path`, with the given `libraryfolders.vdf` and
    /// backup paths. Fails when the library folder has no parent (no
    /// manifest path can be derived). The first action is checking for a
    /// stale hidden manifest.
    pub fn start(
        vault_lib_path: &str,
        vault_drive_letter: &str,
        app_id: &str,
        vdf: String,
        backup: String,
    ) -> (r: Result<(Isolation<String>, IsoAction<String>), String>)
        ensures
            match (manifest_path_spec(vault_lib_path@, app_id@), hidden_manifest_path_spec(vault_lib_path@, app_id@)) {
                (Some(m), Some(h)) => r matches Ok((st, a)) && st.view() == (Isolation {
                    manifest: m,
                    hidden: h,
                    vdf: vdf@,
                    backup: backup@,
                    drive: vault_drive_letter@,
                    app_id: app_id@,
                    manifest_hidden: false,
                    phase: IsoPhase::CheckHidden,
                }) && action_view(a) == IsoAction::CheckExists(h),
                (None, _) => r matches Err(e) && e@ == "Could not derive vault manifest path"@,
                (Some(_), None) => r matches Err(e) && e@ == "Could not derive hidden manifest path"@,
            },
    {
        let manifest = match vault_manifest_path(vault_lib_path, app_id) {
            Some(m) => m,
            None => return Err(string_of(chars_of("Could not derive vault manifest path"))),
        };
        let hidden = match vault_hidden_manifest_path(vault_lib_path, app_id) {
            Some(h) => h,
            None => return Err(string_of(chars_of("Could not derive hidden manifest path"))),
        };
        let first = IsoAction::CheckExists(hidden.clone());
        Ok(
            (
                Isolation {
                    manifest,
                    hidden,
                    vdf,
                    backup,
                    drive: vault_drive_letter.to_string(),
                    app_id: app_id.to_string(),
                    manifest_hidden: false,
                    phase: IsoPhase::CheckHidden,
                },
                first,
            ),
        )
    }

    /// Takes the answer to the last action and returns the next action.
    pub fn step(&mut self, e: IsoEvent<String>) -> (a: IsoAction<String>)
        requires
            event_fits(old(self).view().phase, event_view(e)),
            e matches IsoEvent::Read(c) ==> c@.len() <= isize::MAX,
        ensures
            (final(self).view(), action_view(a)) == iso_step(old(self).view(), event_view(e)),
    {
        let exists_true = match &e {
            IsoEvent::Exists(b) => *b,
            _ => false,
        };
        let running = match &e {
            IsoEvent::SteamRunning(b) => *b,
            _ => false,
        };
        proof {
            assert(exists_true == (event_view(e) == IsoEvent::<Seq<char>>::Exists(true)));
            assert(running == (event_view(e) == IsoEvent::<Seq<char>>::SteamRunning(true)));
        }
        match &self.phase {
            IsoPhase::CheckHidden => {
                if exists_true {
                    self.phase = IsoPhase::RemoveHidden;
                    IsoAction::RemoveFile(self.hidden.clone())
                } else {
                    self.phase = IsoPhase::CheckManifest;
                    IsoAction::CheckExists(self.manifest.clone())
                }
            },
            IsoPhase::RemoveHidden => {
                self.phase = IsoPhase::CheckManifest;
                IsoAction::CheckExists(self.manifest.clone())
            },
            IsoPhase::CheckManifest => {
                if exists_true {
                    self.phase = IsoPhase::HideManifest;
                    IsoAction::Rename(self.manifest.clone(), self.hidden.clone())
                } else {
                    self.manifest_hidden = false;
                    self.phase = IsoPhase::CheckVdf;
                    IsoAction::CheckExists(self.vdf.clone())
                }
            },
            IsoPhase::HideManifest => match e {
                IsoEvent::Failed(m) => {
                    let r = Err(concat_str("Failed to hide vault manifest: ", m.as_str()));
                    self.phase = IsoPhase::Finished(clone_result(&r));
                    IsoAction::Finish(r)
                },
                _ => {
                    self.manifest_hidden = true;
                    self.phase = IsoPhase::CheckVdf;
                    IsoAction::CheckExists(self.vdf.clone())
                },
            },
            IsoPhase::CheckVdf => {
                if exists_true {
                    self.phase = IsoPhase::CheckBackup;
                    IsoAction::CheckExists(self.backup.clone())
                } else if self.manifest_hidden {
                    self.phase = IsoPhase::UnhideForMissingVdf;
                    IsoAction::Rename(self.hidden.clone(), self.manifest.clone())
                } else {
                    let r = Err(concat_str("libraryfolders.vdf not found at ", self.vdf.as_str()));
                    self.phase = IsoPhase::Finished(clone_result(&r));
                    IsoAction::Finish(r)
                }
            },
            IsoPhase::UnhideForMissingVdf => {
                let r = Err(concat_str("libraryfolders.vdf not found at ", self.vdf.as_str()));
                self.phase = IsoPhase::Finished(clone_result(&r));
                IsoAction::Finish(r)
            },
            IsoPhase::CheckBackup => {
                if exists_true {
                    self.phase = IsoPhase::RemoveBackup;
                    IsoAction::RemoveFile(self.backup.clone())
                } else {
                    self.phase = IsoPhase::BackUp;
                    IsoAction::Copy(self.vdf.clone(), self.backup.clone())
                }
            },
            IsoPhase::RemoveBackup => {
                self.phase = IsoPhase::BackUp;
                IsoAction::Copy(self.vdf.clone(), self.backup.clone())
            },
            IsoPhase::BackUp => match e {
                IsoEvent::Failed(m) => {
                    let r = Err(concat_str("Failed to back up libraryfolders.vdf: ", m.as_str()));
                    self.phase = IsoPhase::Finished(clone_result(&r));
                    IsoAction::Finish(r)
                },
                _ => {
                    self.phase = IsoPhase::ReadVdf;
                    IsoAction::ReadFile(self.vdf.clone())
                },
            },
            IsoPhase::ReadVdf => match e {
                IsoEvent::Read(c) => {
                    let stripped = strip_app_from_vault_library(
                        c.as_str(),
                        self.drive.as_str(),
                        self.app_id.as_str(),
                    );
                    self.phase = IsoPhase::WriteVdf;
                    IsoAction::WriteFile(self.vdf.clone(), stripped)
                },
                IsoEvent::Failed(m) => {
                    let r = Err(concat_str("Failed to read libraryfolders.vdf: ", m.as_str()));
                    self.phase = IsoPhase::Finished(clone_result(&r));
                    IsoAction::Finish(r)
                },
                _ => {
                    let r = Err(string_of(chars_of("Failed to read libraryfolders.vdf: ")));
                    self.phase = IsoPhase::Finished(clone_result(&r));
                    IsoAction::Finish(r)
                },
            },
            IsoPhase::WriteVdf => match e {
                IsoEvent::Failed(m) => {
                    let r = Err(concat_str("Failed to write libraryfolders.vdf: ", m.as_str()));
                    self.phase = IsoPhase::Finished(clone_result(&r));
                    IsoAction::Finish(r)
                },
                _ => {
                    self.phase = IsoPhase::CheckSteam;
                    IsoAction::CheckSteamRunning
                },
            },
            IsoPhase::CheckSteam => {
                if running {
                    self.phase = IsoPhase::FireExit;
                    IsoAction::FireSteamExit
                } else {
                    let r = Ok(self.manifest_hidden);
                    self.phase = IsoPhase::Finished(Ok(self.manifest_hidden));
                    IsoAction::Finish(r)
                }
            },
            IsoPhase::FireExit => match e {
                IsoEvent::Failed(m) => {
                    let r: Result<bool, String> = Err(m);
                    self.phase = IsoPhase::Finished(clone_result(&r));
                    IsoAction::Finish(r)
                },
                _ => {
                    self.phase = IsoPhase::WaitExit;
                    IsoAction::WaitForSteamExit
                },
            },
            IsoPhase::WaitExit => match e {
                IsoEvent::Failed(m) => {
                    self.phase = IsoPhase::RestoreVdf(m);
                    IsoAction::Rename(self.backup.clone(), self.vdf.clone())
                },
                _ => {
                    let r = Ok(self.manifest_hidden);
                    self.phase = IsoPhase::Finished(Ok(self.manifest_hidden));
                    IsoAction::Finish(r)
                },
            },
            IsoPhase::RestoreVdf(m) => {
                let m = m.clone();
                if self.manifest_hidden {
                    self.phase = IsoPhase::RestoreManifest(m);
                    IsoAction::Rename(self.hidden.clone(), self.manifest.clone())
                } else {
                    let r: Result<bool, String> = Err(m);
                    self.phase = IsoPhase::Finished(clone_result(&r));
                    IsoAction::Finish(r)
                }
            },
            IsoPhase::RestoreManifest(m) => {
                let r: Result<bool, String> = Err(m.clone());
                self.phase = IsoPhase::Finished(clone_result(&r));
                IsoAction::Finish(r)
            },
            IsoPhase::Finished(r) => {
                let r1 = clone_result(r);
                IsoAction::Finish(r1)
            },
        }
    }
}

} // verus!

verus! {

// ---------------------------------------------------------------------
// Laws of the isolation
// ---------------------------------------------------------------------

/// How many answers the machine may still need before it finishes.
pub open spec fn iso_rank(p: IsoPhase<Seq<char>>) -> nat {
    match p {
        IsoPhase::CheckHidden => 16,
        IsoPhase::RemoveHidden => 15,
        IsoPhase::CheckManifest => 14,
        IsoPhase::HideManifest => 13,
        IsoPhase::CheckVdf => 12,
        IsoPhase::UnhideForMissingVdf => 11,
        IsoPhase::CheckBackup => 10,
        IsoPhase::RemoveBackup => 9,
        IsoPhase::BackUp => 8,
        IsoPhase::ReadVdf => 7,
        IsoPhase::WriteVdf => 6,
        IsoPhase::CheckSteam => 5,
        IsoPhase::FireExit => 4,
        IsoPhase::WaitExit => 3,
        IsoPhase::RestoreVdf(_) => 2,
        IsoPhase::RestoreManifest(_) => 1,
        IsoPhase::Finished(_) => 0,
    }
}

/// The isolation always comes to an end: every answer brings it closer to
/// its `Finish` (at most 16 answers from the start), and once finished it
/// keeps reporting the same result.
pub proof fn lemma_isolation_terminates(st: Isolation<Seq<char>>, e: IsoEvent<Seq<char>>)
    ensures
        st.phase is Finished ==> iso_step(st, e).0.phase == st.phase && iso_step(st, e).1
            == IsoAction::Finish(st.phase->Finished_0),
        !(st.phase is Finished) ==> iso_rank(iso_step(st, e).0.phase) < iso_rank(st.phase),
        iso_step(st, e).0.phase is Finished ==> iso_step(st, e).1 == IsoAction::Finish(
            iso_step(st, e).0.phase->Finished_0,
        ),
{
}

/// `libraryfolders.vdf` is only ever written with the strip of the text
/// just read from it, and only after it was backed up and read.
pub proof fn lemma_isolation_writes_only_the_strip(st: Isolation<Seq<char>>, e: IsoEvent<Seq<char>>)
    ensures
        iso_step(st, e).1 matches IsoAction::WriteFile(p, c) ==> {
            &&& st.phase == IsoPhase::<Seq<char>>::ReadVdf
            &&& p == st.vdf
            &&& e matches IsoEvent::Read(text) && c == strip_app_spec(text, st.drive, st.app_id)
        },
{
}

/// The manifest counts as hidden only once the rename that hides it has
/// succeeded; an isolation that succeeds reports exactly that.
pub proof fn lemma_isolation_reports_hidden_manifest(st: Isolation<Seq<char>>, e: IsoEvent<Seq<char>>)
    ensures
        iso_step(st, e).0.manifest_hidden && !st.manifest_hidden ==> st.phase
            == IsoPhase::<Seq<char>>::HideManifest && !(e is Failed),
        !(st.phase is Finished) ==> (iso_step(st, e).1 matches IsoAction::Finish(Ok(b)) ==> b
            == st.manifest_hidden),
{
}

/// When Steam does not exit in time, the edit is rolled back before the
/// error is reported: the backup is renamed over `libraryfolders.vdf`,
/// then the hidden manifest is renamed back (when it was hidden), then the
/// isolation finishes with the timeout error, whatever the answers to the
/// two renames.
pub proof fn lemma_isolation_rolls_back_on_timeout(
    st: Isolation<Seq<char>>,
    m: Seq<char>,
    e2: IsoEvent<Seq<char>>,
    e3: IsoEvent<Seq<char>>,
)
    requires
        st.phase == IsoPhase::<Seq<char>>::WaitExit,
    ensures
        ({
            let (s1, a1) = iso_step(st, IsoEvent::Failed(m));
            let (s2, a2) = iso_step(s1, e2);
            let (s3, a3) = iso_step(s2, e3);
            &&& a1 == IsoAction::Rename(st.backup, st.vdf)
            &&& st.manifest_hidden ==> a2 == IsoAction::Rename(st.hidden, st.manifest) && a3
                == IsoAction::<Seq<char>>::Finish(Err(m))
            &&& !st.manifest_hidden ==> a2 == IsoAction::<Seq<char>>::Finish(Err(m))
        }),
{
}

/// When `libraryfolders.vdf` is missing, a manifest hidden just before is
/// renamed back before the error is reported.
pub proof fn lemma_isolation_unhides_when_vdf_missing(st: Isolation<Seq<char>>, e2: IsoEvent<Seq<char>>)
    requires
        st.phase == IsoPhase::<Seq<char>>::CheckVdf,
    ensures
        ({
            let (s1, a1) = iso_step(st, IsoEvent::Exists(false));
            let (s2, a2) = iso_step(s1, e2);
            &&& st.manifest_hidden ==> a1 == IsoAction::Rename(st.hidden, st.manifest) && a2
                == IsoAction::<Seq<char>>::Finish(Err(not_found_message(st.vdf)))
            &&& !st.manifest_hidden ==> a1 == IsoAction::<Seq<char>>::Finish(
                Err(not_found_message(st.vdf)),
            )
        }),
{
}


/// The vault is backed up before its `libraryfolders.vdf` is touched: the
/// file is read (the step before the only write) only right after the
/// copy `vdf` → `backup` was asked for and answered without failure;
/// that copy is asked for on entering the backup step; and the two paths
/// never change during the isolation.
pub proof fn lemma_isolation_backs_up_before_editing(st: Isolation<Seq<char>>, e: IsoEvent<Seq<char>>)
    ensures
        iso_step(st, e).0.vdf == st.vdf && iso_step(st, e).0.backup == st.backup,
        iso_step(st, e).1 matches IsoAction::ReadFile(p) ==> st.phase == IsoPhase::<Seq<char>>::BackUp
            && !(e is Failed) && p == st.vdf,
        iso_step(st, e).0.phase == IsoPhase::<Seq<char>>::ReadVdf && st.phase
            != IsoPhase::<Seq<char>>::ReadVdf ==> st.phase == IsoPhase::<Seq<char>>::BackUp && !(e is Failed),
        iso_step(st, e).0.phase == IsoPhase::<Seq<char>>::BackUp && st.phase
            != IsoPhase::<Seq<char>>::BackUp ==> iso_step(st, e).1 == IsoAction::Copy(st.vdf, st.backup),
        iso_step(st, e).1 matches IsoAction::WriteFile(p, _) ==> p == st.vdf && st.phase
            == IsoPhase::<Seq<char>>::ReadVdf,
{
}

} // verus!

verus! {

// ---------------------------------------------------------------------
// The strip on a well-formed `libraryfolders.vdf`
// ---------------------------------------------------------------------

/// A top-level entry of `libraryfolders.vdf`: a library (numeric key,
/// with a `"path"`) or another keyed block; both hold an `"apps"` block of
/// `"<AppID>"  "<value>"` entries.
pub struct FolderEntry {
    pub is_library: bool,
    pub key: Seq<char>,
    pub path: Seq<char>,
    pub apps: Seq<(Seq<char>, Seq<char>)>,
}

pub open spec fn tabs1() -> Seq<char> {
    seq!['\t']
}

pub open spec fn tabs2() -> Seq<char> {
    seq!['\t', '\t']
}

pub open spec fn tabs3() -> Seq<char> {
    seq!['\t', '\t', '\t']
}

pub open spec fn nl() -> Seq<char> {
    seq!['\n']
}

pub open spec fn key_line(k: Seq<char>) -> Seq<char> {
    tabs1() + quoted(k) + nl()
}

pub open spec fn open_line(ind: Seq<char>) -> Seq<char> {
    ind + seq!['{'] + nl()
}

pub open spec fn close_line(ind: Seq<char>) -> Seq<char> {
    ind + seq!['}'] + nl()
}

pub open spec fn path_line(p: Seq<char>) -> Seq<char> {
    tabs2() + (path_key() + tabs2() + quoted(p)) + nl()
}

pub open spec fn apps_line() -> Seq<char> {
    tabs2() + apps_key() + nl()
}

pub open spec fn app_line(a: Seq<char>, v: Seq<char>) -> Seq<char> {
    tabs3() + (quoted(a) + tabs2() + quoted(v)) + nl()
}

pub open spec fn header_key() -> Seq<char> {
    seq!['l', 'i', 'b', 'r', 'a', 'r', 'y', 'f', 'o', 'l', 'd', 'e', 'r', 's']
}

pub open spec fn header_line() -> Seq<char> {
    Seq::<char>::empty() + quoted(header_key()) + nl()
}

pub open spec fn app_lines(apps: Seq<(Seq<char>, Seq<char>)>) -> Seq<Seq<char>>
    decreases apps.len(),
{
    if apps.len() == 0 {
        seq![]
    } else {
        app_lines(apps.drop_last()).push(app_line(apps.last().0, apps.last().1))
    }
}

pub open spec fn entry_head(e: FolderEntry) -> Seq<Seq<char>> {
    if e.is_library {
        seq![key_line(e.key), open_line(tabs1()), path_line(e.path), apps_line(), open_line(tabs2())]
    } else {
        seq![key_line(e.key), open_line(tabs1()), apps_line(), open_line(tabs2())]
    }
}

pub open spec fn entry_tail() -> Seq<Seq<char>> {
    seq![close_line(tabs2()), close_line(tabs1())]
}

pub open spec fn entry_lines(e: FolderEntry) -> Seq<Seq<char>> {
    entry_head(e) + app_lines(e.apps) + entry_tail()
}

pub open spec fn entries_lines(es: Seq<FolderEntry>) -> Seq<Seq<char>>
    decreases es.len(),
{
    if es.len() == 0 {
        seq![]
    } else {
        entries_lines(es.drop_last()) + entry_lines(es.last())
    }
}

pub open spec fn doc_lines(es: Seq<FolderEntry>) -> Seq<Seq<char>> {
    seq![header_line(), open_line(Seq::<char>::empty())] + entries_lines(es) + seq![
        close_line(Seq::<char>::empty()),
    ]
}

/// The text of a `libraryfolders.vdf` with the given entries, laid out as
/// Steam writes it (tabs for indentation, `\n` line ends).
pub open spec fn render_folders(es: Seq<FolderEntry>) -> Seq<char> {
    concat_all(doc_lines(es))
}

/// `apps` without the entries keyed `id`.
pub open spec fn without_app(apps: Seq<(Seq<char>, Seq<char>)>, id: Seq<char>) -> Seq<
    (Seq<char>, Seq<char>),
>
    decreases apps.len(),
{
    if apps.len() == 0 {
        seq![]
    } else if apps.last().0 == id {
        without_app(apps.drop_last(), id)
    } else {
        without_app(apps.drop_last(), id).push(apps.last())
    }
}

/// The entries with `id` removed from the `apps` block of every library
/// whose own `"path"` is on the vault drive; every other entry as it is.
pub open spec fn vault_stripped(es: Seq<FolderEntry>, letter: Seq<char>, id: Seq<char>) -> Seq<
    FolderEntry,
> {
    es.map_values(
        |e: FolderEntry|
            if e.is_library && first_upper(e.path) == letter {
                FolderEntry { apps: without_app(e.apps, id), ..e }
            } else {
                e
            },
    )
}

pub open spec fn plain_text(s: Seq<char>) -> bool {
    !has_char(s, '"') && !has_char(s, '\n')
}

pub open spec fn digits(s: Seq<char>) -> bool {
    s.len() > 0 && forall|i: int| 0 <= i < s.len() ==> is_digit(#[trigger] s[i])
}

/// A well-formed entry: a plain key that is a library index key exactly
/// for a library and is neither `"path"` nor `"apps"`, a plain path, and
/// AppID keys of digits with plain values.
pub open spec fn entry_ok(e: FolderEntry) -> bool {
    &&& e.key.len() > 0
    &&& plain_text(e.key)
    &&& !has_prefix(quoted(e.key), path_key())
    &&& quoted(e.key) != apps_key()
    &&& e.is_library == is_library_index_key_spec(quoted(e.key))
    &&& plain_text(e.path)
    &&& forall|j: int|
        0 <= j < e.apps.len() ==> digits((#[trigger] e.apps[j]).0) && plain_text(e.apps[j].1)
}

/// The scan's state after the lines.
pub open spec fn scan_end(l: Seq<Seq<char>>, st: StripState, letter: Seq<char>, id: Seq<char>) -> StripState
    decreases l.len(),
{
    if l.len() == 0 {
        st
    } else {
        scan_end(l.drop_first(), strip_step(st, l[0], letter, id).0, letter, id)
    }
}

proof fn lemma_kept_concat(
    l1: Seq<Seq<char>>,
    l2: Seq<Seq<char>>,
    st: StripState,
    letter: Seq<char>,
    id: Seq<char>,
)
    ensures
        kept_lines(l1 + l2, st, letter, id) == kept_lines(l1, st, letter, id) + kept_lines(
            l2,
            scan_end(l1, st, letter, id),
            letter,
            id,
        ),
        scan_end(l1 + l2, st, letter, id) == scan_end(l2, scan_end(l1, st, letter, id), letter, id),
    decreases l1.len(),
{
    if l1.len() == 0 {
        assert(l1 + l2 =~= l2);
        assert(Seq::<Seq<char>>::empty() + kept_lines(l2, st, letter, id) =~= kept_lines(
            l2,
            st,
            letter,
            id,
        ));
    } else {
        let (st2, keep) = strip_step(st, l1[0], letter, id);
        assert((l1 + l2)[0] == l1[0]);
        assert((l1 + l2).drop_first() =~= l1.drop_first() + l2);
        lemma_kept_concat(l1.drop_first(), l2, st2, letter, id);
        let a = kept_lines(l1.drop_first(), st2, letter, id);
        let b = kept_lines(l2, scan_end(l1.drop_first(), st2, letter, id), letter, id);
        if keep {
            assert(seq![l1[0]] + (a + b) =~= (seq![l1[0]] + a) + b);
        }
    }
}

proof fn lemma_kept_one(line: Seq<char>, st: StripState, letter: Seq<char>, id: Seq<char>)
    ensures
        kept_lines(seq![line], st, letter, id) == (if strip_step(st, line, letter, id).1 {
            seq![line]
        } else {
            Seq::<Seq<char>>::empty()
        }),
        scan_end(seq![line], st, letter, id) == strip_step(st, line, letter, id).0,
{
    let l = seq![line];
    let st2 = strip_step(st, line, letter, id).0;
    assert(l[0] == line);
    assert(l.drop_first() =~= Seq::<Seq<char>>::empty());
    assert(kept_lines(Seq::<Seq<char>>::empty(), st2, letter, id) == Seq::<Seq<char>>::empty());
    assert(scan_end(Seq::<Seq<char>>::empty(), st2, letter, id) == st2);
    assert(kept_lines(l, st, letter, id) == (if strip_step(st, line, letter, id).1 {
        seq![line] + kept_lines(l.drop_first(), st2, letter, id)
    } else {
        kept_lines(l.drop_first(), st2, letter, id)
    }));
    assert(scan_end(l, st, letter, id) == scan_end(l.drop_first(), st2, letter, id));
    if strip_step(st, line, letter, id).1 {
        assert(seq![line] + Seq::<Seq<char>>::empty() =~= seq![line]);
    }
}

proof fn lemma_tabs_blank()
    ensures
        forall|i: int| 0 <= i < tabs1().len() ==> is_ws(#[trigger] tabs1()[i]),
        forall|i: int| 0 <= i < tabs2().len() ==> is_ws(#[trigger] tabs2()[i]),
        forall|i: int| 0 <= i < tabs3().len() ==> is_ws(#[trigger] tabs3()[i]),
        forall|i: int| 0 <= i < nl().len() ==> is_ws(#[trigger] nl()[i]),
        forall|i: int| 0 <= i < Seq::<char>::empty().len() ==> is_ws(#[trigger] Seq::<char>::empty()[i]),
        !has_char(tabs1(), '\n') && !has_char(tabs2(), '\n') && !has_char(tabs3(), '\n'),
        !has_char(tabs1(), '"') && !has_char(tabs2(), '"'),
        !has_char(Seq::<char>::empty(), '\n'),
{
}

proof fn lemma_quoted_plain(s: Seq<char>)
    requires
        !has_char(s, '\n'),
    ensures
        !has_char(quoted(s), '\n'),
        quoted(s).len() == s.len() + 2,
        quoted(s)[0] == '"',
        quoted(s).last() == '"',
{
    lemma_has_char_concat(seq!['"'], s, '\n');
    lemma_has_char_concat(seq!['"'] + s, seq!['"'], '\n');
}

/// The trimmed text of a line `ind` + `core` + `\n`.
proof fn lemma_line_trim(ind: Seq<char>, core: Seq<char>)
    requires
        forall|i: int| 0 <= i < ind.len() ==> is_ws(#[trigger] ind[i]),
        core.len() > 0,
        !is_ws(core[0]),
        !is_ws(core.last()),
    ensures
        trim(ind + core + nl()) == core,
{
    lemma_tabs_blank();
    lemma_trim_around(ind, core, nl());
}

proof fn lemma_no_entry_prefix(t: Seq<char>, id: Seq<char>)
    requires
        t.len() < 2,
    ensures
        !has_prefix(t, quoted(id)),
{
}

/// An AppID entry line keeps the scan's state; it is dropped exactly when
/// the scan is in the vault library's `apps` block and its key is `id`.
proof fn lemma_app_line_step(
    a: Seq<char>,
    v: Seq<char>,
    id: Seq<char>,
    st: StripState,
    letter: Seq<char>,
)
    requires
        digits(a),
        plain_text(v),
        !has_char(id, '"'),
        !st.pending_lib,
        !st.pending_apps,
    ensures
        strip_step(st, app_line(a, v), letter, id) == (st, !(st.in_apps && st.in_target_lib && a
            == id)),
{
    lemma_tabs_blank();
    let qa = quoted(a);
    let qv = quoted(v);
    let core = qa + tabs2() + qv;
    assert(core[0] == '"');
    assert(core.last() == '"');
    lemma_line_trim(tabs3(), core);
    assert(app_line(a, v) == tabs3() + core + nl());
    let t = trim(app_line(a, v));
    assert(t == core);
    assert(core.len() == a.len() + v.len() + 6);
    assert forall|k: int| 0 <= k < a.len() implies core[k + 1] == a[k] by {}
    assert(core[a.len() + 1int] == '"');
    assert(core[1] == a[0]);
    assert(is_digit(a[0]));
    // the entry test
    let hit = has_prefix(t, quoted(id)) && is_app_entry_line_spec(t, id);
    if a == id {
        assert(t.take(id.len() + 2int) =~= quoted(id));
        lemma_trim_around(Seq::<char>::empty(), core, Seq::<char>::empty());
        assert(Seq::<char>::empty() + core + Seq::<char>::empty() =~= core);
        assert(trim(t) == t);
        assert(t.skip(quoted(id).len() as int) =~= tabs2() + qv);
        lemma_trim_around(tabs2(), qv, Seq::<char>::empty());
        assert(tabs2() + qv + Seq::<char>::empty() =~= tabs2() + qv);
        assert(trim_start(tabs2() + qv) == qv) by {
            lemma_trim_start_blank(tabs2(), qv);
            assert(trim_start(qv) == qv);
        }
        assert(hit);
    } else {
        if has_prefix(t, quoted(id)) {
            let n: int = id.len() as int;
            let q = quoted(id);
            assert(t.take(n + 2int) == q);
            if n < a.len() {
                assert(t[n + 1int] == q[n + 1int]);
                assert(q[n + 1int] == '"');
                assert(is_digit(a[n as int]));
            } else if n > a.len() {
                assert(t[a.len() + 1int] == q[a.len() + 1int]);
                assert(q[a.len() + 1int] == id[a.len() as int]);
                assert(has_char(id, '"'));
            } else {
                assert forall|k: int| 0 <= k < n implies a[k] == id[k] by {
                    assert(t[k + 1] == q[k + 1]);
                }
                assert(a =~= id);
            }
        }
        assert(!hit);
    }
    // the other tests of the scan
    assert(t != seq!['{']);
    assert(t != seq!['}']);
    assert(!has_prefix(t, path_key())) by {
        assert(t.take(6)[1] == t[1]);
    }
    assert(t != apps_key()) by {
        assert(t[1] == a[0]);
    }
    assert(!is_library_index_key_spec(t)) by {
        lemma_trim_around(Seq::<char>::empty(), core, Seq::<char>::empty());
        assert(Seq::<char>::empty() + core + Seq::<char>::empty() =~= core);
        let inner = t.subrange(1, t.len() - 1);
        assert(inner[0] == a[0]);
        assert(u32_digits(inner) == inner);
        assert(inner[a.len() as int] == '"');
        assert(!is_digit(inner[a.len() as int]));
    }
    assert(StripState { pending_apps: false, pending_lib: false, ..st } == st);
}

/// The step of the scan on each fixed line of the layout.
proof fn lemma_fixed_line_steps(st: StripState, letter: Seq<char>, id: Seq<char>, ind: Seq<char>)
    requires
        forall|i: int| 0 <= i < ind.len() ==> is_ws(#[trigger] ind[i]),
    ensures
        strip_step(st, open_line(ind), letter, id) == (if st.pending_lib {
            (
                StripState {
                    depth: st.depth + 1,
                    lib_depth: Some(st.depth + 1),
                    in_target_lib: false,
                    pending_lib: false,
                    ..st
                },
                true,
            )
        } else if st.pending_apps {
            (
                StripState {
                    depth: st.depth + 1,
                    apps_depth: Some(st.depth + 1),
                    in_apps: true,
                    pending_apps: false,
                    ..st
                },
                true,
            )
        } else {
            (StripState { depth: st.depth + 1, ..st }, true)
        }),
        strip_step(st, close_line(ind), letter, id) == ({
            let s1 = if st.in_apps && st.apps_depth == Some(st.depth) {
                StripState { in_apps: false, apps_depth: None, ..st }
            } else {
                st
            };
            let s2 = if s1.lib_depth == Some(st.depth) {
                StripState { in_target_lib: false, lib_depth: None, ..s1 }
            } else {
                s1
            };
            (StripState { depth: st.depth - 1, pending_apps: false, pending_lib: false, ..s2 }, true)
        }),
        !st.in_apps ==> strip_step(st, apps_line(), letter, id) == (
            StripState { pending_apps: true, pending_lib: false, ..st },
            true,
        ),
        !st.in_apps ==> strip_step(st, header_line(), letter, id) == (
            StripState { pending_apps: false, pending_lib: false, ..st },
            true,
        ),
{
    lemma_tabs_blank();
    lemma_line_trim(ind, seq!['{']);
    assert(open_line(ind) == ind + seq!['{'] + nl());
    lemma_line_trim(ind, seq!['}']);
    lemma_no_entry_prefix(seq!['{'], id);
    lemma_no_entry_prefix(seq!['}'], id);
    lemma_line_trim(tabs2(), apps_key());
    assert(!has_prefix(apps_key(), path_key())) by {
        assert(apps_key().take(6)[1] == apps_key()[1]);
    }
    let hk = quoted(header_key());
    assert(hk.len() == 16);
    assert(hk[0] == '"' && hk.last() == '"');
    lemma_line_trim(Seq::<char>::empty(), hk);
    assert(!has_prefix(hk, path_key())) by {
        assert(hk.take(6)[1] == hk[1]);
    }
    assert(hk != apps_key());
    assert(!is_library_index_key_spec(hk)) by {
        lemma_trim_around(Seq::<char>::empty(), hk, Seq::<char>::empty());
        assert(Seq::<char>::empty() + hk + Seq::<char>::empty() =~= hk);
        let inner = hk.subrange(1, hk.len() - 1);
        assert(inner[0] == 'l');
        assert(u32_digits(inner) == inner);
        assert(!is_digit(inner[0]));
    }
}

/// The key line of an entry.
proof fn lemma_key_line_step(e: FolderEntry, st: StripState, letter: Seq<char>, id: Seq<char>)
    requires
        entry_ok(e),
        !st.in_apps,
    ensures
        strip_step(st, key_line(e.key), letter, id) == (if e.is_library {
            StripState { pending_lib: true, pending_apps: false, ..st }
        } else {
            StripState { pending_lib: false, pending_apps: false, ..st }
        }, true),
{
    lemma_tabs_blank();
    let q = quoted(e.key);
    lemma_quoted_plain(e.key);
    lemma_line_trim(tabs1(), q);
    assert(q.len() >= 3);
    assert(q != seq!['{'] && q != seq!['}']);
}

/// The `"path"` line of a library.
proof fn lemma_path_line_step(p: Seq<char>, st: StripState, letter: Seq<char>, id: Seq<char>)
    requires
        plain_text(p),
        !st.in_apps,
    ensures
        strip_step(st, path_line(p), letter, id) == (
            StripState {
                in_target_lib: st.in_target_lib || first_upper(p) == letter,
                pending_apps: false,
                pending_lib: false,
                ..st
            },
            true,
        ),
{
    lemma_tabs_blank();
    let core = path_key() + tabs2() + quoted(p);
    assert(core[0] == '"');
    assert(core.last() == '"');
    lemma_line_trim(tabs2(), core);
    assert(path_line(p) == tabs2() + core + nl());
    assert(core != seq!['{'] && core != seq!['}']);
    assert(core.take(6) =~= path_key());
    let k = seq!['p', 'a', 't', 'h'];
    assert(!has_char(k, '"'));
    lemma_kv_value_of_pair(k, tabs2(), p);
    assert(core =~= seq!['"'] + k + seq!['"'] + tabs2() + seq!['"'] + p + seq!['"']);
}

proof fn lemma_app_lines(
    apps: Seq<(Seq<char>, Seq<char>)>,
    st: StripState,
    letter: Seq<char>,
    id: Seq<char>,
)
    requires
        st.in_apps,
        !st.pending_lib,
        !st.pending_apps,
        !has_char(id, '"'),
        forall|j: int| 0 <= j < apps.len() ==> digits((#[trigger] apps[j]).0) && plain_text(apps[j].1),
    ensures
        kept_lines(app_lines(apps), st, letter, id) == app_lines(
            if st.in_target_lib {
                without_app(apps, id)
            } else {
                apps
            },
        ),
        scan_end(app_lines(apps), st, letter, id) == st,
    decreases apps.len(),
{
    if apps.len() > 0 {
        let rest = apps.drop_last();
        let (a, v) = apps.last();
        assert forall|j: int| 0 <= j < rest.len() implies digits((#[trigger] rest[j]).0) && plain_text(
            rest[j].1,
        ) by {
            assert(rest[j] == apps[j]);
        }
        assert(apps[apps.len() - 1] == apps.last());
        lemma_app_lines(rest, st, letter, id);
        lemma_kept_concat(app_lines(rest), seq![app_line(a, v)], st, letter, id);
        assert(app_lines(apps) == app_lines(rest) + seq![app_line(a, v)]);
        lemma_app_line_step(a, v, id, st, letter);
        lemma_kept_one(app_line(a, v), st, letter, id);
        if st.in_target_lib {
            if a == id {
                assert(without_app(apps, id) == without_app(rest, id));
                assert(app_lines(without_app(rest, id)) + Seq::<Seq<char>>::empty() =~= app_lines(
                    without_app(rest, id),
                ));
            } else {
                assert(without_app(apps, id) == without_app(rest, id).push((a, v)));
                assert(without_app(rest, id).push((a, v)).drop_last() =~= without_app(rest, id));
            }
        } else {
            assert(apps.drop_last() == rest);
        }
    }
}

/// The boundary state between top-level entries.
pub open spec fn entry_boundary() -> StripState {
    StripState { depth: 1, ..strip_start() }
}

pub open spec fn strip_entry(e: FolderEntry, letter: Seq<char>, id: Seq<char>) -> FolderEntry {
    if e.is_library && first_upper(e.path) == letter {
        FolderEntry { apps: without_app(e.apps, id), ..e }
    } else {
        e
    }
}

proof fn lemma_entry(e: FolderEntry, letter: Seq<char>, id: Seq<char>)
    requires
        entry_ok(e),
        !has_char(id, '"'),
    ensures
        kept_lines(entry_lines(e), entry_boundary(), letter, id) == entry_lines(
            strip_entry(e, letter, id),
        ),
        scan_end(entry_lines(e), entry_boundary(), letter, id) == entry_boundary(),
{
    lemma_tabs_blank();
    let b = entry_boundary();
    let hit = e.is_library && first_upper(e.path) == letter;
    let head = entry_head(e);
    lemma_key_line_step(e, b, letter, id);
    lemma_fixed_line_steps(b, letter, id, tabs1());
    let s1 = strip_step(b, key_line(e.key), letter, id).0;
    lemma_fixed_line_steps(s1, letter, id, tabs1());
    let s2 = strip_step(s1, open_line(tabs1()), letter, id).0;
    let s3 = if e.is_library {
        lemma_path_line_step(e.path, s2, letter, id);
        strip_step(s2, path_line(e.path), letter, id).0
    } else {
        s2
    };
    lemma_fixed_line_steps(s3, letter, id, tabs2());
    let s4 = strip_step(s3, apps_line(), letter, id).0;
    lemma_fixed_line_steps(s4, letter, id, tabs2());
    let s5 = strip_step(s4, open_line(tabs2()), letter, id).0;
    assert(s5 == StripState {
        depth: 3,
        in_target_lib: hit,
        in_apps: true,
        lib_depth: if e.is_library {
            Some(2int)
        } else {
            None
        },
        apps_depth: Some(3int),
        pending_lib: false,
        pending_apps: false,
    });
    // the head is kept and leads to s5
    if e.is_library {
        let h = head;
        assert(h =~= seq![h[0]] + (seq![h[1]] + (seq![h[2]] + (seq![h[3]] + seq![h[4]]))));
        lemma_kept_concat(seq![h[3]], seq![h[4]], s3, letter, id);
        lemma_kept_one(h[3], s3, letter, id);
        lemma_kept_one(h[4], s4, letter, id);
        lemma_kept_concat(seq![h[2]], seq![h[3]] + seq![h[4]], s2, letter, id);
        lemma_kept_one(h[2], s2, letter, id);
        lemma_kept_concat(seq![h[1]], seq![h[2]] + (seq![h[3]] + seq![h[4]]), s1, letter, id);
        lemma_kept_one(h[1], s1, letter, id);
        lemma_kept_concat(seq![h[0]], seq![h[1]] + (seq![h[2]] + (seq![h[3]] + seq![h[4]])), b, letter, id);
        lemma_kept_one(h[0], b, letter, id);
        assert(kept_lines(h, b, letter, id) =~= h);
        assert(scan_end(h, b, letter, id) == s5);
    } else {
        let h = head;
        assert(h =~= seq![h[0]] + (seq![h[1]] + (seq![h[2]] + seq![h[3]])));
        lemma_kept_concat(seq![h[2]], seq![h[3]], s3, letter, id);
        lemma_kept_one(h[2], s3, letter, id);
        lemma_kept_one(h[3], s4, letter, id);
        lemma_kept_concat(seq![h[1]], seq![h[2]] + seq![h[3]], s1, letter, id);
        lemma_kept_one(h[1], s1, letter, id);
        lemma_kept_concat(seq![h[0]], seq![h[1]] + (seq![h[2]] + seq![h[3]]), b, letter, id);
        lemma_kept_one(h[0], b, letter, id);
        assert(kept_lines(h, b, letter, id) =~= h);
        assert(scan_end(h, b, letter, id) == s5);
    }
    // the apps
    lemma_app_lines(e.apps, s5, letter, id);
    // the tail
    let t = entry_tail();
    lemma_fixed_line_steps(s5, letter, id, tabs2());
    let s6 = strip_step(s5, close_line(tabs2()), letter, id).0;
    lemma_fixed_line_steps(s6, letter, id, tabs1());
    let s7 = strip_step(s6, close_line(tabs1()), letter, id).0;
    assert(s7 == b);
    assert(t =~= seq![t[0]] + seq![t[1]]);
    lemma_kept_concat(seq![t[0]], seq![t[1]], s5, letter, id);
    lemma_kept_one(t[0], s5, letter, id);
    lemma_kept_one(t[1], s6, letter, id);
    assert(kept_lines(t, s5, letter, id) =~= t);
    // together
    lemma_kept_concat(head, app_lines(e.apps), b, letter, id);
    lemma_kept_concat(head + app_lines(e.apps), t, b, letter, id);
    let se = strip_entry(e, letter, id);
    assert(entry_head(se) == head);
    assert(se.apps == (if s5.in_target_lib {
        without_app(e.apps, id)
    } else {
        e.apps
    }));
}

proof fn lemma_entries(es: Seq<FolderEntry>, letter: Seq<char>, id: Seq<char>)
    requires
        forall|i: int| 0 <= i < es.len() ==> entry_ok(#[trigger] es[i]),
        !has_char(id, '"'),
    ensures
        kept_lines(entries_lines(es), entry_boundary(), letter, id) == entries_lines(
            vault_stripped(es, letter, id),
        ),
        scan_end(entries_lines(es), entry_boundary(), letter, id) == entry_boundary(),
    decreases es.len(),
{
    if es.len() > 0 {
        let rest = es.drop_last();
        assert forall|i: int| 0 <= i < rest.len() implies entry_ok(#[trigger] rest[i]) by {
            assert(rest[i] == es[i]);
        }
        assert(es[es.len() - 1] == es.last());
        lemma_entries(rest, letter, id);
        lemma_entry(es.last(), letter, id);
        lemma_kept_concat(entries_lines(rest), entry_lines(es.last()), entry_boundary(), letter, id);
        let sv = vault_stripped(es, letter, id);
        assert(sv.drop_last() =~= vault_stripped(rest, letter, id));
        assert(sv.last() == strip_entry(es.last(), letter, id));
    }
}

/// A line ending in `\n` with no other `\n`.
pub open spec fn line_ok(l: Seq<char>) -> bool {
    l.len() > 0 && l.last() == '\n' && !has_char(l.drop_last(), '\n')
}

pub open spec fn lines_ok(k: Seq<Seq<char>>) -> bool {
    forall|i: int| 0 <= i < k.len() ==> line_ok(#[trigger] k[i])
}

proof fn lemma_lines_ok_concat(a: Seq<Seq<char>>, b: Seq<Seq<char>>)
    requires
        lines_ok(a),
        lines_ok(b),
    ensures
        lines_ok(a + b),
{
    assert forall|i: int| 0 <= i < (a + b).len() implies line_ok(#[trigger] (a + b)[i]) by {
        if i < a.len() {
            assert((a + b)[i] == a[i]);
        } else {
            assert((a + b)[i] == b[i - a.len()]);
        }
    }
}

proof fn lemma_line_ok(ind: Seq<char>, core: Seq<char>)
    requires
        !has_char(ind, '\n'),
        !has_char(core, '\n'),
    ensures
        line_ok(ind + core + nl()),
{
    let l = ind + core + nl();
    assert(l.drop_last() =~= ind + core);
    lemma_has_char_concat(ind, core, '\n');
}

proof fn lemma_app_lines_ok(apps: Seq<(Seq<char>, Seq<char>)>)
    requires
        forall|j: int| 0 <= j < apps.len() ==> digits((#[trigger] apps[j]).0) && plain_text(apps[j].1),
    ensures
        lines_ok(app_lines(apps)),
    decreases apps.len(),
{
    if apps.len() > 0 {
        let rest = apps.drop_last();
        assert forall|j: int| 0 <= j < rest.len() implies digits((#[trigger] rest[j]).0) && plain_text(
            rest[j].1,
        ) by {
            assert(rest[j] == apps[j]);
        }
        lemma_app_lines_ok(rest);
        let (a, v) = apps.last();
        assert(apps[apps.len() - 1] == apps.last());
        assert(!has_char(a, '\n')) by {
            if has_char(a, '\n') {
                let k = choose|k: int| 0 <= k < a.len() && a[k] == '\n';
                assert(is_digit(a[k]));
            }
        }
        lemma_tabs_blank();
        lemma_quoted_plain(a);
        lemma_quoted_plain(v);
        lemma_has_char_concat(quoted(a), tabs2(), '\n');
        lemma_has_char_concat(quoted(a) + tabs2(), quoted(v), '\n');
        lemma_line_ok(tabs3(), quoted(a) + tabs2() + quoted(v));
        lemma_lines_ok_concat(app_lines(rest), seq![app_line(a, v)]);
        assert(app_lines(apps) == app_lines(rest) + seq![app_line(a, v)]);
    }
}

proof fn lemma_entry_lines_ok(e: FolderEntry)
    requires
        entry_ok(e),
    ensures
        lines_ok(entry_lines(e)),
{
    lemma_tabs_blank();
    lemma_quoted_plain(e.key);
    lemma_line_ok(tabs1(), quoted(e.key));
    lemma_line_ok(tabs1(), seq!['{']);
    lemma_line_ok(tabs2(), seq!['{']);
    lemma_line_ok(tabs1(), seq!['}']);
    lemma_line_ok(tabs2(), seq!['}']);
    lemma_line_ok(tabs2(), apps_key());
    lemma_quoted_plain(e.path);
    lemma_has_char_concat(path_key(), tabs2(), '\n');
    lemma_has_char_concat(path_key() + tabs2(), quoted(e.path), '\n');
    lemma_line_ok(tabs2(), path_key() + tabs2() + quoted(e.path));
    assert(lines_ok(entry_head(e)));
    assert(lines_ok(entry_tail()));
    lemma_app_lines_ok(e.apps);
    lemma_lines_ok_concat(entry_head(e), app_lines(e.apps));
    lemma_lines_ok_concat(entry_head(e) + app_lines(e.apps), entry_tail());
}

proof fn lemma_entries_lines_ok(es: Seq<FolderEntry>)
    requires
        forall|i: int| 0 <= i < es.len() ==> entry_ok(#[trigger] es[i]),
    ensures
        lines_ok(entries_lines(es)),
    decreases es.len(),
{
    if es.len() > 0 {
        let rest = es.drop_last();
        assert forall|i: int| 0 <= i < rest.len() implies entry_ok(#[trigger] rest[i]) by {
            assert(rest[i] == es[i]);
        }
        assert(es[es.len() - 1] == es.last());
        lemma_entries_lines_ok(rest);
        lemma_entry_lines_ok(es.last());
        lemma_lines_ok_concat(entries_lines(rest), entry_lines(es.last()));
    }
}

proof fn lemma_doc_segments(es: Seq<FolderEntry>)
    requires
        forall|i: int| 0 <= i < es.len() ==> entry_ok(#[trigger] es[i]),
    ensures
        segments_of(render_folders(es)) == doc_lines(es),
{
    lemma_tabs_blank();
    lemma_quoted_plain(header_key());
    lemma_line_ok(Seq::<char>::empty(), quoted(header_key()));
    lemma_line_ok(Seq::<char>::empty(), seq!['{']);
    lemma_line_ok(Seq::<char>::empty(), seq!['}']);
    let pre = seq![header_line(), open_line(Seq::<char>::empty())];
    let post = seq![close_line(Seq::<char>::empty())];
    assert(lines_ok(pre));
    assert(lines_ok(post));
    lemma_entries_lines_ok(es);
    lemma_lines_ok_concat(pre, entries_lines(es));
    lemma_lines_ok_concat(pre + entries_lines(es), post);
    let d = doc_lines(es);
    assert(segments_ok(d)) by {
        assert forall|i: int| 0 <= i < d.len() implies {
            &&& (#[trigger] d[i]).len() > 0
            &&& !has_char(d[i].drop_last(), '\n')
            &&& (i < d.len() - 1 ==> d[i].last() == '\n')
        } by {
            assert(line_ok(d[i]));
        }
    }
    lemma_segments_of_concat(d);
}

/// The strip on a well-formed `libraryfolders.vdf` laid out as Steam
/// writes it: the entries keyed `app_id` disappear from the `apps` block
/// of every library whose own `"path"` is on the vault drive, and from
/// nowhere else; every other library and every other top-level block,
/// before or after the vault's library, comes out unchanged.
pub proof fn lemma_strip_only_vault_library_apps(
    entries: Seq<FolderEntry>,
    drive: Seq<char>,
    app_id: Seq<char>,
)
    requires
        forall|i: int| 0 <= i < entries.len() ==> entry_ok(#[trigger] entries[i]),
        !has_char(app_id, '"'),
    ensures
        strip_app_spec(render_folders(entries), drive, app_id) == render_folders(
            vault_stripped(entries, vault_letter(drive), app_id),
        ),
{
    let letter = vault_letter(drive);
    let sv = vault_stripped(entries, letter, app_id);
    lemma_doc_segments(entries);
    lemma_tabs_blank();
    let s0 = strip_start();
    let pre = seq![header_line(), open_line(Seq::<char>::empty())];
    let post = seq![close_line(Seq::<char>::empty())];
    lemma_fixed_line_steps(s0, letter, app_id, Seq::<char>::empty());
    let s1 = strip_step(s0, header_line(), letter, app_id).0;
    assert(s1 == s0);
    lemma_fixed_line_steps(s1, letter, app_id, Seq::<char>::empty());
    assert(strip_step(s1, open_line(Seq::<char>::empty()), letter, app_id).0 == entry_boundary());
    assert(pre =~= seq![pre[0]] + seq![pre[1]]);
    lemma_kept_concat(seq![pre[0]], seq![pre[1]], s0, letter, app_id);
    lemma_kept_one(pre[0], s0, letter, app_id);
    lemma_kept_one(pre[1], s1, letter, app_id);
    assert(kept_lines(pre, s0, letter, app_id) =~= pre);
    lemma_entries(entries, letter, app_id);
    lemma_fixed_line_steps(entry_boundary(), letter, app_id, Seq::<char>::empty());
    lemma_kept_one(post[0], entry_boundary(), letter, app_id);
    lemma_kept_concat(pre, entries_lines(entries), s0, letter, app_id);
    lemma_kept_concat(pre + entries_lines(entries), post, s0, letter, app_id);
    assert(kept_lines(doc_lines(entries), s0, letter, app_id) =~= doc_lines(sv));
}

} // verus!
