//! Copies between the vault and local libraries: the pause / resume /
//! cancel controls the copy loop obeys between chunks, the arithmetic of
//! its progress reports, where a copy lands, and what removing a local
//! copy deletes.
use vstd::prelude::*;

use crate::paths::{
    file_name, file_name_of, join, join_path, join_str, manifest_name, parent_of, parent_path,
};
use crate::text::{append_chars, chars_of, copy_range, has_prefix, string_of};

verus! {

// ---------------------------------------------------------------------
// Copy controls
// ---------------------------------------------------------------------

/// The controls of the copy in flight, flipped by the pause / resume /
/// cancel commands and read by the copy loop between chunks.
pub struct CopyControl {
    pub paused: bool,
    pub cancelled: bool,
    pub title: String,
}

/// What the copy loop does before its next chunk.
pub enum ChunkStep {
    /// Stop: the copy was cancelled.
    Abort,
    /// Sleep briefly and ask again: the copy is paused.
    Wait,
    /// Copy the next chunk.
    Proceed,
}

/// The step for given flags: a cancel wins over a pause.
pub open spec fn step_for(paused: bool, cancelled: bool) -> ChunkStep {
    if cancelled {
        ChunkStep::Abort
    } else if paused {
        ChunkStep::Wait
    } else {
        ChunkStep::Proceed
    }
}

/// A command sent to the copy in flight.
pub enum CopyCommand {
    Pause,
    Resume,
    Cancel,
}

/// The flags `(paused, cancelled)` after one command. Cancelling also
/// lifts a pause, so the loop notices the cancel at once.
pub open spec fn apply_command(flags: (bool, bool), cmd: CopyCommand) -> (bool, bool) {
    match cmd {
        CopyCommand::Pause => (true, flags.1),
        CopyCommand::Resume => (false, flags.1),
        CopyCommand::Cancel => (false, true),
    }
}

/// The flags after a series of commands, in order.
pub open spec fn apply_commands(flags: (bool, bool), cmds: Seq<CopyCommand>) -> (bool, bool)
    decreases cmds.len(),
{
    if cmds.len() == 0 {
        flags
    } else {
        apply_commands(apply_command(flags, cmds[0]), cmds.drop_first())
    }
}

impl CopyControl {
    /// Controls for a new copy of the game `title`: neither paused nor
    /// cancelled.
    pub fn new(title: String) -> (c: CopyControl)
        ensures
            !c.paused,
            !c.cancelled,
            c.title == title,
    {
        CopyControl { paused: false, cancelled: false, title }
    }

    /// Pauses the copy.
    pub fn pause(&mut self)
        ensures
            (final(self).paused, final(self).cancelled) == apply_command(
                (old(self).paused, old(self).cancelled),
                CopyCommand::Pause,
            ),
            final(self).title == old(self).title,
    {
        self.paused = true;
    }

    /// Resumes the copy.
    pub fn resume(&mut self)
        ensures
            (final(self).paused, final(self).cancelled) == apply_command(
                (old(self).paused, old(self).cancelled),
                CopyCommand::Resume,
            ),
            final(self).title == old(self).title,
    {
        self.paused = false;
    }

    /// Cancels the copy (and lifts a pause).
    pub fn cancel(&mut self)
        ensures
            (final(self).paused, final(self).cancelled) == apply_command(
                (old(self).paused, old(self).cancelled),
                CopyCommand::Cancel,
            ),
            final(self).title == old(self).title,
    {
        self.cancelled = true;
        self.paused = false;
    }

    /// Applies one command.
    pub fn apply(&mut self, cmd: CopyCommand)
        ensures
            (final(self).paused, final(self).cancelled) == apply_command(
                (old(self).paused, old(self).cancelled),
                cmd,
            ),
            final(self).title == old(self).title,
    {
        match cmd {
            CopyCommand::Pause => self.pause(),
            CopyCommand::Resume => self.resume(),
            CopyCommand::Cancel => self.cancel(),
        }
    }

    /// What the copy loop does before its next chunk.
    pub fn next_step(&self) -> (s: ChunkStep)
        ensures
            s == step_for(self.paused, self.cancelled),
    {
        if self.cancelled {
            ChunkStep::Abort
        } else if self.paused {
            ChunkStep::Wait
        } else {
            ChunkStep::Proceed
        }
    }
}

/// Once a copy is cancelled, no later pause, resume or cancel brings it
/// back: the loop aborts before its next chunk.
pub proof fn lemma_cancel_is_final(flags: (bool, bool), cmds: Seq<CopyCommand>)
    requires
        flags.1,
    ensures
        apply_commands(flags, cmds).1,
        step_for(apply_commands(flags, cmds).0, apply_commands(flags, cmds).1) == ChunkStep::Abort,
    decreases cmds.len(),
{
    if cmds.len() > 0 {
        lemma_cancel_is_final(apply_command(flags, cmds[0]), cmds.drop_first());
    }
}

/// A cancel takes effect whatever came before it: after any commands
/// followed by a cancel, the loop aborts.
pub proof fn lemma_cancel_aborts(flags: (bool, bool), cmds: Seq<CopyCommand>)
    ensures
        step_for(
            apply_commands(flags, cmds.push(CopyCommand::Cancel)).0,
            apply_commands(flags, cmds.push(CopyCommand::Cancel)).1,
        ) == ChunkStep::Abort,
    decreases cmds.len(),
{
    if cmds.len() > 0 {
        assert(cmds.push(CopyCommand::Cancel).drop_first() =~= cmds.drop_first().push(
            CopyCommand::Cancel,
        ));
        assert(cmds.push(CopyCommand::Cancel)[0] == cmds[0]);
        lemma_cancel_aborts(apply_command(flags, cmds[0]), cmds.drop_first());
    } else {
        assert(cmds.push(CopyCommand::Cancel)[0] == CopyCommand::Cancel);
        assert(cmds.push(CopyCommand::Cancel).drop_first() =~= Seq::<CopyCommand>::empty());
        let f = apply_command(flags, CopyCommand::Cancel);
        assert(apply_commands(f, Seq::<CopyCommand>::empty()) == f);
    }
}

/// Resume undoes pause: on a copy that is not cancelled, pausing and then
/// resuming lets the loop proceed again.
pub proof fn lemma_resume_undoes_pause(flags: (bool, bool))
    requires
        !flags.1,
    ensures
        ({
            let f = apply_command(apply_command(flags, CopyCommand::Pause), CopyCommand::Resume);
            step_for(f.0, f.1) == ChunkStep::Proceed
        }),
        ({
            let f = apply_command(flags, CopyCommand::Pause);
            step_for(f.0, f.1) == ChunkStep::Wait
        }),
{
}

/// Tray tooltip while a copy is paused: `<title> — paused`.
pub fn paused_tooltip(title: &str) -> (r: String)
    ensures
        r@ == title@ + " — paused"@,
{
    let mut v = chars_of(title);
    let t = chars_of(" — paused");
    append_chars(&mut v, &t);
    string_of(v)
}

/// Tray tooltip when a copy starts: `Copying <title> — starting…`.
pub fn starting_tooltip(title: &str) -> (r: String)
    ensures
        r@ == "Copying "@ + title@ + " — starting…"@,
{
    let mut v = chars_of("Copying ");
    let a = chars_of(title);
    append_chars(&mut v, &a);
    let t = chars_of(" — starting…");
    append_chars(&mut v, &t);
    string_of(v)
}

// ---------------------------------------------------------------------
// Progress
// ---------------------------------------------------------------------

/// Milliseconds between two progress reports.
pub const PROGRESS_INTERVAL_MS: u64 = 500;

/// A progress report is due when at least `PROGRESS_INTERVAL_MS` have
/// passed since the last one.
pub fn progress_due(elapsed_ms: u128) -> (r: bool)
    ensures
        r == (elapsed_ms >= PROGRESS_INTERVAL_MS),
{
    elapsed_ms >= PROGRESS_INTERVAL_MS as u128
}

/// Seconds left at `speed_bps` bytes per second for the bytes not yet
/// copied (rounded down); 0 when the speed is 0 or everything is copied.
pub open spec fn eta_spec(total_bytes: u64, copied_bytes: u64, speed_bps: u64) -> u64 {
    if speed_bps > 0 {
        let remaining: int = if total_bytes >= copied_bytes {
            total_bytes - copied_bytes
        } else {
            0
        };
        (remaining / (speed_bps as int)) as u64
    } else {
        0
    }
}

pub fn eta_seconds(total_bytes: u64, copied_bytes: u64, speed_bps: u64) -> (r: u64)
    ensures
        r == eta_spec(total_bytes, copied_bytes, speed_bps),
{
    let remaining = if total_bytes >= copied_bytes {
        total_bytes - copied_bytes
    } else {
        0
    };
    if speed_bps > 0 {
        remaining / speed_bps
    } else {
        0
    }
}

// ---------------------------------------------------------------------
// Where a copy lands
// ---------------------------------------------------------------------

/// The folder a game copied from `source` lands in: the destination
/// library joined with the source folder's name (none when the source
/// path has no name).
pub fn copy_destination(source: &str, dest_library: &str) -> (r: Option<String>)
    ensures
        r matches Some(d) ==> file_name_of(source@) matches Some(n) && d@ == join(
            dest_library@,
            n,
        ),
        r is None ==> file_name_of(source@) is None,
{
    let s = chars_of(source);
    match file_name(&s) {
        Some(name) => {
            let d = chars_of(dest_library);
            Some(string_of(join_path(&d, &name)))
        },
        None => None,
    }
}

// ---------------------------------------------------------------------
// Removing a local copy
// ---------------------------------------------------------------------

/// What removing a local copy deletes: the game folder, and, when the
/// library's `steamapps` folder is known and the AppID is given, the
/// manifest and the download, workshop and compatibility data of the
/// AppID.
pub struct CleanupPlan {
    pub target: String,
    pub manifest: Option<String>,
    pub downloading: Option<String>,
    pub workshop: Option<String>,
    pub compatdata: Option<String>,
}

pub open spec fn opt_view(o: Option<String>) -> Option<Seq<char>> {
    match o {
        Some(s) => Some(s@),
        None => None,
    }
}

/// The Steam-side leftovers of `app_id` in a `steamapps` folder:
/// manifest, download cache, workshop content, compatibility data.
pub open spec fn leftovers(steamapps: Seq<char>, app_id: Seq<char>) -> (
    Seq<char>,
    Seq<char>,
    Seq<char>,
    Seq<char>,
) {
    (
        join(steamapps, manifest_name(app_id)),
        join(join(steamapps, "downloading"@), app_id),
        join(join(join(steamapps, "workshop"@), "content"@), app_id),
        join(join(steamapps, "compatdata"@), app_id),
    )
}

/// The plan for removing `folder_name` from the library whose common
/// folder is `library_path`.
pub fn cleanup_plan(library_path: &str, folder_name: &str, app_id: Option<&str>) -> (r:
    CleanupPlan)
    ensures
        r.target@ == join(library_path@, folder_name@),
        match (parent_of(library_path@), app_id) {
            (Some(sa), Some(id)) => {
                let (m, d, w, c) = leftovers(sa, id@);
                &&& opt_view(r.manifest) == Some(m)
                &&& opt_view(r.downloading) == Some(d)
                &&& opt_view(r.workshop) == Some(w)
                &&& opt_view(r.compatdata) == Some(c)
            },
            _ => r.manifest is None && r.downloading is None && r.workshop is None
                && r.compatdata is None,
        },
{
    let target = join_str(library_path, folder_name);
    let lib = chars_of(library_path);
    match (parent_path(&lib), app_id) {
        (Some(sa), Some(id)) => {
            let idc = chars_of(id);
            let mut mname = chars_of("appmanifest_");
            append_chars(&mut mname, &idc);
            let ext = chars_of(".acf");
            append_chars(&mut mname, &ext);
            let manifest = join_path(&sa, &mname);
            let downloading = join_path(&join_path(&sa, &chars_of("downloading")), &idc);
            let workshop = join_path(
                &join_path(&join_path(&sa, &chars_of("workshop")), &chars_of("content")),
                &idc,
            );
            let compatdata = join_path(&join_path(&sa, &chars_of("compatdata")), &idc);
            CleanupPlan {
                target,
                manifest: Some(string_of(manifest)),
                downloading: Some(string_of(downloading)),
                workshop: Some(string_of(workshop)),
                compatdata: Some(string_of(compatdata)),
            }
        },
        _ => CleanupPlan {
            target,
            manifest: None,
            downloading: None,
            workshop: None,
            compatdata: None,
        },
    }
}

proof fn lemma_join_extends(base: Seq<char>, name: Seq<char>)
    ensures
        has_prefix(join(base, name), base),
{
    let j = join(base, name);
    assert(j.take(base.len() as int) =~= base);
}

/// Removing a local copy only touches paths inside that library: the game
/// folder lies under the library's common folder, and every leftover
/// lies under the library's `steamapps` folder.
pub proof fn lemma_cleanup_stays_in_library(library_path: Seq<char>, folder_name: Seq<char>, app_id: Seq<char>)
    ensures
        has_prefix(join(library_path, folder_name), library_path),
        parent_of(library_path) matches Some(sa) ==> {
            let (m, d, w, c) = leftovers(sa, app_id);
            &&& has_prefix(m, sa)
            &&& has_prefix(d, sa)
            &&& has_prefix(w, sa)
            &&& has_prefix(c, sa)
        },
{
    lemma_join_extends(library_path, folder_name);
    if let Some(sa) = parent_of(library_path) {
        lemma_join_extends(sa, manifest_name(app_id));
        let dl = join(sa, "downloading"@);
        lemma_join_extends(sa, "downloading"@);
        lemma_join_extends(dl, app_id);
        lemma_prefix_trans(join(dl, app_id), dl, sa);
        let ws = join(sa, "workshop"@);
        let wc = join(ws, "content"@);
        lemma_join_extends(sa, "workshop"@);
        lemma_join_extends(ws, "content"@);
        lemma_join_extends(wc, app_id);
        lemma_prefix_trans(wc, ws, sa);
        lemma_prefix_trans(join(wc, app_id), wc, sa);
        let cd = join(sa, "compatdata"@);
        lemma_join_extends(sa, "compatdata"@);
        lemma_join_extends(cd, app_id);
        lemma_prefix_trans(join(cd, app_id), cd, sa);
    }
}

proof fn lemma_prefix_trans(a: Seq<char>, b: Seq<char>, c: Seq<char>)
    requires
        has_prefix(a, b),
        has_prefix(b, c),
    ensures
        has_prefix(a, c),
{
    assert(a.take(c.len() as int) =~= b.take(c.len() as int));
}

} // verus!
