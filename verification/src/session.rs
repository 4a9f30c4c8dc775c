//! The interactive session's decisions: what a run sets out to do from its
//! command line, and the rules that keep the background jobs (decoding a
//! track, choosing where to save a video, exporting it) from stepping on one
//! another. Dialogs, decoding, rendering and the encoder are the caller's
//! part; it reports what they answered and does what these functions say.

use vstd::prelude::*;
use crate::cli::{Args, ArgsView};
use crate::export::{settings_from, size_of_res, ExportSettings};
use crate::media::{audio_exts, is_audio_ext};
use crate::modes::{
    find_mode, first_answering, is_ui_tag, next_mode, next_mode_spec, start_mode, start_mode_spec,
    ui_tag,
    Category,
};
use crate::text::{append_chars, chars_of, lowercase, string_of, to_lowercase};

verus! {

// ---- what a run sets out to do -------------------------------------------------

/// Which theme a run switches to at start.
#[derive(Clone, Copy, PartialEq, Eq, Debug, Structural)]
pub enum ThemePick {
    /// The one `--theme` names.
    Given(usize),
    /// The one in the saved settings.
    Saved,
    /// None: the default stays (reproducible captures).
    Unchanged,
}

/// The course a run takes, decided from its command line before the window
/// opens.
#[derive(Clone, Copy, PartialEq, Eq, Debug, Structural)]
pub struct RunPlan {
    /// `--shot`: render a few frames off screen and save a PNG.
    pub headless: bool,
    /// The shot is of the interface (`--shot ui`).
    pub ui_shot: bool,
    /// A command-line render (`--export`, `--export-frame` or `--bench`).
    pub cli_export: bool,
    /// Captures meant to be reproducible: saved settings are not read.
    pub dev_capture: bool,
    /// Sound is played and settings are written back: an interactive run.
    pub interactive: bool,
    /// A mode runs from the first frame (otherwise the window starts blank).
    pub start_active: bool,
    /// The theme to switch to.
    pub theme: ThemePick,
    /// The export size and rate (`--res`, `--fps`; 1080 lines at 60 by default).
    pub export: ExportSettings,
    /// The mode the run starts on.
    pub mode: usize,
    /// `--mode` named no mode (the caller warns).
    pub mode_unmatched: bool,
}

/// The plan for a command line `a`, given the mode names: a shot is headless;
/// `--export`, `--export-frame` and `--bench` render from the command line; shots, frame dumps and benches
/// ignore the saved settings; only a run that is neither headless nor a
/// command-line render plays sound and saves settings; a mode runs from the
/// start unless the run is interactive without `--file`; `--theme` wins over
/// the saved theme, which reproducible captures skip.
pub open spec fn plan_spec(a: ArgsView, names: Seq<Seq<char>>) -> RunPlan {
    let headless = a.shot is Some;
    let cli_export = a.export is Some || a.export_frame is Some || a.bench is Some;
    let dev_capture = headless || a.export_frame is Some || a.bench is Some;
    let (w, h) = size_of_res(
        match a.res {
            Some(r) => r,
            None => 1080,
        },
    );
    let start = start_mode_spec(names, a.shot, a.export_frame, a.mode);
    RunPlan {
        headless,
        ui_shot: a.shot == Some(ui_tag()),
        cli_export,
        dev_capture,
        interactive: !(headless || cli_export),
        start_active: headless || cli_export || a.file is Some,
        theme: match a.theme {
            Some(t) => ThemePick::Given(t),
            None => if dev_capture {
                ThemePick::Unchanged
            } else {
                ThemePick::Saved
            },
        },
        export: ExportSettings {
            width: w,
            height: h,
            fps: match a.fps {
                Some(f) => f,
                None => 60,
            },
        },
        mode: start.0 as usize,
        mode_unmatched: start.1,
    }
}

/// What a command line makes of a run: a command-line render is exactly one
/// of `--export`, `--export-frame` or `--bench`; a run plays sound and writes
/// settings back only when it is neither a shot nor such a render, so a frame
/// dump, a bench or an export never does; a reproducible capture (a shot, a
/// frame dump, a bench) never reads saved settings nor switches to the saved
/// theme; a non-interactive run starts with a mode running, and an
/// interactive one only with `--file`; `--theme` always wins.
pub proof fn lemma_plan_roles(a: ArgsView, names: Seq<Seq<char>>)
    ensures
        ({
            let p = plan_spec(a, names);
            &&& p.cli_export == (a.export is Some || a.export_frame is Some || a.bench is Some)
            &&& p.headless == (a.shot is Some)
            &&& p.dev_capture == (a.shot is Some || a.export_frame is Some || a.bench is Some)
            &&& p.interactive == (a.shot is None && a.export is None && a.export_frame is None
                && a.bench is None)
            &&& p.dev_capture ==> !p.interactive && p.theme != ThemePick::Saved
            &&& !p.interactive ==> p.start_active
            &&& p.interactive ==> (p.start_active == a.file is Some)
            &&& (a.theme matches Some(t) ==> p.theme == ThemePick::Given(t))
            &&& (a.theme is None && !p.dev_capture ==> p.theme == ThemePick::Saved)
        }),
{
}

fn opt_str(o: &Option<String>) -> (r: Option<&str>)
    ensures
        match r {
            Some(s) => o is Some && s@ == o->0@,
            None => o is None,
        },
{
    match o {
        Some(s) => Some(s.as_str()),
        None => None,
    }
}

/// The plan for the command line `a`; see [`plan_spec`].
pub fn plan(a: &Args, names: &[String]) -> (p: RunPlan)
    ensures
        p == plan_spec(a@, names@.map_values(|n: String| n@)),
        p.cli_export == (a.export is Some || a.export_frame is Some || a.bench is Some),
        p.interactive == (a.shot is None && a.export is None && a.export_frame is None
            && a.bench is None),
{
    let headless = a.shot.is_some();
    let ui_shot = match &a.shot {
        Some(s) => is_ui_tag(s.as_str()),
        None => false,
    };
    let cli_export = a.export.is_some() || a.export_frame.is_some() || a.bench.is_some();
    let dev_capture = headless || a.export_frame.is_some() || a.bench.is_some();
    let theme = match a.theme {
        Some(t) => ThemePick::Given(t),
        None => if dev_capture {
            ThemePick::Unchanged
        } else {
            ThemePick::Saved
        },
    };
    let res = match a.res {
        Some(r) => r,
        None => 1080,
    };
    let fps = match a.fps {
        Some(f) => f,
        None => 60,
    };
    let shot = opt_str(&a.shot);
    let frame = opt_str(&a.export_frame);
    let mode = opt_str(&a.mode);
    let (m, unmatched) = start_mode(names, shot, frame, mode);
    proof {
        assert(crate::modes::opt_text(shot) == a@.shot);
        assert(crate::modes::opt_text(frame) == a@.export_frame);
        assert(crate::modes::opt_text(mode) == a@.mode);
    }
    RunPlan {
        headless,
        ui_shot,
        cli_export,
        dev_capture,
        interactive: !(headless || cli_export),
        start_active: headless || cli_export || a.file.is_some(),
        theme,
        export: settings_from(res, fps),
        mode: m,
        mode_unmatched: unmatched,
    }
}

// ---- background jobs ----------------------------------------------------------

/// How a track decode ended, as the caller heard it.
#[derive(Clone, Copy, PartialEq, Eq, Debug, Structural)]
pub enum LoadOutcome {
    /// The track decoded.
    Loaded,
    /// Decoding failed.
    Failed,
    /// The file dialog was closed without a choice.
    Cancelled,
    /// The decoding thread went away without answering.
    Lost,
}

/// What to do with a finished decode.
#[derive(Clone, Copy, PartialEq, Eq, Debug, Structural)]
pub enum LoadStep {
    /// Play the new track: restart, reset the modes, remember it in the recents.
    Install,
    /// Throw the track away (an export is running) and say so.
    Discard,
    /// Tell the user the file could not be opened.
    Report,
    /// Nothing to do.
    Nothing,
}

/// How the save dialog of an export ended.
#[derive(Clone, Copy, PartialEq, Eq, Debug, Structural)]
pub enum SaveAnswer {
    /// A file was chosen.
    Chosen,
    /// The dialog was cancelled.
    Cancelled,
    /// The dialog's thread went away without answering.
    Lost,
}

/// What to do with the files dropped on the window.
#[derive(Clone, Copy, PartialEq, Eq, Debug, Structural)]
pub enum DropStep {
    /// Decode the dropped file at this index.
    Load(usize),
    /// Nothing dropped is audio: tell the user which files are.
    Complain,
    /// Nothing to do.
    Ignore,
}

/// The interactive session: which background job runs, whether a mode is
/// running, which mode is selected, and the export settings waiting for the
/// save dialog.
#[derive(Clone, Copy, PartialEq, Eq, Debug, Structural)]
pub struct Session {
    /// A track is being chosen and decoded.
    pub loading: bool,
    /// The save dialog of an export is open.
    pub choosing_save: bool,
    /// A video export is running.
    pub exporting: bool,
    /// A mode runs (the window starts blank until something starts one).
    pub active: bool,
    /// The selected mode.
    pub sel: usize,
    /// The settings of the export whose save dialog is open.
    pub pending: Option<ExportSettings>,
}

impl Session {
    /// Some background job runs.
    pub open spec fn busy(self) -> bool {
        self.loading || self.choosing_save || self.exporting
    }

    /// At most one background job runs at a time, and an open save dialog has
    /// its export settings.
    pub open spec fn wf(self) -> bool {
        &&& !(self.loading && self.choosing_save)
        &&& !(self.loading && self.exporting)
        &&& !(self.choosing_save && self.exporting)
        &&& self.choosing_save ==> self.pending is Some
    }

    /// A session with no job running, on mode `sel`.
    pub fn new(active: bool, sel: usize) -> (s: Session)
        ensures
            s.wf(),
            s == (Session {
                loading: false,
                choosing_save: false,
                exporting: false,
                active,
                sel,
                pending: None,
            }),
    {
        Session { loading: false, choosing_save: false, exporting: false, active, sel, pending: None }
    }

    /// Whether some background job runs (a new one is then refused).
    pub fn is_busy(&self) -> (b: bool)
        ensures
            b == self.busy(),
    {
        self.loading || self.choosing_save || self.exporting
    }

    /// A track was asked for (the open dialog, a recent file, a drop): the
    /// decode starts only when no job runs. Says whether it starts.
    pub fn request_load(&mut self) -> (started: bool)
        requires
            old(self).wf(),
        ensures
            final(self).wf(),
            started == !old(self).busy(),
            *final(self) == if started {
                Session { loading: true, ..*old(self) }
            } else {
                *old(self)
            },
    {
        if self.is_busy() {
            false
        } else {
            self.loading = true;
            true
        }
    }

    /// The decode finished as `o`: a decoded track is played, unless an export
    /// runs; a failure is reported. The load job is over either way, and a
    /// played track starts the visualizer.
    pub fn load_landed(&mut self, o: LoadOutcome) -> (step: LoadStep)
        requires
            old(self).wf(),
            old(self).loading,
        ensures
            final(self).wf(),
            step == match o {
                LoadOutcome::Loaded => if old(self).exporting {
                    LoadStep::Discard
                } else {
                    LoadStep::Install
                },
                LoadOutcome::Failed => LoadStep::Report,
                _ => LoadStep::Nothing,
            },
            *final(self) == (Session {
                loading: false,
                active: old(self).active || step == LoadStep::Install,
                ..*old(self)
            }),
    {
        self.loading = false;
        match o {
            LoadOutcome::Loaded => {
                if self.exporting {
                    LoadStep::Discard
                } else {
                    self.active = true;
                    LoadStep::Install
                }
            },
            LoadOutcome::Failed => LoadStep::Report,
            _ => LoadStep::Nothing,
        }
    }

    /// An export with settings `s` was asked for: the save dialog opens only
    /// when no job runs, and `s` waits for its answer. Says whether it opens.
    pub fn request_export(&mut self, s: ExportSettings) -> (opened: bool)
        requires
            old(self).wf(),
        ensures
            final(self).wf(),
            opened == !old(self).busy(),
            *final(self) == if opened {
                Session { choosing_save: true, pending: Some(s), ..*old(self) }
            } else {
                *old(self)
            },
    {
        if self.is_busy() {
            false
        } else {
            self.choosing_save = true;
            self.pending = Some(s);
            true
        }
    }

    /// The save dialog answered `a`. On a chosen file the export to start is
    /// returned: the waiting settings, or `fallback` where none wait. A
    /// cancelled dialog also drops the waiting settings.
    pub fn save_answered(&mut self, a: SaveAnswer, fallback: ExportSettings) -> (start: Option<
        ExportSettings,
    >)
        requires
            old(self).wf(),
            old(self).choosing_save,
        ensures
            final(self).wf(),
            start == match a {
                SaveAnswer::Chosen => Some(
                    match old(self).pending {
                        Some(p) => p,
                        None => fallback,
                    },
                ),
                _ => None,
            },
            *final(self) == (Session {
                choosing_save: false,
                pending: match a {
                    SaveAnswer::Lost => old(self).pending,
                    _ => None,
                },
                ..*old(self)
            }),
    {
        self.choosing_save = false;
        match a {
            SaveAnswer::Chosen => {
                let s = match self.pending {
                    Some(p) => p,
                    None => fallback,
                };
                self.pending = None;
                Some(s)
            },
            SaveAnswer::Cancelled => {
                self.pending = None;
                None
            },
            SaveAnswer::Lost => None,
        }
    }

    /// The export chosen in the save dialog was started (`ok`) or could not
    /// be (reported by the caller).
    pub fn export_began(&mut self, ok: bool)
        requires
            old(self).wf(),
            !old(self).busy(),
        ensures
            final(self).wf(),
            *final(self) == (Session { exporting: ok, ..*old(self) }),
    {
        self.exporting = ok;
    }

    /// The export finished, failed or was cancelled.
    pub fn export_ended(&mut self)
        requires
            old(self).wf(),
        ensures
            final(self).wf(),
            *final(self) == (Session { exporting: false, ..*old(self) }),
    {
        self.exporting = false;
    }

    /// Mode `i` was picked: it is selected and starts running.
    pub fn select(&mut self, i: usize)
        requires
            old(self).wf(),
        ensures
            final(self).wf(),
            *final(self) == (Session { sel: i, active: true, ..*old(self) }),
    {
        self.sel = i;
        self.active = true;
    }

    /// Play or pause was pressed: on a blank launch this starts the
    /// visualizer too.
    pub fn play_pressed(&mut self)
        requires
            old(self).wf(),
        ensures
            final(self).wf(),
            *final(self) == (Session { active: true, ..*old(self) }),
    {
        self.active = true;
    }

    /// The mode Tab selects: the next one in the picker's order while a mode
    /// runs, the selected one on a blank window.
    pub fn tab_target(&self, cats: &[Category]) -> (r: usize)
        requires
            cats@.len() > 0,
        ensures
            r == if self.active {
                next_mode_spec(cats@, self.sel as int)
            } else {
                self.sel as int
            },
    {
        if self.active {
            next_mode(cats, self.sel)
        } else {
            self.sel
        }
    }

    /// Files were dropped on the window, with the extensions in `exts` (none
    /// for a file without a path or an extension): while no job runs, the
    /// first audio file among them is decoded, and a drop holding none is
    /// complained about; while a job runs, drops are ignored.
    pub fn drop_target(&self, exts: &[Option<String>]) -> (r: DropStep)
        ensures
            r == drop_spec(self.busy(), exts@.map_values(|e: Option<String>| opt_string(e))),
    {
        let ghost es = exts@.map_values(|e: Option<String>| opt_string(e));
        if self.is_busy() {
            return DropStep::Ignore;
        }
        let mut i: usize = 0;
        while i < exts.len()
            invariant
                i <= exts@.len(),
                es == exts@.map_values(|e: Option<String>| opt_string(e)),
                first_audio(es, i as nat) is None,
                !self.busy(),
            decreases exts.len() - i,
        {
            assert(es[i as int] == opt_string(exts@[i as int]));
            match &exts[i] {
                Some(e) => {
                    if is_audio_ext(e.as_str()) {
                        proof {
                            assert(audio_file(es[i as int]));
                            lemma_first_audio_stays(es, (i + 1) as nat, es.len());
                        }
                        return DropStep::Load(i);
                    }
                },
                None => {},
            }
            i += 1;
        }
        if exts.len() == 0 {
            DropStep::Ignore
        } else {
            DropStep::Complain
        }
    }
}

/// An optional string as optional text.
pub open spec fn opt_string(o: Option<String>) -> Option<Seq<char>> {
    match o {
        Some(s) => Some(s@),
        None => None,
    }
}

/// Whether a file with the optional extension `e` is one the player opens.
pub open spec fn audio_file(e: Option<Seq<char>>) -> bool {
    match e {
        Some(x) => audio_exts().contains(lowercase(x)),
        None => false,
    }
}

/// The first of the first `n` dropped files that is audio.
pub open spec fn first_audio(exts: Seq<Option<Seq<char>>>, n: nat) -> Option<int>
    decreases n,
{
    if n == 0 {
        None
    } else {
        match first_audio(exts, (n - 1) as nat) {
            Some(i) => Some(i),
            None => if audio_file(exts[n - 1]) {
                Some(n - 1)
            } else {
                None
            },
        }
    }
}

proof fn lemma_first_audio_stays(exts: Seq<Option<Seq<char>>>, n: nat, m: nat)
    requires
        n <= m,
        first_audio(exts, n) is Some,
    ensures
        first_audio(exts, m) == first_audio(exts, n),
    decreases m - n,
{
    if n < m {
        lemma_first_audio_stays(exts, n, (m - 1) as nat);
    }
}

/// What a drop of files with extensions `exts` does; see
/// [`Session::drop_target`].
pub open spec fn drop_spec(busy: bool, exts: Seq<Option<Seq<char>>>) -> DropStep {
    if busy {
        DropStep::Ignore
    } else {
        match first_audio(exts, exts.len()) {
            Some(i) => DropStep::Load(i as usize),
            None => if exts.len() == 0 {
                DropStep::Ignore
            } else {
                DropStep::Complain
            },
        }
    }
}

// ---- command-line captures ------------------------------------------------------

/// `0, 1, .., n - 1`.
pub open spec fn all_modes(n: nat) -> Seq<usize> {
    Seq::new(n, |i: int| i as usize)
}

/// The modes `--bench` times for `tag`: every mode for an empty tag; else
/// the first answering to it, or every mode when none does.
pub open spec fn bench_spec(names: Seq<Seq<char>>, tag: Seq<char>) -> Seq<usize> {
    if tag.len() == 0 {
        all_modes(names.len())
    } else {
        match first_answering(names, tag, names.len()) {
            Some(i) => seq![i as usize],
            None => all_modes(names.len()),
        }
    }
}

fn every_mode(n: usize) -> (r: Vec<usize>)
    ensures
        r@ == all_modes(n as nat),
{
    let mut r: Vec<usize> = Vec::new();
    let mut i: usize = 0;
    while i < n
        invariant
            i <= n,
            r@ == all_modes(i as nat),
        decreases n - i,
    {
        r.push(i);
        assert(r@ =~= all_modes((i + 1) as nat));
        i += 1;
    }
    r
}

/// The modes `--bench` times; see [`bench_spec`].
pub fn bench_selection(names: &[String], tag: &str) -> (r: Vec<usize>)
    ensures
        r@ == bench_spec(names@.map_values(|n: String| n@), tag@),
{
    let t = chars_of(tag);
    if t.len() == 0 {
        return every_mode(names.len());
    }
    match find_mode(names, tag) {
        Some(i) => {
            let mut r: Vec<usize> = Vec::new();
            r.push(i);
            assert(r@ =~= seq![i]);
            r
        },
        None => every_mode(names.len()),
    }
}

/// `s` with each space turned into a dash.
pub open spec fn dashed(s: Seq<char>) -> Seq<char> {
    s.map_values(|c: char| if c == ' ' { '-' } else { c })
}

/// The file a headless shot is saved to: `shot-ui.png` for the interface,
/// else `shot-` and the mode's name in lower case with dashes for spaces,
/// then `.png`.
pub open spec fn shot_name_spec(ui: bool, name: Seq<char>) -> Seq<char> {
    if ui {
        "shot-ui.png"@
    } else {
        "shot-"@ + dashed(lowercase(name)) + ".png"@
    }
}

/// The file name for a headless shot; see [`shot_name_spec`].
pub fn shot_name(ui: bool, name: &str) -> (r: String)
    ensures
        r@ == shot_name_spec(ui, name@),
{
    if ui {
        let c = chars_of("shot-ui.png");
        return string_of(&c);
    }
    let lower = to_lowercase(name);
    let l = chars_of(lower.as_str());
    let mut out = chars_of("shot-");
    let ghost start = out@;
    let mut i: usize = 0;
    while i < l.len()
        invariant
            i <= l@.len(),
            out@ == start + dashed(l@.take(i as int)),
        decreases l.len() - i,
    {
        let c = l[i];
        out.push(if c == ' ' { '-' } else { c });
        assert(dashed(l@.take(i + 1)) =~= dashed(l@.take(i as int)).push(
            if c == ' ' { '-' } else { c },
        ));
        i += 1;
    }
    assert(l@.take(l@.len() as int) == l@);
    let tail = chars_of(".png");
    append_chars(&mut out, &tail);
    string_of(&out)
}

// ---- laws -------------------------------------------------------------------------

/// At most one background job runs at a time: while a track decodes no save
/// dialog is open and no export runs, so a decoded track never replaces the
/// one an export is rendering; every step above keeps this.
pub proof fn lemma_one_job_at_a_time(s: Session)
    requires
        s.wf(),
    ensures
        s.loading ==> !s.exporting && !s.choosing_save,
        s.exporting ==> !s.loading && !s.choosing_save,
        s.choosing_save ==> !s.loading && !s.exporting,
{
}

} // verus!
