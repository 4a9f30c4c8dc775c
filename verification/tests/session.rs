use cherry::cli::parse_args;
use cherry::export::{settings_from, ExportSettings};
use cherry::modes::Category;
use cherry::session::{
    bench_selection, plan, shot_name, DropStep, LoadOutcome, LoadStep, SaveAnswer, Session,
    ThemePick,
};

fn names() -> Vec<String> {
    ["Breakout", "Beat Surfer", "Spectrum", "Starfield"].iter().map(|s| s.to_string()).collect()
}

fn args(v: &[&str]) -> cherry::cli::Args {
    parse_args(&v.iter().map(|s| s.to_string()).collect::<Vec<_>>())
}

#[test]
fn interactive_launch_is_blank_and_persistent() {
    let p = plan(&args(&[]), &names());
    assert!(!p.headless && !p.cli_export && !p.dev_capture);
    assert!(p.interactive);
    assert!(!p.start_active);
    assert_eq!(p.theme, ThemePick::Saved);
    assert_eq!(p.export, settings_from(1080, 60));
    assert_eq!(p.mode, 0);
    assert!(!p.mode_unmatched);
}

#[test]
fn file_launch_starts_active() {
    let p = plan(&args(&["--file", "a.mp3", "--mode", "SPEC"]), &names());
    assert!(p.interactive && p.start_active);
    assert_eq!(p.mode, 2);
}

#[test]
fn shots_are_reproducible_captures() {
    let p = plan(&args(&["--shot", "star"]), &names());
    assert!(p.headless && !p.ui_shot && p.dev_capture && !p.interactive && p.start_active);
    assert_eq!(p.theme, ThemePick::Unchanged);
    assert_eq!(p.mode, 3);
    let p = plan(&args(&["--shot", "ui", "--theme", "2"]), &names());
    assert!(p.ui_shot);
    assert_eq!(p.theme, ThemePick::Given(2));
    assert_eq!(p.mode, 0);
}

#[test]
fn cli_export_reads_saved_theme() {
    let p = plan(&args(&["--export", "o.mp4", "--res", "720", "--fps", "30", "--mode", "zzz"]), &names());
    assert!(p.cli_export && !p.dev_capture && !p.interactive && p.start_active);
    assert_eq!(p.theme, ThemePick::Saved);
    assert_eq!(p.export, ExportSettings { width: 1280, height: 720, fps: 30 });
    assert_eq!(p.mode, 0);
    assert!(p.mode_unmatched);
    let p = plan(&args(&["--bench"]), &names());
    assert!(p.cli_export && p.dev_capture);
    assert_eq!(p.theme, ThemePick::Unchanged);
}

#[test]
fn one_job_at_a_time() {
    let mut s = Session::new(false, 0);
    assert!(!s.is_busy());
    assert!(s.request_load());
    assert!(!s.request_load());
    assert!(!s.request_export(settings_from(720, 30)));
    assert_eq!(s.load_landed(LoadOutcome::Loaded), LoadStep::Install);
    assert!(s.active);
    assert!(!s.is_busy());
    assert!(s.request_export(settings_from(720, 30)));
    assert!(!s.request_load());
    let start = s.save_answered(SaveAnswer::Chosen, settings_from(1080, 60));
    assert_eq!(start, Some(settings_from(720, 30)));
    s.export_began(true);
    assert!(s.exporting);
    assert!(!s.request_load());
    assert!(!s.request_export(settings_from(1080, 60)));
    s.export_ended();
    assert!(!s.is_busy());
}

#[test]
fn load_outcomes() {
    let mut s = Session::new(false, 2);
    s.request_load();
    assert_eq!(s.load_landed(LoadOutcome::Failed), LoadStep::Report);
    assert!(!s.active && !s.loading);
    s.request_load();
    assert_eq!(s.load_landed(LoadOutcome::Cancelled), LoadStep::Nothing);
    s.request_load();
    assert_eq!(s.load_landed(LoadOutcome::Lost), LoadStep::Nothing);
    assert!(!s.is_busy());
}

#[test]
fn save_dialog_answers() {
    let mut s = Session::new(true, 0);
    s.request_export(settings_from(1440, 60));
    assert_eq!(s.save_answered(SaveAnswer::Cancelled, settings_from(1080, 60)), None);
    assert_eq!(s.pending, None);
    s.request_export(settings_from(1440, 60));
    assert_eq!(s.save_answered(SaveAnswer::Lost, settings_from(1080, 60)), None);
    assert_eq!(s.pending, Some(settings_from(1440, 60)));
    assert!(!s.is_busy());
    s.export_began(false);
    assert!(!s.exporting);
}

#[test]
fn tab_and_play() {
    let cats = [Category::Visualizer, Category::Game];
    let mut s = Session::new(false, 0);
    assert_eq!(s.tab_target(&cats), 0);
    s.play_pressed();
    assert!(s.active);
    assert_eq!(s.tab_target(&cats), 1);
    s.select(1);
    assert_eq!(s.tab_target(&cats), 0);
}

#[test]
fn drops_pick_the_first_audio_file() {
    let s = Session::new(true, 0);
    let d = |v: &[Option<&str>]| v.iter().map(|e| e.map(|x| x.to_string())).collect::<Vec<_>>();
    assert_eq!(s.drop_target(&d(&[Some("txt"), None, Some("FLAC"), Some("mp3")])), DropStep::Load(2));
    assert_eq!(s.drop_target(&d(&[Some("txt"), None])), DropStep::Complain);
    assert_eq!(s.drop_target(&d(&[])), DropStep::Ignore);
    let mut busy = Session::new(true, 0);
    busy.request_load();
    assert_eq!(busy.drop_target(&d(&[Some("mp3")])), DropStep::Ignore);
}

#[test]
fn bench_picks_one_or_all() {
    let n = names();
    assert_eq!(bench_selection(&n, ""), vec![0, 1, 2, 3]);
    assert_eq!(bench_selection(&n, "spec"), vec![2]);
    assert_eq!(bench_selection(&n, "nope"), vec![0, 1, 2, 3]);
}

#[test]
fn shot_files_are_named_after_the_mode() {
    assert_eq!(shot_name(true, "Breakout"), "shot-ui.png");
    assert_eq!(shot_name(false, "Beat Surfer"), "shot-beat-surfer.png");
    assert_eq!(shot_name(false, "Rail  Shooter"), "shot-rail--shooter.png");
}
