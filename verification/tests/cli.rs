use cherry::cli::parse_args;

fn args(v: &[&str]) -> Vec<String> {
    v.iter().map(|s| s.to_string()).collect()
}

#[test]
fn empty_command_line_asks_nothing() {
    let a = parse_args(&args(&[]));
    assert_eq!(a.shot, None);
    assert_eq!(a.file, None);
    assert_eq!(a.mode, None);
    assert_eq!(a.theme, None);
    assert!(!a.help);
    assert!(a.unknown.is_empty());
}

#[test]
fn valued_flags_take_the_next_argument() {
    let a = parse_args(&args(&["--file", "song.mp3", "--export", "out.mp4", "--gen-wav", "t.wav"]));
    assert_eq!(a.file.as_deref(), Some("song.mp3"));
    assert_eq!(a.export.as_deref(), Some("out.mp4"));
    assert_eq!(a.gen_wav.as_deref(), Some("t.wav"));
    // Even a flag-looking value is taken.
    let a = parse_args(&args(&["--file", "--mode"]));
    assert_eq!(a.file.as_deref(), Some("--mode"));
    assert_eq!(a.mode, None);
    // A trailing valued flag gets nothing.
    let a = parse_args(&args(&["--file"]));
    assert_eq!(a.file, None);
}

#[test]
fn optional_values_stop_at_flags() {
    let a = parse_args(&args(&["--shot", "--mode", "surf"]));
    assert_eq!(a.shot.as_deref(), Some("breakout"));
    assert_eq!(a.mode.as_deref(), Some("surf"));
    let a = parse_args(&args(&["--shot", "ui"]));
    assert_eq!(a.shot.as_deref(), Some("ui"));
    let a = parse_args(&args(&["--export-frame"]));
    assert_eq!(a.export_frame.as_deref(), Some("breakout"));
    let a = parse_args(&args(&["--bench"]));
    assert_eq!(a.bench.as_deref(), Some(""));
    let a = parse_args(&args(&["--bench", "star"]));
    assert_eq!(a.bench.as_deref(), Some("star"));
    let a = parse_args(&args(&["--mode"]));
    assert_eq!(a.mode, None);
}

#[test]
fn numbers_parse_or_are_dropped() {
    let a = parse_args(&args(&["--theme", "3", "--res", "1440", "--fps", "30"]));
    assert_eq!(a.theme, Some(3));
    assert_eq!(a.res, Some(1440));
    assert_eq!(a.fps, Some(30));
    let a = parse_args(&args(&["--theme", "x", "--res", "-1", "--fps", "+60"]));
    assert_eq!(a.theme, None);
    assert_eq!(a.res, None);
    assert_eq!(a.fps, Some(60));
    let a = parse_args(&args(&["--res", "99999999999"]));
    assert_eq!(a.res, None);
    // A later flag overrides an earlier one.
    let a = parse_args(&args(&["--theme", "1", "--theme", "2"]));
    assert_eq!(a.theme, Some(2));
}

#[test]
fn help_stops_reading_and_unknown_flags_are_reported() {
    let a = parse_args(&args(&["--wat", "plain", "-x", "--help", "--file", "a"]));
    assert!(a.help);
    assert_eq!(a.unknown, vec!["--wat".to_string(), "-x".to_string()]);
    assert_eq!(a.file, None);
    let a = parse_args(&args(&["-h"]));
    assert!(a.help);
}
