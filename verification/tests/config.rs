use cherry::config::{same_path_sep, same_path_with, Config, MAX_RECENT};

#[test]
fn config_round_trips() {
    let mut c = Config {
        theme: 4,
        volume: 620,
        sidebar: false,
        export_res: 1440,
        export_fps: 30,
        custom: [[1, 2, 3], [4, 5, 6], [7, 8, 9], [250, 251, 252]],
        recent: Vec::new(),
    };
    c.touch_recent("C:/music/a song.mp3");
    c.touch_recent("C:/music/b.flac");
    c.touch_recent("C:/music/a song.mp3"); // dedupe + move to front
    let back = Config::from_text(&c.to_text());
    assert!(back == c);
    assert_eq!(back.recent.len(), 2);
    assert_eq!(back.recent[0], "C:/music/a song.mp3".to_string());
}

#[test]
fn config_ignores_junk_and_clamps() {
    let c = Config::from_text(
        "theme=99\nvolume=7.5\nexport_res=123\nexport_fps=45\ncustom=zz,00,11\nwat\nx=y\n",
    );
    assert_eq!(c.theme, 99); // clamped later by the theme selection
    assert!(c.volume <= 1000);
    assert_eq!(c.export_res, 1080);
    assert_eq!(c.export_fps, 60);
    assert_eq!(c.custom, Config::default().custom); // partial custom= rejected
    // Non-finite volume is rejected outright.
    assert_eq!(Config::from_text("volume=NaN\n").volume, 850);
}

#[test]
fn recents_dedupe_case_insensitively_on_windows() {
    let mut c = Config::default();
    c.touch_recent("C:/Music/Song.mp3");
    c.touch_recent("c:/music/song.mp3");
    if std::path::MAIN_SEPARATOR == '\\' {
        assert_eq!(c.recent.len(), 1);
    }
}

#[test]
fn default_settings() {
    let c = Config::default();
    assert_eq!(c.theme, 0);
    assert_eq!(c.volume, 850);
    assert!(c.sidebar);
    assert_eq!(c.export_res, 1080);
    assert_eq!(c.export_fps, 60);
    assert_eq!(c.custom, [[0x0b, 0x10, 0x14], [0x3f, 0x9a, 0xa0], [0xe0, 0x8a, 0x3c], [0xec, 0xe3, 0xcf]]);
    assert!(c.recent.is_empty());
}

#[test]
fn default_settings_text_is_exact() {
    let t = Config::default().to_text();
    assert_eq!(
        t,
        "theme=0\nvolume=0.850\nsidebar=1\nexport_res=1080\nexport_fps=60\ncustom=0b1014,3f9aa0,e08a3c,ece3cf\n"
    );
}

#[test]
fn text_with_recents_is_exact() {
    let mut c = Config::default();
    c.touch_recent_with("/a.mp3", false);
    c.touch_recent_with("/b.wav", false);
    let t = c.to_text();
    assert!(t.ends_with("recent=/b.wav\nrecent=/a.mp3\n"));
}

#[test]
fn volume_values_read_as_rust_floats() {
    let v = |s: &str| Config::from_text(&format!("volume={s}\n")).volume;
    assert_eq!(v("0.5"), 500);
    assert_eq!(v("  0.25  "), 250);
    assert_eq!(v("1"), 1000);
    assert_eq!(v("7.5"), 1000);
    assert_eq!(v("-0.5"), 0);
    assert_eq!(v("0.0005"), 1); // halves round up
    assert_eq!(v("0.0004"), 0);
    assert_eq!(v("5e-1"), 500);
    assert_eq!(v(".75"), 750);
    assert_eq!(v("+0.3"), 300);
    assert_eq!(v("1e39"), 850); // overflows f32: infinite, rejected
    assert_eq!(v("inf"), 850);
    assert_eq!(v("nan"), 850);
    assert_eq!(v("abc"), 850);
    assert_eq!(v("-1e39"), 850); // negative infinity is rejected too
    assert_eq!(v("-0"), 0);
    assert_eq!(v("1e-50"), 0); // underflows to zero, which is finite
    assert_eq!(v("INFINITY"), 850);
    assert_eq!(v("-NaN"), 850);
    assert_eq!(v("1."), 1000);
    assert_eq!(v("0.0004999"), 0);
    assert_eq!(v("3.4028235e38"), 1000); // the largest finite f32
    assert_eq!(v("."), 850);
    assert_eq!(v("e5"), 850);
    assert_eq!(v(""), 850);
}

#[test]
fn sidebar_is_off_only_for_zero() {
    assert!(!Config::from_text("sidebar=0\n").sidebar);
    assert!(!Config::from_text("sidebar= 0 \n").sidebar);
    assert!(Config::from_text("sidebar=1\n").sidebar);
    assert!(Config::from_text("sidebar=no\n").sidebar);
}

#[test]
fn export_choices_are_whitelisted() {
    for r in [720u32, 1080, 1440, 2160] {
        assert_eq!(Config::from_text(&format!("export_res={r}\n")).export_res, r);
    }
    assert_eq!(Config::from_text("export_res=800\n").export_res, 1080);
    assert_eq!(Config::from_text("export_fps=30\n").export_fps, 30);
    assert_eq!(Config::from_text("export_fps=24\n").export_fps, 60);
    assert_eq!(Config::from_text("export_fps=x\n").export_fps, 60);
}

#[test]
fn theme_keeps_default_on_junk() {
    assert_eq!(Config::from_text("theme=3\n").theme, 3);
    assert_eq!(Config::from_text("theme=-1\n").theme, 0);
    assert_eq!(Config::from_text("theme=+2\n").theme, 2);
    assert_eq!(Config::from_text(" theme = 5 \r\n").theme, 5);
}

#[test]
fn custom_colors_need_all_four() {
    let c = Config::from_text("custom=010203,0a0b0c,ffffff,000000\n");
    assert_eq!(c.custom, [[1, 2, 3], [10, 11, 12], [255, 255, 255], [0, 0, 0]]);
    let c = Config::from_text("custom=010203,0a0b0c,ffffff\n");
    assert_eq!(c.custom, Config::default().custom);
    // Extra fields past the fourth are ignored.
    let c = Config::from_text("custom=010203,0a0b0c,ffffff,000000,zz\n");
    assert_eq!(c.custom, [[1, 2, 3], [10, 11, 12], [255, 255, 255], [0, 0, 0]]);
    // Bits above the low 24 are dropped.
    let c = Config::from_text("custom=1010203,0,0,0\n");
    assert_eq!(c.custom[0], [1, 2, 3]);
}

#[test]
fn recents_are_capped_on_read() {
    let mut t = String::new();
    for i in 0..12 {
        t.push_str(&format!("recent= /m/{i}.mp3 \n"));
    }
    let c = Config::from_text(&t);
    assert_eq!(c.recent.len(), MAX_RECENT);
    assert_eq!(c.recent[0], "/m/0.mp3");
    assert_eq!(c.recent[7], "/m/7.mp3");
}

#[test]
fn touch_recent_moves_to_front_and_caps() {
    let mut c = Config::default();
    for i in 0..10 {
        c.touch_recent_with(&format!("/m/{i}.mp3"), false);
    }
    assert_eq!(c.recent.len(), MAX_RECENT);
    assert_eq!(c.recent[0], "/m/9.mp3");
    assert_eq!(c.recent[7], "/m/2.mp3");
    c.touch_recent_with("/m/5.mp3", false);
    assert_eq!(c.recent.len(), MAX_RECENT);
    assert_eq!(c.recent[0], "/m/5.mp3");
    assert_eq!(c.recent.iter().filter(|r| r.as_str() == "/m/5.mp3").count(), 1);
}

#[test]
fn folding_case_merges_paths() {
    let mut c = Config::default();
    c.touch_recent_with("C:/Music/Song.mp3", true);
    c.touch_recent_with("c:/music/song.mp3", true);
    assert_eq!(c.recent, vec!["c:/music/song.mp3".to_string()]);
    let mut c = Config::default();
    c.touch_recent_with("C:/Music/Song.mp3", false);
    c.touch_recent_with("c:/music/song.mp3", false);
    assert_eq!(c.recent.len(), 2);
    assert!(same_path_with("A/B", "a/b", true));
    assert!(!same_path_with("A/B", "a/b", false));
}

#[test]
fn paths_compare_by_component() {
    for w in [false, true] {
        assert!(same_path_with("/m//a.mp3", "/m/a.mp3", w));
        assert!(same_path_with("a/./b", "a/b", w));
        assert!(same_path_with("a/b/", "a/b", w));
        assert!(same_path_with("a/.", "a", w));
        assert!(!same_path_with("./a", "a", w));
        assert!(!same_path_with("/a", "a", w));
        assert!(!same_path_with("a/../b", "b", w));
        assert!(same_path_with("", "", w));
    }
    assert!(same_path_with("C:\\Music\\A.mp3", "c:/music/a.mp3", true));
    assert!(!same_path_with("a\\b", "a/b", false));
    assert!(same_path_sep("a\\B", "a/b", '\\'));
    assert!(!same_path_sep("a\\B", "a/b", '/'));
    let mut c = Config::default();
    c.touch_recent_sep("C:/M/A.mp3", '\\');
    c.touch_recent_sep("c:\\m\\a.mp3", '\\');
    assert_eq!(c.recent.len(), 1);
}

#[test]
fn touching_drops_the_same_path_spelled_otherwise() {
    let mut c = Config::default();
    c.touch_recent_with("/m//a.mp3", false);
    c.touch_recent_with("/m/a.mp3", false);
    assert_eq!(c.recent, vec!["/m/a.mp3".to_string()]);
}

#[test]
fn lines_without_equals_are_skipped() {
    let c = Config::from_text("theme\nvolume 0.1\ntheme=2");
    assert_eq!(c.theme, 2);
    assert_eq!(c.volume, 850);
}

#[test]
fn missing_recent_files_are_forgotten() {
    let mut c = Config::default();
    for p in ["/a", "/b", "/c"] {
        c.touch_recent_with(p, false);
    }
    // recent is now /c, /b, /a
    c.keep_existing(&[true, false, true]);
    assert_eq!(c.recent, vec!["/c".to_string(), "/a".to_string()]);
}

#[test]
fn every_volume_reads_back_as_written() {
    for v in (0..=1000u16).step_by(7).chain([1000]) {
        let c = Config { volume: v, ..Config::default() };
        let back = Config::from_text(&c.to_text());
        assert_eq!(back.volume, v);
        assert!(back == c);
    }
}

#[test]
fn unknown_lines_anywhere_change_nothing() {
    let base = "theme=2\nvolume=0.300\n";
    let with_junk = "theme=2\nfuture_key=1\nvolume=0.300\nnot a setting\n";
    assert!(Config::from_text(base) == Config::from_text(with_junk));
    assert!(Config::from_text("") == Config::default());
    // as the last line, with no newline after it
    assert!(Config::from_text("theme=2\nx=y") == Config::from_text("theme=2"));
    assert!(Config::from_text("theme=2\nno key") == Config::from_text("theme=2"));
    // lines ending in '\r' too
    assert!(Config::from_text("theme=2\r\nx=y\r") == Config::from_text("theme=2\r"));
    assert_eq!(Config::from_text("theme=2\r").theme, 2);
}

#[test]
fn saving_what_was_read_loses_nothing() {
    let texts = [
        "theme=7\nvolume=0.4567\nsidebar=0\nexport_res=2160\ncustom=1,2,3,4\nrecent= a \nrecent=b\n",
        "garbage\n\n==\nvolume=-3\n",
        "",
    ];
    for t in texts {
        let c = Config::from_text(t);
        assert!(Config::from_text(&c.to_text()) == c);
    }
}
