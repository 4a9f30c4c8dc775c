use cherry::color::{rgb_of, theme_slot};
use cherry::media::{audio_extensions, fmt_clock, is_audio_ext};

#[test]
fn audio_extensions_fold_case() {
    for e in ["mp3", "wav", "flac", "ogg", "m4a", "MP3", "Flac"] {
        assert!(is_audio_ext(e), "{e}");
    }
    for e in ["mp4", "txt", "", "mp33", "fla"] {
        assert!(!is_audio_ext(e), "{e}");
    }
}

#[test]
fn clock_reads_minutes_and_seconds() {
    assert_eq!(fmt_clock(0), "0:00");
    assert_eq!(fmt_clock(5), "0:05");
    assert_eq!(fmt_clock(65), "1:05");
    assert_eq!(fmt_clock(600), "10:00");
    assert_eq!(fmt_clock(3725), "62:05");
}

#[test]
fn hex_colors_split_into_bytes() {
    assert_eq!(rgb_of(0x0b1014), [0x0b, 0x10, 0x14]);
    assert_eq!(rgb_of(0x1ffffff), [0xff, 0xff, 0xff]);
}

#[test]
fn theme_requests_past_the_end_pick_custom() {
    assert_eq!(theme_slot(2, 6), 2);
    assert_eq!(theme_slot(6, 6), 6);
    assert_eq!(theme_slot(99, 6), 6);
}

#[test]
fn the_dialog_offers_every_audio_extension() {
    assert_eq!(audio_extensions(), vec!["mp3", "wav", "flac", "ogg", "m4a"]);
    for e in audio_extensions() {
        assert!(is_audio_ext(&e));
    }
}
