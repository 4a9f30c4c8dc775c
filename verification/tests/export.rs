use cherry::export::{
    encoder_outcome, ffmpeg_args, flip_vertical, opaque, settings_from, wav_bytes, EncoderReply,
    ExportProgress, ExportSettings,
};

#[test]
fn resolution_shorthands() {
    assert_eq!(settings_from(720, 30), ExportSettings { width: 1280, height: 720, fps: 30 });
    assert_eq!(settings_from(1080, 60), ExportSettings { width: 1920, height: 1080, fps: 60 });
    assert_eq!(settings_from(1440, 60), ExportSettings { width: 2560, height: 1440, fps: 60 });
    assert_eq!(settings_from(2160, 24), ExportSettings { width: 3840, height: 2160, fps: 24 });
    assert_eq!(settings_from(999, 60), ExportSettings { width: 1920, height: 1080, fps: 60 });
}

#[test]
fn flip_reverses_rows() {
    // 1 pixel wide, 3 rows.
    let img = vec![1, 1, 1, 1, 2, 2, 2, 2, 3, 3, 3, 3];
    let out = flip_vertical(img.clone(), 1, 3);
    assert_eq!(out, vec![3, 3, 3, 3, 2, 2, 2, 2, 1, 1, 1, 1]);
    assert_eq!(flip_vertical(out, 1, 3), img);
}

#[test]
fn flip_keeps_short_or_empty_input() {
    let img = vec![9u8; 6];
    assert_eq!(flip_vertical(img.clone(), 1, 3), img);
    assert_eq!(flip_vertical(img.clone(), 0, 3), img);
    // Bytes past the h rows are dropped.
    let img = vec![1, 1, 1, 1, 2, 2, 2, 2, 7];
    assert_eq!(flip_vertical(img, 1, 2), vec![2, 2, 2, 2, 1, 1, 1, 1]);
}

#[test]
fn opaque_sets_every_alpha() {
    let mut px = vec![1, 2, 3, 4, 5, 6, 7, 8];
    opaque(&mut px);
    assert_eq!(px, vec![1, 2, 3, 255, 5, 6, 7, 255]);
}

#[test]
fn progress_walks_to_finishing() {
    let mut p = ExportProgress::new(3);
    assert_eq!(p.total(), 3);
    assert_eq!(p.next_frame(), Some(0));
    p.frame_sent();
    assert_eq!(p.frames_done(), 1);
    p.frame_sent();
    assert_eq!(p.next_frame(), Some(2));
    assert!(!p.finish_if_done());
    p.frame_sent();
    assert_eq!(p.frames_done(), 3);
    assert_eq!(p.next_frame(), None);
    assert!(p.finish_if_done());
    assert!(p.is_finishing());
    assert!(!p.finish_if_done());
}

#[test]
fn progress_of_zero_frames_is_one() {
    let p = ExportProgress::new(0);
    assert_eq!(p.total(), 1);
    assert_eq!(p.frames_done(), 0);
}

#[test]
fn encoder_loss_stops_rendering() {
    let mut p = ExportProgress::new(10);
    p.frame_sent();
    p.encoder_gone();
    assert!(p.is_finishing());
    assert_eq!(p.next_frame(), None);
    assert_eq!(p.frames_done(), 1);
}

#[test]
fn wav_header_and_samples() {
    let b = wav_bytes(44100, &[0, 1, -1, 32767, -32768]);
    assert_eq!(b.len(), 44 + 10);
    assert_eq!(&b[0..4], b"RIFF");
    assert_eq!(u32::from_le_bytes([b[4], b[5], b[6], b[7]]), 36 + 10);
    assert_eq!(&b[8..16], b"WAVEfmt ");
    assert_eq!(u32::from_le_bytes([b[16], b[17], b[18], b[19]]), 16);
    assert_eq!(u16::from_le_bytes([b[20], b[21]]), 1);
    assert_eq!(u16::from_le_bytes([b[22], b[23]]), 1);
    assert_eq!(u32::from_le_bytes([b[24], b[25], b[26], b[27]]), 44100);
    assert_eq!(u32::from_le_bytes([b[28], b[29], b[30], b[31]]), 88200);
    assert_eq!(u16::from_le_bytes([b[32], b[33]]), 2);
    assert_eq!(u16::from_le_bytes([b[34], b[35]]), 16);
    assert_eq!(&b[36..40], b"data");
    assert_eq!(u32::from_le_bytes([b[40], b[41], b[42], b[43]]), 10);
    let samples: Vec<i16> = b[44..].chunks(2).map(|c| i16::from_le_bytes([c[0], c[1]])).collect();
    assert_eq!(samples, vec![0, 1, -1, 32767, -32768]);
}

#[test]
fn empty_wav_is_just_the_header() {
    let b = wav_bytes(8000, &[]);
    assert_eq!(b.len(), 44);
    assert_eq!(u32::from_le_bytes([b[40], b[41], b[42], b[43]]), 0);
}

#[test]
fn encoder_command_line() {
    let a = ffmpeg_args(settings_from(720, 30), "/tmp/a.wav", "out.mp4");
    let want = [
        "-y", "-f", "rawvideo", "-pix_fmt", "rgba", "-s", "1280x720", "-r", "30", "-i", "-", "-i",
        "/tmp/a.wav", "-c:v", "libx264", "-pix_fmt", "yuv420p", "-preset", "medium", "-crf", "18",
        "-c:a", "aac", "-b:a", "192k", "-movflags", "+faststart", "-shortest", "out.mp4",
    ];
    assert_eq!(a, want.iter().map(|s| s.to_string()).collect::<Vec<_>>());
}

#[test]
fn encoder_replies() {
    assert_eq!(encoder_outcome(EncoderReply::Done), Some(Ok(())));
    assert_eq!(encoder_outcome(EncoderReply::Failed("boom".to_string())), Some(Err("boom".to_string())));
    assert_eq!(
        encoder_outcome(EncoderReply::Gone),
        Some(Err("encoder stopped unexpectedly".to_string()))
    );
    assert_eq!(encoder_outcome(EncoderReply::Waiting), None);
}
