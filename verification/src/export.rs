//! Offline video export, the byte-level and bookkeeping parts: the output
//! settings, the progress of a frame-by-frame render, turning GL's bottom-up
//! rows into the top-down rows the encoder reads, forcing captured frames
//! opaque, the 16-bit mono WAV the encoder muxes in, the encoder's command
//! line and what its reply means.
//!
//! Rendering, the encoder process and the files are the caller's part.

use vstd::prelude::*;
use crate::text::{append_chars, chars_of, dec, fmt_dec, string_of};

verus! {

/// An export's frame size and rate.
#[derive(Clone, Copy, PartialEq, Eq, Debug, Structural)]
pub struct ExportSettings {
    pub width: u32,
    pub height: u32,
    pub fps: u32,
}

/// The frame size a resolution shorthand names: 720, 1440 and 2160 lines, and
/// 1080 for anything else.
pub open spec fn size_of_res(res: u32) -> (u32, u32) {
    if res == 720 {
        (1280, 720)
    } else if res == 1440 {
        (2560, 1440)
    } else if res == 2160 {
        (3840, 2160)
    } else {
        (1920, 1080)
    }
}

/// Export settings from a resolution shorthand (720/1080/1440/2160) and a
/// frame rate.
pub fn settings_from(res: u32, fps: u32) -> (s: ExportSettings)
    ensures
        (s.width, s.height) == size_of_res(res),
        s.fps == fps,
{
    let (width, height) = if res == 720 {
        (1280, 720)
    } else if res == 1440 {
        (2560, 1440)
    } else if res == 2160 {
        (3840, 2160)
    } else {
        (1920, 1080)
    };
    ExportSettings { width, height, fps }
}

// ---- frame rows -----------------------------------------------------------------

/// The byte at `i` of `bytes` with its `h` rows of `stride` bytes in reverse
/// order.
pub open spec fn flipped_at(bytes: Seq<u8>, stride: int, h: int, i: int) -> u8 {
    bytes[(h - 1 - i / stride) * stride + i % stride]
}

proof fn lemma_row_index(i: int, stride: int, h: int)
    requires
        stride > 0,
        0 <= i < stride * h,
    ensures
        0 <= i / stride < h,
        0 <= i % stride < stride,
        0 <= (h - 1 - i / stride) * stride + i % stride < stride * h,
        i == (i / stride) * stride + i % stride,
{
    assert(0 <= i / stride < h) by (nonlinear_arith)
        requires
            stride > 0,
            0 <= i < stride * h,
    ;
    assert(i == (i / stride) * stride + i % stride) by (nonlinear_arith)
        requires
            stride > 0,
    ;
    let r = h - 1 - i / stride;
    assert(0 <= r * stride + i % stride < stride * h) by (nonlinear_arith)
        requires
            0 <= r < h,
            0 <= i % stride < stride,
            stride > 0,
    ;
}

/// RGBA rows of a `w` by `h` image reversed, bottom-up to top-down. Where
/// the width is zero or `bytes` holds fewer than `h` rows, `bytes` comes back
/// as it is; bytes beyond the `h` rows are dropped.
pub fn flip_vertical(bytes: Vec<u8>, w: usize, h: usize) -> (out: Vec<u8>)
    requires
        w * 4 <= usize::MAX,
        w * 4 * h <= usize::MAX,
    ensures
        (w == 0 || bytes@.len() < w * 4 * h) ==> out@ == bytes@,
        !(w == 0 || bytes@.len() < w * 4 * h) ==> out@.len() == w * 4 * h && forall|i: int|
            0 <= i < w * 4 * h ==> #[trigger] out@[i] == flipped_at(bytes@, w * 4, h as int, i),
{
    let stride = w * 4;
    assert(stride * h <= usize::MAX) by (nonlinear_arith)
        requires
            w * 4 * h <= usize::MAX,
            stride == w * 4,
    ;
    if stride == 0 || bytes.len() < stride * h {
        return bytes;
    }
    let total = stride * h;
    let mut out: Vec<u8> = Vec::new();
    let mut y: usize = 0;
    while y < h
        invariant
            stride > 0,
            total == stride * h,
            bytes@.len() >= total,
            y <= h,
            out@.len() == y * stride,
            forall|i: int| 0 <= i < y * stride ==> #[trigger] out@[i] == flipped_at(bytes@, stride as int, h as int, i),
        decreases h - y,
    {
        assert((y + 1) * stride <= total) by (nonlinear_arith)
            requires
                y < h,
                total == stride * h,
        ;
        assert((h - 1 - y) * stride + stride <= total) by (nonlinear_arith)
            requires
                y < h,
                total == stride * h,
        ;
        let src = (h - 1 - y) * stride;
        let mut x: usize = 0;
        while x < stride
            invariant
                stride > 0,
                total == stride * h,
                bytes@.len() >= total,
                y < h,
                src == (h - 1 - y) * stride,
                src + stride <= total,
                x <= stride,
                out@.len() == y * stride + x,
                (y + 1) * stride <= total,
                forall|i: int| 0 <= i < y * stride + x ==> #[trigger] out@[i] == flipped_at(bytes@, stride as int, h as int, i),
            decreases stride - x,
        {
            out.push(bytes[src + x]);
            proof {
                let i = y * stride + x;
                assert(i / (stride as int) == y && i % (stride as int) == x) by (nonlinear_arith)
                    requires
                        i == y * stride + x,
                        x < stride,
                        stride > 0,
                {
                    vstd::arithmetic::div_mod::lemma_fundamental_div_mod_converse(
                        i as int,
                        stride as int,
                        y as int,
                        x as int,
                    );
                }
            }
            x += 1;
        }
        assert((y + 1) * stride == y * stride + stride) by (nonlinear_arith);
        y += 1;
    }
    assert(h * stride == w * 4 * h) by (nonlinear_arith)
        requires
            stride == w * 4,
    ;
    out
}

/// Flipping the rows twice gives the image back.
pub proof fn lemma_flip_twice(bytes: Seq<u8>, stride: int, h: int)
    requires
        stride > 0,
        h >= 0,
        bytes.len() == stride * h,
    ensures
        Seq::new((stride * h) as nat, |i: int| flipped_at(Seq::new((stride * h) as nat, |j: int| flipped_at(bytes, stride, h, j)), stride, h, i)) == bytes,
{
    let once = Seq::new((stride * h) as nat, |j: int| flipped_at(bytes, stride, h, j));
    let twice = Seq::new((stride * h) as nat, |i: int| flipped_at(once, stride, h, i));
    assert forall|i: int| 0 <= i < stride * h implies twice[i] == bytes[i] by {
        lemma_row_index(i, stride, h);
        let k = (h - 1 - i / stride) * stride + i % stride;
        lemma_row_index(k, stride, h);
        assert(k / stride == h - 1 - i / stride && k % stride == i % stride) by (nonlinear_arith)
            requires
                k == (h - 1 - i / stride) * stride + i % stride,
                0 <= i % stride < stride,
                0 <= h - 1 - i / stride,
                stride > 0,
        {
            vstd::arithmetic::div_mod::lemma_fundamental_div_mod_converse(
                k,
                stride,
                h - 1 - i / stride,
                i % stride,
            );
        }
    }
    assert(twice =~= bytes);
}

/// Forces full alpha on an RGBA frame, so a saved capture is opaque: every
/// fourth byte becomes 255, the others stay.
pub fn opaque(px: &mut Vec<u8>)
    requires
        old(px)@.len() % 4 == 0,
    ensures
        final(px)@.len() == old(px)@.len(),
        forall|i: int|
            0 <= i < old(px)@.len() ==> #[trigger] final(px)@[i] == if i % 4 == 3 {
                255u8
            } else {
                old(px)@[i]
            },
{
    let n = px.len();
    let mut c: usize = 0;
    let ghost start = px@;
    while c < n / 4
        invariant
            n == px@.len() == start.len(),
            n % 4 == 0,
            c <= n / 4,
            forall|j: int|
                0 <= j < n ==> #[trigger] px@[j] == if j % 4 == 3 && j < 4 * c {
                    255u8
                } else {
                    start[j]
                },
        decreases n / 4 - c,
    {
        px.set(4 * c + 3, 255);
        c += 1;
    }
    assert(4 * c == n);
}

// ---- progress ---------------------------------------------------------------------

/// How far a render has got: frames handed to the encoder, out of `total`;
/// once `finishing`, no more frames are rendered and the encoder's result is
/// awaited.
pub struct ExportProgress {
    next: u32,
    total: u32,
    finishing: bool,
}

impl ExportProgress {
    pub closed spec fn frames_done_spec(&self) -> nat {
        self.next as nat
    }

    pub closed spec fn total_spec(&self) -> nat {
        self.total as nat
    }

    pub closed spec fn finishing_spec(&self) -> bool {
        self.finishing
    }

    /// The frames done never pass the total, and there is at least one frame.
    pub closed spec fn wf(&self) -> bool {
        1 <= self.total && self.next <= self.total
    }

    /// A render of `total` frames (at least one), none done yet.
    pub fn new(total: u32) -> (p: Self)
        ensures
            p.wf(),
            p.frames_done_spec() == 0,
            p.total_spec() == if total == 0 {
                1
            } else {
                total
            },
            !p.finishing_spec(),
    {
        ExportProgress {
            next: 0,
            total: if total == 0 {
                1
            } else {
                total
            },
            finishing: false,
        }
    }

    pub fn frames_done(&self) -> (n: u32)
        ensures
            n == self.frames_done_spec(),
    {
        self.next
    }

    pub fn total(&self) -> (n: u32)
        ensures
            n == self.total_spec(),
    {
        self.total
    }

    pub fn is_finishing(&self) -> (b: bool)
        ensures
            b == self.finishing_spec(),
    {
        self.finishing
    }

    /// The frame to render next, if rendering goes on.
    pub fn next_frame(&self) -> (r: Option<u32>)
        requires
            self.wf(),
        ensures
            r == if !self.finishing_spec() && self.frames_done_spec() < self.total_spec() {
                Some(self.frames_done_spec() as u32)
            } else {
                None
            },
    {
        if !self.finishing && self.next < self.total {
            Some(self.next)
        } else {
            None
        }
    }

    /// The frame `next_frame` named went to the encoder.
    pub fn frame_sent(&mut self)
        requires
            old(self).wf(),
            !old(self).finishing_spec(),
            old(self).frames_done_spec() < old(self).total_spec(),
        ensures
            final(self).wf(),
            final(self).frames_done_spec() == old(self).frames_done_spec() + 1,
            final(self).total_spec() == old(self).total_spec(),
            !final(self).finishing_spec(),
    {
        self.next = self.next + 1;
    }

    /// The encoder is gone: render no more.
    pub fn encoder_gone(&mut self)
        requires
            old(self).wf(),
        ensures
            final(self).wf(),
            final(self).frames_done_spec() == old(self).frames_done_spec(),
            final(self).total_spec() == old(self).total_spec(),
            final(self).finishing_spec(),
    {
        self.finishing = true;
    }

    /// After a render step: where every frame is done and the end has not been
    /// signalled yet, move to finishing and say so (the caller then tells the
    /// encoder the stream is over).
    pub fn finish_if_done(&mut self) -> (now: bool)
        requires
            old(self).wf(),
        ensures
            final(self).wf(),
            now == (!old(self).finishing_spec() && old(self).frames_done_spec() >= old(
                self,
            ).total_spec()),
            final(self).frames_done_spec() == old(self).frames_done_spec(),
            final(self).total_spec() == old(self).total_spec(),
            final(self).finishing_spec() == (old(self).finishing_spec() || now),
    {
        if !self.finishing && self.next >= self.total {
            self.finishing = true;
            true
        } else {
            false
        }
    }
}

// ---- the audio file ---------------------------------------------------------------

/// `x` as four little-endian bytes.
pub open spec fn le32(x: nat) -> Seq<u8> {
    seq![(x % 256) as u8, ((x / 256) % 256) as u8, ((x / 65536) % 256) as u8, ((x / 16777216) % 256) as u8]
}

/// `x` as two little-endian bytes.
pub open spec fn le16(x: nat) -> Seq<u8> {
    seq![(x % 256) as u8, ((x / 256) % 256) as u8]
}

/// The header of a 16-bit mono PCM WAV at `sr` Hz with `data_len` bytes of
/// samples.
pub open spec fn wav_header(sr: nat, data_len: nat) -> Seq<u8> {
    seq![0x52u8, 0x49, 0x46, 0x46] + le32(36 + data_len) + seq![0x57u8, 0x41, 0x56, 0x45, 0x66, 0x6d, 0x74, 0x20]
        + le32(16) + le16(1) + le16(1) + le32(sr) + le32(sr * 2) + le16(2) + le16(16) + seq![0x64u8, 0x61, 0x74, 0x61]
        + le32(data_len)
}

/// The sample stored in the two bytes at `k` of the data: little-endian, two's
/// complement.
pub open spec fn sample_at(data: Seq<u8>, k: int) -> int {
    let u = data[2 * k] as int + 256 * (data[2 * k + 1] as int);
    if u >= 32768 {
        u - 65536
    } else {
        u
    }
}

fn push_le32(out: &mut Vec<u8>, x: u32)
    ensures
        final(out)@ == old(out)@ + le32(x as nat),
{
    out.push((x % 256) as u8);
    out.push(((x / 256) % 256) as u8);
    out.push(((x / 65536) % 256) as u8);
    out.push(((x / 16777216) % 256) as u8);
    assert(final(out)@ =~= old(out)@ + le32(x as nat));
}

fn push_le16(out: &mut Vec<u8>, x: u16)
    ensures
        final(out)@ == old(out)@ + le16(x as nat),
{
    out.push((x % 256) as u8);
    out.push(((x / 256) % 256) as u8);
    assert(final(out)@ =~= old(out)@ + le16(x as nat));
}

fn push_tag(out: &mut Vec<u8>, a: u8, b: u8, c: u8, d: u8)
    ensures
        final(out)@ == old(out)@ + seq![a, b, c, d],
{
    out.push(a);
    out.push(b);
    out.push(c);
    out.push(d);
    assert(final(out)@ =~= old(out)@ + seq![a, b, c, d]);
}

/// A 16-bit mono PCM WAV file at `sr` Hz holding `samples`: the 44-byte header,
/// then each sample as two little-endian bytes.
pub fn wav_bytes(sr: u32, samples: &[i16]) -> (out: Vec<u8>)
    requires
        36 + 2 * samples@.len() <= u32::MAX,
        sr * 2 <= u32::MAX,
    ensures
        out@.len() == 44 + 2 * samples@.len(),
        out@.subrange(0, 44) == wav_header(sr as nat, 2 * samples@.len()),
        forall|k: int| 0 <= k < samples@.len() ==> #[trigger] sample_at(out@.skip(44), k) == samples@[k] as int,
{
    let n = samples.len();
    let data_len: u32 = (2 * n) as u32;
    let mut out: Vec<u8> = Vec::new();
    push_tag(&mut out, 0x52, 0x49, 0x46, 0x46);
    push_le32(&mut out, 36 + data_len);
    push_tag(&mut out, 0x57, 0x41, 0x56, 0x45);
    push_tag(&mut out, 0x66, 0x6d, 0x74, 0x20);
    push_le32(&mut out, 16);
    push_le16(&mut out, 1);
    push_le16(&mut out, 1);
    push_le32(&mut out, sr);
    push_le32(&mut out, sr * 2);
    push_le16(&mut out, 2);
    push_le16(&mut out, 16);
    push_tag(&mut out, 0x64, 0x61, 0x74, 0x61);
    push_le32(&mut out, data_len);
    assert(out@ =~= wav_header(sr as nat, 2 * samples@.len()));
    let ghost header = out@;
    let mut k: usize = 0;
    while k < n
        invariant
            k <= n == samples@.len(),
            out@.len() == 44 + 2 * k,
            out@.subrange(0, 44) == header,
            forall|j: int| 0 <= j < k ==> #[trigger] sample_at(out@.skip(44), j) == samples@[j] as int,
        decreases n - k,
    {
        let s = samples[k];
        let u: u16 = if s < 0 {
            (s as i32 + 65536) as u16
        } else {
            s as u16
        };
        let ghost before = out@;
        push_le16(&mut out, u);
        proof {
            assert(out@.subrange(0, 44) == before.subrange(0, 44));
            assert forall|j: int| 0 <= j < k + 1 implies #[trigger] sample_at(out@.skip(44), j) == samples@[j] as int by {
                if j < k {
                    assert(out@.skip(44)[2 * j] == before.skip(44)[2 * j]);
                    assert(out@.skip(44)[2 * j + 1] == before.skip(44)[2 * j + 1]);
                    assert(sample_at(before.skip(44), j) == samples@[j] as int);
                } else {
                    assert(out@.skip(44)[2 * j] == (u % 256) as u8);
                    assert(out@.skip(44)[2 * j + 1] == ((u / 256) % 256) as u8);
                    assert(u % 256 + 256 * ((u / 256) % 256) == u);
                    let b0 = out@.skip(44)[2 * j] as int;
                    let b1 = out@.skip(44)[2 * j + 1] as int;
                    assert(b0 + 256 * b1 == u as int);
                    assert(samples@[j] == s);
                    if s < 0 {
                        assert(u as int == s as int + 65536);
                    } else {
                        assert(u as int == s as int);
                    }
                }
            }
        }
        k += 1;
    }
    out
}

// ---- the encoder ---------------------------------------------------------------

/// The frame size as the encoder reads it, `<width>x<height>`.
pub open spec fn size_arg(s: ExportSettings) -> Seq<char> {
    dec(s.width as nat) + seq!['x'] + dec(s.height as nat)
}

/// The arguments `ffmpeg` runs with: raw RGBA frames of the export's size and
/// rate on standard input, the track's audio from `audio`, encoded as H.264
/// and AAC into `out`, cut to the shorter stream.
pub open spec fn encoder_args(s: ExportSettings, audio: Seq<char>, out: Seq<char>) -> Seq<Seq<char>> {
    seq![
        "-y"@,
        "-f"@,
        "rawvideo"@,
        "-pix_fmt"@,
        "rgba"@,
        "-s"@,
        size_arg(s),
        "-r"@,
        dec(s.fps as nat),
        "-i"@,
        "-"@,
        "-i"@,
        audio,
        "-c:v"@,
        "libx264"@,
        "-pix_fmt"@,
        "yuv420p"@,
        "-preset"@,
        "medium"@,
        "-crf"@,
        "18"@,
        "-c:a"@,
        "aac"@,
        "-b:a"@,
        "192k"@,
        "-movflags"@,
        "+faststart"@,
        "-shortest"@,
        out,
    ]
}

fn push_arg(args: &mut Vec<String>, lit: &str)
    ensures
        final(args)@.map_values(|a: String| a@) == old(args)@.map_values(|a: String| a@).push(lit@),
{
    let c = chars_of(lit);
    let a = string_of(&c);
    let ghost before = args@;
    args.push(a);
    assert(args@.map_values(|a: String| a@) =~= before.map_values(|a: String| a@).push(lit@));
}

/// The encoder's arguments for an export with settings `s`, reading the audio
/// from `audio` and writing the video to `out`; see [`encoder_args`].
pub fn ffmpeg_args(s: ExportSettings, audio: &str, out: &str) -> (args: Vec<String>)
    ensures
        args@.map_values(|a: String| a@) == encoder_args(s, audio@, out@),
{
    let mut args: Vec<String> = Vec::new();
    push_arg(&mut args, "-y");
    push_arg(&mut args, "-f");
    push_arg(&mut args, "rawvideo");
    push_arg(&mut args, "-pix_fmt");
    push_arg(&mut args, "rgba");
    push_arg(&mut args, "-s");
    let mut size = fmt_dec(s.width as u64);
    size.push('x');
    let h = fmt_dec(s.height as u64);
    append_chars(&mut size, &h);
    assert(size@ =~= size_arg(s));
    let size_s = string_of(&size);
    let ghost b1 = args@;
    args.push(size_s);
    assert(args@.map_values(|a: String| a@) =~= b1.map_values(|a: String| a@).push(size_arg(s)));
    push_arg(&mut args, "-r");
    let fps = fmt_dec(s.fps as u64);
    let fps_s = string_of(&fps);
    let ghost b2 = args@;
    args.push(fps_s);
    assert(args@.map_values(|a: String| a@) =~= b2.map_values(|a: String| a@).push(dec(s.fps as nat)));
    push_arg(&mut args, "-i");
    push_arg(&mut args, "-");
    push_arg(&mut args, "-i");
    push_arg(&mut args, audio);
    push_arg(&mut args, "-c:v");
    push_arg(&mut args, "libx264");
    push_arg(&mut args, "-pix_fmt");
    push_arg(&mut args, "yuv420p");
    push_arg(&mut args, "-preset");
    push_arg(&mut args, "medium");
    push_arg(&mut args, "-crf");
    push_arg(&mut args, "18");
    push_arg(&mut args, "-c:a");
    push_arg(&mut args, "aac");
    push_arg(&mut args, "-b:a");
    push_arg(&mut args, "192k");
    push_arg(&mut args, "-movflags");
    push_arg(&mut args, "+faststart");
    push_arg(&mut args, "-shortest");
    push_arg(&mut args, out);
    assert(args@.map_values(|a: String| a@) =~= encoder_args(s, audio@, out@));
    args
}

/// What the encoder's result channel held when polled.
pub enum EncoderReply {
    /// The encoder finished and the video is written.
    Done,
    /// The encoder failed, with its message.
    Failed(String),
    /// The encoder's thread went away without a result.
    Gone,
    /// No result yet.
    Waiting,
}

/// The message for an encoder that vanished without a result.
pub open spec fn encoder_gone_text() -> Seq<char> {
    "encoder stopped unexpectedly"@
}

/// What a finishing export reports after a poll of the encoder: success when
/// it is done, its error when it failed, an error when its thread vanished,
/// and nothing while it works.
pub fn encoder_outcome(r: EncoderReply) -> (out: Option<Result<(), String>>)
    ensures
        match r {
            EncoderReply::Done => out == Some(Ok::<(), String>(())),
            EncoderReply::Failed(e) => out matches Some(Err(m)) && m@ == e@,
            EncoderReply::Gone => out matches Some(Err(m)) && m@ == encoder_gone_text(),
            EncoderReply::Waiting => out is None,
        },
{
    match r {
        EncoderReply::Done => Some(Ok(())),
        EncoderReply::Failed(e) => Some(Err(e)),
        EncoderReply::Gone => {
            let c = chars_of("encoder stopped unexpectedly");
            Some(Err(string_of(&c)))
        },
        EncoderReply::Waiting => None,
    }
}

} // verus!
