//! The command line: `cherry [--file <audio>] [--mode <tag>] ...`, read from
//! the arguments after the program name. Printing the usage, warning about
//! unknown flags and exiting are the caller's part.

use vstd::prelude::*;
use crate::text::{chars_of, parse_bounded, parse_uint, same_chars, string_of};

verus! {

/// What the command line asks for.
pub struct Args {
    /// `--shot [mode]`: render a headless PNG (dev); `breakout` by default.
    pub shot: Option<String>,
    /// `--file <path>`: open an audio file.
    pub file: Option<String>,
    /// `--gen-wav <path>`: write a small test WAV.
    pub gen_wav: Option<String>,
    /// `--export <out.mp4>`: render the selected mode to a video.
    pub export: Option<String>,
    /// `--export-frame [mode]`: dump one PNG of a mode; `breakout` by default.
    pub export_frame: Option<String>,
    /// `--bench [mode]`: time every mode, or the one named.
    pub bench: Option<String>,
    /// `--mode <tag>`: start on (or export) the mode whose name holds `tag`.
    pub mode: Option<String>,
    pub theme: Option<usize>,
    pub res: Option<u32>,
    pub fps: Option<u32>,
    /// `--help` or `-h` was met: the usage is printed and the program exits;
    /// nothing after it is read.
    pub help: bool,
    /// The unknown flags met, in order, each warned about.
    pub unknown: Vec<String>,
}

/// The command line as plain values.
pub struct ArgsView {
    pub shot: Option<Seq<char>>,
    pub file: Option<Seq<char>>,
    pub gen_wav: Option<Seq<char>>,
    pub export: Option<Seq<char>>,
    pub export_frame: Option<Seq<char>>,
    pub bench: Option<Seq<char>>,
    pub mode: Option<Seq<char>>,
    pub theme: Option<usize>,
    pub res: Option<u32>,
    pub fps: Option<u32>,
    pub help: bool,
    pub unknown: Seq<Seq<char>>,
}

pub open spec fn opt_view(o: Option<String>) -> Option<Seq<char>> {
    match o {
        Some(s) => Some(s@),
        None => None,
    }
}

impl View for Args {
    type V = ArgsView;

    open spec fn view(&self) -> ArgsView {
        ArgsView {
            shot: opt_view(self.shot),
            file: opt_view(self.file),
            gen_wav: opt_view(self.gen_wav),
            export: opt_view(self.export),
            export_frame: opt_view(self.export_frame),
            bench: opt_view(self.bench),
            mode: opt_view(self.mode),
            theme: self.theme,
            res: self.res,
            fps: self.fps,
            help: self.help,
            unknown: self.unknown@.map_values(|s: String| s@),
        }
    }
}

pub open spec fn no_args() -> ArgsView {
    ArgsView {
        shot: None,
        file: None,
        gen_wav: None,
        export: None,
        export_frame: None,
        bench: None,
        mode: None,
        theme: None,
        res: None,
        fps: None,
        help: false,
        unknown: seq![],
    }
}

/// Whether `s` starts with `"--"` (a flag, not a value).
pub open spec fn is_long_flag(s: Seq<char>) -> bool {
    s.len() >= 2 && s[0] == '-' && s[1] == '-'
}

/// The argument after `i`, where there is one.
pub open spec fn value_after(args: Seq<Seq<char>>, i: int) -> Option<Seq<char>> {
    if i + 1 < args.len() {
        Some(args[i + 1])
    } else {
        None
    }
}

/// The argument after `i`, where there is one and it is not a flag.
pub open spec fn peeked_after(args: Seq<Seq<char>>, i: int) -> Option<Seq<char>> {
    if i + 1 < args.len() && !is_long_flag(args[i + 1]) {
        Some(args[i + 1])
    } else {
        None
    }
}

/// How many arguments the one at `i` uses, itself included.
pub open spec fn step_len(args: Seq<Seq<char>>, i: int) -> int {
    let a = args[i];
    let peeked = if peeked_after(args, i) is Some {
        2int
    } else {
        1int
    };
    let valued = if i + 1 < args.len() {
        2int
    } else {
        1int
    };
    if a == "--shot"@ {
        peeked
    } else if a == "--file"@ || a == "--gen-wav"@ || a == "--export"@ {
        valued
    } else if a == "--export-frame"@ || a == "--bench"@ || a == "--mode"@ {
        peeked
    } else if a == "--theme"@ || a == "--res"@ || a == "--fps"@ {
        valued
    } else {
        1
    }
}

/// What the argument at `i` (and the value it takes) does to `acc`.
pub open spec fn apply_arg(args: Seq<Seq<char>>, i: int, acc: ArgsView) -> ArgsView {
    let a = args[i];
    if a == "--shot"@ {
        ArgsView {
            shot: Some(
                match peeked_after(args, i) {
                    Some(v) => v,
                    None => "breakout"@,
                },
            ),
            ..acc
        }
    } else if a == "--file"@ {
        ArgsView { file: value_after(args, i), ..acc }
    } else if a == "--gen-wav"@ {
        ArgsView { gen_wav: value_after(args, i), ..acc }
    } else if a == "--export"@ {
        ArgsView { export: value_after(args, i), ..acc }
    } else if a == "--export-frame"@ {
        ArgsView {
            export_frame: Some(
                match peeked_after(args, i) {
                    Some(v) => v,
                    None => "breakout"@,
                },
            ),
            ..acc
        }
    } else if a == "--bench"@ {
        ArgsView {
            bench: Some(
                match peeked_after(args, i) {
                    Some(v) => v,
                    None => seq![],
                },
            ),
            ..acc
        }
    } else if a == "--mode"@ {
        ArgsView { mode: peeked_after(args, i), ..acc }
    } else if a == "--theme"@ {
        ArgsView {
            theme: match value_after(args, i) {
                Some(v) => match parse_bounded(v, 10, usize::MAX as nat) {
                    Some(t) => Some(t as usize),
                    None => None,
                },
                None => None,
            },
            ..acc
        }
    } else if a == "--res"@ {
        ArgsView {
            res: match value_after(args, i) {
                Some(v) => match parse_bounded(v, 10, u32::MAX as nat) {
                    Some(t) => Some(t as u32),
                    None => None,
                },
                None => None,
            },
            ..acc
        }
    } else if a == "--fps"@ {
        ArgsView {
            fps: match value_after(args, i) {
                Some(v) => match parse_bounded(v, 10, u32::MAX as nat) {
                    Some(t) => Some(t as u32),
                    None => None,
                },
                None => None,
            },
            ..acc
        }
    } else if a == "--help"@ || a == "-h"@ {
        ArgsView { help: true, ..acc }
    } else if a.len() > 0 && a[0] == '-' {
        ArgsView { unknown: acc.unknown.push(a), ..acc }
    } else {
        acc
    }
}

/// The arguments from `i` on, read into `acc`; reading stops at `--help`.
pub open spec fn parse_from(args: Seq<Seq<char>>, i: int, acc: ArgsView) -> ArgsView
    decreases args.len() - i,
{
    if i < 0 || i >= args.len() || acc.help {
        acc
    } else {
        let next = apply_arg(args, i, acc);
        parse_from(args, i + step_len(args, i), next)
    }
}

/// What a command line asks for.
pub open spec fn args_of(args: Seq<Seq<char>>) -> ArgsView {
    parse_from(args, 0, no_args())
}

fn is(a: &[char], lit: &str) -> (r: bool)
    ensures
        r == (a@ == lit@),
{
    let l = chars_of(lit);
    same_chars(a, &l)
}

fn text(lit: &str) -> (r: String)
    ensures
        r@ == lit@,
{
    let l = chars_of(lit);
    string_of(&l)
}

/// Reads the arguments after the program name.
pub fn parse_args(args: &[String]) -> (out: Args)
    ensures
        out@ == args_of(args@.map_values(|s: String| s@)),
{
    let ghost sv = args@.map_values(|s: String| s@);
    let n = args.len();
    let mut out = Args {
        shot: None,
        file: None,
        gen_wav: None,
        export: None,
        export_frame: None,
        bench: None,
        mode: None,
        theme: None,
        res: None,
        fps: None,
        help: false,
        unknown: Vec::new(),
    };
    assert(out.unknown@.map_values(|s: String| s@) =~= Seq::<Seq<char>>::empty());
    assert(out@ == no_args());
    let mut i: usize = 0;
    while i < n && !out.help
        invariant
            i <= n == sv.len(),
            sv == args@.map_values(|s: String| s@),
            args_of(sv) == parse_from(sv, i as int, out@),
        decreases n - i,
    {
        let a = chars_of(args[i].as_str());
        assert(a@ == sv[i as int]);
        let has_next = i + 1 < n;
        let next_chars: Vec<char> = if has_next {
            chars_of(args[i + 1].as_str())
        } else {
            Vec::new()
        };
        let next_is_value = has_next && !(next_chars.len() >= 2 && next_chars[0] == '-'
            && next_chars[1] == '-');
        proof {
            if has_next {
                assert(next_chars@ == sv[i + 1]);
            }
        }
        let ghost before = out@;
        let mut step: usize = 1;
        if is(&a, "--shot") {
            out.shot = Some(
                if next_is_value {
                    step = 2;
                    args[i + 1].clone()
                } else {
                    text("breakout")
                },
            );
        } else if is(&a, "--file") {
            out.file = if has_next {
                step = 2;
                Some(args[i + 1].clone())
            } else {
                None
            };
        } else if is(&a, "--gen-wav") {
            out.gen_wav = if has_next {
                step = 2;
                Some(args[i + 1].clone())
            } else {
                None
            };
        } else if is(&a, "--export") {
            out.export = if has_next {
                step = 2;
                Some(args[i + 1].clone())
            } else {
                None
            };
        } else if is(&a, "--export-frame") {
            out.export_frame = Some(
                if next_is_value {
                    step = 2;
                    args[i + 1].clone()
                } else {
                    text("breakout")
                },
            );
        } else if is(&a, "--bench") {
            out.bench = Some(
                if next_is_value {
                    step = 2;
                    args[i + 1].clone()
                } else {
                    String::new()
                },
            );
        } else if is(&a, "--mode") {
            out.mode = if next_is_value {
                step = 2;
                Some(args[i + 1].clone())
            } else {
                None
            };
        } else if is(&a, "--theme") {
            out.theme = if has_next {
                step = 2;
                match parse_uint(&next_chars, 10, usize::MAX as u64) {
                    Some(t) => Some(t as usize),
                    None => None,
                }
            } else {
                None
            };
        } else if is(&a, "--res") {
            out.res = if has_next {
                step = 2;
                match parse_uint(&next_chars, 10, 0xffff_ffff) {
                    Some(t) => Some(t as u32),
                    None => None,
                }
            } else {
                None
            };
        } else if is(&a, "--fps") {
            out.fps = if has_next {
                step = 2;
                match parse_uint(&next_chars, 10, 0xffff_ffff) {
                    Some(t) => Some(t as u32),
                    None => None,
                }
            } else {
                None
            };
        } else if is(&a, "--help") || is(&a, "-h") {
            out.help = true;
        } else if a.len() > 0 && a[0] == '-' {
            let ghost u = out.unknown@;
            out.unknown.push(args[i].clone());
            assert(out.unknown@.map_values(|s: String| s@) =~= u.map_values(|s: String| s@).push(
                sv[i as int],
            ));
        }
        assert(out@ == apply_arg(sv, i as int, before));
        assert(step == step_len(sv, i as int));
        i += step;
    }
    out
}

// ---- laws ------------------------------------------------------------------------

/// Arguments other than `--export-frame` never change what it asked for.
proof fn lemma_export_frame_kept(args: Seq<Seq<char>>, j: int, acc: ArgsView)
    requires
        0 <= j,
        forall|k: int| j <= k < args.len() ==> args[k] != "--export-frame"@,
    ensures
        parse_from(args, j, acc).export_frame == acc.export_frame,
    decreases args.len() - j,
{
    if j < args.len() && !acc.help {
        let next = apply_arg(args, j, acc);
        assert(next.export_frame == acc.export_frame);
        lemma_export_frame_kept(args, j + step_len(args, j), next);
    }
}

/// Arguments other than `--shot` never change what it asked for.
proof fn lemma_shot_kept(args: Seq<Seq<char>>, j: int, acc: ArgsView)
    requires
        0 <= j,
        forall|k: int| j <= k < args.len() ==> args[k] != "--shot"@,
    ensures
        parse_from(args, j, acc).shot == acc.shot,
    decreases args.len() - j,
{
    if j < args.len() && !acc.help {
        let next = apply_arg(args, j, acc);
        assert(next.shot == acc.shot);
        lemma_shot_kept(args, j + step_len(args, j), next);
    }
}

/// `--export-frame` takes the argument after it as the mode to dump, unless
/// that argument is missing or is itself a flag (`--...`), in which case the
/// mode is `breakout`; what follows (without another `--export-frame`) does
/// not change it.
pub proof fn lemma_export_frame_value(args: Seq<Seq<char>>)
    requires
        args.len() >= 1,
        args[0] == "--export-frame"@,
        forall|k: int| 1 <= k < args.len() && !(k == 1 && !is_long_flag(args[1])) ==> #[trigger] args[k]
            != "--export-frame"@,
    ensures
        args.len() >= 2 && !is_long_flag(args[1]) ==> args_of(args).export_frame == Some(args[1]),
        args.len() == 1 || is_long_flag(args[1]) ==> args_of(args).export_frame == Some(
            "breakout"@,
        ),
{
    reveal_strlit("--export-frame");
    reveal_strlit("--shot");
    reveal_strlit("--file");
    reveal_strlit("--gen-wav");
    reveal_strlit("--export");
    let a = args[0];
    assert(a != "--shot"@) by {
        assert(a.len() != "--shot"@.len());
    }
    assert(a != "--file"@) by {
        assert(a.len() != "--file"@.len());
    }
    assert(a != "--gen-wav"@) by {
        assert(a.len() != "--gen-wav"@.len());
    }
    assert(a != "--export"@) by {
        assert(a.len() != "--export"@.len());
    }
    let next = apply_arg(args, 0, no_args());
    lemma_export_frame_kept(args, step_len(args, 0), next);
}

/// `--shot` takes the argument after it as the mode to capture, unless that
/// argument is missing or is itself a flag (`--...`), in which case the mode
/// is `breakout`; what follows (without another `--shot`) does not change it.
pub proof fn lemma_shot_value(args: Seq<Seq<char>>)
    requires
        args.len() >= 1,
        args[0] == "--shot"@,
        forall|k: int| 1 <= k < args.len() && !(k == 1 && !is_long_flag(args[1])) ==> #[trigger] args[k]
            != "--shot"@,
    ensures
        args.len() >= 2 && !is_long_flag(args[1]) ==> args_of(args).shot == Some(args[1]),
        args.len() == 1 || is_long_flag(args[1]) ==> args_of(args).shot == Some("breakout"@),
{
    let next = apply_arg(args, 0, no_args());
    lemma_shot_kept(args, step_len(args, 0), next);
}

} // verus!
