//! Persisted settings — theme, volume, chrome and the recent-files list —
//! as a hand-rolled `key=value` text. Unknown keys and malformed values are
//! ignored, so old builds read new files and vice versa; a value that does not
//! parse, or is out of range, leaves the setting as it was.
//!
//! Reading the file from disk and writing it back, and making a recent path
//! absolute, are the caller's part: this module turns text into settings and
//! settings into text.

use vstd::prelude::*;
use crate::color::{hex_spec, lemma_rgb_hex, rgb_of, rgb_spec};
use crate::text::{lemma_dec, lemma_fixed_digits, lemma_value_concat, pow_nat, radix_value};
use crate::text::{
    append_chars, chars_of, copy_range, dec, lowercase, to_lowercase, find_char, index_of, lemma_index_of,
    lemma_index_of_absent, lemma_index_of_at, lemma_split_nonempty, strip_cr, all_radix_digits, is_radix_digit, is_ws, lemma_trim_fixed, fixed_digits, fmt_dec, fmt_fixed, lines,
    parse_bounded, parse_uint, same_chars, split_char, split_lines, split_on, split_once,
    string_of, trim, trim_end, trim_start, trimmed,
};
use crate::volume::{fmt_volume, lemma_volume_at_most_one, milli_text, parse_volume, volume_milli};

verus! {

/// The recent-files list keeps at most this many entries.
pub const MAX_RECENT: usize = 8;

/// The settings. `volume` is in thousandths (0..=1000), the precision the file
/// holds it with; `recent` is most recent first.
#[derive(Clone, Debug, PartialEq, Eq)]
pub struct Config {
    pub theme: usize,
    /// In thousandths (0 to 1000); see the `volume` module for how text is
    /// rounded to it.
    pub volume: u16,
    pub sidebar: bool,
    pub export_res: u32,
    pub export_fps: u32,
    /// The Custom theme's four anchor colors (background, body, hero,
    /// highlight) as sRGB bytes.
    pub custom: [[u8; 3]; 4],
    pub recent: Vec<String>,
}

/// The settings as plain values.
pub struct ConfigView {
    pub theme: usize,
    pub volume: u16,
    pub sidebar: bool,
    pub export_res: u32,
    pub export_fps: u32,
    pub custom: [[u8; 3]; 4],
    pub recent: Seq<Seq<char>>,
}

impl View for Config {
    type V = ConfigView;

    open spec fn view(&self) -> ConfigView {
        ConfigView {
            theme: self.theme,
            volume: self.volume,
            sidebar: self.sidebar,
            export_res: self.export_res,
            export_fps: self.export_fps,
            custom: self.custom,
            recent: self.recent@.map_values(|r: String| r@),
        }
    }
}

/// The Dusk Encom seeds, the color pickers' initial state.
pub open spec fn default_custom() -> [[u8; 3]; 4] {
    [[0x0b, 0x10, 0x14], [0x3f, 0x9a, 0xa0], [0xe0, 0x8a, 0x3c], [0xec, 0xe3, 0xcf]]
}

pub open spec fn default_view() -> ConfigView {
    ConfigView {
        theme: 0,
        volume: 850,
        sidebar: true,
        export_res: 1080,
        export_fps: 60,
        custom: default_custom(),
        recent: seq![],
    }
}

impl Default for Config {
    fn default() -> (c: Self)
        ensures
            c@ == default_view(),
    {
        let c = Config {
            theme: 0,
            volume: 850,
            sidebar: true,
            export_res: 1080,
            export_fps: 60,
            custom: [[0x0b, 0x10, 0x14], [0x3f, 0x9a, 0xa0], [0xe0, 0x8a, 0x3c], [0xec, 0xe3, 0xcf]],
            recent: Vec::new(),
        };
        assert(c@.recent =~= seq![]);
        c
    }
}

// ---- the keys ------------------------------------------------------------------

pub open spec fn key_theme() -> Seq<char> {
    seq!['t', 'h', 'e', 'm', 'e']
}

pub open spec fn key_volume() -> Seq<char> {
    seq!['v', 'o', 'l', 'u', 'm', 'e']
}

pub open spec fn key_sidebar() -> Seq<char> {
    seq!['s', 'i', 'd', 'e', 'b', 'a', 'r']
}

pub open spec fn key_export_res() -> Seq<char> {
    seq!['e', 'x', 'p', 'o', 'r', 't', '_', 'r', 'e', 's']
}

pub open spec fn key_export_fps() -> Seq<char> {
    seq!['e', 'x', 'p', 'o', 'r', 't', '_', 'f', 'p', 's']
}

pub open spec fn key_custom() -> Seq<char> {
    seq!['c', 'u', 's', 't', 'o', 'm']
}

pub open spec fn key_recent() -> Seq<char> {
    seq!['r', 'e', 'c', 'e', 'n', 't']
}

/// The export resolutions the file may name.
pub open spec fn allowed_res(r: nat) -> bool {
    r == 720 || r == 1080 || r == 1440 || r == 2160
}

/// The export frame rates the file may name.
pub open spec fn allowed_fps(f: nat) -> bool {
    f == 30 || f == 60
}

// ---- reading ---------------------------------------------------------------------

/// The hex number of one `custom=` field, if it parses as a `u32`.
pub open spec fn custom_field(part: Seq<char>) -> Option<nat> {
    parse_bounded(trim(part), 16, u32::MAX as nat)
}

/// The four anchors a `custom=` value sets: its first four comma-separated
/// fields must all be hex numbers; anything after them is ignored.
pub open spec fn custom_from(val: Seq<char>) -> Option<[[u8; 3]; 4]> {
    let parts = split_on(val, ',');
    if parts.len() >= 4 && custom_field(parts[0]) is Some && custom_field(parts[1]) is Some
        && custom_field(parts[2]) is Some && custom_field(parts[3]) is Some {
        Some(
            [
                rgb_spec(custom_field(parts[0]).unwrap()),
                rgb_spec(custom_field(parts[1]).unwrap()),
                rgb_spec(custom_field(parts[2]).unwrap()),
                rgb_spec(custom_field(parts[3]).unwrap()),
            ],
        )
    } else {
        None
    }
}

/// What the setting `key = val` (both trimmed) does to `c`.
pub open spec fn apply_setting(c: ConfigView, key: Seq<char>, val: Seq<char>) -> ConfigView {
    if key == key_theme() {
        match parse_bounded(val, 10, usize::MAX as nat) {
            Some(t) => ConfigView { theme: t as usize, ..c },
            None => c,
        }
    } else if key == key_volume() {
        match volume_milli(val) {
            Some(v) => ConfigView { volume: v as u16, ..c },
            None => c,
        }
    } else if key == key_sidebar() {
        ConfigView { sidebar: val != seq!['0'], ..c }
    } else if key == key_export_res() {
        match parse_bounded(val, 10, u32::MAX as nat) {
            Some(r) => if allowed_res(r) {
                ConfigView { export_res: r as u32, ..c }
            } else {
                c
            },
            None => c,
        }
    } else if key == key_export_fps() {
        match parse_bounded(val, 10, u32::MAX as nat) {
            Some(f) => if allowed_fps(f) {
                ConfigView { export_fps: f as u32, ..c }
            } else {
                c
            },
            None => c,
        }
    } else if key == key_custom() {
        match custom_from(val) {
            Some(a) => ConfigView { custom: a, ..c },
            None => c,
        }
    } else if key == key_recent() && c.recent.len() < MAX_RECENT {
        ConfigView { recent: c.recent.push(val), ..c }
    } else {
        c
    }
}

/// What one line does: a `key=value` pair (split at the first `=`, both sides
/// trimmed) is applied; any other line is ignored.
pub open spec fn apply_line(c: ConfigView, line: Seq<char>) -> ConfigView {
    match split_once(line, '=') {
        Some((k, v)) => apply_setting(c, trim(k), trim(v)),
        None => c,
    }
}

/// The lines applied in order.
pub open spec fn apply_lines(c: ConfigView, ls: Seq<Seq<char>>) -> ConfigView
    decreases ls.len(),
{
    if ls.len() == 0 {
        c
    } else {
        apply_line(apply_lines(c, ls.drop_last()), ls.last())
    }
}

/// The settings a text holds: its lines applied to the defaults.
pub open spec fn config_of_text(t: Seq<char>) -> ConfigView {
    apply_lines(default_view(), lines(t))
}

// ---- writing ---------------------------------------------------------------------

/// `{:02x}{:02x}{:02x}` of a color.
pub open spec fn hex6(c: [u8; 3]) -> Seq<char> {
    fixed_digits(c[0] as nat, 2, 16) + fixed_digits(c[1] as nat, 2, 16) + fixed_digits(
        c[2] as nat,
        2,
        16,
    )
}

pub open spec fn custom_text(a: [[u8; 3]; 4]) -> Seq<char> {
    hex6(a[0]) + seq![','] + hex6(a[1]) + seq![','] + hex6(a[2]) + seq![','] + hex6(a[3])
}

pub open spec fn entry(key: Seq<char>, val: Seq<char>) -> Seq<char> {
    key + seq!['='] + val
}

/// The lines the settings are written as, in order.
pub open spec fn config_lines(c: ConfigView) -> Seq<Seq<char>> {
    seq![
        entry(key_theme(), dec(c.theme as nat)),
        entry(key_volume(), milli_text(c.volume as nat)),
        entry(
            key_sidebar(),
            if c.sidebar {
                seq!['1']
            } else {
                seq!['0']
            },
        ),
        entry(key_export_res(), dec(c.export_res as nat)),
        entry(key_export_fps(), dec(c.export_fps as nat)),
        entry(key_custom(), custom_text(c.custom)),
    ] + c.recent.map_values(|r: Seq<char>| entry(key_recent(), r))
}

/// Lines, each followed by `'\n'`.
pub open spec fn join_lines(ls: Seq<Seq<char>>) -> Seq<char>
    decreases ls.len(),
{
    if ls.len() == 0 {
        seq![]
    } else {
        join_lines(ls.drop_last()) + ls.last() + seq!['\n']
    }
}

/// The settings as the file holds them.
pub open spec fn config_text(c: ConfigView) -> Seq<char> {
    join_lines(config_lines(c))
}

// ---- well-formedness ------------------------------------------------------------

/// A recent entry survives the file: one line, and nothing for `trim` to take.
pub open spec fn recent_entry_ok(r: Seq<char>) -> bool {
    &&& forall|i: int| 0 <= i < r.len() ==> r[i] != '\n'
    &&& trim(r) == r
}

/// Settings that the file can hold, as reading any text yields them.
pub open spec fn wf(c: ConfigView) -> bool {
    &&& c.volume <= 1000
    &&& allowed_res(c.export_res as nat)
    &&& allowed_fps(c.export_fps as nat)
    &&& c.recent.len() <= MAX_RECENT
    &&& forall|i: int| 0 <= i < c.recent.len() ==> recent_entry_ok(#[trigger] c.recent[i])
}

// ---- recent files --------------------------------------------------------------

/// `std::path::MAIN_SEPARATOR`, the platform's path separator.
#[verifier::external_body]
fn main_separator() -> char {
    std::path::MAIN_SEPARATOR
}

/// A path as its components give it: whether it starts at the root, whether
/// it starts with a `.` (only a leading `.` of a relative path counts), and
/// its other components in order. Repeated separators, `.` components past
/// the first and a trailing separator leave no trace.
pub struct PathShape {
    pub root: bool,
    pub here: bool,
    pub names: Seq<Seq<char>>,
}

/// `s` with every separator written as `/` (on Windows `\` separates too).
pub open spec fn unify_seps(s: Seq<char>, windows: bool) -> Seq<char> {
    s.map_values(|c: char| if windows && c == '\\' { '/' } else { c })
}

/// The pieces of a path that name something: neither empty nor `.`.
pub open spec fn path_names(ps: Seq<Seq<char>>) -> Seq<Seq<char>>
    decreases ps.len(),
{
    if ps.len() == 0 {
        seq![]
    } else {
        let k = path_names(ps.drop_last());
        let p = ps.last();
        if p.len() == 0 || p == seq!['.'] {
            k
        } else {
            k.push(p)
        }
    }
}

/// The components of path `s` (`/`-separated, and `\`-separated too on
/// Windows).
pub open spec fn path_shape(s: Seq<char>, windows: bool) -> PathShape {
    let n = unify_seps(s, windows);
    let ps = split_on(n, '/');
    let root = n.len() > 0 && n[0] == '/';
    PathShape { root, here: !root && ps[0] == seq!['.'], names: path_names(ps) }
}

/// The names of a path as compared: lower-cased on Windows.
pub open spec fn compared_names(names: Seq<Seq<char>>, windows: bool) -> Seq<Seq<char>> {
    if windows {
        names.map_values(|n: Seq<char>| lowercase(n))
    } else {
        names
    }
}

/// Path equality for the recents list: the same components, compared without
/// regard to case on Windows.
pub open spec fn same_path_spec(a: Seq<char>, b: Seq<char>, windows: bool) -> bool {
    let x = path_shape(a, windows);
    let y = path_shape(b, windows);
    &&& x.root == y.root
    &&& x.here == y.here
    &&& compared_names(x.names, windows) == compared_names(y.names, windows)
}

/// Path equality is an equivalence: reflexive, symmetric and transitive, on
/// either kind of platform.
pub proof fn lemma_same_path_equivalence(a: Seq<char>, b: Seq<char>, c: Seq<char>, windows: bool)
    ensures
        same_path_spec(a, a, windows),
        same_path_spec(a, b, windows) == same_path_spec(b, a, windows),
        same_path_spec(a, b, windows) && same_path_spec(b, c, windows) ==> same_path_spec(
            a,
            c,
            windows,
        ),
{
}

proof fn lemma_split_join(x: Seq<char>, y: Seq<char>)
    ensures
        split_on(x + seq!['/'] + y, '/') == split_on(x, '/') + split_on(y, '/'),
    decreases x.len(),
{
    let s = x + seq!['/'] + y;
    lemma_index_of(x, '/');
    let i = index_of(x, '/');
    if 0 <= i < x.len() {
        assert forall|j: int| 0 <= j < i implies s[j] != '/' by {
            assert(s[j] == x[j]);
        }
        assert(s[i] == x[i]);
        lemma_index_of_at(s, '/', i);
        assert(s.take(i) == x.take(i));
        assert(s.skip(i + 1) == x.skip(i + 1) + seq!['/'] + y);
        lemma_split_join(x.skip(i + 1), y);
        assert(split_on(x, '/') == seq![x.take(i)] + split_on(x.skip(i + 1), '/'));
    } else {
        assert forall|j: int| 0 <= j < x.len() implies s[j] != '/' by {
            assert(s[j] == x[j]);
        }
        assert(s[x.len() as int] == '/');
        lemma_index_of_at(s, '/', x.len() as int);
        assert(s.take(x.len() as int) == x);
        assert(s.skip(x.len() as int + 1) == y);
        assert(split_on(x, '/') == seq![x]);
    }
}

proof fn lemma_path_names_concat(p: Seq<Seq<char>>, q: Seq<Seq<char>>)
    ensures
        path_names(p + q) == path_names(p) + path_names(q),
    decreases q.len(),
{
    if q.len() == 0 {
        assert(p + q == p);
    } else {
        lemma_path_names_concat(p, q.drop_last());
        assert((p + q).drop_last() == p + q.drop_last());
        assert((p + q).last() == q.last());
    }
}

/// A path's names are those of its parts: joining two paths with a
/// separator joins their names, whatever either holds; and a single piece
/// with no separator, other than empty or `.`, is exactly one name. So every
/// directory of a path counts, in its place.
pub proof fn lemma_path_names_join(a: Seq<char>, b: Seq<char>, x: Seq<char>, windows: bool)
    ensures
        path_shape(a + seq!['/'] + b, windows).names == path_shape(a, windows).names + path_shape(
            b,
            windows,
        ).names,
        x.len() > 0 && x != seq!['.'] && (forall|i: int|
            0 <= i < x.len() ==> x[i] != '/' && !(windows && x[i] == '\\')) ==> path_shape(
            x,
            windows,
        ).names == seq![x] && !path_shape(x, windows).root,
{
    let ua = unify_seps(a, windows);
    let ub = unify_seps(b, windows);
    assert(unify_seps(a + seq!['/'] + b, windows) =~= ua + seq!['/'] + ub);
    lemma_split_join(ua, ub);
    lemma_path_names_concat(split_on(ua, '/'), split_on(ub, '/'));
    if x.len() > 0 && x != seq!['.'] && (forall|i: int|
        0 <= i < x.len() ==> x[i] != '/' && !(windows && x[i] == '\\')) {
        let ux = unify_seps(x, windows);
        assert(ux =~= x);
        assert forall|j: int| 0 <= j < x.len() implies x[j] != '/' by {}
        lemma_index_of_absent(x, '/');
        assert(split_on(x, '/') == seq![x]);
        assert(seq![x].drop_last() == Seq::<Seq<char>>::empty());
        assert(path_names(Seq::<Seq<char>>::empty()) == Seq::<Seq<char>>::empty());
        assert(path_names(seq![x]) =~= seq![x]);
    }
}

/// Two paths are the same exactly when they agree component by component:
/// both start at the root or neither, both start with `.` or neither, and
/// they hold the same number of names with every name equal in its place
/// (equal once lower-cased, on Windows). So paths that differ in any
/// directory, or in depth, are different paths; off Windows, the same path
/// is the same component structure.
pub proof fn lemma_same_path_components(a: Seq<char>, b: Seq<char>, windows: bool)
    ensures
        ({
            let x = path_shape(a, windows);
            let y = path_shape(b, windows);
            same_path_spec(a, b, windows) <==> {
                &&& x.root == y.root
                &&& x.here == y.here
                &&& x.names.len() == y.names.len()
                &&& forall|i: int|
                    0 <= i < x.names.len() ==> if windows {
                        lowercase(#[trigger] x.names[i]) == lowercase(y.names[i])
                    } else {
                        x.names[i] == y.names[i]
                    }
            }
        }),
        same_path_spec(a, b, false) <==> path_shape(a, false) == path_shape(b, false),
{
    let x = path_shape(a, windows);
    let y = path_shape(b, windows);
    let cx = compared_names(x.names, windows);
    let cy = compared_names(y.names, windows);
    if same_path_spec(a, b, windows) {
        assert(cx.len() == cy.len());
        assert forall|i: int| 0 <= i < x.names.len() implies if windows {
            lowercase(#[trigger] x.names[i]) == lowercase(y.names[i])
        } else {
            x.names[i] == y.names[i]
        } by {
            assert(cx[i] == cy[i]);
        }
    }
    if x.root == y.root && x.here == y.here && x.names.len() == y.names.len() && (forall|i: int|
        0 <= i < x.names.len() ==> if windows {
            lowercase(#[trigger] x.names[i]) == lowercase(y.names[i])
        } else {
            x.names[i] == y.names[i]
        }) {
        assert forall|i: int| 0 <= i < cx.len() implies cx[i] == cy[i] by {
            if windows {
                assert(lowercase(x.names[i]) == lowercase(y.names[i]));
            } else {
                assert(x.names[i] == y.names[i]);
            }
        }
        assert(cx =~= cy);
    }
    let xf = path_shape(a, false);
    let yf = path_shape(b, false);
    if same_path_spec(a, b, false) {
        assert(xf.names =~= yf.names);
    }
}

fn unified(s: &[char], windows: bool) -> (out: Vec<char>)
    ensures
        out@ == unify_seps(s@, windows),
{
    let mut out: Vec<char> = Vec::new();
    let mut i: usize = 0;
    while i < s.len()
        invariant
            i <= s@.len(),
            out@ == unify_seps(s@.take(i as int), windows),
        decreases s.len() - i,
    {
        let c = s[i];
        out.push(if windows && c == '\\' { '/' } else { c });
        assert(unify_seps(s@.take(i + 1), windows) =~= unify_seps(s@.take(i as int), windows).push(
            if windows && c == '\\' { '/' } else { c },
        ));
        i += 1;
    }
    assert(s@.take(s@.len() as int) == s@);
    out
}

/// Whether `p` is the piece `.`.
fn is_dot(p: &[char]) -> (r: bool)
    ensures
        r == (p@ == seq!['.']),
{
    let r = p.len() == 1 && p[0] == '.';
    assert(r ==> p@ =~= seq!['.']);
    r
}

/// The components of path `s`; see [`path_shape`].
fn shape_of(s: &str, windows: bool) -> (r: (bool, bool, Vec<Vec<char>>))
    ensures
        r.0 == path_shape(s@, windows).root,
        r.1 == path_shape(s@, windows).here,
        r.2@.len() == path_shape(s@, windows).names.len(),
        forall|k: int| 0 <= k < r.2@.len() ==> #[trigger] r.2@[k]@ == path_shape(s@, windows).names[k],
{
    let cs = chars_of(s);
    let n = unified(&cs, windows);
    let ps = split_char(&n, '/');
    let ghost sp = split_on(n@, '/');
    proof {
        lemma_split_nonempty(n@, '/');
    }
    let root = n.len() > 0 && n[0] == '/';
    let here = !root && is_dot(&ps[0]);
    let mut names: Vec<Vec<char>> = Vec::new();
    let mut i: usize = 0;
    while i < ps.len()
        invariant
            i <= ps@.len() == sp.len(),
            forall|k: int| 0 <= k < ps@.len() ==> #[trigger] ps@[k]@ == sp[k],
            names@.len() == path_names(sp.take(i as int)).len(),
            forall|k: int| 0 <= k < names@.len() ==> #[trigger] names@[k]@ == path_names(sp.take(i as int))[k],
        decreases ps.len() - i,
    {
        proof {
            assert(sp.take(i + 1).drop_last() == sp.take(i as int));
            assert(sp.take(i + 1).last() == sp[i as int]);
        }
        let p = &ps[i];
        if p.len() != 0 && !is_dot(p) {
            names.push(p.clone());
        }
        i += 1;
    }
    assert(sp.take(sp.len() as int) == sp);
    (root, here, names)
}

/// Whether `a` and `b` hold the same names, compared as [`compared_names`]
/// says.
fn same_names(a: &Vec<Vec<char>>, b: &Vec<Vec<char>>, windows: bool) -> (r: bool)
    ensures
        r == (compared_names(a@.map_values(|v: Vec<char>| v@), windows) == compared_names(
            b@.map_values(|v: Vec<char>| v@),
            windows,
        )),
{
    let ghost av = a@.map_values(|v: Vec<char>| v@);
    let ghost bv = b@.map_values(|v: Vec<char>| v@);
    let ghost ac = compared_names(av, windows);
    let ghost bc = compared_names(bv, windows);
    if a.len() != b.len() {
        assert(ac.len() != bc.len());
        return false;
    }
    let mut i: usize = 0;
    while i < a.len()
        invariant
            i <= a@.len() == b@.len(),
            av == a@.map_values(|v: Vec<char>| v@),
            bv == b@.map_values(|v: Vec<char>| v@),
            ac == compared_names(av, windows),
            bc == compared_names(bv, windows),
            forall|k: int| 0 <= k < i ==> #[trigger] ac[k] == bc[k],
        decreases a.len() - i,
    {
        let eq = if windows {
            let sa = string_of(&a[i]);
            let sb = string_of(&b[i]);
            let la = to_lowercase(sa.as_str());
            let lb = to_lowercase(sb.as_str());
            la == lb
        } else {
            same_chars(&a[i], &b[i])
        };
        assert(av[i as int] == a@[i as int]@ && bv[i as int] == b@[i as int]@);
        if !eq {
            assert(ac[i as int] != bc[i as int]);
            return false;
        }
        i += 1;
    }
    assert(ac =~= bc);
    true
}

/// Path equality, comparing as Windows does where `windows`.
pub fn same_path_with(a: &str, b: &str, windows: bool) -> (r: bool)
    ensures
        r == same_path_spec(a@, b@, windows),
{
    let (ra, ha, na) = shape_of(a, windows);
    let (rb, hb, nb) = shape_of(b, windows);
    let ghost xa = path_shape(a@, windows).names;
    let ghost xb = path_shape(b@, windows).names;
    assert(na@.map_values(|v: Vec<char>| v@) =~= xa);
    assert(nb@.map_values(|v: Vec<char>| v@) =~= xb);
    ra == rb && ha == hb && same_names(&na, &nb, windows)
}

/// Path equality for the recents list — the same components, and on Windows
/// (where the separator is `\`) without regard to case, so
/// `C:\Music\A.mp3` and `c:/music/a.mp3` are one file.
pub fn same_path(a: &str, b: &str) -> (r: bool)
    ensures
        a@ == b@ ==> r,
        r == same_path_spec(a@, b@, true) || r == same_path_spec(a@, b@, false),
{
    same_path_sep(a, b, main_separator())
}

/// Path equality on a platform whose path separator is `sep`: compared as
/// Windows does where `sep` is `\`.
pub fn same_path_sep(a: &str, b: &str, sep: char) -> (r: bool)
    ensures
        r == same_path_spec(a@, b@, sep == '\\'),
{
    same_path_with(a, b, sep == '\\')
}

/// The entries of `recent` that are not the same path as `p`, in order.
pub open spec fn others(recent: Seq<Seq<char>>, p: Seq<char>, windows: bool) -> Seq<Seq<char>>
    decreases recent.len(),
{
    if recent.len() == 0 {
        seq![]
    } else {
        let k = others(recent.drop_last(), p, windows);
        if same_path_spec(recent.last(), p, windows) {
            k
        } else {
            k.push(recent.last())
        }
    }
}

/// The recents list with `p` moved (or added) to the front, capped.
pub open spec fn touched(recent: Seq<Seq<char>>, p: Seq<char>, windows: bool) -> Seq<
    Seq<char>,
> {
    let all = seq![p] + others(recent, p, windows);
    if all.len() > MAX_RECENT {
        all.take(MAX_RECENT as int)
    } else {
        all
    }
}

impl Config {
    /// Remember `p` as the most recent track, folding case as `windows`
    /// says: any entry that is the same path leaves, `p` goes first, and the
    /// list is cut to its cap.
    pub fn touch_recent_with(&mut self, p: &str, windows: bool)
        ensures
            final(self)@ == (ConfigView {
                recent: touched(old(self)@.recent, p@, windows),
                ..old(self)@
            }),
    {
        let mut out: Vec<String> = Vec::new();
        let pc = chars_of(p);
        out.push(string_of(&pc));
        let ghost rv = old(self)@.recent;
        let mut i: usize = 0;
        while i < self.recent.len()
            invariant
                i <= self.recent@.len(),
                self@ == old(self)@,
                rv == self@.recent,
                out@.map_values(|r: String| r@) == seq![p@] + others(
                    rv.take(i as int),
                    p@,
                    windows,
                ),
            decreases self.recent.len() - i,
        {
            proof {
                assert(rv.take(i + 1).drop_last() == rv.take(i as int));
                assert(rv.take(i + 1).last() == self.recent@[i as int]@);
            }
            let ghost before = out@;
            if !same_path_with(self.recent[i].as_str(), p, windows) {
                let r = self.recent[i].clone();
                out.push(r);
                assert(out@.map_values(|r: String| r@) =~= before.map_values(|r: String| r@).push(
                    self.recent@[i as int]@,
                ));
            }
            i += 1;
        }
        assert(rv.take(self.recent.len() as int) == rv);
        if out.len() > MAX_RECENT {
            out.truncate(MAX_RECENT);
        }
        self.recent = out;
        assert(self@.recent =~= touched(rv, p@, windows));
    }

    /// Remember `p` (already made absolute) as the most recent track: deduped
    /// by [`same_path`], first, capped at [`MAX_RECENT`].
    pub fn touch_recent(&mut self, p: &str)
        ensures
            final(self)@ == (ConfigView {
                recent: touched(old(self)@.recent, p@, true),
                ..old(self)@
            }) || final(self)@ == (ConfigView {
                recent: touched(old(self)@.recent, p@, false),
                ..old(self)@
            }),
    {
        self.touch_recent_sep(p, main_separator());
    }

    /// Remember `p` as the most recent track on a platform whose path
    /// separator is `sep` (paths compared as Windows does where it is `\`).
    pub fn touch_recent_sep(&mut self, p: &str, sep: char)
        ensures
            final(self)@ == (ConfigView {
                recent: touched(old(self)@.recent, p@, sep == '\\'),
                ..old(self)@
            }),
    {
        self.touch_recent_with(p, sep == '\\');
    }
}

/// The entries of `recent` whose flag in `keep` is set, in order.
pub open spec fn kept(recent: Seq<Seq<char>>, keep: Seq<bool>) -> Seq<Seq<char>>
    decreases recent.len(),
{
    if recent.len() == 0 {
        seq![]
    } else {
        let k = kept(recent.drop_last(), keep);
        if keep[recent.len() - 1] {
            k.push(recent.last())
        } else {
            k
        }
    }
}

impl Config {
    /// Forgets the recent files that are gone: `exists[i]` says whether the
    /// file of entry `i` is still there; the others stay, in order.
    pub fn keep_existing(&mut self, exists: &[bool])
        requires
            exists@.len() == old(self)@.recent.len(),
        ensures
            final(self)@ == (ConfigView { recent: kept(old(self)@.recent, exists@), ..old(self)@ }),
    {
        let ghost rv = old(self)@.recent;
        let mut out: Vec<String> = Vec::new();
        let mut i: usize = 0;
        while i < self.recent.len()
            invariant
                i <= self.recent@.len(),
                self@ == old(self)@,
                rv == self@.recent,
                exists@.len() == rv.len(),
                out@.map_values(|r: String| r@) == kept(rv.take(i as int), exists@),
            decreases self.recent.len() - i,
        {
            proof {
                assert(rv.take(i + 1).drop_last() == rv.take(i as int));
                assert(rv.take(i + 1).last() == self.recent@[i as int]@);
            }
            let ghost before = out@;
            if exists[i] {
                let r = self.recent[i].clone();
                out.push(r);
                assert(out@.map_values(|r: String| r@) =~= before.map_values(|r: String| r@).push(
                    self.recent@[i as int]@,
                ));
            }
            i += 1;
        }
        assert(rv.take(self.recent.len() as int) == rv);
        self.recent = out;
    }
}

// ---- reading and writing, executable ------------------------------------------

fn lit_theme() -> (r: Vec<char>)
    ensures
        r@ == key_theme(),
{
    vec!['t', 'h', 'e', 'm', 'e']
}

fn lit_volume() -> (r: Vec<char>)
    ensures
        r@ == key_volume(),
{
    vec!['v', 'o', 'l', 'u', 'm', 'e']
}

fn lit_sidebar() -> (r: Vec<char>)
    ensures
        r@ == key_sidebar(),
{
    vec!['s', 'i', 'd', 'e', 'b', 'a', 'r']
}

fn lit_export_res() -> (r: Vec<char>)
    ensures
        r@ == key_export_res(),
{
    vec!['e', 'x', 'p', 'o', 'r', 't', '_', 'r', 'e', 's']
}

fn lit_export_fps() -> (r: Vec<char>)
    ensures
        r@ == key_export_fps(),
{
    vec!['e', 'x', 'p', 'o', 'r', 't', '_', 'f', 'p', 's']
}

fn lit_custom() -> (r: Vec<char>)
    ensures
        r@ == key_custom(),
{
    vec!['c', 'u', 's', 't', 'o', 'm']
}

fn lit_recent() -> (r: Vec<char>)
    ensures
        r@ == key_recent(),
{
    vec!['r', 'e', 'c', 'e', 'n', 't']
}

/// The anchors a `custom=` value sets, if it sets them.
fn read_custom(val: &[char]) -> (r: Option<[[u8; 3]; 4]>)
    ensures
        r == custom_from(val@),
{
    let parts = split_char(val, ',');
    if parts.len() < 4 {
        return None;
    }
    let t0 = trimmed(&parts[0]);
    let t1 = trimmed(&parts[1]);
    let t2 = trimmed(&parts[2]);
    let t3 = trimmed(&parts[3]);
    let p0 = parse_uint(&t0, 16, 0xffff_ffff);
    let p1 = parse_uint(&t1, 16, 0xffff_ffff);
    let p2 = parse_uint(&t2, 16, 0xffff_ffff);
    let p3 = parse_uint(&t3, 16, 0xffff_ffff);
    proof {
        assert(parts@[0]@ == split_on(val@, ',')[0]);
        assert(parts@[1]@ == split_on(val@, ',')[1]);
        assert(parts@[2]@ == split_on(val@, ',')[2]);
        assert(parts@[3]@ == split_on(val@, ',')[3]);
    }
    match (p0, p1, p2, p3) {
        (Some(a), Some(b), Some(c), Some(d)) => Some(
            [rgb_of(a as u32), rgb_of(b as u32), rgb_of(c as u32), rgb_of(d as u32)],
        ),
        _ => None,
    }
}

impl Config {
    /// Applies the setting `key = val` (both already trimmed).
    fn apply_setting(&mut self, key: &[char], val: &[char])
        ensures
            final(self)@ == apply_setting(old(self)@, key@, val@),
    {
        let ghost c = old(self)@;
        if same_chars(key, &lit_theme()) {
            if let Some(t) = parse_uint(val, 10, usize::MAX as u64) {
                self.theme = t as usize;
            }
            assert(self@ == apply_setting(c, key@, val@));
        } else if same_chars(key, &lit_volume()) {
            if let Some(v) = parse_volume(val) {
                self.volume = v;
            }
            assert(self@ == apply_setting(c, key@, val@));
        } else if same_chars(key, &lit_sidebar()) {
            let zero = vec!['0'];
            assert(zero@ == seq!['0']);
            self.sidebar = !same_chars(val, &zero);
            assert(self@ == apply_setting(c, key@, val@));
        } else if same_chars(key, &lit_export_res()) {
            if let Some(r) = parse_uint(val, 10, 0xffff_ffff) {
                if r == 720 || r == 1080 || r == 1440 || r == 2160 {
                    self.export_res = r as u32;
                }
            }
        } else if same_chars(key, &lit_export_fps()) {
            if let Some(f) = parse_uint(val, 10, 0xffff_ffff) {
                if f == 30 || f == 60 {
                    self.export_fps = f as u32;
                }
            }
        } else if same_chars(key, &lit_custom()) {
            if let Some(a) = read_custom(val) {
                self.custom = a;
            }
            assert(self@ == apply_setting(c, key@, val@));
        } else if same_chars(key, &lit_recent()) && self.recent.len() < MAX_RECENT {
            let ghost before = self.recent@;
            self.recent.push(string_of(val));
            assert(self.recent@.map_values(|r: String| r@) =~= before.map_values(|r: String| r@).push(
                val@,
            ));
        }
    }

    /// Applies one line of the settings text.
    fn apply_line(&mut self, line: &[char])
        ensures
            final(self)@ == apply_line(old(self)@, line@),
    {
        match find_char(line, '=') {
            None => {},
            Some(i) => {
                proof {
                    crate::text::lemma_index_of(line@, '=');
                }
                let n = line.len();
                assert(i < n);
                let k = copy_range(line, 0, i);
                let v = copy_range(line, i + 1, n);
                assert(k@ == line@.take(i as int));
                assert(v@ == line@.skip(i + 1));
                let key = trimmed(&k);
                let val = trimmed(&v);
                self.apply_setting(&key, &val);
            },
        }
    }

    /// The settings a text holds: each line applied in order to the defaults.
    pub fn from_text(text: &str) -> (c: Config)
        ensures
            c@ == config_of_text(text@),
            wf(c@),
    {
        proof {
            lemma_text_wf(text@);
        }
        let chars = chars_of(text);
        let ls = split_lines(&chars);
        let mut c = Config::default();
        let ghost all = lines(text@);
        let mut i: usize = 0;
        assert(all.take(0) == Seq::<Seq<char>>::empty());
        while i < ls.len()
            invariant
                i <= ls@.len() == all.len(),
                all == lines(text@),
                forall|k: int| 0 <= k < ls@.len() ==> #[trigger] ls@[k]@ == all[k],
                c@ == apply_lines(default_view(), all.take(i as int)),
            decreases ls.len() - i,
        {
            assert(all.take(i + 1).drop_last() == all.take(i as int));
            assert(all.take(i + 1).last() == ls@[i as int]@);
            c.apply_line(&ls[i]);
            i += 1;
        }
        assert(all.take(ls.len() as int) == all);
        c
    }
}

/// `key=val`.
fn entry_chars(key: &[char], val: &[char]) -> (r: Vec<char>)
    ensures
        r@ == entry(key@, val@),
{
    let mut r: Vec<char> = Vec::new();
    append_chars(&mut r, key);
    r.push('=');
    append_chars(&mut r, val);
    r
}

/// `{:02x}{:02x}{:02x}`.
fn hex6_chars(c: [u8; 3]) -> (r: Vec<char>)
    ensures
        r@ == hex6(c),
{
    let mut r = fmt_fixed(c[0] as u64, 2, 16);
    let g = fmt_fixed(c[1] as u64, 2, 16);
    let b = fmt_fixed(c[2] as u64, 2, 16);
    append_chars(&mut r, &g);
    append_chars(&mut r, &b);
    r
}

fn custom_chars(a: [[u8; 3]; 4]) -> (r: Vec<char>)
    ensures
        r@ == custom_text(a),
{
    let mut r = hex6_chars(a[0]);
    r.push(',');
    append_chars(&mut r, &hex6_chars(a[1]));
    r.push(',');
    append_chars(&mut r, &hex6_chars(a[2]));
    r.push(',');
    append_chars(&mut r, &hex6_chars(a[3]));
    r
}

/// Appends `line` and a `'\n'` to the text built so far.
fn push_line(out: &mut Vec<char>, line: &[char], Ghost(done): Ghost<Seq<Seq<char>>>)
    requires
        old(out)@ == join_lines(done),
    ensures
        final(out)@ == join_lines(done.push(line@)),
{
    append_chars(out, line);
    out.push('\n');
    assert(done.push(line@).drop_last() == done);
}

impl Config {
    /// The settings as the file holds them: one `key=value` line per setting,
    /// then one `recent=` line per recent file.
    pub fn to_text(&self) -> (out: String)
        ensures
            out@ == config_text(self@),
    {
        let ghost c = self@;
        let ghost ls = config_lines(c);
        let mut out: Vec<char> = Vec::new();
        assert(ls.take(0) == Seq::<Seq<char>>::empty());
        push_line(&mut out, &entry_chars(&lit_theme(), &fmt_dec(self.theme as u64)), Ghost(ls.take(0)));
        assert(ls.take(0).push(ls[0]) == ls.take(1));
        push_line(&mut out, &entry_chars(&lit_volume(), &fmt_volume(self.volume)), Ghost(ls.take(1)));
        assert(ls.take(1).push(ls[1]) == ls.take(2));
        let sb = if self.sidebar {
            vec!['1']
        } else {
            vec!['0']
        };
        assert(sb@ == (if self.sidebar {
            seq!['1']
        } else {
            seq!['0']
        }));
        push_line(&mut out, &entry_chars(&lit_sidebar(), &sb), Ghost(ls.take(2)));
        assert(ls.take(2).push(ls[2]) == ls.take(3));
        push_line(
            &mut out,
            &entry_chars(&lit_export_res(), &fmt_dec(self.export_res as u64)),
            Ghost(ls.take(3)),
        );
        assert(ls.take(3).push(ls[3]) == ls.take(4));
        push_line(
            &mut out,
            &entry_chars(&lit_export_fps(), &fmt_dec(self.export_fps as u64)),
            Ghost(ls.take(4)),
        );
        assert(ls.take(4).push(ls[4]) == ls.take(5));
        push_line(&mut out, &entry_chars(&lit_custom(), &custom_chars(self.custom)), Ghost(ls.take(5)));
        assert(ls.take(5).push(ls[5]) == ls.take(6));
        let key = lit_recent();
        let mut i: usize = 0;
        while i < self.recent.len()
            invariant
                i <= self.recent@.len(),
                c == self@,
                ls == config_lines(c),
                ls.len() == 6 + self.recent@.len(),
                key@ == key_recent(),
                out@ == join_lines(ls.take(6 + i)),
            decreases self.recent.len() - i,
        {
            let rc = chars_of(self.recent[i].as_str());
            let line = entry_chars(&key, &rc);
            assert(line@ == ls[6 + i]);
            push_line(&mut out, &line, Ghost(ls.take(6 + i)));
            assert(ls.take(6 + i).push(ls[6 + i]) == ls.take(6 + i + 1));
            i += 1;
        }
        assert(ls.take(6 + self.recent.len()) == ls);
        string_of(&out)
    }
}

// ---- laws -----------------------------------------------------------------------

proof fn lemma_lines_concat(x: Seq<char>, y: Seq<char>)
    requires
        x.len() == 0 || x.last() == '\n',
    ensures
        lines(x + y) == lines(x) + lines(y),
    decreases x.len(),
{
    if x.len() == 0 {
        assert(x + y == y);
        assert(lines(x) == Seq::<Seq<char>>::empty());
        assert(lines(x) + lines(y) == lines(y));
    } else {
        lemma_index_of(x, '\n');
        let i = index_of(x, '\n');
        assert(i >= 0);
        lemma_index_of_at(x + y, '\n', i);
        assert((x + y).take(i) == x.take(i));
        assert((x + y).skip(i + 1) == x.skip(i + 1) + y);
        let x2 = x.skip(i + 1);
        if x2.len() > 0 {
            assert(x2.last() == x.last());
        }
        lemma_lines_concat(x2, y);
        assert(lines(x + y) == seq![strip_cr(x.take(i))] + lines(x2 + y));
        assert(lines(x) == seq![strip_cr(x.take(i))] + lines(x2));
        assert(seq![strip_cr(x.take(i))] + (lines(x2) + lines(y)) == (seq![strip_cr(x.take(i))]
            + lines(x2)) + lines(y));
    }
}

/// A line free of `'\n'` and of a trailing `'\r'`, as text written line by line.
pub open spec fn plain_line(l: Seq<char>) -> bool {
    &&& forall|i: int| 0 <= i < l.len() ==> l[i] != '\n'
    &&& l.len() > 0 ==> l.last() != '\r'
}

proof fn lemma_lines_one(l: Seq<char>)
    requires
        plain_line(l),
    ensures
        lines(l + seq!['\n']) == seq![l],
{
    let x = l + seq!['\n'];
    assert forall|j: int| 0 <= j < l.len() implies x[j] != '\n' by {
        assert(x[j] == l[j]);
    }
    lemma_index_of_at(x, '\n', l.len() as int);
    assert(x.take(l.len() as int) == l);
    assert(x.skip(l.len() as int + 1) == Seq::<char>::empty());
    assert(strip_cr(l) == l);
    assert(lines(x.skip(l.len() as int + 1)) == Seq::<Seq<char>>::empty());
    assert(lines(x) == seq![strip_cr(x.take(l.len() as int))] + lines(x.skip(l.len() as int + 1)));
    assert(seq![l] + Seq::<Seq<char>>::empty() == seq![l]);
}

/// Reading back lines written one per `'\n'` gives the same lines.
pub proof fn lemma_lines_join(ls: Seq<Seq<char>>)
    requires
        forall|k: int| 0 <= k < ls.len() ==> plain_line(#[trigger] ls[k]),
    ensures
        lines(join_lines(ls)) == ls,
    decreases ls.len(),
{
    if ls.len() > 0 {
        let init = ls.drop_last();
        assert forall|k: int| 0 <= k < init.len() implies plain_line(#[trigger] init[k]) by {
            assert(init[k] == ls[k]);
        }
        lemma_lines_join(init);
        lemma_join_ends(init);
        let tail = ls.last() + seq!['\n'];
        assert(join_lines(ls) == join_lines(init) + tail);
        lemma_lines_concat(join_lines(init), tail);
        assert(plain_line(ls[ls.len() - 1]));
        lemma_lines_one(ls.last());
        assert(init + seq![ls.last()] == ls);
    }
}

proof fn lemma_join_ends(ls: Seq<Seq<char>>)
    ensures
        join_lines(ls).len() == 0 || join_lines(ls).last() == '\n',
{
    if ls.len() > 0 {
        assert(join_lines(ls) == join_lines(ls.drop_last()) + ls.last() + seq!['\n']);
    }
}

/// Applying two runs of lines is applying their concatenation.
pub proof fn lemma_apply_lines_concat(c: ConfigView, a: Seq<Seq<char>>, b: Seq<Seq<char>>)
    ensures
        apply_lines(c, a + b) == apply_lines(apply_lines(c, a), b),
    decreases b.len(),
{
    if b.len() == 0 {
        assert(a + b == a);
    } else {
        assert((a + b).drop_last() == a + b.drop_last());
        assert((a + b).last() == b.last());
        lemma_apply_lines_concat(c, a, b.drop_last());
    }
}

/// Digit characters are none of the characters the file's syntax gives a role.
proof fn lemma_digits_plain(s: Seq<char>, radix: nat)
    requires
        radix <= 36,
        all_radix_digits(s, radix),
    ensures
        forall|i: int|
            0 <= i < s.len() ==> !is_ws(#[trigger] s[i]) && s[i] != '=' && s[i] != ','
                && s[i] != '\n' && s[i] != '\r',
{
    assert forall|i: int| 0 <= i < s.len() implies !is_ws(#[trigger] s[i]) && s[i] != '='
        && s[i] != ',' && s[i] != '\n' && s[i] != '\r' by {
        assert(is_radix_digit(s[i], radix));
    }
}

/// A line `key=val` whose key holds no `=`, and whose parts have nothing to
/// trim, sets `key` to `val`.
proof fn lemma_entry(c: ConfigView, key: Seq<char>, val: Seq<char>)
    requires
        forall|i: int| 0 <= i < key.len() ==> key[i] != '=',
        trim(key) == key,
        trim(val) == val,
    ensures
        apply_line(c, entry(key, val)) == apply_setting(c, key, val),
{
    let e = entry(key, val);
    assert forall|j: int| 0 <= j < key.len() implies e[j] != '=' by {
        assert(e[j] == key[j]);
    }
    lemma_index_of_at(e, '=', key.len() as int);
    assert(e.take(key.len() as int) == key);
    assert(e.skip(key.len() as int + 1) == val);
}

proof fn lemma_plain_trim(s: Seq<char>)
    requires
        forall|i: int| 0 <= i < s.len() ==> !is_ws(#[trigger] s[i]),
    ensures
        trim(s) == s,
{
    if s.len() > 0 {
        assert(!is_ws(s[0]));
        assert(!is_ws(s[s.len() - 1]));
    }
    lemma_trim_fixed(s);
}

proof fn lemma_keys()
    ensures
        forall|i: int| 0 <= i < key_theme().len() ==> key_theme()[i] != '=' && !is_ws(#[trigger] key_theme()[i]),
        forall|i: int| 0 <= i < key_volume().len() ==> key_volume()[i] != '=' && !is_ws(#[trigger] key_volume()[i]),
        forall|i: int| 0 <= i < key_sidebar().len() ==> key_sidebar()[i] != '=' && !is_ws(#[trigger] key_sidebar()[i]),
        forall|i: int| 0 <= i < key_export_res().len() ==> key_export_res()[i] != '=' && !is_ws(#[trigger] key_export_res()[i]),
        forall|i: int| 0 <= i < key_export_fps().len() ==> key_export_fps()[i] != '=' && !is_ws(#[trigger] key_export_fps()[i]),
        forall|i: int| 0 <= i < key_custom().len() ==> key_custom()[i] != '=' && !is_ws(#[trigger] key_custom()[i]),
        forall|i: int| 0 <= i < key_recent().len() ==> key_recent()[i] != '=' && !is_ws(#[trigger] key_recent()[i]),
        trim(key_theme()) == key_theme(),
        trim(key_volume()) == key_volume(),
        trim(key_sidebar()) == key_sidebar(),
        trim(key_export_res()) == key_export_res(),
        trim(key_export_fps()) == key_export_fps(),
        trim(key_custom()) == key_custom(),
        trim(key_recent()) == key_recent(),
        key_volume() != key_theme(),
        key_sidebar() != key_theme(),
        key_sidebar() != key_volume(),
        key_export_res() != key_theme(),
        key_export_res() != key_volume(),
        key_export_res() != key_sidebar(),
        key_export_fps() != key_theme(),
        key_export_fps() != key_volume(),
        key_export_fps() != key_sidebar(),
        key_export_fps() != key_export_res(),
        key_custom() != key_theme(),
        key_custom() != key_volume(),
        key_custom() != key_sidebar(),
        key_custom() != key_export_res(),
        key_custom() != key_export_fps(),
        key_recent() != key_theme(),
        key_recent() != key_volume(),
        key_recent() != key_sidebar(),
        key_recent() != key_export_res(),
        key_recent() != key_export_fps(),
        key_recent() != key_custom(),
{
    lemma_plain_trim(key_theme());
    lemma_plain_trim(key_volume());
    lemma_plain_trim(key_sidebar());
    lemma_plain_trim(key_export_res());
    lemma_plain_trim(key_export_fps());
    lemma_plain_trim(key_custom());
    lemma_plain_trim(key_recent());
    assert(key_volume()[0] != key_custom()[0]);
    assert(key_volume()[0] != key_recent()[0]);
    assert(key_custom()[0] != key_recent()[0]);
    assert(key_export_fps()[7] != key_export_res()[7]);
}

/// A decimal number as written reads back as itself.
proof fn lemma_dec_reads_back(n: nat, max: nat)
    requires
        n <= max,
    ensures
        parse_bounded(dec(n), 10, max) == Some(n),
        trim(dec(n)) == dec(n),
        forall|i: int| 0 <= i < dec(n).len() ==> #[trigger] dec(n)[i] != '=' && dec(n)[i] != ','
            && dec(n)[i] != '\n' && dec(n)[i] != '\r' && !is_ws(dec(n)[i]),
{
    lemma_dec(n);
    lemma_digits_plain(dec(n), 10);
    lemma_plain_trim(dec(n));
}

proof fn lemma_hex6(c: [u8; 3])
    ensures
        all_radix_digits(hex6(c), 16),
        hex6(c).len() == 6,
        hex6(c)[0] != '+',
        radix_value(hex6(c), 16) == hex_spec(c),
        parse_bounded(hex6(c), 16, u32::MAX as nat) == Some(hex_spec(c)),
        trim(hex6(c)) == hex6(c),
        forall|i: int| 0 <= i < hex6(c).len() ==> #[trigger] hex6(c)[i] != ',' && hex6(c)[i] != '='
            && hex6(c)[i] != '\n' && hex6(c)[i] != '\r' && !is_ws(hex6(c)[i]),
{
    let a = fixed_digits(c[0] as nat, 2, 16);
    let b = fixed_digits(c[1] as nat, 2, 16);
    let d = fixed_digits(c[2] as nat, 2, 16);
    lemma_fixed_digits(c[0] as nat, 2, 16);
    lemma_fixed_digits(c[1] as nat, 2, 16);
    lemma_fixed_digits(c[2] as nat, 2, 16);
    reveal_with_fuel(pow_nat, 3);
    assert(pow_nat(16, 2) == 256);
    lemma_value_concat(a, b, 16);
    lemma_value_concat(a + b, d, 16);
    let h = hex6(c);
    assert(h == (a + b) + d);
    assert(all_radix_digits(h, 16)) by {
        assert forall|i: int| 0 <= i < h.len() implies is_radix_digit(#[trigger] h[i], 16) by {
            if i < 2 {
                assert(h[i] == a[i]);
            } else if i < 4 {
                assert(h[i] == b[i - 2]);
            } else {
                assert(h[i] == d[i - 4]);
            }
        }
    }
    assert(h[0] == a[0]);
    lemma_rgb_hex(c);
    lemma_digits_plain(h, 16);
    lemma_plain_trim(h);
}

proof fn lemma_split_comma(a: Seq<char>, rest: Seq<char>)
    requires
        forall|i: int| 0 <= i < a.len() ==> a[i] != ',',
    ensures
        split_on(a + seq![','] + rest, ',') == seq![a] + split_on(rest, ','),
{
    let s = a + seq![','] + rest;
    assert forall|j: int| 0 <= j < a.len() implies s[j] != ',' by {
        assert(s[j] == a[j]);
    }
    lemma_index_of_at(s, ',', a.len() as int);
    assert(s.take(a.len() as int) == a);
    assert(s.skip(a.len() as int + 1) == rest);
}

proof fn lemma_split_none(a: Seq<char>)
    requires
        forall|i: int| 0 <= i < a.len() ==> a[i] != ',',
    ensures
        split_on(a, ',') == seq![a],
{
    lemma_index_of_absent(a, ',');
}

/// The custom colors as written read back as themselves.
proof fn lemma_custom_round_trip(x: [[u8; 3]; 4])
    ensures
        custom_from(custom_text(x)) == Some(x),
        trim(custom_text(x)) == custom_text(x),
{
    lemma_hex6(x[0]);
    lemma_hex6(x[1]);
    lemma_hex6(x[2]);
    lemma_hex6(x[3]);
    let (h0, h1, h2, h3) = (hex6(x[0]), hex6(x[1]), hex6(x[2]), hex6(x[3]));
    let t = custom_text(x);
    lemma_split_none(h3);
    lemma_split_comma(h2, h3);
    assert(h2 + seq![','] + h3 == h2 + seq![','] + h3);
    lemma_split_comma(h1, h2 + seq![','] + h3);
    lemma_split_comma(h0, h1 + seq![','] + (h2 + seq![','] + h3));
    assert(t == h0 + seq![','] + (h1 + seq![','] + (h2 + seq![','] + h3)));
    let parts = split_on(t, ',');
    assert(parts == seq![h0, h1, h2, h3]);
    assert(custom_field(parts[0]) == Some(hex_spec(x[0])));
    assert(custom_from(t) == Some(
        [rgb_spec(hex_spec(x[0])), rgb_spec(hex_spec(x[1])), rgb_spec(hex_spec(x[2])), rgb_spec(hex_spec(x[3]))],
    ));
    lemma_rgb_hex(x[0]);
    lemma_rgb_hex(x[1]);
    lemma_rgb_hex(x[2]);
    lemma_rgb_hex(x[3]);
    assert([rgb_spec(hex_spec(x[0])), rgb_spec(hex_spec(x[1])), rgb_spec(hex_spec(x[2])), rgb_spec(hex_spec(x[3]))] =~= x);
    assert(t[0] == h0[0]);
    assert(t[t.len() - 1] == h3[5]);
    lemma_trim_fixed(t);
}

proof fn lemma_set_theme(x: ConfigView, n: nat)
    requires
        n <= usize::MAX,
    ensures
        apply_line(x, entry(key_theme(), dec(n))) == (ConfigView { theme: n as usize, ..x }),
{
    lemma_keys();
    lemma_dec_reads_back(n, usize::MAX as nat);
    lemma_entry(x, key_theme(), dec(n));
}

proof fn lemma_set_volume(x: ConfigView, v: nat)
    requires
        v <= 1000,
    ensures
        apply_line(x, entry(key_volume(), milli_text(v))) == (ConfigView { volume: v as u16, ..x }),
{
    lemma_keys();
    crate::volume::lemma_volume_round_trip(v);
    lemma_volume_trim(v);
    lemma_entry(x, key_volume(), milli_text(v));
}

proof fn lemma_set_sidebar(x: ConfigView, b: bool)
    ensures
        apply_line(
            x,
            entry(
                key_sidebar(),
                if b {
                    seq!['1']
                } else {
                    seq!['0']
                },
            ),
        ) == (ConfigView { sidebar: b, ..x }),
{
    lemma_keys();
    let sb = if b {
        seq!['1']
    } else {
        seq!['0']
    };
    lemma_plain_trim(sb);
    lemma_entry(x, key_sidebar(), sb);
    if b {
        assert(sb[0] != seq!['0'][0]);
    }
}

proof fn lemma_set_res(x: ConfigView, r: nat)
    requires
        allowed_res(r),
    ensures
        apply_line(x, entry(key_export_res(), dec(r))) == (ConfigView { export_res: r as u32, ..x }),
{
    lemma_keys();
    lemma_dec_reads_back(r, u32::MAX as nat);
    lemma_entry(x, key_export_res(), dec(r));
}

proof fn lemma_set_fps(x: ConfigView, f: nat)
    requires
        allowed_fps(f),
    ensures
        apply_line(x, entry(key_export_fps(), dec(f))) == (ConfigView { export_fps: f as u32, ..x }),
{
    lemma_keys();
    lemma_dec_reads_back(f, u32::MAX as nat);
    lemma_entry(x, key_export_fps(), dec(f));
}

proof fn lemma_set_custom(x: ConfigView, a: [[u8; 3]; 4])
    ensures
        apply_line(x, entry(key_custom(), custom_text(a))) == (ConfigView { custom: a, ..x }),
{
    lemma_keys();
    lemma_custom_round_trip(a);
    lemma_entry(x, key_custom(), custom_text(a));
}

/// The six setting lines, read over the defaults, set every setting but the
/// recent files.
#[verifier::spinoff_prover]
#[verifier::rlimit(60)]
proof fn lemma_fixed_lines(c: ConfigView)
    requires
        wf(c),
    ensures
        apply_lines(default_view(), config_lines(c).take(6)) == (ConfigView {
            recent: seq![],
            ..c
        }),
{
    let ls = config_lines(c);
    let d0 = default_view();
    let s1 = ConfigView { theme: c.theme, ..d0 };
    let s2 = ConfigView { volume: c.volume, ..s1 };
    let s3 = ConfigView { sidebar: c.sidebar, ..s2 };
    let s4 = ConfigView { export_res: c.export_res, ..s3 };
    let s5 = ConfigView { export_fps: c.export_fps, ..s4 };
    let s6 = ConfigView { custom: c.custom, ..s5 };
    lemma_set_theme(d0, c.theme as nat);
    lemma_set_volume(s1, c.volume as nat);
    lemma_set_sidebar(s2, c.sidebar);
    lemma_set_res(s3, c.export_res as nat);
    lemma_set_fps(s4, c.export_fps as nat);
    lemma_set_custom(s5, c.custom);
    assert(ls.take(0) == Seq::<Seq<char>>::empty());
    assert(ls[0] == entry(key_theme(), dec(c.theme as nat)));
    assert(ls[1] == entry(key_volume(), milli_text(c.volume as nat)));
    assert(ls[3] == entry(key_export_res(), dec(c.export_res as nat)));
    assert(ls[4] == entry(key_export_fps(), dec(c.export_fps as nat)));
    assert(ls[5] == entry(key_custom(), custom_text(c.custom)));
    assert(ls.take(1).last() == ls[0]);
    assert(ls.take(2).last() == ls[1]);
    assert(ls.take(3).last() == ls[2]);
    assert(ls.take(4).last() == ls[3]);
    assert(ls.take(5).last() == ls[4]);
    assert(ls.take(6).last() == ls[5]);
    assert(ls.take(1).drop_last() == ls.take(0));
    assert(ls.take(2).drop_last() == ls.take(1));
    assert(ls.take(3).drop_last() == ls.take(2));
    assert(ls.take(4).drop_last() == ls.take(3));
    assert(ls.take(5).drop_last() == ls.take(4));
    assert(ls.take(6).drop_last() == ls.take(5));
    assert(ls.len() >= 6);
    assert(apply_lines(d0, ls.take(0)) == d0);
    assert(apply_lines(d0, ls.take(1)) == apply_line(apply_lines(d0, ls.take(0)), ls[0]));
    assert(apply_lines(d0, ls.take(1)) == s1);
    assert(apply_lines(d0, ls.take(2)) == apply_line(apply_lines(d0, ls.take(1)), ls[1]));
    assert(apply_lines(d0, ls.take(2)) == s2);
    assert(apply_lines(d0, ls.take(3)) == apply_line(apply_lines(d0, ls.take(2)), ls[2]));
    assert(apply_lines(d0, ls.take(3)) == s3);
    assert(apply_lines(d0, ls.take(4)) == apply_line(apply_lines(d0, ls.take(3)), ls[3]));
    assert(apply_lines(d0, ls.take(4)) == s4);
    assert(apply_lines(d0, ls.take(5)) == apply_line(apply_lines(d0, ls.take(4)), ls[4]));
    assert(apply_lines(d0, ls.take(5)) == s5);
    assert(apply_lines(d0, ls.take(6)) == apply_line(apply_lines(d0, ls.take(5)), ls[5]));
    assert(apply_lines(d0, ls.take(6)) == s6);
    assert(s6 == ConfigView { recent: seq![], ..c });
}

proof fn lemma_volume_trim(v: nat)
    requires
        v <= 1000,
    ensures
        trim(milli_text(v)) == milli_text(v),
        forall|i: int| 0 <= i < milli_text(v).len() ==> #[trigger] milli_text(v)[i] != '\n'
            && milli_text(v)[i] != '\r',
{
    let a = dec(v / 1000);
    let f = fixed_digits(v % 1000, 3, 10);
    lemma_dec(v / 1000);
    lemma_fixed_digits(v % 1000, 3, 10);
    lemma_digits_plain(a, 10);
    lemma_digits_plain(f, 10);
    let t = milli_text(v);
    assert forall|i: int| 0 <= i < t.len() implies !is_ws(#[trigger] t[i]) && t[i] != '\n'
        && t[i] != '\r' by {
        if i < a.len() {
            assert(t[i] == a[i]);
        } else if i == a.len() {
            assert(t[i] == '.');
        } else {
            assert(t[i] == f[i - a.len() - 1]);
        }
    }
    lemma_plain_trim(t);
}

/// The `recent=` lines, read over settings with no recent files, set them.
proof fn lemma_recent_lines(c: ConfigView, rs: Seq<Seq<char>>)
    requires
        c.recent == Seq::<Seq<char>>::empty(),
        rs.len() <= MAX_RECENT,
        forall|i: int| 0 <= i < rs.len() ==> recent_entry_ok(#[trigger] rs[i]),
    ensures
        apply_lines(c, rs.map_values(|r: Seq<char>| entry(key_recent(), r))) == (ConfigView {
            recent: rs,
            ..c
        }),
    decreases rs.len(),
{
    let ls = rs.map_values(|r: Seq<char>| entry(key_recent(), r));
    if rs.len() == 0 {
        assert(ls.len() == 0);
        assert(rs =~= c.recent);
    } else {
        let init = rs.drop_last();
        assert forall|i: int| 0 <= i < init.len() implies recent_entry_ok(#[trigger] init[i]) by {
            assert(init[i] == rs[i]);
        }
        lemma_recent_lines(c, init);
        assert(ls.drop_last() == init.map_values(|r: Seq<char>| entry(key_recent(), r)));
        let prev = ConfigView { recent: init, ..c };
        assert(recent_entry_ok(rs[rs.len() - 1]));
        lemma_keys();
        lemma_entry(prev, key_recent(), rs.last());
        assert(ls.last() == entry(key_recent(), rs.last()));
        assert(init.push(rs.last()) == rs);
    }
}

/// Reading back what `to_text` writes gives the same settings, for any
/// settings the file can hold.
pub proof fn lemma_text_round_trip(c: ConfigView)
    requires
        wf(c),
    ensures
        config_of_text(config_text(c)) == c,
{
    let ls = config_lines(c);
    let rl = c.recent.map_values(|r: Seq<char>| entry(key_recent(), r));
    lemma_keys();
    lemma_dec_reads_back(c.theme as nat, usize::MAX as nat);
    lemma_dec_reads_back(c.export_res as nat, u32::MAX as nat);
    lemma_dec_reads_back(c.export_fps as nat, u32::MAX as nat);
    lemma_volume_trim(c.volume as nat);
    lemma_custom_round_trip(c.custom);
    lemma_hex6(c.custom[3]);
    assert forall|k: int| 0 <= k < ls.len() implies plain_line(#[trigger] ls[k]) by {
        lemma_line_plain(c, k);
    }
    lemma_lines_join(ls);
    assert(ls == ls.take(6) + rl);
    lemma_apply_lines_concat(default_view(), ls.take(6), rl);
    lemma_fixed_lines(c);
    lemma_recent_lines(ConfigView { recent: seq![], ..c }, c.recent);
    assert(ConfigView { recent: c.recent, ..ConfigView { recent: seq![], ..c } } == c);
}

proof fn lemma_entry_plain(key: Seq<char>, val: Seq<char>)
    requires
        key.len() > 0,
        forall|i: int| 0 <= i < key.len() ==> key[i] != '\n' && !is_ws(#[trigger] key[i]),
        forall|i: int| 0 <= i < val.len() ==> #[trigger] val[i] != '\n',
        val.len() > 0 ==> !is_ws(val.last()),
    ensures
        plain_line(entry(key, val)),
{
    let e = entry(key, val);
    assert forall|i: int| 0 <= i < e.len() implies e[i] != '\n' by {
        if i < key.len() {
            assert(e[i] == key[i]);
        } else if i > key.len() {
            assert(e[i] == val[i - key.len() - 1]);
        }
    }
    if val.len() > 0 {
        assert(e.last() == val.last());
    } else {
        assert(e.last() == '=');
    }
}

proof fn lemma_line_plain(c: ConfigView, k: int)
    requires
        wf(c),
        0 <= k < config_lines(c).len(),
    ensures
        plain_line(config_lines(c)[k]),
{
    let ls = config_lines(c);
    lemma_keys();
    lemma_dec_reads_back(c.theme as nat, usize::MAX as nat);
    lemma_dec_reads_back(c.export_res as nat, u32::MAX as nat);
    lemma_dec_reads_back(c.export_fps as nat, u32::MAX as nat);
    lemma_volume_trim(c.volume as nat);
    lemma_custom_round_trip(c.custom);
    if k == 0 {
        lemma_entry_plain(key_theme(), dec(c.theme as nat));
    } else if k == 1 {
        let t = milli_text(c.volume as nat);
        crate::text::lemma_trim_ends(t);
        lemma_entry_plain(key_volume(), t);
    } else if k == 2 {
        let sb = if c.sidebar {
            seq!['1']
        } else {
            seq!['0']
        };
        lemma_entry_plain(key_sidebar(), sb);
    } else if k == 3 {
        lemma_entry_plain(key_export_res(), dec(c.export_res as nat));
    } else if k == 4 {
        lemma_entry_plain(key_export_fps(), dec(c.export_fps as nat));
    } else if k == 5 {
        let t = custom_text(c.custom);
        crate::text::lemma_trim_ends(t);
        lemma_custom_plain(c.custom);
        lemma_entry_plain(key_custom(), t);
    } else {
        let r = c.recent[k - 6];
        assert(recent_entry_ok(r));
        crate::text::lemma_trim_ends(r);
        assert(ls[k] == entry(key_recent(), r));
        lemma_entry_plain(key_recent(), r);
    }
}

proof fn lemma_custom_plain(x: [[u8; 3]; 4])
    ensures
        forall|i: int| 0 <= i < custom_text(x).len() ==> #[trigger] custom_text(x)[i] != '\n',
{
    lemma_hex6(x[0]);
    lemma_hex6(x[1]);
    lemma_hex6(x[2]);
    lemma_hex6(x[3]);
    let t = custom_text(x);
    assert forall|i: int| 0 <= i < t.len() implies #[trigger] t[i] != '\n' by {
        if i < 6 {
            assert(t[i] == hex6(x[0])[i]);
        } else if i == 6 {
        } else if i < 13 {
            assert(t[i] == hex6(x[1])[i - 7]);
        } else if i == 13 {
        } else if i < 20 {
            assert(t[i] == hex6(x[2])[i - 14]);
        } else if i == 20 {
        } else {
            assert(t[i] == hex6(x[3])[i - 21]);
        }
    }
}

proof fn lemma_lines_free_of_newlines(s: Seq<char>)
    ensures
        forall|k: int, j: int|
            0 <= k < lines(s).len() && 0 <= j < lines(s)[k].len() ==> #[trigger] lines(s)[k][j]
                != '\n',
    decreases s.len(),
{
    if s.len() > 0 {
        lemma_index_of(s, '\n');
        let i = index_of(s, '\n');
        if 0 <= i < s.len() {
            lemma_lines_free_of_newlines(s.skip(i + 1));
            let first = strip_cr(s.take(i));
            assert forall|k: int, j: int|
                0 <= k < lines(s).len() && 0 <= j < lines(s)[k].len() implies #[trigger] lines(
                s,
            )[k][j] != '\n' by {
                if k == 0 {
                    assert(lines(s)[0] == first);
                    assert(first[j] == s[j]);
                } else {
                    assert(lines(s)[k] == lines(s.skip(i + 1))[k - 1]);
                }
            }
        } else {
            assert(lines(s) == seq![s]);
        }
    }
}

/// One line free of newlines keeps settings well-formed.
proof fn lemma_apply_line_wf(c: ConfigView, line: Seq<char>)
    requires
        wf(c),
        forall|j: int| 0 <= j < line.len() ==> line[j] != '\n',
    ensures
        wf(apply_line(c, line)),
{
    if let Some((k, v)) = split_once(line, '=') {
        lemma_index_of(line, '=');
        let i = index_of(line, '=');
        assert(v == line.skip(i + 1));
        assert forall|j: int| 0 <= j < v.len() implies v[j] != '\n' by {
            assert(v[j] == line[j + i + 1]);
        }
        let val = trim(v);
        crate::text::lemma_trim_lacks(v, '\n');
        crate::text::lemma_trim_ends(v);
        lemma_volume_at_most_one(val);
        let key = trim(k);
        let d = apply_setting(c, key, val);
        if key == key_recent() && c.recent.len() < MAX_RECENT && key != key_theme() && key
            != key_volume() && key != key_sidebar() && key != key_export_res() && key
            != key_export_fps() && key != key_custom() {
            assert(d.recent == c.recent.push(val));
            assert forall|j: int| 0 <= j < d.recent.len() implies recent_entry_ok(#[trigger] d.recent[j]) by {
                if j < c.recent.len() {
                    assert(d.recent[j] == c.recent[j]);
                }
            }
        }
    }
}

/// Reading any text gives settings the file can hold.
pub proof fn lemma_text_wf(t: Seq<char>)
    ensures
        wf(config_of_text(t)),
{
    lemma_lines_free_of_newlines(t);
    lemma_apply_lines_wf(default_view(), lines(t));
}

proof fn lemma_apply_lines_wf(c: ConfigView, ls: Seq<Seq<char>>)
    requires
        wf(c),
        forall|k: int, j: int| 0 <= k < ls.len() && 0 <= j < ls[k].len() ==> #[trigger] ls[k][j] != '\n',
    ensures
        wf(apply_lines(c, ls)),
    decreases ls.len(),
{
    if ls.len() > 0 {
        let init = ls.drop_last();
        assert forall|k: int, j: int| 0 <= k < init.len() && 0 <= j < init[k].len() implies #[trigger] init[k][j] != '\n' by {
            assert(init[k] == ls[k]);
        }
        lemma_apply_lines_wf(c, init);
        let last = ls.last();
        assert forall|j: int| 0 <= j < last.len() implies last[j] != '\n' by {
            assert(ls[ls.len() - 1][j] != '\n');
        }
        lemma_apply_line_wf(apply_lines(c, init), last);
    }
}

/// Touching a path that survives the file keeps settings well-formed; the
/// path is first, and no other entry is the same path.
pub proof fn lemma_touched(c: ConfigView, p: Seq<char>, windows: bool)
    requires
        wf(c),
        recent_entry_ok(p),
    ensures
        wf(ConfigView { recent: touched(c.recent, p, windows), ..c }),
        touched(c.recent, p, windows)[0] == p,
        forall|i: int|
            1 <= i < touched(c.recent, p, windows).len() ==> !same_path_spec(
                #[trigger] touched(c.recent, p, windows)[i],
                p,
                windows,
            ),
{
    lemma_others(c.recent, p, windows);
    let all = seq![p] + others(c.recent, p, windows);
    let t = touched(c.recent, p, windows);
    assert forall|i: int| 0 <= i < t.len() implies recent_entry_ok(#[trigger] t[i]) by {
        assert(t[i] == all[i]);
        if i > 0 {
            assert(all[i] == others(c.recent, p, windows)[i - 1]);
        }
    }
    assert forall|i: int| 1 <= i < t.len() implies !same_path_spec(#[trigger] t[i], p, windows) by {
        assert(t[i] == all[i]);
        assert(all[i] == others(c.recent, p, windows)[i - 1]);
    }
}

proof fn lemma_others(r: Seq<Seq<char>>, p: Seq<char>, windows: bool)
    ensures
        others(r, p, windows).len() <= r.len(),
        forall|i: int|
            0 <= i < others(r, p, windows).len() ==> !same_path_spec(
                #[trigger] others(r, p, windows)[i],
                p,
                windows,
            ) && exists|j: int| 0 <= j < r.len() && r[j] == others(r, p, windows)[i],
    decreases r.len(),
{
    if r.len() > 0 {
        let init = r.drop_last();
        lemma_others(init, p, windows);
        let k = others(init, p, windows);
        assert forall|i: int| 0 <= i < others(r, p, windows).len() implies !same_path_spec(
            #[trigger] others(r, p, windows)[i],
            p,
            windows,
        ) && exists|j: int| 0 <= j < r.len() && r[j] == others(r, p, windows)[i] by {
            if i < k.len() {
                assert(others(r, p, windows)[i] == k[i]);
                let j = choose|j: int| 0 <= j < init.len() && init[j] == k[i];
                assert(r[j] == init[j]);
            } else {
                assert(others(r, p, windows)[i] == r.last());
                assert(r[r.len() - 1] == r.last());
            }
        }
    }
}

/// Forgetting recent files keeps settings well-formed, and keeps only
/// entries that were there.
pub proof fn lemma_kept(c: ConfigView, keep: Seq<bool>)
    requires
        wf(c),
        keep.len() == c.recent.len(),
    ensures
        wf(ConfigView { recent: kept(c.recent, keep), ..c }),
        kept(c.recent, keep).len() <= c.recent.len(),
        forall|i: int|
            0 <= i < kept(c.recent, keep).len() ==> c.recent.contains(
                #[trigger] kept(c.recent, keep)[i],
            ),
{
    lemma_kept_sub(c.recent, keep);
    let k = kept(c.recent, keep);
    assert forall|i: int| 0 <= i < k.len() implies recent_entry_ok(#[trigger] k[i]) by {
        let j = choose|j: int| 0 <= j < c.recent.len() && c.recent[j] == k[i];
        assert(recent_entry_ok(c.recent[j]));
    }
}

proof fn lemma_kept_sub(r: Seq<Seq<char>>, keep: Seq<bool>)
    ensures
        kept(r, keep).len() <= r.len(),
        forall|i: int| 0 <= i < kept(r, keep).len() ==> r.contains(#[trigger] kept(r, keep)[i]),
    decreases r.len(),
{
    if r.len() > 0 {
        let init = r.drop_last();
        lemma_kept_sub(init, keep);
        let k = kept(init, keep);
        assert forall|i: int| 0 <= i < kept(r, keep).len() implies r.contains(
            #[trigger] kept(r, keep)[i],
        ) by {
            if i < k.len() {
                assert(kept(r, keep)[i] == k[i]);
                let j = choose|j: int| 0 <= j < init.len() && init[j] == k[i];
                assert(r[j] == init[j]);
            } else {
                assert(kept(r, keep)[i] == r.last());
                assert(r[r.len() - 1] == r.last());
            }
        }
    }
}

/// A key the settings file knows.
pub open spec fn known_key(k: Seq<char>) -> bool {
    ||| k == key_theme()
    ||| k == key_volume()
    ||| k == key_sidebar()
    ||| k == key_export_res()
    ||| k == key_export_fps()
    ||| k == key_custom()
    ||| k == key_recent()
}

proof fn lemma_lines_one_raw(l: Seq<char>)
    requires
        forall|i: int| 0 <= i < l.len() ==> l[i] != '\n',
    ensures
        lines(l + seq!['\n']) == seq![strip_cr(l)],
{
    let x = l + seq!['\n'];
    assert forall|j: int| 0 <= j < l.len() implies x[j] != '\n' by {
        assert(x[j] == l[j]);
    }
    lemma_index_of_at(x, '\n', l.len() as int);
    assert(x.take(l.len() as int) == l);
    assert(x.skip(l.len() as int + 1) == Seq::<char>::empty());
    assert(lines(x.skip(l.len() as int + 1)) == Seq::<Seq<char>>::empty());
    assert(seq![strip_cr(l)] + Seq::<Seq<char>>::empty() == seq![strip_cr(l)]);
}

/// Lines the file does not understand are ignored wherever they stand, so
/// old builds read new files and new builds old ones: a line with an unknown
/// key (or none at all) between two runs of whole lines leaves the settings
/// read as they were without it.
pub proof fn lemma_unknown_keys_ignored(a: Seq<char>, line: Seq<char>, b: Seq<char>)
    requires
        a.len() == 0 || a.last() == '\n',
        forall|i: int| 0 <= i < line.len() ==> line[i] != '\n',
        match split_once(strip_cr(line), '=') {
            Some((k, v)) => !known_key(trim(k)),
            None => true,
        },
    ensures
        config_of_text(a + line + seq!['\n'] + b) == config_of_text(a + b),
{
    let l = line + seq!['\n'];
    let r = strip_cr(line);
    assert(a + line + seq!['\n'] + b == a + (l + b));
    lemma_lines_concat(a, l + b);
    lemma_lines_concat(l, b);
    lemma_lines_one_raw(line);
    lemma_lines_concat(a, b);
    let d = default_view();
    lemma_apply_lines_concat(d, lines(a), seq![r] + lines(b));
    lemma_apply_lines_concat(apply_lines(d, lines(a)), seq![r], lines(b));
    lemma_apply_lines_concat(d, lines(a), lines(b));
    let c = apply_lines(d, lines(a));
    assert(seq![r].drop_last() == Seq::<Seq<char>>::empty());
    assert(apply_lines(c, Seq::<Seq<char>>::empty()) == c);
    assert(apply_lines(c, seq![r]) == apply_line(c, r));
    assert(apply_line(c, r) == c);
    assert(lines(a + (l + b)) == lines(a) + (seq![r] + lines(b)));
}

/// A line the file does not understand: no `=`, or a key none of the
/// settings has.
pub open spec fn unknown_line(x: Seq<char>) -> bool {
    match split_once(x, '=') {
        Some((k, v)) => !known_key(trim(k)),
        None => true,
    }
}

/// Lines joined by newlines, with no newline after the last.
pub open spec fn join_nl(ls: Seq<Seq<char>>) -> Seq<char> {
    if ls.len() == 0 {
        seq![]
    } else {
        join_lines(ls.drop_last()) + ls.last()
    }
}

/// `l` holds no `'\n'`: it is one line.
pub open spec fn one_line(l: Seq<char>) -> bool {
    forall|i: int| 0 <= i < l.len() ==> l[i] != '\n'
}

/// A trailing whitespace character does not reach what `trim` leaves.
proof fn lemma_trim_drop_ws(v: Seq<char>)
    requires
        v.len() > 0,
        is_ws(v.last()),
    ensures
        trim(v) == trim(v.drop_last()),
    decreases v.len(),
{
    if is_ws(v[0]) {
        if v.len() > 1 {
            let w = v.drop_first();
            assert(v.drop_last().drop_first() == w.drop_last());
            assert(w.last() == v.last());
            assert(v.drop_last()[0] == v[0]);
            assert(trim_start(v) == trim_start(w));
            assert(trim_start(v.drop_last()) == trim_start(w.drop_last()));
            lemma_trim_drop_ws(w);
            assert(trim(v) == trim(w));
            assert(trim(v.drop_last()) == trim(w.drop_last()));
        } else {
            assert(v.drop_first().len() == 0);
            assert(trim_start(v) == trim_start(v.drop_first()));
            assert(trim_start(v.drop_first()) == v.drop_first());
            assert(trim_start(v.drop_last()) == v.drop_last());
            assert(trim_end(v.drop_first()) == v.drop_first());
            assert(trim_end(v.drop_last()) == v.drop_last());
            assert(v.drop_last() =~= v.drop_first());
        }
    } else {
        assert(v.len() > 1);
        assert(v.drop_last()[0] == v[0]);
        assert(trim_start(v) == v);
        assert(trim_start(v.drop_last()) == v.drop_last());
        assert(trim_end(v) == trim_end(v.drop_last()));
    }
}

/// Whether a line ends in `'\r'` does not change what it does: the `'\r'`
/// can only stand in the value, which is trimmed.
proof fn lemma_apply_line_cr(c: ConfigView, l: Seq<char>)
    requires
        one_line(l),
    ensures
        apply_line(c, strip_cr(l)) == apply_line(c, l),
{
    if l.len() > 0 && l.last() == '\r' {
        let m = l.drop_last();
        assert(strip_cr(l) == m);
        lemma_index_of(l, '=');
        let i = index_of(l, '=');
        if i >= 0 {
            assert(i < l.len() - 1);
            assert forall|j: int| 0 <= j < i implies m[j] != '=' by {
                assert(m[j] == l[j]);
            }
            assert(m[i] == l[i]);
            lemma_index_of_at(m, '=', i);
            assert(m.take(i) == l.take(i));
            let v = l.skip(i + 1);
            assert(v.len() > 0 && v.last() == '\r');
            assert(m.skip(i + 1) == v.drop_last());
            lemma_trim_drop_ws(v);
        } else {
            assert forall|j: int| 0 <= j < m.len() implies m[j] != '=' by {
                assert(m[j] == l[j]);
            }
            lemma_index_of_absent(m, '=');
        }
    }
}

/// Reading lines written one per `'\n'` does what applying them does.
proof fn lemma_read_join_lines(c: ConfigView, ls: Seq<Seq<char>>)
    requires
        forall|k: int| 0 <= k < ls.len() ==> one_line(#[trigger] ls[k]),
    ensures
        apply_lines(c, lines(join_lines(ls))) == apply_lines(c, ls),
    decreases ls.len(),
{
    if ls.len() > 0 {
        let init = ls.drop_last();
        let last = ls.last();
        assert forall|k: int| 0 <= k < init.len() implies one_line(#[trigger] init[k]) by {
            assert(init[k] == ls[k]);
        }
        assert(last == ls[ls.len() - 1]);
        lemma_read_join_lines(c, init);
        lemma_join_ends(init);
        assert(join_lines(ls) == join_lines(init) + (last + seq!['\n']));
        lemma_lines_concat(join_lines(init), last + seq!['\n']);
        lemma_lines_one_raw(last);
        let x = lines(join_lines(init));
        let y = strip_cr(last);
        assert(lines(join_lines(ls)) == x.push(y));
        assert(x.push(y).drop_last() == x);
        lemma_apply_line_cr(apply_lines(c, init), last);
    }
}

proof fn lemma_read_joined(c: ConfigView, ls: Seq<Seq<char>>)
    requires
        forall|k: int| 0 <= k < ls.len() ==> one_line(#[trigger] ls[k]),
    ensures
        apply_lines(c, lines(join_nl(ls))) == apply_lines(c, ls),
{
    if ls.len() > 0 {
        let init = ls.drop_last();
        let last = ls.last();
        assert forall|k: int| 0 <= k < init.len() implies one_line(#[trigger] init[k]) by {
            assert(init[k] == ls[k]);
        }
        assert(last == ls[ls.len() - 1]);
        lemma_read_join_lines(c, init);
        lemma_join_ends(init);
        lemma_lines_concat(join_lines(init), last);
        lemma_apply_lines_concat(c, lines(join_lines(init)), lines(last));
        assert(init.push(last) == ls);
        if last.len() == 0 {
            assert(lines(last) == Seq::<Seq<char>>::empty());
            assert(apply_lines(apply_lines(c, init), Seq::<Seq<char>>::empty()) == apply_lines(c, init));
            lemma_index_of(last, '=');
            assert(split_once(last, '=') is None);
            assert(apply_line(apply_lines(c, init), last) == apply_lines(c, init));
        } else {
            lemma_index_of(last, '\n');
            assert(lines(last) == seq![last]);
            let d = apply_lines(c, init);
            assert(seq![last].drop_last() == Seq::<Seq<char>>::empty());
            assert(apply_lines(d, Seq::<Seq<char>>::empty()) == d);
            assert(apply_lines(d, seq![last]) == apply_line(d, last));
        }
    }
}

/// Lines the file does not understand are ignored wherever they stand, so
/// old builds read new files and new builds old ones: among lines joined by
/// newlines, inserting one with an unknown key (or none at all) at any place,
/// the last included, leaves the settings read as they were.
pub proof fn lemma_unknown_line_anywhere(ls: Seq<Seq<char>>, k: int, x: Seq<char>)
    requires
        forall|j: int| 0 <= j < ls.len() ==> one_line(#[trigger] ls[j]),
        one_line(x),
        unknown_line(x),
        0 <= k <= ls.len(),
    ensures
        config_of_text(join_nl(ls.insert(k, x))) == config_of_text(join_nl(ls)),
{
    let ins = ls.insert(k, x);
    assert forall|j: int| 0 <= j < ins.len() implies one_line(#[trigger] ins[j]) by {
        if j < k {
            assert(ins[j] == ls[j]);
        } else if j > k {
            assert(ins[j] == ls[j - 1]);
        } else {
            assert(ins[j] == x);
        }
    }
    let d = default_view();
    lemma_read_joined(d, ins);
    lemma_read_joined(d, ls);
    let a = ls.take(k);
    let b = ls.skip(k);
    assert(ins == a + (seq![x] + b));
    assert(ls == a + b);
    lemma_apply_lines_concat(d, a, seq![x] + b);
    lemma_apply_lines_concat(apply_lines(d, a), seq![x], b);
    lemma_apply_lines_concat(d, a, b);
    let c = apply_lines(d, a);
    assert(seq![x].drop_last() == Seq::<Seq<char>>::empty());
    assert(apply_lines(c, Seq::<Seq<char>>::empty()) == c);
    assert(apply_lines(c, seq![x]) == apply_line(c, x));
    assert(apply_line(c, x) == c);
}

/// An empty (or missing) settings file reads as the defaults.
pub proof fn lemma_empty_text_is_default()
    ensures
        config_of_text(Seq::<char>::empty()) == default_view(),
{
}

/// Saving what was read loses nothing: whatever text the settings came
/// from, writing them out and reading that back gives the same settings.
pub proof fn lemma_save_what_was_read(t: Seq<char>)
    ensures
        config_of_text(config_text(config_of_text(t))) == config_of_text(t),
{
    lemma_text_wf(t);
    lemma_text_round_trip(config_of_text(t));
}

} // verus!
