//! The mode registry's plain parts: the kinds of tunable parameter, the picker
//! groups, the order the picker shows and Tab cycles through, finding a mode
//! by a tag in its name, and the spectrum band each brick of the breakout wall
//! follows.

use vstd::prelude::*;
use crate::text::{chars_of, contains_chars, has_sub, lowercase, to_lowercase};

verus! {

/// What kind of control a parameter renders as.
#[derive(Clone, Copy, PartialEq, Eq, Debug, Structural)]
pub enum ParamKind {
    Float,
    Int,
}

/// The picker group a mode belongs to.
#[derive(Clone, Copy, PartialEq, Eq, Debug, Structural)]
pub enum Category {
    /// The game-likes, shown first.
    Game,
    /// The traditional visualizers.
    Visualizer,
}

/// The indices below `n` whose mode is in group `g`, in registry order.
pub open spec fn group_indices(cats: Seq<Category>, g: Category, n: nat) -> Seq<int>
    decreases n,
{
    if n == 0 {
        seq![]
    } else {
        let r = group_indices(cats, g, (n - 1) as nat);
        if cats[n - 1] == g {
            r.push(n - 1)
        } else {
            r
        }
    }
}

/// The picker's displayed order: the game-likes, then the visualizers, each in
/// registry order.
pub open spec fn display_order(cats: Seq<Category>) -> Seq<int> {
    group_indices(cats, Category::Game, cats.len()) + group_indices(
        cats,
        Category::Visualizer,
        cats.len(),
    )
}

/// Where `x` first stands in `s`, or -1.
pub open spec fn position_of(s: Seq<int>, x: int) -> int
    decreases s.len(),
{
    if s.len() == 0 {
        -1
    } else if s[0] == x {
        0
    } else {
        let r = position_of(s.drop_first(), x);
        if r < 0 {
            -1
        } else {
            r + 1
        }
    }
}

/// The mode after `sel` in the displayed order (wrapping round); a `sel` that
/// is not in it counts as the first.
pub open spec fn next_mode_spec(cats: Seq<Category>, sel: int) -> int {
    let order = display_order(cats);
    let p = position_of(order, sel);
    let pos = if p < 0 {
        0
    } else {
        p
    };
    order[(pos + 1) % (order.len() as int)]
}

proof fn lemma_group_indices(cats: Seq<Category>, g: Category, n: nat)
    requires
        n <= cats.len(),
    ensures
        forall|i: int|
            0 <= i < group_indices(cats, g, n).len() ==> 0 <= #[trigger] group_indices(
                cats,
                g,
                n,
            )[i] < n && cats[group_indices(cats, g, n)[i]] == g,
        forall|i: int, j: int|
            0 <= i < j < group_indices(cats, g, n).len() ==> group_indices(cats, g, n)[i]
                < group_indices(cats, g, n)[j],
        group_indices(cats, g, n).len() <= n,
    decreases n,
{
    if n > 0 {
        lemma_group_indices(cats, g, (n - 1) as nat);
    }
}

proof fn lemma_groups_cover(cats: Seq<Category>, n: nat)
    requires
        n <= cats.len(),
    ensures
        group_indices(cats, Category::Game, n).len() + group_indices(
            cats,
            Category::Visualizer,
            n,
        ).len() == n,
    decreases n,
{
    if n > 0 {
        lemma_groups_cover(cats, (n - 1) as nat);
    }
}

/// The displayed order lists every mode exactly once.
pub proof fn lemma_display_order(cats: Seq<Category>)
    ensures
        display_order(cats).len() == cats.len(),
        forall|i: int|
            0 <= i < display_order(cats).len() ==> 0 <= #[trigger] display_order(cats)[i]
                < cats.len(),
        forall|i: int, j: int|
            0 <= i < j < display_order(cats).len() ==> display_order(cats)[i] != display_order(
                cats,
            )[j],
{
    let n = cats.len();
    let a = group_indices(cats, Category::Game, n);
    let b = group_indices(cats, Category::Visualizer, n);
    lemma_group_indices(cats, Category::Game, n);
    lemma_group_indices(cats, Category::Visualizer, n);
    lemma_groups_cover(cats, n);
    let o = display_order(cats);
    assert forall|i: int| 0 <= i < o.len() implies 0 <= #[trigger] o[i] < cats.len() by {
        if i < a.len() {
            assert(o[i] == a[i]);
        } else {
            assert(o[i] == b[i - a.len()]);
        }
    }
    assert forall|i: int, j: int| 0 <= i < j < o.len() implies o[i] != o[j] by {
        if j < a.len() {
            assert(o[i] == a[i] && o[j] == a[j]);
        } else if i >= a.len() {
            assert(o[i] == b[i - a.len()] && o[j] == b[j - a.len()]);
        } else {
            assert(o[i] == a[i] && o[j] == b[j - a.len()]);
            assert(cats[a[i]] == Category::Game);
            assert(cats[b[j - a.len()]] == Category::Visualizer);
        }
    }
}

proof fn lemma_position_of(s: Seq<int>, x: int)
    ensures
        -1 <= position_of(s, x) < s.len(),
        position_of(s, x) >= 0 ==> s[position_of(s, x)] == x,
        forall|j: int|
            0 <= j < s.len() && (position_of(s, x) < 0 || j < position_of(s, x)) ==> s[j] != x,
    decreases s.len(),
{
    if s.len() > 0 && s[0] != x {
        lemma_position_of(s.drop_first(), x);
        assert forall|j: int|
            0 <= j < s.len() && (position_of(s, x) < 0 || j < position_of(s, x)) implies s[j]
            != x by {
            if j > 0 {
                assert(s[j] == s.drop_first()[j - 1]);
            }
        }
    }
}

/// Tab walks the displayed order: from the mode at place `i` it goes to the
/// one at place `i + 1`, and from the last back to the first.
pub proof fn lemma_tab_walks_display_order(cats: Seq<Category>, i: int)
    requires
        0 <= i < cats.len(),
    ensures
        next_mode_spec(cats, display_order(cats)[i]) == display_order(cats)[(i + 1) % (
        cats.len() as int)],
{
    let o = display_order(cats);
    lemma_display_order(cats);
    lemma_position_of(o, o[i]);
    let p = position_of(o, o[i]);
    if p != i {
        if p < 0 || i < p {
            assert(o[i] != o[i]);
        } else {
            assert(o[p] == o[i]);
        }
    }
}

/// The mode after `sel` in the picker's displayed order (groups first,
/// registry order within each group), wrapping round.
pub fn next_mode(cats: &[Category], sel: usize) -> (r: usize)
    requires
        cats@.len() > 0,
    ensures
        r == next_mode_spec(cats@, sel as int),
        r < cats@.len(),
{
    let n = cats.len();
    let mut order: Vec<usize> = Vec::new();
    let mut i: usize = 0;
    while i < n
        invariant
            i <= n == cats@.len(),
            order@.map_values(|x: usize| x as int) == group_indices(cats@, Category::Game, i as nat),
        decreases n - i,
    {
        if cats[i] == Category::Game {
            let ghost before = order@;
            order.push(i);
            assert(order@.map_values(|x: usize| x as int) =~= before.map_values(|x: usize| x as int).push(
                i as int,
            ));
        }
        i += 1;
    }
    let ghost games = order@.map_values(|x: usize| x as int);
    let mut i: usize = 0;
    while i < n
        invariant
            i <= n == cats@.len(),
            order@.map_values(|x: usize| x as int) == games + group_indices(
                cats@,
                Category::Visualizer,
                i as nat,
            ),
        decreases n - i,
    {
        if cats[i] == Category::Visualizer {
            let ghost before = order@;
            order.push(i);
            assert(order@.map_values(|x: usize| x as int) =~= before.map_values(|x: usize| x as int).push(
                i as int,
            ));
        }
        i += 1;
    }
    let ghost o = display_order(cats@);
    assert(order@.map_values(|x: usize| x as int) == o);
    proof {
        lemma_display_order(cats@);
    }
    assert(order@.len() == n);
    let mut pos: usize = 0;
    let mut k: usize = 0;
    let mut found = false;
    while k < n && !found
        invariant
            k <= n == order@.len(),
            o == order@.map_values(|x: usize| x as int),
            !found ==> forall|j: int| 0 <= j < k ==> o[j] != sel,
            !found ==> pos == 0,
            found ==> pos < n && o[pos as int] == sel && forall|j: int| 0 <= j < pos ==> o[j]
                != sel,
        decreases n - k + if found {
            0int
        } else {
            1int
        },
    {
        if order[k] == sel {
            pos = k;
            found = true;
        } else {
            k += 1;
        }
    }
    proof {
        lemma_position_of(o, sel as int);
        let p = position_of(o, sel as int);
        if found {
            if p < 0 || pos < p {
                assert(o[pos as int] != sel);
            } else if p < pos {
                assert(o[p] != sel);
            }
        } else if p >= 0 {
            assert(o[p] != sel);
        }
    }
    let r = order[(pos + 1) % n];
    assert(o[(pos as int + 1) % (n as int)] == r as int);
    r
}

// ---- choosing a mode by name ------------------------------------------------------

/// A mode name answers to `tag` when its lower-cased form contains `tag`.
pub open spec fn answers_to(name: Seq<char>, tag: Seq<char>) -> bool {
    has_sub(lowercase(name), tag)
}

/// The first of the first `n` names that answers to `tag`.
pub open spec fn first_answering(names: Seq<Seq<char>>, tag: Seq<char>, n: nat) -> Option<int>
    decreases n,
{
    if n == 0 {
        None
    } else {
        match first_answering(names, tag, (n - 1) as nat) {
            Some(i) => Some(i),
            None => if answers_to(names[n - 1], tag) {
                Some(n - 1)
            } else {
                None
            },
        }
    }
}

proof fn lemma_first_answering(names: Seq<Seq<char>>, tag: Seq<char>, n: nat)
    requires
        n <= names.len(),
    ensures
        match first_answering(names, tag, n) {
            Some(i) => 0 <= i < n && answers_to(names[i], tag) && forall|j: int|
                0 <= j < i ==> !answers_to(#[trigger] names[j], tag),
            None => forall|j: int| 0 <= j < n ==> !answers_to(#[trigger] names[j], tag),
        },
    decreases n,
{
    if n > 0 {
        lemma_first_answering(names, tag, (n - 1) as nat);
    }
}

proof fn lemma_first_answering_stays(names: Seq<Seq<char>>, tag: Seq<char>, n: nat, m: nat)
    requires
        n <= m,
        first_answering(names, tag, n) is Some,
    ensures
        first_answering(names, tag, m) == first_answering(names, tag, n),
    decreases m - n,
{
    if n < m {
        lemma_first_answering_stays(names, tag, n, (m - 1) as nat);
    }
}

/// An optional index as an optional integer.
pub open spec fn widen(r: Option<usize>) -> Option<int> {
    match r {
        Some(i) => Some(i as int),
        None => None,
    }
}

/// An optional string as optional text.
pub open spec fn opt_text(s: Option<&str>) -> Option<Seq<char>> {
    match s {
        Some(t) => Some(t@),
        None => None,
    }
}

/// The index of the first mode whose lower-cased name contains `tag`.
pub fn find_mode(names: &[String], tag: &str) -> (r: Option<usize>)
    ensures
        widen(r) == first_answering(
            names@.map_values(|n: String| n@),
            tag@,
            names@.len(),
        ),
        match r {
            Some(i) => i < names@.len() && answers_to(names@[i as int]@, tag@) && forall|j: int|
                0 <= j < i ==> !answers_to(#[trigger] names@[j]@, tag@),
            None => forall|j: int| 0 <= j < names@.len() ==> !answers_to(#[trigger] names@[j]@, tag@),
        },
{
    let ghost ns = names@.map_values(|n: String| n@);
    let t = chars_of(tag);
    let mut i: usize = 0;
    while i < names.len()
        invariant
            i <= names@.len(),
            ns == names@.map_values(|n: String| n@),
            t@ == tag@,
            first_answering(ns, tag@, i as nat) is None,
        decreases names.len() - i,
    {
        let lower = to_lowercase(names[i].as_str());
        let lc = chars_of(lower.as_str());
        assert(ns[i as int] == names@[i as int]@);
        if contains_chars(&lc, &t) {
            proof {
                lemma_first_answering(ns, tag@, (i + 1) as nat);
                lemma_first_answering_stays(ns, tag@, (i + 1) as nat, names@.len());
                assert forall|j: int| 0 <= j < i implies !answers_to(#[trigger] names@[j]@, tag@) by {
                    assert(ns[j] == names@[j]@);
                }
            }
            return Some(i);
        }
        i += 1;
    }
    proof {
        lemma_first_answering(ns, tag@, names@.len());
        assert forall|j: int| 0 <= j < names@.len() implies !answers_to(
            #[trigger] names@[j]@,
            tag@,
        ) by {
            assert(ns[j] == names@[j]@);
        }
    }
    None
}

/// The tag `ui`, which names the interface capture rather than a mode.
pub open spec fn ui_tag() -> Seq<char> {
    seq!['u', 'i']
}

/// The mode a run starts on, and whether a `--mode` tag matched nothing: a
/// capture tag (`--shot`, else `--export-frame`) other than `ui` picks the first
/// mode answering to it, or the first mode; without one, `--mode` picks the
/// first answering to its lower-cased text, and the first mode stays when none
/// does.
pub open spec fn start_mode_spec(
    names: Seq<Seq<char>>,
    shot: Option<Seq<char>>,
    export_frame: Option<Seq<char>>,
    mode: Option<Seq<char>>,
) -> (int, bool) {
    let tag = if shot is Some {
        shot
    } else {
        export_frame
    };
    match tag {
        Some(t) => if t != ui_tag() {
            match first_answering(names, t, names.len()) {
                Some(i) => (i, false),
                None => (0, false),
            }
        } else {
            (0, false)
        },
        None => match mode {
            Some(m) => match first_answering(names, lowercase(m), names.len()) {
                Some(i) => (i, false),
                None => (0, true),
            },
            None => (0, false),
        },
    }
}

/// How a run picks its mode from `--mode m` (no capture tag given): where
/// some name contains the lower-cased `m` once lower-cased itself, the first
/// such name is picked and nothing is reported; where none does, the first
/// mode stays and the miss is reported.
pub proof fn lemma_mode_tag_picks_first(names: Seq<Seq<char>>, m: Seq<char>)
    ensures
        ({
            let r = start_mode_spec(names, None, None, Some(m));
            &&& (exists|j: int| 0 <= j < names.len() && answers_to(#[trigger] names[j], lowercase(m)))
                ==> {
                &&& 0 <= r.0 < names.len()
                &&& answers_to(names[r.0], lowercase(m))
                &&& forall|j: int| 0 <= j < r.0 ==> !answers_to(#[trigger] names[j], lowercase(m))
                &&& !r.1
            }
            &&& (forall|j: int| 0 <= j < names.len() ==> !answers_to(#[trigger] names[j], lowercase(m)))
                ==> r == (0int, true)
        }),
{
    lemma_first_answering(names, lowercase(m), names.len());
}

/// How a capture tag `t` (`--shot`, else `--export-frame`) picks the mode: the
/// first name that contains `t` once lower-cased, or the first mode where none
/// does (and for the tag `ui`); a `--mode` given beside it is ignored and no
/// miss is reported.
pub proof fn lemma_capture_tag_picks_first(
    names: Seq<Seq<char>>,
    t: Seq<char>,
    frame: Option<Seq<char>>,
    mode: Option<Seq<char>>,
)
    requires
        t != ui_tag(),
    ensures
        ({
            let r = start_mode_spec(names, Some(t), frame, mode);
            &&& !r.1
            &&& (exists|j: int| 0 <= j < names.len() && answers_to(#[trigger] names[j], t)) ==> {
                &&& 0 <= r.0 < names.len()
                &&& answers_to(names[r.0], t)
                &&& forall|j: int| 0 <= j < r.0 ==> !answers_to(#[trigger] names[j], t)
            }
            &&& (forall|j: int| 0 <= j < names.len() ==> !answers_to(#[trigger] names[j], t))
                ==> r.0 == 0
        }),
{
    lemma_first_answering(names, t, names.len());
}

/// Whether `t` is the tag `ui`.
pub(crate) fn is_ui_tag(t: &str) -> (r: bool)
    ensures
        r == (t@ == ui_tag()),
{
    let c = chars_of(t);
    let r = c.len() == 2 && c[0] == 'u' && c[1] == 'i';
    assert(r ==> c@ =~= ui_tag());
    r
}

/// Picks the starting mode from the command line's tags; see
/// [`start_mode_spec`]. The `bool` is set when `--mode` matched no mode.
pub fn start_mode(
    names: &[String],
    shot: Option<&str>,
    export_frame: Option<&str>,
    mode: Option<&str>,
) -> (r: (usize, bool))
    ensures
        (r.0 as int, r.1) == start_mode_spec(
            names@.map_values(|n: String| n@),
            opt_text(shot),
            opt_text(export_frame),
            opt_text(mode),
        ),
{
    let tag = match shot {
        Some(s) => Some(s),
        None => export_frame,
    };
    match tag {
        Some(t) => {
            if is_ui_tag(t) {
                (0, false)
            } else {
                match find_mode(names, t) {
                    Some(i) => (i, false),
                    None => (0, false),
                }
            }
        },
        None => match mode {
            Some(m) => {
                let lm = to_lowercase(m);
                match find_mode(names, lm.as_str()) {
                    Some(i) => (i, false),
                    None => (0, true),
                }
            },
            None => (0, false),
        },
    }
}

// ---- brick colour bands ---------------------------------------------------------

/// The number of analysis bands a brick colour can follow.
pub const N_BANDS: usize = 32;

/// The band that drives the brick in column `c` of `cols`: columns spread
/// evenly over the bands, left to right.
pub open spec fn brick_band_spec(c: int, cols: int) -> int {
    let b = c * (N_BANDS as int) / cols;
    if b < N_BANDS - 1 {
        b
    } else {
        N_BANDS - 1
    }
}

/// The spectrum band a brick in column `c` of a `cols`-wide wall follows.
pub fn brick_band(c: usize, cols: usize) -> (r: usize)
    requires
        cols > 0,
        c * N_BANDS <= usize::MAX,
    ensures
        r == brick_band_spec(c as int, cols as int),
        r < N_BANDS,
{
    let b = c * N_BANDS / cols;
    if b < N_BANDS - 1 {
        b
    } else {
        N_BANDS - 1
    }
}

} // verus!
