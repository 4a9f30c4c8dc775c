//! The decisions of the shared obstacle-course generator (Beat Surfer, Rail
//! Shooter): how a beat's spectral character picks an obstacle kind, which
//! second action the strongest hits pair with it, which sorted strength stands
//! at a percentile, and the min-gap sweep in distance that keeps every
//! surviving obstacle at least a gap beyond the last, so no two animations
//! overlap. The measurements themselves (loudness drops, band energies,
//! distances) are floating point; the caller takes them and hands over
//! distances and strengths as integers.

use vstd::prelude::*;

verus! {

/// What the avatar (or the rail formation) does at an obstacle.
#[derive(Clone, Copy, PartialEq, Eq, Debug, Structural)]
pub enum Kind {
    /// Heavy / bass-dominant hit → an arch to JUMP.
    Block,
    /// A sharp loudness drop (the music opening up) → a GAP to stride.
    Pit,
    /// Sustained mid energy → a RING to spin through.
    Loop,
    /// Fast / treble-dominant hit → a low ROLL.
    Wave,
}

/// The obstacle a beat becomes: a real loudness drop opens a gap; otherwise a
/// heavy hit is a jump, treble at or above the mids is a roll, and held mids
/// are a ring.
pub open spec fn classify_spec(opens_up: bool, heavy: bool, treble_leads: bool) -> Kind {
    if opens_up {
        Kind::Pit
    } else if heavy {
        Kind::Block
    } else if treble_leads {
        Kind::Wave
    } else {
        Kind::Loop
    }
}

/// The obstacle kind for a beat, from the three tests the caller measured:
/// `opens_up` (loudness drops by more than the threshold just after the beat),
/// `heavy` (the normalised bass strength is at least one half) and
/// `treble_leads` (treble energy at least the mid energy).
pub fn classify_beat(opens_up: bool, heavy: bool, treble_leads: bool) -> (k: Kind)
    ensures
        k == classify_spec(opens_up, heavy, treble_leads),
        opens_up ==> k == Kind::Pit,
        !opens_up && heavy ==> k == Kind::Block,
        !opens_up && !heavy && treble_leads ==> k == Kind::Wave,
        !opens_up && !heavy && !treble_leads ==> k == Kind::Loop,
{
    if opens_up {
        Kind::Pit
    } else if heavy {
        Kind::Block
    } else if treble_leads {
        Kind::Wave
    } else {
        Kind::Loop
    }
}

impl Kind {
    /// The complementary second action the strongest hits carry.
    pub open spec fn double_spec(self) -> Kind {
        match self {
            Kind::Block => Kind::Wave,
            Kind::Wave => Kind::Block,
            Kind::Loop => Kind::Pit,
            Kind::Pit => Kind::Loop,
        }
    }

    /// The complementary second action: a jump pairs with a roll, a ring with
    /// a gap, and back.
    pub fn double(self) -> (d: Kind)
        ensures
            d == self.double_spec(),
    {
        match self {
            Kind::Block => Kind::Wave,
            Kind::Wave => Kind::Block,
            Kind::Loop => Kind::Pit,
            Kind::Pit => Kind::Loop,
        }
    }
}

/// How a beat becomes an obstacle: a real loudness drop always opens a gap,
/// whatever the bands say; otherwise a heavy hit is always a jump, whatever
/// the treble does; only a hit that is neither is decided by treble against
/// mids (a roll where treble leads, a ring where it does not). A gap comes only
/// from a drop, and a jump only from a heavy hit.
pub proof fn lemma_beat_kinds(opens_up: bool, heavy: bool, treble_leads: bool)
    ensures
        opens_up ==> classify_spec(opens_up, heavy, treble_leads) == Kind::Pit,
        !opens_up && heavy ==> classify_spec(opens_up, heavy, treble_leads) == Kind::Block,
        !opens_up && !heavy && treble_leads ==> classify_spec(opens_up, heavy, treble_leads)
            == Kind::Wave,
        !opens_up && !heavy && !treble_leads ==> classify_spec(opens_up, heavy, treble_leads)
            == Kind::Loop,
        classify_spec(opens_up, heavy, treble_leads) == Kind::Pit <==> opens_up,
        classify_spec(opens_up, heavy, treble_leads) == Kind::Block <==> !opens_up && heavy,
{
}

/// A double is never the action it doubles, and doubling twice gives the
/// action back.
pub proof fn lemma_double_pairs(k: Kind)
    ensures
        k.double_spec() != k,
        k.double_spec().double_spec() == k,
{
}

/// The index of the `pct`-th percentile in `n` sorted values:
/// `min(n * pct / 100, n - 1)`.
pub fn percentile_index(n: usize, pct: usize) -> (i: usize)
    requires
        n > 0,
        pct <= 100,
        n * pct <= usize::MAX,
    ensures
        i == if n * pct / 100 < n - 1 {
            n * pct / 100
        } else {
            (n - 1) as int
        },
        i < n,
{
    let p = n * pct / 100;
    if p < n - 1 {
        p
    } else {
        n - 1
    }
}

// ---- ordering events by distance ------------------------------------------------

/// Event `a` comes before event `b` when it lies nearer, or at the same
/// distance and earlier in the input (a stable order).
pub open spec fn before(ds: Seq<u64>, a: usize, b: usize) -> bool {
    ds[a as int] < ds[b as int] || (ds[a as int] == ds[b as int] && a < b)
}

/// `o` lists events in the order [`before`] gives.
pub open spec fn ordered(ds: Seq<u64>, o: Seq<usize>) -> bool {
    forall|i: int, j: int| 0 <= i < j < o.len() ==> before(ds, #[trigger] o[i], #[trigger] o[j])
}

/// `o` lists each of the events `0..n` once.
pub open spec fn lists_all(o: Seq<usize>, n: nat) -> bool {
    &&& o.len() == n
    &&& forall|i: int| 0 <= i < o.len() ==> o[i] < n
    &&& forall|i: int, j: int| 0 <= i < j < o.len() ==> o[i] != o[j]
    &&& forall|v: int| 0 <= v < n ==> #[trigger] listed(o, v)
}

/// `v` stands somewhere in `o`.
pub open spec fn listed(o: Seq<usize>, v: int) -> bool {
    exists|q: int| 0 <= q < o.len() && o[q] == v
}

/// The events `0..d.len()` sorted by distance, ties kept in input order (as a
/// stable sort by distance leaves them).
pub fn by_distance(d: &[u64]) -> (o: Vec<usize>)
    ensures
        o@ == distance_order(d@),
        lists_all(o@, d@.len()),
        ordered(d@, o@),
{
    let n = d.len();
    let mut o: Vec<usize> = Vec::new();
    let mut i: usize = 0;
    while i < n
        invariant
            i <= n == d@.len(),
            lists_all(o@, i as nat),
            ordered(d@, o@),
        decreases n - i,
    {
        let mut p: usize = o.len();
        while p > 0 && d[o[p - 1]] > d[i]
            invariant
                p <= o@.len() == i,
                i < n == d@.len(),
                lists_all(o@, i as nat),
                forall|q: int| p <= q < o@.len() ==> d@[o@[q] as int] > d@[i as int],
            decreases p,
        {
            p -= 1;
        }
        proof {
            assert forall|q: int| 0 <= q < p implies before(d@, #[trigger] o@[q], i) by {
                if p > 0 {
                    assert(d@[o@[p - 1] as int] <= d@[i as int]);
                    if q < p - 1 {
                        assert(before(d@, o@[q], o@[p - 1]));
                    }
                }
            }
        }
        let ghost prev = o@;
        o.insert(p, i);
        proof {
            assert(o@ == prev.insert(p as int, i));
            assert forall|a: int, b: int| 0 <= a < b < o@.len() implies before(d@, #[trigger] o@[a], #[trigger] o@[b]) by {
                if b < p {
                    assert(o@[a] == prev[a] && o@[b] == prev[b]);
                } else if b == p {
                    assert(o@[a] == prev[a]);
                } else if a < p {
                    assert(o@[a] == prev[a] && o@[b] == prev[b - 1]);
                    assert(before(d@, prev[a], i));
                    assert(d@[prev[b - 1] as int] > d@[i as int]);
                } else if a == p {
                    assert(o@[b] == prev[b - 1]);
                } else {
                    assert(o@[a] == prev[a - 1] && o@[b] == prev[b - 1]);
                }
            }
            assert forall|a: int, b: int| 0 <= a < b < o@.len() implies o@[a] != o@[b] by {
                if b < p {
                    assert(o@[a] == prev[a] && o@[b] == prev[b]);
                } else if b == p {
                    assert(o@[a] == prev[a]);
                } else if a < p {
                    assert(o@[a] == prev[a] && o@[b] == prev[b - 1]);
                } else if a == p {
                    assert(o@[b] == prev[b - 1]);
                } else {
                    assert(o@[a] == prev[a - 1] && o@[b] == prev[b - 1]);
                }
            }
            assert forall|v: int| 0 <= v < i + 1 implies #[trigger] listed(o@, v) by {
                if v == i {
                    assert(o@[p as int] == i);
                } else {
                    assert(listed(prev, v));
                    let q = choose|q: int| 0 <= q < prev.len() && prev[q] == v;
                    if q < p {
                        assert(o@[q] == prev[q]);
                    } else {
                        assert(o@[q + 1] == prev[q]);
                    }
                }
            }
            assert forall|a: int| 0 <= a < o@.len() implies o@[a] < i + 1 by {
                if a < p {
                    assert(o@[a] == prev[a]);
                } else if a > p {
                    assert(o@[a] == prev[a - 1]);
                }
            }
        }
        i += 1;
    }
    proof {
        lemma_distance_order_unique(d@, o@);
    }
    o
}

/// The events `0..ds.len()` in distance order, ties in input order: the one
/// list that [`lists_all`] of them in the order [`before`] gives.
pub open spec fn distance_order(ds: Seq<u64>) -> Seq<usize> {
    choose|o: Seq<usize>| lists_all(o, ds.len()) && ordered(ds, o)
}

/// Two lists of the same events, both in distance order, agree on their
/// first `k` places.
proof fn lemma_order_prefix(ds: Seq<u64>, a: Seq<usize>, b: Seq<usize>, k: int)
    requires
        lists_all(a, ds.len()),
        lists_all(b, ds.len()),
        ordered(ds, a),
        ordered(ds, b),
        0 <= k <= ds.len(),
    ensures
        forall|j: int| 0 <= j < k ==> a[j] == b[j],
    decreases k,
{
    if k > 0 {
        lemma_order_prefix(ds, a, b, k - 1);
        let i = k - 1;
        let x = a[i];
        let y = b[i];
        if x != y {
            assert(listed(b, x as int));
            let p = choose|q: int| 0 <= q < b.len() && b[q] == x as int;
            assert(listed(a, y as int));
            let q = choose|q: int| 0 <= q < a.len() && a[q] == y as int;
            if p < i {
                assert(a[p] == b[p]);
                assert(a[p] != a[i]);
            }
            if q < i {
                assert(a[q] == b[q]);
                assert(b[q] != b[i]);
            }
            assert(p > i && q > i);
            assert(before(ds, b[i], b[p]));
            assert(before(ds, a[i], a[q]));
        }
    }
}

/// There is exactly one list of the events in distance order.
pub proof fn lemma_distance_order_unique(ds: Seq<u64>, o: Seq<usize>)
    requires
        lists_all(o, ds.len()),
        ordered(ds, o),
    ensures
        distance_order(ds) == o,
{
    let c = distance_order(ds);
    assert(lists_all(c, ds.len()) && ordered(ds, c));
    lemma_order_prefix(ds, c, o, ds.len() as int);
    assert(c =~= o);
}

// ---- the min-gap sweep ------------------------------------------------------------

/// The events of `o` (in distance order) that survive the min-gap sweep: an
/// event less than `gap` past the last survivor takes its place when strictly
/// stronger and is dropped otherwise; every other event survives.
pub open spec fn sweep(ds: Seq<u64>, ss: Seq<u64>, o: Seq<usize>, gap: nat) -> Seq<usize>
    decreases o.len(),
{
    if o.len() == 0 {
        seq![]
    } else {
        let out = sweep(ds, ss, o.drop_last(), gap);
        let e = o.last();
        if out.len() > 0 && ds[e as int] - ds[out.last() as int] < gap {
            if ss[e as int] > ss[out.last() as int] {
                out.update(out.len() - 1, e)
            } else {
                out
            }
        } else {
            out.push(e)
        }
    }
}

proof fn lemma_sweep_members(ds: Seq<u64>, ss: Seq<u64>, o: Seq<usize>, gap: nat)
    ensures
        sweep(ds, ss, o, gap).len() <= o.len(),
        o.len() > 0 ==> sweep(ds, ss, o, gap).len() > 0,
        forall|m: int|
            0 <= m < sweep(ds, ss, o, gap).len() ==> exists|j: int|
                0 <= j < o.len() && o[j] == #[trigger] sweep(ds, ss, o, gap)[m],
    decreases o.len(),
{
    if o.len() > 0 {
        let init = o.drop_last();
        lemma_sweep_members(ds, ss, init, gap);
        let out = sweep(ds, ss, init, gap);
        let res = sweep(ds, ss, o, gap);
        assert forall|m: int| 0 <= m < res.len() implies exists|j: int|
            0 <= j < o.len() && o[j] == #[trigger] res[m] by {
            if m < out.len() && res[m] == out[m] {
                let j = choose|j: int| 0 <= j < init.len() && init[j] == out[m];
                assert(o[j] == init[j]);
            } else {
                assert(res[m] == o.last());
                assert(o[o.len() - 1] == res[m]);
            }
        }
    }
}

proof fn lemma_sweep_spacing(ds: Seq<u64>, ss: Seq<u64>, o: Seq<usize>, gap: nat)
    requires
        ordered(ds, o),
    ensures
        forall|m: int|
            0 <= m < sweep(ds, ss, o, gap).len() - 1 ==> ds[#[trigger] sweep(ds, ss, o, gap)[m + 1] as int]
                - ds[sweep(ds, ss, o, gap)[m] as int] >= gap,
        ordered(ds, sweep(ds, ss, o, gap)),
    decreases o.len(),
{
    if o.len() > 0 {
        let init = o.drop_last();
        assert forall|i: int, j: int| 0 <= i < j < init.len() implies before(ds, #[trigger] init[i], #[trigger] init[j]) by {
            assert(init[i] == o[i] && init[j] == o[j]);
        }
        lemma_sweep_spacing(ds, ss, init, gap);
        lemma_sweep_members(ds, ss, init, gap);
        let out = sweep(ds, ss, init, gap);
        let e = o.last();
        let res = sweep(ds, ss, o, gap);
        assert forall|m: int| 0 <= m < out.len() implies before(ds, #[trigger] out[m], e) by {
            let j = choose|j: int| 0 <= j < init.len() && init[j] == out[m];
            assert(o[j] == init[j]);
            assert(before(ds, o[j], o[o.len() - 1]));
        }
        let n = out.len();
        if n > 0 && ds[e as int] - ds[out.last() as int] < gap {
            if ss[e as int] > ss[out.last() as int] {
                assert(res == out.update(n - 1, e));
                assert(before(ds, out[n - 1], e));
                assert forall|m: int| 0 <= m < res.len() - 1 implies ds[#[trigger] res[m + 1] as int]
                    - ds[res[m] as int] >= gap by {
                    assert(res[m] == out[m]);
                    if m + 1 < n - 1 {
                        assert(res[m + 1] == out[m + 1]);
                    } else {
                        assert(ds[out[n - 1] as int] - ds[out[m] as int] >= gap);
                    }
                }
                assert forall|i: int, j: int| 0 <= i < j < res.len() implies before(ds, #[trigger] res[i], #[trigger] res[j]) by {
                    assert(res[i] == out[i]);
                    if j < n - 1 {
                        assert(res[j] == out[j]);
                    }
                }
            } else {
                assert(res == out);
            }
        } else {
            assert(res == out.push(e));
            assert forall|m: int| 0 <= m < res.len() - 1 implies ds[#[trigger] res[m + 1] as int]
                - ds[res[m] as int] >= gap by {
                assert(res[m] == out[m]);
                if m + 1 < n {
                    assert(res[m + 1] == out[m + 1]);
                }
            }
            assert forall|i: int, j: int| 0 <= i < j < res.len() implies before(ds, #[trigger] res[i], #[trigger] res[j]) by {
                assert(res[i] == out[i]);
                if j < n {
                    assert(res[j] == out[j]);
                }
            }
        }
    }
}

proof fn lemma_sweep_strongest(ds: Seq<u64>, ss: Seq<u64>, o: Seq<usize>, gap: nat)
    ensures
        forall|j: int|
            0 <= j < o.len() ==> exists|m: int|
                0 <= m < sweep(ds, ss, o, gap).len() && ss[sweep(ds, ss, o, gap)[m] as int] >= ss[
                    #[trigger] o[j] as int],
    decreases o.len(),
{
    if o.len() > 0 {
        let init = o.drop_last();
        lemma_sweep_strongest(ds, ss, init, gap);
        let out = sweep(ds, ss, init, gap);
        let e = o.last();
        let res = sweep(ds, ss, o, gap);
        let n = out.len();
        assert forall|j: int| 0 <= j < o.len() implies exists|m: int|
            0 <= m < res.len() && ss[res[m] as int] >= ss[#[trigger] o[j] as int] by {
            if n > 0 && ds[e as int] - ds[out.last() as int] < gap {
                if ss[e as int] > ss[out.last() as int] {
                    assert(res == out.update(n - 1, e));
                    if j == o.len() - 1 {
                        assert(res[n - 1] == o[j]);
                    } else {
                        assert(o[j] == init[j]);
                        let m = choose|m: int| 0 <= m < n && ss[out[m] as int] >= ss[init[j] as int];
                        if m == n - 1 {
                            assert(res[n - 1] == e);
                        } else {
                            assert(res[m] == out[m]);
                        }
                    }
                } else {
                    assert(res == out);
                    if j == o.len() - 1 {
                        assert(ss[res[n - 1] as int] >= ss[o[j] as int]);
                    } else {
                        assert(o[j] == init[j]);
                    }
                }
            } else {
                assert(res == out.push(e));
                if j == o.len() - 1 {
                    assert(res[n as int] == o[j]);
                } else {
                    assert(o[j] == init[j]);
                    let m = choose|m: int| 0 <= m < n && ss[out[m] as int] >= ss[init[j] as int];
                    assert(res[m] == out[m]);
                }
            }
        }
    }
}

/// What the sweep keeps, over events in distance order: survivors are events
/// of the input, in order, each at least `gap` beyond the one before (so no
/// two obstacles' animations can overlap); and every event has a survivor at
/// least as strong (a crowded-out hit only ever yields to a stronger one).
pub proof fn lemma_sweep(ds: Seq<u64>, ss: Seq<u64>, o: Seq<usize>, gap: nat)
    requires
        ordered(ds, o),
    ensures
        sweep(ds, ss, o, gap).len() <= o.len(),
        o.len() > 0 ==> sweep(ds, ss, o, gap).len() > 0,
        forall|m: int|
            0 <= m < sweep(ds, ss, o, gap).len() ==> exists|j: int|
                0 <= j < o.len() && o[j] == #[trigger] sweep(ds, ss, o, gap)[m],
        forall|m: int|
            0 <= m < sweep(ds, ss, o, gap).len() - 1 ==> ds[#[trigger] sweep(ds, ss, o, gap)[m + 1] as int]
                - ds[sweep(ds, ss, o, gap)[m] as int] >= gap,
        ordered(ds, sweep(ds, ss, o, gap)),
        forall|j: int|
            0 <= j < o.len() ==> exists|m: int|
                0 <= m < sweep(ds, ss, o, gap).len() && ss[sweep(ds, ss, o, gap)[m] as int] >= ss[
                    #[trigger] o[j] as int],
{
    lemma_sweep_members(ds, ss, o, gap);
    lemma_sweep_spacing(ds, ss, o, gap);
    lemma_sweep_strongest(ds, ss, o, gap);
}

/// The min-gap sweep over events `o`, given in distance order: see
/// [`sweep`]. `d` holds each event's distance and `s` its strength, both as
/// integers in the caller's units (an order-keeping encoding serves for
/// strengths, which are only compared).
pub fn min_gap_sweep(d: &[u64], s: &[u64], o: &[usize], gap: u64) -> (out: Vec<usize>)
    requires
        d@.len() == s@.len(),
        forall|k: int| 0 <= k < o@.len() ==> (#[trigger] o@[k]) < d@.len(),
        ordered(d@, o@),
    ensures
        out@ == sweep(d@, s@, o@, gap as nat),
{
    let mut out: Vec<usize> = Vec::new();
    let mut k: usize = 0;
    while k < o.len()
        invariant
            k <= o@.len(),
            d@.len() == s@.len(),
            forall|q: int| 0 <= q < o@.len() ==> (#[trigger] o@[q]) < d@.len(),
            ordered(d@, o@),
            out@ == sweep(d@, s@, o@.take(k as int), gap as nat),
        decreases o.len() - k,
    {
        let ghost pre = o@.take(k as int);
        proof {
            assert(o@.take(k + 1).drop_last() == pre);
            assert(o@.take(k + 1).last() == o@[k as int]);
            lemma_sweep_members(d@, s@, pre, gap as nat);
        }
        let e = o[k];
        let n = out.len();
        if n > 0 {
            let last = out[n - 1];
            proof {
                let j = choose|j: int| 0 <= j < pre.len() && pre[j] == out@[n - 1];
                assert(pre[j] == o@[j]);
                assert(before(d@, o@[j], o@[k as int]));
            }
            if d[e] - d[last] < gap {
                if s[e] > s[last] {
                    out.set(n - 1, e);
                }
            } else {
                out.push(e);
            }
        } else {
            out.push(e);
        }
        k += 1;
    }
    assert(o@.take(o@.len() as int) == o@);
    out
}

/// The obstacles that survive, as indices into `d` and `s`, nearest first:
/// the events put in distance order (ties in input order), then swept with
/// [`min_gap_sweep`]. Survivors are at least `gap` apart, and every event has
/// a survivor at least as strong.
pub fn course_survivors(d: &[u64], s: &[u64], gap: u64) -> (out: Vec<usize>)
    requires
        d@.len() == s@.len(),
    ensures
        out@ == sweep(d@, s@, distance_order(d@), gap as nat),
        forall|m: int| 0 <= m < out@.len() ==> (#[trigger] out@[m]) < d@.len(),
        ordered(d@, out@),
        forall|m: int| 0 <= m < out@.len() - 1 ==> d@[#[trigger] out@[m + 1] as int] - d@[out@[m] as int] >= gap,
        forall|j: int|
            0 <= j < d@.len() ==> exists|m: int| 0 <= m < out@.len() && s@[out@[m] as int] >= #[trigger] s@[j],
{
    let o = by_distance(d);
    let out = min_gap_sweep(d, s, &o, gap);
    proof {
        lemma_sweep(d@, s@, o@, gap as nat);
        assert forall|m: int| 0 <= m < out@.len() implies (#[trigger] out@[m]) < d@.len() by {
            let j = choose|j: int| 0 <= j < o@.len() && o@[j] == out@[m];
        }
        assert forall|j: int| 0 <= j < d@.len() implies exists|m: int|
            0 <= m < out@.len() && s@[out@[m] as int] >= #[trigger] s@[j] by {
            assert(listed(o@, j));
            let q = choose|q: int| 0 <= q < o@.len() && o@[q] == j;
            assert(s@[o@[q] as int] == s@[j]);
        }
    }
    out
}

} // verus!
