//! Character-level text handling shared by the settings file and the command
//! line: whitespace trimming, line and field splitting, and the integer
//! syntaxes of Rust's `FromStr` / `from_str_radix`, all over `Seq<char>`.

use vstd::prelude::*;

verus! {

// ---- conversions ----------------------------------------------------------------

/// The characters of `s`, in order.
pub fn chars_of(s: &str) -> (out: Vec<char>)
    ensures
        out@ == s@,
{
    let mut out: Vec<char> = Vec::new();
    for c in it: s.chars()
        invariant
            out@ == it.seq().take(it.index() as int),
    {
        out.push(c);
    }
    out
}

/// `String::push`: appends one character.
#[verifier::external_body]
fn push_char(s: &mut String, c: char)
    ensures
        final(s)@ == old(s)@.push(c),
{
    s.push(c);
}

/// A `String` holding exactly the characters `cs`.
pub fn string_of(cs: &[char]) -> (out: String)
    ensures
        out@ == cs@,
{
    let mut out = String::new();
    let mut i: usize = 0;
    while i < cs.len()
        invariant
            i <= cs@.len(),
            out@ == cs@.take(i as int),
        decreases cs.len() - i,
    {
        push_char(&mut out, cs[i]);
        assert(cs@.take(i + 1) == cs@.take(i as int).push(cs@[i as int]));
        i += 1;
    }
    assert(cs@.take(cs.len() as int) == cs@);
    out
}

/// Whether `a` and `b` hold the same characters.
pub fn same_chars(a: &[char], b: &[char]) -> (r: bool)
    ensures
        r == (a@ == b@),
{
    if a.len() != b.len() {
        return false;
    }
    let mut i: usize = 0;
    while i < a.len()
        invariant
            i <= a@.len() == b@.len(),
            forall|j: int| 0 <= j < i ==> a@[j] == b@[j],
        decreases a.len() - i,
    {
        if a[i] != b[i] {
            return false;
        }
        i += 1;
    }
    assert(a@ == b@);
    true
}

/// Appends all of `b` to `a`.
pub fn append_chars(a: &mut Vec<char>, b: &[char])
    ensures
        final(a)@ == old(a)@ + b@,
{
    let mut i: usize = 0;
    let ghost start = a@;
    while i < b.len()
        invariant
            i <= b@.len(),
            a@ == start + b@.take(i as int),
        decreases b.len() - i,
    {
        a.push(b[i]);
        assert(b@.take(i + 1) == b@.take(i as int).push(b@[i as int]));
        i += 1;
    }
    assert(b@.take(b.len() as int) == b@);
}

// ---- case and substrings -----------------------------------------------------

/// The Unicode lower-case mapping of `s`, as `str::to_lowercase` computes it.
pub uninterp spec fn lowercase(s: Seq<char>) -> Seq<char>;

/// `str::to_lowercase`: its result is the lower-case mapping of `s`, a
/// function of `s` alone. What that mapping is (the Unicode tables) is left
/// unstated.
#[verifier::external_body]
pub(crate) fn to_lowercase(s: &str) -> (r: String)
    ensures
        r@ == lowercase(s@),
{
    s.to_lowercase()
}

/// `t` occurs in `s` starting at index `k`.
pub open spec fn occurs_at(s: Seq<char>, t: Seq<char>, k: int) -> bool {
    0 <= k && k + t.len() <= s.len() && s.subrange(k, k + t.len()) == t
}

/// `t` occurs somewhere in `s` (`str::contains` with a string pattern).
pub open spec fn has_sub(s: Seq<char>, t: Seq<char>) -> bool {
    exists|k: int| occurs_at(s, t, k)
}

/// Whether `t` occurs in `s` at `k`.
fn matches_at(s: &[char], t: &[char], k: usize) -> (r: bool)
    requires
        k + t@.len() <= s@.len(),
    ensures
        r == occurs_at(s@, t@, k as int),
{
    let mut j: usize = 0;
    while j < t.len()
        invariant
            j <= t@.len(),
            k + t.len() <= s.len(),
            forall|m: int| 0 <= m < j ==> s@[k + m] == t@[m],
        decreases t.len() - j,
    {
        if s[k + j] != t[j] {
            assert(s@.subrange(k as int, k + t@.len())[j as int] != t@[j as int]);
            return false;
        }
        j += 1;
    }
    assert(s@.subrange(k as int, k + t@.len()) =~= t@);
    true
}

/// Whether `t` occurs somewhere in `s`.
pub fn contains_chars(s: &[char], t: &[char]) -> (r: bool)
    ensures
        r == has_sub(s@, t@),
{
    if t.len() > s.len() {
        return false;
    }
    let last = s.len() - t.len();
    let mut k: usize = 0;
    loop
        invariant
            k <= last,
            last + t@.len() == s@.len(),
            forall|m: int| 0 <= m < k ==> !occurs_at(s@, t@, m),
        decreases last - k,
    {
        if matches_at(s, t, k) {
            return true;
        }
        if k == last {
            assert forall|m: int| !occurs_at(s@, t@, m) by {
                if 0 <= m < k {
                }
            }
            return false;
        }
        k += 1;
    }
}

// ---- whitespace -------------------------------------------------------------

/// The Unicode `White_Space` property, which `char::is_whitespace` tests.
pub open spec fn is_ws(c: char) -> bool {
    let u = c as u32;
    ||| 0x9 <= u <= 0xd
    ||| u == 0x20
    ||| u == 0x85
    ||| u == 0xa0
    ||| u == 0x1680
    ||| 0x2000 <= u <= 0x200a
    ||| u == 0x2028
    ||| u == 0x2029
    ||| u == 0x202f
    ||| u == 0x205f
    ||| u == 0x3000
}

pub fn is_whitespace(c: char) -> (r: bool)
    ensures
        r == is_ws(c),
{
    let u = c as u32;
    (0x9 <= u && u <= 0xd) || u == 0x20 || u == 0x85 || u == 0xa0 || u == 0x1680 || (0x2000 <= u
        && u <= 0x200a) || u == 0x2028 || u == 0x2029 || u == 0x202f || u == 0x205f || u == 0x3000
}

/// `s` without its leading whitespace.
pub open spec fn trim_start(s: Seq<char>) -> Seq<char>
    decreases s.len(),
{
    if s.len() > 0 && is_ws(s[0]) {
        trim_start(s.drop_first())
    } else {
        s
    }
}

/// `s` without its trailing whitespace.
pub open spec fn trim_end(s: Seq<char>) -> Seq<char>
    decreases s.len(),
{
    if s.len() > 0 && is_ws(s.last()) {
        trim_end(s.drop_last())
    } else {
        s
    }
}

/// What `str::trim` leaves of `s`.
pub open spec fn trim(s: Seq<char>) -> Seq<char> {
    trim_end(trim_start(s))
}

/// A trimmed sequence neither starts nor ends with whitespace.
pub proof fn lemma_trim_ends(s: Seq<char>)
    ensures
        trim(s).len() > 0 ==> !is_ws(trim(s)[0]) && !is_ws(trim(s).last()),
        trim(trim(s)) == trim(s),
    decreases s.len(),
{
    lemma_trim_start_shape(s);
    lemma_trim_end_shape(trim_start(s));
    let t = trim_start(s);
    if trim(s).len() > 0 {
        assert(trim(s)[0] == t[0]);
    }
    lemma_trim_fixed(trim(s));
}

proof fn lemma_trim_start_shape(s: Seq<char>)
    ensures
        trim_start(s).len() > 0 ==> !is_ws(trim_start(s)[0]),
        trim_start(s).len() <= s.len(),
        trim_start(s) == s.skip(s.len() - trim_start(s).len()),
    decreases s.len(),
{
    if s.len() > 0 && is_ws(s[0]) {
        lemma_trim_start_shape(s.drop_first());
        assert(s.drop_first().skip(s.drop_first().len() - trim_start(s).len()) == s.skip(
            s.len() - trim_start(s).len(),
        ));
    } else {
        assert(s.skip(0) == s);
    }
}

proof fn lemma_trim_end_shape(s: Seq<char>)
    ensures
        trim_end(s).len() > 0 ==> !is_ws(trim_end(s).last()),
        trim_end(s).len() <= s.len(),
        trim_end(s) == s.take(trim_end(s).len() as int),
        s.len() > 0 && !is_ws(s[0]) && trim_end(s).len() > 0 ==> trim_end(s)[0] == s[0],
        s.len() > 0 && !is_ws(s[0]) ==> trim_end(s).len() > 0,
    decreases s.len(),
{
    if s.len() > 0 && is_ws(s.last()) {
        lemma_trim_end_shape(s.drop_last());
        assert(s.drop_last().take(trim_end(s).len() as int) == s.take(trim_end(s).len() as int));
        if s.len() > 0 && !is_ws(s[0]) {
            assert(s.len() > 1);
            assert(s.drop_last()[0] == s[0]);
        }
    } else {
        assert(s.take(s.len() as int) == s);
    }
}

/// Trimming keeps only characters of `s`: one `s` lacks, `trim(s)` lacks.
pub proof fn lemma_trim_lacks(s: Seq<char>, c: char)
    requires
        forall|i: int| 0 <= i < s.len() ==> s[i] != c,
    ensures
        forall|i: int| 0 <= i < trim(s).len() ==> trim(s)[i] != c,
{
    lemma_trim_start_shape(s);
    let t = trim_start(s);
    lemma_trim_end_shape(t);
    let k = s.len() - t.len();
    assert forall|i: int| 0 <= i < trim(s).len() implies trim(s)[i] != c by {
        assert(trim(s)[i] == t[i]);
        assert(t[i] == s[i + k]);
    }
}

/// Trimming a sequence whose ends are not whitespace changes nothing.
pub proof fn lemma_trim_fixed(s: Seq<char>)
    requires
        s.len() > 0 ==> !is_ws(s[0]) && !is_ws(s.last()),
    ensures
        trim(s) == s,
{
}

/// The bounds `lo..hi` of what `str::trim` keeps of `s`.
pub fn trim_bounds(s: &[char]) -> (r: (usize, usize))
    ensures
        r.0 <= r.1 <= s@.len(),
        s@.subrange(r.0 as int, r.1 as int) == trim(s@),
{
    let n = s.len();
    let mut lo: usize = 0;
    assert(s@.subrange(0, n as int) == s@);
    while lo < n && is_whitespace(s[lo])
        invariant
            lo <= n == s@.len(),
            trim_start(s@) == trim_start(s@.subrange(lo as int, n as int)),
        decreases n - lo,
    {
        assert(s@.subrange(lo as int, n as int).drop_first() == s@.subrange(
            lo + 1,
            n as int,
        ));
        lo += 1;
    }
    let mut hi: usize = n;
    while hi > lo && is_whitespace(s[hi - 1])
        invariant
            lo <= hi <= n == s@.len(),
            trim_start(s@) == s@.subrange(lo as int, n as int),
            trim(s@) == trim_end(s@.subrange(lo as int, hi as int)),
        decreases hi - lo,
    {
        assert(s@.subrange(lo as int, hi as int).drop_last() == s@.subrange(
            lo as int,
            hi - 1,
        ));
        hi -= 1;
    }
    (lo, hi)
}

/// A copy of `s[lo..hi]`.
pub fn copy_range(s: &[char], lo: usize, hi: usize) -> (out: Vec<char>)
    requires
        lo <= hi <= s@.len(),
    ensures
        out@ == s@.subrange(lo as int, hi as int),
{
    let mut out: Vec<char> = Vec::new();
    let mut i = lo;
    while i < hi
        invariant
            lo <= i <= hi <= s@.len(),
            out@ == s@.subrange(lo as int, i as int),
        decreases hi - i,
    {
        out.push(s[i]);
        i += 1;
    }
    out
}

/// What `str::trim` leaves of `s`, as a new vector.
pub fn trimmed(s: &[char]) -> (out: Vec<char>)
    ensures
        out@ == trim(s@),
{
    let (lo, hi) = trim_bounds(s);
    copy_range(s, lo, hi)
}

// ---- searching and splitting -------------------------------------------------

/// Index of the first `c` in `s`, or -1.
pub open spec fn index_of(s: Seq<char>, c: char) -> int
    decreases s.len(),
{
    if s.len() == 0 {
        -1
    } else if s[0] == c {
        0
    } else {
        let r = index_of(s.drop_first(), c);
        if r < 0 {
            -1
        } else {
            r + 1
        }
    }
}

pub proof fn lemma_index_of(s: Seq<char>, c: char)
    ensures
        -1 <= index_of(s, c) < s.len(),
        index_of(s, c) >= 0 ==> s[index_of(s, c)] == c,
        forall|j: int| 0 <= j < s.len() && (index_of(s, c) < 0 || j < index_of(s, c)) ==> s[j]
            != c,
    decreases s.len(),
{
    if s.len() > 0 && s[0] != c {
        lemma_index_of(s.drop_first(), c);
        assert forall|j: int|
            0 <= j < s.len() && (index_of(s, c) < 0 || j < index_of(s, c)) implies s[j] != c by {
            if j > 0 {
                assert(s[j] == s.drop_first()[j - 1]);
            }
        }
    }
}

/// The index characterisation pins `index_of` down.
pub proof fn lemma_index_of_at(s: Seq<char>, c: char, i: int)
    requires
        0 <= i < s.len(),
        s[i] == c,
        forall|j: int| 0 <= j < i ==> s[j] != c,
    ensures
        index_of(s, c) == i,
    decreases s.len(),
{
    if i > 0 {
        assert(s[0] != c);
        assert forall|j: int| 0 <= j < i - 1 implies s.drop_first()[j] != c by {
            assert(s.drop_first()[j] == s[j + 1]);
        }
        lemma_index_of_at(s.drop_first(), c, i - 1);
    }
}

pub proof fn lemma_index_of_absent(s: Seq<char>, c: char)
    requires
        forall|j: int| 0 <= j < s.len() ==> s[j] != c,
    ensures
        index_of(s, c) == -1,
    decreases s.len(),
{
    if s.len() > 0 {
        assert forall|j: int| 0 <= j < s.len() - 1 implies s.drop_first()[j] != c by {
            assert(s.drop_first()[j] == s[j + 1]);
        }
        lemma_index_of_absent(s.drop_first(), c);
    }
}

/// Index of the first `c` in `s`, if any.
pub fn find_char(s: &[char], c: char) -> (r: Option<usize>)
    ensures
        match r {
            Some(i) => i == index_of(s@, c),
            None => index_of(s@, c) == -1,
        },
{
    let mut i: usize = 0;
    while i < s.len()
        invariant
            i <= s@.len(),
            forall|j: int| 0 <= j < i ==> s@[j] != c,
        decreases s.len() - i,
    {
        if s[i] == c {
            proof {
                lemma_index_of_at(s@, c, i as int);
            }
            return Some(i);
        }
        i += 1;
    }
    proof {
        lemma_index_of_absent(s@, c);
    }
    None
}

/// `str::split_once(c)`: the text before and after the first `c`.
pub open spec fn split_once(s: Seq<char>, c: char) -> Option<(Seq<char>, Seq<char>)> {
    let i = index_of(s, c);
    if i < 0 {
        None
    } else {
        Some((s.take(i), s.skip(i + 1)))
    }
}

/// `str::split(c)`: the pieces between the occurrences of `c`.
pub open spec fn split_on(s: Seq<char>, c: char) -> Seq<Seq<char>>
    decreases s.len(),
{
    let i = index_of(s, c);
    if 0 <= i < s.len() {
        seq![s.take(i)] + split_on(s.skip(i + 1), c)
    } else {
        seq![s]
    }
}

/// Splitting always gives at least one piece.
pub proof fn lemma_split_nonempty(s: Seq<char>, c: char)
    ensures
        split_on(s, c).len() >= 1,
    decreases s.len(),
{
    let i = index_of(s, c);
    if 0 <= i < s.len() {
        lemma_index_of(s, c);
        lemma_split_nonempty(s.skip(i + 1), c);
    }
}

/// A line as `str::lines` yields it: one trailing `'\r'` of a `"\r\n"` ending
/// is not part of it.
pub open spec fn strip_cr(l: Seq<char>) -> Seq<char> {
    if l.len() > 0 && l.last() == '\r' {
        l.drop_last()
    } else {
        l
    }
}

/// `str::lines`: lines end at `'\n'` or `"\r\n"`; the final line ending is
/// optional, and nothing follows a trailing one.
pub open spec fn lines(s: Seq<char>) -> Seq<Seq<char>>
    decreases s.len(),
{
    if s.len() == 0 {
        seq![]
    } else {
        let i = index_of(s, '\n');
        if 0 <= i < s.len() {
            seq![strip_cr(s.take(i))] + lines(s.skip(i + 1))
        } else {
            seq![s]
        }
    }
}

/// The pieces of `s` between the occurrences of `sep`.
pub fn split_char(s: &[char], sep: char) -> (out: Vec<Vec<char>>)
    ensures
        out@.len() == split_on(s@, sep).len(),
        forall|k: int| 0 <= k < out@.len() ==> #[trigger] out@[k]@ == split_on(s@, sep)[k],
{
    let n = s.len();
    let mut out: Vec<Vec<char>> = Vec::new();
    let mut cur: Vec<char> = Vec::new();
    let mut start: usize = 0;
    let mut i: usize = 0;
    let ghost done: Seq<Seq<char>> = seq![];
    assert(s@.skip(0) == s@);
    assert(done + split_on(s@, sep) == split_on(s@, sep));
    while i < n
        invariant
            start <= i <= n == s@.len(),
            cur@ == s@.subrange(start as int, i as int),
            forall|j: int| start <= j < i ==> s@[j] != sep,
            out@.len() == done.len(),
            forall|k: int| 0 <= k < out@.len() ==> #[trigger] out@[k]@ == done[k],
            split_on(s@, sep) == done + split_on(s@.skip(start as int), sep),
        decreases n - i,
    {
        if s[i] == sep {
            proof {
                let rest = s@.skip(start as int);
                assert forall|j: int| 0 <= j < i - start implies rest[j] != sep by {
                    assert(rest[j] == s@[start + j]);
                }
                lemma_index_of_at(rest, sep, i - start);
                assert(rest.take(i - start) == cur@);
                assert(rest.skip(i - start + 1) == s@.skip(i + 1));
                assert(split_on(rest, sep) == seq![cur@] + split_on(s@.skip(i + 1), sep));
                assert(done + split_on(rest, sep) == done.push(cur@) + split_on(
                    s@.skip(i + 1),
                    sep,
                ));
            }
            out.push(cur);
            proof {
                done = done.push(cur@);
            }
            cur = Vec::new();
            start = i + 1;
        } else {
            cur.push(s[i]);
        }
        i += 1;
    }
    proof {
        let rest = s@.skip(start as int);
        assert(rest == cur@);
        assert forall|j: int| 0 <= j < rest.len() implies rest[j] != sep by {
            assert(rest[j] == s@[start + j]);
        }
        lemma_index_of_absent(rest, sep);
        assert(split_on(rest, sep) == seq![cur@]);
    }
    out.push(cur);
    proof {
        done = done.push(cur@);
    }
    out
}

/// The lines of `s`, as `str::lines` yields them.
pub fn split_lines(s: &[char]) -> (out: Vec<Vec<char>>)
    ensures
        out@.len() == lines(s@).len(),
        forall|k: int| 0 <= k < out@.len() ==> #[trigger] out@[k]@ == lines(s@)[k],
{
    let n = s.len();
    let mut out: Vec<Vec<char>> = Vec::new();
    let mut cur: Vec<char> = Vec::new();
    let mut start: usize = 0;
    let mut i: usize = 0;
    let ghost done: Seq<Seq<char>> = seq![];
    assert(s@.skip(0) == s@);
    assert(done + lines(s@) == lines(s@));
    while i < n
        invariant
            start <= i <= n == s@.len(),
            cur@ == s@.subrange(start as int, i as int),
            forall|j: int| start <= j < i ==> s@[j] != '\n',
            out@.len() == done.len(),
            forall|k: int| 0 <= k < out@.len() ==> #[trigger] out@[k]@ == done[k],
            lines(s@) == done + lines(s@.skip(start as int)),
        decreases n - i,
    {
        if s[i] == '\n' {
            let mut line = cur;
            let ln = line.len();
            if ln > 0 && line[ln - 1] == '\r' {
                line.pop();
            }
            proof {
                let rest = s@.skip(start as int);
                assert forall|j: int| 0 <= j < i - start implies rest[j] != '\n' by {
                    assert(rest[j] == s@[start + j]);
                }
                lemma_index_of_at(rest, '\n', i - start);
                assert(rest.take(i - start) == s@.subrange(start as int, i as int));
                assert(rest.skip(i - start + 1) == s@.skip(i + 1));
                assert(line@ == strip_cr(s@.subrange(start as int, i as int)));
                assert(lines(rest) == seq![line@] + lines(s@.skip(i + 1)));
                assert(done + lines(rest) == done.push(line@) + lines(s@.skip(i + 1)));
            }
            out.push(line);
            proof {
                done = done.push(line@);
            }
            cur = Vec::new();
            start = i + 1;
        } else {
            cur.push(s[i]);
        }
        i += 1;
    }
    proof {
        let rest = s@.skip(start as int);
        assert(rest == cur@);
        if rest.len() > 0 {
            assert forall|j: int| 0 <= j < rest.len() implies rest[j] != '\n' by {
                assert(rest[j] == s@[start + j]);
            }
            lemma_index_of_absent(rest, '\n');
        }
    }
    if cur.len() > 0 {
        out.push(cur);
        proof {
            done = done.push(cur@);
        }
    } else {
        assert(done + lines(s@.skip(start as int)) == done);
    }
    out
}

// ---- integers -----------------------------------------------------------------

/// The value of a digit character in bases up to 36 (`char::to_digit(36)`),
/// or -1.
pub open spec fn digit_value(c: char) -> int {
    let u = c as u32;
    if 48 <= u <= 57 {
        u - 48
    } else if 97 <= u <= 122 {
        u - 87
    } else if 65 <= u <= 90 {
        u - 55
    } else {
        -1
    }
}

pub open spec fn is_radix_digit(c: char, radix: nat) -> bool {
    0 <= digit_value(c) < radix
}

pub open spec fn all_radix_digits(s: Seq<char>, radix: nat) -> bool {
    forall|i: int| 0 <= i < s.len() ==> is_radix_digit(#[trigger] s[i], radix)
}

/// The number that the digits `s` spell in base `radix`.
pub open spec fn radix_value(s: Seq<char>, radix: nat) -> nat
    decreases s.len(),
{
    if s.len() == 0 {
        0
    } else {
        radix_value(s.drop_last(), radix) * radix + digit_value(s.last()) as nat
    }
}

/// Rust's unsigned-integer syntax (`FromStr`, `from_str_radix`): an optional
/// `'+'`, then one or more digits of the base. `None` where it is not met.
pub open spec fn parse_unsigned(s: Seq<char>, radix: nat) -> Option<nat> {
    let d = if s.len() > 0 && s[0] == '+' {
        s.drop_first()
    } else {
        s
    };
    if d.len() > 0 && all_radix_digits(d, radix) {
        Some(radix_value(d, radix))
    } else {
        None
    }
}

/// The integer parse of a type whose largest value is `max`: the syntax is
/// met and the value fits.
pub open spec fn parse_bounded(s: Seq<char>, radix: nat, max: nat) -> Option<nat> {
    match parse_unsigned(s, radix) {
        Some(v) => if v <= max {
            Some(v)
        } else {
            None
        },
        None => None,
    }
}

pub fn digit_of(c: char) -> (r: i32)
    ensures
        r == digit_value(c),
{
    let u = c as u32;
    if 48 <= u && u <= 57 {
        (u - 48) as i32
    } else if 97 <= u && u <= 122 {
        (u - 87) as i32
    } else if 65 <= u && u <= 90 {
        (u - 55) as i32
    } else {
        -1
    }
}

proof fn lemma_radix_value_step(s: Seq<char>, lo: int, hi: int, radix: nat)
    requires
        0 <= lo <= hi < s.len(),
    ensures
        radix_value(s.subrange(lo, hi + 1), radix) == radix_value(s.subrange(lo, hi), radix)
            * radix + digit_value(s[hi]) as nat,
{
    assert(s.subrange(lo, hi + 1).drop_last() == s.subrange(lo, hi));
}

/// Parses `s` as an unsigned integer in base `radix` whose largest value is
/// `max`, as `u32::from_str_radix` or `usize::from_str` do.
pub fn parse_uint(s: &[char], radix: u32, max: u64) -> (r: Option<u64>)
    requires
        2 <= radix <= 36,
    ensures
        match parse_bounded(s@, radix as nat, max as nat) {
            Some(v) => r == Some(v as u64),
            None => r is None,
        },
{
    let n = s.len();
    let start: usize = if n > 0 && s[0] == '+' {
        1
    } else {
        0
    };
    let ghost d = if s@.len() > 0 && s@[0] == '+' {
        s@.drop_first()
    } else {
        s@
    };
    assert(d == s@.subrange(start as int, n as int));
    if start == n {
        return None;
    }
    let mut acc: u64 = 0;
    let mut over = false;
    let mut i = start;
    while i < n
        invariant
            start <= i <= n == s@.len(),
            2 <= radix <= 36,
            d == s@.subrange(start as int, n as int),
            d == (if s@.len() > 0 && s@[0] == '+' {
                s@.drop_first()
            } else {
                s@
            }),
            all_radix_digits(s@.subrange(start as int, i as int), radix as nat),
            over ==> radix_value(s@.subrange(start as int, i as int), radix as nat) > max,
            !over ==> acc == radix_value(s@.subrange(start as int, i as int), radix as nat),
            !over ==> acc <= max,
        decreases n - i,
    {
        let dv = digit_of(s[i]);
        if dv < 0 || dv >= radix as i32 {
            proof {
                assert(d[i - start] == s@[i as int]);
                assert(!is_radix_digit(d[i - start], radix as nat));
                assert(!all_radix_digits(d, radix as nat));
                assert(parse_unsigned(s@, radix as nat) is None);
            }
            return None;
        }
        proof {
            lemma_radix_value_step(s@, start as int, i as int, radix as nat);
            let prev = radix_value(s@.subrange(start as int, i as int), radix as nat);
            assert(prev * radix + dv >= prev) by (nonlinear_arith)
                requires
                    radix >= 2,
                    dv >= 0,
            ;
            assert forall|j: int| 0 <= j < i + 1 - start implies is_radix_digit(
                #[trigger] s@.subrange(start as int, i + 1)[j],
                radix as nat,
            ) by {
                if j < i - start {
                    assert(s@.subrange(start as int, i + 1)[j] == s@.subrange(
                        start as int,
                        i as int,
                    )[j]);
                }
            }
        }
        if !over {
            assert((acc as u128) * (radix as u128) <= 0xffff_ffff_ffff_ffffu128 * 36)
                by (nonlinear_arith)
                requires
                    radix <= 36,
                    acc <= 0xffff_ffff_ffff_ffffu64,
            ;
            let next: u128 = (acc as u128) * (radix as u128) + (dv as u128);
            if next > max as u128 {
                over = true;
            } else {
                acc = next as u64;
            }
        }
        i += 1;
    }
    if over {
        None
    } else {
        Some(acc)
    }
}

/// `b` to the power `e`.
pub open spec fn pow_nat(b: nat, e: nat) -> nat
    decreases e,
{
    if e == 0 {
        1
    } else {
        b * pow_nat(b, (e - 1) as nat)
    }
}

/// The lower-case digit character for `d` (below 36).
pub open spec fn digit_char(d: nat) -> char {
    if d < 10 {
        ((48 + d) as u32) as char
    } else {
        ((87 + d) as u32) as char
    }
}

pub proof fn lemma_digit_char(d: nat)
    requires
        d < 36,
    ensures
        digit_value(digit_char(d)) == d,
        digit_char(d) != '+',
        d < 10 ==> 48 <= digit_char(d) as u32 <= 57,
{
}

/// The decimal digits of `n`, most significant first, without leading zeros
/// (`format!("{}", n)`).
pub open spec fn dec(n: nat) -> Seq<char>
    decreases n,
{
    if n < 10 {
        seq![digit_char(n)]
    } else {
        dec(n / 10).push(digit_char(n % 10))
    }
}

/// The last `width` digits of `n` in base `radix`, zero-padded.
pub open spec fn fixed_digits(n: nat, width: nat, radix: nat) -> Seq<char>
    decreases width,
{
    if width == 0 {
        seq![]
    } else {
        fixed_digits(n / radix, (width - 1) as nat, radix).push(digit_char(n % radix))
    }
}

pub proof fn lemma_dec(n: nat)
    ensures
        dec(n).len() > 0,
        all_radix_digits(dec(n), 10),
        radix_value(dec(n), 10) == n,
        dec(n)[0] != '+',
        parse_unsigned(dec(n), 10) == Some(n),
    decreases n,
{
    lemma_digit_char(n % 10);
    let s = dec(n);
    if n < 10 {
        assert(s.drop_last() == Seq::<char>::empty());
        assert(radix_value(s, 10) == radix_value(s.drop_last(), 10) * 10 + digit_value(s.last()) as nat);
    } else {
        lemma_dec(n / 10);
        assert(s.drop_last() == dec(n / 10));
        assert(s.last() == digit_char(n % 10));
        assert(radix_value(s, 10) == radix_value(dec(n / 10), 10) * 10 + digit_value(s.last()) as nat);
        assert forall|i: int| 0 <= i < s.len() implies is_radix_digit(#[trigger] s[i], 10) by {
            if i < s.len() - 1 {
                assert(s[i] == dec(n / 10)[i]);
            }
        }
        assert(s[0] == dec(n / 10)[0]);
    }
}

pub proof fn lemma_fixed_digits(n: nat, width: nat, radix: nat)
    requires
        2 <= radix <= 36,
    ensures
        fixed_digits(n, width, radix).len() == width,
        all_radix_digits(fixed_digits(n, width, radix), radix),
        width > 0 ==> fixed_digits(n, width, radix)[0] != '+',
        n < pow_nat(radix, width) ==> radix_value(
            fixed_digits(n, width, radix),
            radix,
        ) == n,
    decreases width,
{
    if width > 0 {
        lemma_digit_char(n % radix);
        let w1 = (width - 1) as nat;
        lemma_fixed_digits(n / radix, w1, radix);
        let s = fixed_digits(n, width, radix);
        assert(s.drop_last() == fixed_digits(n / radix, w1, radix));
        assert forall|i: int| 0 <= i < s.len() implies is_radix_digit(#[trigger] s[i], radix) by {
            if i < s.len() - 1 {
                assert(s[i] == fixed_digits(n / radix, w1, radix)[i]);
            }
        }
        if width > 1 {
            assert(s[0] == fixed_digits(n / radix, w1, radix)[0]);
        }
        if n < pow_nat(radix, width) {
            let p = pow_nat(radix, w1);
            assert(pow_nat(radix, width) == radix * p);
            assert(n / radix < p) by (nonlinear_arith)
                requires
                    n < radix * p,
                    radix >= 2,
            ;
            assert(n == (n / radix) * radix + n % radix) by (nonlinear_arith)
                requires
                    radix >= 2,
            ;
        }
    }
}

/// The digit character for `d` (below 36), lower case.
pub fn digit_char_of(d: u32) -> (c: char)
    requires
        d < 36,
    ensures
        c == digit_char(d as nat),
{
    if d < 10 {
        ((48 + d) as u8) as char
    } else {
        ((87 + d) as u8) as char
    }
}

/// `n` in decimal, as `format!("{}", n)` writes it.
pub fn fmt_dec(n: u64) -> (out: Vec<char>)
    ensures
        out@ == dec(n as nat),
    decreases n,
{
    if n < 10 {
        let mut v = Vec::new();
        v.push(digit_char_of(n as u32));
        v
    } else {
        let mut v = fmt_dec(n / 10);
        v.push(digit_char_of((n % 10) as u32));
        v
    }
}

/// The last `width` digits of `n` in base `radix`, zero-padded: `{:02x}` is
/// width 2, base 16.
pub fn fmt_fixed(n: u64, width: u32, radix: u32) -> (out: Vec<char>)
    requires
        2 <= radix <= 36,
    ensures
        out@ == fixed_digits(n as nat, width as nat, radix as nat),
    decreases width,
{
    if width == 0 {
        Vec::new()
    } else {
        let mut v = fmt_fixed(n / radix as u64, width - 1, radix);
        v.push(digit_char_of((n % radix as u64) as u32));
        v
    }
}

// ---- facts about digit values and powers ------------------------------------

pub proof fn lemma_pow_pos(b: nat, e: nat)
    requires
        b >= 1,
    ensures
        pow_nat(b, e) >= 1,
    decreases e,
{
    if e > 0 {
        lemma_pow_pos(b, (e - 1) as nat);
        assert(b * pow_nat(b, (e - 1) as nat) >= 1) by (nonlinear_arith)
            requires
                b >= 1,
                pow_nat(b, (e - 1) as nat) >= 1,
        ;
    }
}

pub proof fn lemma_pow_add(b: nat, x: nat, y: nat)
    ensures
        pow_nat(b, x + y) == pow_nat(b, x) * pow_nat(b, y),
    decreases x,
{
    if x == 0 {
        assert(pow_nat(b, 0) == 1);
        assert(x + y == y);
    } else {
        lemma_pow_add(b, (x - 1) as nat, y);
        assert((x - 1) as nat + y == (x + y - 1) as nat);
        assert(pow_nat(b, x + y) == b * pow_nat(b, (x + y - 1) as nat));
        assert(pow_nat(b, x) == b * pow_nat(b, (x - 1) as nat));
        assert(b * (pow_nat(b, (x - 1) as nat) * pow_nat(b, y)) == (b * pow_nat(b, (x - 1) as nat))
            * pow_nat(b, y)) by (nonlinear_arith);
    }
}

pub proof fn lemma_pow_mono(b: nat, x: nat, y: nat)
    requires
        b >= 1,
        x <= y,
    ensures
        pow_nat(b, x) <= pow_nat(b, y),
{
    lemma_pow_add(b, x, (y - x) as nat);
    lemma_pow_pos(b, (y - x) as nat);
    lemma_pow_pos(b, x);
    assert(pow_nat(b, x) <= pow_nat(b, x) * pow_nat(b, (y - x) as nat)) by (nonlinear_arith)
        requires
            pow_nat(b, (y - x) as nat) >= 1,
            pow_nat(b, x) >= 1,
    ;
}

pub proof fn lemma_value_push(s: Seq<char>, c: char, radix: nat)
    ensures
        radix_value(s.push(c), radix) == radix_value(s, radix) * radix + digit_value(c) as nat,
{
    assert(s.push(c).drop_last() == s);
}

/// The value of two digit strings side by side.
pub proof fn lemma_value_concat(a: Seq<char>, b: Seq<char>, radix: nat)
    ensures
        radix_value(a + b, radix) == radix_value(a, radix) * pow_nat(radix, b.len())
            + radix_value(b, radix),
    decreases b.len(),
{
    if b.len() == 0 {
        assert(a + b == a);
        assert(pow_nat(radix, 0) == 1);
    } else {
        let b1 = b.drop_last();
        lemma_value_concat(a, b1, radix);
        assert((a + b).drop_last() == a + b1);
        assert((a + b).last() == b.last());
        assert(radix_value(a + b, radix) == radix_value(a + b1, radix) * radix + digit_value(
            b.last(),
        ) as nat);
        assert(radix_value(b, radix) == radix_value(b1, radix) * radix + digit_value(
            b.last(),
        ) as nat);
        let va = radix_value(a, radix);
        let p1 = pow_nat(radix, b1.len());
        let vb1 = radix_value(b1, radix);
        assert(pow_nat(radix, b.len()) == radix * p1);
        assert((va * p1 + vb1) * radix == va * (radix * p1) + vb1 * radix) by (nonlinear_arith);
    }
}

/// A digit string is below the base to the power of its length.
pub proof fn lemma_value_bound(s: Seq<char>, radix: nat)
    requires
        all_radix_digits(s, radix),
    ensures
        radix_value(s, radix) < pow_nat(radix, s.len()),
    decreases s.len(),
{
    if s.len() > 0 {
        let s1 = s.drop_last();
        assert(all_radix_digits(s1, radix)) by {
            assert forall|i: int| 0 <= i < s1.len() implies is_radix_digit(#[trigger] s1[i], radix) by {
                assert(s1[i] == s[i]);
            }
        }
        lemma_value_bound(s1, radix);
        assert(is_radix_digit(s[s.len() - 1], radix));
        let v1 = radix_value(s1, radix);
        let d = digit_value(s.last()) as nat;
        let p1 = pow_nat(radix, s1.len());
        assert(v1 * radix + d < radix * p1) by (nonlinear_arith)
            requires
                v1 < p1,
                d < radix,
        ;
    }
}

/// Leading zeros add nothing to the value.
pub proof fn lemma_value_zeros(s: Seq<char>, radix: nat)
    requires
        forall|i: int| 0 <= i < s.len() ==> digit_value(#[trigger] s[i]) == 0,
    ensures
        radix_value(s, radix) == 0,
    decreases s.len(),
{
    if s.len() > 0 {
        assert forall|i: int| 0 <= i < s.drop_last().len() implies digit_value(
            #[trigger] s.drop_last()[i],
        ) == 0 by {
            assert(s.drop_last()[i] == s[i]);
        }
        lemma_value_zeros(s.drop_last(), radix);
        assert(s.last() == s[s.len() - 1]);
        assert(radix_value(s, radix) == radix_value(s.drop_last(), radix) * radix + digit_value(
            s.last(),
        ) as nat);
    }
}

/// A digit string whose first digit is not zero is at least the base to the
/// power of its length less one.
pub proof fn lemma_value_lower(s: Seq<char>, radix: nat)
    requires
        s.len() > 0,
        all_radix_digits(s, radix),
        digit_value(s[0]) >= 1,
        radix >= 2,
    ensures
        radix_value(s, radix) >= pow_nat(radix, (s.len() - 1) as nat),
{
    let a = s.take(1);
    let b = s.skip(1);
    assert(a + b == s);
    lemma_value_concat(a, b, radix);
    assert(a.drop_last() == Seq::<char>::empty());
    assert(a.last() == s[0]);
    assert(radix_value(a, radix) == radix_value(a.drop_last(), radix) * radix + digit_value(
        a.last(),
    ) as nat);
    assert(radix_value(a.drop_last(), radix) == 0);
    assert(0 * radix == 0) by (nonlinear_arith);
    assert(radix_value(a, radix) == digit_value(s[0]));
    lemma_pow_pos(radix, b.len());
    assert(radix_value(a, radix) * pow_nat(radix, b.len()) >= pow_nat(radix, b.len()))
        by (nonlinear_arith)
        requires
            radix_value(a, radix) >= 1,
            pow_nat(radix, b.len()) >= 1,
    ;
}

} // verus!
