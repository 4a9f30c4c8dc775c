//! Small decisions around the player's transport: which files it offers to
//! open, and how a playback position reads on the clock.

use vstd::prelude::*;
use crate::text::{append_chars, chars_of, dec, fixed_digits, fmt_dec, fmt_fixed, lowercase, same_chars, string_of, to_lowercase};

verus! {

/// The extensions the player decodes, in lower case.
pub open spec fn audio_exts() -> Seq<Seq<char>> {
    seq![
        seq!['m', 'p', '3'],
        seq!['w', 'a', 'v'],
        seq!['f', 'l', 'a', 'c'],
        seq!['o', 'g', 'g'],
        seq!['m', '4', 'a'],
    ]
}

fn audio_ext_list() -> (r: Vec<Vec<char>>)
    ensures
        r@.map_values(|e: Vec<char>| e@) == audio_exts(),
{
    let r = vec![
        vec!['m', 'p', '3'],
        vec!['w', 'a', 'v'],
        vec!['f', 'l', 'a', 'c'],
        vec!['o', 'g', 'g'],
        vec!['m', '4', 'a'],
    ];
    assert(r@.map_values(|e: Vec<char>| e@) =~= audio_exts());
    r
}

/// The extensions the player decodes, for a file dialog's filter.
pub fn audio_extensions() -> (r: Vec<String>)
    ensures
        r@.map_values(|e: String| e@) == audio_exts(),
{
    let list = audio_ext_list();
    let mut r: Vec<String> = Vec::new();
    let mut i: usize = 0;
    while i < list.len()
        invariant
            i <= list@.len(),
            list@.map_values(|e: Vec<char>| e@) == audio_exts(),
            r@.map_values(|e: String| e@) == list@.map_values(|e: Vec<char>| e@).take(i as int),
        decreases list.len() - i,
    {
        let ghost before = r@;
        let e = string_of(&list[i]);
        assert(e@ == list@[i as int]@);
        r.push(e);
        let ghost rm = r@.map_values(|e: String| e@);
        let ghost bm = before.map_values(|e: String| e@);
        let ghost lm = list@.map_values(|e: Vec<char>| e@);
        assert(bm.len() == lm.take(i as int).len());
        assert(before.len() == i);
        assert(r@ == before.push(e));
        assert forall|k: int| 0 <= k < i + 1 implies #[trigger] rm[k] == lm[k] by {
            if k < i {
                assert(r@[k] == before[k]);
                assert(bm[k] == lm.take(i as int)[k]);
            }
        }
        assert(r@.map_values(|e: String| e@) =~= list@.map_values(|e: Vec<char>| e@).take(i + 1));
        i += 1;
    }
    assert(list@.map_values(|e: Vec<char>| e@).take(list@.len() as int) =~= list@.map_values(|e: Vec<char>| e@));
    r
}

/// Whether a file with extension `ext` is one the player opens: the
/// extension, lower-cased, is one of [`audio_exts`].
pub fn is_audio_ext(ext: &str) -> (r: bool)
    ensures
        r == audio_exts().contains(lowercase(ext@)),
{
    let lower = to_lowercase(ext);
    let e = chars_of(lower.as_str());
    let exts = audio_ext_list();
    let ghost es = exts@.map_values(|x: Vec<char>| x@);
    let mut i: usize = 0;
    while i < exts.len()
        invariant
            i <= exts@.len(),
            es == exts@.map_values(|x: Vec<char>| x@),
            es == audio_exts(),
            e@ == lowercase(ext@),
            forall|j: int| 0 <= j < i ==> es[j] != e@,
        decreases exts.len() - i,
    {
        if same_chars(&exts[i], &e) {
            assert(es[i as int] == e@);
            return true;
        }
        i += 1;
    }
    assert(!es.contains(e@));
    false
}

/// A playback position of `secs` whole seconds on the transport clock:
/// minutes, a colon, and the seconds past the minute in two digits (`1:05`).
pub open spec fn clock_text(secs: nat) -> Seq<char> {
    dec(secs / 60) + seq![':'] + fixed_digits(secs % 60, 2, 10)
}

/// The transport clock for a position of `secs` whole seconds.
pub fn fmt_clock(secs: u32) -> (out: String)
    ensures
        out@ == clock_text(secs as nat),
{
    let mut v = fmt_dec((secs / 60) as u64);
    v.push(':');
    let ss = fmt_fixed((secs % 60) as u64, 2, 10);
    append_chars(&mut v, &ss);
    string_of(&v)
}

} // verus!
