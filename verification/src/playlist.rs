//! The HLS playlist rewriter: on every flush of the encoder's playlist,
//! track the media sequence number and the first segment duration after
//! it, and inject a single `#EXT-X-PROGRAM-DATE-TIME:` line — a wall-clock
//! anchor computed from the running sum of segment durations — before the
//! first `#EXTINF:` line.
//!
//! The text is handled as lines of bytes. Durations are parsed into whole
//! milliseconds (at most three fractional digits count, as segment
//! durations are printed); sums saturate rather than wrap. A line whose
//! number fails to parse is passed through unchanged.

use vstd::prelude::*;
use crate::playlist_time::{format_utc_millis, rfc3339_utc_millis, MAX_PROGRAM_DATE_MS};

verus! {

/// Per-playlist rewriting state, carried across flushes.
#[derive(Clone, Copy, Debug)]
pub struct PlaylistState {
    /// The media sequence number seen at the last flush.
    pub last_sequence_no: u64,
    /// Sum of the durations of all segments that have left the playlist's
    /// head, in milliseconds: the stream time of the playlist's first
    /// segment.
    pub total_elapsed_ms: u64,
    /// Duration of the segment at the playlist's head, in milliseconds.
    pub next_duration_ms: u64,
}

impl PlaylistState {
    /// The initial state: nothing elapsed yet.
    pub fn new() -> (s: PlaylistState)
        ensures
            s.last_sequence_no == 0,
            s.total_elapsed_ms == 0,
            s.next_duration_ms == 0,
    {
        PlaylistState { last_sequence_no: 0, total_elapsed_ms: 0, next_duration_ms: 0 }
    }
}

/// An ASCII decimal digit.
pub open spec fn is_digit(c: u8) -> bool {
    48 <= c <= 57
}

pub open spec fn all_digits(s: Seq<u8>) -> bool {
    forall|i: int| 0 <= i < s.len() ==> is_digit(#[trigger] s[i])
}

/// The number the digits spell.
pub open spec fn digits_val(s: Seq<u8>) -> nat
    decreases s.len(),
{
    if s.len() == 0 {
        0
    } else {
        digits_val(s.drop_last()) * 10 + (s.last() - 48) as nat
    }
}

/// Clamp an unbounded count into 64 bits.
pub open spec fn sat64(n: nat) -> u64 {
    if n > u64::MAX {
        u64::MAX
    } else {
        n as u64
    }
}

/// Saturating addition.
pub open spec fn add_sat(a: u64, b: u64) -> u64 {
    sat64((a + b) as nat)
}

/// A non-empty run of digits parses to its (saturated) value.
pub open spec fn parse_u64(s: Seq<u8>) -> Option<u64> {
    if s.len() > 0 && all_digits(s) {
        Some(sat64(digits_val(s)))
    } else {
        None
    }
}

/// Position of the first occurrence of `c`.
pub open spec fn find_byte(s: Seq<u8>, c: u8) -> Option<int>
    decreases s.len(),
{
    if s.len() == 0 {
        None
    } else if s[0] == c {
        Some(0)
    } else {
        match find_byte(s.skip(1), c) {
            Some(i) => Some(i + 1),
            None => None,
        }
    }
}

/// A decimal duration in seconds — digits with an optional fraction —
/// read as whole milliseconds; only the first three fractional digits
/// carry value, and the result saturates.
pub open spec fn parse_duration_ms(s: Seq<u8>) -> Option<u64> {
    match find_byte(s, 46) {
        None => match parse_u64(s) {
            Some(n) => Some(sat64(n as nat * 1000)),
            None => None,
        },
        Some(dot) => {
            let whole = s.take(dot);
            let frac = s.skip(dot + 1);
            if whole.len() > 0 && all_digits(whole) && all_digits(frac) && find_byte(frac, 46)
                is None {
                Some(sat64(digits_val(whole) * 1000 + frac_ms(frac)))
            } else {
                None
            }
        },
    }
}

/// The milliseconds a fractional part stands for: three digits' worth,
/// with shorter fractions padded by zeros and longer ones truncated.
pub open spec fn frac_ms(frac: Seq<u8>) -> nat {
    if frac.len() >= 3 {
        digits_val(frac.take(3))
    } else if frac.len() == 2 {
        digits_val(frac) * 10
    } else if frac.len() == 1 {
        digits_val(frac) * 100
    } else {
        0
    }
}

/// A found byte lies inside the sequence, nothing before it matches, and
/// it matches.
pub proof fn lemma_find_byte_bounds(s: Seq<u8>, c: u8)
    ensures
        match find_byte(s, c) {
            Some(i) => 0 <= i < s.len() && s[i] == c && (forall|j: int|
                0 <= j < i ==> s[j] != c),
            None => forall|j: int| 0 <= j < s.len() ==> s[j] != c,
        },
    decreases s.len(),
{
    if s.len() > 0 && s[0] != c {
        lemma_find_byte_bounds(s.skip(1), c);
        if find_byte(s.skip(1), c) is Some {
            let i = find_byte(s.skip(1), c)->Some_0;
            assert(s.skip(1)[i] == s[i + 1]);
            assert forall|j: int| 0 <= j < i + 1 implies s[j] != c by {
                if j > 0 {
                    assert(s.skip(1)[j - 1] == s[j]);
                }
            }
        } else {
            assert forall|j: int| 0 <= j < s.len() implies s[j] != c by {
                if j > 0 {
                    assert(s.skip(1)[j - 1] == s[j]);
                }
            }
        }
    }
}

/// The input split at newlines; a trailing newline ends the last line
/// without opening an empty one.
pub open spec fn spec_lines(b: Seq<u8>) -> Seq<Seq<u8>>
    decreases b.len(),
    via spec_lines_decreases
{
    if b.len() == 0 {
        Seq::empty()
    } else {
        match find_byte(b, 10) {
            None => seq![b],
            Some(i) => seq![b.take(i)] + spec_lines(b.skip(i + 1)),
        }
    }
}

#[via_fn]
proof fn spec_lines_decreases(b: Seq<u8>) {
    if b.len() != 0 {
        lemma_find_byte_bounds(b, 10);
    }
}

/// Lines joined back together, a newline after every line.
pub open spec fn spec_unlines(ls: Seq<Seq<u8>>) -> Seq<u8>
    decreases ls.len(),
{
    if ls.len() == 0 {
        Seq::empty()
    } else {
        ls[0] + seq![10u8] + spec_unlines(ls.skip(1))
    }
}

/// `p` starts `s`.
pub open spec fn is_prefix(p: Seq<u8>, s: Seq<u8>) -> bool {
    p.len() <= s.len() && s.take(p.len() as int) == p
}

/// `#EXT-X-MEDIA-SEQUENCE:` as bytes.
pub open spec fn media_sequence_tag() -> Seq<u8> {
    seq![
        0x23u8, 0x45u8, 0x58u8, 0x54u8, 0x2du8, 0x58u8, 0x2du8, 0x4du8, 0x45u8, 0x44u8, 0x49u8,
        0x41u8, 0x2du8, 0x53u8, 0x45u8, 0x51u8, 0x55u8, 0x45u8, 0x4eu8, 0x43u8, 0x45u8, 0x3au8,
    ]
}

/// `#EXTINF:` as bytes.
pub open spec fn extinf_tag() -> Seq<u8> {
    seq![0x23u8, 0x45u8, 0x58u8, 0x54u8, 0x49u8, 0x4eu8, 0x46u8, 0x3au8]
}

/// `#EXT-X-PROGRAM-DATE-TIME:` as bytes.
pub open spec fn program_date_tag() -> Seq<u8> {
    seq![
        0x23u8, 0x45u8, 0x58u8, 0x54u8, 0x2du8, 0x58u8, 0x2du8, 0x50u8, 0x52u8, 0x4fu8, 0x47u8,
        0x52u8, 0x41u8, 0x4du8, 0x2du8, 0x44u8, 0x41u8, 0x54u8, 0x45u8, 0x2du8, 0x54u8, 0x49u8,
        0x4du8, 0x45u8, 0x3au8,
    ]
}

/// Whether a line is a media-sequence header with a readable number, and
/// that number.
pub open spec fn media_sequence_of(line: Seq<u8>) -> Option<u64> {
    if is_prefix(media_sequence_tag(), line) {
        parse_u64(line.skip(media_sequence_tag().len() as int))
    } else {
        None
    }
}

/// Whether a line is a segment-duration header — `#EXTINF:<seconds>,` —
/// and that duration in milliseconds.
pub open spec fn extinf_of(line: Seq<u8>) -> Option<u64> {
    if is_prefix(extinf_tag(), line) && line.len() > extinf_tag().len() + 1 && line.last() == 44 {
        parse_duration_ms(line.subrange(extinf_tag().len() as int, line.len() - 1))
    } else {
        None
    }
}

/// The state step on the first duration after the sequence header: when
/// the sequence advanced, the head segment's duration joins the elapsed
/// total; the new head duration is remembered either way.
pub open spec fn step_state(st: PlaylistState, seq_no: u64, dur_ms: u64) -> PlaylistState {
    let advanced = seq_no > st.last_sequence_no;
    PlaylistState {
        last_sequence_no: if advanced {
            seq_no
        } else {
            st.last_sequence_no
        },
        total_elapsed_ms: if advanced {
            add_sat(st.total_elapsed_ms, st.next_duration_ms)
        } else {
            st.total_elapsed_ms
        },
        next_duration_ms: dur_ms,
    }
}

/// The injected anchor line: the tag, then the wall-clock time of
/// `elapsed` milliseconds past the epoch (clamped to the format's range).
pub open spec fn program_date_line(elapsed: u64) -> Seq<u8> {
    program_date_tag() + rfc3339_utc_millis(
        if elapsed > MAX_PROGRAM_DATE_MS {
            MAX_PROGRAM_DATE_MS
        } else {
            elapsed
        },
    )
}

/// One flush's rewriting, over lines: pass lines through, remember the
/// media sequence number, and before the first duration header step the
/// state and inject the anchor line followed by a blank line. Everything
/// after the injection passes through untouched.
pub open spec fn rewrite_lines(
    ls: Seq<Seq<u8>>,
    st: PlaylistState,
    seq_no: u64,
    injected: bool,
) -> (Seq<Seq<u8>>, PlaylistState)
    decreases ls.len(),
{
    if ls.len() == 0 {
        (Seq::empty(), st)
    } else {
        let line = ls[0];
        if !injected && media_sequence_of(line) is Some {
            let sq = media_sequence_of(line)->Some_0;
            let r = rewrite_lines(ls.skip(1), st, sq, false);
            (seq![line] + r.0, r.1)
        } else if !injected && extinf_of(line) is Some {
            let st1 = step_state(st, seq_no, extinf_of(line)->Some_0);
            let r = rewrite_lines(ls.skip(1), st1, seq_no, true);
            (seq![program_date_line(st1.total_elapsed_ms), Seq::empty(), line] + r.0, r.1)
        } else {
            let r = rewrite_lines(ls.skip(1), st, seq_no, injected);
            (seq![line] + r.0, r.1)
        }
    }
}


/// Scan for the next newline at or after `start`.
fn find_newline(b: &Vec<u8>, start: usize) -> (r: Option<usize>)
    requires
        start <= b@.len(),
    ensures
        match r {
            Some(k) => start <= k < b@.len() && find_byte(b@.skip(start as int), 10) == Some(
                k - start as int,
            ),
            None => find_byte(b@.skip(start as int), 10) is None,
        },
{
    let mut k = start;
    while k < b.len()
        invariant
            start <= k <= b@.len(),
            forall|j: int| start <= j < k ==> b@[j] != 10,
        decreases b@.len() - k,
    {
        if b[k] == 10 {
            proof {
                lemma_find_byte_bounds(b@.skip(start as int), 10);
                let s = b@.skip(start as int);
                assert(s[k - start as int] == b@[k as int]);
                if find_byte(s, 10) is None {
                    assert(s[k - start as int] != 10);
                } else {
                    let i = find_byte(s, 10)->Some_0;
                    if i < k - start as int {
                        assert(b@[i + start as int] == s[i]);
                    } else if i > k - start as int {
                        assert(s[k - start as int] != 10);
                    }
                }
            }
            return Some(k);
        }
        k = k + 1;
    }
    proof {
        lemma_find_byte_bounds(b@.skip(start as int), 10);
        let s = b@.skip(start as int);
        if find_byte(s, 10) is Some {
            let i = find_byte(s, 10)->Some_0;
            assert(b@[i + start as int] == s[i]);
        }
    }
    None
}

/// Whether `p` starts `line`.
fn has_prefix(line: &Vec<u8>, p: &Vec<u8>) -> (r: bool)
    ensures
        r == is_prefix(p@, line@),
{
    if p.len() > line.len() {
        return false;
    }
    for i in 0..p.len()
        invariant
            p@.len() <= line@.len(),
            forall|j: int| 0 <= j < i ==> line@[j] == p@[j],
    {
        if line[i] != p[i] {
            proof {
                assert(line@.take(p@.len() as int)[i as int] != p@[i as int]);
            }
            return false;
        }
    }
    proof {
        assert(line@.take(p@.len() as int) =~= p@);
    }
    true
}

/// Parse the digits from `start` to the end of `line`, saturating.
fn parse_u64_from(line: &Vec<u8>, start: usize) -> (r: Option<u64>)
    requires
        start <= line@.len(),
    ensures
        r == parse_u64(line@.skip(start as int)),
{
    let ghost s = line@.skip(start as int);
    if start == line.len() {
        return None;
    }
    let mut v: u64 = 0;
    let mut k = start;
    while k < line.len()
        invariant
            start <= k <= line@.len(),
            s == line@.skip(start as int),
            start < line@.len(),
            all_digits(s.take(k - start as int)),
            digits_val(s.take(k - start as int)) <= u64::MAX ==> v == digits_val(
                s.take(k - start as int),
            ),
            digits_val(s.take(k - start as int)) > u64::MAX ==> v == u64::MAX,
        decreases line@.len() - k,
    {
        let c = line[k];
        if c < 48 || c > 57 {
            proof {
                assert(s[k - start as int] == c);
                assert(!all_digits(s));
            }
            return None;
        }
        let d = (c - 48) as u64;
        let ghost pre = s.take(k - start as int);
        let ghost cur = s.take(k + 1 - start as int);
        proof {
            assert(cur.drop_last() =~= pre);
            assert(cur.last() == c);
            assert(digits_val(cur) == digits_val(pre) * 10 + d);
        }
        let next = match v.checked_mul(10) {
            Some(m) => match m.checked_add(d) {
                Some(x) => x,
                None => u64::MAX,
            },
            None => u64::MAX,
        };
        proof {
            if digits_val(pre) > u64::MAX {
                assert(digits_val(cur) >= digits_val(pre) * 10);
                assert(digits_val(pre) * 10 >= digits_val(pre));
            }
        }
        v = next;
        k = k + 1;
    }
    proof {
        assert(s.take(line@.len() - start as int) =~= s);
        assert(s.len() > 0);
    }
    Some(v)
}

/// Parse the duration text in `line[from..to]` as milliseconds.
fn parse_duration(line: &Vec<u8>, from: usize, to: usize) -> (r: Option<u64>)
    requires
        from <= to <= line@.len(),
    ensures
        r == parse_duration_ms(line@.subrange(from as int, to as int)),
{
    let ghost s = line@.subrange(from as int, to as int);
    // Find a dot inside the window.
    let mut dot: usize = from;
    while dot < to && line[dot] != 46
        invariant
            from <= dot <= to <= line@.len(),
            forall|j: int| from <= j < dot ==> line@[j] != 46,
        decreases to - dot,
    {
        dot = dot + 1;
    }
    proof {
        lemma_find_byte_bounds(s, 46);
        if dot < to {
            assert(s[dot - from as int] == 46);
            if find_byte(s, 46) is Some {
                let i = find_byte(s, 46)->Some_0;
                if i < dot - from as int {
                    assert(line@[i + from as int] == s[i]);
                } else if i > dot - from as int {
                    assert(s[dot - from as int] != 46);
                }
            } else {
                assert(s[dot - from as int] != 46);
            }
        } else {
            if find_byte(s, 46) is Some {
                let i = find_byte(s, 46)->Some_0;
                assert(line@[i + from as int] == s[i]);
            }
        }
    }
    if dot == to {
        // No fraction: whole seconds.
        let whole = match parse_window(line, from, to) {
            None => {
                return None;
            },
            Some(w) => w,
        };
        let ms = match whole.checked_mul(1000) {
            Some(m) => m,
            None => u64::MAX,
        };
        proof {
            let n = parse_u64(s)->Some_0;
            assert(whole == n);
            assert(ms == sat64(n as nat * 1000));
        }
        return Some(ms);
    }
    // A fraction: whole part before the dot, up to three digits after it.
    let whole = match parse_window(line, from, dot) {
        None => {
            proof {
                let w = s.take(dot - from as int);
                assert(w =~= line@.subrange(from as int, dot as int));
            }
            return None;
        },
        Some(w) => w,
    };
    proof {
        assert(s.take(dot - from as int) =~= line@.subrange(from as int, dot as int));
    }
    let ghost frac = s.skip(dot + 1 - from as int);
    proof {
        assert(frac =~= line@.subrange(dot as int + 1, to as int));
    }
    // Every fractional digit must be a digit and no second dot may occur.
    let mut k = dot + 1;
    while k < to
        invariant
            from <= dot < k <= to <= line@.len(),
            s == line@.subrange(from as int, to as int),
            frac == line@.subrange(dot as int + 1, to as int),
            frac == s.skip(dot + 1 - from as int),
            find_byte(s, 46) == Some(dot - from as int),
            forall|j: int| dot < j < k ==> is_digit(line@[j]),
        decreases to - k,
    {
        let c = line[k];
        if c < 48 || c > 57 {
            proof {
                assert(frac[k - (dot + 1) as int] == c);
                assert(!all_digits(frac) || c == 46);
                if c == 46 {
                    lemma_find_byte_bounds(frac, 46);
                    assert(frac[k - (dot + 1) as int] == 46);
                    if find_byte(frac, 46) is None {
                        assert(frac[k - (dot + 1) as int] != 46);
                    }
                }
            }
            return None;
        }
        k = k + 1;
    }
    proof {
        assert forall|j: int| 0 <= j < frac.len() implies is_digit(#[trigger] frac[j]) by {
            assert(frac[j] == line@[j + dot + 1]);
        }
        lemma_find_byte_bounds(frac, 46);
        if find_byte(frac, 46) is Some {
            let i = find_byte(frac, 46)->Some_0;
            assert(is_digit(frac[i]));
        }
    }
    // Milliseconds of the fraction: three digits' worth.
    let flen = to - (dot + 1);
    let f: u64 = if flen >= 3 {
        let d0 = (line[dot + 1] - 48) as u64;
        let d1 = (line[dot + 2] - 48) as u64;
        let d2 = (line[dot + 3] - 48) as u64;
        proof {
            let f3 = frac.take(3);
            assert(f3.drop_last() =~= frac.take(2));
            assert(frac.take(2).drop_last() =~= frac.take(1));
            assert(frac.take(1).drop_last() =~= frac.take(0));
            assert(frac.take(0).len() == 0);
            assert(frac.take(1).last() == line@[dot as int + 1]);
            assert(frac.take(2).last() == line@[dot as int + 2]);
            assert(f3.last() == line@[dot as int + 3]);
            assert(digits_val(frac.take(0)) == 0);
            assert(frac.take(1).drop_last() == frac.take(0));
            assert(digits_val(frac.take(1)) == digits_val(frac.take(0)) * 10 + (frac.take(
                1,
            ).last() - 48) as nat);
            assert(digits_val(frac.take(1)) == d0);
            assert(frac.take(2).drop_last() == frac.take(1));
            assert(digits_val(frac.take(2)) == digits_val(frac.take(1)) * 10 + (frac.take(
                2,
            ).last() - 48) as nat);
            assert(digits_val(frac.take(2)) == d0 * 10 + d1);
            assert(f3.drop_last() == frac.take(2));
            assert(digits_val(f3) == digits_val(frac.take(2)) * 10 + (f3.last() - 48) as nat);
            assert(digits_val(f3) == (d0 * 10 + d1) * 10 + d2);
        }
        d0 * 100 + d1 * 10 + d2
    } else if flen == 2 {
        let d0 = (line[dot + 1] - 48) as u64;
        let d1 = (line[dot + 2] - 48) as u64;
        proof {
            assert(frac.drop_last() =~= frac.take(1));
            assert(frac.take(1).drop_last() =~= frac.take(0));
            assert(frac.take(0).len() == 0);
            assert(frac.take(1).last() == line@[dot as int + 1]);
            assert(frac.last() == line@[dot as int + 2]);
            assert(digits_val(frac.take(0)) == 0);
            assert(digits_val(frac.take(1)) == digits_val(frac.take(0)) * 10 + (frac.take(
                1,
            ).last() - 48) as nat);
            assert(digits_val(frac) == digits_val(frac.take(1)) * 10 + (frac.last() - 48) as nat);
            assert(digits_val(frac) == (d0 * 10 + d1));
        }
        d0 * 100 + d1 * 10
    } else if flen == 1 {
        let d0 = (line[dot + 1] - 48) as u64;
        proof {
            assert(frac.drop_last() =~= frac.take(0));
            assert(frac.take(0).len() == 0);
            assert(frac.last() == line@[dot as int + 1]);
            assert(digits_val(frac) == digits_val(frac.take(0)) * 10 + (frac.last() - 48) as nat);
        }
        d0 * 100
    } else {
        0
    };
    proof {
        if flen == 2 {
            assert(frac_ms(frac) == digits_val(frac) * 10);
        }
        if flen == 1 {
            assert(frac.drop_last() =~= frac.take(0));
            assert(frac.take(0).len() == 0);
        }
        assert(f == frac_ms(frac));
        assert(f < 1000);
    }
    let scaled = match whole.checked_mul(1000) {
        Some(m) => match m.checked_add(f) {
            Some(x) => x,
            None => u64::MAX,
        },
        None => u64::MAX,
    };
    proof {
        let wseq = s.take(dot - from as int);
        let dv = digits_val(wseq);
        let fm = frac_ms(frac) as int;
        if dv > u64::MAX {
            assert(whole == u64::MAX);
            assert(dv * 1000 >= dv);
            assert(dv * 1000 + fm > u64::MAX);
            assert(scaled == u64::MAX);
        } else {
            assert(whole == dv);
        }
        assert(scaled == sat64((dv * 1000 + fm) as nat));
    }
    Some(scaled)
}

/// Parse the digits in `line[from..to]`, saturating.
fn parse_window(line: &Vec<u8>, from: usize, to: usize) -> (r: Option<u64>)
    requires
        from <= to <= line@.len(),
    ensures
        r == parse_u64(line@.subrange(from as int, to as int)),
{
    let ghost s = line@.subrange(from as int, to as int);
    if from == to {
        return None;
    }
    let mut v: u64 = 0;
    let mut k = from;
    while k < to
        invariant
            from <= k <= to <= line@.len(),
            s == line@.subrange(from as int, to as int),
            from < to,
            all_digits(s.take(k - from as int)),
            digits_val(s.take(k - from as int)) <= u64::MAX ==> v == digits_val(
                s.take(k - from as int),
            ),
            digits_val(s.take(k - from as int)) > u64::MAX ==> v == u64::MAX,
        decreases to - k,
    {
        let c = line[k];
        if c < 48 || c > 57 {
            proof {
                assert(s[k - from as int] == c);
                assert(!all_digits(s));
            }
            return None;
        }
        let d = (c - 48) as u64;
        let ghost pre = s.take(k - from as int);
        let ghost cur = s.take(k + 1 - from as int);
        proof {
            assert(cur.drop_last() =~= pre);
            assert(cur.last() == c);
            assert(digits_val(cur) == digits_val(pre) * 10 + d);
        }
        let next = match v.checked_mul(10) {
            Some(m) => match m.checked_add(d) {
                Some(x) => x,
                None => u64::MAX,
            },
            None => u64::MAX,
        };
        proof {
            if digits_val(pre) > u64::MAX {
                assert(digits_val(cur) >= digits_val(pre) * 10);
                assert(digits_val(pre) * 10 >= digits_val(pre));
            }
        }
        v = next;
        k = k + 1;
    }
    proof {
        assert(s.take(to - from as int) =~= s);
        assert(s.len() > 0);
    }
    Some(v)
}


/// The ghost image of a vector of lines.
pub open spec fn views_of(ls: Seq<Vec<u8>>) -> Seq<Seq<u8>> {
    ls.map_values(|l: Vec<u8>| l@)
}

/// Copy of `v[from..to]`.
fn copy_range(v: &Vec<u8>, from: usize, to: usize) -> (r: Vec<u8>)
    requires
        from <= to <= v@.len(),
    ensures
        r@ == v@.subrange(from as int, to as int),
{
    let mut r: Vec<u8> = Vec::new();
    let mut k = from;
    while k < to
        invariant
            from <= k <= to <= v@.len(),
            r@ == v@.subrange(from as int, k as int),
        decreases to - k,
    {
        let ghost pre = r@;
        r.push(v[k]);
        proof {
            assert(r@ =~= v@.subrange(from as int, k as int + 1));
        }
        k = k + 1;
    }
    r
}

/// Split the text into its lines.
fn split_lines(input: &Vec<u8>) -> (r: Vec<Vec<u8>>)
    ensures
        views_of(r@) == spec_lines(input@),
{
    let mut lines: Vec<Vec<u8>> = Vec::new();
    let mut pos: usize = 0;
    proof {
        assert(input@.skip(0) =~= input@);
        assert(views_of(lines@) + spec_lines(input@) =~= spec_lines(input@));
    }
    while pos < input.len()
        invariant
            pos <= input@.len(),
            spec_lines(input@) == views_of(lines@) + spec_lines(input@.skip(pos as int)),
        decreases input@.len() - pos,
    {
        let ghost pre = lines@;
        match find_newline(input, pos) {
            Some(k) => {
                let line = copy_range(input, pos, k);
                lines.push(line);
                proof {
                    assert(input@.skip(pos as int).take(k - pos as int) =~= input@.subrange(
                        pos as int,
                        k as int,
                    ));
                    assert(input@.skip(pos as int).skip(k - pos as int + 1) =~= input@.skip(
                        k as int + 1,
                    ));
                    assert(views_of(lines@) =~= views_of(pre) + seq![line@]);
                    assert(views_of(pre) + (seq![line@] + spec_lines(input@.skip(k as int + 1)))
                        =~= (views_of(pre) + seq![line@]) + spec_lines(input@.skip(k as int + 1)));
                }
                pos = k + 1;
            },
            None => {
                let n = input.len();
                let line = copy_range(input, pos, n);
                lines.push(line);
                proof {
                    assert(input@.skip(pos as int) =~= input@.subrange(pos as int, n as int));
                    assert(views_of(lines@) =~= views_of(pre) + seq![line@]);
                    assert(input@.skip(n as int).len() == 0);
                    assert(views_of(pre) + seq![line@] =~= views_of(pre) + (seq![line@]
                        + spec_lines(input@.skip(n as int))));
                }
                pos = n;
            },
        }
    }
    proof {
        assert(spec_lines(input@.skip(pos as int)).len() == 0);
        assert(views_of(lines@) + spec_lines(input@.skip(pos as int)) =~= views_of(lines@));
    }
    lines
}

/// One flush's rewriting over split lines.
#[verifier::rlimit(100)]
#[verifier::spinoff_prover]
fn rewrite_line_seq(lines: &Vec<Vec<u8>>, st0: PlaylistState) -> (r: (Vec<Vec<u8>>, PlaylistState))
    ensures
        ({
            let rr = rewrite_lines(views_of(lines@), st0, 0, false);
            &&& views_of(r.0@) == rr.0
            &&& r.1 == rr.1
        }),
{
    let mut out: Vec<Vec<u8>> = Vec::new();
    let mut st = st0;
    let mut seq_no: u64 = 0;
    let mut injected = false;
    let mut i: usize = 0;
    proof {
        assert(views_of(lines@).skip(0) =~= views_of(lines@));
        let rr = rewrite_lines(views_of(lines@), st0, 0, false);
        assert(views_of(out@) + rr.0 =~= rr.0);
    }
    while i < lines.len()
        invariant
            i <= lines@.len(),
            ({
                let rr = rewrite_lines(views_of(lines@), st0, 0, false);
                let rem = rewrite_lines(
                    views_of(lines@).skip(i as int),
                    st,
                    seq_no,
                    injected,
                );
                &&& rr.0 == views_of(out@) + rem.0
                &&& rr.1 == rem.1
            }),
        decreases lines@.len() - i,
    {
        let ghost pre_out = out@;
        let ghost all = views_of(lines@);
        let ghost lv = all[i as int];
        proof {
            assert(all.skip(i as int)[0] == lv);
            assert(all.skip(i as int).skip(1) =~= all.skip(i as int + 1));
        }
        let line = &lines[i];
        proof {
            assert(line@ == lv);
        }
        let mtag: Vec<u8> = vec![
            0x23u8, 0x45, 0x58, 0x54, 0x2d, 0x58, 0x2d, 0x4d, 0x45, 0x44, 0x49, 0x41, 0x2d, 0x53,
            0x45, 0x51, 0x55, 0x45, 0x4e, 0x43, 0x45, 0x3a,
        ];
        let etag: Vec<u8> = vec![0x23u8, 0x45, 0x58, 0x54, 0x49, 0x4e, 0x46, 0x3a];
        proof {
            assert(mtag@ =~= media_sequence_tag());
            assert(etag@ =~= extinf_tag());
        }
        if !injected && has_prefix(line, &mtag) {
            match parse_u64_from(line, 22) {
                Some(sq) => {
                    seq_no = sq;
                    out.push(crate::scheduler::clone_bytes(line));
                    proof {
                        assert(media_sequence_of(lv) == Some(sq));
                        assert(views_of(out@) =~= views_of(pre_out) + seq![lv]);
                        let rem2 = rewrite_lines(all.skip(i as int + 1), st, sq, false);
                        assert((views_of(pre_out) + (seq![lv] + rem2.0)) =~= (views_of(pre_out)
                            + seq![lv]) + rem2.0);
                    }
                },
                None => {
                    out.push(crate::scheduler::clone_bytes(line));
                    proof {
                        assert(media_sequence_of(lv) is None);
                        assert(extinf_of(lv) is None);
                        assert(views_of(out@) =~= views_of(pre_out) + seq![lv]);
                        let rem2 = rewrite_lines(all.skip(i as int + 1), st, seq_no, injected);
                        assert((views_of(pre_out) + (seq![lv] + rem2.0)) =~= (views_of(pre_out)
                            + seq![lv]) + rem2.0);
                    }
                },
            }
        } else if !injected && has_prefix(line, &etag) && line.len() > 9 && line[line.len() - 1]
            == 44 {
            proof {
                assert(lv.last() == 44);
            }
            match parse_duration(line, 8, line.len() - 1) {
                Some(dur) => {
                    let advanced = seq_no > st.last_sequence_no;
                    let new_total = if advanced {
                        match st.total_elapsed_ms.checked_add(st.next_duration_ms) {
                            Some(x) => x,
                            None => u64::MAX,
                        }
                    } else {
                        st.total_elapsed_ms
                    };
                    st = PlaylistState {
                        last_sequence_no: if advanced {
                            seq_no
                        } else {
                            st.last_sequence_no
                        },
                        total_elapsed_ms: new_total,
                        next_duration_ms: dur,
                    };
                    let mut tag_line: Vec<u8> = vec![
                        0x23u8, 0x45, 0x58, 0x54, 0x2d, 0x58, 0x2d, 0x50, 0x52, 0x4f, 0x47, 0x52,
                        0x41, 0x4d, 0x2d, 0x44, 0x41, 0x54, 0x45, 0x2d, 0x54, 0x49, 0x4d, 0x45,
                        0x3a,
                    ];
                    proof {
                        assert(tag_line@ =~= program_date_tag());
                    }
                    let clamped = if new_total > MAX_PROGRAM_DATE_MS {
                        MAX_PROGRAM_DATE_MS
                    } else {
                        new_total
                    };
                    let stamp = format_utc_millis(clamped);
                    crate::codec::write_bytes(&mut tag_line, &stamp);
                    out.push(tag_line);
                    out.push(Vec::new());
                    out.push(crate::scheduler::clone_bytes(line));
                    injected = true;
                    proof {
                        assert(extinf_of(lv) == Some(dur));
                        let rem2 = rewrite_lines(all.skip(i as int + 1), st, seq_no, true);
                        assert(views_of(out@) =~= views_of(pre_out) + seq![
                            program_date_line(st.total_elapsed_ms),
                            Seq::<u8>::empty(),
                            lv,
                        ]);
                        assert((views_of(pre_out) + (seq![
                            program_date_line(st.total_elapsed_ms),
                            Seq::<u8>::empty(),
                            lv,
                        ] + rem2.0)) =~= (views_of(pre_out) + seq![
                            program_date_line(st.total_elapsed_ms),
                            Seq::<u8>::empty(),
                            lv,
                        ]) + rem2.0);
                    }
                },
                None => {
                    out.push(crate::scheduler::clone_bytes(line));
                    proof {
                        assert(media_sequence_of(lv) is None);
                        assert(extinf_of(lv) is None);
                        assert(views_of(out@) =~= views_of(pre_out) + seq![lv]);
                        let rem2 = rewrite_lines(all.skip(i as int + 1), st, seq_no, injected);
                        assert((views_of(pre_out) + (seq![lv] + rem2.0)) =~= (views_of(pre_out)
                            + seq![lv]) + rem2.0);
                    }
                },
            }
        } else {
            out.push(crate::scheduler::clone_bytes(line));
            proof {
                if !injected {
                    assert(media_sequence_of(lv) is None);
                    assert(extinf_of(lv) is None);
                }
                assert(views_of(out@) =~= views_of(pre_out) + seq![lv]);
                let rem2 = rewrite_lines(all.skip(i as int + 1), st, seq_no, injected);
                assert((views_of(pre_out) + (seq![lv] + rem2.0)) =~= (views_of(pre_out)
                    + seq![lv]) + rem2.0);
            }
        }
        i = i + 1;
    }
    proof {
        let rr = rewrite_lines(views_of(lines@), st0, 0, false);
        assert(views_of(lines@).skip(i as int).len() == 0);
        assert(rr.0 =~= views_of(out@));
    }
    (out, st)
}

impl PlaylistState {
    /// Rewrite one flushed playlist: inject the wall-clock anchor before
    /// the first duration header and advance the elapsed-time accounting.
    /// The output is the input's lines, each ending in a newline, with the
    /// anchor and a blank line inserted.
    pub fn rewrite_playlist(&mut self, input: &Vec<u8>) -> (out: Vec<u8>)
        ensures
            ({
                let rr = rewrite_lines(spec_lines(input@), *old(self), 0, false);
                &&& out@ == spec_unlines(rr.0)
                &&& *final(self) == rr.1
            }),
    {
        let lines = split_lines(input);
        let (out_lines, st2) = rewrite_line_seq(&lines, *self);
        *self = st2;
        let mut out: Vec<u8> = Vec::new();
        let ghost ols = views_of(out_lines@);
        let mut i: usize = 0;
        proof {
            assert(ols.skip(0) =~= ols);
        }
        while i < out_lines.len()
            invariant
                i <= out_lines@.len(),
                ols == views_of(out_lines@),
                spec_unlines(ols) == out@ + spec_unlines(ols.skip(i as int)),
            decreases out_lines@.len() - i,
        {
            let ghost pre = out@;
            crate::codec::write_bytes(&mut out, &out_lines[i]);
            out.push(10);
            proof {
                assert(ols.skip(i as int)[0] == out_lines@[i as int]@);
                assert(ols.skip(i as int).skip(1) =~= ols.skip(i as int + 1));
                assert(out@ =~= pre + (out_lines@[i as int]@ + seq![10u8]));
                assert(pre + ((out_lines@[i as int]@ + seq![10u8]) + spec_unlines(
                    ols.skip(i as int + 1),
                )) =~= out@ + spec_unlines(ols.skip(i as int + 1)));
            }
            i = i + 1;
        }
        proof {
            assert(spec_unlines(ols.skip(i as int)).len() == 0);
            assert(out@ + spec_unlines(ols.skip(i as int)) =~= out@);
        }
        out
    }
}

} // verus!
