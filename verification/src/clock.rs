//! Hybrid logical clock: timestamps of the form `<wall_ms>-<logical>` in
//! zero-padded lowercase hexadecimal, and the rule by which a remote
//! timestamp advances the local logical counter.
use vstd::prelude::*;
use crate::text;

verus! {

// ---------------------------------------------------------------------------
// Hexadecimal parsing (std `u64::from_str_radix(_, 16)`)
// ---------------------------------------------------------------------------

pub open spec fn is_hex_digit(c: char) -> bool {
    ('0' <= c <= '9') || ('a' <= c <= 'f') || ('A' <= c <= 'F')
}

pub open spec fn hex_digit_value(c: char) -> nat {
    if '0' <= c <= '9' {
        (c as nat - '0' as nat) as nat
    } else if 'a' <= c <= 'f' {
        (c as nat - 'a' as nat + 10) as nat
    } else {
        (c as nat - 'A' as nat + 10) as nat
    }
}

/// The value of a sequence of hexadecimal digits, most significant first.
pub open spec fn hex_value(s: Seq<char>) -> nat
    decreases s.len(),
{
    if s.len() == 0 {
        0
    } else {
        hex_value(s.drop_last()) * 16 + hex_digit_value(s.last())
    }
}

/// What `u64::from_str_radix(s, 16)` accepts: an optional `+`, then one or
/// more hexadecimal digits of either case whose value fits in a `u64`.
/// The digits of `s` once an optional leading `+` is removed.
pub open spec fn hex_body(s: Seq<char>) -> Seq<char> {
    if s.len() > 1 && s[0] == '+' { s.drop_first() } else { s }
}

pub open spec fn parse_hex_u64(s: Seq<char>) -> Option<u64> {
    let d = hex_body(s);
    if d.len() > 0 && (forall|i: int| 0 <= i < d.len() ==> is_hex_digit(d[i])) && hex_value(d)
        <= u64::MAX {
        Some(hex_value(d) as u64)
    } else {
        None
    }
}

proof fn lemma_hex_value_monotone(s: Seq<char>, j: int, k: int)
    requires
        0 <= j <= k <= s.len(),
    ensures
        hex_value(s.take(j)) <= hex_value(s.take(k)),
    decreases k - j,
{
    if j < k {
        lemma_hex_value_monotone(s, j, k - 1);
        assert(s.take(k).drop_last() =~= s.take(k - 1));
    }
}

fn hex_digit_value_exec(c: char) -> (r: u64)
    requires
        is_hex_digit(c),
    ensures
        r == hex_digit_value(c),
        r < 16,
{
    if '0' <= c && c <= '9' {
        (c as u64) - ('0' as u64)
    } else if 'a' <= c && c <= 'f' {
        (c as u64) - ('a' as u64) + 10
    } else {
        (c as u64) - ('A' as u64) + 10
    }
}

/// Parses hexadecimal text as `u64::from_str_radix(_, 16)` does.
pub fn parse_hex_u64_chars(s: &[char]) -> (r: Option<u64>)
    ensures
        r == parse_hex_u64(s@),
{
    let start: usize = if s.len() > 1 && s[0] == '+' { 1 } else { 0 };
    let ghost d = hex_body(s@);
    assert(d =~= s@.skip(start as int));
    if start == s.len() {
        return None;
    }
    let mut acc: u64 = 0;
    let mut i: usize = start;
    while i < s.len()
        invariant
            start <= i <= s@.len(),
            d == s@.skip(start as int),
            d == hex_body(s@),
            forall|j: int| 0 <= j < i - start ==> is_hex_digit(d[j]),
            acc == hex_value(d.take(i - start)),
        decreases s@.len() - i,
    {
        let c = s[i];
        if !(('0' <= c && c <= '9') || ('a' <= c && c <= 'f') || ('A' <= c && c <= 'F')) {
            assert(d[i - start] == c);
            assert(!is_hex_digit(d[i - start]));
            return None;
        }
        let v = hex_digit_value_exec(c);
        assert(d.take(i - start + 1).drop_last() =~= d.take(i - start));
        assert(d.take(i - start + 1).last() == c);
        if acc > (u64::MAX - v) / 16 {
            proof {
                assert(hex_value(d.take(i - start + 1)) == acc * 16 + v);
                assert(acc * 16 + v > u64::MAX) by (nonlinear_arith)
                    requires
                        acc > (u64::MAX - v) / 16,
                        v < 16,
                ;
                lemma_hex_value_monotone(d, i - start + 1, d.len() as int);
                assert(d.take(d.len() as int) =~= d);
                assert(hex_value(d) > u64::MAX);
                assert(!(hex_value(d) <= u64::MAX));
            }
            return None;
        }
        proof {
            assert(acc * 16 + v <= u64::MAX) by (nonlinear_arith)
                requires
                    acc <= (u64::MAX - v) / 16,
                    v < 16,
            ;
        }
        acc = acc * 16 + v;
        i = i + 1;
    }
    assert(d.take(d.len() as int) =~= d);
    Some(acc)
}

// ---------------------------------------------------------------------------
// Timestamps
// ---------------------------------------------------------------------------

/// The timestamp text `"{wall:016x}-{logical:08x}"`.
pub open spec fn hlc_text(wall: u64, logical: u64) -> Seq<char> {
    text::zero_pad(text::hex(wall as nat, false), 16) + seq!['-'] + text::zero_pad(text::hex(logical as nat, false), 8)
}

/// The logical counter of a timestamp: the second `-`-separated piece,
/// read as hexadecimal (`split('-').nth(1)` then `from_str_radix(_, 16)`).
pub open spec fn remote_logical(hlc: Seq<char>) -> Option<u64> {
    let parts = text::split_on(hlc, '-');
    if parts.len() >= 2 {
        parse_hex_u64(parts[1])
    } else {
        None
    }
}

/// The logical counter after observing the timestamp `hlc`: one past the
/// remote counter when that is not below the local one, else unchanged.
pub open spec fn observed(logical: u64, hlc: Seq<char>) -> u64 {
    match remote_logical(hlc) {
        Some(r) => if r < logical {
            logical
        } else {
            (r + 1) as u64
        },
        None => logical,
    }
}

/// The process-wide logical counter of the hybrid logical clock.
pub struct HybridClock {
    logical: u64,
}

impl HybridClock {
    /// The current value of the logical counter.
    pub closed spec fn counter(&self) -> u64 {
        self.logical
    }

    /// A clock whose logical counter starts at zero.
    pub fn new() -> (c: Self)
        ensures
            c.counter() == 0,
    {
        HybridClock { logical: 0 }
    }

    /// The current value of the logical counter.
    pub fn logical(&self) -> (r: u64)
        ensures
            r == self.counter(),
    {
        self.logical
    }
}

/// The current wall-clock time in milliseconds since the Unix epoch
/// (chrono `Utc::now().timestamp_millis()`). Nothing is claimed of the value.
#[verifier::external_body]
fn wall_clock_millis() -> i64 {
    chrono::Utc::now().timestamp_millis()
}

/// The timestamp for wall-clock time `wall_ms` (negative times count as 0),
/// taking the next value of the logical counter.
pub fn now_at(clock: &mut HybridClock, wall_ms: i64) -> (s: String)
    ensures
        s@ == hlc_text(if wall_ms < 0 { 0 } else { wall_ms as u64 }, old(clock).counter()),
        final(clock).counter() == (if old(clock).counter() == u64::MAX {
            0
        } else {
            (old(clock).counter() + 1) as u64
        }),
{
    let wall: u64 = if wall_ms < 0 { 0 } else { wall_ms as u64 };
    let logical = clock.logical;
    clock.logical = if logical == u64::MAX { 0 } else { logical + 1 };
    let mut out = String::new();
    let w = text::hex_padded(wall, 16, false);
    text::push_chars(&mut out, w.as_slice());
    text::push_char(&mut out, '-');
    let l = text::hex_padded(logical, 8, false);
    text::push_chars(&mut out, l.as_slice());
    out
}

/// Returns an HLC timestamp string `"<wall_ms>-<logical>"` for the current
/// time and advances the logical counter.
pub fn now(clock: &mut HybridClock) -> (s: String)
    ensures
        exists|w: u64| s@ == hlc_text(w, old(clock).counter()),
        final(clock).counter() == (if old(clock).counter() == u64::MAX {
            0
        } else {
            (old(clock).counter() + 1) as u64
        }),
{
    let wall = wall_clock_millis();
    now_at(clock, wall)
}

/// Advances the logical counter from an incoming remote HLC timestamp, so
/// that the local `now()` stays causally after every observed remote event.
/// Text whose second `-`-separated piece is not hexadecimal is ignored.
pub fn observe_remote(clock: &mut HybridClock, remote_hlc: &str)
    requires
        remote_logical(remote_hlc@) != Some(u64::MAX),
    ensures
        final(clock).counter() == observed(old(clock).counter(), remote_hlc@),
{
    let v = text::chars_of(remote_hlc);
    let parts = text::split_chars(v.as_slice(), '-');
    if parts.len() >= 2 {
        let r = parse_hex_u64_chars(parts[1].as_slice());
        match r {
            Some(remote) => {
                if remote >= clock.logical {
                    clock.logical = remote + 1;
                }
            },
            None => {},
        }
    }
}

// ---------------------------------------------------------------------------
// Laws
// ---------------------------------------------------------------------------

proof fn lemma_digit_char(k: nat, upper: bool)
    requires
        k < 16,
    ensures
        is_hex_digit(if upper { text::hex_digit_upper(k) } else { text::hex_digit_lower(k) }),
        hex_digit_value(if upper { text::hex_digit_upper(k) } else { text::hex_digit_lower(k) })
            == k,
{
    if k == 0 {} else if k == 1 {} else if k == 2 {} else if k == 3 {} else if k == 4 {}
    else if k == 5 {} else if k == 6 {} else if k == 7 {} else if k == 8 {} else if k == 9 {}
    else if k == 10 {} else if k == 11 {} else if k == 12 {} else if k == 13 {}
    else if k == 14 {} else {}
}

proof fn lemma_hex_digits(n: nat, upper: bool)
    ensures
        forall|i: int| 0 <= i < text::hex(n, upper).len() ==> is_hex_digit(#[trigger] text::hex(n, upper)[i]),
        text::hex(n, upper).len() > 0,
        hex_value(text::hex(n, upper)) == n,
    decreases n,
{
    if n >= 16 {
        lemma_hex_digits(n / 16, upper);
        lemma_digit_char(n % 16, upper);
        let h = text::hex(n, upper);
        assert(h.drop_last() =~= text::hex(n / 16, upper));
        assert((n / 16) * 16 + n % 16 == n);
        assert(h.last() == (if upper { text::hex_digit_upper(n % 16) } else {
            text::hex_digit_lower(n % 16)
        }));
        assert forall|i: int| 0 <= i < h.len() implies is_hex_digit(#[trigger] h[i]) by {
            if i < h.len() - 1 {
                assert(h[i] == text::hex(n / 16, upper)[i]);
            }
        }
    } else {
        lemma_digit_char(n, upper);
        let h = text::hex(n, upper);
        assert(h.drop_last() =~= Seq::<char>::empty());
        assert(hex_value(Seq::<char>::empty()) == 0);
    }
}

proof fn lemma_hex_value_zeros(k: nat, s: Seq<char>)
    ensures
        hex_value(Seq::new(k, |i: int| '0') + s) == hex_value(s),
    decreases s.len(),
{
    let z = Seq::new(k, |i: int| '0');
    if s.len() == 0 {
        assert(z + s =~= z);
        lemma_hex_value_all_zeros(k);
    } else {
        lemma_hex_value_zeros(k, s.drop_last());
        assert((z + s).drop_last() =~= z + s.drop_last());
    }
}

proof fn lemma_hex_value_all_zeros(k: nat)
    ensures
        hex_value(Seq::new(k, |i: int| '0')) == 0,
    decreases k,
{
    if k > 0 {
        lemma_hex_value_all_zeros((k - 1) as nat);
        assert(Seq::new(k, |i: int| '0').drop_last() =~= Seq::new((k - 1) as nat, |i: int| '0'));
    }
}

proof fn lemma_padded_hex_parses(n: u64, width: nat)
    ensures
        parse_hex_u64(text::zero_pad(text::hex(n as nat, false), width)) == Some(n),
        forall|i: int|
            0 <= i < text::zero_pad(text::hex(n as nat, false), width).len() ==> #[trigger] text::zero_pad(
                text::hex(n as nat, false),
                width,
            )[i] != '-',
{
    let h = text::hex(n as nat, false);
    lemma_hex_digits(n as nat, false);
    let p = text::zero_pad(h, width);
    if h.len() < width {
        let z = Seq::new((width - h.len()) as nat, |i: int| '0');
        lemma_hex_value_zeros((width - h.len()) as nat, h);
        assert(p == z + h);
        assert forall|i: int| 0 <= i < p.len() implies is_hex_digit(p[i]) by {
            if i >= z.len() {
                assert(p[i] == h[i - z.len()]);
            }
        }
    }
    assert(forall|i: int| 0 <= i < p.len() ==> is_hex_digit(p[i]));
    assert(p.len() > 0);
    assert(p[0] != '+');
}

/// The logical counter written into a timestamp is the one read back out of
/// it: parsing `hlc_text(wall, logical)` gives `logical`.
pub proof fn law_timestamp_round_trip(wall: u64, logical: u64)
    ensures
        remote_logical(hlc_text(wall, logical)) == Some(logical),
{
    let a = text::zero_pad(text::hex(wall as nat, false), 16);
    let b = text::zero_pad(text::hex(logical as nat, false), 8);
    lemma_padded_hex_parses(wall, 16);
    lemma_padded_hex_parses(logical, 8);
    let t = hlc_text(wall, logical);
    assert(t == a + seq!['-'] + b);
    assert(text::is_first_index(t, '-', a.len() as int));
    text::lemma_find_char_some(t, '-', a.len() as int);
    assert(t.take(a.len() as int) =~= a);
    assert(t.skip(a.len() as int + 1) =~= b);
    assert forall|j: int| 0 <= j < b.len() implies b[j] != '-' by {}
    text::lemma_find_char_none(b, '-');
    assert(text::split_on(b, '-') == seq![b]);
    assert(text::split_on(t, '-') == seq![a] + text::split_on(b, '-'));
    assert(text::split_on(t, '-')[1] == b);
}

/// Observing a remote timestamp never moves the logical counter backwards.
pub proof fn law_observe_is_monotone(logical: u64, remote: Seq<char>)
    requires
        remote_logical(remote) != Some(u64::MAX),
    ensures
        observed(logical, remote) >= logical,
{
}

/// After observing a remote timestamp whose logical counter is `r`, the next
/// local timestamp carries a logical counter greater than `r`.
pub proof fn law_now_after_observe_is_later(logical: u64, remote: Seq<char>, wall: u64)
    requires
        remote_logical(remote) is Some,
        remote_logical(remote) != Some(u64::MAX),
    ensures
        remote_logical(hlc_text(wall, observed(logical, remote))) matches Some(l) && l
            > remote_logical(remote)->0,
{
    law_timestamp_round_trip(wall, observed(logical, remote));
}

} // verus!
