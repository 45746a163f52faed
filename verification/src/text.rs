//! Character-level helpers shared by the parsers and formatters of the crate:
//! building strings, searching, trimming, splitting and number formatting,
//! each with the specification it is proved against.
use vstd::prelude::*;

verus! {

// ---------------------------------------------------------------------------
// Building strings
// ---------------------------------------------------------------------------

/// Appends one character to a `String` (std `String::push`).
#[verifier::external_body]
pub(crate) fn push_char(s: &mut String, c: char)
    ensures
        final(s)@ == old(s)@.push(c),
{
    s.push(c);
}

/// Appends a string slice to a `String` (std `String::push_str`).
#[verifier::external_body]
pub(crate) fn push_str(s: &mut String, t: &str)
    ensures
        final(s)@ == old(s)@ + t@,
{
    s.push_str(t);
}

/// The characters of a string slice, in order.
pub fn chars_of(s: &str) -> (v: Vec<char>)
    ensures
        v@ == s@,
{
    let mut v: Vec<char> = Vec::new();
    for c in it: s.chars()
        invariant
            v@ == it.seq().take(it.index() as int),
    {
        v.push(c);
    }
    v
}

/// Builds a `String` from a sequence of characters.
pub fn string_of(v: &[char]) -> (s: String)
    ensures
        s@ == v@,
{
    let mut s = String::new();
    let mut i: usize = 0;
    while i < v.len()
        invariant
            i <= v@.len(),
            s@ == v@.take(i as int),
        decreases v@.len() - i,
    {
        push_char(&mut s, v[i]);
        i = i + 1;
        assert(v@.take(i as int) =~= v@.take((i - 1) as int).push(v@[i - 1]));
    }
    assert(v@.take(i as int) =~= v@);
    s
}

/// Appends a sequence of characters to a `String`.
pub fn push_chars(s: &mut String, v: &[char])
    ensures
        final(s)@ == old(s)@ + v@,
{
    let ghost start = s@;
    let mut i: usize = 0;
    while i < v.len()
        invariant
            i <= v@.len(),
            s@ == start + v@.take(i as int),
        decreases v@.len() - i,
    {
        push_char(s, v[i]);
        i = i + 1;
        assert(v@.take(i as int) =~= v@.take((i - 1) as int).push(v@[i - 1]));
    }
    assert(v@.take(i as int) =~= v@);
}

/// Copies a slice of characters into a fresh vector.
pub fn copy_chars(v: &[char]) -> (r: Vec<char>)
    ensures
        r@ == v@,
{
    let mut r: Vec<char> = Vec::new();
    let mut i: usize = 0;
    while i < v.len()
        invariant
            i <= v@.len(),
            r@ == v@.take(i as int),
        decreases v@.len() - i,
    {
        r.push(v[i]);
        i = i + 1;
        assert(v@.take(i as int) =~= v@.take((i - 1) as int).push(v@[i - 1]));
    }
    assert(v@.take(i as int) =~= v@);
    r
}

/// The characters of `v` from index `lo` up to (not including) `hi`.
pub fn slice_chars(v: &[char], lo: usize, hi: usize) -> (r: Vec<char>)
    requires
        lo <= hi <= v@.len(),
    ensures
        r@ == v@.subrange(lo as int, hi as int),
{
    let mut r: Vec<char> = Vec::new();
    let mut i: usize = lo;
    while i < hi
        invariant
            lo <= i <= hi <= v@.len(),
            r@ == v@.subrange(lo as int, i as int),
        decreases hi - i,
    {
        r.push(v[i]);
        i = i + 1;
        assert(v@.subrange(lo as int, i as int) =~= v@.subrange(lo as int, (i - 1) as int).push(
            v@[i - 1],
        ));
    }
    r
}

/// Whether two character sequences are equal.
pub fn chars_eq(a: &[char], b: &[char]) -> (r: bool)
    ensures
        r == (a@ == b@),
{
    if a.len() != b.len() {
        return false;
    }
    let mut i: usize = 0;
    while i < a.len()
        invariant
            a@.len() == b@.len(),
            i <= a@.len(),
            forall|j: int| 0 <= j < i ==> a@[j] == b@[j],
        decreases a@.len() - i,
    {
        if a[i] != b[i] {
            return false;
        }
        i = i + 1;
    }
    assert(a@ =~= b@);
    true
}

/// Whether a string equals a sequence of characters.
pub fn str_eq_chars(s: &str, b: &[char]) -> (r: bool)
    ensures
        r == (s@ == b@),
{
    let a = chars_of(s);
    chars_eq(a.as_slice(), b)
}

/// Whether two strings are equal.
pub fn str_eq(s: &str, t: &str) -> (r: bool)
    ensures
        r == (s@ == t@),
{
    let a = chars_of(s);
    let b = chars_of(t);
    chars_eq(a.as_slice(), b.as_slice())
}

// ---------------------------------------------------------------------------
// Searching
// ---------------------------------------------------------------------------

/// `i` is the first position of `c` in `s`.
pub open spec fn is_first_index(s: Seq<char>, c: char, i: int) -> bool {
    &&& 0 <= i < s.len()
    &&& s[i] == c
    &&& forall|j: int| 0 <= j < i ==> s[j] != c
}

/// The first position of `c` in `s`, as `str::find` with a `char` pattern gives it.
pub open spec fn find_char(s: Seq<char>, c: char) -> Option<int> {
    if exists|i: int| is_first_index(s, c, i) {
        Some(choose|i: int| is_first_index(s, c, i))
    } else {
        None
    }
}

/// `i` is the last position of `c` in `s`.
pub open spec fn is_last_index(s: Seq<char>, c: char, i: int) -> bool {
    &&& 0 <= i < s.len()
    &&& s[i] == c
    &&& forall|j: int| i < j < s.len() ==> s[j] != c
}

/// The last position of `c` in `s`, as `str::rfind` with a `char` pattern gives it.
pub open spec fn rfind_char(s: Seq<char>, c: char) -> Option<int> {
    if exists|i: int| is_last_index(s, c, i) {
        Some(choose|i: int| is_last_index(s, c, i))
    } else {
        None
    }
}

pub proof fn lemma_find_char_some(s: Seq<char>, c: char, i: int)
    requires
        is_first_index(s, c, i),
    ensures
        find_char(s, c) == Some(i),
{
    let k = choose|k: int| is_first_index(s, c, k);
    assert(is_first_index(s, c, k));
    if k < i {
        assert(s[k] != c);
    }
    if i < k {
        assert(s[i] != c);
    }
}

pub proof fn lemma_find_char_none(s: Seq<char>, c: char)
    requires
        forall|j: int| 0 <= j < s.len() ==> s[j] != c,
    ensures
        find_char(s, c) is None,
{
}

pub proof fn lemma_rfind_char_some(s: Seq<char>, c: char, i: int)
    requires
        is_last_index(s, c, i),
    ensures
        rfind_char(s, c) == Some(i),
{
    let k = choose|k: int| is_last_index(s, c, k);
    assert(is_last_index(s, c, k));
    if k < i {
        assert(s[i] != c);
    }
    if i < k {
        assert(s[k] != c);
    }
}

/// First position of a character (std `str::find` with a `char` pattern).
pub fn find_char_in(s: &[char], c: char) -> (r: Option<usize>)
    ensures
        match r {
            Some(i) => find_char(s@, c) == Some(i as int),
            None => find_char(s@, c) is None,
        },
        r is None <==> !s@.contains(c),
{
    let mut i: usize = 0;
    while i < s.len()
        invariant
            i <= s@.len(),
            forall|j: int| 0 <= j < i ==> s@[j] != c,
        decreases s@.len() - i,
    {
        if s[i] == c {
            proof {
                lemma_find_char_some(s@, c, i as int);
            }
            return Some(i);
        }
        i = i + 1;
    }
    None
}

/// Last position of a character (std `str::rfind` with a `char` pattern).
pub fn rfind_char_in(s: &[char], c: char) -> (r: Option<usize>)
    ensures
        match r {
            Some(i) => rfind_char(s@, c) == Some(i as int),
            None => rfind_char(s@, c) is None,
        },
{
    let mut i: usize = s.len();
    while i > 0
        invariant
            i <= s@.len(),
            forall|j: int| i <= j < s@.len() ==> s@[j] != c,
        decreases i,
    {
        if s[i - 1] == c {
            proof {
                lemma_rfind_char_some(s@, c, i - 1);
            }
            return Some(i - 1);
        }
        i = i - 1;
    }
    None
}

/// `pat` occurs in `s` at position `i`.
pub open spec fn occurs_at(s: Seq<char>, pat: Seq<char>, i: int) -> bool {
    0 <= i && i + pat.len() <= s.len() && s.subrange(i, i + pat.len()) == pat
}

/// `i` is the first position where `pat` occurs in `s`.
pub open spec fn is_first_occurrence(s: Seq<char>, pat: Seq<char>, i: int) -> bool {
    occurs_at(s, pat, i) && forall|j: int| 0 <= j < i ==> !occurs_at(s, pat, j)
}

/// The first position of `pat` in `s`, as `str::find` with a string pattern gives it.
pub open spec fn find_sub(s: Seq<char>, pat: Seq<char>) -> Option<int> {
    if exists|i: int| is_first_occurrence(s, pat, i) {
        Some(choose|i: int| is_first_occurrence(s, pat, i))
    } else {
        None
    }
}

pub proof fn lemma_find_sub_some(s: Seq<char>, pat: Seq<char>, i: int)
    requires
        is_first_occurrence(s, pat, i),
    ensures
        find_sub(s, pat) == Some(i),
{
    let k = choose|k: int| is_first_occurrence(s, pat, k);
    assert(is_first_occurrence(s, pat, k));
    if k < i {
        assert(!occurs_at(s, pat, k));
    }
    if i < k {
        assert(!occurs_at(s, pat, i));
    }
}

/// Whether `pat` occurs in `s` at position `i`.
pub fn occurs_at_exec(s: &[char], pat: &[char], i: usize) -> (r: bool)
    ensures
        r == occurs_at(s@, pat@, i as int),
{
    if pat.len() > s.len() || i > s.len() - pat.len() {
        return false;
    }
    let n = s.len();
    let mut k: usize = 0;
    while k < pat.len()
        invariant
            n == s@.len(),
            i + pat@.len() <= s@.len(),
            k <= pat@.len(),
            forall|j: int| 0 <= j < k ==> s@[i + j] == pat@[j],
        decreases pat@.len() - k,
    {
        assert(i + k < s@.len());
        if s[i + k] != pat[k] {
            assert(s@.subrange(i as int, i + pat@.len())[k as int] != pat@[k as int]);
            return false;
        }
        k = k + 1;
    }
    assert(s@.subrange(i as int, i + pat@.len()) =~= pat@);
    true
}

/// First position of a substring (std `str::find` with a string pattern).
pub fn find_sub_in(s: &[char], pat: &[char]) -> (r: Option<usize>)
    ensures
        match r {
            Some(i) => find_sub(s@, pat@) == Some(i as int),
            None => find_sub(s@, pat@) is None,
        },
{
    let mut i: usize = 0;
    loop
        invariant
            i <= s@.len(),
            forall|j: int| 0 <= j < i ==> !occurs_at(s@, pat@, j),
        decreases s@.len() - i,
    {
        if occurs_at_exec(s, pat, i) {
            proof {
                lemma_find_sub_some(s@, pat@, i as int);
            }
            return Some(i);
        }
        if i == s.len() {
            assert forall|j: int| !is_first_occurrence(s@, pat@, j) by {
                if 0 <= j <= s@.len() {
                    assert(!occurs_at(s@, pat@, j));
                }
            }
            return None;
        }
        i = i + 1;
    }
}

/// Whether `pat` occurs anywhere in `s` (std `str::contains`).
pub fn contains_sub(s: &[char], pat: &[char]) -> (r: bool)
    ensures
        r == (find_sub(s@, pat@) is Some),
{
    match find_sub_in(s, pat) {
        Some(_) => true,
        None => false,
    }
}

// ---------------------------------------------------------------------------
// Trimming
// ---------------------------------------------------------------------------

/// The characters with the Unicode `White_Space` property (std `char::is_whitespace`).
pub open spec fn is_whitespace(c: char) -> bool {
    ||| '\u{9}' <= c <= '\u{d}'
    ||| c == ' '
    ||| c == '\u{85}'
    ||| c == '\u{a0}'
    ||| c == '\u{1680}'
    ||| '\u{2000}' <= c <= '\u{200a}'
    ||| c == '\u{2028}'
    ||| c == '\u{2029}'
    ||| c == '\u{202f}'
    ||| c == '\u{205f}'
    ||| c == '\u{3000}'
}

pub fn is_whitespace_exec(c: char) -> (r: bool)
    ensures
        r == is_whitespace(c),
{
    ('\u{9}' <= c && c <= '\u{d}') || c == ' ' || c == '\u{85}' || c == '\u{a0}' || c == '\u{1680}'
        || ('\u{2000}' <= c && c <= '\u{200a}') || c == '\u{2028}' || c == '\u{2029}' || c
        == '\u{202f}' || c == '\u{205f}' || c == '\u{3000}'
}

/// `s[lo..hi]` is what `str::trim` leaves of `s`.
pub open spec fn is_trim_bounds(s: Seq<char>, lo: int, hi: int) -> bool {
    &&& 0 <= lo <= hi <= s.len()
    &&& forall|j: int| 0 <= j < lo ==> is_whitespace(s[j])
    &&& forall|j: int| hi <= j < s.len() ==> is_whitespace(s[j])
    &&& (lo < hi ==> !is_whitespace(s[lo]) && !is_whitespace(s[hi - 1]))
    &&& (lo == hi ==> lo == 0)
}

/// `s` without leading and trailing whitespace (std `str::trim`).
pub open spec fn trim(s: Seq<char>) -> Seq<char> {
    let (lo, hi) = choose|lo: int, hi: int| is_trim_bounds(s, lo, hi);
    s.subrange(lo, hi)
}

pub proof fn lemma_trim_bounds_unique(s: Seq<char>, lo: int, hi: int)
    requires
        is_trim_bounds(s, lo, hi),
    ensures
        trim(s) == s.subrange(lo, hi),
{
    assert(is_trim_bounds(s, lo, hi));
    let b = choose|lo2: int, hi2: int| is_trim_bounds(s, lo2, hi2);
    assert(is_trim_bounds(s, b.0, b.1));
    if lo < hi {
        if b.0 < lo {
            assert(is_whitespace(s[b.0]));
        }
        if lo < b.0 {
            assert(is_whitespace(s[lo]));
        }
        if b.1 < hi {
            assert(is_whitespace(s[hi - 1]));
        }
        if hi < b.1 {
            assert(is_whitespace(s[b.1 - 1]));
        }
    } else {
        if b.0 < b.1 {
            assert(is_whitespace(s[b.0]));
        }
    }
}

/// The bounds of the trimmed part of `s`.
pub fn trim_bounds(s: &[char]) -> (r: (usize, usize))
    ensures
        is_trim_bounds(s@, r.0 as int, r.1 as int),
        trim(s@) == s@.subrange(r.0 as int, r.1 as int),
{
    let mut lo: usize = 0;
    while lo < s.len() && is_whitespace_exec(s[lo])
        invariant
            lo <= s@.len(),
            forall|j: int| 0 <= j < lo ==> is_whitespace(s@[j]),
        decreases s@.len() - lo,
    {
        lo = lo + 1;
    }
    if lo == s.len() {
        proof {
            lemma_trim_bounds_unique(s@, 0, 0);
        }
        return (0, 0);
    }
    let mut hi: usize = s.len();
    while hi > lo && is_whitespace_exec(s[hi - 1])
        invariant
            lo < s@.len(),
            !is_whitespace(s@[lo as int]),
            lo <= hi <= s@.len(),
            forall|j: int| hi <= j < s@.len() ==> is_whitespace(s@[j]),
        decreases hi,
    {
        hi = hi - 1;
    }
    proof {
        lemma_trim_bounds_unique(s@, lo as int, hi as int);
    }
    (lo, hi)
}

/// `s` without leading and trailing whitespace.
pub fn trim_chars(s: &[char]) -> (r: Vec<char>)
    ensures
        r@ == trim(s@),
{
    let (lo, hi) = trim_bounds(s);
    slice_chars(s, lo, hi)
}

/// `s` without the copies of `c` at its start (std `str::trim_start_matches` with a `char`).
pub open spec fn strip_leading(s: Seq<char>, c: char) -> Seq<char>
    decreases s.len(),
{
    if s.len() > 0 && s[0] == c {
        strip_leading(s.skip(1), c)
    } else {
        s
    }
}

/// `s` without the copies of `c` at its end (std `str::trim_end_matches` with a `char`).
pub open spec fn strip_trailing(s: Seq<char>, c: char) -> Seq<char>
    decreases s.len(),
{
    if s.len() > 0 && s.last() == c {
        strip_trailing(s.drop_last(), c)
    } else {
        s
    }
}

/// `s` without the copies of `c` at either end (std `str::trim_matches` with a `char`).
pub open spec fn strip_both(s: Seq<char>, c: char) -> Seq<char> {
    strip_trailing(strip_leading(s, c), c)
}

/// `s` without the copies of `c` at its start.
pub fn strip_leading_chars(s: &[char], c: char) -> (r: Vec<char>)
    ensures
        r@ == strip_leading(s@, c),
{
    let mut lo: usize = 0;
    assert(s@.skip(0) =~= s@);
    while lo < s.len() && s[lo] == c
        invariant
            lo <= s@.len(),
            strip_leading(s@, c) == strip_leading(s@.skip(lo as int), c),
        decreases s@.len() - lo,
    {
        assert(s@.skip(lo as int).skip(1) =~= s@.skip(lo + 1));
        lo = lo + 1;
    }
    let r = slice_chars(s, lo, s.len());
    assert(r@ =~= s@.skip(lo as int));
    r
}

/// `s` without the copies of `c` at its end.
pub fn strip_trailing_chars(s: &[char], c: char) -> (r: Vec<char>)
    ensures
        r@ == strip_trailing(s@, c),
{
    let mut hi: usize = s.len();
    assert(s@.take(s@.len() as int) =~= s@);
    while hi > 0 && s[hi - 1] == c
        invariant
            hi <= s@.len(),
            strip_trailing(s@, c) == strip_trailing(s@.take(hi as int), c),
        decreases hi,
    {
        assert(s@.take(hi as int).drop_last() =~= s@.take(hi - 1));
        hi = hi - 1;
    }
    let r = slice_chars(s, 0, hi);
    assert(r@ =~= s@.take(hi as int));
    r
}

/// Whether `s` starts with `pat` (std `str::starts_with`).
pub open spec fn starts_with(s: Seq<char>, pat: Seq<char>) -> bool {
    pat.len() <= s.len() && s.take(pat.len() as int) == pat
}

/// Whether `s` starts with `pat`.
pub fn starts_with_exec(s: &[char], pat: &[char]) -> (r: bool)
    ensures
        r == starts_with(s@, pat@),
{
    let b = occurs_at_exec(s, pat, 0);
    assert(s@.take(pat@.len() as int) =~= s@.subrange(0, pat@.len() as int));
    b
}

/// `s` without the copies of `pat` at its start (std `str::trim_start_matches`
/// with a string pattern).
pub open spec fn strip_leading_pat(s: Seq<char>, pat: Seq<char>) -> Seq<char>
    decreases s.len(),
{
    if pat.len() > 0 && starts_with(s, pat) {
        strip_leading_pat(s.skip(pat.len() as int), pat)
    } else {
        s
    }
}

/// `s` without the copies of `pat` at its start.
pub fn strip_leading_pat_chars(s: &[char], pat: &[char]) -> (r: Vec<char>)
    ensures
        r@ == strip_leading_pat(s@, pat@),
{
    let mut lo: usize = 0;
    assert(s@.skip(0) =~= s@);
    if pat.len() > 0 {
        loop
            invariant
                pat@.len() > 0,
                lo <= s@.len(),
                strip_leading_pat(s@, pat@) == strip_leading_pat(s@.skip(lo as int), pat@),
            ensures
                lo <= s@.len(),
                strip_leading_pat(s@, pat@) == s@.skip(lo as int),
            decreases s@.len() - lo,
        {
            let at = occurs_at_exec(s, pat, lo);
            let n = s.len();
            if !at {
                proof {
                    if lo + pat@.len() <= s@.len() {
                        assert(s@.skip(lo as int).take(pat@.len() as int) =~= s@.subrange(
                            lo as int,
                            lo + pat@.len(),
                        ));
                    }
                    assert(!starts_with(s@.skip(lo as int), pat@));
                    assert(strip_leading_pat(s@.skip(lo as int), pat@) == s@.skip(lo as int));
                }
                break;
            }
            assert(s@.skip(lo as int).take(pat@.len() as int) =~= s@.subrange(
                lo as int,
                lo + pat@.len(),
            ));
            assert(s@.skip(lo as int).skip(pat@.len() as int) =~= s@.skip(lo + pat@.len()));
            lo = lo + pat.len();
        }
    }
    let r = slice_chars(s, lo, s.len());
    assert(r@ =~= s@.skip(lo as int));
    r
}

/// `s` with every `from` replaced by `to` (std `str::replace` with a `char` pattern).
pub open spec fn replace_char(s: Seq<char>, from: char, to: char) -> Seq<char> {
    Seq::new(s.len(), |i: int| if s[i] == from { to } else { s[i] })
}

/// `s` with every `from` replaced by `to`.
pub fn replace_char_chars(s: &[char], from: char, to: char) -> (r: Vec<char>)
    ensures
        r@ == replace_char(s@, from, to),
{
    let mut r: Vec<char> = Vec::new();
    let mut i: usize = 0;
    while i < s.len()
        invariant
            i <= s@.len(),
            r@ == replace_char(s@.take(i as int), from, to),
        decreases s@.len() - i,
    {
        if s[i] == from {
            r.push(to);
        } else {
            r.push(s[i]);
        }
        i = i + 1;
        assert(r@ =~= replace_char(s@.take(i as int), from, to));
    }
    assert(s@.take(i as int) =~= s@);
    r
}

/// `s` with the occurrences of `pat`, found from the left without overlap,
/// replaced by `rep` (std `str::replace` with a non-empty string pattern).
pub open spec fn replace_sub(s: Seq<char>, pat: Seq<char>, rep: Seq<char>) -> Seq<char>
    decreases s.len(),
{
    if pat.len() == 0 {
        s
    } else {
        match find_sub(s, pat) {
            Some(k) => if 0 <= k && k + pat.len() <= s.len() {
                s.take(k) + rep + replace_sub(s.skip(k + pat.len()), pat, rep)
            } else {
                s
            },
            None => s,
        }
    }
}

pub proof fn lemma_find_sub_bounds(s: Seq<char>, pat: Seq<char>)
    ensures
        find_sub(s, pat) matches Some(k) ==> is_first_occurrence(s, pat, k),
{
    if exists|i: int| is_first_occurrence(s, pat, i) {
        let k = choose|i: int| is_first_occurrence(s, pat, i);
        assert(is_first_occurrence(s, pat, k));
    }
}

/// `s` with the occurrences of `pat` replaced by `rep`.
pub fn replace_sub_chars(s: &[char], pat: &[char], rep: &[char]) -> (r: Vec<char>)
    ensures
        r@ == replace_sub(s@, pat@, rep@),
    decreases s@.len(),
{
    if pat.len() == 0 {
        return copy_chars(s);
    }
    match find_sub_in(s, pat) {
        Some(k) => {
            proof {
                lemma_find_sub_bounds(s@, pat@);
                assert(is_first_occurrence(s@, pat@, k as int));
            }
            let n = s.len();
            let mut r = slice_chars(s, 0, k);
            let rest = slice_chars(s, k + pat.len(), n);
            let tail = replace_sub_chars(rest.as_slice(), pat, rep);
            let mut i: usize = 0;
            let ghost head = r@;
            while i < rep.len()
                invariant
                    i <= rep@.len(),
                    r@ == head + rep@.take(i as int),
                decreases rep@.len() - i,
            {
                r.push(rep[i]);
                i = i + 1;
                assert(rep@.take(i as int) =~= rep@.take(i - 1).push(rep@[i - 1]));
            }
            assert(rep@.take(i as int) =~= rep@);
            let mut j: usize = 0;
            let ghost head2 = r@;
            while j < tail.len()
                invariant
                    j <= tail@.len(),
                    r@ == head2 + tail@.take(j as int),
                decreases tail@.len() - j,
            {
                r.push(tail[j]);
                j = j + 1;
                assert(tail@.take(j as int) =~= tail@.take(j - 1).push(tail@[j - 1]));
            }
            assert(tail@.take(j as int) =~= tail@);
            assert(s@.take(k as int) =~= s@.subrange(0, k as int));
            assert(rest@ =~= s@.skip(k + pat@.len()));
            r
        },
        None => copy_chars(s),
    }
}

// ---------------------------------------------------------------------------
// Splitting
// ---------------------------------------------------------------------------

/// The pieces of `s` between occurrences of `c` (std `str::split` with a `char`).
pub open spec fn split_on(s: Seq<char>, c: char) -> Seq<Seq<char>>
    decreases s.len(),
{
    match find_char(s, c) {
        Some(k) => if 0 <= k < s.len() {
            seq![s.take(k)] + split_on(s.skip(k + 1), c)
        } else {
            seq![s]
        },
        None => seq![s],
    }
}

pub proof fn lemma_rfind_char_bounds(s: Seq<char>, c: char)
    ensures
        rfind_char(s, c) matches Some(k) ==> is_last_index(s, c, k),
{
    if exists|i: int| is_last_index(s, c, i) {
        let k = choose|i: int| is_last_index(s, c, i);
        assert(is_last_index(s, c, k));
    }
}

pub proof fn lemma_find_char_bounds(s: Seq<char>, c: char)
    ensures
        find_char(s, c) matches Some(k) ==> is_first_index(s, c, k),
{
    if exists|i: int| is_first_index(s, c, i) {
        let k = choose|i: int| is_first_index(s, c, i);
        assert(is_first_index(s, c, k));
    }
}

/// The pieces of `s` between occurrences of `c`.
pub fn split_chars(s: &[char], c: char) -> (r: Vec<Vec<char>>)
    ensures
        r@.len() == split_on(s@, c).len(),
        forall|i: int| 0 <= i < r@.len() ==> #[trigger] r@[i]@ == split_on(s@, c)[i],
{
    let mut r: Vec<Vec<char>> = Vec::new();
    let mut start: usize = 0;
    let mut i: usize = 0;
    let ghost mut done: Seq<Seq<char>> = Seq::empty();
    assert(s@.skip(0) =~= s@);
    assert(split_on(s@, c) =~= done + split_on(s@.skip(0), c));
    while i < s.len()
        invariant
            start <= i <= s@.len(),
            forall|j: int| start <= j < i ==> s@[j] != c,
            r@.len() == done.len(),
            forall|j: int| 0 <= j < r@.len() ==> #[trigger] r@[j]@ == done[j],
            split_on(s@, c) == done + split_on(s@.skip(start as int), c),
        decreases s@.len() - i,
    {
        if s[i] == c {
            let piece = slice_chars(s, start, i);
            proof {
                let rest = s@.skip(start as int);
                assert(is_first_index(rest, c, i - start));
                lemma_find_char_some(rest, c, i - start);
                assert(rest.take(i - start) =~= s@.subrange(start as int, i as int));
                assert(rest.skip(i - start + 1) =~= s@.skip(i + 1));
                assert(split_on(rest, c) == seq![rest.take(i - start)] + split_on(
                    rest.skip(i - start + 1),
                    c,
                ));
                done = done.push(piece@);
                assert(split_on(s@, c) =~= done + split_on(s@.skip(i + 1), c));
            }
            r.push(piece);
            start = i + 1;
        }
        i = i + 1;
    }
    let piece = slice_chars(s, start, s.len());
    proof {
        let rest = s@.skip(start as int);
        assert forall|j: int| 0 <= j < rest.len() implies rest[j] != c by {
            assert(rest[j] == s@[start + j]);
        }
        lemma_find_char_none(rest, c);
        assert(rest =~= s@.subrange(start as int, s@.len() as int));
        done = done.push(piece@);
        assert(split_on(s@, c) =~= done);
    }
    r.push(piece);
    r
}

// ---------------------------------------------------------------------------
// Numbers as text
// ---------------------------------------------------------------------------

/// The decimal digit character for `d < 10`.
pub open spec fn decimal_digit(d: nat) -> char {
    if d == 0 { '0' }
    else if d == 1 { '1' }
    else if d == 2 { '2' }
    else if d == 3 { '3' }
    else if d == 4 { '4' }
    else if d == 5 { '5' }
    else if d == 6 { '6' }
    else if d == 7 { '7' }
    else if d == 8 { '8' }
    else { '9' }
}

/// The decimal representation of `n` without leading zeros (`"0"` for zero).
pub open spec fn decimal(n: nat) -> Seq<char>
    decreases n,
{
    if n < 10 {
        seq![decimal_digit(n)]
    } else {
        decimal(n / 10).push(decimal_digit(n % 10))
    }
}

pub fn decimal_digit_exec(d: u64) -> (c: char)
    requires
        d < 10,
    ensures
        c == decimal_digit(d as nat),
{
    if d == 0 { '0' }
    else if d == 1 { '1' }
    else if d == 2 { '2' }
    else if d == 3 { '3' }
    else if d == 4 { '4' }
    else if d == 5 { '5' }
    else if d == 6 { '6' }
    else if d == 7 { '7' }
    else if d == 8 { '8' }
    else { '9' }
}

/// The decimal digits of `n`.
pub fn decimal_chars(n: u64) -> (r: Vec<char>)
    ensures
        r@ == decimal(n as nat),
    decreases n,
{
    if n < 10 {
        let mut v = Vec::new();
        v.push(decimal_digit_exec(n));
        v
    } else {
        let mut v = decimal_chars(n / 10);
        v.push(decimal_digit_exec(n % 10));
        v
    }
}

/// The lowercase hexadecimal digit character for `d < 16`.
pub open spec fn hex_digit_lower(d: nat) -> char {
    if d < 10 { decimal_digit(d) }
    else if d == 10 { 'a' }
    else if d == 11 { 'b' }
    else if d == 12 { 'c' }
    else if d == 13 { 'd' }
    else if d == 14 { 'e' }
    else { 'f' }
}

/// The uppercase hexadecimal digit character for `d < 16`.
pub open spec fn hex_digit_upper(d: nat) -> char {
    if d < 10 { decimal_digit(d) }
    else if d == 10 { 'A' }
    else if d == 11 { 'B' }
    else if d == 12 { 'C' }
    else if d == 13 { 'D' }
    else if d == 14 { 'E' }
    else { 'F' }
}

/// The hexadecimal representation of `n` without leading zeros (`"0"` for zero).
pub open spec fn hex(n: nat, upper: bool) -> Seq<char>
    decreases n,
{
    let d = |k: nat| if upper { hex_digit_upper(k) } else { hex_digit_lower(k) };
    if n < 16 {
        seq![d(n)]
    } else {
        hex(n / 16, upper).push(d(n % 16))
    }
}

/// `s` padded on the left with `'0'` to at least `width` characters
/// (the `{:0width$x}` family of format specifications).
pub open spec fn zero_pad(s: Seq<char>, width: nat) -> Seq<char> {
    if s.len() >= width {
        s
    } else {
        Seq::new((width - s.len()) as nat, |i: int| '0') + s
    }
}

pub fn hex_digit_exec(d: u64, upper: bool) -> (c: char)
    requires
        d < 16,
    ensures
        c == (if upper { hex_digit_upper(d as nat) } else { hex_digit_lower(d as nat) }),
{
    if d < 10 {
        decimal_digit_exec(d)
    } else if d == 10 {
        if upper { 'A' } else { 'a' }
    } else if d == 11 {
        if upper { 'B' } else { 'b' }
    } else if d == 12 {
        if upper { 'C' } else { 'c' }
    } else if d == 13 {
        if upper { 'D' } else { 'd' }
    } else if d == 14 {
        if upper { 'E' } else { 'e' }
    } else {
        if upper { 'F' } else { 'f' }
    }
}

/// The hexadecimal digits of `n`.
pub fn hex_chars(n: u64, upper: bool) -> (r: Vec<char>)
    ensures
        r@ == hex(n as nat, upper),
    decreases n,
{
    if n < 16 {
        let mut v = Vec::new();
        v.push(hex_digit_exec(n, upper));
        v
    } else {
        let mut v = hex_chars(n / 16, upper);
        v.push(hex_digit_exec(n % 16, upper));
        v
    }
}

/// The hexadecimal digits of `n`, zero-padded on the left to `width`.
pub fn hex_padded(n: u64, width: usize, upper: bool) -> (r: Vec<char>)
    ensures
        r@ == zero_pad(hex(n as nat, upper), width as nat),
{
    let digits = hex_chars(n, upper);
    if digits.len() >= width {
        return digits;
    }
    let mut r: Vec<char> = Vec::new();
    let pad = width - digits.len();
    let mut i: usize = 0;
    while i < pad
        invariant
            i <= pad,
            r@ == Seq::new(i as nat, |k: int| '0'),
        decreases pad - i,
    {
        r.push('0');
        i = i + 1;
        assert(r@ =~= Seq::new(i as nat, |k: int| '0'));
    }
    let mut j: usize = 0;
    while j < digits.len()
        invariant
            j <= digits@.len(),
            r@ == Seq::new(pad as nat, |k: int| '0') + digits@.take(j as int),
        decreases digits@.len() - j,
    {
        r.push(digits[j]);
        j = j + 1;
        assert(digits@.take(j as int) =~= digits@.take((j - 1) as int).push(digits@[j - 1]));
    }
    assert(digits@.take(j as int) =~= digits@);
    r
}

/// The decimal representation of `n` as a `String`.
pub fn decimal_string(n: u64) -> (s: String)
    ensures
        s@ == decimal(n as nat),
{
    let v = decimal_chars(n);
    string_of(v.as_slice())
}

// ---------------------------------------------------------------------------
// Case mapping (std, Unicode tables)
// ---------------------------------------------------------------------------

/// What std `str::to_lowercase` gives for a string (full Unicode lowercase mapping).
pub uninterp spec fn lowercase(s: Seq<char>) -> Seq<char>;

/// What std `str::to_uppercase` gives for a string (full Unicode uppercase mapping).
pub uninterp spec fn uppercase(s: Seq<char>) -> Seq<char>;

/// std `str::to_lowercase`: the Unicode lowercase of `s`. Its result is
/// claimed to be a function of `s` alone; the Unicode tables are not restated.
#[verifier::external_body]
pub(crate) fn to_lowercase(s: &str) -> (r: String)
    ensures
        r@ == lowercase(s@),
{
    s.to_lowercase()
}

/// std `str::to_uppercase`: the Unicode uppercase of `s`. Its result is
/// claimed to be a function of `s` alone; the Unicode tables are not restated.
#[verifier::external_body]
pub(crate) fn to_uppercase(s: &str) -> (r: String)
    ensures
        r@ == uppercase(s@),
{
    s.to_uppercase()
}

/// The lowercase of a sequence of characters.
pub fn lowercase_chars(v: &[char]) -> (r: Vec<char>)
    ensures
        r@ == lowercase(v@),
{
    let s = string_of(v);
    let l = to_lowercase(s.as_str());
    chars_of(l.as_str())
}

/// The uppercase of a sequence of characters.
pub fn uppercase_chars(v: &[char]) -> (r: Vec<char>)
    ensures
        r@ == uppercase(v@),
{
    let s = string_of(v);
    let u = to_uppercase(s.as_str());
    chars_of(u.as_str())
}

} // verus!
