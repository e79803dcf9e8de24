//! The noise that cleaning removes from a file stem: resolution strings
//! such as `1920x1080`, `[3840×2160]` or `1280 x 720`, each optionally
//! followed by one separator and an identifier of six to ten digits, and
//! free-standing runs of six to ten digits.
//!
//! The grammar, scanned leftmost-first without overlap, is:
//! - a *resolution* starts at `[` or at the first digit of a run: an
//!   optional `[`, a whole run of three to five digits, then either optional
//!   white space, `x`, `X` or `×` and optional white space, or white space
//!   alone, then three to five digits (at most five are taken), and an
//!   optional `]`;
//! - a resolution takes along one following space or `.` and a run of six
//!   or more digits after it, ten digits at most;
//! - otherwise a *digit run* of six or more digits is noise, its first ten
//!   digits at most (what follows them is kept), unless it follows white
//!   space right after a closing `)`;
//! - otherwise a *copy marker* such as ` (1)`: optional white space, `(`,
//!   one to three digits and `)`.
//!
//! Digits are the Unicode decimal digits (general category `Nd`) and white
//! space is the Unicode `White_Space` property.

use vstd::prelude::*;

verus! {

/// A Unicode decimal digit (general category `Nd`).
pub open spec fn is_digit(c: char) -> bool {
    let u = c as u32;
    (0x30 <= u && u <= 0x39) ||
    (0x660 <= u && u <= 0x669) ||
    (0x6f0 <= u && u <= 0x6f9) ||
    (0x7c0 <= u && u <= 0x7c9) ||
    (0x966 <= u && u <= 0x96f) ||
    (0x9e6 <= u && u <= 0x9ef) ||
    (0xa66 <= u && u <= 0xa6f) ||
    (0xae6 <= u && u <= 0xaef) ||
    (0xb66 <= u && u <= 0xb6f) ||
    (0xbe6 <= u && u <= 0xbef) ||
    (0xc66 <= u && u <= 0xc6f) ||
    (0xce6 <= u && u <= 0xcef) ||
    (0xd66 <= u && u <= 0xd6f) ||
    (0xde6 <= u && u <= 0xdef) ||
    (0xe50 <= u && u <= 0xe59) ||
    (0xed0 <= u && u <= 0xed9) ||
    (0xf20 <= u && u <= 0xf29) ||
    (0x1040 <= u && u <= 0x1049) ||
    (0x1090 <= u && u <= 0x1099) ||
    (0x17e0 <= u && u <= 0x17e9) ||
    (0x1810 <= u && u <= 0x1819) ||
    (0x1946 <= u && u <= 0x194f) ||
    (0x19d0 <= u && u <= 0x19d9) ||
    (0x1a80 <= u && u <= 0x1a89) ||
    (0x1a90 <= u && u <= 0x1a99) ||
    (0x1b50 <= u && u <= 0x1b59) ||
    (0x1bb0 <= u && u <= 0x1bb9) ||
    (0x1c40 <= u && u <= 0x1c49) ||
    (0x1c50 <= u && u <= 0x1c59) ||
    (0xa620 <= u && u <= 0xa629) ||
    (0xa8d0 <= u && u <= 0xa8d9) ||
    (0xa900 <= u && u <= 0xa909) ||
    (0xa9d0 <= u && u <= 0xa9d9) ||
    (0xa9f0 <= u && u <= 0xa9f9) ||
    (0xaa50 <= u && u <= 0xaa59) ||
    (0xabf0 <= u && u <= 0xabf9) ||
    (0xff10 <= u && u <= 0xff19) ||
    (0x104a0 <= u && u <= 0x104a9) ||
    (0x10d30 <= u && u <= 0x10d39) ||
    (0x10d40 <= u && u <= 0x10d49) ||
    (0x11066 <= u && u <= 0x1106f) ||
    (0x110f0 <= u && u <= 0x110f9) ||
    (0x11136 <= u && u <= 0x1113f) ||
    (0x111d0 <= u && u <= 0x111d9) ||
    (0x112f0 <= u && u <= 0x112f9) ||
    (0x11450 <= u && u <= 0x11459) ||
    (0x114d0 <= u && u <= 0x114d9) ||
    (0x11650 <= u && u <= 0x11659) ||
    (0x116c0 <= u && u <= 0x116c9) ||
    (0x116d0 <= u && u <= 0x116e3) ||
    (0x11730 <= u && u <= 0x11739) ||
    (0x118e0 <= u && u <= 0x118e9) ||
    (0x11950 <= u && u <= 0x11959) ||
    (0x11bf0 <= u && u <= 0x11bf9) ||
    (0x11c50 <= u && u <= 0x11c59) ||
    (0x11d50 <= u && u <= 0x11d59) ||
    (0x11da0 <= u && u <= 0x11da9) ||
    (0x11f50 <= u && u <= 0x11f59) ||
    (0x16130 <= u && u <= 0x16139) ||
    (0x16a60 <= u && u <= 0x16a69) ||
    (0x16ac0 <= u && u <= 0x16ac9) ||
    (0x16b50 <= u && u <= 0x16b59) ||
    (0x16d70 <= u && u <= 0x16d79) ||
    (0x1ccf0 <= u && u <= 0x1ccf9) ||
    (0x1d7ce <= u && u <= 0x1d7ff) ||
    (0x1e140 <= u && u <= 0x1e149) ||
    (0x1e2f0 <= u && u <= 0x1e2f9) ||
    (0x1e4f0 <= u && u <= 0x1e4f9) ||
    (0x1e5f1 <= u && u <= 0x1e5fa) ||
    (0x1e950 <= u && u <= 0x1e959) ||
    (0x1fbf0 <= u && u <= 0x1fbf9)
}

/// A Unicode white-space character (property `White_Space`).
pub open spec fn is_space(c: char) -> bool {
    let u = c as u32;
    (0x9 <= u && u <= 0xd) || u == 0x20 || u == 0x85 || u == 0xa0 || u == 0x1680 || (0x2000 <= u
        && u <= 0x200a) || u == 0x2028 || u == 0x2029 || u == 0x202f || u == 0x205f || u == 0x3000
}

/// The characters that separate width and height.
pub open spec fn is_times(c: char) -> bool {
    c == 'x' || c == 'X' || c == '×'
}

/// The characters that join a resolution to a following identifier.
pub open spec fn is_joiner(c: char) -> bool {
    c == ' ' || c == '.'
}

/// The number of consecutive digits of `s` from position `i`.
pub open spec fn digits_from(s: Seq<char>, i: int) -> nat
    decreases s.len() - i,
{
    if 0 <= i < s.len() && is_digit(s[i]) {
        1 + digits_from(s, i + 1)
    } else {
        0
    }
}

/// The number of consecutive white-space characters of `s` from position `i`.
pub open spec fn spaces_from(s: Seq<char>, i: int) -> nat
    decreases s.len() - i,
{
    if 0 <= i < s.len() && is_space(s[i]) {
        1 + spaces_from(s, i + 1)
    } else {
        0
    }
}

/// Position `i` is not preceded by a digit.
pub open spec fn starts_run(s: Seq<char>, i: int) -> bool {
    i == 0 || !is_digit(s[i - 1])
}

/// `n`, but no more than `m`.
pub open spec fn at_most(n: nat, m: nat) -> nat {
    if n > m {
        m
    } else {
        n
    }
}

/// The end of the resolution string that starts at `i`, if one does.
pub open spec fn resolution_at(s: Seq<char>, i: int) -> Option<int> {
    let j = if i < s.len() && s[i] == '[' {
        i + 1
    } else {
        i
    };
    let a = digits_from(s, j);
    if !starts_run(s, j) || a < 3 || a > 5 {
        None
    } else {
        let k = j + a + spaces_from(s, j + a);
        if !(k < s.len() && is_times(s[k])) && spaces_from(s, j + a) == 0 {
            None
        } else {
            let m = if k < s.len() && is_times(s[k]) {
                k + 1 + spaces_from(s, k + 1)
            } else {
                k
            };
            let b = digits_from(s, m);
            if b < 3 {
                None
            } else {
                let e = m + at_most(b, 5);
                if e < s.len() && s[e] == ']' {
                    Some(e + 1)
                } else {
                    Some(e)
                }
            }
        }
    }
}

/// The end of a resolution that ends at `e`, with the identifier that may
/// follow it.
pub open spec fn with_id(s: Seq<char>, e: int) -> int {
    if e < s.len() && is_joiner(s[e]) && digits_from(s, e + 1) >= 6 {
        e + 1 + at_most(digits_from(s, e + 1), 10)
    } else {
        e
    }
}

/// The number of consecutive white-space characters of `s` that end just
/// before position `i`.
pub open spec fn spaces_before(s: Seq<char>, i: int) -> nat
    decreases i,
{
    if 0 < i <= s.len() && is_space(s[i - 1]) {
        1 + spaces_before(s, i - 1)
    } else {
        0
    }
}

/// Position `i` follows white space that follows a closing `)`, as the
/// number in `(1280 x 720) 5555555555` does.
pub open spec fn after_closing(s: Seq<char>, i: int) -> bool {
    let k = spaces_before(s, i);
    k > 0 && i - k > 0 && s[i - k - 1] == ')'
}

/// The end of the digit-run noise that starts at `i`, if it does: the run's
/// first ten digits at most.
pub open spec fn number_at(s: Seq<char>, i: int) -> Option<int> {
    if starts_run(s, i) && !after_closing(s, i) && digits_from(s, i) >= 6 {
        Some(i + at_most(digits_from(s, i), 10))
    } else {
        None
    }
}

/// The end of the copy marker that starts at `i`, if one does.
pub open spec fn marker_at(s: Seq<char>, i: int) -> Option<int> {
    let p = i + spaces_from(s, i);
    let d = digits_from(s, p + 1);
    if p < s.len() && s[p] == '(' && 1 <= d <= 3 && p + 1 + d < s.len() && s[p + 1 + d] == ')' {
        Some(p + 2 + d)
    } else {
        None
    }
}

/// The end of the noise that starts at `i`, if any does: a resolution
/// (with its identifier) is tried first, then a digit run, then a copy
/// marker.
pub open spec fn noise_at(s: Seq<char>, i: int) -> Option<int> {
    match resolution_at(s, i) {
        Some(e) => Some(with_id(s, e)),
        None => match number_at(s, i) {
            Some(e) => Some(e),
            None => marker_at(s, i),
        },
    }
}

/// What is left of `s` from position `i` on once the noise is removed.
pub open spec fn strip_from(s: Seq<char>, i: int) -> Seq<char>
    decreases s.len() - i,
{
    if i < 0 || i >= s.len() {
        Seq::empty()
    } else {
        match noise_at(s, i) {
            Some(e) => if i < e && e <= s.len() {
                strip_from(s, e)
            } else {
                seq![s[i]] + strip_from(s, i + 1)
            },
            None => seq![s[i]] + strip_from(s, i + 1),
        }
    }
}

/// `s` with every piece of noise removed.
pub open spec fn strip(s: Seq<char>) -> Seq<char> {
    strip_from(s, 0)
}

/// Some noise occurs in `s`.
pub open spec fn has_noise(s: Seq<char>) -> bool {
    exists|i: int| 0 <= i < s.len() && #[trigger] noise_at(s, i) is Some
}

pub(crate) proof fn lemma_digits_bound(s: Seq<char>, i: int)
    requires
        0 <= i <= s.len(),
    ensures
        i + digits_from(s, i) <= s.len(),
    decreases s.len() - i,
{
    if i < s.len() && is_digit(s[i]) {
        lemma_digits_bound(s, i + 1);
    }
}

pub(crate) proof fn lemma_spaces_bound(s: Seq<char>, i: int)
    requires
        0 <= i <= s.len(),
    ensures
        i + spaces_from(s, i) <= s.len(),
    decreases s.len() - i,
{
    if i < s.len() && is_space(s[i]) {
        lemma_spaces_bound(s, i + 1);
    }
}

/// Noise found at a position ends after it and within the text.
pub proof fn lemma_noise_bounds(s: Seq<char>, i: int)
    requires
        0 <= i < s.len(),
    ensures
        noise_at(s, i) matches Some(e) ==> i < e <= s.len(),
{
    let j = if i < s.len() && s[i] == '[' {
        i + 1
    } else {
        i
    };
    lemma_digits_bound(s, j);
    let a = digits_from(s, j);
    if j + a <= s.len() {
        lemma_spaces_bound(s, j + a);
        let k = j + a + spaces_from(s, j + a);
        lemma_digits_bound(s, k);
        if k < s.len() {
            lemma_spaces_bound(s, k + 1);
            let m = k + 1 + spaces_from(s, k + 1);
            lemma_digits_bound(s, m);
        }
        if let Some(e) = resolution_at(s, i) {
            if e < s.len() {
                lemma_digits_bound(s, e + 1);
            }
        }
    }
    lemma_digits_bound(s, i);
    lemma_spaces_bound(s, i);
    let p = i + spaces_from(s, i);
    if p < s.len() {
        lemma_digits_bound(s, p + 1);
    }
}

pub(crate) proof fn lemma_strip_from_len(s: Seq<char>, i: int)
    requires
        0 <= i <= s.len(),
    ensures
        strip_from(s, i).len() <= s.len() - i,
        (exists|k: int| i <= k < s.len() && #[trigger] noise_at(s, k) is Some) ==> strip_from(s, i).len()
            < s.len() - i,
        (forall|k: int| i <= k < s.len() ==> #[trigger] noise_at(s, k) is None) ==> strip_from(s, i)
            == s.skip(i),
    decreases s.len() - i,
{
    if i < s.len() {
        lemma_noise_bounds(s, i);
        lemma_strip_from_len(s, i + 1);
        match noise_at(s, i) {
            Some(e) => {
                lemma_strip_from_len(s, e);
            },
            None => {
                if exists|k: int| i <= k < s.len() && #[trigger] noise_at(s, k) is Some {
                    let k = choose|k: int| i <= k < s.len() && #[trigger] noise_at(s, k) is Some;
                    assert(k != i);
                }
                assert(seq![s[i]] + s.skip(i + 1) =~= s.skip(i));
            },
        }
    } else {
        assert(s.skip(i) =~= Seq::<char>::empty());
    }
}

pub(crate) fn chars_of(s: &str) -> (v: Vec<char>)
    ensures
        v@ == s@,
{
    let n = s.unicode_len();
    let mut v: Vec<char> = Vec::new();
    let mut i: usize = 0;
    while i < n
        invariant
            n == s@.len(),
            i <= n,
            v@ == s@.take(i as int),
        decreases n - i,
    {
        v.push(s.get_char(i));
        i = i + 1;
        assert(v@ =~= s@.take(i as int));
    }
    assert(s@.take(n as int) =~= s@);
    v
}

fn is_digit_exec(c: char) -> (b: bool)
    ensures
        b == is_digit(c),
{
    let u = c as u32;
    (0x30 <= u && u <= 0x39) ||
    (0x660 <= u && u <= 0x669) ||
    (0x6f0 <= u && u <= 0x6f9) ||
    (0x7c0 <= u && u <= 0x7c9) ||
    (0x966 <= u && u <= 0x96f) ||
    (0x9e6 <= u && u <= 0x9ef) ||
    (0xa66 <= u && u <= 0xa6f) ||
    (0xae6 <= u && u <= 0xaef) ||
    (0xb66 <= u && u <= 0xb6f) ||
    (0xbe6 <= u && u <= 0xbef) ||
    (0xc66 <= u && u <= 0xc6f) ||
    (0xce6 <= u && u <= 0xcef) ||
    (0xd66 <= u && u <= 0xd6f) ||
    (0xde6 <= u && u <= 0xdef) ||
    (0xe50 <= u && u <= 0xe59) ||
    (0xed0 <= u && u <= 0xed9) ||
    (0xf20 <= u && u <= 0xf29) ||
    (0x1040 <= u && u <= 0x1049) ||
    (0x1090 <= u && u <= 0x1099) ||
    (0x17e0 <= u && u <= 0x17e9) ||
    (0x1810 <= u && u <= 0x1819) ||
    (0x1946 <= u && u <= 0x194f) ||
    (0x19d0 <= u && u <= 0x19d9) ||
    (0x1a80 <= u && u <= 0x1a89) ||
    (0x1a90 <= u && u <= 0x1a99) ||
    (0x1b50 <= u && u <= 0x1b59) ||
    (0x1bb0 <= u && u <= 0x1bb9) ||
    (0x1c40 <= u && u <= 0x1c49) ||
    (0x1c50 <= u && u <= 0x1c59) ||
    (0xa620 <= u && u <= 0xa629) ||
    (0xa8d0 <= u && u <= 0xa8d9) ||
    (0xa900 <= u && u <= 0xa909) ||
    (0xa9d0 <= u && u <= 0xa9d9) ||
    (0xa9f0 <= u && u <= 0xa9f9) ||
    (0xaa50 <= u && u <= 0xaa59) ||
    (0xabf0 <= u && u <= 0xabf9) ||
    (0xff10 <= u && u <= 0xff19) ||
    (0x104a0 <= u && u <= 0x104a9) ||
    (0x10d30 <= u && u <= 0x10d39) ||
    (0x10d40 <= u && u <= 0x10d49) ||
    (0x11066 <= u && u <= 0x1106f) ||
    (0x110f0 <= u && u <= 0x110f9) ||
    (0x11136 <= u && u <= 0x1113f) ||
    (0x111d0 <= u && u <= 0x111d9) ||
    (0x112f0 <= u && u <= 0x112f9) ||
    (0x11450 <= u && u <= 0x11459) ||
    (0x114d0 <= u && u <= 0x114d9) ||
    (0x11650 <= u && u <= 0x11659) ||
    (0x116c0 <= u && u <= 0x116c9) ||
    (0x116d0 <= u && u <= 0x116e3) ||
    (0x11730 <= u && u <= 0x11739) ||
    (0x118e0 <= u && u <= 0x118e9) ||
    (0x11950 <= u && u <= 0x11959) ||
    (0x11bf0 <= u && u <= 0x11bf9) ||
    (0x11c50 <= u && u <= 0x11c59) ||
    (0x11d50 <= u && u <= 0x11d59) ||
    (0x11da0 <= u && u <= 0x11da9) ||
    (0x11f50 <= u && u <= 0x11f59) ||
    (0x16130 <= u && u <= 0x16139) ||
    (0x16a60 <= u && u <= 0x16a69) ||
    (0x16ac0 <= u && u <= 0x16ac9) ||
    (0x16b50 <= u && u <= 0x16b59) ||
    (0x16d70 <= u && u <= 0x16d79) ||
    (0x1ccf0 <= u && u <= 0x1ccf9) ||
    (0x1d7ce <= u && u <= 0x1d7ff) ||
    (0x1e140 <= u && u <= 0x1e149) ||
    (0x1e2f0 <= u && u <= 0x1e2f9) ||
    (0x1e4f0 <= u && u <= 0x1e4f9) ||
    (0x1e5f1 <= u && u <= 0x1e5fa) ||
    (0x1e950 <= u && u <= 0x1e959) ||
    (0x1fbf0 <= u && u <= 0x1fbf9)
}

fn is_space_exec(c: char) -> (b: bool)
    ensures
        b == is_space(c),
{
    let u = c as u32;
    (0x9 <= u && u <= 0xd) || u == 0x20 || u == 0x85 || u == 0xa0 || u == 0x1680 || (0x2000 <= u
        && u <= 0x200a) || u == 0x2028 || u == 0x2029 || u == 0x202f || u == 0x205f || u == 0x3000
}

fn count_digits(cs: &Vec<char>, i: usize) -> (n: usize)
    requires
        i <= cs.len(),
    ensures
        n == digits_from(cs@, i as int),
        i + n <= cs.len(),
{
    let mut j = i;
    while j < cs.len() && is_digit_exec(cs[j])
        invariant
            i <= j <= cs.len(),
            digits_from(cs@, i as int) == (j - i) + digits_from(cs@, j as int),
        decreases cs.len() - j,
    {
        j = j + 1;
    }
    j - i
}

fn count_spaces(cs: &Vec<char>, i: usize) -> (n: usize)
    requires
        i <= cs.len(),
    ensures
        n == spaces_from(cs@, i as int),
        i + n <= cs.len(),
{
    let mut j = i;
    while j < cs.len() && is_space_exec(cs[j])
        invariant
            i <= j <= cs.len(),
            spaces_from(cs@, i as int) == (j - i) + spaces_from(cs@, j as int),
        decreases cs.len() - j,
    {
        j = j + 1;
    }
    j - i
}

fn resolution_end(cs: &Vec<char>, i: usize) -> (r: Option<usize>)
    requires
        i < cs.len(),
    ensures
        match r {
            Some(e) => resolution_at(cs@, i as int) == Some(e as int) && i < e <= cs.len(),
            None => resolution_at(cs@, i as int) is None,
        },
{
    let j = if cs[i] == '[' {
        i + 1
    } else {
        i
    };
    if j > 0 && is_digit_exec(cs[j - 1]) {
        return None;
    }
    let a = count_digits(cs, j);
    if a < 3 || a > 5 {
        return None;
    }
    let sp = count_spaces(cs, j + a);
    let k = j + a + sp;
    let times = k < cs.len() && (cs[k] == 'x' || cs[k] == 'X' || cs[k] == '×');
    if !times && sp == 0 {
        return None;
    }
    let m = if times {
        k + 1 + count_spaces(cs, k + 1)
    } else {
        k
    };
    let b = count_digits(cs, m);
    if b < 3 {
        return None;
    }
    let e = if b > 5 {
        m + 5
    } else {
        m + b
    };
    if e < cs.len() && cs[e] == ']' {
        Some(e + 1)
    } else {
        Some(e)
    }
}

fn after_closing_exec(cs: &Vec<char>, i: usize) -> (b: bool)
    requires
        i <= cs.len(),
    ensures
        b == after_closing(cs@, i as int),
{
    let mut j = i;
    while j > 0 && is_space_exec(cs[j - 1])
        invariant
            j <= i <= cs.len(),
            spaces_before(cs@, i as int) == (i - j) + spaces_before(cs@, j as int),
        decreases j,
    {
        j = j - 1;
    }
    j < i && j > 0 && cs[j - 1] == ')'
}

fn marker_end(cs: &Vec<char>, i: usize) -> (r: Option<usize>)
    requires
        i < cs.len(),
    ensures
        match r {
            Some(e) => marker_at(cs@, i as int) == Some(e as int) && i < e <= cs.len(),
            None => marker_at(cs@, i as int) is None,
        },
{
    let p = i + count_spaces(cs, i);
    if p >= cs.len() || cs[p] != '(' {
        return None;
    }
    let d = count_digits(cs, p + 1);
    if 1 <= d && d <= 3 && p + 1 + d < cs.len() && cs[p + 1 + d] == ')' {
        Some(p + 2 + d)
    } else {
        None
    }
}

fn noise_end(cs: &Vec<char>, i: usize) -> (r: Option<usize>)
    requires
        i < cs.len(),
    ensures
        match r {
            Some(e) => noise_at(cs@, i as int) == Some(e as int) && i < e <= cs.len(),
            None => noise_at(cs@, i as int) is None,
        },
{
    match resolution_end(cs, i) {
        Some(e) => {
            if e < cs.len() && (cs[e] == ' ' || cs[e] == '.') {
                let d = count_digits(cs, e + 1);
                if d >= 6 {
                    return Some(e + 1 + if d > 10 {
                        10
                    } else {
                        d
                    });
                }
            }
            Some(e)
        },
        None => {
            let d = count_digits(cs, i);
            if (i == 0 || !is_digit_exec(cs[i - 1])) && !after_closing_exec(cs, i) && d >= 6 {
                Some(
                    i + if d > 10 {
                        10
                    } else {
                        d
                    },
                )
            } else {
                marker_end(cs, i)
            }
        },
    }
}

/// Removes every piece of noise from `text`.
pub fn strip_noise(text: &str) -> (r: String)
    ensures
        r@ == strip(text@),
{
    let cs = chars_of(text);
    let ghost s = cs@;
    let n = cs.len();
    let mut out = String::new();
    let mut seg: usize = 0;
    let mut i: usize = 0;
    assert(s.subrange(0, 0) =~= Seq::<char>::empty());
    assert(out@ + s.subrange(0, 0) + strip_from(s, 0) =~= strip_from(s, 0));
    while i < n
        invariant
            n == s.len(),
            s == cs@,
            s == text@,
            seg <= i <= n,
            strip(s) == out@ + s.subrange(seg as int, i as int) + strip_from(s, i as int),
        decreases n - i,
    {
        match noise_end(&cs, i) {
            Some(e) => {
                let piece = text.substring_char(seg, i);
                out.append(piece);
                assert(s.subrange(e as int, e as int) =~= Seq::<char>::empty());
                assert(strip_from(s, i as int) == strip_from(s, e as int));
                assert(out@ + s.subrange(e as int, e as int) + strip_from(s, e as int) =~= out@
                    + strip_from(s, e as int));
                seg = e;
                i = e;
            },
            None => {
                assert(strip_from(s, i as int) == seq![s[i as int]] + strip_from(s, i + 1));
                assert(s.subrange(seg as int, i + 1) =~= s.subrange(seg as int, i as int) + seq![
                    s[i as int],
                ]);
                i = i + 1;
            },
        }
    }
    let piece = text.substring_char(seg, n);
    out.append(piece);
    assert(strip_from(s, n as int) =~= Seq::<char>::empty());
    assert(strip(s) =~= out@);
    out
}

/// Whether any noise occurs in `text`.
pub fn noise_is_match(text: &str) -> (r: bool)
    ensures
        r == has_noise(text@),
{
    let cs = chars_of(text);
    let n = cs.len();
    let mut i: usize = 0;
    while i < n
        invariant
            n == cs@.len(),
            cs@ == text@,
            i <= n,
            forall|k: int| 0 <= k < i ==> #[trigger] noise_at(cs@, k) is None,
        decreases n - i,
    {
        if noise_end(&cs, i).is_some() {
            return true;
        }
        i = i + 1;
    }
    false
}

} // verus!
