//! Cleaning of file stems. One cleaning step removes a trailing label
//! `-[WxH]` (optionally followed by a counter `[n]`) that renaming wrote and
//! trims what precedes it, or else removes the noise and trims the
//! separators left at the ends. Steps repeat until nothing changes or a step
//! would leave nothing; the last nonempty text is the cleaned name, so it is
//! the stem itself or a trimmed text.

use vstd::prelude::*;

use crate::noise::{chars_of, lemma_strip_from_len, strip, strip_noise};
use crate::text::{lemma_trim_shrinks, trim_both, trim_noise_chars};

verus! {

/// An ASCII decimal digit, the digits labels are written with.
pub open spec fn is_ascii_digit(c: char) -> bool {
    '0' <= c && c <= '9'
}

/// The number of ASCII digits that end at position `end` of `s`.
pub open spec fn digits_before(s: Seq<char>, end: int) -> nat
    decreases end,
{
    if 0 < end <= s.len() && is_ascii_digit(s[end - 1]) {
        1 + digits_before(s, end - 1)
    } else {
        0
    }
}

/// Where a label `-[WxH]`, with `W` and `H` runs of ASCII digits, starts,
/// if one ends at position `end` of `s`.
pub open spec fn label_before(s: Seq<char>, end: int) -> Option<int> {
    if end < 1 || end > s.len() || s[end - 1] != ']' {
        None
    } else {
        let d2 = digits_before(s, end - 1);
        let px = end - 1 - d2;
        if d2 == 0 || px < 1 || s[px - 1] != 'x' {
            None
        } else {
            let d1 = digits_before(s, px - 1);
            let pb = px - 1 - d1;
            if d1 == 0 || pb < 2 || s[pb - 1] != '[' || s[pb - 2] != '-' {
                None
            } else {
                Some(pb - 2)
            }
        }
    }
}

/// Where a counter `[n]`, with `n` a run of ASCII digits, starts, if `s`
/// ends with one.
pub open spec fn counter_start(s: Seq<char>) -> Option<int> {
    let end = s.len() as int;
    if end < 1 || s[end - 1] != ']' {
        None
    } else {
        let d = digits_before(s, end - 1);
        let pb = end - 1 - d;
        if d == 0 || pb < 1 || s[pb - 1] != '[' {
            None
        } else {
            Some(pb - 1)
        }
    }
}

/// The length of what precedes the label at the end of `s` (the label may
/// be followed by a counter), if `s` ends with one.
pub open spec fn label_prefix_len(s: Seq<char>) -> Option<int> {
    match label_before(s, s.len() as int) {
        Some(p) => Some(p),
        None => match counter_start(s) {
            Some(c) => label_before(s, c),
            None => None,
        },
    }
}

/// The noise step: the noise removed, then the separators at both ends.
pub open spec fn noise_step(s: Seq<char>) -> Seq<char> {
    trim_both(strip(s))
}

/// One cleaning step: what precedes a trailing label, trimmed, where that
/// is not empty; else the noise step.
pub open spec fn clean_step(s: Seq<char>) -> Seq<char> {
    match label_prefix_len(s) {
        Some(p) => if trim_both(s.take(p)).len() > 0 {
            trim_both(s.take(p))
        } else {
            noise_step(s)
        },
        None => noise_step(s),
    }
}

/// Cleaning steps from `s` on, up to a text that a step leaves unchanged or
/// would empty.
pub open spec fn settle(s: Seq<char>) -> Seq<char>
    decreases s.len(),
{
    let t = clean_step(s);
    if t == s || t.len() == 0 || t.len() >= s.len() {
        s
    } else {
        settle(t)
    }
}

/// The cleaned name of `stem`.
pub open spec fn cleaned(stem: Seq<char>) -> Seq<char> {
    settle(stem)
}

proof fn lemma_digits_before_bound(s: Seq<char>, end: int)
    ensures
        0 <= end <= s.len() ==> digits_before(s, end) <= end,
    decreases end,
{
    if 0 < end <= s.len() && is_ascii_digit(s[end - 1]) {
        lemma_digits_before_bound(s, end - 1);
    }
}

/// A cleaning step never lengthens the text, and shortens it wherever it
/// changes it.
pub proof fn lemma_clean_step_shrinks(s: Seq<char>)
    ensures
        clean_step(s).len() <= s.len(),
        clean_step(s) != s ==> clean_step(s).len() < s.len(),
{
    lemma_digits_before_bound(s, s.len() - 1);
    if let Some(c) = counter_start(s) {
        lemma_digits_before_bound(s, c - 1);
    }
    let end = match counter_start(s) {
        Some(c) => c,
        None => s.len() as int,
    };
    if label_before(s, s.len() as int) is None && counter_start(s) is Some {
        lemma_digits_before_bound(s, end - 1);
    }
    let e2 = s.len() as int;
    if 1 <= e2 {
        lemma_digits_before_bound(s, e2 - 1);
        let px = e2 - 1 - digits_before(s, e2 - 1);
        if px >= 1 {
            lemma_digits_before_bound(s, px - 1);
        }
    }
    if let Some(c) = counter_start(s) {
        if 1 <= c {
            lemma_digits_before_bound(s, c - 1);
            let px = c - 1 - digits_before(s, c - 1);
            if px >= 1 {
                lemma_digits_before_bound(s, px - 1);
            }
        }
    }
    lemma_strip_from_len(s, 0);
    assert(s.skip(0) =~= s);
    lemma_trim_shrinks(strip(s));
    if let Some(p) = label_prefix_len(s) {
        lemma_trim_shrinks(s.take(p));
    }
}

/// Cleaning is idempotent: a cleaned name cleans to itself.
pub proof fn cleaning_is_idempotent(s: Seq<char>)
    ensures
        settle(settle(s)) == settle(s),
    decreases s.len(),
{
    lemma_clean_step_shrinks(s);
    let t = clean_step(s);
    if !(t == s || t.len() == 0 || t.len() >= s.len()) {
        cleaning_is_idempotent(t);
    }
}

fn digits_before_exec(cs: &Vec<char>, end: usize) -> (n: usize)
    requires
        end <= cs.len(),
    ensures
        n == digits_before(cs@, end as int),
        n <= end,
{
    let mut k = end;
    while k > 0 && '0' <= cs[k - 1] && cs[k - 1] <= '9'
        invariant
            k <= end <= cs.len(),
            digits_before(cs@, end as int) == (end - k) + digits_before(cs@, k as int),
        decreases k,
    {
        k = k - 1;
    }
    end - k
}

fn label_before_exec(cs: &Vec<char>, end: usize) -> (r: Option<usize>)
    requires
        end <= cs.len(),
    ensures
        match r {
            Some(p) => label_before(cs@, end as int) == Some(p as int),
            None => label_before(cs@, end as int) is None,
        },
{
    if end < 1 || cs[end - 1] != ']' {
        return None;
    }
    let d2 = digits_before_exec(cs, end - 1);
    let px = end - 1 - d2;
    if d2 == 0 || px < 1 || cs[px - 1] != 'x' {
        return None;
    }
    let d1 = digits_before_exec(cs, px - 1);
    let pb = px - 1 - d1;
    if d1 == 0 || pb < 2 || cs[pb - 1] != '[' || cs[pb - 2] != '-' {
        return None;
    }
    Some(pb - 2)
}

fn label_prefix_exec(cs: &Vec<char>) -> (r: Option<usize>)
    ensures
        match r {
            Some(p) => label_prefix_len(cs@) == Some(p as int) && p <= cs.len(),
            None => label_prefix_len(cs@) is None,
        },
{
    let n = cs.len();
    match label_before_exec(cs, n) {
        Some(p) => return Some(p),
        None => {},
    }
    if n < 1 || cs[n - 1] != ']' {
        return None;
    }
    let d = digits_before_exec(cs, n - 1);
    let pb = n - 1 - d;
    if d == 0 || pb < 1 || cs[pb - 1] != '[' {
        return None;
    }
    label_before_exec(cs, pb - 1)
}

/// Performs one cleaning step on `s`.
pub fn clean_step_once(s: &str) -> (r: String)
    ensures
        r@ == clean_step(s@),
{
    let cs = chars_of(s);
    if let Some(p) = label_prefix_exec(&cs) {
        let t = trim_noise_chars(s.substring_char(0, p));
        if t.as_str().unicode_len() > 0 {
            return t;
        }
    }
    let stripped = strip_noise(s);
    trim_noise_chars(stripped.as_str())
}

/// Cleans a file stem of its label, resolution strings, digit noise, copy
/// markers and the separators around them.
pub fn clean_stem(stem: &str) -> (r: String)
    ensures
        r@ == cleaned(stem@),
{
    let mut cur = String::from_str(stem);
    loop
        invariant
            settle(cur@) == settle(stem@),
        decreases cur@.len(),
    {
        let t = clean_step_once(cur.as_str());
        proof {
            lemma_clean_step_shrinks(cur@);
        }
        if t == cur || t.as_str().unicode_len() == 0 {
            return cur;
        }
        cur = t;
    }
}

} // verus!
