//! Planning: which files are candidates, the name each one should carry,
//! the order of candidates that share a cleaned name, and the action each
//! one receives.

use vstd::prelude::*;

use crate::clean::{clean_stem, cleaned, is_ascii_digit};
use crate::noise::chars_of;
use crate::model::{
    dims_text, Action, ActionView, Dimensions, ImageCandidate, Relocation, TargetMode,
};
use crate::paths::{
    extension_of, file_name_of, file_stem_of, plain_name, joined, lowercase_of, parent_of, path_extension, path_file_stem,
    path_join, path_parent, to_lowercase,
};
use crate::text::{
    decimal, decimal_string, eq_ignore_ascii_case, eq_ignore_ascii_case_spec, lemma_decimal_ascii,
    lemma_decimal_injective,
};

verus! {

/// Some extension of the list matches `ext`, ignoring ASCII case.
pub open spec fn ext_listed(exts: Seq<String>, ext: Seq<char>) -> bool {
    exists|i: int| 0 <= i < exts.len() && eq_ignore_ascii_case_spec(#[trigger] exts[i]@, ext)
}

/// Whether the extension of `path` is one of `exts`, ignoring ASCII case;
/// `None` where the path has no extension.
pub fn is_supported_extension(path: &str, exts: &Vec<String>) -> (r: Option<bool>)
    ensures
        match extension_of(path@) {
            None => r is None,
            Some(e) => r == Some(ext_listed(exts@, e)),
        },
{
    let ext = match path_extension(path) {
        Some(e) => e,
        None => return None,
    };
    let mut i: usize = 0;
    while i < exts.len()
        invariant
            i <= exts.len(),
            extension_of(path@) == Some(ext@),
            forall|k: int| 0 <= k < i ==> !eq_ignore_ascii_case_spec(#[trigger] exts@[k]@, ext@),
        decreases exts.len() - i,
    {
        if eq_ignore_ascii_case(exts[i].as_str(), ext.as_str()) {
            return Some(true);
        }
        i = i + 1;
    }
    Some(false)
}

/// Makes a candidate of the file at `path`, whose dimensions were read as
/// `dims`: its stem cleaned and its extension lower-cased. `None` where the
/// path has no stem or no extension or the dimensions are unknown.
pub fn process_file(path: String, dims: Option<Dimensions>) -> (r: Option<ImageCandidate>)
    ensures
        match (file_stem_of(path@), extension_of(path@), dims) {
            (Some(stem), Some(e), Some(d)) => r matches Some(c) && c.path == path && c.cleaned_name@
                == cleaned(stem) && c.dims == d && c.extension@ == lowercase_of(e),
            _ => r is None,
        },
{
    let stem = match path_file_stem(path.as_str()) {
        Some(s) => s,
        None => return None,
    };
    let cleaned_name = clean_stem(stem.as_str());
    let ext = match path_extension(path.as_str()) {
        Some(e) => to_lowercase(e.as_str()),
        None => return None,
    };
    match dims {
        Some(d) => Some(ImageCandidate::new(path, cleaned_name, d, ext)),
        None => None,
    }
}

/// The stem a file carries once renamed: `name-[WxH]`.
pub open spec fn stem_with_dims(name: Seq<char>, d: Dimensions) -> Seq<char> {
    name + seq!['-', '['] + dims_text(d) + seq![']']
}

/// Builds `name-[WxH]`.
pub fn new_stem(name: &str, dims: Dimensions) -> (s: String)
    ensures
        s@ == stem_with_dims(name@, dims),
{
    proof {
        reveal_strlit("-[");
        reveal_strlit("]");
    }
    let mut s = String::from_str(name);
    s.append("-[");
    let d = dims.to_string();
    s.append(d.as_str());
    s.append("]");
    s
}

/// The file name for `stem` and `ext`: `stem.ext`, or `stem[n].ext` for a
/// nonzero counter `n`.
pub open spec fn target_name(stem: Seq<char>, ext: Seq<char>, n: nat) -> Seq<char> {
    if n == 0 {
        stem + seq!['.'] + ext
    } else {
        stem + seq!['['] + decimal(n) + seq![']', '.'] + ext
    }
}

/// Builds the file name for `stem`, `ext` and counter `n`.
pub fn target_file_name(stem: &str, ext: &str, n: u64) -> (s: String)
    ensures
        s@ == target_name(stem@, ext@, n as nat),
{
    proof {
        reveal_strlit(".");
        reveal_strlit("[");
        reveal_strlit("].");
    }
    let mut s = String::from_str(stem);
    if n == 0 {
        s.append(".");
    } else {
        s.append("[");
        let d = decimal_string(n);
        s.append(d.as_str());
        s.append("].");
    }
    s.append(ext);
    s
}

/// The texts of a list of paths.
pub open spec fn texts(v: Seq<String>) -> Seq<Seq<char>> {
    v.map_values(|p: String| p@)
}

/// The path with counter `n` for `stem.ext` inside `base`.
pub open spec fn counted_path(base: Seq<char>, stem: Seq<char>, ext: Seq<char>, n: nat) -> Seq<char> {
    joined(base, target_name(stem, ext, n))
}

/// The least counter from `n` on whose path is not in `taken`, looking no
/// further than the number of paths taken.
pub open spec fn first_free(
    base: Seq<char>,
    stem: Seq<char>,
    ext: Seq<char>,
    taken: Seq<Seq<char>>,
    n: nat,
) -> nat
    decreases taken.len() - n,
{
    if n >= taken.len() || !taken.contains(counted_path(base, stem, ext, n)) {
        n
    } else {
        first_free(base, stem, ext, taken, n + 1)
    }
}

/// The path a renamed file goes to: `stem.ext` inside `base`, or else
/// `stem[n].ext` for the least `n` whose path is not taken.
pub open spec fn free_target(base: Seq<char>, stem: Seq<char>, ext: Seq<char>, taken: Seq<Seq<char>>) -> Seq<
    char,
> {
    counted_path(base, stem, ext, first_free(base, stem, ext, taken, 0))
}

/// Text free of `/`, `\\` and `:`.
pub open spec fn plain_text(x: Seq<char>) -> bool {
    forall|i: int| 0 <= i < x.len() ==> #[trigger] x[i] != '/' && x[i] != '\\' && x[i] != ':'
}

proof fn lemma_target_name_plain(stem: Seq<char>, ext: Seq<char>, n: nat)
    requires
        stem.len() >= 2,
        plain_text(stem),
        plain_text(ext),
    ensures
        plain_name(target_name(stem, ext, n)),
{
    lemma_decimal_ascii(n);
    let t = target_name(stem, ext, n);
    assert(t.len() >= 3);
    assert(t != seq!['.']);
    assert(t != seq!['.', '.']);
    let d = decimal(n);
    assert forall|i: int| 0 <= i < t.len() implies #[trigger] t[i] != '/' && t[i] != '\\' && t[i] != ':' by {
        if i < stem.len() {
            assert(t[i] == stem[i]);
        } else if n == 0 {
            if i > stem.len() {
                assert(t[i] == ext[i - stem.len() - 1]);
            }
        } else if i == stem.len() {
        } else if i <= stem.len() + d.len() {
            assert(t[i] == d[i - stem.len() - 1]);
        } else if i <= stem.len() + d.len() + 2 {
        } else {
            assert(t[i] == ext[i - stem.len() - d.len() - 3]);
        }
    }
}

proof fn lemma_target_name_injective(stem: Seq<char>, ext: Seq<char>, n: nat, m: nat)
    requires
        n != m,
    ensures
        target_name(stem, ext, n) != target_name(stem, ext, m),
{
    let a = target_name(stem, ext, n);
    let b = target_name(stem, ext, m);
    let k = stem.len() as int;
    lemma_decimal_ascii(n);
    lemma_decimal_ascii(m);
    if n == 0 || m == 0 {
        assert(a[k] != b[k]);
    } else {
        let dn = decimal(n);
        let dm = decimal(m);
        if dn.len() == dm.len() {
            if a == b {
                assert(a.subrange(k + 1, k + 1 + dn.len()) =~= dn);
                assert(b.subrange(k + 1, k + 1 + dm.len()) =~= dm);
                lemma_decimal_injective(n, m);
            }
        } else if dn.len() < dm.len() {
            assert(a[k + 1 + dn.len()] == ']');
            assert(b[k + 1 + dn.len()] == dm[dn.len() as int]);
        } else {
            assert(b[k + 1 + dm.len()] == ']');
            assert(a[k + 1 + dm.len()] == dn[dm.len() as int]);
        }
    }
}

pub(crate) proof fn lemma_pigeonhole(
    taken: Seq<Seq<char>>,
    base: Seq<char>,
    stem: Seq<char>,
    ext: Seq<char>,
    k: nat,
)
    requires
        forall|i: nat| i < k ==> taken.contains(#[trigger] counted_path(base, stem, ext, i)),
        forall|i: nat, j: nat|
            i < k && j < k && i != j ==> #[trigger] counted_path(base, stem, ext, i)
                != #[trigger] counted_path(base, stem, ext, j),
    ensures
        taken.len() >= k,
    decreases k,
{
    if k > 0 {
        let x = counted_path(base, stem, ext, (k - 1) as nat);
        assert(taken.contains(x));
        let q = choose|q: int| 0 <= q < taken.len() && taken[q] == x;
        let rest = taken.remove(q);
        assert forall|i: nat| i < (k - 1) as nat implies rest.contains(#[trigger] counted_path(base, stem, ext, i)) by {
            let y = counted_path(base, stem, ext, i);
            assert(taken.contains(y));
            let r = choose|r: int| 0 <= r < taken.len() && taken[r] == y;
            assert(r != q);
            if r < q {
                assert(rest[r] == y);
            } else {
                assert(rest[r - 1] == y);
            }
        }
        lemma_pigeonhole(rest, base, stem, ext, (k - 1) as nat);
    }
}

fn is_taken(taken: &Vec<String>, p: &String) -> (b: bool)
    ensures
        b == texts(taken@).contains(p@),
{
    let mut k: usize = 0;
    while k < taken.len()
        invariant
            k <= taken.len(),
            forall|j: int| 0 <= j < k ==> (#[trigger] taken@[j])@ != p@,
        decreases taken.len() - k,
    {
        if taken[k] == *p {
            assert(texts(taken@)[k as int] == p@);
            return true;
        }
        k = k + 1;
    }
    assert forall|j: int| 0 <= j < texts(taken@).len() implies #[trigger] texts(taken@)[j] != p@ by {
        assert(texts(taken@)[j] == taken@[j]@);
    }
    false
}

/// The path a renamed file goes to: `stem.ext` inside `base` where that
/// path is not in `taken`, else `stem[n].ext` for the least free counter,
/// trying no more counters than there are paths taken; none where that path
/// is taken too. A path returned is never in `taken`. Where the stem has two
/// characters or more and neither stem nor extension holds `/`, `\\` or
/// `:`, joining gives distinct paths for distinct counters, so a path is
/// always found, and its file name is the name with the counter chosen.
pub fn free_target_path(base: &str, stem: &str, ext: &str, taken: &Vec<String>) -> (r: Option<
    String,
>)
    ensures
        match r {
            Some(p) => p@ == free_target(base@, stem@, ext@, texts(taken@)) && !texts(taken@).contains(p@),
            None => texts(taken@).contains(free_target(base@, stem@, ext@, texts(taken@))),
        },
        stem@.len() >= 2 && plain_text(stem@) && plain_text(ext@) ==> (r matches Some(p) && file_name_of(
            p@,
        ) == Some(target_name(stem@, ext@, first_free(base@, stem@, ext@, texts(taken@), 0)))),
{
    let ghost t = texts(taken@);
    let ghost plain = stem@.len() >= 2 && plain_text(stem@) && plain_text(ext@);
    assert(t.len() == taken.len());
    let mut n: usize = 0;
    loop
        invariant
            n <= taken.len(),
            t == texts(taken@),
            t.len() == taken.len(),
            plain == (stem@.len() >= 2 && plain_text(stem@) && plain_text(ext@)),
            first_free(base@, stem@, ext@, t, 0) == first_free(base@, stem@, ext@, t, n as nat),
            forall|i: nat| i < n ==> t.contains(#[trigger] counted_path(base@, stem@, ext@, i)),
            plain ==> forall|i: nat|
                i < n ==> file_name_of(#[trigger] counted_path(base@, stem@, ext@, i)) == Some(
                    target_name(stem@, ext@, i),
                ),
        decreases taken.len() - n,
    {
        let name = target_file_name(stem, ext, n as u64);
        proof {
            if plain {
                lemma_target_name_plain(stem@, ext@, n as nat);
            }
        }
        let p = path_join(base, name.as_str());
        assert(p@ == counted_path(base@, stem@, ext@, n as nat));
        let used = is_taken(taken, &p);
        if !used {
            return Some(p);
        }
        if n >= taken.len() {
            proof {
                if plain {
                    assert forall|i: nat, j: nat|
                        i < n + 1 && j < n + 1 && i != j implies #[trigger] counted_path(base@, stem@, ext@, i)
                        != #[trigger] counted_path(base@, stem@, ext@, j) by {
                        lemma_target_name_injective(stem@, ext@, i, j);
                    }
                    lemma_pigeonhole(t, base@, stem@, ext@, (n + 1) as nat);
                }
            }
            return None;
        }
        n = n + 1;
    }
}

/// The directory a candidate's new file goes to: the output directory, or in
/// place the file's own directory (the empty path where it has none).
pub open spec fn target_base(c: ImageCandidate, mode: TargetMode) -> Seq<char> {
    match mode {
        TargetMode::InPlace => match parent_of(c.path@) {
            Some(p) => p,
            None => Seq::empty(),
        },
        TargetMode::CopyTo(p) => p@,
        TargetMode::MoveTo(p) => p@,
    }
}

/// A counter `[n]`: `[`, one or more ASCII digits, `]`.
pub open spec fn is_counter(r: Seq<char>) -> bool {
    &&& r.len() >= 3
    &&& r[0] == '['
    &&& r.last() == ']'
    &&& forall|i: int| 1 <= i < r.len() - 1 ==> is_ascii_digit(#[trigger] r[i])
}

/// A stem is `name` or `name` followed by a counter.
pub open spec fn named_like(stem: Seq<char>, name: Seq<char>) -> bool {
    stem == name || (stem.len() > name.len() && stem.take(name.len() as int) == name && is_counter(
        stem.skip(name.len() as int),
    ))
}

/// In place, a file whose stem already is `name-[WxH]`, possibly with a
/// counter, needs nothing.
pub open spec fn already_named(c: ImageCandidate, mode: TargetMode) -> bool {
    &&& mode is InPlace
    &&& file_stem_of(c.path@) matches Some(st) && named_like(st, stem_with_dims(c.cleaned_name@, c.dims))
}

/// Where the candidate's new file goes, given the paths already taken.
pub open spec fn target_of(c: ImageCandidate, mode: TargetMode, taken: Seq<Seq<char>>) -> Seq<char> {
    free_target(target_base(c, mode), stem_with_dims(c.cleaned_name@, c.dims), c.extension@, taken)
}

/// The action a candidate receives, given the paths already taken: none
/// when it is already named or when its target is taken too (every counter
/// tried was taken), a copy when copying to an output directory, a rename
/// otherwise.
pub open spec fn action_for(c: ImageCandidate, mode: TargetMode, taken: Seq<Seq<char>>) -> Option<
    ActionView,
> {
    if already_named(c, mode) || taken.contains(target_of(c, mode, taken)) {
        None
    } else {
        match mode {
            TargetMode::CopyTo(_) => Some(
                ActionView::Copy { from: c.path@, to: target_of(c, mode, taken) },
            ),
            _ => Some(ActionView::Rename { from: c.path@, to: target_of(c, mode, taken) }),
        }
    }
}

/// Where an action writes.
pub open spec fn action_target(a: ActionView) -> Seq<char> {
    match a {
        ActionView::Rename { to, .. } => to,
        ActionView::Copy { to, .. } => to,
    }
}

/// The actions for a sequence of candidates, in order, each target taken
/// from then on; with the paths taken at the end.
pub open spec fn plan_seq(s: Seq<ImageCandidate>, mode: TargetMode, taken: Seq<Seq<char>>) -> (
    Seq<ActionView>,
    Seq<Seq<char>>,
)
    decreases s.len(),
{
    if s.len() == 0 {
        (Seq::empty(), taken)
    } else {
        let prev = plan_seq(s.drop_last(), mode, taken);
        match action_for(s.last(), mode, prev.1) {
            Some(a) => (prev.0.push(a), prev.1.push(action_target(a))),
            None => prev,
        }
    }
}

/// The paths a sequence of actions writes.
pub open spec fn targets(acts: Seq<ActionView>) -> Seq<Seq<char>> {
    acts.map_values(|a: ActionView| action_target(a))
}

/// No action writes a path in `taken` or a path an earlier action writes.
pub open spec fn fresh_targets(acts: Seq<ActionView>, taken: Seq<Seq<char>>) -> bool {
    forall|j: int|
        0 <= j < acts.len() ==> !(taken + targets(acts.take(j))).contains(
            #[trigger] action_target(acts[j]),
        )
}

pub(crate) proof fn lemma_fresh_push(acts: Seq<ActionView>, taken: Seq<Seq<char>>, a: ActionView)
    requires
        fresh_targets(acts, taken),
        !(taken + targets(acts)).contains(action_target(a)),
    ensures
        fresh_targets(acts.push(a), taken),
        targets(acts.push(a)) == targets(acts).push(action_target(a)),
{
    let n = acts.push(a);
    assert(targets(n) =~= targets(acts).push(action_target(a)));
    assert forall|j: int| 0 <= j < n.len() implies !(taken + targets(n.take(j))).contains(
        #[trigger] action_target(n[j]),
    ) by {
        if j < acts.len() {
            assert(n.take(j) =~= acts.take(j));
            assert(n[j] == acts[j]);
        } else {
            assert(n.take(j) =~= acts);
        }
    }
}

pub(crate) proof fn lemma_fresh_concat(a: Seq<ActionView>, b: Seq<ActionView>, taken: Seq<Seq<char>>)
    requires
        fresh_targets(a, taken),
        fresh_targets(b, taken + targets(a)),
    ensures
        fresh_targets(a + b, taken),
        targets(a + b) == targets(a) + targets(b),
{
    let n = a + b;
    assert(targets(n) =~= targets(a) + targets(b));
    assert forall|j: int| 0 <= j < n.len() implies !(taken + targets(n.take(j))).contains(
        #[trigger] action_target(n[j]),
    ) by {
        if j < a.len() {
            assert(n.take(j) =~= a.take(j));
            assert(n[j] == a[j]);
        } else {
            let q = j - a.len();
            assert(n[j] == b[q]);
            assert(n.take(j) =~= a + b.take(q));
            assert(targets(a + b.take(q)) =~= targets(a) + targets(b.take(q)));
            assert(taken + targets(n.take(j)) =~= (taken + targets(a)) + targets(b.take(q)));
        }
    }
}

/// The views of a sequence of actions.
pub open spec fn views(v: Seq<Action>) -> Seq<ActionView> {
    v.map_values(|a: Action| a@)
}

fn is_named_like(stem: &str, name: &str) -> (b: bool)
    ensures
        b == named_like(stem@, name@),
{
    let a = chars_of(stem);
    let b = chars_of(name);
    let n = a.len();
    let m = b.len();
    if n < m {
        return false;
    }
    let mut i: usize = 0;
    while i < m
        invariant
            a@ == stem@,
            b@ == name@,
            n == a.len(),
            m == b.len(),
            m <= n,
            i <= m,
            forall|k: int| 0 <= k < i ==> a@[k] == b@[k],
        decreases m - i,
    {
        if a[i] != b[i] {
            assert(stem@.take(m as int)[i as int] != name@[i as int]);
            return false;
        }
        i = i + 1;
    }
    assert(stem@.take(m as int) =~= name@);
    if n == m {
        assert(stem@ =~= name@);
        return true;
    }
    let ghost r = stem@.skip(m as int);
    if n - m < 3 || a[m] != '[' || a[n - 1] != ']' {
        assert(r.len() < 3 || r[0] != '[' || r.last() != ']');
        assert(stem@.len() != name@.len());
        return false;
    }
    let mut j = m + 1;
    while j < n - 1
        invariant
            a@ == stem@,
            n == a.len(),
            m == name@.len(),
            n >= m + 3,
            m + 1 <= j <= n - 1,
            r == stem@.skip(m as int),
            forall|k: int| m + 1 <= k < j ==> is_ascii_digit(#[trigger] a@[k]),
        decreases n - 1 - j,
    {
        if !('0' <= a[j] && a[j] <= '9') {
            assert(r[j - m] == a@[j as int]);
            assert(!is_ascii_digit(r[j - m]));
            assert(1 <= j - m < r.len() - 1);
            assert(!is_counter(r));
            assert(stem@.len() != name@.len());
            return false;
        }
        j = j + 1;
    }
    assert forall|i: int| 1 <= i < r.len() - 1 implies is_ascii_digit(#[trigger] r[i]) by {
        assert(r[i] == a@[i + m]);
    }
    true
}

fn action_for_candidate(c: ImageCandidate, mode: &TargetMode, taken: &Vec<String>) -> (r: Option<
    Action,
>)
    ensures
        match r {
            Some(a) => action_for(c, *mode, texts(taken@)) == Some(a@),
            None => action_for(c, *mode, texts(taken@)) is None,
        },
{
    let stem = new_stem(c.cleaned_name.as_str(), c.dims);
    if let TargetMode::InPlace = mode {
        if let Some(current) = path_file_stem(c.path.as_str()) {
            if is_named_like(current.as_str(), stem.as_str()) {
                return None;
            }
        }
    }
    let to = match mode {
        TargetMode::CopyTo(p) => free_target_path(p.as_str(), stem.as_str(), c.extension.as_str(), taken),
        TargetMode::MoveTo(p) => free_target_path(p.as_str(), stem.as_str(), c.extension.as_str(), taken),
        TargetMode::InPlace => {
            let base = match path_parent(c.path.as_str()) {
                Some(p) => p,
                None => String::new(),
            };
            free_target_path(base.as_str(), stem.as_str(), c.extension.as_str(), taken)
        },
    };
    let to = match to {
        Some(p) => p,
        None => return None,
    };
    let relocation = Relocation { from: c.path, to };
    match mode {
        TargetMode::CopyTo(_) => Some(Action::Copy(relocation)),
        _ => Some(Action::Rename(relocation)),
    }
}

/// The key candidates of one name are ordered by: the pixel count.
pub open spec fn area_key(d: Dimensions) -> u64 {
    (d.width.0 as nat * d.height.0 as nat) as u64
}

fn area(d: Dimensions) -> (a: u64)
    ensures
        a == area_key(d),
{
    let w = d.width.0 as u64;
    let h = d.height.0 as u64;
    assert(w * h <= 0xffff_ffff_ffff_ffff) by (nonlinear_arith)
        requires
            w <= 0xffff_ffff,
            h <= 0xffff_ffff,
    ;
    w * h
}

/// Inserts `c` into `s` after every element, from the back, whose key is
/// not greater than that of `c`.
pub open spec fn insert_by_area(s: Seq<ImageCandidate>, c: ImageCandidate) -> Seq<ImageCandidate>
    decreases s.len(),
{
    if s.len() == 0 || area_key(s.last().dims) <= area_key(c.dims) {
        s.push(c)
    } else {
        insert_by_area(s.drop_last(), c).push(s.last())
    }
}

/// `s` sorted by `area_key`, candidates with equal keys in their input
/// order: what a stable `sort_by_key` gives.
pub open spec fn sorted_by_area(s: Seq<ImageCandidate>) -> Seq<ImageCandidate>
    decreases s.len(),
{
    if s.len() == 0 {
        s
    } else {
        insert_by_area(sorted_by_area(s.drop_last()), s.last())
    }
}

proof fn lemma_insert_at(s: Seq<ImageCandidate>, c: ImageCandidate, j: int)
    requires
        0 <= j <= s.len(),
        forall|i: int| j <= i < s.len() ==> area_key(#[trigger] s[i].dims) > area_key(c.dims),
        j == 0 || area_key(s[j - 1].dims) <= area_key(c.dims),
    ensures
        insert_by_area(s, c) == s.insert(j, c),
    decreases s.len(),
{
    if s.len() == j {
        assert(s.insert(j, c) =~= s.push(c));
    } else {
        lemma_insert_at(s.drop_last(), c, j);
        assert(s.insert(j, c) =~= s.drop_last().insert(j, c).push(s.last()));
    }
}

/// Sorts candidates by pixel count, keeping the order of equal counts.
pub fn sort_by_area(group: Vec<ImageCandidate>) -> (r: Vec<ImageCandidate>)
    ensures
        r@ == sorted_by_area(group@),
{
    let ghost g = group@;
    assert(g.len() == group.len());
    let mut rest = group;
    let mut out: Vec<ImageCandidate> = Vec::new();
    let mut k: usize = 0;
    assert(g.skip(0) =~= g);
    assert(g.take(0) =~= Seq::<ImageCandidate>::empty());
    while rest.len() > 0
        invariant
            k <= g.len(),
            g.len() <= usize::MAX,
            rest@ == g.skip(k as int),
            out@ == sorted_by_area(g.take(k as int)),
        decreases rest.len(),
    {
        let c = rest.remove(0);
        let key = area(c.dims);
        let mut j = out.len();
        while j > 0 && area(out[j - 1].dims) > key
            invariant
                j <= out.len(),
                key == area_key(c.dims),
                forall|i: int| j <= i < out.len() ==> area_key(#[trigger] out@[i].dims) > key,
            decreases j,
        {
            j = j - 1;
        }
        proof {
            lemma_insert_at(out@, c, j as int);
            assert(g.take(k + 1).drop_last() =~= g.take(k as int));
            assert(g.take(k + 1).last() == c);
            assert(rest@ =~= g.skip(k + 1));
        }
        out.insert(j, c);
        k = k + 1;
    }
    assert(g.take(k as int) =~= g);
    out
}

/// The actions for one group of candidates sharing a cleaned name: the group
/// sorted by pixel count, then each candidate's action in that order. Each
/// target avoids the paths in `taken` and is added to them.
pub fn build_actions(group: Vec<ImageCandidate>, mode: &TargetMode, taken: &mut Vec<String>) -> (r:
    Vec<Action>)
    ensures
        (views(r@), texts(final(taken)@)) == plan_seq(sorted_by_area(group@), *mode, texts(old(taken)@)),
        texts(final(taken)@) == texts(old(taken)@) + targets(views(r@)),
        fresh_targets(views(r@), texts(old(taken)@)),
{
    let ghost g = group@;
    let ghost t0 = texts(taken@);
    assert(g.len() == group.len());
    let sorted = if group.len() > 1 {
        sort_by_area(group)
    } else {
        proof {
            if g.len() == 1 {
                let e = Seq::<ImageCandidate>::empty();
                assert(g.drop_last() =~= e);
                assert(sorted_by_area(e) == e);
                assert(insert_by_area(e, g.last()) == e.push(g.last()));
                assert(e.push(g.last()) =~= g);
            }
        }
        group
    };
    let ghost s = sorted@;
    assert(s.len() == sorted.len());
    assert(s == sorted_by_area(g));
    let mut rest = sorted;
    let mut out: Vec<Action> = Vec::new();
    let mut k: usize = 0;
    assert(s.skip(0) =~= s);
    assert(s.take(0) =~= Seq::<ImageCandidate>::empty());
    assert((views(out@), texts(taken@)) =~= plan_seq(s.take(0), *mode, t0));
    assert(texts(taken@) =~= t0 + targets(views(out@)));
    while rest.len() > 0
        invariant
            k <= s.len(),
            s.len() <= usize::MAX,
            rest@ == s.skip(k as int),
            (views(out@), texts(taken@)) == plan_seq(s.take(k as int), *mode, t0),
            texts(taken@) == t0 + targets(views(out@)),
            fresh_targets(views(out@), t0),
        decreases rest.len(),
    {
        let c = rest.remove(0);
        proof {
            assert(s.take(k + 1).drop_last() =~= s.take(k as int));
            assert(s.take(k + 1).last() == c);
            assert(rest@ =~= s.skip(k + 1));
        }
        let ghost before = out@;
        let ghost tb = taken@;
        match action_for_candidate(c, mode, taken) {
            Some(a) => {
                let to = match &a {
                    Action::Rename(r) => r.to.clone(),
                    Action::Copy(r) => r.to.clone(),
                };
                out.push(a);
                taken.push(to);
                assert(views(out@) =~= views(before).push(a@));
                assert(texts(taken@) =~= texts(tb).push(action_target(a@)));
                proof {
                    assert(targets(views(out@)) =~= targets(views(before)).push(action_target(a@)));
                    lemma_fresh_push(views(before), t0, a@);
                }
            },
            None => {},
        }
        k = k + 1;
    }
    assert(s.take(k as int) =~= s);
    out
}

/// The cleaned name a group of candidates shares: that of its first one.
pub open spec fn group_key(g: Seq<ImageCandidate>) -> Seq<char> {
    g[0].cleaned_name@
}

/// Some group of `gs` has the name `key`.
pub open spec fn has_group(gs: Seq<Seq<ImageCandidate>>, key: Seq<char>) -> bool {
    exists|i: int| 0 <= i < gs.len() && #[trigger] group_key(gs[i]) == key
}

/// The position of the group named `key`.
pub open spec fn group_index(gs: Seq<Seq<ImageCandidate>>, key: Seq<char>) -> int {
    choose|i: int| 0 <= i < gs.len() && #[trigger] group_key(gs[i]) == key
}

/// `c` joins the end of the group of its name, or opens a new group at the end.
pub open spec fn add_to_groups(gs: Seq<Seq<ImageCandidate>>, c: ImageCandidate) -> Seq<
    Seq<ImageCandidate>,
> {
    if has_group(gs, c.cleaned_name@) {
        let i = group_index(gs, c.cleaned_name@);
        gs.update(i, gs[i].push(c))
    } else {
        gs.push(seq![c])
    }
}

/// The candidates grouped by cleaned name: groups in the order their names
/// first occur, each group in the order of the input.
pub open spec fn group_by_name(s: Seq<ImageCandidate>) -> Seq<Seq<ImageCandidate>>
    decreases s.len(),
{
    if s.len() == 0 {
        Seq::empty()
    } else {
        add_to_groups(group_by_name(s.drop_last()), s.last())
    }
}

/// Every group is nonempty and no two groups share a name.
pub open spec fn groups_wf(gs: Seq<Seq<ImageCandidate>>) -> bool {
    &&& forall|i: int| 0 <= i < gs.len() ==> #[trigger] gs[i].len() > 0
    &&& forall|i: int, j: int|
        0 <= i < gs.len() && 0 <= j < gs.len() && i != j ==> #[trigger] group_key(gs[i])
            != #[trigger] group_key(gs[j])
}

proof fn lemma_add_to_groups_wf(gs: Seq<Seq<ImageCandidate>>, c: ImageCandidate)
    requires
        groups_wf(gs),
    ensures
        groups_wf(add_to_groups(gs, c)),
{
    let r = add_to_groups(gs, c);
    if has_group(gs, c.cleaned_name@) {
        let i = group_index(gs, c.cleaned_name@);
        assert(group_key(r[i]) == group_key(gs[i]));
        assert forall|a: int| 0 <= a < r.len() implies group_key(#[trigger] r[a]) == group_key(gs[a]) by {
            if a == i {
                assert(r[a][0] == gs[a][0]);
            }
        }
    } else {
        assert forall|a: int| 0 <= a < gs.len() implies group_key(#[trigger] r[a]) != c.cleaned_name@ by {
            assert(r[a] == gs[a]);
        }
        assert(group_key(r[gs.len() as int]) == c.cleaned_name@);
    }
}

pub(crate) proof fn lemma_group_by_name_wf(s: Seq<ImageCandidate>)
    ensures
        groups_wf(group_by_name(s)),
    decreases s.len(),
{
    if s.len() > 0 {
        lemma_group_by_name_wf(s.drop_last());
        lemma_add_to_groups_wf(group_by_name(s.drop_last()), s.last());
    }
}

/// The contents of each group.
pub open spec fn contents(v: Seq<Vec<ImageCandidate>>) -> Seq<Seq<ImageCandidate>> {
    v.map_values(|g: Vec<ImageCandidate>| g@)
}

/// Groups candidates by cleaned name, as `group_by_name` describes.
pub fn group_candidates(candidates: Vec<ImageCandidate>) -> (groups: Vec<Vec<ImageCandidate>>)
    ensures
        contents(groups@) == group_by_name(candidates@),
{
    let ghost s = candidates@;
    assert(s.len() == candidates.len());
    let mut rest = candidates;
    let mut groups: Vec<Vec<ImageCandidate>> = Vec::new();
    let mut k: usize = 0;
    assert(s.skip(0) =~= s);
    assert(s.take(0) =~= Seq::<ImageCandidate>::empty());
    assert(contents(groups@) =~= group_by_name(s.take(0)));
    while rest.len() > 0
        invariant
            k <= s.len(),
            s.len() <= usize::MAX,
            rest@ == s.skip(k as int),
            contents(groups@) == group_by_name(s.take(k as int)),
        decreases rest.len(),
    {
        let c = rest.remove(0);
        let ghost gs = contents(groups@);
        proof {
            lemma_group_by_name_wf(s.take(k as int));
            assert(s.take(k + 1).drop_last() =~= s.take(k as int));
            assert(s.take(k + 1).last() == c);
            assert(rest@ =~= s.skip(k + 1));
        }
        assert(gs.len() == groups.len());
        assert forall|m: int| 0 <= m < groups.len() implies (#[trigger] groups@[m])@.len() > 0 by {
            assert(gs[m] == groups@[m]@);
        }
        let mut i: usize = 0;
        while i < groups.len() && !(groups[i][0].cleaned_name == c.cleaned_name)
            invariant
                i <= groups.len(),
                gs == contents(groups@),
                groups_wf(gs),
                forall|m: int| 0 <= m < groups.len() ==> (#[trigger] groups@[m])@.len() > 0,
                forall|m: int| 0 <= m < i ==> group_key(#[trigger] gs[m]) != c.cleaned_name@,
            decreases groups.len() - i,
        {
            assert(gs[i as int] == groups@[i as int]@);
            i = i + 1;
        }
        if i < groups.len() {
            proof {
                assert(gs[i as int] == groups@[i as int]@);
                assert(group_key(gs[i as int]) == c.cleaned_name@);
                assert(has_group(gs, c.cleaned_name@));
                let j = group_index(gs, c.cleaned_name@);
                assert(j == i);
            }
            let mut g = groups.remove(i);
            g.push(c);
            groups.insert(i, g);
            assert(contents(groups@) =~= gs.update(i as int, gs[i as int].push(c)));
        } else {
            proof {
                assert forall|m: int| 0 <= m < gs.len() implies group_key(#[trigger] gs[m])
                    != c.cleaned_name@ by {}
            }
            let mut g: Vec<ImageCandidate> = Vec::new();
            g.push(c);
            groups.push(g);
            assert(contents(groups@) =~= gs.push(seq![c]));
        }
        k = k + 1;
    }
    assert(s.take(k as int) =~= s);
    groups
}

/// The actions for groups of candidates, group after group, each group
/// avoiding the targets of the groups before it; with the paths taken at
/// the end.
pub open spec fn plan_groups(gs: Seq<Seq<ImageCandidate>>, mode: TargetMode, taken: Seq<Seq<char>>) -> (
    Seq<ActionView>,
    Seq<Seq<char>>,
)
    decreases gs.len(),
{
    if gs.len() == 0 {
        (Seq::empty(), taken)
    } else {
        let prev = plan_groups(gs.drop_last(), mode, taken);
        let last = plan_seq(sorted_by_area(gs.last()), mode, prev.1);
        (prev.0 + last.0, last.1)
    }
}

/// The actions of a run: the candidates grouped by cleaned name, each group
/// sorted by pixel count, and each candidate given its action, no target
/// being a path in `taken` or the target of an earlier action.
pub open spec fn planned_actions(s: Seq<ImageCandidate>, mode: TargetMode, taken: Seq<Seq<char>>) -> Seq<
    ActionView,
> {
    plan_groups(group_by_name(s), mode, taken).0
}

/// Plans the actions of a run over all candidates found; `taken` holds the
/// paths that exist already.
pub fn plan_actions(candidates: Vec<ImageCandidate>, mode: &TargetMode, taken: Vec<String>) -> (r: Vec<
    Action,
>)
    ensures
        views(r@) == planned_actions(candidates@, *mode, texts(taken@)),
        fresh_targets(views(r@), texts(taken@)),
{
    let ghost t0 = texts(taken@);
    let mut taken = taken;
    let groups = group_candidates(candidates);
    let ghost gs = contents(groups@);
    assert(gs.len() == groups.len());
    let mut rest = groups;
    let mut out: Vec<Action> = Vec::new();
    let mut k: usize = 0;
    assert(contents(rest@) =~= gs.skip(0));
    assert((views(out@), texts(taken@)) =~= plan_groups(gs.take(0), *mode, t0));
    assert(texts(taken@) =~= t0 + targets(views(out@)));
    while rest.len() > 0
        invariant
            k <= gs.len(),
            gs.len() <= usize::MAX,
            contents(rest@) == gs.skip(k as int),
            (views(out@), texts(taken@)) == plan_groups(gs.take(k as int), *mode, t0),
            texts(taken@) == t0 + targets(views(out@)),
            fresh_targets(views(out@), t0),
        decreases rest.len(),
    {
        let ghost old_rest = rest@;
        assert(contents(old_rest).len() == old_rest.len());
        assert(contents(old_rest)[0] == old_rest[0]@);
        let g = rest.remove(0);
        proof {
            assert(gs.take(k + 1).drop_last() =~= gs.take(k as int));
            assert(gs.take(k + 1).last() == g@);
            assert forall|m: int| 0 <= m < rest@.len() implies #[trigger] contents(rest@)[m] == gs.skip(
                k + 1,
            )[m] by {
                assert(rest@[m] == old_rest[m + 1]);
                assert(contents(old_rest)[m + 1] == old_rest[m + 1]@);
            }
            assert(contents(rest@) =~= gs.skip(k + 1));
        }
        let ghost before = out@;
        let ghost tb = texts(taken@);
        let mut acts = build_actions(g, mode, &mut taken);
        let ghost added = acts@;
        out.append(&mut acts);
        assert(views(out@) =~= views(before) + views(added));
        proof {
            assert(targets(views(out@)) =~= targets(views(before)) + targets(views(added)));
            assert(texts(taken@) =~= t0 + targets(views(out@)));
            lemma_fresh_concat(views(before), views(added), t0);
        }
        k = k + 1;
    }
    assert(gs.take(k as int) =~= gs);
    out
}

} // verus!
