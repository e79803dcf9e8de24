//! Properties of the library as a whole, proved over the specifications
//! that its functions' contracts use.

use vstd::prelude::*;

use crate::clean::{
    clean_step, cleaned, cleaning_is_idempotent, counter_start, lemma_clean_step_shrinks, digits_before, is_ascii_digit,
    label_before, label_prefix_len, settle,
};
use crate::paths::{ext_part, file_name_of, file_stem_of, joined, last_dot, stem_part};
use crate::model::{ActionView, ImageCandidate, TargetMode};
use crate::noise::{
    digits_from, has_noise, is_digit, is_space, lemma_strip_from_len, marker_at, noise_at, number_at, resolution_at, spaces_from,
    strip, strip_from, with_id,
};
use crate::plan::{
    action_for, action_target, add_to_groups, ext_listed, free_target, already_named, area_key, counted_path, first_free,
    fresh_targets, group_by_name, group_index, group_key, groups_wf, has_group, insert_by_area,
    is_counter, named_like, plan_groups, plan_seq, planned_actions, sorted_by_area, stem_with_dims,
    target_base, target_name, target_of, targets,
};
use crate::text::{
    decimal, digit_char, lemma_decimal_ascii, ascii_lower_code, eq_ignore_ascii_case_spec, is_trim_char, is_trimmed, trim_both, trim_end,
    trim_start,
};

verus! {

broadcast use vstd::seq_lib::group_seq_properties;

/// Candidates whose pixel count is `k`.
pub open spec fn with_area(k: u64) -> spec_fn(ImageCandidate) -> bool {
    |c: ImageCandidate| area_key(c.dims) == k
}

/// Candidates in `s` never decrease in pixel count.
pub open spec fn ordered_by_area(s: Seq<ImageCandidate>) -> bool {
    forall|i: int, j: int| 0 <= i <= j < s.len() ==> area_key(#[trigger] s[i].dims) <= area_key(#[trigger] s[j].dims)
}

proof fn lemma_filter_push(s: Seq<ImageCandidate>, x: ImageCandidate, p: spec_fn(ImageCandidate) -> bool)
    ensures
        s.push(x).filter(p) == (if p(x) {
            s.filter(p).push(x)
        } else {
            s.filter(p)
        }),
{
    reveal(Seq::filter);
    assert(s.push(x).drop_last() =~= s);
}

proof fn lemma_insert_len(t: Seq<ImageCandidate>, c: ImageCandidate)
    ensures
        insert_by_area(t, c).len() == t.len() + 1,
    decreases t.len(),
{
    if t.len() > 0 && area_key(t.last().dims) > area_key(c.dims) {
        lemma_insert_len(t.drop_last(), c);
    }
}

proof fn lemma_insert_bound(t: Seq<ImageCandidate>, c: ImageCandidate, b: u64)
    requires
        forall|i: int| 0 <= i < t.len() ==> area_key(#[trigger] t[i].dims) <= b,
        area_key(c.dims) <= b,
    ensures
        forall|i: int| 0 <= i < insert_by_area(t, c).len() ==> area_key(#[trigger] insert_by_area(t, c)[i].dims) <= b,
    decreases t.len(),
{
    lemma_insert_len(t, c);
    if t.len() > 0 && area_key(t.last().dims) > area_key(c.dims) {
        lemma_insert_bound(t.drop_last(), c, b);
        let r = insert_by_area(t.drop_last(), c);
        assert forall|i: int| 0 <= i < r.push(t.last()).len() implies area_key(#[trigger] r.push(t.last())[i].dims) <= b by {
            if i < r.len() {
                assert(r.push(t.last())[i] == r[i]);
            }
        }
    }
}

proof fn lemma_insert_ordered(t: Seq<ImageCandidate>, c: ImageCandidate)
    requires
        ordered_by_area(t),
    ensures
        ordered_by_area(insert_by_area(t, c)),
    decreases t.len(),
{
    lemma_insert_len(t, c);
    if t.len() == 0 || area_key(t.last().dims) <= area_key(c.dims) {
        let r = t.push(c);
        assert forall|i: int, j: int| 0 <= i <= j < r.len() implies area_key(#[trigger] r[i].dims) <= area_key(#[trigger] r[j].dims) by {
            if j == t.len() && i < t.len() {
                assert(area_key(t[i].dims) <= area_key(t[t.len() - 1].dims));
            }
        }
    } else {
        let d = t.drop_last();
        let l = t.last();
        assert(ordered_by_area(d));
        lemma_insert_ordered(d, c);
        assert forall|i: int| 0 <= i < d.len() implies area_key(#[trigger] d[i].dims) <= area_key(l.dims) by {
            assert(area_key(t[i].dims) <= area_key(t[t.len() - 1].dims));
        }
        lemma_insert_bound(d, c, area_key(l.dims));
        let r = insert_by_area(d, c);
        let r2 = r.push(l);
        assert forall|i: int, j: int| 0 <= i <= j < r2.len() implies area_key(#[trigger] r2[i].dims) <= area_key(#[trigger] r2[j].dims) by {
            if j < r.len() {
                assert(r2[i] == r[i] && r2[j] == r[j]);
            } else if i < r.len() {
                assert(r2[i] == r[i]);
            }
        }
    }
}

proof fn lemma_insert_multiset(t: Seq<ImageCandidate>, c: ImageCandidate)
    ensures
        insert_by_area(t, c).to_multiset() == t.to_multiset().insert(c),
    decreases t.len(),
{
    if t.len() > 0 && area_key(t.last().dims) > area_key(c.dims) {
        let d = t.drop_last();
        lemma_insert_multiset(d, c);
        assert(d.push(t.last()) =~= t);
        assert(insert_by_area(d, c).push(t.last()).to_multiset() =~= insert_by_area(d, c).to_multiset().insert(t.last()));
        assert(t.to_multiset() =~= d.to_multiset().insert(t.last()));
    }
}

proof fn lemma_insert_filter(t: Seq<ImageCandidate>, c: ImageCandidate, k: u64)
    ensures
        insert_by_area(t, c).filter(with_area(k)) == (if area_key(c.dims) == k {
            t.filter(with_area(k)).push(c)
        } else {
            t.filter(with_area(k))
        }),
    decreases t.len(),
{
    let p = with_area(k);
    if t.len() == 0 || area_key(t.last().dims) <= area_key(c.dims) {
        lemma_filter_push(t, c, p);
    } else {
        let d = t.drop_last();
        lemma_insert_filter(d, c, k);
        lemma_filter_push(insert_by_area(d, c), t.last(), p);
        lemma_filter_push(d, t.last(), p);
        assert(d.push(t.last()) =~= t);
    }
}

/// Sorting by pixel count orders the candidates by it.
pub proof fn sorted_by_area_is_ordered(s: Seq<ImageCandidate>)
    ensures
        ordered_by_area(sorted_by_area(s)),
    decreases s.len(),
{
    if s.len() > 0 {
        sorted_by_area_is_ordered(s.drop_last());
        lemma_insert_ordered(sorted_by_area(s.drop_last()), s.last());
    }
}

/// The number of pixels of an image of dimensions `d`.
pub open spec fn pixel_count(d: crate::model::Dimensions) -> int {
    d.width.0 as int * d.height.0 as int
}

proof fn lemma_area_key_is_pixel_count(d: crate::model::Dimensions)
    ensures
        area_key(d) as int == pixel_count(d),
{
    let w = d.width.0 as int;
    let h = d.height.0 as int;
    assert(0 <= w * h <= 0xffff_ffff_ffff_ffff) by (nonlinear_arith)
        requires
            0 <= w <= 0xffff_ffff,
            0 <= h <= 0xffff_ffff,
    ;
}

/// After sorting, width times height never decreases along the sequence.
pub proof fn sorted_by_area_orders_by_pixel_count(s: Seq<ImageCandidate>)
    ensures
        forall|i: int, j: int|
            0 <= i <= j < sorted_by_area(s).len() ==> pixel_count(#[trigger] sorted_by_area(s)[i].dims)
                <= pixel_count(#[trigger] sorted_by_area(s)[j].dims),
{
    sorted_by_area_is_ordered(s);
    let t = sorted_by_area(s);
    assert forall|i: int, j: int| 0 <= i <= j < t.len() implies pixel_count(#[trigger] t[i].dims) <= pixel_count(
        #[trigger] t[j].dims,
    ) by {
        lemma_area_key_is_pixel_count(t[i].dims);
        lemma_area_key_is_pixel_count(t[j].dims);
        assert(area_key(t[i].dims) <= area_key(t[j].dims));
    }
}

/// Sorting by pixel count keeps every candidate and adds none.
pub proof fn sorted_by_area_is_permutation(s: Seq<ImageCandidate>)
    ensures
        sorted_by_area(s).to_multiset() == s.to_multiset(),
        sorted_by_area(s).len() == s.len(),
    decreases s.len(),
{
    if s.len() > 0 {
        sorted_by_area_is_permutation(s.drop_last());
        lemma_insert_multiset(sorted_by_area(s.drop_last()), s.last());
        lemma_insert_len(sorted_by_area(s.drop_last()), s.last());
        assert(s.drop_last().push(s.last()) =~= s);
    }
}

/// Sorting by pixel count is stable: the candidates of any one pixel count
/// keep their input order.
pub proof fn sorted_by_area_is_stable(s: Seq<ImageCandidate>, k: u64)
    ensures
        sorted_by_area(s).filter(with_area(k)) == s.filter(with_area(k)),
    decreases s.len(),
{
    if s.len() > 0 {
        sorted_by_area_is_stable(s.drop_last(), k);
        lemma_insert_filter(sorted_by_area(s.drop_last()), s.last(), k);
        lemma_filter_push(s.drop_last(), s.last(), with_area(k));
        assert(s.drop_last().push(s.last()) =~= s);
    }
}

/// Candidates whose cleaned name is `key`.
pub open spec fn with_name(key: Seq<char>) -> spec_fn(ImageCandidate) -> bool {
    |c: ImageCandidate| c.cleaned_name@ == key
}

/// The number of candidates over all groups.
pub open spec fn total_len(gs: Seq<Seq<ImageCandidate>>) -> nat
    decreases gs.len(),
{
    if gs.len() == 0 {
        0
    } else {
        total_len(gs.drop_last()) + gs.last().len()
    }
}

proof fn lemma_filter_none(s: Seq<ImageCandidate>, p: spec_fn(ImageCandidate) -> bool)
    requires
        forall|i: int| 0 <= i < s.len() ==> !p(#[trigger] s[i]),
    ensures
        s.filter(p) == Seq::<ImageCandidate>::empty(),
    decreases s.len(),
{
    reveal(Seq::filter);
    if s.len() > 0 {
        lemma_filter_none(s.drop_last(), p);
    }
}

proof fn lemma_total_len_update(gs: Seq<Seq<ImageCandidate>>, i: int, g: Seq<ImageCandidate>)
    requires
        0 <= i < gs.len(),
    ensures
        total_len(gs.update(i, g)) == total_len(gs) - gs[i].len() + g.len(),
    decreases gs.len(),
{
    let u = gs.update(i, g);
    if i == gs.len() - 1 {
        assert(u.drop_last() =~= gs.drop_last());
    } else {
        lemma_total_len_update(gs.drop_last(), i, g);
        assert(u.drop_last() =~= gs.drop_last().update(i, g));
    }
}

/// Grouping by cleaned name partitions the candidates: the groups are
/// nonempty and carry distinct names, each group holds exactly the
/// candidates of its name in their input order, every candidate's name
/// has a group, and no candidate is lost or repeated.
pub proof fn group_by_name_partitions(s: Seq<ImageCandidate>)
    ensures
        groups_wf(group_by_name(s)),
        forall|i: int|
            0 <= i < group_by_name(s).len() ==> #[trigger] group_by_name(s)[i] == s.filter(
                with_name(group_key(group_by_name(s)[i])),
            ),
        forall|k: int| 0 <= k < s.len() ==> has_group(group_by_name(s), #[trigger] s[k].cleaned_name@),
        total_len(group_by_name(s)) == s.len(),
    decreases s.len(),
{
    reveal(Seq::filter);
    if s.len() > 0 {
        let d = s.drop_last();
        let c = s.last();
        let gs = group_by_name(d);
        let r = add_to_groups(gs, c);
        group_by_name_partitions(d);
        assert(d.push(c) =~= s);
        if has_group(gs, c.cleaned_name@) {
            let i = group_index(gs, c.cleaned_name@);
            lemma_total_len_update(gs, i, gs[i].push(c));
            assert forall|j: int| 0 <= j < r.len() implies #[trigger] r[j] == s.filter(with_name(group_key(r[j]))) by {
                lemma_filter_push(d, c, with_name(group_key(r[j])));
                if j == i {
                    assert(r[j][0] == gs[j][0]);
                } else {
                    assert(r[j] == gs[j]);
                }
            }
            assert forall|k: int| 0 <= k < s.len() implies has_group(r, #[trigger] s[k].cleaned_name@) by {
                if k < d.len() {
                    assert(d[k] == s[k]);
                    let m = choose|m: int| 0 <= m < gs.len() && #[trigger] group_key(gs[m]) == d[k].cleaned_name@;
                    assert(group_key(r[m]) == group_key(gs[m])) by {
                        if m == i {
                            assert(r[m][0] == gs[m][0]);
                        }
                    }
                } else {
                    assert(group_key(r[i]) == group_key(gs[i])) by {
                        assert(r[i][0] == gs[i][0]);
                    }
                }
            }
        } else {
            assert(r.drop_last() =~= gs);
            assert forall|k: int| 0 <= k < d.len() implies !with_name(c.cleaned_name@)(#[trigger] d[k]) by {
                let m = choose|m: int| 0 <= m < gs.len() && #[trigger] group_key(gs[m]) == d[k].cleaned_name@;
            }
            lemma_filter_none(d, with_name(c.cleaned_name@));
            assert forall|j: int| 0 <= j < r.len() implies #[trigger] r[j] == s.filter(with_name(group_key(r[j]))) by {
                lemma_filter_push(d, c, with_name(group_key(r[j])));
                if j == gs.len() {
                    assert(seq![c] =~= Seq::<ImageCandidate>::empty().push(c));
                } else {
                    assert(r[j] == gs[j]);
                }
            }
            assert forall|k: int| 0 <= k < s.len() implies has_group(r, #[trigger] s[k].cleaned_name@) by {
                if k < d.len() {
                    assert(d[k] == s[k]);
                    let m = choose|m: int| 0 <= m < gs.len() && #[trigger] group_key(gs[m]) == d[k].cleaned_name@;
                    assert(r[m] == gs[m]);
                } else {
                    assert(group_key(r[gs.len() as int]) == c.cleaned_name@);
                }
            }
        }
        crate::plan::lemma_group_by_name_wf(s);
    }
}

proof fn lemma_trim_start_of_trimmed(s: Seq<char>)
    requires
        s.len() > 0 ==> !is_trim_char(s[0]),
    ensures
        trim_start(s) == s,
{
}

proof fn lemma_trim_end_of_trimmed(s: Seq<char>)
    requires
        s.len() > 0 ==> !is_trim_char(s.last()),
    ensures
        trim_end(s) == s,
{
}

proof fn lemma_trim_start_shape(s: Seq<char>)
    ensures
        trim_start(s).len() > 0 ==> !is_trim_char(trim_start(s)[0]),
        exists|k: int| 0 <= k <= s.len() && trim_start(s) == s.skip(k),
    decreases s.len(),
{
    if s.len() > 0 && is_trim_char(s[0]) {
        lemma_trim_start_shape(s.drop_first());
        let k = choose|k: int| 0 <= k <= s.drop_first().len() && trim_start(s.drop_first()) == s.drop_first().skip(k);
        assert(s.drop_first().skip(k) =~= s.skip(k + 1));
    } else {
        assert(s.skip(0) =~= s);
    }
}

proof fn lemma_trim_end_keeps_front(s: Seq<char>)
    requires
        s.len() > 0 ==> !is_trim_char(s[0]),
    ensures
        trim_end(s).len() > 0 ==> !is_trim_char(trim_end(s)[0]) && !is_trim_char(trim_end(s).last()),
        trim_end(s).len() > 0 ==> trim_end(s)[0] == s[0],
    decreases s.len(),
{
    if s.len() > 0 && is_trim_char(s.last()) {
        let d = s.drop_last();
        if d.len() > 0 {
            assert(d[0] == s[0]);
        }
        lemma_trim_end_keeps_front(d);
    }
}

/// Trimming leaves neither end a separator, and trimming twice is
/// trimming once.
pub proof fn trim_is_idempotent(s: Seq<char>)
    ensures
        is_trimmed(trim_both(s)),
        trim_both(trim_both(s)) == trim_both(s),
{
    lemma_trim_start_shape(s);
    let f = trim_start(s);
    lemma_trim_end_keeps_front(f);
    let t = trim_both(s);
    lemma_trim_start_of_trimmed(t);
    lemma_trim_end_of_trimmed(t);
}

/// A cleaned name is never empty for a nonempty stem.
pub proof fn cleaned_name_is_never_empty(stem: Seq<char>)
    ensures
        stem.len() > 0 ==> cleaned(stem).len() > 0,
    decreases stem.len(),
{
    let t = clean_step(stem);
    if !(t == stem || t.len() == 0 || t.len() >= stem.len()) {
        cleaned_name_is_never_empty(t);
    }
}

/// A cleaned name is the stem itself or has no separator at either end.
pub proof fn cleaned_name_is_stem_or_trimmed(stem: Seq<char>)
    ensures
        cleaned(stem) == stem || is_trimmed(cleaned(stem)),
    decreases stem.len(),
{
    let t = clean_step(stem);
    if !(t == stem || t.len() == 0 || t.len() >= stem.len()) {
        cleaned_name_is_stem_or_trimmed(t);
        match label_prefix_len(stem) {
            Some(p) => {
                trim_is_idempotent(stem.take(p));
                trim_is_idempotent(strip(stem));
            },
            None => {
                trim_is_idempotent(strip(stem));
            },
        }
    }
}

/// Matching ignoring ASCII case is an equivalence: reflexive, symmetric and
/// transitive.
pub proof fn eq_ignore_ascii_case_is_equivalence(a: Seq<char>, b: Seq<char>, c: Seq<char>)
    ensures
        eq_ignore_ascii_case_spec(a, a),
        eq_ignore_ascii_case_spec(a, b) ==> eq_ignore_ascii_case_spec(b, a),
        eq_ignore_ascii_case_spec(a, b) && eq_ignore_ascii_case_spec(b, c)
            ==> eq_ignore_ascii_case_spec(a, c),
{
    if eq_ignore_ascii_case_spec(a, b) {
        assert forall|i: int| 0 <= i < b.len() implies ascii_lower_code(#[trigger] b[i]) == ascii_lower_code(a[i]) by {
            assert(ascii_lower_code(a[i]) == ascii_lower_code(b[i]));
        }
        if eq_ignore_ascii_case_spec(b, c) {
            assert forall|i: int| 0 <= i < a.len() implies ascii_lower_code(#[trigger] a[i]) == ascii_lower_code(c[i]) by {
                assert(ascii_lower_code(a[i]) == ascii_lower_code(b[i]));
                assert(ascii_lower_code(b[i]) == ascii_lower_code(c[i]));
            }
        }
    }
}

/// Two characters are the same up to ASCII case: equal, or an upper-case
/// ASCII letter and the same letter in lower case (32 code points higher).
pub open spec fn same_up_to_ascii_case(x: char, y: char) -> bool {
    ||| x == y
    ||| ('A' <= x && x <= 'Z' && y as u32 == x as u32 + 32)
    ||| ('A' <= y && y <= 'Z' && x as u32 == y as u32 + 32)
}

/// Two texts are the same up to ASCII case, character by character.
pub open spec fn texts_same_up_to_ascii_case(a: Seq<char>, b: Seq<char>) -> bool {
    &&& a.len() == b.len()
    &&& forall|i: int| 0 <= i < a.len() ==> same_up_to_ascii_case(#[trigger] a[i], b[i])
}

proof fn lemma_char_case(x: char, y: char)
    ensures
        (ascii_lower_code(x) == ascii_lower_code(y)) <==> same_up_to_ascii_case(x, y),
{
    if x as u32 == y as u32 {
        assert(x == y);
    }
}

/// Matching ignoring ASCII case holds exactly when the two texts have one
/// length and at each position the same character, or the two cases of one
/// ASCII letter: every letter `A` to `Z` matches its lower case, and nothing
/// else is folded.
pub proof fn ascii_case_matching_folds_exactly_the_letters(a: Seq<char>, b: Seq<char>)
    ensures
        eq_ignore_ascii_case_spec(a, b) <==> texts_same_up_to_ascii_case(a, b),
{
    assert forall|i: int| 0 <= i < a.len() && i < b.len() implies (ascii_lower_code(#[trigger] a[i])
        == ascii_lower_code(b[i])) <==> same_up_to_ascii_case(a[i], b[i]) by {
        lemma_char_case(a[i], b[i]);
    }
}

/// An extension is listed exactly when some element of the list, the last
/// one included, is the same text up to ASCII case.
pub proof fn an_extension_is_listed_when_any_element_matches(exts: Seq<String>, ext: Seq<char>)
    ensures
        ext_listed(exts, ext) <==> exists|i: int|
            0 <= i < exts.len() && texts_same_up_to_ascii_case(#[trigger] exts[i]@, ext),
        forall|i: int| 0 <= i < exts.len() && #[trigger] exts[i]@ == ext ==> ext_listed(exts, ext),
{
    assert forall|i: int| 0 <= i < exts.len() implies eq_ignore_ascii_case_spec(#[trigger] exts[i]@, ext)
        == texts_same_up_to_ascii_case(exts[i]@, ext) by {
        ascii_case_matching_folds_exactly_the_letters(exts[i]@, ext);
    }
    assert forall|i: int| 0 <= i < exts.len() && #[trigger] exts[i]@ == ext implies ext_listed(exts, ext) by {
        assert(texts_same_up_to_ascii_case(exts[i]@, ext));
    }
}

/// An ASCII decimal digit.
pub open spec fn ascii_digit(c: char) -> bool {
    '0' <= c && c <= '9'
}

/// A run of three to five ASCII digits, as a width or height is written.
pub open spec fn dimension_digits(w: Seq<char>) -> bool {
    &&& 3 <= w.len() <= 5
    &&& forall|i: int| 0 <= i < w.len() ==> ascii_digit(#[trigger] w[i])
}

/// Words: ASCII letters, spaces, `-` and `_` only.
pub open spec fn plain_words(p: Seq<char>) -> bool {
    forall|i: int|
        0 <= i < p.len() ==> ('a' <= #[trigger] p[i] && p[i] <= 'z') || ('A' <= p[i] && p[i] <= 'Z')
            || p[i] == ' ' || p[i] == '-' || p[i] == '_'
}

proof fn lemma_digits_block(s: Seq<char>, i: int, k: int)
    requires
        0 <= i,
        0 <= k,
        i + k <= s.len(),
        forall|j: int| i <= j < i + k ==> ascii_digit(#[trigger] s[j]),
    ensures
        digits_from(s, i) >= k,
        i + k == s.len() || !is_digit(s[i + k]) ==> digits_from(s, i) == k,
    decreases k,
{
    if k > 0 {
        lemma_digits_block(s, i + 1, k - 1);
        assert(ascii_digit(s[i]));
    }
}

#[verifier::spinoff_prover]
proof fn lemma_resolution_at_run(s: Seq<char>, i: int, w: Seq<char>, t: char, h: Seq<char>)
    requires
        dimension_digits(w),
        dimension_digits(h),
        t == 'x' || t == 'X' || t == '×',
        0 <= i,
        i + w.len() + 1 + h.len() <= s.len(),
        s.subrange(i, i + w.len() + 1 + h.len()) == w + seq![t] + h,
        i == 0 || !is_digit(s[i - 1]),
    ensures
        resolution_at(s, i) is Some,
        i + w.len() + 1 + h.len() == s.len() ==> resolution_at(s, i) == Some(s.len() as int),
{
    let r = w + seq![t] + h;
    let k = i + w.len();
    assert forall|j: int| i <= j < k implies ascii_digit(#[trigger] s[j]) by {
        assert(s[j] == r[j - i]);
    }
    assert(s[k] == r[w.len() as int]);
    assert(s[i] == r[0]);
    lemma_digits_block(s, i, w.len() as int);
    assert(spaces_from(s, k) == 0);
    assert forall|j: int| k + 1 <= j < k + 1 + h.len() implies ascii_digit(#[trigger] s[j]) by {
        assert(s[j] == r[j - i]);
    }
    assert(s[k + 1] == r[w.len() + 1int]);
    assert(spaces_from(s, k + 1) == 0);
    lemma_digits_block(s, k + 1, h.len() as int);
}

proof fn lemma_strip_words(s: Seq<char>, n: int, i: int)
    requires
        0 <= i <= n <= s.len(),
        plain_words(s.take(n)),
        forall|k: int| 0 <= k < s.len() ==> #[trigger] s[k] != '(',
        strip_from(s, n) == Seq::<char>::empty(),
    ensures
        strip_from(s, i) == s.subrange(i, n),
    decreases n - i,
{
    if i < n {
        lemma_strip_words(s, n, i + 1);
        assert(s.take(n)[i] == s[i]);
        assert(!is_digit(s[i]));
        assert(digits_from(s, i) == 0);
        assert(resolution_at(s, i) is None);
        assert(number_at(s, i) is None);
        assert(marker_at(s, i) is None);
        assert(seq![s[i]] + s.subrange(i + 1, n) =~= s.subrange(i, n));
    } else {
        assert(s.subrange(i, n) =~= Seq::<char>::empty());
    }
}

/// A resolution `WxH` (also `WXH` or `W×H`), with `W` and `H` runs of three
/// to five ASCII digits, is noise wherever it stands after words: some
/// noise occurs in any text holding it, and noise removal takes it off a
/// name of words, leaving the words.
#[verifier::spinoff_prover]
pub proof fn resolutions_are_noise(p: Seq<char>, w: Seq<char>, t: char, h: Seq<char>, q: Seq<char>)
    requires
        plain_words(p),
        dimension_digits(w),
        dimension_digits(h),
        t == 'x' || t == 'X' || t == '×',
    ensures
        has_noise(p + w + seq![t] + h + q),
        strip(p + w + seq![t] + h) == p,
{
    let i = p.len() as int;
    let r = w + seq![t] + h;
    let s1 = p + w + seq![t] + h + q;
    assert(s1.subrange(i, i + r.len()) =~= r);
    if i > 0 {
        assert(s1[i - 1] == p[i - 1]);
    }
    lemma_resolution_at_run(s1, i, w, t, h);
    assert(noise_at(s1, i) is Some);
    let s2 = p + w + seq![t] + h;
    assert(s2.subrange(i, i + r.len()) =~= r);
    if i > 0 {
        assert(s2[i - 1] == p[i - 1]);
    }
    lemma_resolution_at_run(s2, i, w, t, h);
    assert(with_id(s2, s2.len() as int) == s2.len());
    assert(strip_from(s2, s2.len() as int) == Seq::<char>::empty());
    assert(strip_from(s2, i) == strip_from(s2, s2.len() as int));
    assert(s2.take(i) =~= p);
    assert forall|k: int| 0 <= k < s2.len() implies #[trigger] s2[k] != '(' by {
        if k < i {
            assert(s2[k] == p[k]);
        } else {
            assert(s2[k] == r[k - i]);
        }
    }
    lemma_strip_words(s2, i, 0);
    assert(s2.subrange(0, i) =~= p);
}

proof fn lemma_words_have_no_noise(p: Seq<char>)
    requires
        plain_words(p),
    ensures
        strip(p) == p,
{
    assert(strip_from(p, p.len() as int) == Seq::<char>::empty());
    assert(p.take(p.len() as int) =~= p);
    lemma_strip_words(p, p.len() as int, 0);
    assert(p.subrange(0, p.len() as int) =~= p);
}

/// Cleaning a stem made of words that end in a letter, then at most one
/// space, `-` or `_`, then a resolution `WxH` (W and H of three to five
/// ASCII digits) gives the words.
#[verifier::spinoff_prover]
pub proof fn cleaning_removes_a_trailing_resolution(
    p: Seq<char>,
    sep: Seq<char>,
    w: Seq<char>,
    t: char,
    h: Seq<char>,
)
    requires
        plain_words(p),
        p.len() > 0,
        is_trimmed(p),
        sep.len() <= 1,
        forall|i: int| 0 <= i < sep.len() ==> #[trigger] sep[i] == ' ' || sep[i] == '-' || sep[i] == '_',
        dimension_digits(w),
        dimension_digits(h),
        t == 'x' || t == 'X' || t == '×',
    ensures
        cleaned(p + sep + w + seq![t] + h) == p,
{
    let pp = p + sep;
    let s = pp + w + seq![t] + h;
    assert forall|i: int| 0 <= i < pp.len() implies ('a' <= #[trigger] pp[i] && pp[i] <= 'z') || ('A' <= pp[i]
        && pp[i] <= 'Z') || pp[i] == ' ' || pp[i] == '-' || pp[i] == '_' by {
        if i < p.len() {
            assert(pp[i] == p[i]);
        } else {
            assert(pp[i] == sep[i - p.len()]);
        }
    }
    resolutions_are_noise(pp, w, t, h, Seq::<char>::empty());
    assert(s == pp + w + seq![t] + h);
    assert(s.last() == h.last());
    assert(ascii_digit(h[h.len() - 1]));
    assert(label_before(s, s.len() as int) is None);
    assert(counter_start(s) is None);
    assert(label_prefix_len(s) is None);
    assert(pp[0] == p[0]);
    lemma_trim_start_of_trimmed(pp);
    if sep.len() == 1 {
        assert(pp.drop_last() =~= p);
        assert(is_trim_char(pp.last()));
    } else {
        assert(pp =~= p);
    }
    lemma_trim_end_of_trimmed(p);
    assert(trim_both(pp) == p);
    assert(clean_step(s) == p);
    lemma_words_have_no_noise(p);
    lemma_trim_start_of_trimmed(p);
    assert(p.last() != ']');
    assert(label_prefix_len(p) is None);
    assert(clean_step(p) == p);
    assert(settle(p) == p);
}

proof fn lemma_strip_quiet(s: Seq<char>, i: int, n: int, x: Seq<char>)
    requires
        0 <= i <= n <= s.len(),
        forall|k: int| i <= k < n ==> #[trigger] noise_at(s, k) is None,
        strip_from(s, n) == x,
    ensures
        strip_from(s, i) == s.subrange(i, n) + x,
    decreases n - i,
{
    if i < n {
        lemma_strip_quiet(s, i + 1, n, x);
        assert(noise_at(s, i) is None);
        assert(seq![s[i]] + (s.subrange(i + 1, n) + x) =~= s.subrange(i, n) + x);
    } else {
        assert(s.subrange(i, n) + x =~= x);
    }
}

proof fn lemma_word_char_quiet(s: Seq<char>, k: int)
    requires
        0 <= k < s.len(),
        ('a' <= s[k] && s[k] <= 'z') || ('A' <= s[k] && s[k] <= 'Z') || s[k] == ' ' || s[k] == '-' || s[k]
            == '_',
        forall|j: int| 0 <= j < s.len() ==> #[trigger] s[j] != '(',
    ensures
        noise_at(s, k) is None,
{
    assert(!is_digit(s[k]));
    assert(digits_from(s, k) == 0);
    let p = k + spaces_from(s, k);
    if p < s.len() {
        assert(s[p] != '(');
    }
}

proof fn lemma_inner_digit_quiet(s: Seq<char>, k: int)
    requires
        0 < k < s.len(),
        ascii_digit(s[k - 1]),
        ascii_digit(s[k]),
        forall|j: int| 0 <= j < s.len() ==> #[trigger] s[j] != '(',
    ensures
        noise_at(s, k) is None,
{
    assert(is_digit(s[k - 1]));
    assert(spaces_from(s, k) == 0);
}

/// A run of six or more ASCII digits between words (letters, spaces, `-`
/// and `_`) is noise: some noise occurs in the text, and noise removal takes
/// off the run's first ten digits and keeps the words and the rest.
#[verifier::spinoff_prover]
#[verifier::rlimit(40)]
pub proof fn digit_runs_are_noise(p: Seq<char>, d: Seq<char>, q: Seq<char>)
    requires
        plain_words(p),
        plain_words(q),
        d.len() >= 6,
        forall|i: int| 0 <= i < d.len() ==> ascii_digit(#[trigger] d[i]),
    ensures
        has_noise(p + d + q),
        strip(p + d + q) == (if d.len() <= 10 {
            p + q
        } else {
            p + d.skip(10) + q
        }),
{
    let s = p + d + q;
    let i = p.len() as int;
    let e = i + d.len();
    let cut = if d.len() <= 10 {
        e
    } else {
        i + 10
    };
    assert forall|j: int| 0 <= j < s.len() implies #[trigger] s[j] != '(' by {
        if j < i {
            assert(s[j] == p[j]);
        } else if j < e {
            assert(s[j] == d[j - i]);
            assert(ascii_digit(d[j - i]));
        } else {
            assert(s[j] == q[j - e]);
        }
    }
    assert forall|j: int| i <= j < e implies ascii_digit(#[trigger] s[j]) by {
        assert(s[j] == d[j - i]);
    }
    lemma_digits_block(s, i, d.len() as int);
    if e < s.len() {
        assert(s[e] == q[0]);
    }
    assert(digits_from(s, i) == d.len());
    if i > 0 {
        assert(s[i - 1] == p[i - 1]);
        assert(!is_digit(s[i - 1]));
        assert(!is_space(s[i - 1]) || s[i - 1] == ' ');
    }
    assert(s[i] == d[0]);
    assert(resolution_at(s, i) is None);
    if i > 0 {
        let k = crate::noise::spaces_before(s, i);
        if k > 0 && i - k > 0 {
            lemma_spaces_before_in_words(s, i);
            assert(s[i - k - 1] == p[i - k - 1]);
        }
    }
    assert(number_at(s, i) == Some(cut));
    assert(noise_at(s, i) == Some(cut));
    // the words after the run
    assert forall|k: int| e <= k < s.len() implies #[trigger] noise_at(s, k) is None by {
        assert(s[k] == q[k - e]);
        lemma_word_char_quiet(s, k);
    }
    assert(strip_from(s, s.len() as int) == Seq::<char>::empty());
    lemma_strip_quiet(s, e, s.len() as int, Seq::<char>::empty());
    assert(s.subrange(e, s.len() as int) + Seq::<char>::empty() =~= q);
    // the digits kept after the first ten
    assert forall|k: int| cut <= k < e implies #[trigger] noise_at(s, k) is None by {
        lemma_inner_digit_quiet(s, k);
    }
    lemma_strip_quiet(s, cut, e, q);
    assert(strip_from(s, i) == strip_from(s, cut));
    assert forall|k: int| 0 <= k < i implies #[trigger] noise_at(s, k) is None by {
        assert(s[k] == p[k]);
        lemma_word_char_quiet(s, k);
    }
    lemma_strip_quiet(s, 0, i, s.subrange(cut, e) + q);
    assert(s.subrange(0, i) =~= p);
    if d.len() > 10 {
        assert(s.subrange(cut, e) =~= d.skip(10));
    } else {
        assert(s.subrange(cut, e) =~= Seq::<char>::empty());
    }
    assert(strip(s) == p + (s.subrange(cut, e) + q));
    assert(p + (s.subrange(cut, e) + q) =~= p + s.subrange(cut, e) + q);
}

proof fn lemma_spaces_before_in_words(s: Seq<char>, i: int)
    requires
        0 <= i <= s.len(),
    ensures
        0 <= i - crate::noise::spaces_before(s, i),
        forall|j: int|
            i - crate::noise::spaces_before(s, i) <= j < i ==> is_space(#[trigger] s[j]),
    decreases i,
{
    if i > 0 && is_space(s[i - 1]) {
        lemma_spaces_before_in_words(s, i - 1);
        assert(crate::noise::spaces_before(s, i) == 1 + crate::noise::spaces_before(s, i - 1));
    } else {
        assert(crate::noise::spaces_before(s, i) == 0);
    }
}

/// The number an ASCII digit string denotes in base ten.
pub open spec fn digits_value(t: Seq<char>) -> int
    decreases t.len(),
{
    if t.len() == 0 {
        0
    } else {
        digits_value(t.drop_last()) * 10 + (t.last() as int - '0' as int)
    }
}

proof fn lemma_digit_char_value(d: nat)
    requires
        d < 10,
    ensures
        digit_char(d) as int - '0' as int == d,
{
}

/// The decimal notation of `n` is a string of ASCII digits, without a
/// leading zero unless `n` is zero, that denotes `n`.
#[verifier::spinoff_prover]
pub proof fn decimal_denotes_its_number(n: nat)
    ensures
        decimal(n).len() >= 1,
        forall|i: int| 0 <= i < decimal(n).len() ==> ascii_digit(#[trigger] decimal(n)[i]),
        n > 0 ==> decimal(n)[0] != '0',
        digits_value(decimal(n)) == n,
    decreases n,
{
    lemma_decimal_ascii(n);
    if n >= 10 {
        let q = n / 10;
        let r = n % 10;
        decimal_denotes_its_number(q);
        let t = decimal(n);
        assert(t == decimal(q) + seq![digit_char(r)]);
        assert(t.drop_last() =~= decimal(q));
        assert(digits_value(t) == digits_value(decimal(q)) * 10 + (t.last() as int - '0' as int));
        assert(t[0] == decimal(q)[0]);
        assert(t.last() == digit_char(r));
        lemma_digit_char_value(r);
        assert(q * 10 + r == n) by (nonlinear_arith)
            requires
                q == n / 10,
                r == n % 10,
        ;
    } else {
        let t = decimal(n);
        assert(t == seq![digit_char(n)]);
        assert(t.drop_last() =~= Seq::<char>::empty());
        assert(digits_value(t.drop_last()) == 0);
        lemma_digit_char_value(n);
        assert(digits_value(t) == digits_value(t.drop_last()) * 10 + (t.last() as int - '0' as int));
    }
}

/// The name with counter `n` for `stem` and `ext`: `stem.ext` for zero, else
/// `stem[n].ext` with `n` in decimal.
pub open spec fn counted_name(stem: Seq<char>, ext: Seq<char>, n: nat) -> Seq<char> {
    if n == 0 {
        stem + seq!['.'] + ext
    } else {
        stem + seq!['['] + decimal(n) + seq![']', '.'] + ext
    }
}

/// The free target joins `base` with `stem.ext`, or with `stem[n].ext`, for a
/// counter `n` no greater than the number of taken paths, every smaller
/// counter giving a taken path; below that number, the counter's own path is
/// not taken.
pub proof fn free_target_takes_the_least_free_counter(
    base: Seq<char>,
    stem: Seq<char>,
    ext: Seq<char>,
    taken: Seq<Seq<char>>,
)
    ensures
        exists|n: nat|
            #![trigger counted_name(stem, ext, n)]
            n <= taken.len() && free_target(base, stem, ext, taken) == joined(base, counted_name(stem, ext, n))
                && (forall|m: nat| m < n ==> taken.contains(#[trigger] joined(base, counted_name(stem, ext, m))))
                && (n < taken.len() ==> !taken.contains(joined(base, counted_name(stem, ext, n)))),
{
    let n = first_free(base, stem, ext, taken, 0);
    lemma_first_free(base, stem, ext, taken, 0);
    assert forall|m: nat| #![all_triggers] true implies counted_name(stem, ext, m) == target_name(stem, ext, m) by {
        if m == 0 {
            assert(counted_name(stem, ext, m) =~= target_name(stem, ext, m));
        } else {
            assert(counted_name(stem, ext, m) =~= target_name(stem, ext, m));
        }
    }
    assert forall|m: nat| m < n implies taken.contains(#[trigger] joined(base, counted_name(stem, ext, m))) by {
        assert(counted_path(base, stem, ext, m) == joined(base, counted_name(stem, ext, m)));
    }
    assert(free_target(base, stem, ext, taken) == joined(base, counted_name(stem, ext, n)));
}

/// A file name splits at its last `.`: `a.e`, with `a` nonempty and `e`
/// free of `.`, has stem `a` and extension `e`; a name with no `.`, or only
/// a leading one, is all stem and has no extension.
pub proof fn file_names_split_at_the_last_dot(a: Seq<char>, e: Seq<char>)
    ensures
        a.len() > 0 && (forall|i: int| 0 <= i < e.len() ==> e[i] != '.') ==> stem_part(a + seq!['.'] + e)
            == a && ext_part(a + seq!['.'] + e) == Some(e),
        (forall|i: int| 0 <= i < a.len() ==> a[i] != '.') ==> stem_part(a) == a && ext_part(a) is None,
        (forall|i: int| 0 <= i < e.len() ==> e[i] != '.') ==> stem_part(seq!['.'] + e) == seq!['.'] + e
            && ext_part(seq!['.'] + e) is None,
{
    if forall|i: int| 0 <= i < e.len() ==> e[i] != '.' {
        lemma_last_dot(a, e);
        assert((a + seq!['.'] + e).take(a.len() as int) =~= a);
        assert((a + seq!['.'] + e).skip(a.len() + 1int) =~= e);
        lemma_last_dot(Seq::<char>::empty(), e);
        assert(Seq::<char>::empty() + seq!['.'] + e =~= seq!['.'] + e);
    }
    if forall|i: int| 0 <= i < a.len() ==> a[i] != '.' {
        lemma_no_dot(a);
    }
}

proof fn lemma_no_dot(a: Seq<char>)
    requires
        forall|i: int| 0 <= i < a.len() ==> a[i] != '.',
    ensures
        last_dot(a) is None,
    decreases a.len(),
{
    if a.len() > 0 {
        lemma_no_dot(a.drop_last());
    }
}

proof fn lemma_spaces_stop(s: Seq<char>, j: int, e: int)
    requires
        0 <= j <= e < s.len(),
        !is_space(s[e]),
    ensures
        j + spaces_from(s, j) <= e,
    decreases e - j,
{
    if j < e && is_space(s[j]) {
        lemma_spaces_stop(s, j + 1, e);
    }
}

proof fn lemma_spaces_run(s: Seq<char>, j: int, c: int)
    requires
        0 <= j,
        0 <= c,
        j + c < s.len(),
        forall|m: int| j <= m < j + c ==> #[trigger] s[m] == ' ',
        !is_space(s[j + c]),
    ensures
        spaces_from(s, j) == c,
    decreases c,
{
    if c > 0 {
        lemma_spaces_run(s, j + 1, c - 1);
    }
}

proof fn lemma_quiet_where_no_paren_follows(s: Seq<char>, k: int)
    requires
        0 <= k < s.len(),
        ('a' <= s[k] && s[k] <= 'z') || ('A' <= s[k] && s[k] <= 'Z') || s[k] == ' ' || s[k] == '-' || s[k]
            == '_',
        k + spaces_from(s, k) < s.len() ==> s[k + spaces_from(s, k)] != '(',
    ensures
        noise_at(s, k) is None,
{
    assert(!is_digit(s[k]));
    assert(digits_from(s, k) == 0);
}

/// A copy marker, spaces then `(`, one to three ASCII digits and `)`, after
/// words that do not end in a space, is noise: noise removal takes it off,
/// with its spaces, and keeps the words before and after it.
#[verifier::spinoff_prover]
#[verifier::rlimit(40)]
pub proof fn copy_markers_are_noise(p: Seq<char>, sp: Seq<char>, k: Seq<char>, q: Seq<char>)
    requires
        plain_words(p),
        p.len() == 0 || p.last() != ' ',
        forall|i: int| 0 <= i < sp.len() ==> #[trigger] sp[i] == ' ',
        1 <= k.len() <= 3,
        forall|i: int| 0 <= i < k.len() ==> ascii_digit(#[trigger] k[i]),
        plain_words(q),
    ensures
        has_noise(p + sp + seq!['('] + k + seq![')'] + q),
        strip(p + sp + seq!['('] + k + seq![')'] + q) == p + q,
{
    let s = p + sp + seq!['('] + k + seq![')'] + q;
    let i0 = p.len() as int;
    let po = i0 + sp.len();
    let end = po + k.len() + 2;
    assert forall|m: int| i0 <= m < po implies #[trigger] s[m] == ' ' by {
        assert(s[m] == sp[m - i0]);
    }
    assert(s[po] == '(');
    lemma_spaces_run(s, i0, sp.len() as int);
    assert forall|m: int| po + 1 <= m < po + 1 + k.len() implies ascii_digit(#[trigger] s[m]) by {
        assert(s[m] == k[m - po - 1]);
    }
    assert(s[po + 1 + k.len()] == ')');
    lemma_digits_block(s, po + 1, k.len() as int);
    assert(s[i0] == ' ' || s[i0] == '(');
    assert(digits_from(s, i0) == 0);
    assert(marker_at(s, i0) == Some(end));
    assert(noise_at(s, i0) == Some(end));
    // the words after the marker
    assert forall|m: int| end <= m < s.len() implies #[trigger] noise_at(s, m) is None by {
        assert(s[m] == q[m - end]);
        crate::noise::lemma_spaces_bound(s, m);
        let t = m + spaces_from(s, m);
        if t < s.len() {
            assert(s[t] == q[t - end]);
        }
        lemma_quiet_where_no_paren_follows(s, m);
    }
    assert(strip_from(s, s.len() as int) == Seq::<char>::empty());
    lemma_strip_quiet(s, end, s.len() as int, Seq::<char>::empty());
    assert(s.subrange(end, s.len() as int) + Seq::<char>::empty() =~= q);
    assert(strip_from(s, i0) == strip_from(s, end));
    // the words before it
    assert forall|m: int| 0 <= m < i0 implies #[trigger] noise_at(s, m) is None by {
        assert(s[m] == p[m]);
        assert(s[i0 - 1] == p[i0 - 1]);
        lemma_spaces_stop(s, m, i0 - 1);
        let t = m + spaces_from(s, m);
        assert(s[t] == p[t]);
        lemma_quiet_where_no_paren_follows(s, m);
    }
    lemma_strip_quiet(s, 0, i0, q);
    assert(s.subrange(0, i0) =~= p);
}

/// Removing noise never lengthens a text, and changes it exactly when some
/// noise occurs in it.
pub proof fn noise_changes_text_exactly_when_present(s: Seq<char>)
    ensures
        strip(s).len() <= s.len(),
        has_noise(s) <==> strip(s) != s,
{
    lemma_strip_from_len(s, 0);
    assert(s.skip(0) =~= s);
}

/// Where an action reads.
pub open spec fn action_source(a: ActionView) -> Seq<char> {
    match a {
        ActionView::Rename { from, .. } => from,
        ActionView::Copy { from, .. } => from,
    }
}

/// `a` is an action that candidate `c` may receive in `mode`: the candidate
/// is not already named, the action reads its file, copies exactly when
/// copying to an output directory, and writes `name-[WxH].ext`, or that name
/// with a counter, into the candidate's target directory.
pub open spec fn fits(c: ImageCandidate, mode: TargetMode, a: ActionView) -> bool {
    &&& !already_named(c, mode)
    &&& action_source(a) == c.path@
    &&& (a is Copy <==> mode is CopyTo)
    &&& exists|n: nat|
        action_target(a) == #[trigger] counted_path(
            target_base(c, mode),
            stem_with_dims(c.cleaned_name@, c.dims),
            c.extension@,
            n,
        )
}

/// Joining gives distinct paths for the distinct counters of `c`'s target
/// name in `mode`, as it does where the name holds no `/`, `\\` or `:`.
pub open spec fn distinct_counters(c: ImageCandidate, mode: TargetMode) -> bool {
    forall|i: nat, j: nat|
        i != j ==> #[trigger] counted_path(
            target_base(c, mode),
            stem_with_dims(c.cleaned_name@, c.dims),
            c.extension@,
            i,
        ) != #[trigger] counted_path(
            target_base(c, mode),
            stem_with_dims(c.cleaned_name@, c.dims),
            c.extension@,
            j,
        )
}

proof fn lemma_first_free(base: Seq<char>, stem: Seq<char>, ext: Seq<char>, taken: Seq<Seq<char>>, k: nat)
    ensures
        k <= first_free(base, stem, ext, taken, k),
        forall|i: nat|
            k <= i < first_free(base, stem, ext, taken, k) ==> taken.contains(
                #[trigger] counted_path(base, stem, ext, i),
            ),
        first_free(base, stem, ext, taken, k) < taken.len() ==> !taken.contains(
            counted_path(base, stem, ext, first_free(base, stem, ext, taken, k)),
        ),
        k <= taken.len() ==> first_free(base, stem, ext, taken, k) <= taken.len(),
    decreases taken.len() - k,
{
    if !(k >= taken.len() || !taken.contains(counted_path(base, stem, ext, k))) {
        lemma_first_free(base, stem, ext, taken, k + 1);
    }
}

/// Where joining keeps the counters apart, the target found is free.
proof fn lemma_target_free(c: ImageCandidate, mode: TargetMode, taken: Seq<Seq<char>>)
    requires
        distinct_counters(c, mode),
    ensures
        !taken.contains(target_of(c, mode, taken)),
{
    let base = target_base(c, mode);
    let stem = stem_with_dims(c.cleaned_name@, c.dims);
    let ext = c.extension@;
    let n = first_free(base, stem, ext, taken, 0);
    lemma_first_free(base, stem, ext, taken, 0);
    if taken.contains(counted_path(base, stem, ext, n)) {
        assert forall|i: nat| i < n + 1 implies taken.contains(#[trigger] counted_path(base, stem, ext, i)) by {
        }
        crate::plan::lemma_pigeonhole(taken, base, stem, ext, (n + 1) as nat);
    }
}

proof fn lemma_action_for_fits(c: ImageCandidate, mode: TargetMode, taken: Seq<Seq<char>>)
    ensures
        action_for(c, mode, taken) matches Some(a) ==> fits(c, mode, a),
        action_for(c, mode, taken) is None <==> already_named(c, mode) || taken.contains(
            target_of(c, mode, taken),
        ),
        distinct_counters(c, mode) ==> (action_for(c, mode, taken) is None <==> already_named(c, mode)),
{
    if distinct_counters(c, mode) {
        lemma_target_free(c, mode, taken);
    }
    let n = first_free(
        target_base(c, mode),
        stem_with_dims(c.cleaned_name@, c.dims),
        c.extension@,
        taken,
        0,
    );
    let _ = counted_path(target_base(c, mode), stem_with_dims(c.cleaned_name@, c.dims), c.extension@, n);
}

proof fn lemma_plan_seq(s: Seq<ImageCandidate>, mode: TargetMode, taken: Seq<Seq<char>>)
    ensures
        forall|j: int|
            0 <= j < plan_seq(s, mode, taken).0.len() ==> exists|i: int|
                0 <= i < s.len() && fits(#[trigger] s[i], mode, #[trigger] plan_seq(s, mode, taken).0[j]),
        !(mode is InPlace) && (forall|i: int| 0 <= i < s.len() ==> distinct_counters(#[trigger] s[i], mode))
            ==> plan_seq(s, mode, taken).0.len() == s.len(),
    decreases s.len(),
{
    if s.len() > 0 {
        let d = s.drop_last();
        let c = s.last();
        lemma_plan_seq(d, mode, taken);
        let prev = plan_seq(d, mode, taken);
        lemma_action_for_fits(c, mode, prev.1);
        let r = plan_seq(s, mode, taken).0;
        assert forall|j: int| 0 <= j < r.len() implies exists|i: int|
            0 <= i < s.len() && fits(#[trigger] s[i], mode, #[trigger] r[j]) by {
            if j < prev.0.len() {
                assert(r[j] == prev.0[j]);
                let i = choose|i: int| 0 <= i < d.len() && fits(#[trigger] d[i], mode, #[trigger] prev.0[j]);
                assert(s[i] == d[i]);
            } else {
                assert(s[s.len() - 1] == c);
            }
        }
    }
}

proof fn lemma_plan_seq_complete(s: Seq<ImageCandidate>, mode: TargetMode, taken: Seq<Seq<char>>)
    ensures
        forall|i: int|
            0 <= i < s.len() && !already_named(#[trigger] s[i], mode) && distinct_counters(s[i], mode)
                ==> exists|j: int|
                0 <= j < plan_seq(s, mode, taken).0.len() && action_source(
                    #[trigger] plan_seq(s, mode, taken).0[j],
                ) == s[i].path@,
    decreases s.len(),
{
    if s.len() > 0 {
        let d = s.drop_last();
        let c = s.last();
        lemma_plan_seq_complete(d, mode, taken);
        let prev = plan_seq(d, mode, taken);
        lemma_action_for_fits(c, mode, prev.1);
        let r = plan_seq(s, mode, taken).0;
        assert forall|i: int|
            0 <= i < s.len() && !already_named(#[trigger] s[i], mode) && distinct_counters(s[i], mode)
            implies exists|j: int| 0 <= j < r.len() && action_source(#[trigger] r[j]) == s[i].path@ by {
            if i < d.len() {
                assert(s[i] == d[i]);
                let j = choose|j: int| 0 <= j < prev.0.len() && action_source(#[trigger] prev.0[j]) == d[i].path@;
                assert(r[j] == prev.0[j]);
            } else {
                assert(s[i] == c);
                assert(r[r.len() - 1] == action_for(c, mode, prev.1)->0);
            }
        }
    }
}

#[verifier::spinoff_prover]
proof fn lemma_plan_groups_origin(gs: Seq<Seq<ImageCandidate>>, mode: TargetMode, taken: Seq<Seq<char>>)
    ensures
        forall|j: int|
            0 <= j < plan_groups(gs, mode, taken).0.len() ==> exists|m: int, i: int|
                0 <= m < gs.len() && 0 <= i < sorted_by_area(gs[m]).len() && fits(
                    #[trigger] sorted_by_area(gs[m])[i],
                    mode,
                    #[trigger] plan_groups(gs, mode, taken).0[j],
                ),
    decreases gs.len(),
{
    if gs.len() > 0 {
        let d = gs.drop_last();
        lemma_plan_groups_origin(d, mode, taken);
        let prev = plan_groups(d, mode, taken);
        let t = sorted_by_area(gs.last());
        lemma_plan_seq(t, mode, prev.1);
        let last = plan_seq(t, mode, prev.1).0;
        let r = plan_groups(gs, mode, taken).0;
        assert(r == prev.0 + last);
        assert forall|j: int| 0 <= j < r.len() implies exists|m: int, i: int|
            0 <= m < gs.len() && 0 <= i < sorted_by_area(gs[m]).len() && fits(
                #[trigger] sorted_by_area(gs[m])[i],
                mode,
                #[trigger] r[j],
            ) by {
            if j < prev.0.len() {
                assert(r[j] == prev.0[j]);
                let (m, i) = choose|m: int, i: int|
                    0 <= m < d.len() && 0 <= i < sorted_by_area(d[m]).len() && fits(
                        #[trigger] sorted_by_area(d[m])[i],
                        mode,
                        #[trigger] prev.0[j],
                    );
                assert(gs[m] == d[m]);
            } else {
                assert(r[j] == last[j - prev.0.len()]);
                let i = choose|i: int| 0 <= i < t.len() && fits(#[trigger] t[i], mode, #[trigger] last[j - prev.0.len()]);
                assert(gs[gs.len() - 1] == gs.last());
            }
        }
    }
}

#[verifier::spinoff_prover]
proof fn lemma_plan_groups_complete(gs: Seq<Seq<ImageCandidate>>, mode: TargetMode, taken: Seq<Seq<char>>)
    ensures
        forall|m: int, i: int|
            0 <= m < gs.len() && 0 <= i < sorted_by_area(gs[m]).len() && !already_named(
                #[trigger] sorted_by_area(gs[m])[i],
                mode,
            ) && distinct_counters(sorted_by_area(gs[m])[i], mode) ==> exists|j: int|
                0 <= j < plan_groups(gs, mode, taken).0.len() && action_source(
                    #[trigger] plan_groups(gs, mode, taken).0[j],
                ) == sorted_by_area(gs[m])[i].path@,
    decreases gs.len(),
{
    if gs.len() > 0 {
        let d = gs.drop_last();
        lemma_plan_groups_complete(d, mode, taken);
        let prev = plan_groups(d, mode, taken);
        let t = sorted_by_area(gs.last());
        lemma_plan_seq_complete(t, mode, prev.1);
        let last = plan_seq(t, mode, prev.1).0;
        let r = plan_groups(gs, mode, taken).0;
        assert(r == prev.0 + last);
        assert forall|m: int, i: int|
            0 <= m < gs.len() && 0 <= i < sorted_by_area(gs[m]).len() && !already_named(
                #[trigger] sorted_by_area(gs[m])[i],
                mode,
            ) && distinct_counters(sorted_by_area(gs[m])[i], mode) implies exists|j: int|
            0 <= j < r.len() && action_source(#[trigger] r[j]) == sorted_by_area(gs[m])[i].path@ by {
            if m < d.len() {
                assert(gs[m] == d[m]);
                let j = choose|j: int|
                    0 <= j < prev.0.len() && action_source(#[trigger] prev.0[j]) == sorted_by_area(d[m])[i].path@;
                assert(r[j] == prev.0[j]);
            } else {
                assert(gs[m] == gs.last());
                let j = choose|j: int| 0 <= j < last.len() && action_source(#[trigger] last[j]) == t[i].path@;
                assert(r[prev.0.len() + j] == last[j]);
            }
        }
    }
}

proof fn lemma_plan_groups_len(gs: Seq<Seq<ImageCandidate>>, mode: TargetMode, taken: Seq<Seq<char>>)
    requires
        !(mode is InPlace),
        forall|m: int, i: int| 0 <= m < gs.len() && 0 <= i < gs[m].len() ==> distinct_counters(#[trigger] gs[m][i], mode),
    ensures
        plan_groups(gs, mode, taken).0.len() == total_len(gs),
    decreases gs.len(),
{
    broadcast use vstd::seq_lib::group_seq_properties;

    if gs.len() > 0 {
        let d = gs.drop_last();
        assert forall|m: int, i: int| 0 <= m < d.len() && 0 <= i < d[m].len() implies distinct_counters(#[trigger] d[m][i], mode) by {
            assert(d[m] == gs[m]);
        }
        lemma_plan_groups_len(d, mode, taken);
        let prev = plan_groups(d, mode, taken);
        let g = gs.last();
        let t = sorted_by_area(g);
        sorted_by_area_is_permutation(g);
        assert forall|i: int| 0 <= i < t.len() implies distinct_counters(#[trigger] t[i], mode) by {
            assert(t.contains(t[i]));
            assert(t.to_multiset().count(t[i]) > 0);
            assert(g.contains(t[i]));
            let q = choose|q: int| 0 <= q < g.len() && g[q] == t[i];
            assert(gs[gs.len() - 1][q] == t[i]);
        }
        lemma_plan_seq(t, mode, prev.1);
    }
}

/// Every planned action belongs to one of the candidates: it reads that
/// candidate's file, which is not already named, copies exactly when copying
/// to an output directory, and writes `name-[WxH].ext`, or that name with a
/// counter, into the candidate's target directory.
pub proof fn planned_actions_are_sound(s: Seq<ImageCandidate>, mode: TargetMode, taken: Seq<Seq<char>>)
    ensures
        forall|j: int|
            0 <= j < planned_actions(s, mode, taken).len() ==> exists|i: int|
                0 <= i < s.len() && fits(#[trigger] s[i], mode, #[trigger] planned_actions(s, mode, taken)[j]),
{
    broadcast use vstd::seq_lib::group_seq_properties;

    let gs = group_by_name(s);
    let p = planned_actions(s, mode, taken);
    group_by_name_partitions(s);
    lemma_plan_groups_origin(gs, mode, taken);
    assert forall|j: int| 0 <= j < p.len() implies exists|i: int|
        0 <= i < s.len() && fits(#[trigger] s[i], mode, #[trigger] p[j]) by {
        let (m, q) = choose|m: int, i: int|
            0 <= m < gs.len() && 0 <= i < sorted_by_area(gs[m]).len() && fits(
                #[trigger] sorted_by_area(gs[m])[i],
                mode,
                #[trigger] p[j],
            );
        let t = sorted_by_area(gs[m]);
        sorted_by_area_is_permutation(gs[m]);
        assert(t.contains(t[q]));
        assert(t.to_multiset().count(t[q]) > 0);
        assert(gs[m].contains(t[q]));
        assert(gs[m] == s.filter(with_name(group_key(gs[m]))));
        s.lemma_filter_contains_rev(with_name(group_key(gs[m])), t[q]);
        let i = choose|i: int| 0 <= i < s.len() && s[i] == t[q];
        assert(fits(s[i], mode, p[j]));
    }
}

/// Every candidate that is not already named, and whose counters joining
/// keeps apart, gets an action that reads its file.
pub proof fn planned_actions_are_complete(s: Seq<ImageCandidate>, mode: TargetMode, taken: Seq<Seq<char>>)
    ensures
        forall|i: int|
            0 <= i < s.len() && !already_named(#[trigger] s[i], mode) && distinct_counters(s[i], mode)
                ==> exists|j: int|
                0 <= j < planned_actions(s, mode, taken).len() && action_source(
                    #[trigger] planned_actions(s, mode, taken)[j],
                ) == s[i].path@,
{
    broadcast use vstd::seq_lib::group_seq_properties;

    let gs = group_by_name(s);
    let p = planned_actions(s, mode, taken);
    group_by_name_partitions(s);
    lemma_plan_groups_complete(gs, mode, taken);
    assert forall|i: int|
        0 <= i < s.len() && !already_named(#[trigger] s[i], mode) && distinct_counters(s[i], mode)
        implies exists|j: int| 0 <= j < p.len() && action_source(#[trigger] p[j]) == s[i].path@ by {
        let c = s[i];
        assert(has_group(gs, c.cleaned_name@));
        let m = choose|m: int| 0 <= m < gs.len() && #[trigger] group_key(gs[m]) == c.cleaned_name@;
        let pr = with_name(group_key(gs[m]));
        assert(pr(s[i]));
        s.lemma_filter_contains(pr, i);
        assert(gs[m].contains(c));
        let t = sorted_by_area(gs[m]);
        sorted_by_area_is_permutation(gs[m]);
        assert(gs[m].to_multiset().count(c) > 0);
        assert(t.contains(c));
        let q = choose|q: int| 0 <= q < t.len() && t[q] == c;
        assert(!already_named(t[q], mode));
    }
}

/// With an output directory, every candidate whose counters joining keeps
/// apart receives exactly one action.
pub proof fn output_mode_acts_on_every_candidate(s: Seq<ImageCandidate>, mode: TargetMode, taken: Seq<Seq<char>>)
    requires
        !(mode is InPlace),
        forall|i: int| 0 <= i < s.len() ==> distinct_counters(#[trigger] s[i], mode),
    ensures
        planned_actions(s, mode, taken).len() == s.len(),
{
    let gs = group_by_name(s);
    group_by_name_partitions(s);
    assert forall|m: int, i: int| 0 <= m < gs.len() && 0 <= i < gs[m].len() implies distinct_counters(#[trigger] gs[m][i], mode) by {
        let pr = with_name(group_key(gs[m]));
        assert(gs[m] == s.filter(pr));
        assert(s.filter(pr).contains(gs[m][i]));
        s.lemma_filter_contains_rev(pr, gs[m][i]);
    }
    lemma_plan_groups_len(gs, mode, taken);
}

/// In place, a candidate whose counters joining keeps apart is left alone
/// exactly when its file already carries the stem `name-[WxH]`, possibly
/// followed by a counter.
pub proof fn in_place_skips_exactly_named_files(c: ImageCandidate, taken: Seq<Seq<char>>)
    requires
        distinct_counters(c, TargetMode::InPlace),
    ensures
        action_for(c, TargetMode::InPlace, taken) is None <==> already_named(c, TargetMode::InPlace),
{
    lemma_action_for_fits(c, TargetMode::InPlace, taken);
}

/// Actions none of which writes a path taken before it (what `plan_actions`
/// and `build_actions` ensure) write pairwise distinct paths, none of them in
/// `taken`.
pub proof fn fresh_targets_are_distinct_and_free(acts: Seq<ActionView>, taken: Seq<Seq<char>>)
    requires
        fresh_targets(acts, taken),
    ensures
        forall|j: int| 0 <= j < acts.len() ==> !taken.contains(#[trigger] action_target(acts[j])),
        forall|i: int, j: int|
            0 <= i < j < acts.len() ==> action_target(#[trigger] acts[i]) != action_target(#[trigger] acts[j]),
{
    assert forall|j: int| 0 <= j < acts.len() implies !taken.contains(#[trigger] action_target(acts[j])) by {
        let t = taken + targets(acts.take(j));
        if taken.contains(action_target(acts[j])) {
            let q = choose|q: int| 0 <= q < taken.len() && taken[q] == action_target(acts[j]);
            assert(t[q] == taken[q]);
        }
    }
    assert forall|i: int, j: int|
        0 <= i < j < acts.len() implies action_target(#[trigger] acts[i]) != action_target(#[trigger] acts[j]) by {
        let t = taken + targets(acts.take(j));
        assert(t[taken.len() + i] == action_target(acts[i]));
    }
}

proof fn lemma_plan_seq_fresh(s: Seq<ImageCandidate>, mode: TargetMode, taken: Seq<Seq<char>>)
    ensures
        fresh_targets(plan_seq(s, mode, taken).0, taken),
        plan_seq(s, mode, taken).1 == taken + targets(plan_seq(s, mode, taken).0),
    decreases s.len(),
{
    if s.len() == 0 {
        assert(targets(Seq::<ActionView>::empty()) =~= Seq::<Seq<char>>::empty());
        assert(taken + Seq::<Seq<char>>::empty() =~= taken);
    } else {
        let d = s.drop_last();
        lemma_plan_seq_fresh(d, mode, taken);
        let prev = plan_seq(d, mode, taken);
        if let Some(a) = action_for(s.last(), mode, prev.1) {
            crate::plan::lemma_fresh_push(prev.0, taken, a);
            assert(taken + targets(prev.0.push(a)) =~= prev.1.push(action_target(a)));
        }
    }
}

proof fn lemma_plan_groups_fresh(gs: Seq<Seq<ImageCandidate>>, mode: TargetMode, taken: Seq<Seq<char>>)
    ensures
        fresh_targets(plan_groups(gs, mode, taken).0, taken),
        plan_groups(gs, mode, taken).1 == taken + targets(plan_groups(gs, mode, taken).0),
    decreases gs.len(),
{
    if gs.len() == 0 {
        assert(targets(Seq::<ActionView>::empty()) =~= Seq::<Seq<char>>::empty());
        assert(taken + Seq::<Seq<char>>::empty() =~= taken);
    } else {
        let d = gs.drop_last();
        lemma_plan_groups_fresh(d, mode, taken);
        let prev = plan_groups(d, mode, taken);
        let t = sorted_by_area(gs.last());
        lemma_plan_seq_fresh(t, mode, prev.1);
        let last = plan_seq(t, mode, prev.1);
        crate::plan::lemma_fresh_concat(prev.0, last.0, taken);
        assert(taken + targets(prev.0 + last.0) =~= (taken + targets(prev.0)) + targets(last.0));
    }
}

/// The stem a candidate's file gets: its cleaned name, `-[`, the width and
/// the height in decimal separated by `x`, and `]`.
pub open spec fn labelled_stem(c: ImageCandidate) -> Seq<char> {
    c.cleaned_name@ + seq!['-', '['] + decimal(c.dims.width.0 as nat) + seq!['x'] + decimal(
        c.dims.height.0 as nat,
    ) + seq![']']
}

/// `st` is `sd`, or `sd` followed by `[`, one or more ASCII digits and `]`.
pub open spec fn is_stem_or_counted(st: Seq<char>, sd: Seq<char>) -> bool {
    ||| st == sd
    ||| exists|k: Seq<char>|
        k.len() > 0 && (forall|i: int| 0 <= i < k.len() ==> ascii_digit(#[trigger] k[i])) && st == sd
            + seq!['['] + k + seq![']']
}

proof fn lemma_named_like_spelled(st: Seq<char>, sd: Seq<char>)
    ensures
        named_like(st, sd) <==> is_stem_or_counted(st, sd),
{
    if st != sd && named_like(st, sd) {
        let r = st.skip(sd.len() as int);
        let k = r.subrange(1, r.len() - 1);
        assert forall|i: int| 0 <= i < k.len() implies ascii_digit(#[trigger] k[i]) by {
            assert(k[i] == r[i + 1]);
        }
        assert(st =~= st.take(sd.len() as int) + r);
        assert(r =~= seq!['['] + k + seq![']']);
        assert(st =~= sd + seq!['['] + k + seq![']']);
    }
    if st != sd && is_stem_or_counted(st, sd) {
        let k = choose|k: Seq<char>|
            k.len() > 0 && (forall|i: int| 0 <= i < k.len() ==> ascii_digit(#[trigger] k[i])) && st == sd
                + seq!['['] + k + seq![']'];
        assert(st.take(sd.len() as int) =~= sd);
        let r = st.skip(sd.len() as int);
        assert(r =~= seq!['['] + k + seq![']']);
        assert forall|i: int| 1 <= i < r.len() - 1 implies is_ascii_digit(#[trigger] r[i]) by {
            assert(r[i] == k[i - 1]);
            assert(ascii_digit(k[i - 1]));
        }
    }
}

/// In place, a candidate whose counters joining keeps apart is left alone
/// only when its file stem is exactly `name-[WxH]` for its cleaned name and
/// its real width and height, or that followed by `[n]`; every other such
/// candidate is renamed, reading its own file.
#[verifier::spinoff_prover]
pub proof fn in_place_renames_unless_labelled_exactly(c: ImageCandidate, taken: Seq<Seq<char>>)
    requires
        distinct_counters(c, TargetMode::InPlace),
    ensures
        action_for(c, TargetMode::InPlace, taken) is None <==> (file_stem_of(c.path@) matches Some(st)
            && is_stem_or_counted(st, labelled_stem(c))),
        action_for(c, TargetMode::InPlace, taken) matches Some(a) ==> a is Rename && action_source(a)
            == c.path@,
{
    lemma_action_for_fits(c, TargetMode::InPlace, taken);
    assert(stem_with_dims(c.cleaned_name@, c.dims) =~= labelled_stem(c));
    if let Some(st) = file_stem_of(c.path@) {
        lemma_named_like_spelled(st, labelled_stem(c));
    }
}

/// A run writes no path twice and no path that existed: the targets of the
/// planned actions are pairwise distinct, and none of them is in `taken`.
pub proof fn planned_targets_are_distinct_and_free(s: Seq<ImageCandidate>, mode: TargetMode, taken: Seq<Seq<char>>)
    ensures
        forall|j: int|
            0 <= j < planned_actions(s, mode, taken).len() ==> !taken.contains(
                #[trigger] action_target(planned_actions(s, mode, taken)[j]),
            ),
        forall|i: int, j: int|
            0 <= i < j < planned_actions(s, mode, taken).len() ==> action_target(
                #[trigger] planned_actions(s, mode, taken)[i],
            ) != action_target(#[trigger] planned_actions(s, mode, taken)[j]),
{
    lemma_plan_groups_fresh(group_by_name(s), mode, taken);
    fresh_targets_are_distinct_and_free(planned_actions(s, mode, taken), taken);
}

proof fn lemma_last_dot(p: Seq<char>, e: Seq<char>)
    requires
        forall|i: int| 0 <= i < e.len() ==> e[i] != '.',
    ensures
        last_dot(p + seq!['.'] + e) == Some(p.len() as int),
    decreases e.len(),
{
    let f = p + seq!['.'] + e;
    if e.len() > 0 {
        lemma_last_dot(p, e.drop_last());
        assert(f.drop_last() =~= p + seq!['.'] + e.drop_last());
        assert(f.last() == e.last());
    } else {
        assert(f.last() == '.');
    }
}

proof fn lemma_digits_before_block(s: Seq<char>, end: int, k: int)
    requires
        0 <= k <= end <= s.len(),
        forall|i: int| end - k <= i < end ==> is_ascii_digit(#[trigger] s[i]),
        end - k == 0 || !is_ascii_digit(s[end - k - 1]),
    ensures
        digits_before(s, end) == k,
    decreases k,
{
    if k > 0 {
        lemma_digits_before_block(s, end - 1, k - 1);
    }
}

/// The stem `name-[WxH]`, possibly followed by a counter `[n]`, ends with a
/// label that the cleaning step takes off, leaving `name`.
#[verifier::spinoff_prover]
#[verifier::rlimit(40)]
proof fn lemma_label_of_renamed_stem(name: Seq<char>, d: crate::model::Dimensions, n: nat)
    ensures
        label_prefix_len(
            if n == 0 {
                stem_with_dims(name, d)
            } else {
                stem_with_dims(name, d) + seq!['['] + decimal(n) + seq![']']
            },
        ) == Some(name.len() as int),
{
    let w = decimal(d.width.0 as nat);
    let h = decimal(d.height.0 as nat);
    lemma_decimal_ascii(d.width.0 as nat);
    lemma_decimal_ascii(d.height.0 as nat);
    lemma_decimal_ascii(n);
    let sd = stem_with_dims(name, d);
    let k = name.len() as int;
    let px = k + 2 + w.len();
    let pe = px + 1 + h.len();
    assert(sd.len() == pe + 1);
    assert(sd[k] == '-');
    assert(sd[k + 1] == '[');
    assert(sd[px] == 'x');
    assert(sd[pe] == ']');
    assert forall|i: int| k + 2 <= i < px implies is_ascii_digit(#[trigger] sd[i]) by {
        assert(sd[i] == w[i - k - 2]);
    }
    assert forall|i: int| px + 1 <= i < pe implies is_ascii_digit(#[trigger] sd[i]) by {
        assert(sd[i] == h[i - px - 1]);
    }
    let st = if n == 0 {
        sd
    } else {
        sd + seq!['['] + decimal(n) + seq![']']
    };
    assert forall|i: int| 0 <= i < sd.len() implies #[trigger] st[i] == sd[i] by {}
    assert forall|i: int| k + 2 <= i < px implies is_ascii_digit(#[trigger] st[i]) by {
        assert(st[i] == sd[i]);
    }
    assert forall|i: int| px + 1 <= i < pe implies is_ascii_digit(#[trigger] st[i]) by {
        assert(st[i] == sd[i]);
    }
    lemma_digits_before_block(st, pe, h.len() as int);
    lemma_digits_before_block(st, px, w.len() as int);
    assert(label_before(st, pe + 1) == Some(k));
    if n > 0 {
        let dn = decimal(n);
        let e = st.len() as int;
        assert(e == pe + 1 + 1 + dn.len() + 1);
        assert(st[e - 1] == ']');
        assert(st[pe + 1] == '[');
        assert forall|i: int| pe + 2 <= i < e - 1 implies is_ascii_digit(#[trigger] st[i]) by {
            assert(st[i] == dn[i - pe - 2]);
        }
        lemma_digits_before_block(st, e - 1, dn.len() as int);
        assert(label_before(st, e) is None);
        assert(counter_start(st) == Some(pe + 1));
    }
}

/// The stem a renamed file carries: `name-[WxH]`, with the counter `[n]`
/// where `n` is nonzero.
spec fn counted_stem(sd: Seq<char>, n: nat) -> Seq<char> {
    if n == 0 {
        sd
    } else {
        sd + seq!['['] + decimal(n) + seq![']']
    }
}

proof fn lemma_renamed_file_stem(sd: Seq<char>, ext: Seq<char>, n: nat, path: Seq<char>)
    requires
        sd.len() > 0,
        forall|i: int| 0 <= i < ext.len() ==> ext[i] != '.',
        file_name_of(path) == Some(target_name(sd, ext, n)),
    ensures
        file_stem_of(path) == Some(counted_stem(sd, n)),
{
    let p = counted_stem(sd, n);
    assert(p.len() > 0);
    assert(target_name(sd, ext, n) =~= p + seq!['.'] + ext);
    lemma_last_dot(p, ext);
    assert((p + seq!['.'] + ext).take(p.len() as int) =~= p);
}

#[verifier::spinoff_prover]
proof fn lemma_renamed_stem_cleans(name: Seq<char>, d: crate::model::Dimensions, n: nat, orig: Seq<char>)
    requires
        name == cleaned(orig),
        name.len() > 0,
        is_trimmed(name),
    ensures
        settle(counted_stem(stem_with_dims(name, d), n)) == name,
        named_like(counted_stem(stem_with_dims(name, d), n), stem_with_dims(name, d)),
{
    let sd = stem_with_dims(name, d);
    let p = counted_stem(sd, n);
    lemma_decimal_ascii(n);
    lemma_label_of_renamed_stem(name, d, n);
    assert(p.take(name.len() as int) =~= name);
    lemma_trim_start_of_trimmed(name);
    lemma_trim_end_of_trimmed(name);
    assert(clean_step(p) == name);
    cleaning_is_idempotent(orig);
    lemma_clean_step_shrinks(p);
    assert(settle(p) == settle(name));
    if n > 0 {
        assert(p.take(sd.len() as int) =~= sd);
        let r = p.skip(sd.len() as int);
        assert(r =~= seq!['['] + decimal(n) + seq![']']);
        assert forall|i: int| 1 <= i < r.len() - 1 implies is_ascii_digit(#[trigger] r[i]) by {
            assert(r[i] == decimal(n)[i - 1]);
        }
        assert(is_counter(r));
    }
}

/// Running again over renamed files changes nothing. Take a candidate `c`
/// whose cleaned name is nonempty and trimmed (which it is unless cleaning
/// kept the whole stem) and whose extension has no `.`, and a file
/// the planner may write for it in any mode: `name-[WxH].ext` or
/// `name-[WxH][n].ext` in its target directory (what every planned action
/// writes, by `planned_actions_are_sound`), whose file name is that name (as
/// joining a plain name gives, stated by `free_target_path`). Make a
/// candidate `c2` of that file as `process_file` does, with the same
/// dimensions. Then `c2` has the same cleaned name, already carries the stem
/// it would be given, and in place it is left alone.
pub proof fn rerun_converges(
    c: ImageCandidate,
    orig: Seq<char>,
    mode: TargetMode,
    n: nat,
    c2: ImageCandidate,
)
    requires
        c.cleaned_name@ == cleaned(orig),
        c.cleaned_name@.len() > 0,
        is_trimmed(c.cleaned_name@),
        forall|i: int| 0 <= i < c.extension@.len() ==> c.extension@[i] != '.',
        c2.path@ == counted_path(
            target_base(c, mode),
            stem_with_dims(c.cleaned_name@, c.dims),
            c.extension@,
            n,
        ),
        file_name_of(c2.path@) == Some(
            target_name(stem_with_dims(c.cleaned_name@, c.dims), c.extension@, n),
        ),
        c2.dims == c.dims,
        c2.cleaned_name@ == cleaned(file_stem_of(c2.path@)->0),
    ensures
        c2.cleaned_name@ == c.cleaned_name@,
        already_named(c2, TargetMode::InPlace),
        forall|t: Seq<Seq<char>>| action_for(c2, TargetMode::InPlace, t) is None,
{
    let name = c.cleaned_name@;
    let sd = stem_with_dims(name, c.dims);
    lemma_renamed_file_stem(sd, c.extension@, n, c2.path@);
    lemma_renamed_stem_cleans(name, c.dims, n, orig);
    assert(c2.cleaned_name@ == name);
    assert(already_named(c2, TargetMode::InPlace));
    assert forall|t: Seq<Seq<char>>| action_for(c2, TargetMode::InPlace, t) is None by {
        lemma_action_for_fits(c2, TargetMode::InPlace, t);
    }
}

} // verus!
