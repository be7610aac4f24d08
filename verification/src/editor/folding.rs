use vstd::prelude::*;

use super::printed::{
    compute_printed_lines, lemma_walk_own_height, lemma_walk_prefix, lemma_walk_same_ranges, printed_line_valid, printed_walk, spec_start_line, PrintedLine,
};
use super::{Editor, Position};
use crate::fold::{
    children_placed, children_wf, duplicate_folds, fold_wf, folds_wf, nested_models, nested_wf, Fold, FoldModel,
    NestedFold, NestedFoldModel, Range,
};
use crate::text::rope_len_lines;
use crate::LineNumber;
use super::movement::lemma_folds_ordered;
use vstd::math::min;

verus! {

// ---------------------------------------------------------------------------
// The folds as values
// ---------------------------------------------------------------------------

/// The values of a list of folds.
pub open spec fn fold_models(folds: Seq<Fold>) -> Seq<FoldModel> {
    folds.map_values(|f: Fold| f@)
}

/// `inner` lies within `outer`.
pub open spec fn range_within(inner: Range, outer: Range) -> bool {
    outer.start <= inner.start && inner.end <= outer.end
}

/// `line` is one of the lines of `r`.
pub open spec fn range_has_line(r: Range, line: int) -> bool {
    r.start <= line < r.end
}

/// A nested fold lifted to the top level, below a parent with `parent_full`
/// indent levels: it keeps its range, its closed levels and its own nested
/// folds, and its level count becomes absolute.
pub open spec fn hoisted(parent_full: nat, n: NestedFoldModel) -> FoldModel {
    FoldModel {
        range: n.range,
        num_closes: n.additional_num_closes,
        full_num_indents: parent_full + n.additional_full_num_indents,
        nested: n.nested,
    }
}

/// The folds after opening fold `i` by one level: a fold with one closed
/// level gives way to its nested folds, lifted to the top level; any other
/// keeps one closed level fewer.
pub open spec fn spec_open_one_level(ms: Seq<FoldModel>, i: int) -> Seq<FoldModel> {
    let f = ms[i];
    if f.num_closes == 1 {
        ms.take(i) + f.nested.map_values(|n: NestedFoldModel| hoisted(f.full_num_indents, n)) + ms.skip(
            i + 1,
        )
    } else {
        ms.update(
            i,
            FoldModel {
                range: f.range,
                num_closes: (f.num_closes - 1) as nat,
                full_num_indents: f.full_num_indents,
                nested: f.nested,
            },
        )
    }
}

/// The folds after closing fold `i` by one more level, when it has one left
/// to close.
pub open spec fn spec_close_one_more_level(ms: Seq<FoldModel>, i: int) -> Seq<FoldModel> {
    let f = ms[i];
    if f.num_closes == f.full_num_indents {
        ms
    } else {
        ms.update(
            i,
            FoldModel {
                range: f.range,
                num_closes: f.num_closes + 1,
                full_num_indents: f.full_num_indents,
                nested: f.nested,
            },
        )
    }
}

/// Closing one more level of a fold right after opening one of its levels
/// gives back the folds, where the fold had more than one level closed.
pub proof fn law_close_one_level_undoes_open_one_level(ms: Seq<FoldModel>, i: int)
    requires
        0 <= i < ms.len(),
        1 < ms[i].num_closes <= ms[i].full_num_indents,
    ensures
        spec_close_one_more_level(spec_open_one_level(ms, i), i) == ms,
{
    assert(spec_close_one_more_level(spec_open_one_level(ms, i), i) =~= ms);
}

/// Opening one level of a fold right after closing one more of its levels
/// gives back the folds, where the fold had a level closed and one open.
pub proof fn law_open_one_level_undoes_close_one_level(ms: Seq<FoldModel>, i: int)
    requires
        0 <= i < ms.len(),
        0 < ms[i].num_closes < ms[i].full_num_indents,
    ensures
        spec_open_one_level(spec_close_one_more_level(ms, i), i) == ms,
{
    assert(spec_open_one_level(spec_close_one_more_level(ms, i), i) =~= ms);
}

// ---------------------------------------------------------------------------
// Where a new fold goes
// ---------------------------------------------------------------------------

/// The first fold from index `k` on that lies within `r`.
pub open spec fn first_within(folds: Seq<Fold>, r: Range, k: int) -> Option<int>
    decreases folds.len() - k,
{
    if k >= folds.len() {
        None
    } else if range_within(folds[k].range, r) {
        Some(k)
    } else {
        first_within(folds, r, k + 1)
    }
}

/// How many folds from index `k` on, one after the other, end within `r`.
pub open spec fn count_ending_within(folds: Seq<Fold>, r: Range, k: int) -> int
    decreases folds.len() - k,
{
    if k >= folds.len() {
        0
    } else if folds[k].range.end <= r.end {
        1 + count_ending_within(folds, r, k + 1)
    } else {
        0
    }
}

/// The first fold from index `k` on that starts at or after `line`, or the
/// number of folds where there is none.
pub open spec fn first_starting_from(folds: Seq<Fold>, line: int, k: int) -> int
    decreases folds.len() - k,
{
    if k >= folds.len() {
        folds.len() as int
    } else if folds[k].range.start >= line {
        k
    } else {
        first_starting_from(folds, line, k + 1)
    }
}

/// The indices `[a, b)` of the folds that a new fold with range `r` takes the
/// place of: from the first fold within `r`, the run of folds ending within
/// `r` and the fold after that run; where no fold lies within `r`, the empty
/// range before the first fold that starts at or after the end of `r`.
pub open spec fn splice_range(folds: Seq<Fold>, r: Range) -> (int, int) {
    match first_within(folds, r, 0) {
        Some(p) => (p, p + count_ending_within(folds, r, p) + 1),
        None => {
            let q = first_starting_from(folds, r.end as int, 0);
            (q, q)
        },
    }
}

/// The fold list has an index for each end of the place a new fold with
/// range `r` takes.
pub open spec fn splice_possible(folds: Seq<Fold>, r: Range) -> bool {
    splice_range(folds, r).1 <= folds.len()
}

/// The new fold with range `r` fits between the folds it stands among: those
/// before it end by its start and those after it start at or after its end.
pub open spec fn splice_fits(folds: Seq<Fold>, r: Range) -> bool {
    let (a, b) = splice_range(folds, r);
    &&& a > 0 ==> folds[a - 1].range.end <= r.start
    &&& b < folds.len() ==> folds[b].range.start >= r.end
}

/// The folds with `new` in the place `splice_range` gives.
pub open spec fn spliced_seq(folds: Seq<Fold>, new: Fold) -> Seq<Fold> {
    let (a, b) = splice_range(folds, new.range);
    folds.take(a) + seq![new] + folds.skip(b)
}

proof fn lemma_first_within(folds: Seq<Fold>, r: Range, k: int)
    requires
        0 <= k,
    ensures
        match first_within(folds, r, k) {
            Some(p) => k <= p < folds.len() && range_within(folds[p].range, r) && forall|j: int|
                k <= j < p ==> !range_within(#[trigger] folds[j].range, r),
            None => forall|j: int| k <= j < folds.len() ==> !range_within(#[trigger] folds[j].range, r),
        },
    decreases folds.len() - k,
{
    if k < folds.len() && !range_within(folds[k].range, r) {
        lemma_first_within(folds, r, k + 1);
    }
}

proof fn lemma_count_ending_within(folds: Seq<Fold>, r: Range, k: int)
    requires
        0 <= k <= folds.len(),
    ensures
        0 <= count_ending_within(folds, r, k) <= folds.len() - k,
        forall|j: int|
            k <= j < k + count_ending_within(folds, r, k) ==> #[trigger] folds[j].range.end <= r.end,
        k + count_ending_within(folds, r, k) < folds.len() ==> folds[k + count_ending_within(
            folds,
            r,
            k,
        )].range.end > r.end,
    decreases folds.len() - k,
{
    if k < folds.len() && folds[k].range.end <= r.end {
        lemma_count_ending_within(folds, r, k + 1);
    }
}

proof fn lemma_first_starting_from(folds: Seq<Fold>, line: int, k: int)
    requires
        0 <= k <= folds.len(),
    ensures
        k <= first_starting_from(folds, line, k) <= folds.len(),
        forall|j: int|
            k <= j < first_starting_from(folds, line, k) ==> #[trigger] folds[j].range.start < line,
        first_starting_from(folds, line, k) < folds.len() ==> folds[first_starting_from(
            folds,
            line,
            k,
        )].range.start >= line,
    decreases folds.len() - k,
{
    if k < folds.len() && folds[k].range.start < line {
        lemma_first_starting_from(folds, line, k + 1);
    }
}

/// The place a new fold with range `r` takes in `folds`: see `splice_range`.
fn find_splice_range(folds: &Vec<Fold>, r: Range) -> (bounds: (usize, usize))
    requires
        splice_possible(folds@, r),
    ensures
        bounds.0 as int == splice_range(folds@, r).0,
        bounds.1 as int == splice_range(folds@, r).1,
        splice_range(folds@, r).0 <= splice_range(folds@, r).1 <= folds@.len(),
{
    let n = folds.len();
    let mut p: usize = 0;
    while p < n && !(folds[p].range.start >= r.start && folds[p].range.end <= r.end)
        invariant
            n == folds@.len(),
            0 <= p <= n,
            first_within(folds@, r, p as int) == first_within(folds@, r, 0),
        decreases n - p,
    {
        p += 1;
    }
    proof {
        lemma_first_within(folds@, r, p as int);
    }
    if p < n {
        let mut k: usize = p;
        while k < n && folds[k].range.end <= r.end
            invariant
                n == folds@.len(),
                p <= k <= n,
                count_ending_within(folds@, r, p as int) == (k - p) + count_ending_within(
                    folds@,
                    r,
                    k as int,
                ),
                first_within(folds@, r, 0) == Some(p as int),
                splice_possible(folds@, r),
            decreases n - k,
        {
            k += 1;
        }
        proof {
            lemma_count_ending_within(folds@, r, p as int);
        }
        (p, k + 1)
    } else {
        let mut q: usize = 0;
        while q < n && folds[q].range.start < r.end
            invariant
                n == folds@.len(),
                0 <= q <= n,
                first_starting_from(folds@, r.end as int, q as int) == first_starting_from(
                    folds@,
                    r.end as int,
                    0,
                ),
            decreases n - q,
        {
            q += 1;
        }
        (q, q)
    }
}

/// Splices `new_fold` into the folds, in place of the folds `splice_range`
/// gives.
pub fn splice_fold_into(folds: &mut Vec<Fold>, new_fold: Fold)
    requires
        splice_possible(old(folds)@, new_fold.range),
    ensures
        final(folds)@ == spliced_seq(old(folds)@, new_fold),
{
    let ghost orig = folds@;
    let (a, b) = find_splice_range(folds, new_fold.range);
    let mut m: usize = 0;
    while m < b - a
        invariant
            a <= b <= orig.len(),
            a == splice_range(orig, new_fold.range).0,
            b == splice_range(orig, new_fold.range).1,
            0 <= m <= b - a,
            folds@ == orig.take(a as int) + orig.skip(a + m),
        decreases b - a - m,
    {
        proof {
            assert(folds@.len() == orig.len() - m);
        }
        folds.remove(a);
        proof {
            assert(folds@ =~= orig.take(a as int) + orig.skip(a + m + 1));
        }
        m += 1;
    }
    folds.insert(a, new_fold);
    assert(folds@ =~= spliced_seq(orig, new_fold));
}

/// The place a new fold takes starts within the list and does not end
/// before it starts.
pub proof fn lemma_splice_range_bounds(folds: Seq<Fold>, r: Range)
    ensures
        0 <= splice_range(folds, r).0 <= splice_range(folds, r).1,
        splice_range(folds, r).0 <= folds.len(),
{
    match first_within(folds, r, 0) {
        Some(p) => {
            lemma_first_within(folds, r, 0);
            lemma_count_ending_within(folds, r, p);
        },
        None => {
            lemma_first_starting_from(folds, r.end as int, 0);
        },
    }
}

/// A fold list with a new fold spliced in is well formed where the new fold
/// is and fits where it goes.
pub proof fn lemma_splice_wf(folds: Seq<Fold>, new: Fold, num_lines: int)
    requires
        folds_wf(folds, num_lines),
        fold_wf(new@, num_lines),
        splice_possible(folds, new.range),
        splice_fits(folds, new.range),
    ensures
        folds_wf(spliced_seq(folds, new), num_lines),
{
    let (a, b) = splice_range(folds, new.range);
    let result = spliced_seq(folds, new);
    match first_within(folds, new.range, 0) {
        Some(p) => {
            lemma_first_within(folds, new.range, 0);
            lemma_count_ending_within(folds, new.range, p);
        },
        None => {
            lemma_first_starting_from(folds, new.range.end as int, 0);
        },
    }
    assert(result.len() == a + 1 + (folds.len() - b));
    assert forall|j: int| 0 <= j < result.len() implies fold_wf(#[trigger] result[j]@, num_lines) by {
        if j < a {
            assert(result[j] == folds[j]);
        } else if j > a {
            assert(result[j] == folds[j - a - 1 + b]);
        }
    }
    assert forall|j: int, k: int|
        0 <= j < k < result.len() implies #[trigger] result[j].range.end <= #[trigger] result[k].range.start by {
        if k < a {
            assert(result[j] == folds[j] && result[k] == folds[k]);
        } else if k == a {
            assert(result[j] == folds[j]);
            assert(folds[j].range.end <= folds[a - 1].range.end) by {
                if j < a - 1 {
                    assert(fold_wf(folds[a - 1]@, num_lines));
                }
            }
        } else if j > a {
            assert(result[j] == folds[j - a - 1 + b] && result[k] == folds[k - a - 1 + b]);
        } else if j == a {
            assert(result[k] == folds[k - a - 1 + b]);
            assert(folds[b].range.start <= folds[k - a - 1 + b].range.start) by {
                if k - a - 1 + b > b {
                    assert(fold_wf(folds[b]@, num_lines));
                }
            }
        } else {
            assert(result[j] == folds[j]);
            assert(result[k] == folds[k - a - 1 + b]);
            assert(folds[j].range.end <= folds[a - 1].range.end) by {
                if j < a - 1 {
                    assert(fold_wf(folds[a - 1]@, num_lines));
                }
            }
            assert(folds[b].range.start <= folds[k - a - 1 + b].range.start) by {
                if k - a - 1 + b > b {
                    assert(fold_wf(folds[b]@, num_lines));
                }
            }
        }
    }
}

/// Taking a fold out keeps a fold list well formed.
pub proof fn lemma_remove_wf(folds: Seq<Fold>, i: int, num_lines: int)
    requires
        folds_wf(folds, num_lines),
        0 <= i < folds.len(),
    ensures
        folds_wf(folds.remove(i), num_lines),
{
    let r = folds.remove(i);
    assert forall|j: int| 0 <= j < r.len() implies fold_wf(#[trigger] r[j]@, num_lines) by {
        if j >= i {
            assert(r[j] == folds[j + 1]);
        }
    }
    assert forall|j: int, k: int| 0 <= j < k < r.len() implies #[trigger] r[j].range.end <= #[trigger] r[k].range.start by {
        let jj = if j < i { j } else { j + 1 };
        let kk = if k < i { k } else { k + 1 };
        assert(r[j] == folds[jj] && r[k] == folds[kk]);
    }
}

/// Fold `fold`'s nested folds lifted to the top level.
fn hoist_nested(fold: &Fold) -> (hoisted_folds: Vec<Fold>)
    requires
        children_wf(fold@.nested, fold.range.start as int, fold.range.end as int, fold.full_num_indents as nat),
    ensures
        fold_models(hoisted_folds@) == fold@.nested.map_values(
            |n: NestedFoldModel| hoisted(fold@.full_num_indents, n),
        ),
{
    let ghost target = fold@.nested.map_values(|n: NestedFoldModel| hoisted(fold@.full_num_indents, n));
    let mut result: Vec<Fold> = Vec::new();
    let mut k: usize = 0;
    while k < fold.nested.len()
        invariant
            0 <= k <= fold.nested@.len(),
            fold@.nested.len() == fold.nested@.len(),
            children_wf(fold@.nested, fold.range.start as int, fold.range.end as int, fold.full_num_indents as nat),
            target == fold@.nested.map_values(|n: NestedFoldModel| hoisted(fold@.full_num_indents, n)),
            result@.len() == k,
            forall|j: int| 0 <= j < k ==> #[trigger] result@[j]@ == target[j],
        decreases fold.nested@.len() - k,
    {
        let copy = fold.nested[k].duplicate();
        proof {
            assert(fold@.nested[k as int] == fold.nested@[k as int]@);
            assert(nested_wf(fold@.nested[k as int], fold.full_num_indents as nat));
        }
        let lifted = Fold {
            range: copy.range,
            num_closes: copy.additional_num_closes,
            full_num_indents: fold.full_num_indents + copy.additional_full_num_indents,
            nested: copy.nested,
        };
        proof {
            assert(lifted@.nested =~= copy@.nested);
        }
        result.push(lifted);
        k += 1;
    }
    assert(fold_models(result@) =~= target);
    result
}

/// The folds with fold `i` opened by one level: see `spec_open_one_level`.
pub fn opened_one_level(folds: &Vec<Fold>, i: usize, Ghost(num_lines): Ghost<int>) -> (result: Vec<Fold>)
    requires
        folds_wf(folds@, num_lines),
        i < folds@.len(),
    ensures
        fold_models(result@) == spec_open_one_level(fold_models(folds@), i as int),
        folds_wf(result@, num_lines),
{
    let ghost ms = fold_models(folds@);
    let ghost target = spec_open_one_level(ms, i as int);
    proof {
        assert(ms[i as int] == folds@[i as int]@);
        assert(fold_wf(folds@[i as int]@, num_lines));
    }
    let mut result: Vec<Fold> = Vec::new();
    let mut k: usize = 0;
    while k < i
        invariant
            0 <= k <= i < folds@.len(),
            ms == fold_models(folds@),
            target == spec_open_one_level(ms, i as int),
            result@.len() == k,
            forall|j: int| 0 <= j < k ==> #[trigger] result@[j]@ == target[j],
        decreases i - k,
    {
        result.push(folds[k].duplicate());
        k += 1;
    }
    let f = &folds[i];
    let ghost middle_len: int;
    if f.num_closes == 1 {
        let lifted = hoist_nested(f);
        proof {
            middle_len = lifted@.len() as int;
        }
        let mut m: usize = 0;
        while m < lifted.len()
            invariant
                0 <= m <= lifted@.len(),
                result@.len() == i + m,
                forall|j: int| 0 <= j < result@.len() ==> #[trigger] result@[j]@ == target[j],
                fold_models(lifted@) == folds@[i as int]@.nested.map_values(
                    |n: NestedFoldModel| hoisted(folds@[i as int]@.full_num_indents, n),
                ),
                ms[i as int] == folds@[i as int]@,
                folds@[i as int].num_closes == 1,
                target == spec_open_one_level(ms, i as int),
                0 <= i < folds@.len(),
                ms.len() == folds@.len(),
                middle_len == lifted@.len(),
            decreases lifted@.len() - m,
        {
            proof {
                assert(fold_models(lifted@)[m as int] == lifted@[m as int]@);
                assert(target[i + m] == fold_models(lifted@)[m as int]);
            }
            result.push(lifted[m].duplicate());
            m += 1;
        }
    } else {
        proof {
            middle_len = 1;
        }
        let copy = f.duplicate();
        let lowered = Fold {
            range: copy.range,
            num_closes: copy.num_closes - 1,
            full_num_indents: copy.full_num_indents,
            nested: copy.nested,
        };
        result.push(lowered);
    }
    let total = folds.len();
    assert(target.len() == folds@.len() - 1 + middle_len);
    let mut k: usize = i + 1;
    while k < folds.len()
        invariant
            i < k <= folds@.len(),
            ms == fold_models(folds@),
            target == spec_open_one_level(ms, i as int),
            target.len() == folds@.len() - 1 + middle_len,
            result@.len() == i + middle_len + (k - i - 1),
            forall|j: int| 0 <= j < result@.len() ==> #[trigger] result@[j]@ == target[j],
            forall|j: int| i < j < folds@.len() ==> target[j - 1 + middle_len] == #[trigger] ms[j],
        decreases folds@.len() - k,
    {
        proof {
            assert(ms[k as int] == folds@[k as int]@);
            assert(target[k - 1 + middle_len] == ms[k as int]);
        }
        result.push(folds[k].duplicate());
        k += 1;
    }
    proof {
        assert(fold_models(result@) =~= target);
        lemma_open_one_level_wf(folds@, i as int, result@, num_lines);
    }
    result
}

/// Opening a fold by one level keeps a fold list well formed.
pub proof fn lemma_open_one_level_wf(folds: Seq<Fold>, i: int, result: Seq<Fold>, num_lines: int)
    requires
        folds_wf(folds, num_lines),
        0 <= i < folds.len(),
        fold_models(result) == spec_open_one_level(fold_models(folds), i),
    ensures
        folds_wf(result, num_lines),
{
    let ms = fold_models(folds);
    let target = spec_open_one_level(ms, i);
    let f = folds[i]@;
    assert(ms.len() == folds.len());
    assert(fold_models(result).len() == result.len());
    assert(ms[i] == f);
    assert(fold_wf(f, num_lines));
    assert forall|j: int| 0 <= j < result.len() implies #[trigger] result[j]@ == target[j] by {
        assert(fold_models(result)[j] == result[j]@);
    }
    if f.num_closes == 1 {
        let c = f.nested.len() as int;
        assert(result.len() == folds.len() - 1 + c);
        assert forall|j: int| 0 <= j < result.len() implies fold_wf(#[trigger] result[j]@, num_lines) by {
            if j < i {
                assert(result[j]@ == folds[j]@);
            } else if j < i + c {
                let n = f.nested[j - i];
                assert(nested_wf(n, f.full_num_indents));
                assert(result[j]@ == hoisted(f.full_num_indents, n));
            } else {
                assert(result[j]@ == ms[j - c + 1]);
                assert(ms[j - c + 1] == folds[j - c + 1]@);
            }
        }
        assert forall|j: int, k: int|
            0 <= j < k < result.len() implies #[trigger] result[j].range.end <= #[trigger] result[k].range.start by {
            assert(result[j].range == result[j]@.range);
            assert(result[k].range == result[k]@.range);
            let rj = if j < i {
                folds[j].range
            } else if j < i + c {
                f.nested[j - i].range
            } else {
                folds[j - c + 1].range
            };
            let rk = if k < i {
                folds[k].range
            } else if k < i + c {
                f.nested[k - i].range
            } else {
                folds[k - c + 1].range
            };
            if j < i {
                assert(result[j]@ == ms[j] && ms[j] == folds[j]@);
            } else if j < i + c {
                assert(result[j]@ == hoisted(f.full_num_indents, f.nested[j - i]));
            } else {
                assert(result[j]@ == ms[j - c + 1] && ms[j - c + 1] == folds[j - c + 1]@);
            }
            if k < i {
                assert(result[k]@ == ms[k] && ms[k] == folds[k]@);
            } else if k < i + c {
                assert(result[k]@ == hoisted(f.full_num_indents, f.nested[k - i]));
            } else {
                assert(result[k]@ == ms[k - c + 1] && ms[k - c + 1] == folds[k - c + 1]@);
            }
            assert(result[j].range == rj);
            assert(result[k].range == rk);
            if j < i && k >= i {
                assert(folds[j].range.end <= folds[i].range.start);
            }
            if k >= i + c && j < i + c && j >= i {
                assert(folds[i].range.end <= folds[k - c + 1].range.start);
            }
        }
    } else {
        assert(result.len() == folds.len());
        assert forall|j: int| 0 <= j < result.len() implies fold_wf(#[trigger] result[j]@, num_lines) by {
            if j != i {
                assert(result[j]@ == ms[j] && ms[j] == folds[j]@);
            }
        }
        assert forall|j: int, k: int|
            0 <= j < k < result.len() implies #[trigger] result[j].range.end <= #[trigger] result[k].range.start by {
            assert(result[j].range == result[j]@.range);
            assert(result[k].range == result[k]@.range);
            assert(result[j]@.range == folds[j]@.range);
            assert(result[k]@.range == folds[k]@.range);
        }
    }
}

// ---------------------------------------------------------------------------
// The innermost fold under a line
// ---------------------------------------------------------------------------

/// The first nested fold from index `k` on whose range has `line`.
pub open spec fn first_nested_with_line(cs: Seq<NestedFoldModel>, line: int, k: int) -> Option<int>
    decreases cs.len() - k,
{
    if k >= cs.len() {
        None
    } else if range_has_line(cs[k].range, line) {
        Some(k)
    } else {
        first_nested_with_line(cs, line, k + 1)
    }
}

pub proof fn lemma_first_nested_with_line(cs: Seq<NestedFoldModel>, line: int, k: int)
    requires
        0 <= k,
    ensures
        match first_nested_with_line(cs, line, k) {
            Some(p) => k <= p < cs.len() && range_has_line(cs[p].range, line) && forall|j: int|
                k <= j < p ==> !range_has_line(#[trigger] cs[j].range, line),
            None => forall|j: int| k <= j < cs.len() ==> !range_has_line(#[trigger] cs[j].range, line),
        },
    decreases cs.len() - k,
{
    if k < cs.len() && !range_has_line(cs[k].range, line) {
        lemma_first_nested_with_line(cs, line, k + 1);
    }
}

/// Among the nested folds `cs` and the folds nested in them, the innermost
/// one whose range has `line`, going into the first nested fold that has it
/// at each level; with it, the levels that the folds around it (among `cs`
/// and below) add.
pub open spec fn spec_innermost_nested(line: int, cs: Seq<NestedFoldModel>) -> Option<(NestedFoldModel, nat)>
    decreases cs,
{
    match first_nested_with_line(cs, line, 0) {
        None => None,
        Some(k) => {
            proof {
                lemma_first_nested_with_line(cs, line, 0);
            }
            let c = cs[k];
            match spec_innermost_nested(line, c.nested) {
                Some(found) => Some((found.0, found.1 + c.additional_full_num_indents)),
                None => Some((c, 0)),
            }
        },
    }
}

/// Going down from the nested folds `cs` by the indices of `path` (first
/// among `cs`, then among the nested folds of the one reached, and so on):
/// the fold reached, and the indent levels that the folds along the way add,
/// its own included.
pub open spec fn follow_path(cs: Seq<NestedFoldModel>, path: Seq<int>) -> Option<(NestedFoldModel, nat)>
    decreases path.len(),
{
    if path.len() == 0 || !(0 <= path[0] < cs.len()) {
        None
    } else if path.len() == 1 {
        Some((cs[path[0]], cs[path[0]].additional_full_num_indents))
    } else {
        match follow_path(cs[path[0]].nested, path.drop_first()) {
            Some((n, levels)) => Some((n, levels + cs[path[0]].additional_full_num_indents)),
            None => None,
        }
    }
}

/// The innermost nested fold at a line: where none of the folds `cs` has
/// the line, nothing is found; otherwise the fold found lies somewhere below
/// `cs`, has the line, and none of its own nested folds has it, and the
/// levels given with it are those that the folds above it add.
pub proof fn law_innermost_nested_is_innermost(line: int, cs: Seq<NestedFoldModel>)
    ensures
        match spec_innermost_nested(line, cs) {
            None => forall|i: int| 0 <= i < cs.len() ==> !range_has_line(#[trigger] cs[i].range, line),
            Some((n, above)) => {
                &&& range_has_line(n.range, line)
                &&& forall|i: int| 0 <= i < n.nested.len() ==> !range_has_line(#[trigger] n.nested[i].range, line)
                &&& exists|path: Seq<int>| #[trigger]
                    follow_path(cs, path) == Some((n, above + n.additional_full_num_indents))
            },
        },
    decreases cs,
{
    lemma_first_nested_with_line(cs, line, 0);
    match first_nested_with_line(cs, line, 0) {
        None => {},
        Some(k) => {
            let c = cs[k];
            law_innermost_nested_is_innermost(line, c.nested);
            match spec_innermost_nested(line, c.nested) {
                Some((m, a)) => {
                    let p = choose|p: Seq<int>| #[trigger]
                        follow_path(c.nested, p) == Some((m, a + m.additional_full_num_indents));
                    let path = seq![k].add(p);
                    assert(path.drop_first() =~= p);
                    assert(p.len() > 0);
                    assert(follow_path(cs, path) == Some((m, (a + c.additional_full_num_indents) + m.additional_full_num_indents)));
                },
                None => {
                    let path = seq![k];
                    assert(follow_path(cs, path) == Some((c, 0 + c.additional_full_num_indents)));
                },
            }
        },
    }
}

/// The innermost nested fold (among `nested` and the folds nested in them)
/// whose range has `line_num`, together with the indent levels that the
/// nested folds around it add to those of the parent of `nested`.
pub fn find_innermost_max_fold_nested(
    line_num: usize,
    nested: &Vec<NestedFold>,
    Ghost(lo): Ghost<int>,
    Ghost(hi): Ghost<int>,
    Ghost(base): Ghost<nat>,
) -> (found: Option<(&NestedFold, usize)>)
    requires
        children_wf(nested_models(nested@), lo, hi, base),
    ensures
        match found {
            Some((n, acc)) => {
                &&& spec_innermost_nested(line_num as int, nested_models(nested@)) == Some((n@, acc as nat))
                &&& nested_wf(n@, (base + acc) as nat)
                &&& lo <= n.range.start
                &&& n.range.end <= hi
            },
            None => spec_innermost_nested(line_num as int, nested_models(nested@)) is None,
        },
    decreases nested@,
{
    let ghost cs = nested_models(nested@);
    let mut k: usize = 0;
    while k < nested.len() && !(nested[k].range.start <= line_num && line_num < nested[k].range.end)
        invariant
            0 <= k <= nested@.len(),
            cs == nested_models(nested@),
            cs.len() == nested@.len(),
            first_nested_with_line(cs, line_num as int, k as int) == first_nested_with_line(
                cs,
                line_num as int,
                0,
            ),
        decreases nested@.len() - k,
    {
        proof {
            assert(cs[k as int] == nested@[k as int]@);
        }
        k += 1;
    }
    if k == nested.len() {
        return None;
    }
    proof {
        assert(cs[k as int] == nested@[k as int]@);
        assert(first_nested_with_line(cs, line_num as int, k as int) == Some(k as int));
        assert(nested_wf(cs[k as int], base));
        assert(cs[k as int].nested =~= nested_models(nested@[k as int].nested@));
    }
    let found_nested = &nested[k];
    let inner = find_innermost_max_fold_nested(
        line_num,
        &found_nested.nested,
        Ghost(found_nested.range.start as int),
        Ghost(found_nested.range.end as int),
        Ghost((base + found_nested.additional_full_num_indents) as nat),
    );
    match inner {
        Some((n, acc)) => Some((n, acc + found_nested.additional_full_num_indents)),
        None => Some((found_nested, 0)),
    }
}

/// The values of the folds with a fold of value `new` in the place
/// `splice_range` gives.
pub open spec fn spliced_models(folds: Seq<Fold>, new: FoldModel) -> Seq<FoldModel> {
    let (a, b) = splice_range(folds, new.range);
    fold_models(folds).take(a) + seq![new] + fold_models(folds).skip(b)
}

proof fn lemma_spliced_models(folds: Seq<Fold>, new: Fold)
    requires
        splice_possible(folds, new.range),
    ensures
        fold_models(spliced_seq(folds, new)) == spliced_models(folds, new@),
{
    let (a, b) = splice_range(folds, new.range);
    match first_within(folds, new.range, 0) {
        Some(p) => {
            lemma_first_within(folds, new.range, 0);
            lemma_count_ending_within(folds, new.range, p);
        },
        None => {
            lemma_first_starting_from(folds, new.range.end as int, 0);
        },
    }
    assert(fold_models(spliced_seq(folds, new)) =~= spliced_models(folds, new@));
}

/// The first fold from index `k` on whose range has `line`.
pub open spec fn first_fold_with_line(folds: Seq<Fold>, line: int, k: int) -> Option<int>
    decreases folds.len() - k,
{
    if k >= folds.len() {
        None
    } else if range_has_line(folds[k].range, line) {
        Some(k)
    } else {
        first_fold_with_line(folds, line, k + 1)
    }
}

proof fn lemma_first_fold_with_line(folds: Seq<Fold>, line: int, k: int)
    requires
        0 <= k,
    ensures
        match first_fold_with_line(folds, line, k) {
            Some(p) => k <= p < folds.len() && range_has_line(folds[p].range, line),
            None => forall|j: int| k <= j < folds.len() ==> !range_has_line(#[trigger] folds[j].range, line),
        },
    decreases folds.len() - k,
{
    if k < folds.len() && !range_has_line(folds[k].range, line) {
        lemma_first_fold_with_line(folds, line, k + 1);
    }
}

/// The index of the first fold whose range has `line`.
fn position_of_fold_with_line(folds: &Vec<Fold>, line: LineNumber) -> (idx: Option<usize>)
    ensures
        match idx {
            Some(j) => first_fold_with_line(folds@, line as int, 0) == Some(j as int),
            None => first_fold_with_line(folds@, line as int, 0) is None,
        },
{
    let mut k: usize = 0;
    while k < folds.len()
        invariant
            0 <= k <= folds@.len(),
            first_fold_with_line(folds@, line as int, k as int) == first_fold_with_line(folds@, line as int, 0),
        decreases folds@.len() - k,
    {
        if folds[k].range.start <= line && line < folds[k].range.end {
            return Some(k);
        }
        k += 1;
    }
    None
}

/// The fold to close at `line`, from the largest folds `max`: the innermost
/// of the folds nested in the first one that has the line, lifted to the top
/// level, or that fold itself where none of its nested folds has the line.
pub open spec fn spec_fold_to_close(max: Seq<Fold>, line: int) -> Option<FoldModel> {
    match first_fold_with_line(max, line, 0) {
        None => None,
        Some(j) => match spec_innermost_nested(line, max[j]@.nested) {
            None => Some(max[j]@),
            Some(found) => Some(hoisted(max[j]@.full_num_indents + found.1, found.0)),
        },
    }
}

/// Closing one level at a line closes the innermost of the largest folds
/// at it: nothing where no largest fold has the line; otherwise a fold that
/// has the line and none of whose nested folds has it, which is a largest
/// fold that has the line, or a fold somewhere below one, lifted to the top
/// level with its own closed levels and nested folds and, as its level count,
/// that of the largest fold plus the levels every fold on the way down adds,
/// its own included.
pub proof fn law_fold_to_close_is_innermost(max: Seq<Fold>, line: int)
    ensures
        match spec_fold_to_close(max, line) {
            None => forall|j: int| 0 <= j < max.len() ==> !range_has_line(#[trigger] max[j].range, line),
            Some(f) => {
                &&& range_has_line(f.range, line)
                &&& forall|i: int| 0 <= i < f.nested.len() ==> !range_has_line(#[trigger] f.nested[i].range, line)
                &&& exists|j: int|
                    0 <= j < max.len() && range_has_line(#[trigger] max[j].range, line) && (f == max[j]@
                        || exists|path: Seq<int>|
                        #[trigger] follow_path(max[j]@.nested, path) matches Some((n, levels)) && f.range
                            == n.range && f.nested == n.nested && f.num_closes == n.additional_num_closes
                            && f.full_num_indents == max[j]@.full_num_indents + levels)
            },
        },
{
    lemma_first_fold_with_line(max, line, 0);
    match first_fold_with_line(max, line, 0) {
        None => {},
        Some(j) => {
            let m = max[j]@;
            law_innermost_nested_is_innermost(line, m.nested);
            match spec_innermost_nested(line, m.nested) {
                None => {
                    assert(m.range == max[j].range);
                },
                Some((n, above)) => {
                    let path = choose|path: Seq<int>| #[trigger]
                        follow_path(m.nested, path) == Some((n, above + n.additional_full_num_indents));
                    assert(follow_path(max[j]@.nested, path) matches Some((n2, levels)) && n2 == n);
                },
            }
        },
    }
}

/// A largest fold, or a fold nested in one together with the indent levels
/// of its parent.
pub enum FoldOrNestedFold<'a> {
    Fold(&'a Fold),
    NestedFold(&'a NestedFold, usize),
}

/// The first row from index `k` on that starts at `line`.
pub open spec fn first_row_starting_at(rows: Seq<PrintedLine>, folds: Seq<Fold>, line: int, k: int) -> Option<int>
    decreases rows.len() - k,
{
    if k >= rows.len() {
        None
    } else if spec_start_line(rows[k], folds) == line {
        Some(k)
    } else {
        first_row_starting_at(rows, folds, line, k + 1)
    }
}

proof fn lemma_first_row_starting_at(rows: Seq<PrintedLine>, folds: Seq<Fold>, line: int, k: int)
    requires
        0 <= k,
    ensures
        match first_row_starting_at(rows, folds, line, k) {
            Some(p) => k <= p < rows.len() && spec_start_line(rows[p], folds) == line,
            None => forall|j: int| k <= j < rows.len() ==> spec_start_line(#[trigger] rows[j], folds) != line,
        },
    decreases rows.len() - k,
{
    if k < rows.len() && spec_start_line(rows[k], folds) != line {
        lemma_first_row_starting_at(rows, folds, line, k + 1);
    }
}

impl Editor {
    /// Closing the largest fold at the cursor does not panic, and the fold
    /// fits among the open folds: see `splice_possible`, `splice_fits`, and
    /// the fold's first line is on the screen afterwards.
    pub open spec fn fully_close_allowed(&self) -> bool {
        first_fold_with_line(
            self.max_folds@,
            spec_start_line(self.cursor_row_line(), self.folds@),
            0,
        ) matches Some(j) ==> {
            let m = self.max_folds@[j];
            let new_folds = spliced_seq(self.folds@, m);
            &&& splice_possible(self.folds@, m.range)
            &&& splice_fits(self.folds@, m.range)
            &&& first_row_starting_at(
                self.walk_with(new_folds, self.top_start()),
                new_folds,
                m.range.start as int,
                0,
            ) is Some
        }
    }

    /// Closing one more level at the cursor's line does not panic and the
    /// fold it closes fits among the open folds.
    pub open spec fn close_one_level_allowed(&self) -> bool {
        self.cursor_row_line() matches PrintedLine::Line(l) ==> (spec_fold_to_close(
            self.max_folds@,
            l as int,
        ) matches Some(m) ==> {
            &&& splice_possible(self.folds@, m.range)
            &&& splice_fits(self.folds@, m.range)
        })
    }

    /// What opening the fold at the cursor of `old` all the way gives: the
    /// fold is gone and the rows are shown again from the same top line; on
    /// a line, nothing changes.
    pub open spec fn fully_opened_from(&self, old: &Editor) -> bool {
        &&& self.wf()
        &&& self.same_but_folds(old)
        &&& match old.cursor_row_line() {
            PrintedLine::Fold(i) => {
                &&& self.folds@ == old.folds@.remove(i as int)
                &&& self.shown_from(old, old.top_start())
            },
            PrintedLine::Line(_) => *self == *old,
        }
    }

    /// What closing, all the way, the largest fold with the cursor's line
    /// gives: the fold is spliced in, the rows are shown again from the same
    /// top line, and the cursor goes to the fold's row.
    pub open spec fn fully_closed_from(&self, old: &Editor) -> bool {
        &&& self.wf()
        &&& self.same_but_folds(old)
        &&& match first_fold_with_line(
            old.max_folds@,
            spec_start_line(old.cursor_row_line(), old.folds@),
            0,
        ) {
            None => *self == *old,
            Some(j) => {
                let m = old.max_folds@[j];
                &&& fold_models(self.folds@) == spliced_models(old.folds@, m@)
                &&& self.shows_rows_from(old.top_start())
                &&& self.cursor_position.column == old.cursor_position.column
                &&& Some(self.cursor_position.row as int) == first_row_starting_at(
                    self.printed_lines@,
                    self.folds@,
                    m.range.start as int,
                    0,
                )
            },
        }
    }

    /// What opening one level at the cursor of `old` gives: on a fold row,
    /// the folds of `spec_open_one_level` and the rows shown again from the
    /// same top line; on a line, nothing changes.
    pub open spec fn opened_one_level_from(&self, old: &Editor) -> bool {
        &&& self.wf()
        &&& self.same_but_folds(old)
        &&& match old.cursor_row_line() {
            PrintedLine::Fold(i) => {
                &&& fold_models(self.folds@) == spec_open_one_level(fold_models(old.folds@), i as int)
                &&& self.shown_from(old, old.top_start())
            },
            PrintedLine::Line(_) => *self == *old,
        }
    }

    /// What closing one more level at the cursor of `old` gives: on a fold
    /// row, the fold keeps one more level closed (where it has one left) and
    /// the rows are shown again from the same top line; on a line, the fold
    /// `spec_fold_to_close` gives is spliced in and the cursor goes to its
    /// row, where that row is on the screen.
    pub open spec fn closed_one_level_from(&self, old: &Editor) -> bool {
        &&& self.wf()
        &&& self.same_but_folds(old)
        &&& match old.cursor_row_line() {
            PrintedLine::Fold(i) => {
                let f = old.folds@[i as int];
                if f.num_closes == f.full_num_indents {
                    *self == *old
                } else {
                    &&& self.folds@ == old.folds@.update(
                        i as int,
                        Fold {
                            range: f.range,
                            num_closes: (f.num_closes + 1) as usize,
                            full_num_indents: f.full_num_indents,
                            nested: f.nested,
                        },
                    )
                    &&& self.shown_from(old, old.top_start())
                }
            },
            PrintedLine::Line(l) => match spec_fold_to_close(old.max_folds@, l as int) {
                None => *self == *old,
                Some(m) => {
                    &&& fold_models(self.folds@) == spliced_models(old.folds@, m)
                    &&& self.shows_rows_from(old.top_start())
                    &&& self.cursor_position.column == old.cursor_position.column
                    &&& self.cursor_position.row == match first_row_starting_at(
                        self.printed_lines@,
                        self.folds@,
                        m.range.start as int,
                        0,
                    ) {
                        Some(k) => k,
                        None => min(old.cursor_position.row as int, self.printed_lines@.len() - 1),
                    }
                },
            },
        }
    }

    /// Everything but the folds and the view (cursor, top line, rows) is the
    /// same in both editors.
    pub open spec fn same_but_folds(&self, other: &Editor) -> bool {
        &&& self.current_file == other.current_file
        &&& self.initial_terminal_size == other.initial_terminal_size
        &&& self.printed_line_chunks == other.printed_line_chunks
        &&& self.current_tree_sitter_highlights == other.current_tree_sitter_highlights
        &&& self.tree_sitter_highlight_colors == other.tree_sitter_highlight_colors
        &&& self.current_file_shift_width == other.current_file_shift_width
        &&& self.current_file_indents == other.current_file_indents
        &&& self.max_folds == other.max_folds
        &&& self.mode == other.mode
        &&& self.last_rendered_grid == other.last_rendered_grid
        &&& self.disallow_folding == other.disallow_folding
        &&& self.disallow_ex_command_mode == other.disallow_ex_command_mode
        &&& self.highlight_range == other.highlight_range
        &&& self.current_highlight_ranges == other.current_highlight_ranges
        &&& self.sticky_cursor_position_column == other.sticky_cursor_position_column
    }

    /// After the folds changed, the top row shows file line `top`, the rows
    /// are the walk from there with the new folds, and the cursor keeps its
    /// column and its row (or goes to the last row, where fewer are left).
    pub open spec fn shown_from(&self, old: &Editor, top: int) -> bool {
        &&& self.shows_rows_from(top)
        &&& self.cursor_position.column == old.cursor_position.column
        &&& self.cursor_position.row == min(old.cursor_position.row as int, self.printed_lines@.len() - 1)
    }

    /// The top row shows file line `top` and the rows are the walk from there.
    pub open spec fn shows_rows_from(&self, top: int) -> bool {
        &&& self.top_line == PrintedLine::Line(top as usize)
        &&& self.printed_lines@ == self.walk_from(top, self.grid_height() as nat)
    }

    /// The rows of the file area from line `top` on with the folds `folds`.
    pub open spec fn walk_with(&self, folds: Seq<Fold>, top: int) -> Seq<PrintedLine> {
        printed_walk(self.num_lines(), folds, self.disallow_folding, top, self.grid_height() as nat)
    }

    /// Shows the file from line `top` on with the current folds.
    fn show_from_line(&mut self, top: LineNumber)
        requires
            old(self).wf_content(),
            top < old(self).num_lines(),
        ensures
            final(self).wf(),
            final(self).same_but_folds(old(self)),
            final(self).folds == old(self).folds,
            final(self).shown_from(old(self), top as int),
    {
        self.top_line = PrintedLine::Line(top);
        self.recompute_printed_lines();
        let last = self.printed_lines.len() - 1;
        if self.cursor_position.row as usize > last {
            self.cursor_position.row = last as u16;
        }
    }

    /// Opens the fold under the cursor all the way: it is no longer folded.
    pub fn fully_open_fold_under_cursor(&mut self)
        requires
            old(self).wf(),
        ensures
            final(self).fully_opened_from(old(self)),
    {
        let row = self.cursor_position.row as usize;
        if let PrintedLine::Fold(fold_index) = self.printed_lines[row] {
            proof {
                self.lemma_row(row as int);
                lemma_folds_ordered(self.folds@, self.num_lines());
                lemma_remove_wf(self.folds@, fold_index as int, self.num_lines());
            }
            let top = self.top_line.start_line(&self.folds);
            let _ = self.folds.remove(fold_index);
            self.show_from_line(top);
        }
    }

    /// Opens the fold under the cursor by one level: a fold with one closed
    /// level gives way to the folds nested in it; any other keeps one closed
    /// level fewer.
    pub fn open_fold_under_cursor_one_level(&mut self)
        requires
            old(self).wf(),
        ensures
            final(self).opened_one_level_from(old(self)),
    {
        let row = self.cursor_position.row as usize;
        if let PrintedLine::Fold(fold_index) = self.printed_lines[row] {
            proof {
                self.lemma_row(row as int);
                lemma_folds_ordered(self.folds@, self.num_lines());
            }
            let top = self.top_line.start_line(&self.folds);
            let ghost n = self.num_lines();
            self.folds = opened_one_level(&self.folds, fold_index, Ghost(n));
            self.show_from_line(top);
        }
    }
}

impl Editor {
    /// Splices `new_fold` into the folds: it takes the place of the folds
    /// `splice_range` gives.
    pub fn splice_in_new_fold(&mut self, new_fold: Fold)
        requires
            splice_possible(old(self).folds@, new_fold.range),
        ensures
            final(self).folds@ == spliced_seq(old(self).folds@, new_fold),
            final(self).same_but_folds(old(self)),
            final(self).top_line == old(self).top_line,
            final(self).printed_lines == old(self).printed_lines,
            final(self).cursor_position == old(self).cursor_position,
    {
        splice_fold_into(&mut self.folds, new_fold);
    }

    /// The fold to close at `line_num`, from the largest folds: the innermost
    /// of the folds nested in the first one that has the line, with the
    /// indent levels of its parent, or that fold itself where none of its
    /// nested folds has the line.
    pub fn find_innermost_max_fold(&self, line_num: usize) -> (found: Option<FoldOrNestedFold<'_>>)
        requires
            folds_wf(self.max_folds@, self.num_lines()),
        ensures
            match found {
                None => first_fold_with_line(self.max_folds@, line_num as int, 0) is None,
                Some(FoldOrNestedFold::Fold(f)) => {
                    &&& first_fold_with_line(self.max_folds@, line_num as int, 0) is Some
                    &&& spec_fold_to_close(self.max_folds@, line_num as int) == Some(f@)
                    &&& fold_wf(f@, self.num_lines())
                },
                Some(FoldOrNestedFold::NestedFold(n, parent_full)) => {
                    &&& first_fold_with_line(self.max_folds@, line_num as int, 0) is Some
                    &&& parent_full + n.additional_full_num_indents <= usize::MAX
                    &&& spec_fold_to_close(self.max_folds@, line_num as int) == Some(hoisted(parent_full as nat, n@))
                    &&& fold_wf(hoisted(parent_full as nat, n@), self.num_lines())
                },
            },
    {
        let j = match position_of_fold_with_line(&self.max_folds, line_num) {
            Some(j) => j,
            None => {
                return None;
            },
        };
        proof {
            lemma_first_fold_with_line(self.max_folds@, line_num as int, 0);
        }
        let fold = &self.max_folds[j];
        proof {
            assert(fold_wf(self.max_folds@[j as int]@, self.num_lines()));
        }
        match find_innermost_max_fold_nested(
            line_num,
            &fold.nested,
            Ghost(fold.range.start as int),
            Ghost(fold.range.end as int),
            Ghost(fold.full_num_indents as nat),
        ) {
            Some((nested, parent_num_indents_from_past_this_level)) => {
                let parent_full = fold.full_num_indents + parent_num_indents_from_past_this_level;
                proof {
                    let h = hoisted(parent_full as nat, nested@);
                    assert(nested_wf(nested@, parent_full as nat));
                    assert(h.nested == nested@.nested);
                }
                Some(FoldOrNestedFold::NestedFold(nested, parent_full))
            },
            None => Some(FoldOrNestedFold::Fold(fold)),
        }
    }
}

/// Row search gives the same answer for fold lists with the same ranges.
proof fn lemma_first_row_same_ranges(rows: Seq<PrintedLine>, f1: Seq<Fold>, f2: Seq<Fold>, line: int, k: int)
    requires
        f1.len() == f2.len(),
        forall|i: int| 0 <= i < f1.len() ==> #[trigger] f1[i].range == f2[i].range,
        forall|i: int| 0 <= i < rows.len() ==> printed_line_valid(#[trigger] rows[i], f1),
        0 <= k,
    ensures
        first_row_starting_at(rows, f1, line, k) == first_row_starting_at(rows, f2, line, k),
    decreases rows.len() - k,
{
    if k < rows.len() {
        if let PrintedLine::Fold(i) = rows[k] {
            assert(printed_line_valid(rows[k], f1));
            assert(f1[i as int].range == f2[i as int].range);
        }
        lemma_first_row_same_ranges(rows, f1, f2, line, k + 1);
    }
}

impl Editor {
    /// The first row that starts at file line `line`.
    fn row_starting_at(&self, line: LineNumber) -> (row: Option<usize>)
        requires
            self.wf(),
        ensures
            match row {
                Some(k) => first_row_starting_at(self.printed_lines@, self.folds@, line as int, 0) == Some(k as int),
                None => first_row_starting_at(self.printed_lines@, self.folds@, line as int, 0) is None,
            },
    {
        let mut k: usize = 0;
        while k < self.printed_lines.len()
            invariant
                self.wf(),
                0 <= k <= self.printed_lines@.len(),
                first_row_starting_at(self.printed_lines@, self.folds@, line as int, k as int)
                    == first_row_starting_at(self.printed_lines@, self.folds@, line as int, 0),
            decreases self.printed_lines@.len() - k,
        {
            proof {
                self.lemma_row(k as int);
            }
            if self.printed_lines[k].start_line(&self.folds) == line {
                return Some(k);
            }
            k += 1;
        }
        None
    }

    /// Closes, all the way, the largest fold that has the line the cursor's
    /// row starts at, and puts the cursor on the row of that fold.
    pub fn fully_close_fold_under_cursor(&mut self)
        requires
            old(self).wf(),
            old(self).fully_close_allowed(),
        ensures
            final(self).fully_closed_from(old(self)),
    {
        let ghost old_self = *self;
        let ghost n = self.num_lines();
        let row = self.cursor_position.row as usize;
        proof {
            self.lemma_row(row as int);
            lemma_folds_ordered(self.folds@, n);
        }
        let start_line = self.printed_lines[row].start_line(&self.folds);
        let j = match position_of_fold_with_line(&self.max_folds, start_line) {
            Some(j) => j,
            None => {
                return;
            },
        };
        proof {
            lemma_first_fold_with_line(self.max_folds@, start_line as int, 0);
            assert(fold_wf(self.max_folds@[j as int]@, n));
        }
        let top = self.top_line.start_line(&self.folds);
        let fold_start = self.max_folds[j].range.start;
        let new_fold = self.max_folds[j].duplicate();
        let ghost m = self.max_folds@[j as int];
        proof {
            lemma_splice_wf(self.folds@, new_fold, n);
            lemma_splice_wf(self.folds@, m, n);
            lemma_spliced_models(self.folds@, new_fold);
        }
        self.splice_in_new_fold(new_fold);
        self.show_from_line(top);
        proof {
            let ideal = spliced_seq(old_self.folds@, m);
            lemma_splice_range_bounds(old_self.folds@, m.range);
            assert(ideal.len() == self.folds@.len());
            assert forall|i: int| 0 <= i < ideal.len() implies #[trigger] ideal[i].range == self.folds@[i].range by {
                let (a, b) = splice_range(old_self.folds@, m.range);
                if i != a {
                    assert(ideal[i] == self.folds@[i]);
                }
            }
            lemma_folds_ordered(ideal, n);
            lemma_walk_same_ranges(n, ideal, self.folds@, self.disallow_folding, top as int, self.grid_height() as nat);
            assert forall|i: int| 0 <= i < self.printed_lines@.len() implies printed_line_valid(
                #[trigger] self.printed_lines@[i],
                ideal,
            ) by {
                self.lemma_row(i);
            }
            lemma_first_row_same_ranges(self.printed_lines@, ideal, self.folds@, fold_start as int, 0);
        }
        match self.row_starting_at(fold_start) {
            Some(k) => {
                proof {
                    lemma_first_row_starting_at(self.printed_lines@, self.folds@, fold_start as int, 0);
                }
                self.cursor_position.row = k as u16;
            },
            None => {
                vstd::pervasive::unreached()
            },
        }
    }
}

impl Editor {
    /// Closes one more level at the cursor. On a fold row, the fold keeps one
    /// more of its levels closed, where it has one left. On a line, the
    /// innermost of the largest folds that has the line is closed (see
    /// `spec_fold_to_close`), and the cursor goes to the row of that fold
    /// where it is on the screen.
    pub fn close_fold_under_cursor_one_level(&mut self)
        requires
            old(self).wf(),
            old(self).close_one_level_allowed(),
        ensures
            final(self).closed_one_level_from(old(self)),
    {
        let ghost n = self.num_lines();
        let row = self.cursor_position.row as usize;
        proof {
            self.lemma_row(row as int);
            lemma_folds_ordered(self.folds@, n);
        }
        match self.printed_lines[row] {
            PrintedLine::Fold(fold_index) => {
                if self.folds[fold_index].num_closes == self.folds[fold_index].full_num_indents {
                    return;
                }
                let top = self.top_line.start_line(&self.folds);
                let ghost before = self.folds@;
                proof {
                    assert(fold_wf(before[fold_index as int]@, n));
                }
                let mut fold = self.folds.remove(fold_index);
                fold.num_closes = fold.num_closes + 1;
                self.folds.insert(fold_index, fold);
                proof {
                    assert(self.folds@ =~= before.update(fold_index as int, fold));
                    assert(fold_wf(before[fold_index as int]@, n));
                    assert(fold@.nested == before[fold_index as int]@.nested);
                    assert forall|i: int| 0 <= i < self.folds@.len() implies fold_wf(
                        #[trigger] self.folds@[i]@,
                        n,
                    ) by {
                        if i != fold_index {
                            assert(self.folds@[i] == before[i]);
                        }
                    }
                    assert forall|i: int, j: int|
                        0 <= i < j < self.folds@.len() implies #[trigger] self.folds@[i].range.end
                        <= #[trigger] self.folds@[j].range.start by {
                        assert(self.folds@[i].range == before[i].range);
                        assert(self.folds@[j].range == before[j].range);
                    }
                }
                self.show_from_line(top);
            },
            PrintedLine::Line(line_num) => {
                let new_fold = match self.find_innermost_max_fold(line_num) {
                    None => {
                        return;
                    },
                    Some(FoldOrNestedFold::Fold(fold)) => fold.duplicate(),
                    Some(FoldOrNestedFold::NestedFold(nested, parent_full)) => {
                        let copy = nested.duplicate();
                        let lifted = Fold {
                            range: copy.range,
                            num_closes: copy.additional_num_closes,
                            full_num_indents: parent_full + copy.additional_full_num_indents,
                            nested: copy.nested,
                        };
                        proof {
                            assert(lifted@.nested =~= copy@.nested);
                        }
                        lifted
                    },
                };
                let top = self.top_line.start_line(&self.folds);
                let fold_start = new_fold.range.start;
                proof {
                    lemma_splice_wf(self.folds@, new_fold, n);
                    lemma_spliced_models(self.folds@, new_fold);
                }
                self.splice_in_new_fold(new_fold);
                self.show_from_line(top);
                if let Some(k) = self.row_starting_at(fold_start) {
                    proof {
                        lemma_first_row_starting_at(self.printed_lines@, self.folds@, fold_start as int, 0);
                    }
                    self.cursor_position.row = k as u16;
                }
            },
        }
    }
}

/// On a fold with more than one level closed, opening one level at the
/// cursor and then closing one level there gives back the folds, where the
/// cursor's row is one the file area keeps when the rows are shown again.
pub proof fn law_editor_close_one_level_undoes_open_one_level(e0: Editor, e1: Editor, e2: Editor)
    requires
        e0.wf(),
        e0.cursor_position.row < e0.grid_height(),
        e0.cursor_row_line() matches PrintedLine::Fold(i) && 1 < e0.folds@[i as int].num_closes,
        e1.opened_one_level_from(&e0),
        e2.closed_one_level_from(&e1),
    ensures
        fold_models(e2.folds@) == fold_models(e0.folds@),
{
    let i = e0.cursor_row_line()->Fold_0 as int;
    let r = e0.cursor_position.row as int;
    let n = e0.num_lines();
    let top = e0.top_start();
    let gh = e0.grid_height();
    e0.lemma_row(r);
    assert(fold_wf(e0.folds@[i]@, n));
    let ms = fold_models(e0.folds@);
    assert(fold_models(e1.folds@) == spec_open_one_level(ms, i));
    assert(fold_models(e1.folds@).len() == e1.folds@.len());
    assert(e1.folds@.len() == e0.folds@.len());
    assert forall|k: int| 0 <= k < e0.folds@.len() implies #[trigger] e0.folds@[k].range == e1.folds@[k].range by {
        assert(fold_models(e1.folds@)[k] == e1.folds@[k]@);
        assert(ms[k] == e0.folds@[k]@);
    }
    lemma_folds_ordered(e0.folds@, n);
    let len0 = e0.printed_lines@.len() as int;
    let m: int = if len0 < gh {
        len0
    } else {
        gh
    };
    lemma_walk_same_ranges(n, e0.folds@, e1.folds@, e0.disallow_folding, top, gh as nat);
    lemma_walk_prefix(n, e0.folds@, e0.disallow_folding, top, m as nat, len0 as nat);
    lemma_walk_prefix(n, e0.folds@, e0.disallow_folding, top, m as nat, gh as nat);
    lemma_walk_own_height(n, e0.folds@, e0.disallow_folding, top, len0 as nat);
    let w = printed_walk(n, e0.folds@, e0.disallow_folding, top, m as nat);
    assert(w[r] == e0.printed_lines@[r]);
    assert(e1.printed_lines@[r] == w[r]);
    assert(e1.cursor_position.row == r);
    assert(e1.cursor_row_line() == PrintedLine::Fold(i as usize));
    let f1 = e1.folds@[i];
    assert(f1@ == fold_models(e1.folds@)[i]);
    assert(f1.num_closes + 1 == ms[i].num_closes);
    assert(f1.num_closes != f1.full_num_indents);
    let g = Fold {
        range: f1.range,
        num_closes: (f1.num_closes + 1) as usize,
        full_num_indents: f1.full_num_indents,
        nested: f1.nested,
    };
    assert(e2.folds@ == e1.folds@.update(i, g));
    assert(g@ == ms[i]);
    assert forall|k: int| 0 <= k < ms.len() implies #[trigger] fold_models(e2.folds@)[k] == ms[k] by {
        assert(fold_models(e2.folds@)[k] == e2.folds@[k]@);
        if k != i {
            assert(e2.folds@[k] == e1.folds@[k]);
            assert(fold_models(e1.folds@)[k] == e1.folds@[k]@);
        }
    }
    assert(fold_models(e2.folds@) =~= ms);
}

/// On a fold with a level still open, closing one level at the cursor and
/// then opening one level there gives back the folds, where the cursor's
/// row is one the file area keeps when the rows are shown again.
pub proof fn law_editor_open_one_level_undoes_close_one_level(e0: Editor, e1: Editor, e2: Editor)
    requires
        e0.wf(),
        e0.cursor_position.row < e0.grid_height(),
        e0.cursor_row_line() matches PrintedLine::Fold(i) && e0.folds@[i as int].num_closes
            < e0.folds@[i as int].full_num_indents,
        e1.closed_one_level_from(&e0),
        e2.opened_one_level_from(&e1),
    ensures
        fold_models(e2.folds@) == fold_models(e0.folds@),
{
    let i = e0.cursor_row_line()->Fold_0 as int;
    let r = e0.cursor_position.row as int;
    let n = e0.num_lines();
    let top = e0.top_start();
    let gh = e0.grid_height();
    e0.lemma_row(r);
    assert(fold_wf(e0.folds@[i]@, n));
    let ms = fold_models(e0.folds@);
    let f = e0.folds@[i];
    let g = Fold {
        range: f.range,
        num_closes: (f.num_closes + 1) as usize,
        full_num_indents: f.full_num_indents,
        nested: f.nested,
    };
    assert(e1.folds@ == e0.folds@.update(i, g));
    assert forall|k: int| 0 <= k < e0.folds@.len() implies #[trigger] e0.folds@[k].range == e1.folds@[k].range by {
        if k != i {
            assert(e1.folds@[k] == e0.folds@[k]);
        }
    }
    lemma_folds_ordered(e0.folds@, n);
    let len0 = e0.printed_lines@.len() as int;
    let m: int = if len0 < gh {
        len0
    } else {
        gh
    };
    lemma_walk_same_ranges(n, e0.folds@, e1.folds@, e0.disallow_folding, top, gh as nat);
    lemma_walk_prefix(n, e0.folds@, e0.disallow_folding, top, m as nat, len0 as nat);
    lemma_walk_prefix(n, e0.folds@, e0.disallow_folding, top, m as nat, gh as nat);
    lemma_walk_own_height(n, e0.folds@, e0.disallow_folding, top, len0 as nat);
    let w = printed_walk(n, e0.folds@, e0.disallow_folding, top, m as nat);
    assert(w[r] == e0.printed_lines@[r]);
    assert(e1.printed_lines@[r] == w[r]);
    assert(e1.cursor_position.row == r);
    assert(e1.cursor_row_line() == PrintedLine::Fold(i as usize));
    let ms1 = fold_models(e1.folds@);
    assert(ms1[i] == g@);
    assert(g@.num_closes != 1);
    assert(fold_models(e2.folds@) == spec_open_one_level(ms1, i));
    assert forall|k: int| 0 <= k < ms.len() implies #[trigger] fold_models(e2.folds@)[k] == ms[k] by {
        if k != i {
            assert(e1.folds@[k] == e0.folds@[k]);
            assert(ms1[k] == e1.folds@[k]@);
        }
    }
    assert(fold_models(e2.folds@) =~= ms);
}

// ---------------------------------------------------------------------------
// Whether a fold command can be taken
// ---------------------------------------------------------------------------

/// The place `splice_range` gives for a new fold with range `r`, where there
/// is one (see `splice_possible`).
fn splice_place(folds: &Vec<Fold>, r: Range) -> (place: Option<(usize, usize)>)
    ensures
        place is Some <==> splice_possible(folds@, r),
        place matches Some(ab) ==> ab.0 == splice_range(folds@, r).0 && ab.1 == splice_range(folds@, r).1
            && ab.0 <= ab.1 <= folds@.len(),
{
    let n = folds.len();
    let mut p: usize = 0;
    while p < n && !(folds[p].range.start >= r.start && folds[p].range.end <= r.end)
        invariant
            n == folds@.len(),
            0 <= p <= n,
            first_within(folds@, r, p as int) == first_within(folds@, r, 0),
        decreases n - p,
    {
        p += 1;
    }
    proof {
        lemma_first_within(folds@, r, p as int);
    }
    if p < n {
        let mut k: usize = p;
        while k < n && folds[k].range.end <= r.end
            invariant
                n == folds@.len(),
                p <= k <= n,
                count_ending_within(folds@, r, p as int) == (k - p) + count_ending_within(
                    folds@,
                    r,
                    k as int,
                ),
                first_within(folds@, r, 0) == Some(p as int),
            decreases n - k,
        {
            k += 1;
        }
        proof {
            lemma_count_ending_within(folds@, r, p as int);
        }
        if k == n {
            None
        } else {
            Some((p, k + 1))
        }
    } else {
        let mut q: usize = 0;
        while q < n && folds[q].range.start < r.end
            invariant
                n == folds@.len(),
                0 <= q <= n,
                first_starting_from(folds@, r.end as int, q as int) == first_starting_from(
                    folds@,
                    r.end as int,
                    0,
                ),
            decreases n - q,
        {
            q += 1;
        }
        Some((q, q))
    }
}

/// Whether a new fold with range `r` can be spliced into the folds and
/// fits among them (`splice_possible` and `splice_fits`).
fn splice_checks(folds: &Vec<Fold>, r: Range) -> (ok: bool)
    ensures
        ok == (splice_possible(folds@, r) && splice_fits(folds@, r)),
{
    match splice_place(folds, r) {
        None => false,
        Some((a, b)) => {
            if a > 0 && folds[a - 1].range.end > r.start {
                return false;
            }
            if b < folds.len() && folds[b].range.start < r.end {
                return false;
            }
            true
        },
    }
}

proof fn lemma_first_within_same_ranges(f1: Seq<Fold>, f2: Seq<Fold>, r: Range, k: int)
    requires
        f1.len() == f2.len(),
        forall|i: int| 0 <= i < f1.len() ==> #[trigger] f1[i].range == f2[i].range,
        0 <= k,
    ensures
        first_within(f1, r, k) == first_within(f2, r, k),
        0 <= k <= f1.len() ==> count_ending_within(f1, r, k) == count_ending_within(f2, r, k),
        0 <= k <= f1.len() ==> first_starting_from(f1, r.end as int, k) == first_starting_from(
            f2,
            r.end as int,
            k,
        ),
    decreases f1.len() - k,
{
    if k < f1.len() {
        assert(f1[k].range == f2[k].range);
        lemma_first_within_same_ranges(f1, f2, r, k + 1);
    }
}

/// Splicing a fold into fold lists with the same ranges gives lists with the
/// same ranges.
proof fn lemma_spliced_same_ranges(f1: Seq<Fold>, f2: Seq<Fold>, new1: Fold, new2: Fold)
    requires
        f1.len() == f2.len(),
        forall|i: int| 0 <= i < f1.len() ==> #[trigger] f1[i].range == f2[i].range,
        new1.range == new2.range,
        splice_possible(f1, new1.range),
    ensures
        splice_range(f1, new1.range) == splice_range(f2, new2.range),
        splice_possible(f2, new2.range),
        spliced_seq(f1, new1).len() == spliced_seq(f2, new2).len(),
        forall|i: int|
            0 <= i < spliced_seq(f1, new1).len() ==> #[trigger] spliced_seq(f1, new1)[i].range == spliced_seq(
                f2,
                new2,
            )[i].range,
{
    lemma_first_within_same_ranges(f1, f2, new1.range, 0);
    match first_within(f1, new1.range, 0) {
        Some(p) => {
            lemma_first_within(f1, new1.range, 0);
            lemma_first_within_same_ranges(f1, f2, new1.range, p);
        },
        None => {},
    }
    lemma_splice_range_bounds(f1, new1.range);
    let (a, b) = splice_range(f1, new1.range);
    let s1 = spliced_seq(f1, new1);
    let s2 = spliced_seq(f2, new2);
    assert forall|i: int| 0 <= i < s1.len() implies #[trigger] s1[i].range == s2[i].range by {
        if i < a {
            assert(s1[i] == f1[i]);
            assert(s2[i] == f2[i]);
        } else if i > a {
            assert(s1[i] == f1[i - a - 1 + b]);
            assert(s2[i] == f2[i - a - 1 + b]);
        }
    }
}

/// The first of `rows` that starts at `line`.
fn first_row_at(rows: &Vec<PrintedLine>, folds: &Vec<Fold>, line: LineNumber) -> (row: Option<usize>)
    requires
        forall|i: int| 0 <= i < rows@.len() ==> printed_line_valid(#[trigger] rows@[i], folds@),
    ensures
        match row {
            Some(k) => first_row_starting_at(rows@, folds@, line as int, 0) == Some(k as int),
            None => first_row_starting_at(rows@, folds@, line as int, 0) is None,
        },
{
    let mut k: usize = 0;
    while k < rows.len()
        invariant
            forall|i: int| 0 <= i < rows@.len() ==> printed_line_valid(#[trigger] rows@[i], folds@),
            0 <= k <= rows@.len(),
            first_row_starting_at(rows@, folds@, line as int, k as int) == first_row_starting_at(
                rows@,
                folds@,
                line as int,
                0,
            ),
        decreases rows@.len() - k,
    {
        if rows[k].start_line(folds) == line {
            return Some(k);
        }
        k += 1;
    }
    None
}

impl Editor {
    /// Whether the largest fold at the cursor can be closed all the way (see
    /// `fully_close_allowed`).
    pub fn can_fully_close_fold_under_cursor(&self) -> (ok: bool)
        requires
            self.wf(),
        ensures
            ok == self.fully_close_allowed(),
    {
        let ghost n = self.num_lines();
        let row = self.cursor_position.row as usize;
        proof {
            self.lemma_row(row as int);
            lemma_folds_ordered(self.folds@, n);
        }
        let start_line = self.printed_lines[row].start_line(&self.folds);
        let j = match position_of_fold_with_line(&self.max_folds, start_line) {
            Some(j) => j,
            None => {
                return true;
            },
        };
        proof {
            lemma_first_fold_with_line(self.max_folds@, start_line as int, 0);
            assert(fold_wf(self.max_folds@[j as int]@, n));
        }
        let r = self.max_folds[j].range;
        if !splice_checks(&self.folds, r) {
            return false;
        }
        let ghost m = self.max_folds@[j as int];
        let ghost ideal = spliced_seq(self.folds@, m);
        let mut new_folds = duplicate_folds(&self.folds);
        let new_fold = self.max_folds[j].duplicate();
        proof {
            assert forall|i: int| 0 <= i < self.folds@.len() implies #[trigger] self.folds@[i].range
                == new_folds@[i].range by {
                assert(new_folds@[i]@ == self.folds@[i]@);
            }
            lemma_spliced_same_ranges(self.folds@, new_folds@, m, new_fold);
            lemma_splice_wf(self.folds@, m, n);
            lemma_folds_ordered(ideal, n);
        }
        splice_fold_into(&mut new_folds, new_fold);
        proof {
            let nf = new_folds@;
            assert forall|i: int| 0 <= i < nf.len() implies #[trigger] nf[i].range.start < nf[i].range.end by {
                assert(ideal[i].range == nf[i].range);
            }
            assert forall|i: int, k: int| 0 <= i < k < nf.len() implies #[trigger] nf[i].range.end
                <= #[trigger] nf[k].range.start by {
                assert(ideal[i].range == nf[i].range);
                assert(ideal[k].range == nf[k].range);
            }
        }
        let num_lines = rope_len_lines(self.current_file.rope());
        let top = self.top_line.start_line(&self.folds);
        let height = self.file_editor_grid_size().height;
        let rows = compute_printed_lines(num_lines, PrintedLine::Line(top), &new_folds, height, self.disallow_folding);
        proof {
            lemma_walk_same_ranges(n, ideal, new_folds@, self.disallow_folding, top as int, height as nat);
            assert forall|i: int| 0 <= i < rows@.len() implies printed_line_valid(#[trigger] rows@[i], ideal) by {
                assert(printed_line_valid(rows@[i], new_folds@));
            }
            lemma_first_row_same_ranges(rows@, ideal, new_folds@, r.start as int, 0);
        }
        first_row_at(&rows, &new_folds, r.start).is_some()
    }

    /// Whether one more level can be closed at the cursor (see
    /// `close_one_level_allowed`).
    pub fn can_close_fold_under_cursor_one_level(&self) -> (ok: bool)
        requires
            self.wf(),
        ensures
            ok == self.close_one_level_allowed(),
    {
        let row = self.cursor_position.row as usize;
        let line_num = match self.printed_lines[row] {
            PrintedLine::Line(l) => l,
            PrintedLine::Fold(_) => {
                return true;
            },
        };
        match self.find_innermost_max_fold(line_num) {
            None => {
                proof {
                    lemma_first_fold_with_line(self.max_folds@, line_num as int, 0);
                }
                true
            },
            Some(FoldOrNestedFold::Fold(f)) => splice_checks(&self.folds, f.range),
            Some(FoldOrNestedFold::NestedFold(nf, _)) => splice_checks(&self.folds, nf.range),
        }
    }
}

} // verus!
