use vstd::prelude::*;

use crate::indent::IndentLevel;
use crate::LineNumber;

verus! {

/// Index of a fold in the editor's list of folds.
pub type FoldIndex = usize;

/// A half-open range of lines `[start, end)`.
#[derive(Clone, Copy, Debug, PartialEq, Eq, Structural)]
pub struct Range {
    pub start: LineNumber,
    pub end: LineNumber,
}

/// A top-level fold: the lines it hides, how many indent levels of it are
/// currently closed, how many it has in all, and the folds nested in it.
#[derive(Debug, PartialEq, Eq)]
pub struct Fold {
    pub range: Range,
    pub num_closes: usize,
    pub full_num_indents: usize,
    pub nested: Vec<NestedFold>,
}

/// A fold inside another one; its counts are relative to its parent.
#[derive(Debug, PartialEq, Eq)]
pub struct NestedFold {
    pub range: Range,
    pub additional_num_closes: usize,
    pub additional_full_num_indents: usize,
    pub nested: Vec<NestedFold>,
}

/// The mathematical value of a nested fold.
pub struct NestedFoldModel {
    pub range: Range,
    pub additional_num_closes: nat,
    pub additional_full_num_indents: nat,
    pub nested: Seq<NestedFoldModel>,
}

/// The mathematical value of a fold.
pub struct FoldModel {
    pub range: Range,
    pub num_closes: nat,
    pub full_num_indents: nat,
    pub nested: Seq<NestedFoldModel>,
}

impl NestedFold {
    pub open spec fn view(&self) -> NestedFoldModel
        decreases self,
    {
        NestedFoldModel {
            range: self.range,
            additional_num_closes: self.additional_num_closes as nat,
            additional_full_num_indents: self.additional_full_num_indents as nat,
            nested: Seq::new(
                self.nested@.len(),
                |i: int|
                    if 0 <= i < self.nested@.len() {
                        self.nested@[i].view()
                    } else {
                        NestedFoldModel {
                            range: self.range,
                            additional_num_closes: 0,
                            additional_full_num_indents: 0,
                            nested: Seq::empty(),
                        }
                    },
            ),
        }
    }

    /// A deep copy.
    pub fn duplicate(&self) -> (copy: NestedFold)
        ensures
            copy@ == self@,
        decreases self,
    {
        let mut nested: Vec<NestedFold> = Vec::new();
        let mut i: usize = 0;
        while i < self.nested.len()
            invariant
                0 <= i <= self.nested.len(),
                nested@.len() == i,
                forall|j: int| 0 <= j < i ==> #[trigger] nested@[j]@ == self.nested@[j]@,
            decreases self.nested.len() - i,
        {
            nested.push(self.nested[i].duplicate());
            i += 1;
        }
        let copy = NestedFold {
            range: self.range,
            additional_num_closes: self.additional_num_closes,
            additional_full_num_indents: self.additional_full_num_indents,
            nested,
        };
        assert forall|j: int| 0 <= j < copy@.nested.len() implies copy@.nested[j] == self@.nested[j] by {
            assert(copy@.nested[j] == copy.nested@[j]@);
            assert(self@.nested[j] == self.nested@[j]@);
        }
        assert(copy@.nested =~= self@.nested);
        copy
    }
}

/// The models of a list of nested folds.
pub open spec fn nested_models(ns: Seq<NestedFold>) -> Seq<NestedFoldModel> {
    ns.map_values(|n: NestedFold| n@)
}

impl Fold {
    pub open spec fn view(&self) -> FoldModel {
        FoldModel {
            range: self.range,
            num_closes: self.num_closes as nat,
            full_num_indents: self.full_num_indents as nat,
            nested: nested_models(self.nested@),
        }
    }

    /// A deep copy.
    pub fn duplicate(&self) -> (copy: Fold)
        ensures
            copy@ == self@,
    {
        let mut nested: Vec<NestedFold> = Vec::new();
        let mut i: usize = 0;
        while i < self.nested.len()
            invariant
                0 <= i <= self.nested.len(),
                nested@.len() == i,
                forall|j: int| 0 <= j < i ==> #[trigger] nested@[j]@ == self.nested@[j]@,
            decreases self.nested.len() - i,
        {
            nested.push(self.nested[i].duplicate());
            i += 1;
        }
        let copy = Fold {
            range: self.range,
            num_closes: self.num_closes,
            full_num_indents: self.full_num_indents,
            nested,
        };
        assert(copy@.nested =~= self@.nested);
        copy
    }
}

/// Copies a list of folds.
pub fn duplicate_folds(folds: &Vec<Fold>) -> (copy: Vec<Fold>)
    ensures
        copy@.len() == folds@.len(),
        forall|i: int| 0 <= i < folds@.len() ==> #[trigger] copy@[i]@ == folds@[i]@,
{
    let mut copy: Vec<Fold> = Vec::new();
    let mut i: usize = 0;
    while i < folds.len()
        invariant
            0 <= i <= folds.len(),
            copy@.len() == i,
            forall|j: int| 0 <= j < i ==> #[trigger] copy@[j]@ == folds@[j]@,
        decreases folds.len() - i,
    {
        copy.push(folds[i].duplicate());
        i += 1;
    }
    copy
}

// ---------------------------------------------------------------------------
// Shape of a tree of folds
// ---------------------------------------------------------------------------

/// The nested folds lie in `[lo, hi)`, in order and without overlapping.
pub open spec fn children_placed(cs: Seq<NestedFoldModel>, lo: int, hi: int) -> bool {
    &&& forall|i: int| 0 <= i < cs.len() ==> lo <= #[trigger] cs[i].range.start
    &&& forall|i: int| 0 <= i < cs.len() ==> #[trigger] cs[i].range.end <= hi
    &&& forall|i: int, j: int|
        0 <= i < j < cs.len() ==> #[trigger] cs[i].range.end <= #[trigger] cs[j].range.start
}

/// A nested fold inside a parent with `base` indent levels in all is not
/// empty, hides at least one more indent level than its parent (without the
/// total passing `usize::MAX`), keeps between one and all of its additional
/// levels closed, and its own nested folds lie inside it, in order, and are
/// well formed in turn.
pub open spec fn nested_wf(n: NestedFoldModel, base: nat) -> bool
    decreases n,
{
    &&& n.range.start < n.range.end
    &&& n.additional_full_num_indents > 0
    &&& base + n.additional_full_num_indents <= usize::MAX
    &&& 0 < n.additional_num_closes <= n.additional_full_num_indents
    &&& children_placed(n.nested, n.range.start as int, n.range.end as int)
    &&& forall|i: int|
        0 <= i < n.nested.len() ==> nested_wf(#[trigger] n.nested[i], base + n.additional_full_num_indents)
}

/// Nested folds of a parent with `base` indent levels lie in `[lo, hi)`, in
/// order, and are each well formed.
pub open spec fn children_wf(cs: Seq<NestedFoldModel>, lo: int, hi: int, base: nat) -> bool {
    &&& children_placed(cs, lo, hi)
    &&& forall|i: int| 0 <= i < cs.len() ==> nested_wf(#[trigger] cs[i], base)
}

/// A top-level fold hides a non-empty range of lines below `num_lines`, keeps
/// between one and all of its levels closed, and its nested folds are well
/// formed.
pub open spec fn fold_wf(f: FoldModel, num_lines: int) -> bool {
    &&& f.range.start < f.range.end <= num_lines
    &&& 0 < f.num_closes <= f.full_num_indents
    &&& children_wf(f.nested, f.range.start as int, f.range.end as int, f.full_num_indents)
}

/// The folds are each well formed and come in order without overlapping.
pub open spec fn folds_wf(folds: Seq<Fold>, num_lines: int) -> bool {
    &&& forall|i: int| 0 <= i < folds.len() ==> fold_wf(#[trigger] folds[i]@, num_lines)
    &&& forall|i: int, j: int|
        0 <= i < j < folds.len() ==> #[trigger] folds[i].range.end <= #[trigger] folds[j].range.start
}


// ---------------------------------------------------------------------------
// Computing the folds from the indent levels
// ---------------------------------------------------------------------------

/// A fold whose last line has not been seen yet.
pub struct InProgressFold {
    pub start_line: usize,
    pub num_indents: usize,
    pub nested: Vec<NestedFold>,
    pub open_nested: Option<Box<InProgressFold>>,
}

/// An in-progress fold started before line `now`, its closed nested folds lie
/// before `now`, and its open nested fold (if any) is deeper, starts after the
/// closed ones and is itself well formed.
pub open spec fn in_progress_wf(ip: InProgressFold, now: int) -> bool
    decreases ip,
{
    &&& ip.start_line < now
    &&& ip.num_indents > 0
    &&& children_wf(nested_models(ip.nested@), ip.start_line as int, now, ip.num_indents as nat)
    &&& match ip.open_nested {
        Some(o) => {
            &&& o.num_indents > ip.num_indents
            &&& ip.start_line <= o.start_line
            &&& forall|i: int| 0 <= i < ip.nested@.len() ==> #[trigger] ip.nested@[i].range.end <= o.start_line
            &&& in_progress_wf(*o, now)
        },
        None => true,
    }
}

proof fn lemma_nested_models_index(ns: Seq<NestedFold>, i: int)
    requires
        0 <= i < ns.len(),
    ensures
        #[trigger] nested_models(ns)[i] == ns[i]@,
{
}

proof fn lemma_in_progress_wf_later(ip: InProgressFold, now: int, later: int)
    requires
        in_progress_wf(ip, now),
        now <= later,
    ensures
        in_progress_wf(ip, later),
    decreases ip,
{
    let cs = nested_models(ip.nested@);
    assert forall|i: int| 0 <= i < cs.len() implies #[trigger] cs[i].range.end <= later by {
        assert(cs[i].range.end <= now);
    }
    if let Some(o) = ip.open_nested {
        lemma_in_progress_wf_later(*o, now, later);
    }
}

/// An in-progress fold that grew inside another one, seen up to line `now`:
/// where its level was only reached at a later line `x`, its one closed
/// nested fold holds the lines before `x`; its open nested fold, if any,
/// starts at the first line after `x` deeper than it.
pub open spec fn inner_shape(ip: InProgressFold, indents: Seq<IndentLevel>, now: int) -> bool {
    let s = ip.start_line as int;
    let a = ip.num_indents as int;
    let x = first_at_level(indents, s, now, a);
    &&& x < now
    &&& ip.nested@.len() == (if x > s { 1int } else { 0int })
    &&& x > s ==> ip.nested@[0].range.start == s && ip.nested@[0].range.end == x
    &&& (ip.open_nested is Some) == has_deeper(indents, x, now, a)
    &&& ip.open_nested matches Some(o) ==> o.start_line == first_deeper(indents, x, now, a)
}

/// An in-progress fold, seen up to line `now`, follows the indentation of its
/// lines: its first line is at least at its level, it has nested folds
/// exactly when a line seen is deeper than it, its closed nested folds follow
/// the indentation (the one starting where it starts as `top` when it is),
/// every line seen deeper than it lies in a closed nested fold or after the
/// start of the open one, its shape is `inner_shape` where it is not `top`,
/// and the open one starts after it, has the least level of the lines seen
/// since it started that are deeper than this fold, and follows it in turn.
pub open spec fn in_progress_tracks(ip: InProgressFold, indents: Seq<IndentLevel>, now: int, top: bool) -> bool
    decreases ip,
{
    &&& 0 <= ip.start_line < indents.len()
    &&& indents[ip.start_line as int] matches IndentLevel::Level(k) && k >= ip.num_indents
    &&& ((ip.nested@.len() == 0 && ip.open_nested is None) <==> !has_deeper(
        indents,
        ip.start_line as int,
        now,
        ip.num_indents as int,
    ))
    &&& forall|i: int|
        0 <= i < ip.nested@.len() ==> nested_follows_indents(
            indents,
            #[trigger] nested_models(ip.nested@)[i],
            ip.num_indents as nat,
            top && nested_models(ip.nested@)[i].range.start == ip.start_line,
        )
    &&& forall|l: int|
        ip.start_line <= l < now && #[trigger] deeper(indents, l, ip.num_indents as int) ==> (exists|i: int|
            0 <= i < ip.nested@.len() && #[trigger] covers(nested_models(ip.nested@)[i], l)) || (
        ip.open_nested matches Some(o) && o.start_line <= l)
    &&& !top ==> inner_shape(ip, indents, now)
    &&& match ip.open_nested {
        Some(o) => {
            &&& ip.start_line < o.start_line
            &&& o.num_indents == min_deeper(indents, o.start_line as int, now, ip.num_indents as int)
            &&& in_progress_tracks(*o, indents, now, false)
        },
        None => true,
    }
}

/// A line no deeper than an in-progress fold changes nothing that it tracks.
proof fn lemma_tracks_step_not_deeper(ip: InProgressFold, indents: Seq<IndentLevel>, now: int, top: bool)
    requires
        in_progress_wf(ip, now),
        in_progress_tracks(ip, indents, now, top),
        0 <= now < indents.len(),
        !deeper(indents, now, ip.num_indents as int),
    ensures
        in_progress_tracks(ip, indents, now + 1, top),
    decreases ip,
{
    lemma_has_deeper_step(indents, ip.start_line as int, now, ip.num_indents as int);
    if !top {
        lemma_inner_shape_step_not_deeper(ip, indents, now);
    }
    if let Some(o) = ip.open_nested {
        assert(!deeper(indents, now, o.num_indents as int));
        lemma_tracks_step_not_deeper(*o, indents, now, false);
        assert(min_deeper(indents, o.start_line as int, now + 1, ip.num_indents as int) == min_deeper(
            indents,
            o.start_line as int,
            now,
            ip.num_indents as int,
        ));
    }
}

proof fn lemma_inner_shape_step_not_deeper(ip: InProgressFold, indents: Seq<IndentLevel>, now: int)
    requires
        inner_shape(ip, indents, now),
        ip.start_line <= now,
        !deeper(indents, now, ip.num_indents as int),
    ensures
        inner_shape(ip, indents, now + 1),
{
    let s = ip.start_line as int;
    let a = ip.num_indents as int;
    let x = first_at_level(indents, s, now, a);
    lemma_first_at_level_extend(indents, s, now, a);
    lemma_has_deeper_step(indents, x, now, a);
    lemma_first_deeper_facts(indents, x, now, a);
}

/// A line deeper than an in-progress fold that grew inside another one goes
/// into its open nested fold, which starts there if there was none.
proof fn lemma_inner_shape_step_deeper(before: InProgressFold, after: InProgressFold, indents: Seq<IndentLevel>, now: int)
    requires
        inner_shape(before, indents, now),
        before.start_line <= now,
        deeper(indents, now, before.num_indents as int),
        after.start_line == before.start_line,
        after.num_indents == before.num_indents,
        after.nested@ == before.nested@,
        match after.open_nested {
            Some(o) => o.start_line == match before.open_nested {
                Some(oo) => oo.start_line,
                None => now as usize,
            },
            None => false,
        },
        0 <= now <= usize::MAX,
    ensures
        inner_shape(after, indents, now + 1),
{
    let s = before.start_line as int;
    let a = before.num_indents as int;
    let x = first_at_level(indents, s, now, a);
    lemma_first_at_level_extend(indents, s, now, a);
    lemma_has_deeper_step(indents, x, now, a);
    lemma_first_deeper_facts(indents, x, now, a);
}


/// Closes an in-progress fold at `one_past_line_num`, as a fold nested in one
/// with `parent_num_indents` levels.
fn to_nested_fold(
    in_progress: InProgressFold,
    one_past_line_num: usize,
    parent_num_indents: usize,
    Ghost(now): Ghost<int>,
    Ghost(indents): Ghost<Seq<IndentLevel>>,
    Ghost(top): Ghost<bool>,
) -> (nested: NestedFold)
    requires
        in_progress_wf(in_progress, now),
        now <= one_past_line_num,
        in_progress.num_indents > parent_num_indents,
        in_progress_tracks(in_progress, indents, one_past_line_num as int, top),
        top ==> top_runs(in_progress, indents, one_past_line_num as int),
        in_progress.num_indents == min_deeper(
            indents,
            in_progress.start_line as int,
            one_past_line_num as int,
            parent_num_indents as int,
        ),
    ensures
        nested_wf(nested@, parent_num_indents as nat),
        nested.range == (Range { start: in_progress.start_line, end: one_past_line_num }),
        nested.additional_num_closes == in_progress.num_indents - parent_num_indents,
        nested.additional_full_num_indents == in_progress.num_indents - parent_num_indents,
        nested_follows_indents(indents, nested@, parent_num_indents as nat, top),
    decreases in_progress,
{
    let ghost old_children = nested_models(in_progress.nested@);
    let mut nested = in_progress.nested;
    proof {
        lemma_in_progress_wf_later(in_progress, now, one_past_line_num as int);
    }
    if let Some(open_nested) = in_progress.open_nested {
        let child = to_nested_fold(
            *open_nested,
            one_past_line_num,
            in_progress.num_indents,
            Ghost(now),
            Ghost(indents),
            Ghost(false),
        );
        nested.push(child);
        proof {
            let cs = nested_models(nested@);
            assert(cs == old_children.push(child@));
            assert forall|i: int, j: int|
                0 <= i < j < cs.len() implies #[trigger] cs[i].range.end <= #[trigger] cs[j].range.start by {
                if j == cs.len() - 1 {
                    assert(in_progress.nested@[i].range.end <= open_nested.start_line);
                } else {
                    assert(old_children[i] == cs[i] && old_children[j] == cs[j]);
                }
            }
            assert(cs[cs.len() - 1] == child@);
            assert(cs.last() == child@);
        }
    }
    proof {
        let cs = nested_models(nested@);
        assert forall|i: int| 0 <= i < old_children.len() implies #[trigger] cs[i] == old_children[i] by {
            lemma_nested_models_index(nested@, i);
            lemma_nested_models_index(in_progress.nested@, i);
        }
        assert forall|l: int|
            in_progress.start_line <= l < one_past_line_num && #[trigger] deeper(
                indents,
                l,
                in_progress.num_indents as int,
            ) implies exists|i: int| 0 <= i < cs.len() && #[trigger] covers(cs[i], l) by {
            if exists|i: int| 0 <= i < old_children.len() && #[trigger] covers(old_children[i], l) {
                let i = choose|i: int| 0 <= i < old_children.len() && #[trigger] covers(old_children[i], l);
                assert(covers(cs[i], l));
            } else {
                assert(covers(cs[cs.len() - 1], l));
            }
        }
    }
    let additional_num_indents = in_progress.num_indents - parent_num_indents;
    let result = NestedFold {
        range: Range { start: in_progress.start_line, end: one_past_line_num },
        additional_num_closes: additional_num_indents,
        additional_full_num_indents: additional_num_indents,
        nested,
    };
    proof {
        assert(result@.nested =~= nested_models(result.nested@)) by {
            assert forall|j: int| 0 <= j < result@.nested.len() implies result@.nested[j] == nested_models(result.nested@)[j] by {
                assert(result@.nested[j] == result.nested@[j]@);
            }
        }
        let a = in_progress.num_indents as nat;
        assert(parent_num_indents + result@.additional_full_num_indents == a);
        assert forall|l: int|
            result.range.start <= l < result.range.end && #[trigger] deeper(indents, l, a as int) implies exists|i: int|
            0 <= i < result@.nested.len() && #[trigger] covers(result@.nested[i], l) by {
            let i = choose|i: int| 0 <= i < nested_models(result.nested@).len() && #[trigger] covers(
                nested_models(result.nested@)[i],
                l,
            );
            assert(covers(result@.nested[i], l));
        }
        assert forall|i: int| 0 <= i < result@.nested.len() implies nested_follows_indents(
            indents,
            #[trigger] result@.nested[i],
            a,
            top && result@.nested[i].range.start == result.range.start,
        ) by {
            if i < old_children.len() {
                assert(result@.nested[i] == old_children[i]);
            }
        }
        assert forall|i: int| 0 <= i < in_progress.nested@.len() implies #[trigger] result@.nested[i]
            == in_progress.nested@[i]@ by {
            assert(result@.nested[i] == old_children[i]);
            lemma_nested_models_index(in_progress.nested@, i);
        }
        if top {
            lemma_closed_runs(in_progress, result@.nested, indents, one_past_line_num as int);
        } else {
            let s0 = in_progress.start_line as int;
            let x = first_at_level(indents, s0, one_past_line_num as int, a as int);
            lemma_first_deeper_facts(indents, x, one_past_line_num as int, a as int);
            if x > s0 {
                assert(result@.nested[0] == old_children[0]);
                lemma_nested_models_index(in_progress.nested@, 0);
            }
        }
    }
    result
}

/// Closes an in-progress fold at `one_past_line_num`, as a top-level fold:
/// its nested folds are the closed ones, then the open one closed there.
fn to_fold(
    in_progress: InProgressFold,
    one_past_line_num: usize,
    Ghost(now): Ghost<int>,
    Ghost(indents): Ghost<Seq<IndentLevel>>,
) -> (fold: Fold)
    requires
        in_progress_wf(in_progress, now),
        now <= one_past_line_num,
        in_progress_tracks(in_progress, indents, one_past_line_num as int, true),
    ensures
        fold_wf(fold@, one_past_line_num as int),
        fold.range == (Range { start: in_progress.start_line, end: one_past_line_num }),
        fold.num_closes == in_progress.num_indents,
        fold.full_num_indents == in_progress.num_indents,
        forall|i: int|
            0 <= i < fold@.nested.len() ==> nested_follows_indents(
                indents,
                #[trigger] fold@.nested[i],
                fold.full_num_indents as nat,
                fold@.nested[i].range.start == fold.range.start,
            ),
        forall|i: int| 0 <= i < in_progress.nested@.len() ==> #[trigger] fold@.nested[i] == in_progress.nested@[i]@,
        match in_progress.open_nested {
            Some(o) => {
                &&& fold@.nested.len() == in_progress.nested@.len() + 1
                &&& fold@.nested.last().range == (Range { start: o.start_line, end: one_past_line_num })
                &&& fold@.nested.last().additional_full_num_indents == o.num_indents - in_progress.num_indents
            },
            None => fold@.nested.len() == in_progress.nested@.len(),
        },
{
    let ghost old_children = nested_models(in_progress.nested@);
    let mut nested = in_progress.nested;
    proof {
        lemma_in_progress_wf_later(in_progress, now, one_past_line_num as int);
    }
    if let Some(open_nested) = in_progress.open_nested {
        let child = to_nested_fold(
            *open_nested,
            one_past_line_num,
            in_progress.num_indents,
            Ghost(now),
            Ghost(indents),
            Ghost(false),
        );
        nested.push(child);
        proof {
            let cs = nested_models(nested@);
            assert(cs == old_children.push(child@));
            assert forall|i: int, j: int|
                0 <= i < j < cs.len() implies #[trigger] cs[i].range.end <= #[trigger] cs[j].range.start by {
                if j == cs.len() - 1 {
                    assert(in_progress.nested@[i].range.end <= open_nested.start_line);
                } else {
                    assert(old_children[i] == cs[i] && old_children[j] == cs[j]);
                }
            }
        }
    }
    let fold = Fold {
        range: Range { start: in_progress.start_line, end: one_past_line_num },
        num_closes: in_progress.num_indents,
        full_num_indents: in_progress.num_indents,
        nested,
    };
    proof {
        assert forall|i: int| 0 <= i < fold@.nested.len() implies nested_follows_indents(
            indents,
            #[trigger] fold@.nested[i],
            fold.full_num_indents as nat,
            fold@.nested[i].range.start == fold.range.start,
        ) by {
            if i < old_children.len() {
                assert(fold@.nested[i] == old_children[i]);
            }
        }
    }
    fold
}

/// The in-progress fold `me` ends up inside a new, shallower in-progress fold
/// that starts where `me` did.
fn nest_myself_with_new_lesser_indent(
    me: InProgressFold,
    new_lesser_indent: usize,
    line_num: usize,
    Ghost(indents): Ghost<Seq<IndentLevel>>,
    Ghost(top): Ghost<bool>,
) -> (ip: InProgressFold)
    requires
        in_progress_wf(me, line_num as int),
        0 < new_lesser_indent < me.num_indents,
        in_progress_tracks(me, indents, line_num as int, top),
        top ==> top_runs(me, indents, line_num as int),
        forall|z: int| me.start_line <= z < line_num ==> indents[z] != IndentLevel::Level(new_lesser_indent),
        me.num_indents == min_deeper(indents, me.start_line as int, line_num as int, new_lesser_indent as int),
        line_num < indents.len(),
        indents[line_num as int] == IndentLevel::Level(new_lesser_indent),
    ensures
        in_progress_wf(ip, line_num as int),
        ip.start_line == me.start_line,
        ip.num_indents == new_lesser_indent,
        in_progress_tracks(ip, indents, line_num + 1, top),
        ip.open_nested is None,
        ip.nested@.len() == 1,
        ip.nested@[0].range == (Range { start: me.start_line, end: line_num }),
        ip.nested@[0].additional_full_num_indents == me.num_indents - new_lesser_indent,
{
    let start_line = me.start_line;
    let ghost me_num = me.num_indents;
    let child = to_nested_fold(me, line_num, new_lesser_indent, Ghost(line_num as int), Ghost(indents), Ghost(top));
    let mut nested: Vec<NestedFold> = Vec::new();
    nested.push(child);
    let ip = InProgressFold { start_line, num_indents: new_lesser_indent, nested, open_nested: None };
    proof {
        assert(nested_models(ip.nested@) == seq![child@]);
        assert(deeper(indents, start_line as int, new_lesser_indent as int));
        assert(start_line < line_num + 1);
        assert(has_deeper(indents, start_line as int, line_num + 1, new_lesser_indent as int));
        lemma_nested_models_index(ip.nested@, 0);
        assert forall|l: int|
            ip.start_line <= l < line_num + 1 && #[trigger] deeper(indents, l, ip.num_indents as int) implies (exists|i: int|
            0 <= i < ip.nested@.len() && #[trigger] covers(nested_models(ip.nested@)[i], l)) || (
        ip.open_nested matches Some(o) && o.start_line <= l) by {
            assert(covers(nested_models(ip.nested@)[0], l));
        }
        lemma_first_at_level_found(indents, start_line as int, line_num as int, new_lesser_indent as int);
        lemma_first_deeper_facts(indents, line_num as int, line_num + 1, new_lesser_indent as int);
        assert(!deeper(indents, line_num as int, new_lesser_indent as int));
        assert(!has_deeper(indents, line_num as int, line_num + 1, new_lesser_indent as int)) by {
            if has_deeper(indents, line_num as int, line_num + 1, new_lesser_indent as int) {
                let z = choose|z: int| line_num <= z < line_num + 1 && #[trigger] deeper(indents, z, new_lesser_indent as int);
                assert(z == line_num);
            }
        }
    }
    ip
}

/// A line indented deeper than the in-progress fold goes into its open
/// nested fold, starting one, deepening it, or making it shallower.
fn apply_more_indented(
    indent: usize,
    line_num: usize,
    in_progress: &mut InProgressFold,
    Ghost(indents): Ghost<Seq<IndentLevel>>,
    Ghost(top): Ghost<bool>,
)
    requires
        in_progress_wf(*old(in_progress), line_num as int),
        indent > old(in_progress).num_indents,
        line_num < usize::MAX,
        in_progress_tracks(*old(in_progress), indents, line_num as int, top),
        line_num < indents.len(),
        indents[line_num as int] == IndentLevel::Level(indent),
    ensures
        in_progress_wf(*final(in_progress), line_num + 1),
        final(in_progress).start_line == old(in_progress).start_line,
        final(in_progress).num_indents == old(in_progress).num_indents,
        final(in_progress).nested@ == old(in_progress).nested@,
        in_progress_tracks(*final(in_progress), indents, line_num + 1, top),
        match final(in_progress).open_nested {
            Some(o) => o.start_line == match old(in_progress).open_nested {
                Some(oo) => oo.start_line,
                None => line_num,
            },
            None => false,
        },
    decreases *old(in_progress),
{
    proof {
        lemma_in_progress_wf_later(*in_progress, line_num as int, line_num + 1);
        lemma_has_deeper_step(indents, in_progress.start_line as int, line_num as int, in_progress.num_indents as int);
    }
    let ghost l = line_num as int;
    let ghost p = in_progress.num_indents as int;
    let ghost before = *in_progress;
    match in_progress.open_nested.take() {
        None => {
            let empty: Vec<NestedFold> = Vec::new();
            proof {
                assert(nested_models(empty@) =~= Seq::empty());
                let ns = in_progress.nested@;
                assert forall|i: int| 0 <= i < ns.len() implies #[trigger] ns[i].range.end <= line_num by {
                    lemma_nested_models_index(ns, i);
                }
            }
            in_progress.open_nested = Some(
                Box::new(
                    InProgressFold {
                        start_line: line_num,
                        num_indents: indent,
                        nested: empty,
                        open_nested: None,
                    },
                ),
            );
            proof {
                let o = *in_progress.open_nested.unwrap();
                assert(nested_models(o.nested@) =~= Seq::empty());
                assert(in_progress_wf(o, line_num + 1));
                assert(min_deeper(indents, l, l, p) == -1);
                assert(min_deeper(indents, l, l + 1, p) == indent);
                assert(!has_deeper(indents, l, l + 1, indent as int)) by {
                    if has_deeper(indents, l, l + 1, indent as int) {
                        let z = choose|z: int| l <= z < l + 1 && #[trigger] deeper(indents, z, indent as int);
                        assert(z == l);
                    }
                }
                assert(first_at_level(indents, l, l + 1, indent as int) == l);
                assert(in_progress_tracks(o, indents, l + 1, false));
                assert(deeper(indents, l, p));
                if !top {
                    lemma_inner_shape_step_deeper(before, *in_progress, indents, l);
                }
            }
        },
        Some(open_nested) => {
            let mut open_nested = open_nested;
            let ghost o0 = *open_nested;
            proof {
                assert(deeper(indents, l, p));
                assert(o0.start_line < l);
                assert(o0.num_indents >= 1);
            }
            if open_nested.num_indents == indent {
                proof {
                    lemma_tracks_step_not_deeper(*open_nested, indents, l, false);
                    assert(min_deeper(indents, o0.start_line as int, l + 1, p) == o0.num_indents);
                }
                in_progress.open_nested = Some(open_nested);
                proof {
                    if !top {
                        lemma_inner_shape_step_deeper(before, *in_progress, indents, l);
                    }
                }
                assert(in_progress_wf(*in_progress, line_num + 1));
            } else if open_nested.num_indents < indent {
                apply_more_indented(indent, line_num, &mut *open_nested, Ghost(indents), Ghost(false));
                proof {
                    assert(min_deeper(indents, o0.start_line as int, l + 1, p) == o0.num_indents);
                }
                in_progress.open_nested = Some(open_nested);
                proof {
                    if !top {
                        lemma_inner_shape_step_deeper(before, *in_progress, indents, l);
                    }
                }
                assert(in_progress_wf(*in_progress, line_num + 1));
            } else {
                proof {
                    lemma_min_deeper_shift(indents, o0.start_line as int, l, p, indent as int);
                    assert forall|z: int| o0.start_line <= z < line_num implies indents[z] != IndentLevel::Level(
                        indent,
                    ) by {
                        if indents[z] == IndentLevel::Level(indent) {
                            lemma_min_deeper_bound(indents, o0.start_line as int, l, p, z);
                        }
                    }
                }
                let reshaped = nest_myself_with_new_lesser_indent(
                    *open_nested,
                    indent,
                    line_num,
                    Ghost(indents),
                    Ghost(false),
                );
                proof {
                    lemma_in_progress_wf_later(reshaped, line_num as int, line_num + 1);
                    assert(min_deeper(indents, o0.start_line as int, l + 1, p) == indent);
                }
                in_progress.open_nested = Some(Box::new(reshaped));
                proof {
                    if !top {
                        lemma_inner_shape_step_deeper(before, *in_progress, indents, l);
                    }
                }
                assert(in_progress_wf(*in_progress, line_num + 1));
            }
        },
    }
}

/// Line `l` is indented (not blank and not at level zero).
pub open spec fn indented(indents: Seq<IndentLevel>, l: int) -> bool {
    indents[l] matches IndentLevel::Level(k) && k > 0
}

/// Line `l` is at level zero.
pub open spec fn unindented(indents: Seq<IndentLevel>, l: int) -> bool {
    indents[l] == IndentLevel::Level(0)
}

/// Some indented line before `line` is not followed by an unindented line
/// before `line`: a fold is still running at `line`.
pub open spec fn fold_running_at(indents: Seq<IndentLevel>, line: int) -> bool {
    exists|j: int|
        0 <= j < line && #[trigger] indented(indents, j) && forall|z: int|
            j <= z < line ==> !#[trigger] unindented(indents, z)
}

/// A fold starts at line `s`: it is indented and no fold is running there.
pub open spec fn fold_starts_at(indents: Seq<IndentLevel>, s: int) -> bool {
    0 <= s < indents.len() && indented(indents, s) && !fold_running_at(indents, s)
}

/// The first unindented line at or after `i`, or the number of lines.
pub open spec fn next_unindented(indents: Seq<IndentLevel>, i: int) -> int
    decreases indents.len() - i,
{
    if i >= indents.len() {
        indents.len() as int
    } else if unindented(indents, i) {
        i
    } else {
        next_unindented(indents, i + 1)
    }
}

/// The least level of the non-blank lines in `[s, e)`, or -1 if all are blank.
pub open spec fn min_level(indents: Seq<IndentLevel>, s: int, e: int) -> int
    decreases e - s,
{
    if e <= s {
        -1
    } else {
        let r = min_level(indents, s, e - 1);
        match indents[e - 1] {
            IndentLevel::BlankLine => r,
            IndentLevel::Level(k) => if r == -1 || k < r {
                k as int
            } else {
                r
            },
        }
    }
}

/// Line `l` is not blank and indented more than `p` levels.
pub open spec fn deeper(indents: Seq<IndentLevel>, l: int, p: int) -> bool {
    indents[l] matches IndentLevel::Level(k) && k > p
}

/// Line `l` is not blank and indented at most `p` levels.
pub open spec fn shallow(indents: Seq<IndentLevel>, l: int, p: int) -> bool {
    indents[l] matches IndentLevel::Level(k) && k <= p
}

/// Some line of `[s, e)` is indented more than `p` levels.
pub open spec fn has_deeper(indents: Seq<IndentLevel>, s: int, e: int, p: int) -> bool {
    exists|l: int| s <= l < e && #[trigger] deeper(indents, l, p)
}

/// The least level of the lines of `[s, e)` indented more than `p` levels, or
/// -1 if there are none.
pub open spec fn min_deeper(indents: Seq<IndentLevel>, s: int, e: int, p: int) -> int
    decreases e - s,
{
    if e <= s {
        -1
    } else {
        let r = min_deeper(indents, s, e - 1, p);
        match indents[e - 1] {
            IndentLevel::BlankLine => r,
            IndentLevel::Level(k) => if k > p && (r == -1 || k < r) {
                k as int
            } else {
                r
            },
        }
    }
}

/// Line `l` lies in the range of the nested fold `n`.
pub open spec fn covers(n: NestedFoldModel, l: int) -> bool {
    n.range.start <= l < n.range.end
}

/// The first line of `[i, e)` at exactly `a` levels, or `e`.
pub open spec fn first_at_level(indents: Seq<IndentLevel>, i: int, e: int, a: int) -> int
    decreases e - i,
{
    if i >= e {
        e
    } else if indents[i] matches IndentLevel::Level(k) && k == a {
        i
    } else {
        first_at_level(indents, i + 1, e, a)
    }
}

/// The first line of `[i, e)` deeper than `a` levels, or `e`.
pub open spec fn first_deeper(indents: Seq<IndentLevel>, i: int, e: int, a: int) -> int
    decreases e - i,
{
    if i >= e {
        e
    } else if deeper(indents, i, a) {
        i
    } else {
        first_deeper(indents, i + 1, e, a)
    }
}

/// The nested folds `cs` of a fold at `a` levels over `[s, e)` that grew
/// inside another fold: where its level was only reached at a later line
/// `x`, the lines before `x` make its first nested fold; from the first line
/// after `x` deeper than `a` on, the rest of its range makes its last one
/// (lines back at its level do not end it).
pub open spec fn inner_children(indents: Seq<IndentLevel>, cs: Seq<NestedFoldModel>, s: int, e: int, a: int) -> bool {
    let x = first_at_level(indents, s, e, a);
    let t = first_deeper(indents, x, e, a);
    &&& cs.len() == (if x > s { 1int } else { 0int }) + (if has_deeper(indents, x, e, a) { 1int } else { 0int })
    &&& x > s ==> cs[0].range.start == s && cs[0].range.end == x
    &&& has_deeper(indents, x, e, a) ==> cs[cs.len() - 1].range.start == t && cs[cs.len() - 1].range.end == e
}

/// A nested fold inside a parent at `p` levels follows the indentation of
/// its lines: all its levels are closed, its own level is the least level of
/// the lines of its range that are deeper than the parent, it has nested
/// folds of its own exactly when some line of its range is deeper than
/// itself, and every such line lies in one of them. Its nested folds are the
/// runs of its deeper lines where it is `top` (it grew as a top-level fold
/// that later got shallower), and as `inner_children` says otherwise; they
/// follow the indentation in turn, the one starting where it starts being
/// `top` when it is.
pub open spec fn nested_follows_indents(indents: Seq<IndentLevel>, n: NestedFoldModel, p: nat, top: bool) -> bool
    decreases n,
{
    let a = p + n.additional_full_num_indents;
    &&& n.additional_num_closes == n.additional_full_num_indents
    &&& a == min_deeper(indents, n.range.start as int, n.range.end as int, p as int)
    &&& (n.nested.len() == 0 <==> !has_deeper(indents, n.range.start as int, n.range.end as int, a as int))
    &&& forall|l: int|
        n.range.start <= l < n.range.end && #[trigger] deeper(indents, l, a as int) ==> exists|i: int|
            0 <= i < n.nested.len() && #[trigger] covers(n.nested[i], l)
    &&& top ==> runs_of_deeper_lines(indents, n.nested, n.range.start as int, n.range.end as int, a)
    &&& !top ==> inner_children(indents, n.nested, n.range.start as int, n.range.end as int, a as int)
    &&& forall|i: int|
        0 <= i < n.nested.len() ==> nested_follows_indents(
            indents,
            #[trigger] n.nested[i],
            a,
            top && n.nested[i].range.start == n.range.start,
        )
}

proof fn lemma_first_at_level_extend(indents: Seq<IndentLevel>, i: int, e: int, a: int)
    requires
        i <= e,
        first_at_level(indents, i, e, a) < e,
    ensures
        first_at_level(indents, i, e + 1, a) == first_at_level(indents, i, e, a),
    decreases e - i,
{
    if i < e && !(indents[i] matches IndentLevel::Level(k) && k == a) {
        lemma_first_at_level_extend(indents, i + 1, e, a);
    }
}

proof fn lemma_first_at_level_found(indents: Seq<IndentLevel>, i: int, l: int, a: int)
    requires
        i <= l,
        forall|z: int| i <= z < l ==> indents[z] != IndentLevel::Level(a as usize),
        indents[l] == IndentLevel::Level(a as usize),
        0 <= a <= usize::MAX,
    ensures
        first_at_level(indents, i, l + 1, a) == l,
    decreases l - i,
{
    if i < l {
        assert(indents[i] != IndentLevel::Level(a as usize));
        lemma_first_at_level_found(indents, i + 1, l, a);
    }
}

proof fn lemma_first_deeper_facts(indents: Seq<IndentLevel>, i: int, e: int, a: int)
    requires
        i <= e,
    ensures
        i <= first_deeper(indents, i, e, a) <= e,
        (first_deeper(indents, i, e, a) == e) == !has_deeper(indents, i, e, a),
        first_deeper(indents, i, e, a) < e ==> deeper(indents, first_deeper(indents, i, e, a), a),
        first_deeper(indents, i, e, a) < e ==> first_deeper(indents, i, e + 1, a) == first_deeper(indents, i, e, a),
        (first_deeper(indents, i, e, a) == e && deeper(indents, e, a)) ==> first_deeper(indents, i, e + 1, a) == e,
    decreases e - i,
{
    if i < e {
        lemma_first_deeper_facts(indents, i + 1, e, a);
        if has_deeper(indents, i + 1, e, a) {
            let l = choose|l: int| i + 1 <= l < e && #[trigger] deeper(indents, l, a);
            assert(i <= l < e && deeper(indents, l, a));
        }
        if has_deeper(indents, i, e, a) && !deeper(indents, i, a) {
            let l = choose|l: int| i <= l < e && #[trigger] deeper(indents, l, a);
            assert(i + 1 <= l);
        }
        if deeper(indents, i, a) {
            assert(has_deeper(indents, i, e, a));
        }
    } else {
        if has_deeper(indents, i, e, a) {
            let l = choose|l: int| i <= l < e && #[trigger] deeper(indents, l, a);
        }
    }
}

/// Every line of `[s, e)` deeper than `p` is at least at their least level.
proof fn lemma_min_deeper_bound(indents: Seq<IndentLevel>, s: int, e: int, p: int, z: int)
    requires
        s <= z < e,
        deeper(indents, z, p),
    ensures
        min_deeper(indents, s, e, p) != -1,
        indents[z]->Level_0 >= min_deeper(indents, s, e, p),
    decreases e - s,
{
    if z < e - 1 {
        lemma_min_deeper_bound(indents, s, e - 1, p, z);
    }
}

/// `cs` are the maximal runs of lines of `[s, e)` deeper than `p` levels: each
/// starts at such a line, holds no line at `p` levels or fewer and ends at one
/// (or at `e`), every line deeper than `p` lies in one, and the level of each
/// is the least level of its lines.
pub open spec fn runs_of_deeper_lines(indents: Seq<IndentLevel>, cs: Seq<NestedFoldModel>, s: int, e: int, p: nat) -> bool {
    &&& forall|i: int| 0 <= i < cs.len() ==> deeper(indents, (#[trigger] cs[i]).range.start as int, p as int)
    &&& forall|i: int, l: int|
        0 <= i < cs.len() && #[trigger] covers(cs[i], l) ==> !shallow(indents, l, p as int)
    &&& forall|i: int|
        0 <= i < cs.len() ==> (#[trigger] cs[i]).range.end == e || shallow(indents, cs[i].range.end as int, p as int)
    &&& forall|l: int|
        s <= l < e && #[trigger] deeper(indents, l, p as int) ==> exists|i: int|
            0 <= i < cs.len() && #[trigger] covers(cs[i], l)
    &&& forall|i: int|
        0 <= i < cs.len() ==> p + (#[trigger] cs[i]).additional_full_num_indents == min_level(
            indents,
            cs[i].range.start as int,
            cs[i].range.end as int,
        )
}

/// The nested folds of a top-level fold are the runs of its lines deeper than
/// it, and each follows the indentation of its lines, the one starting where
/// the fold starts as `top`.
#[verifier::opaque]
pub open spec fn fold_follows_indents(f: FoldModel, indents: Seq<IndentLevel>) -> bool {
    &&& runs_of_deeper_lines(indents, f.nested, f.range.start as int, f.range.end as int, f.full_num_indents)
    &&& forall|i: int|
        0 <= i < f.nested.len() ==> nested_follows_indents(
            indents,
            #[trigger] f.nested[i],
            f.full_num_indents,
            f.nested[i].range.start == f.range.start,
        )
}

/// The top-level fold that starts at `s` in a file with these indents: it
/// runs to the next unindented line, all its levels are closed, and its
/// nested folds follow the indentation of its lines.
pub open spec fn fold_matches_indents(f: Fold, indents: Seq<IndentLevel>) -> bool {
    &&& fold_starts_at(indents, f.range.start as int)
    &&& f.range.end == next_unindented(indents, f.range.start as int)
    &&& f.full_num_indents == min_level(indents, f.range.start as int, f.range.end as int)
    &&& f.num_closes == f.full_num_indents
    &&& fold_follows_indents(f@, indents)
}

proof fn lemma_min_level_as_min_deeper(indents: Seq<IndentLevel>, s: int, e: int)
    ensures
        min_level(indents, s, e) == min_deeper(indents, s, e, -1),
    decreases e - s,
{
    if e > s {
        lemma_min_level_as_min_deeper(indents, s, e - 1);
    }
}

/// Where no line of `[s, e)` has a level in `(p, k]`, the lines deeper than
/// `k` are those deeper than `p`.
proof fn lemma_min_deeper_shift(indents: Seq<IndentLevel>, s: int, e: int, p: int, k: int)
    requires
        p <= k,
        min_deeper(indents, s, e, p) == -1 || min_deeper(indents, s, e, p) > k,
    ensures
        min_deeper(indents, s, e, k) == min_deeper(indents, s, e, p),
    decreases e - s,
{
    if e > s {
        let r = min_deeper(indents, s, e - 1, p);
        assert(r == -1 || r > k);
        lemma_min_deeper_shift(indents, s, e - 1, p, k);
    }
}

/// Where no line of `[s, e)` is at `p` levels or fewer, the lines deeper than
/// `p` are all its non-blank lines.
proof fn lemma_min_deeper_no_shallow(indents: Seq<IndentLevel>, s: int, e: int, p: int)
    requires
        forall|l: int| s <= l < e ==> !#[trigger] shallow(indents, l, p),
    ensures
        min_deeper(indents, s, e, p) == min_level(indents, s, e),
    decreases e - s,
{
    if e > s {
        assert(!shallow(indents, e - 1, p));
        lemma_min_deeper_no_shallow(indents, s, e - 1, p);
    }
}

/// Every non-blank line of `[s, e)` is at least at its least level.
proof fn lemma_min_level_bound(indents: Seq<IndentLevel>, s: int, e: int, z: int)
    requires
        s <= z < e,
        indents[z] is Level,
    ensures
        min_level(indents, s, e) != -1,
        indents[z]->Level_0 >= min_level(indents, s, e),
    decreases e - s,
{
    if z < e - 1 {
        lemma_min_level_bound(indents, s, e - 1, z);
    }
}

proof fn lemma_has_deeper_step(indents: Seq<IndentLevel>, s: int, now: int, p: int)
    requires
        s <= now,
    ensures
        has_deeper(indents, s, now + 1, p) == (has_deeper(indents, s, now, p) || deeper(indents, now, p)),
{
    if has_deeper(indents, s, now + 1, p) && !deeper(indents, now, p) {
        let l = choose|l: int| s <= l < now + 1 && #[trigger] deeper(indents, l, p);
        assert(l < now);
    }
}

proof fn lemma_next_unindented(indents: Seq<IndentLevel>, s: int, e: int)
    requires
        0 <= s <= e <= indents.len(),
        forall|z: int| s <= z < e ==> !#[trigger] unindented(indents, z),
        e == indents.len() || unindented(indents, e),
    ensures
        next_unindented(indents, s) == e,
    decreases e - s,
{
    if s < e {
        lemma_next_unindented(indents, s + 1, e);
    }
}

/// The nested folds of a top-level in-progress fold, the closed ones and the
/// open one running up to `now`, are the runs of the lines seen that are
/// deeper than it.
#[verifier::opaque]
pub open spec fn top_runs(ip: InProgressFold, indents: Seq<IndentLevel>, now: int) -> bool {
    let cs = nested_models(ip.nested@);
    let p = ip.num_indents as int;
    &&& forall|i: int| 0 <= i < cs.len() ==> deeper(indents, (#[trigger] cs[i]).range.start as int, p)
    &&& forall|i: int, l: int| 0 <= i < cs.len() && #[trigger] covers(cs[i], l) ==> !shallow(indents, l, p)
    &&& forall|i: int|
        0 <= i < cs.len() ==> (#[trigger] cs[i]).range.end < now && shallow(indents, cs[i].range.end as int, p)
    &&& forall|i: int|
        0 <= i < cs.len() ==> p + (#[trigger] cs[i]).additional_full_num_indents == min_level(
            indents,
            cs[i].range.start as int,
            cs[i].range.end as int,
        )
    &&& match ip.open_nested {
        Some(o) => {
            &&& deeper(indents, o.start_line as int, p)
            &&& forall|l: int| o.start_line <= l < now ==> !#[trigger] shallow(indents, l, p)
        },
        None => true,
    }
    &&& forall|l: int|
        ip.start_line <= l < now && #[trigger] deeper(indents, l, p) ==> (exists|i: int|
            0 <= i < cs.len() && #[trigger] covers(cs[i], l)) || (ip.open_nested matches Some(o) && o.start_line
            <= l)
}

/// A fold just started at line `l` has no nested folds.
proof fn lemma_top_runs_new(ip: InProgressFold, indents: Seq<IndentLevel>, l: int)
    requires
        ip.start_line == l,
        ip.nested@.len() == 0,
        ip.open_nested is None,
        0 <= l < indents.len(),
        indents[l] == IndentLevel::Level(ip.num_indents),
    ensures
        top_runs(ip, indents, l + 1),
{
    reveal(top_runs);
    let p = ip.num_indents as int;
    assert forall|z: int| ip.start_line <= z < l + 1 && #[trigger] deeper(indents, z, p) implies false by {
        assert(z == l);
    }
}

/// A line no deeper than the fold (and, while a nested fold is open, not at
/// its level or above) changes none of its runs.
proof fn lemma_top_runs_not_deeper(ip: InProgressFold, indents: Seq<IndentLevel>, l: int)
    requires
        top_runs(ip, indents, l),
        !deeper(indents, l, ip.num_indents as int),
        ip.open_nested is None || !shallow(indents, l, ip.num_indents as int),
    ensures
        top_runs(ip, indents, l + 1),
{
    reveal(top_runs);
    let p = ip.num_indents as int;
    let cs = nested_models(ip.nested@);
    assert forall|z: int|
        ip.start_line <= z < l + 1 && #[trigger] deeper(indents, z, p) implies (exists|i: int|
        0 <= i < cs.len() && #[trigger] covers(cs[i], z)) || (ip.open_nested matches Some(o) && o.start_line <= z) by {
        assert(z < l);
    }
}

/// A line at the fold's level closes its open nested fold, whose run ends there.
proof fn lemma_top_runs_close_open(before: InProgressFold, after: InProgressFold, indents: Seq<IndentLevel>, l: int)
    requires
        top_runs(before, indents, l),
        in_progress_tracks(before, indents, l, true),
        0 <= l <= usize::MAX,
        shallow(indents, l, before.num_indents as int),
        before.open_nested is Some,
        after.start_line == before.start_line,
        after.num_indents == before.num_indents,
        after.open_nested is None,
        after.nested@.len() == before.nested@.len() + 1,
        forall|i: int| 0 <= i < before.nested@.len() ==> #[trigger] after.nested@[i] == before.nested@[i],
        after.nested@.last().range == (Range { start: before.open_nested->0.start_line, end: l as usize }),
        after.nested@.last().additional_full_num_indents == before.open_nested->0.num_indents - before.num_indents,
    ensures
        top_runs(after, indents, l + 1),
{
    reveal(top_runs);
    let p = before.num_indents as int;
    let o = before.open_nested->0;
    let cs0 = nested_models(before.nested@);
    let cs = nested_models(after.nested@);
    let last = cs.len() - 1;
    assert(cs[last] == after.nested@.last()@);
    assert forall|i: int| 0 <= i < cs0.len() implies #[trigger] cs[i] == cs0[i] by {
        lemma_nested_models_index(before.nested@, i);
        lemma_nested_models_index(after.nested@, i);
    }
    lemma_min_deeper_no_shallow(indents, o.start_line as int, l, p);
    assert forall|i: int| 0 <= i < cs.len() implies deeper(indents, (#[trigger] cs[i]).range.start as int, p) by {
        if i < cs0.len() {
            assert(cs[i] == cs0[i]);
        }
    }
    assert forall|i: int, z: int| 0 <= i < cs.len() && #[trigger] covers(cs[i], z) implies !shallow(indents, z, p) by {
        if i < cs0.len() {
            assert(cs[i] == cs0[i]);
            assert(covers(cs0[i], z));
        }
    }
    assert forall|i: int| 0 <= i < cs.len() implies (#[trigger] cs[i]).range.end < l + 1 && shallow(
        indents,
        cs[i].range.end as int,
        p,
    ) by {
        if i < cs0.len() {
            assert(cs[i] == cs0[i]);
        }
    }
    assert forall|i: int| 0 <= i < cs.len() implies p + (#[trigger] cs[i]).additional_full_num_indents == min_level(
        indents,
        cs[i].range.start as int,
        cs[i].range.end as int,
    ) by {
        if i < cs0.len() {
            assert(cs[i] == cs0[i]);
        }
    }
    assert forall|z: int|
        after.start_line <= z < l + 1 && #[trigger] deeper(indents, z, p) implies (exists|i: int|
        0 <= i < cs.len() && #[trigger] covers(cs[i], z)) || (after.open_nested matches Some(oo) && oo.start_line
        <= z) by {
        if z < l {
            if exists|i: int| 0 <= i < cs0.len() && #[trigger] covers(cs0[i], z) {
                let i = choose|i: int| 0 <= i < cs0.len() && #[trigger] covers(cs0[i], z);
                assert(cs[i] == cs0[i]);
                assert(covers(cs[i], z));
            } else {
                assert(o.start_line <= z);
                assert(covers(cs[last], z));
            }
        } else {
            assert(!deeper(indents, l, p));
        }
    }
}

/// Closing the open nested fold at a line at the fold's level keeps what the
/// fold tracks.
#[verifier::rlimit(40)]
proof fn lemma_tracks_close_open(before: InProgressFold, after: InProgressFold, child: NestedFold, indents: Seq<IndentLevel>, l: int)
    requires
        in_progress_tracks(before, indents, l, true),
        in_progress_wf(before, l),
        top_runs(before, indents, l),
        0 <= l < indents.len(),
        !deeper(indents, l, before.num_indents as int),
        before.open_nested is Some,
        nested_follows_indents(indents, child@, before.num_indents as nat, false),
        after.start_line == before.start_line,
        after.num_indents == before.num_indents,
        after.open_nested is None,
        after.nested@ == before.nested@.push(child),
        child.range == (Range { start: before.open_nested->0.start_line, end: l as usize }),
        0 <= l <= usize::MAX,
    ensures
        in_progress_tracks(after, indents, l + 1, true),
{
    reveal(top_runs);
    let p = before.num_indents as int;
    let o = before.open_nested->0;
    lemma_has_deeper_step(indents, before.start_line as int, l, p);
    assert(deeper(indents, o.start_line as int, p));
    assert(has_deeper(indents, after.start_line as int, l + 1, p));
    let cs0 = nested_models(before.nested@);
    let cs = nested_models(after.nested@);
    assert forall|i: int| 0 <= i < after.nested@.len() implies nested_follows_indents(
        indents,
        #[trigger] nested_models(after.nested@)[i],
        after.num_indents as nat,
        nested_models(after.nested@)[i].range.start == after.start_line,
    ) by {
        lemma_nested_models_index(after.nested@, i);
        if i < cs0.len() {
            lemma_nested_models_index(before.nested@, i);
        }
    }
    assert forall|i: int| 0 <= i < cs0.len() implies #[trigger] cs[i] == cs0[i] by {
        lemma_nested_models_index(after.nested@, i);
        lemma_nested_models_index(before.nested@, i);
    }
    lemma_nested_models_index(after.nested@, cs0.len() as int);
    assert forall|z: int|
        after.start_line <= z < l + 1 && #[trigger] deeper(indents, z, p) implies (exists|i: int|
        0 <= i < after.nested@.len() && #[trigger] covers(nested_models(after.nested@)[i], z)) || (
    after.open_nested matches Some(oo) && oo.start_line <= z) by {
        if z < l {
            if exists|i: int| 0 <= i < before.nested@.len() && #[trigger] covers(nested_models(before.nested@)[i], z) {
                let i = choose|i: int|
                    0 <= i < before.nested@.len() && #[trigger] covers(nested_models(before.nested@)[i], z);
                assert(covers(cs[i], z));
            } else {
                assert(covers(cs[cs0.len() as int], z));
            }
        }
    }
}

/// A fold that gets shallower at line `l` has as its only nested fold the
/// lines seen so far, which is a run of lines deeper than the new level.
proof fn lemma_top_runs_reparent(me: InProgressFold, ip: InProgressFold, indents: Seq<IndentLevel>, l: int)
    requires
        in_progress_tracks(me, indents, l, true),
        me.num_indents == min_level(indents, me.start_line as int, l),
        me.start_line < l < indents.len(),
        l <= usize::MAX,
        0 < ip.num_indents < me.num_indents,
        indents[l] == IndentLevel::Level(ip.num_indents),
        ip.start_line == me.start_line,
        ip.open_nested is None,
        ip.nested@.len() == 1,
        ip.nested@[0].range == (Range { start: me.start_line, end: l as usize }),
        ip.nested@[0].additional_full_num_indents == me.num_indents - ip.num_indents,
    ensures
        top_runs(ip, indents, l + 1),
{
    reveal(top_runs);
    let cs = nested_models(ip.nested@);
    let k = ip.num_indents as int;
    let start = me.start_line as int;
    lemma_nested_models_index(ip.nested@, 0);
    assert forall|i: int, z: int| 0 <= i < cs.len() && #[trigger] covers(cs[i], z) implies !shallow(indents, z, k) by {
        if indents[z] is Level {
            lemma_min_level_bound(indents, start, l, z);
        }
    }
    assert forall|z: int|
        ip.start_line <= z < l + 1 && #[trigger] deeper(indents, z, k) implies (exists|i: int|
        0 <= i < cs.len() && #[trigger] covers(cs[i], z)) || (ip.open_nested matches Some(o) && o.start_line <= z) by {
        if z < l {
            assert(covers(cs[0], z));
        }
    }
}

/// A line deeper than the fold goes into the run of its open nested fold.
proof fn lemma_top_runs_deeper(before: InProgressFold, after: InProgressFold, indents: Seq<IndentLevel>, l: int)
    requires
        top_runs(before, indents, l),
        deeper(indents, l, before.num_indents as int),
        after.start_line == before.start_line,
        after.num_indents == before.num_indents,
        after.nested@ == before.nested@,
        match after.open_nested {
            Some(o) => o.start_line == match before.open_nested {
                Some(oo) => oo.start_line,
                None => l as usize,
            },
            None => false,
        },
        0 <= l <= usize::MAX,
        before.open_nested matches Some(oo) ==> oo.start_line <= l,
    ensures
        top_runs(after, indents, l + 1),
{
    reveal(top_runs);
    let p = before.num_indents as int;
    let cs = nested_models(after.nested@);
    let o = after.open_nested->0;
    assert(o.start_line <= l);
    assert forall|z: int| o.start_line <= z < l + 1 implies !#[trigger] shallow(indents, z, p) by {
        if z < l {
            let oo = before.open_nested->0;
            assert(oo.start_line <= z < l);
        }
    }
    assert forall|z: int|
        after.start_line <= z < l + 1 && #[trigger] deeper(indents, z, p) implies (exists|i: int|
        0 <= i < cs.len() && #[trigger] covers(cs[i], z)) || (after.open_nested matches Some(oo) && oo.start_line
        <= z) by {
        if z == l {
            assert(o.start_line <= z);
        }
    }
}

proof fn lemma_fold_follows_intro(f: FoldModel, indents: Seq<IndentLevel>)
    requires
        runs_of_deeper_lines(indents, f.nested, f.range.start as int, f.range.end as int, f.full_num_indents),
        forall|i: int|
            0 <= i < f.nested.len() ==> nested_follows_indents(
                indents,
                #[trigger] f.nested[i],
                f.full_num_indents,
                f.nested[i].range.start == f.range.start,
            ),
    ensures
        fold_follows_indents(f, indents),
{
    reveal(fold_follows_indents);
}

/// Closing a top-level in-progress fold whose nested folds are the runs of
/// its deeper lines gives a fold whose nested folds are the runs of the
/// deeper lines of its range.
proof fn lemma_closed_runs(ip: InProgressFold, fs: Seq<NestedFoldModel>, indents: Seq<IndentLevel>, e: int)
    requires
        in_progress_wf(ip, e),
        ip.open_nested matches Some(o) ==> o.num_indents == min_deeper(
            indents,
            o.start_line as int,
            e,
            ip.num_indents as int,
        ),
        top_runs(ip, indents, e),
        0 <= e <= usize::MAX,
        forall|i: int| 0 <= i < ip.nested@.len() ==> #[trigger] fs[i] == ip.nested@[i]@,
        match ip.open_nested {
            Some(o) => {
                &&& fs.len() == ip.nested@.len() + 1
                &&& fs.last().range == (Range { start: o.start_line, end: e as usize })
                &&& fs.last().additional_full_num_indents == o.num_indents - ip.num_indents
            },
            None => fs.len() == ip.nested@.len(),
        },
    ensures
        runs_of_deeper_lines(indents, fs, ip.start_line as int, e, ip.num_indents as nat),
{
    reveal(top_runs);
    let cs = nested_models(ip.nested@);
    let p = ip.num_indents as int;
    assert forall|i: int| 0 <= i < cs.len() implies #[trigger] fs[i] == cs[i] by {
        lemma_nested_models_index(ip.nested@, i);
    }
    if let Some(o) = ip.open_nested {
        let last = fs.len() - 1;
        assert(fs[last] == fs.last());
        lemma_min_deeper_no_shallow(indents, o.start_line as int, e, p);
        assert forall|i: int, l: int| 0 <= i < fs.len() && #[trigger] covers(fs[i], l) implies !shallow(indents, l, p) by {
            if i < cs.len() {
                assert(covers(cs[i], l));
            }
        }
        assert forall|l: int| ip.start_line <= l < e && #[trigger] deeper(indents, l, p) implies exists|i: int|
            0 <= i < fs.len() && #[trigger] covers(fs[i], l) by {
            if exists|i: int| 0 <= i < cs.len() && #[trigger] covers(cs[i], l) {
                let i = choose|i: int| 0 <= i < cs.len() && #[trigger] covers(cs[i], l);
                assert(covers(fs[i], l));
            } else {
                assert(o.start_line <= l);
                assert(covers(fs[last], l));
            }
        }
        assert forall|i: int| 0 <= i < fs.len() implies deeper(indents, (#[trigger] fs[i]).range.start as int, p) by {
            if i < cs.len() {
                assert(fs[i] == cs[i]);
            }
        }
        assert forall|i: int| 0 <= i < fs.len() implies (#[trigger] fs[i]).range.end == e || shallow(
            indents,
            fs[i].range.end as int,
            p,
        ) by {
            if i < cs.len() {
                assert(fs[i] == cs[i]);
            }
        }
        assert forall|i: int| 0 <= i < fs.len() implies p + (#[trigger] fs[i]).additional_full_num_indents == min_level(
            indents,
            fs[i].range.start as int,
            fs[i].range.end as int,
        ) by {
            if i < cs.len() {
                assert(fs[i] == cs[i]);
            }
        }
    } else {
        assert forall|i: int, l: int| 0 <= i < fs.len() && #[trigger] covers(fs[i], l) implies !shallow(indents, l, p) by {
            assert(covers(cs[i], l));
        }
        assert forall|l: int| ip.start_line <= l < e && #[trigger] deeper(indents, l, p) implies exists|i: int|
            0 <= i < fs.len() && #[trigger] covers(fs[i], l) by {
            let i = choose|i: int| 0 <= i < cs.len() && #[trigger] covers(cs[i], l);
            assert(covers(fs[i], l));
        }
    }
}

/// The folds of a file, computed from the indent level of each of its lines:
/// a fold starts at each indented line where no fold is running, and runs up
/// to the next unindented line (or the end of the file); its level count is
/// the least level of its non-blank lines. Inside it, runs of deeper lines
/// become nested folds, and so on inside those as `fold_follows_indents`
/// says: a fold that grew inside another one keeps its deeper lines in one
/// nested fold even across lines back at its own level.
pub fn calculate_folds(indents: &[IndentLevel]) -> (folds: Vec<Fold>)
    requires
        indents.len() < usize::MAX,
    ensures
        folds_wf(folds@, indents.len() as int),
        forall|i: int| 0 <= i < folds@.len() ==> fold_matches_indents(#[trigger] folds@[i], indents@),
        forall|s: int|
            fold_starts_at(indents@, s) ==> exists|i: int|
                0 <= i < folds@.len() && #[trigger] folds@[i].range.start == s,
{
    let ghost ind = indents@;
    let mut folds: Vec<Fold> = Vec::new();
    let mut in_progress: Option<InProgressFold> = None;
    let n = indents.len();
    let mut line_num: usize = 0;
    while line_num < n
        invariant
            n == indents.len(),
            ind == indents@,
            n < usize::MAX,
            0 <= line_num <= n,
            folds_wf(folds@, line_num as int),
            forall|i: int| 0 <= i < folds@.len() ==> fold_matches_indents(#[trigger] folds@[i], ind),
            match in_progress {
                Some(ip) => {
                    &&& in_progress_wf(ip, line_num as int)
                    &&& in_progress_tracks(ip, ind, line_num as int, true)
                    &&& top_runs(ip, ind, line_num as int)
                    &&& forall|i: int| 0 <= i < folds@.len() ==> #[trigger] folds@[i].range.end <= ip.start_line
                    &&& fold_starts_at(ind, ip.start_line as int)
                    &&& forall|z: int| ip.start_line <= z < line_num ==> !#[trigger] unindented(ind, z)
                    &&& ip.num_indents == min_level(ind, ip.start_line as int, line_num as int)
                    &&& forall|s: int|
                        0 <= s < line_num && #[trigger] fold_starts_at(ind, s) ==> s == ip.start_line || exists|i: int|
                            0 <= i < folds@.len() && #[trigger] folds@[i].range.start == s
                },
                None => {
                    &&& !fold_running_at(ind, line_num as int)
                    &&& forall|s: int|
                        0 <= s < line_num && #[trigger] fold_starts_at(ind, s) ==> exists|i: int|
                            0 <= i < folds@.len() && #[trigger] folds@[i].range.start == s
                },
            },
        decreases n - line_num,
    {
        let indent = indents[line_num];
        let ghost old_folds = folds@;
        let ghost l = line_num as int;
        match in_progress.take() {
            None => {
                match indent {
                    IndentLevel::Level(level) => {
                        if level != 0 {
                            let empty: Vec<NestedFold> = Vec::new();
                            proof {
                                assert(nested_models(empty@) =~= Seq::empty());
                                assert forall|i: int| 0 <= i < folds@.len() implies #[trigger] folds@[i].range.end
                                    <= line_num by {
                                    assert(fold_wf(folds@[i]@, line_num as int));
                                }
                                assert(fold_starts_at(ind, l));
                                assert(min_level(ind, l, l) == -1);
                                assert(min_level(ind, l, l + 1) == level);
                                assert(!has_deeper(ind, l, l + 1, level as int)) by {
                                    if has_deeper(ind, l, l + 1, level as int) {
                                        let z = choose|z: int| l <= z < l + 1 && #[trigger] deeper(ind, z, level as int);
                                        assert(z == l);
                                    }
                                }
                            }
                            in_progress = Some(
                                InProgressFold {
                                    start_line: line_num,
                                    num_indents: level,
                                    nested: empty,
                                    open_nested: None,
                                },
                            );
                            proof {
                                let ip = in_progress->0;
                                assert(in_progress_tracks(ip, ind, l + 1, true));
                                lemma_top_runs_new(ip, ind, l);
                            }
                        } else {
                            proof {
                                assert(unindented(ind, l));
                            }
                        }
                    },
                    IndentLevel::BlankLine => {},
                }
                proof {
                    if in_progress is None {
                        assert(!indented(ind, l));
                        assert forall|j: int| 0 <= j < l + 1 && #[trigger] indented(ind, j) implies exists|z: int|
                            j <= z < l + 1 && #[trigger] unindented(ind, z) by {
                            if j < l {
                                assert(!forall|z: int| j <= z < l ==> !#[trigger] unindented(ind, z));
                            } else {
                                assert(unindented(ind, l));
                            }
                        }
                    }
                    assert forall|s: int| 0 <= s < l + 1 && #[trigger] fold_starts_at(ind, s) implies (
                    in_progress matches Some(ip) && s == ip.start_line) || exists|i: int|
                        0 <= i < folds@.len() && #[trigger] folds@[i].range.start == s by {
                        if s == l {
                            assert(indented(ind, l));
                        }
                    }
                }
            },
            Some(ip) => {
                let mut ip = ip;
                let ghost ip0 = ip;
                let ghost p = ip0.num_indents as int;
                proof {
                    lemma_in_progress_wf_later(ip, line_num as int, line_num + 1);
                }
                match indent {
                    IndentLevel::Level(level) => {
                        if level == 0 {
                            let ghost start = ip.start_line as int;
                            let fold = to_fold(ip, line_num, Ghost(line_num as int), Ghost(ind));
                            proof {
                                lemma_closed_runs(ip0, fold@.nested, ind, l);
                                lemma_fold_follows_intro(fold@, ind);
                            }
                            folds.push(fold);
                            proof {
                                assert(unindented(ind, l));
                                lemma_next_unindented(ind, start, l);
                                assert(folds@ == old_folds.push(fold));
                                assert forall|i: int, j: int|
                                    0 <= i < j < folds@.len() implies #[trigger] folds@[i].range.end
                                    <= #[trigger] folds@[j].range.start by {
                                    if j < folds@.len() - 1 {
                                        assert(old_folds[i] == folds@[i] && old_folds[j] == folds@[j]);
                                    }
                                }
                                assert forall|i: int| 0 <= i < folds@.len() implies fold_wf(
                                    #[trigger] folds@[i]@,
                                    line_num + 1,
                                ) by {
                                    if i < folds@.len() - 1 {
                                        assert(old_folds[i] == folds@[i]);
                                    }
                                }
                                assert forall|i: int| 0 <= i < folds@.len() implies fold_matches_indents(
                                    #[trigger] folds@[i],
                                    ind,
                                ) by {
                                    if i < folds@.len() - 1 {
                                        assert(old_folds[i] == folds@[i]);
                                    }
                                }
                                assert forall|j: int| 0 <= j < l + 1 && #[trigger] indented(ind, j) implies exists|z: int|
                                    j <= z < l + 1 && #[trigger] unindented(ind, z) by {
                                    assert(unindented(ind, l));
                                }
                                assert forall|s: int| 0 <= s < l + 1 && #[trigger] fold_starts_at(ind, s) implies exists|i: int|
                                    0 <= i < folds@.len() && #[trigger] folds@[i].range.start == s by {
                                    if s == start {
                                        assert(folds@[folds@.len() - 1].range.start == s);
                                    } else if s < l {
                                        let i = choose|i: int|
                                            0 <= i < old_folds.len() && #[trigger] old_folds[i].range.start == s;
                                        assert(folds@[i] == old_folds[i]);
                                    } else {
                                        assert(!indented(ind, l));
                                    }
                                }
                            }
                        } else if level == ip.num_indents {
                            let ghost before = ip;
                            proof {
                                assert(!deeper(ind, l, p));
                                assert(shallow(ind, l, p));
                            }
                            if let Some(open_nested) = ip.open_nested.take() {
                                let parent_num_indents = ip.num_indents;
                                let child = to_nested_fold(
                                    *open_nested,
                                    line_num,
                                    parent_num_indents,
                                    Ghost(line_num as int),
                                    Ghost(ind),
                                    Ghost(false),
                                );
                                let ghost old_children = nested_models(ip.nested@);
                                ip.nested.push(child);
                                proof {
                                    let cs = nested_models(ip.nested@);
                                    assert(cs == old_children.push(child@));
                                    assert forall|i: int, j: int|
                                        0 <= i < j < cs.len() implies #[trigger] cs[i].range.end
                                        <= #[trigger] cs[j].range.start by {
                                        if j == cs.len() - 1 {
                                            assert(before.nested@[i].range.end <= open_nested.start_line);
                                        } else {
                                            assert(old_children[i] == cs[i] && old_children[j] == cs[j]);
                                        }
                                    }
                                    assert forall|i: int| 0 <= i < cs.len() implies #[trigger] cs[i].range.end
                                        <= line_num + 1 by {
                                        if i < cs.len() - 1 {
                                            assert(old_children[i] == cs[i]);
                                        }
                                    }
                                    lemma_tracks_close_open(ip0, ip, child, ind, l);
                                    lemma_top_runs_close_open(ip0, ip, ind, l);
                                }
                            } else {
                                proof {
                                    lemma_tracks_step_not_deeper(ip, ind, l, true);
                                    lemma_top_runs_not_deeper(ip, ind, l);
                                }
                            }
                            in_progress = Some(ip);
                        } else if level < ip.num_indents {
                            let ghost start = ip.start_line as int;
                            proof {
                                lemma_min_level_as_min_deeper(ind, start, l);
                                lemma_min_deeper_shift(ind, start, l, -1, level as int);
                                assert forall|z: int| start <= z < line_num implies ind[z] != IndentLevel::Level(
                                    level,
                                ) by {
                                    if ind[z] == IndentLevel::Level(level) {
                                        lemma_min_level_bound(ind, start, l, z);
                                    }
                                }
                            }
                            let reshaped = nest_myself_with_new_lesser_indent(
                                ip,
                                level,
                                line_num,
                                Ghost(ind),
                                Ghost(true),
                            );
                            proof {
                                lemma_in_progress_wf_later(reshaped, line_num as int, line_num + 1);
                                lemma_top_runs_reparent(ip0, reshaped, ind, l);
                            }
                            in_progress = Some(reshaped);
                        } else {
                            apply_more_indented(level, line_num, &mut ip, Ghost(ind), Ghost(true));
                            proof {
                                lemma_top_runs_deeper(ip0, ip, ind, l);
                            }
                            in_progress = Some(ip);
                        }
                    },
                    IndentLevel::BlankLine => {
                        proof {
                            lemma_tracks_step_not_deeper(ip, ind, l, true);
                            lemma_top_runs_not_deeper(ip, ind, l);
                        }
                        in_progress = Some(ip);
                    },
                }
                proof {
                    if in_progress is Some {
                        let ip2 = in_progress->0;
                        assert(ip2.start_line == ip0.start_line);
                        assert(!unindented(ind, l));
                        assert forall|s: int| 0 <= s < l + 1 && #[trigger] fold_starts_at(ind, s) implies s
                            == ip2.start_line || exists|i: int|
                            0 <= i < folds@.len() && #[trigger] folds@[i].range.start == s by {
                            if s == l {
                                assert(indented(ind, ip0.start_line as int));
                                assert(forall|z: int| ip0.start_line <= z < l ==> !#[trigger] unindented(ind, z));
                                assert(fold_running_at(ind, l));
                            }
                        }
                    }
                }
            },
        }
        proof {
            assert forall|i: int| 0 <= i < folds@.len() implies fold_wf(#[trigger] folds@[i]@, line_num + 1) by {
                assert(fold_wf(folds@[i]@, line_num as int) || folds@[i].range.end <= line_num + 1);
            }
        }
        line_num += 1;
    }
    if let Some(ip) = in_progress {
        let ghost old_folds = folds@;
        let ghost start = ip.start_line as int;
        let ghost ip0 = ip;
        let fold = to_fold(ip, n, Ghost(n as int), Ghost(ind));
        proof {
            lemma_closed_runs(ip0, fold@.nested, ind, n as int);
            lemma_fold_follows_intro(fold@, ind);
        }
        folds.push(fold);
        proof {
            lemma_next_unindented(ind, start, n as int);
            assert(folds@ == old_folds.push(fold));
            assert forall|i: int, j: int|
                0 <= i < j < folds@.len() implies #[trigger] folds@[i].range.end
                <= #[trigger] folds@[j].range.start by {
                if j < folds@.len() - 1 {
                    assert(old_folds[i] == folds@[i] && old_folds[j] == folds@[j]);
                }
            }
            assert forall|i: int| 0 <= i < folds@.len() implies fold_wf(#[trigger] folds@[i]@, n as int) by {
                if i < folds@.len() - 1 {
                    assert(old_folds[i] == folds@[i]);
                }
            }
            assert forall|i: int| 0 <= i < folds@.len() implies fold_matches_indents(#[trigger] folds@[i], ind) by {
                if i < folds@.len() - 1 {
                    assert(old_folds[i] == folds@[i]);
                }
            }
            assert forall|s: int| #[trigger] fold_starts_at(ind, s) implies exists|i: int|
                0 <= i < folds@.len() && #[trigger] folds@[i].range.start == s by {
                if s == start {
                    assert(folds@[folds@.len() - 1].range.start == s);
                } else {
                    let i = choose|i: int| 0 <= i < old_folds.len() && #[trigger] old_folds[i].range.start == s;
                    assert(folds@[i] == old_folds[i]);
                }
            }
        }
    }
    folds
}

} // verus!
