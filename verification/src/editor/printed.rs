use vstd::prelude::*;

use crate::fold::{Fold, FoldIndex};
use crate::LineNumber;

verus! {

/// One row of the file area of the screen: a line of the file, or a closed
/// fold standing for the lines it hides.
#[derive(Clone, Copy, Debug, PartialEq, Eq, Structural)]
pub enum PrintedLine {
    Line(LineNumber),
    Fold(FoldIndex),
}

/// The printed line refers to an existing fold, if it is one.
pub open spec fn printed_line_valid(p: PrintedLine, folds: Seq<Fold>) -> bool {
    match p {
        PrintedLine::Line(_) => true,
        PrintedLine::Fold(i) => i < folds.len(),
    }
}

/// The first file line a printed line shows.
pub open spec fn spec_start_line(p: PrintedLine, folds: Seq<Fold>) -> int {
    match p {
        PrintedLine::Line(l) => l as int,
        PrintedLine::Fold(i) => folds[i as int].range.start as int,
    }
}

/// One past the last file line a printed line shows.
pub open spec fn spec_one_past_line(p: PrintedLine, folds: Seq<Fold>) -> int {
    match p {
        PrintedLine::Line(l) => l + 1,
        PrintedLine::Fold(i) => folds[i as int].range.end as int,
    }
}

impl PrintedLine {
    /// The first file line this printed line shows.
    pub fn start_line(&self, folds: &[Fold]) -> (line: LineNumber)
        requires
            printed_line_valid(*self, folds@),
        ensures
            line == spec_start_line(*self, folds@),
    {
        match self {
            PrintedLine::Line(line) => *line,
            PrintedLine::Fold(fold_index) => folds[*fold_index].range.start,
        }
    }
}

/// Each fold is non-empty and they come in order without overlapping.
pub open spec fn fold_ranges_ordered(folds: Seq<Fold>) -> bool {
    &&& forall|i: int| 0 <= i < folds.len() ==> #[trigger] folds[i].range.start < folds[i].range.end
    &&& forall|i: int, j: int|
        0 <= i < j < folds.len() ==> #[trigger] folds[i].range.end <= #[trigger] folds[j].range.start
}

/// The index of the fold that starts at `line`, if any.
pub open spec fn fold_starting_at(folds: Seq<Fold>, line: int) -> Option<int> {
    if exists|i: int| 0 <= i < folds.len() && #[trigger] folds[i].range.start == line {
        Some(choose|i: int| 0 <= i < folds.len() && #[trigger] folds[i].range.start == line)
    } else {
        None
    }
}

/// The rows shown from file line `cur` on, at most `height` of them: each
/// line in turn, except that where a fold starts (and folding is allowed)
/// the fold takes one row and the walk resumes after it; the walk stops at
/// the end of the file.
pub open spec fn printed_walk(
    num_lines: int,
    folds: Seq<Fold>,
    disallow_folding: bool,
    cur: int,
    height: nat,
) -> Seq<PrintedLine>
    decreases height,
{
    if height == 0 || cur >= num_lines {
        Seq::empty()
    } else {
        match (if disallow_folding {
            None
        } else {
            fold_starting_at(folds, cur)
        }) {
            Some(i) => seq![PrintedLine::Fold(i as usize)] + printed_walk(
                num_lines,
                folds,
                disallow_folding,
                folds[i].range.end as int,
                (height - 1) as nat,
            ),
            None => seq![PrintedLine::Line(cur as usize)] + printed_walk(
                num_lines,
                folds,
                disallow_folding,
                cur + 1,
                (height - 1) as nat,
            ),
        }
    }
}

proof fn lemma_fold_starting_at_unique(folds: Seq<Fold>, i: int)
    requires
        fold_ranges_ordered(folds),
        0 <= i < folds.len(),
    ensures
        fold_starting_at(folds, folds[i].range.start as int) == Some(i),
{
    let line = folds[i].range.start as int;
    assert(folds[i].range.start == line);
    let j = choose|j: int| 0 <= j < folds.len() && #[trigger] folds[j].range.start == line;
    if j < i {
        assert(folds[j].range.end <= folds[i].range.start);
    } else if j > i {
        assert(folds[i].range.end <= folds[j].range.start);
    }
}

/// The index of the first fold starting at or after `line`.
fn first_fold_at_or_after(folds: &[Fold], line: LineNumber) -> (idx: Option<usize>)
    ensures
        match idx {
            Some(i) => i < folds.len() && folds@[i as int].range.start >= line && forall|j: int|
                0 <= j < i ==> #[trigger] folds@[j].range.start < line,
            None => forall|j: int| 0 <= j < folds.len() ==> #[trigger] folds@[j].range.start < line,
        },
{
    let mut i: usize = 0;
    while i < folds.len()
        invariant
            0 <= i <= folds.len(),
            forall|j: int| 0 <= j < i ==> #[trigger] folds@[j].range.start < line,
        decreases folds.len() - i,
    {
        if folds[i].range.start >= line {
            return Some(i);
        }
        i += 1;
    }
    None
}

/// The rows of the file area, from `top_line` down, at most `height` of
/// them: see `printed_walk`.
pub fn compute_printed_lines(
    num_lines: usize,
    top_line: PrintedLine,
    folds: &[Fold],
    height: u16,
    disallow_folding: bool,
) -> (printed: Vec<PrintedLine>)
    requires
        printed_line_valid(top_line, folds@),
        spec_start_line(top_line, folds@) < num_lines,
    ensures
        fold_ranges_ordered(folds@) ==> printed@ == printed_walk(
            num_lines as int,
            folds@,
            disallow_folding,
            spec_start_line(top_line, folds@),
            height as nat,
        ),
        printed@.len() <= height,
        forall|k: int| 0 <= k < printed@.len() ==> printed_line_valid(#[trigger] printed@[k], folds@),
{
    let ghost fs = folds@;
    let ghost ordered = fold_ranges_ordered(folds@);
    let top_line = top_line.start_line(folds);
    let mut current_line_num = top_line;
    let mut next_eligible_fold_index = if disallow_folding {
        None
    } else {
        first_fold_at_or_after(folds, top_line)
    };
    let mut ret: Vec<PrintedLine> = Vec::new();
    let mut k: u16 = 0;
    while k < height
        invariant
            fs == folds@,
            ordered == fold_ranges_ordered(fs),
            0 <= k <= height,
            ret@.len() <= k,
            current_line_num < num_lines ==> ret@.len() == k,
            forall|q: int| 0 <= q < ret@.len() ==> printed_line_valid(#[trigger] ret@[q], fs),
            disallow_folding ==> next_eligible_fold_index is None,
            match next_eligible_fold_index {
                Some(i) => i < fs.len(),
                None => true,
            },
            ordered ==> ret@ + printed_walk(
                num_lines as int,
                fs,
                disallow_folding,
                current_line_num as int,
                (height - ret@.len()) as nat,
            ) == printed_walk(num_lines as int, fs, disallow_folding, top_line as int, height as nat),
            ordered ==> ret@.len() < k ==> current_line_num >= num_lines,
            (ordered && !disallow_folding) ==> match next_eligible_fold_index {
                Some(i) => (forall|j: int| 0 <= j < i ==> #[trigger] fs[j].range.start < current_line_num)
                    && (fs[i as int].range.start >= current_line_num || (i == fs.len() - 1
                    && fs[i as int].range.start < current_line_num)),
                None => forall|j: int| 0 <= j < fs.len() ==> #[trigger] fs[j].range.start < current_line_num,
            },
        ensures
            current_line_num >= num_lines || k == height,
        decreases height - k,
    {
        if current_line_num >= num_lines {
            break;
        }
        let ghost rem = (height - ret@.len()) as nat;
        let ghost cur = current_line_num as int;
        let take_fold = match next_eligible_fold_index {
            Some(i) => folds[i].range.start == current_line_num,
            None => false,
        };
        proof {
            if ordered && !disallow_folding {
                if take_fold {
                    let i = next_eligible_fold_index->0 as int;
                    lemma_fold_starting_at_unique(fs, i);
                } else {
                    assert forall|j: int| 0 <= j < fs.len() implies #[trigger] fs[j].range.start != cur by {
                        if let Some(i) = next_eligible_fold_index {
                            if j > i {
                                assert(fs[i as int].range.end <= fs[j].range.start);
                            }
                        }
                    }
                    assert(fold_starting_at(fs, cur) is None);
                }
            }
        }
        if take_fold {
            let i = next_eligible_fold_index.unwrap();
            ret.push(PrintedLine::Fold(i));
            current_line_num = folds[i].range.end;
            if i + 1 < folds.len() {
                next_eligible_fold_index = Some(i + 1);
            }
            proof {
                if ordered {
                    assert(fs[i as int].range.start < fs[i as int].range.end);
                    if i + 1 < fs.len() {
                        assert(fs[i as int].range.end <= fs[i + 1].range.start);
                    }
                }
            }
        } else {
            ret.push(PrintedLine::Line(current_line_num));
            current_line_num = current_line_num + 1;
        }
        proof {
            if ordered {
                let w = printed_walk(num_lines as int, fs, disallow_folding, cur, rem);
                assert(w == seq![ret@.last()] + printed_walk(
                    num_lines as int,
                    fs,
                    disallow_folding,
                    current_line_num as int,
                    (rem - 1) as nat,
                ));
                assert(ret@ == ret@.drop_last().push(ret@.last()));
                assert(ret@.drop_last() + w == ret@ + printed_walk(
                    num_lines as int,
                    fs,
                    disallow_folding,
                    current_line_num as int,
                    (rem - 1) as nat,
                ));
            }
        }
        k += 1;
    }
    proof {
        if ordered {
            assert(printed_walk(
                num_lines as int,
                fs,
                disallow_folding,
                current_line_num as int,
                (height - ret@.len()) as nat,
            ) == Seq::<PrintedLine>::empty());
            assert(ret@ + Seq::<PrintedLine>::empty() == ret@);
        }
    }
    ret
}


// ---------------------------------------------------------------------------
// Facts about the walk
// ---------------------------------------------------------------------------

/// The file line the walk reaches after showing `p`.
pub open spec fn next_line_after(p: PrintedLine, folds: Seq<Fold>) -> int {
    spec_one_past_line(p, folds)
}

pub proof fn lemma_walk_len(num_lines: int, folds: Seq<Fold>, disallow: bool, cur: int, h: nat)
    ensures
        printed_walk(num_lines, folds, disallow, cur, h).len() <= h,
    decreases h,
{
    if h > 0 && cur < num_lines {
        let next = match (if disallow {
            None
        } else {
            fold_starting_at(folds, cur)
        }) {
            Some(i) => folds[i].range.end as int,
            None => cur + 1,
        };
        lemma_walk_len(num_lines, folds, disallow, next, (h - 1) as nat);
    }
}

/// A shorter walk from the same line is a prefix of a longer one.
pub proof fn lemma_walk_prefix(
    num_lines: int,
    folds: Seq<Fold>,
    disallow: bool,
    cur: int,
    h1: nat,
    h2: nat,
)
    requires
        h1 <= h2,
    ensures
        ({
            let w1 = printed_walk(num_lines, folds, disallow, cur, h1);
            let w2 = printed_walk(num_lines, folds, disallow, cur, h2);
            &&& w1.len() == if h1 < w2.len() {
                h1 as int
            } else {
                w2.len() as int
            }
            &&& w1 == w2.subrange(0, w1.len() as int)
        }),
    decreases h1,
{
    lemma_walk_len(num_lines, folds, disallow, cur, h2);
    if h1 > 0 && cur < num_lines {
        let next = match (if disallow {
            None
        } else {
            fold_starting_at(folds, cur)
        }) {
            Some(i) => folds[i].range.end as int,
            None => cur + 1,
        };
        lemma_walk_prefix(num_lines, folds, disallow, next, (h1 - 1) as nat, (h2 - 1) as nat);
        let w1 = printed_walk(num_lines, folds, disallow, cur, h1);
        let w2 = printed_walk(num_lines, folds, disallow, cur, h2);
        let r1 = printed_walk(num_lines, folds, disallow, next, (h1 - 1) as nat);
        let r2 = printed_walk(num_lines, folds, disallow, next, (h2 - 1) as nat);
        assert(w1 == seq![w1[0]] + r1);
        assert(w2 == seq![w1[0]] + r2);
        assert(w1 =~= w2.subrange(0, w1.len() as int));
    }
}

/// A walk of a given length is the walk of exactly that height.
pub proof fn lemma_walk_own_height(num_lines: int, folds: Seq<Fold>, disallow: bool, cur: int, h: nat)
    ensures
        ({
            let w = printed_walk(num_lines, folds, disallow, cur, h);
            printed_walk(num_lines, folds, disallow, cur, w.len()) == w
        }),
{
    let w = printed_walk(num_lines, folds, disallow, cur, h);
    lemma_walk_len(num_lines, folds, disallow, cur, h);
    lemma_walk_prefix(num_lines, folds, disallow, cur, w.len(), h);
    assert(w.subrange(0, w.len() as int) =~= w);
}

/// The first row of a walk starts at the line the walk starts at, and the
/// rest of the walk goes on from where that row ends.
pub proof fn lemma_walk_head(num_lines: int, folds: Seq<Fold>, disallow: bool, cur: int, h: nat)
    requires
        fold_ranges_ordered(folds),
        0 <= cur,
        num_lines <= usize::MAX,
        folds.len() <= usize::MAX,
        printed_walk(num_lines, folds, disallow, cur, h).len() > 0,
    ensures
        ({
            let w = printed_walk(num_lines, folds, disallow, cur, h);
            &&& spec_start_line(w[0], folds) == cur
            &&& cur < num_lines
            &&& h > 0
            &&& printed_line_valid(w[0], folds)
            &&& (w[0] is Fold ==> !disallow)
            &&& w == seq![w[0]] + printed_walk(
                num_lines,
                folds,
                disallow,
                next_line_after(w[0], folds),
                (h - 1) as nat,
            )
        }),
{
    let w = printed_walk(num_lines, folds, disallow, cur, h);
    match (if disallow {
        None
    } else {
        fold_starting_at(folds, cur)
    }) {
        Some(f) => {
            assert(folds[f].range.start == cur);
            assert(0 <= f < folds.len());
            assert(folds[f].range.start < folds[f].range.end);
        },
        None => {},
    }
}

/// Row `i` of a walk starts where the row before it ends; the walk from the
/// line it starts at shows the rest of the rows; and the walk stops early
/// only at the end of the file.
pub proof fn lemma_walk_suffix(
    num_lines: int,
    folds: Seq<Fold>,
    disallow: bool,
    cur: int,
    h: nat,
    i: int,
)
    requires
        fold_ranges_ordered(folds),
        0 <= cur,
        num_lines <= usize::MAX,
        folds.len() <= usize::MAX,
        0 <= i < printed_walk(num_lines, folds, disallow, cur, h).len(),
    ensures
        ({
            let w = printed_walk(num_lines, folds, disallow, cur, h);
            &&& printed_walk(num_lines, folds, disallow, spec_start_line(w[i], folds), (h - i) as nat)
                == w.subrange(i, w.len() as int)
            &&& spec_start_line(w[i], folds) < num_lines
            &&& printed_line_valid(w[i], folds)
            &&& (w[i] is Fold ==> !disallow)
            &&& (i + 1 < w.len() ==> spec_start_line(w[i + 1], folds) == next_line_after(w[i], folds))
            &&& (i + 1 == w.len() ==> (w.len() == h || next_line_after(w[i], folds) >= num_lines))
        }),
    decreases i,
{
    let w = printed_walk(num_lines, folds, disallow, cur, h);
    lemma_walk_head(num_lines, folds, disallow, cur, h);
    let next = next_line_after(w[0], folds);
    let r = printed_walk(num_lines, folds, disallow, next, (h - 1) as nat);
    if i == 0 {
        assert(w.subrange(0, w.len() as int) =~= w);
        if r.len() > 0 {
            lemma_walk_head(num_lines, folds, disallow, next, (h - 1) as nat);
            assert(r[0] == w[1]);
        } else {
            lemma_walk_len(num_lines, folds, disallow, cur, h);
            if w.len() < h {
                assert(h - 1 > 0);
                assert(next >= num_lines);
            }
        }
    } else {
        lemma_walk_suffix(num_lines, folds, disallow, next, (h - 1) as nat, i - 1);
        assert(r[i - 1] == w[i]);
        assert(r.subrange(i - 1, r.len() as int) =~= w.subrange(i, w.len() as int));
        if i + 1 < w.len() {
            assert(r[i] == w[i + 1]);
        }
    }
}


/// A walk from a line inside the file with room for a row shows something.
pub proof fn lemma_walk_head_nonempty(num_lines: int, folds: Seq<Fold>, disallow: bool, cur: int, h: nat)
    requires
        cur < num_lines,
        h > 0,
    ensures
        printed_walk(num_lines, folds, disallow, cur, h).len() >= 1,
{
}

/// The walk depends on the folds' ranges alone.
pub proof fn lemma_walk_same_ranges(
    num_lines: int,
    f1: Seq<Fold>,
    f2: Seq<Fold>,
    disallow: bool,
    cur: int,
    h: nat,
)
    requires
        fold_ranges_ordered(f1),
        f1.len() == f2.len(),
        forall|i: int| 0 <= i < f1.len() ==> #[trigger] f1[i].range == f2[i].range,
    ensures
        printed_walk(num_lines, f1, disallow, cur, h) == printed_walk(num_lines, f2, disallow, cur, h),
    decreases h,
{
    assert(fold_ranges_ordered(f2)) by {
        assert forall|i: int| 0 <= i < f2.len() implies #[trigger] f2[i].range.start < f2[i].range.end by {
            assert(f1[i].range == f2[i].range);
        }
        assert forall|i: int, j: int| 0 <= i < j < f2.len() implies #[trigger] f2[i].range.end
            <= #[trigger] f2[j].range.start by {
            assert(f1[i].range == f2[i].range && f1[j].range == f2[j].range);
        }
    }
    if exists|i: int| 0 <= i < f1.len() && #[trigger] f1[i].range.start == cur {
        let i = choose|i: int| 0 <= i < f1.len() && #[trigger] f1[i].range.start == cur;
        lemma_fold_starting_at_unique(f1, i);
        assert(f2[i].range.start == cur) by {
            assert(f1[i].range == f2[i].range);
        }
        lemma_fold_starting_at_unique(f2, i);
    } else {
        assert forall|i: int| 0 <= i < f2.len() implies #[trigger] f2[i].range.start != cur by {
            assert(f1[i].range == f2[i].range);
        }
    }
    assert(fold_starting_at(f1, cur) == fold_starting_at(f2, cur));
    if h > 0 && cur < num_lines {
        let next = match (if disallow {
            None
        } else {
            fold_starting_at(f1, cur)
        }) {
            Some(i) => {
                assert(f1[i].range == f2[i].range);
                f1[i].range.end as int
            },
            None => cur + 1,
        };
        lemma_walk_same_ranges(num_lines, f1, f2, disallow, next, (h - 1) as nat);
    }
}

} // verus!
