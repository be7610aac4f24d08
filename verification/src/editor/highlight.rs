use vstd::prelude::*;

use super::{Color, HighlightRange, Range, Style};
use crate::tree_sitter::TreeSitterHighlight;

verus! {

// ---------------------------------------------------------------------------
// The model: which style every byte offset should end up with.
// ---------------------------------------------------------------------------

/// `b` lies inside the half-open range `r`.
pub open spec fn covers(r: Range, b: int) -> bool {
    r.start <= b < r.end
}

/// Syntax highlights are well formed when each range is not inverted and the
/// ranges come in increasing order without overlapping.
pub open spec fn highlights_ordered(ts: Seq<TreeSitterHighlight>) -> bool {
    &&& forall|i: int| 0 <= i < ts.len() ==> ts[i].range.start <= ts[i].range.end
    &&& forall|i: int, j: int|
        0 <= i < j < ts.len() ==> #[trigger] ts[i].range.end <= #[trigger] ts[j].range.start
}

/// Highlight ranges are well formed when each range is not inverted and the
/// ranges come in increasing order without overlapping.
pub open spec fn ranges_ordered(rs: Seq<HighlightRange>) -> bool {
    &&& forall|i: int| 0 <= i < rs.len() ==> rs[i].range.start <= rs[i].range.end
    &&& forall|i: int, j: int|
        0 <= i < j < rs.len() ==> #[trigger] rs[i].range.end <= #[trigger] rs[j].range.start
}

/// Some highlight range of `rs` covers `b`.
pub open spec fn ranges_cover(rs: Seq<HighlightRange>, b: int) -> bool {
    exists|i: int| 0 <= i < rs.len() && #[trigger] covers(rs[i].range, b)
}

/// Some syntax highlight covers `b`.
pub open spec fn syntax_covers(ts: Seq<TreeSitterHighlight>, b: int) -> bool {
    exists|j: int| 0 <= j < ts.len() && #[trigger] covers(ts[j].range, b)
}

/// The index of a syntax highlight covering `b` (unique when they are ordered).
pub open spec fn syntax_index_at(ts: Seq<TreeSitterHighlight>, b: int) -> int {
    choose|j: int| 0 <= j < ts.len() && #[trigger] covers(ts[j].range, b)
}

/// The user-selected range covers `b`.
pub open spec fn marked(hr: Option<Range>, b: int) -> bool {
    match hr {
        Some(r) => covers(r, b),
        None => false,
    }
}

/// The background color of the user-selected range.
pub open spec fn marked_background() -> Color {
    Color::AnsiValue(94)
}

/// The color a syntax highlight is painted in.
pub open spec fn highlight_color(h: TreeSitterHighlight, colors: Seq<Color>) -> Color {
    colors[h.highlight_type_index as int]
}

/// The style byte `b` should have: the foreground of the syntax highlight
/// covering it, if any, and the marked background if the selection covers it.
pub open spec fn style_at(
    ts: Seq<TreeSitterHighlight>,
    hr: Option<Range>,
    colors: Seq<Color>,
    b: int,
) -> Style {
    Style {
        foreground_color: if syntax_covers(ts, b) {
            Some(highlight_color(ts[syntax_index_at(ts, b)], colors))
        } else {
            None
        },
        background_color: if marked(hr, b) {
            Some(marked_background())
        } else {
            None
        },
    }
}

/// `rs` paints exactly the bytes that a syntax highlight or the selection
/// covers, each one in the style `style_at` gives it.
pub open spec fn overlay_correct(
    rs: Seq<HighlightRange>,
    ts: Seq<TreeSitterHighlight>,
    hr: Option<Range>,
    colors: Seq<Color>,
) -> bool {
    &&& forall|b: int| ranges_cover(rs, b) <==> (syntax_covers(ts, b) || marked(hr, b))
    &&& forall|i: int, b: int|
        0 <= i < rs.len() && #[trigger] covers(rs[i].range, b) ==> rs[i].style == style_at(
            ts,
            hr,
            colors,
            b,
        )
}

/// A syntax highlight starts or ends at `x`.
pub open spec fn at_edge(h: TreeSitterHighlight, x: int) -> bool {
    h.range.start == x || h.range.end == x
}

/// `x` is where a syntax highlight or the selection starts or ends.
pub open spec fn is_boundary(ts: Seq<TreeSitterHighlight>, hr: Range, x: int) -> bool {
    x == hr.start || x == hr.end || exists|j: int| 0 <= j < ts.len() && #[trigger] at_edge(ts[j], x)
}

/// `x` lies strictly inside `r`.
pub open spec fn strictly_inside(r: Range, x: int) -> bool {
    r.start < x < r.end
}

/// No syntax highlight and not the selection starts or ends strictly inside `r`.
pub open spec fn unsplit(ts: Seq<TreeSitterHighlight>, hr: Range, r: Range) -> bool {
    &&& !strictly_inside(r, hr.start as int)
    &&& !strictly_inside(r, hr.end as int)
    &&& forall|j: int|
        0 <= j < ts.len() ==> !strictly_inside(r, (#[trigger] ts[j]).range.start as int) && !strictly_inside(
            r,
            ts[j].range.end as int,
        )
}

/// Each range is a non-empty piece between two consecutive boundaries: it
/// starts and ends where a syntax highlight or the selection starts or ends,
/// and no such place lies strictly inside it.
pub open spec fn pieces_between_boundaries(rs: Seq<HighlightRange>, ts: Seq<TreeSitterHighlight>, hr: Range) -> bool {
    forall|i: int|
        0 <= i < rs.len() ==> {
            &&& (#[trigger] rs[i]).range.start < rs[i].range.end
            &&& is_boundary(ts, hr, rs[i].range.start as int)
            &&& is_boundary(ts, hr, rs[i].range.end as int)
            &&& unsplit(ts, hr, rs[i].range)
        }
}

/// The syntax highlights each span at least one byte.
pub open spec fn highlights_nonempty(ts: Seq<TreeSitterHighlight>) -> bool {
    forall|i: int| 0 <= i < ts.len() ==> (#[trigger] ts[i]).range.start < ts[i].range.end
}

/// The style of a syntax highlight alone.
pub open spec fn spec_syntax_style(h: TreeSitterHighlight, colors: Seq<Color>) -> Style {
    Style { foreground_color: Some(highlight_color(h, colors)), background_color: None }
}

/// The style of a syntax highlight inside the selection.
pub open spec fn spec_syntax_and_marked_style(h: TreeSitterHighlight, colors: Seq<Color>) -> Style {
    Style {
        foreground_color: Some(highlight_color(h, colors)),
        background_color: Some(marked_background()),
    }
}

/// The style of the selection outside any syntax highlight.
pub open spec fn spec_marked_style() -> Style {
    Style { foreground_color: None, background_color: Some(marked_background()) }
}

/// A syntax highlight painted on its own.
pub open spec fn spec_syntax_range(h: TreeSitterHighlight, colors: Seq<Color>) -> HighlightRange {
    HighlightRange { range: h.range, style: spec_syntax_style(h, colors) }
}

// ---------------------------------------------------------------------------
// Styles
// ---------------------------------------------------------------------------

/// The background used for the selected range.
pub fn highlight_range_background_color() -> (c: Color)
    ensures
        c == marked_background(),
{
    Color::AnsiValue(94)
}

/// The style of a syntax highlight outside the selection.
pub fn tree_sitter_highlight_style(
    tree_sitter_highlight: &TreeSitterHighlight,
    tree_sitter_highlight_colors: &[Color],
) -> (s: Style)
    requires
        tree_sitter_highlight.highlight_type_index < tree_sitter_highlight_colors.len(),
    ensures
        s == spec_syntax_style(*tree_sitter_highlight, tree_sitter_highlight_colors@),
{
    Style {
        foreground_color: Some(
            tree_sitter_highlight_colors[tree_sitter_highlight.highlight_type_index],
        ),
        background_color: None,
    }
}

/// A syntax highlight painted on its own.
pub fn tree_sitter_highlight_to_highlight_range(
    tree_sitter_highlight: &TreeSitterHighlight,
    tree_sitter_highlight_colors: &[Color],
) -> (r: HighlightRange)
    requires
        tree_sitter_highlight.highlight_type_index < tree_sitter_highlight_colors.len(),
    ensures
        r == spec_syntax_range(*tree_sitter_highlight, tree_sitter_highlight_colors@),
{
    HighlightRange {
        range: tree_sitter_highlight.range,
        style: tree_sitter_highlight_style(tree_sitter_highlight, tree_sitter_highlight_colors),
    }
}

/// The style of the selection outside any syntax highlight.
pub fn highlight_range_style() -> (s: Style)
    ensures
        s == spec_marked_style(),
{
    Style { foreground_color: None, background_color: Some(highlight_range_background_color()) }
}

/// The selection painted on its own.
pub fn highlight_range_to_highlight_range(highlight_range: Range) -> (r: HighlightRange)
    ensures
        r == (HighlightRange { range: highlight_range, style: spec_marked_style() }),
{
    HighlightRange { range: highlight_range, style: highlight_range_style() }
}

/// The style of a syntax highlight inside the selection.
pub fn tree_sitter_and_highlight_range_style(
    tree_sitter_highlight: &TreeSitterHighlight,
    tree_sitter_highlight_colors: &[Color],
) -> (s: Style)
    requires
        tree_sitter_highlight.highlight_type_index < tree_sitter_highlight_colors.len(),
    ensures
        s == spec_syntax_and_marked_style(*tree_sitter_highlight, tree_sitter_highlight_colors@),
{
    Style {
        foreground_color: Some(
            tree_sitter_highlight_colors[tree_sitter_highlight.highlight_type_index],
        ),
        background_color: Some(highlight_range_background_color()),
    }
}

// ---------------------------------------------------------------------------
// Overlaying the selection on the syntax highlights
// ---------------------------------------------------------------------------

/// How far the walk over the syntax highlights has got with the selection.
#[derive(Clone, Copy, Debug, PartialEq, Eq, Structural)]
pub enum EngagementWithHighlightRange {
    HasntStarted,
    InProgress,
    Done,
}

/// Where the selection stands with respect to the offset `cut` up to which
/// everything has been painted.
pub open spec fn engagement_holds(cut: int, hr: Range, e: EngagementWithHighlightRange) -> bool {
    match e {
        EngagementWithHighlightRange::HasntStarted => cut <= hr.start,
        EngagementWithHighlightRange::InProgress => hr.start < cut < hr.end,
        EngagementWithHighlightRange::Done => hr.end <= cut,
    }
}

/// The style a byte in `[lo, h.end)` gets from `h` and the selection alone.
pub open spec fn local_style(h: TreeSitterHighlight, hr: Range, colors: Seq<Color>, b: int) -> Style {
    Style {
        foreground_color: if covers(h.range, b) {
            Some(highlight_color(h, colors))
        } else {
            None
        },
        background_color: if covers(hr, b) {
            Some(marked_background())
        } else {
            None
        },
    }
}

/// The pieces painted for one syntax highlight cover `[lo, h.end)` correctly
/// and leave the selection in state `e1` at `h.end`.
pub open spec fn pieces_correct(
    pieces: Seq<HighlightRange>,
    lo: int,
    h: TreeSitterHighlight,
    hr: Range,
    colors: Seq<Color>,
    e1: EngagementWithHighlightRange,
) -> bool {
    &&& ranges_ordered(pieces)
    &&& forall|i: int| 0 <= i < pieces.len() ==> lo <= #[trigger] pieces[i].range.start
    &&& forall|i: int| 0 <= i < pieces.len() ==> #[trigger] pieces[i].range.end <= h.range.end
    &&& forall|b: int| lo <= b < h.range.end ==> (ranges_cover(pieces, b) <==> (covers(h.range, b) || covers(hr, b)))
    &&& forall|i: int, b: int|
        0 <= i < pieces.len() && #[trigger] covers(pieces[i].range, b) ==> pieces[i].style
            == local_style(h, hr, colors, b)
    &&& engagement_holds(h.range.end as int, hr, e1)
}

/// The pieces painted for one syntax highlight are non-empty, start at `lo`
/// (only where `from_lo`), or where `h` or the selection starts or ends, end
/// where `h` or the selection starts or ends, and have none of these places
/// strictly inside.
pub open spec fn local_cells(pieces: Seq<HighlightRange>, lo: int, from_lo: bool, h: TreeSitterHighlight, hr: Range) -> bool {
    forall|i: int|
        0 <= i < pieces.len() ==> {
            let r = (#[trigger] pieces[i]).range;
            &&& r.start < r.end
            &&& (from_lo && r.start == lo) || r.start == h.range.start || r.start == hr.start || r.start == hr.end
            &&& r.end == h.range.start || r.end == h.range.end || r.end == hr.start || r.end == hr.end
            &&& !strictly_inside(r, h.range.start as int) && !strictly_inside(r, h.range.end as int)
            &&& !strictly_inside(r, hr.start as int) && !strictly_inside(r, hr.end as int)
        }
}

/// Paints the bytes from `lo` (where the previous syntax highlight ended) to
/// the end of `h`, given how far the selection has got.
fn pieces_for_highlight(
    h: &TreeSitterHighlight,
    hr: Range,
    engagement: EngagementWithHighlightRange,
    prev_end: usize,
    colors: &[Color],
    Ghost(lo): Ghost<int>,
) -> (res: (Vec<HighlightRange>, EngagementWithHighlightRange))
    requires
        h.highlight_type_index < colors.len(),
    ensures
        (lo <= h.range.start <= h.range.end && hr.start <= hr.end && engagement_holds(
            lo,
            hr,
            engagement,
        ) && (engagement == EngagementWithHighlightRange::InProgress ==> prev_end == lo))
            ==> pieces_correct(res.0@, lo, *h, hr, colors@, res.1),
        (lo <= h.range.start < h.range.end && hr.start < hr.end && engagement_holds(lo, hr, engagement)
            && (engagement == EngagementWithHighlightRange::InProgress ==> prev_end == lo)) ==> local_cells(
            res.0@,
            lo,
            engagement == EngagementWithHighlightRange::InProgress,
            *h,
            hr,
        ),
{
    let mut ret: Vec<HighlightRange> = Vec::new();
    let mut engagement_out = engagement;
    let syntax = tree_sitter_highlight_style(h, colors);
    let both = tree_sitter_and_highlight_range_style(h, colors);
    let marked_only = highlight_range_style();
    match engagement {
        EngagementWithHighlightRange::Done => {
            ret.push(tree_sitter_highlight_to_highlight_range(h, colors));
        },
        EngagementWithHighlightRange::InProgress => {
            if prev_end < h.range.start {
                let end = if h.range.start < hr.end {
                    h.range.start
                } else {
                    hr.end
                };
                ret.push(HighlightRange { range: Range { start: prev_end, end }, style: marked_only });
            }
            if hr.end <= h.range.start {
                engagement_out = EngagementWithHighlightRange::Done;
                ret.push(tree_sitter_highlight_to_highlight_range(h, colors));
            } else if hr.end > h.range.end {
                ret.push(HighlightRange { range: h.range, style: both });
            } else if hr.end == h.range.end {
                ret.push(HighlightRange { range: h.range, style: both });
                engagement_out = EngagementWithHighlightRange::Done;
            } else {
                ret.push(
                    HighlightRange {
                        range: Range { start: h.range.start, end: hr.end },
                        style: both,
                    },
                );
                ret.push(
                    HighlightRange {
                        range: Range { start: hr.end, end: h.range.end },
                        style: syntax,
                    },
                );
                engagement_out = EngagementWithHighlightRange::Done;
            }
        },
        EngagementWithHighlightRange::HasntStarted => {
            if hr.start >= h.range.end {
                ret.push(tree_sitter_highlight_to_highlight_range(h, colors));
            } else if hr.end <= h.range.start {
                ret.push(highlight_range_to_highlight_range(hr));
                engagement_out = EngagementWithHighlightRange::Done;
                ret.push(tree_sitter_highlight_to_highlight_range(h, colors));
            } else {
                // The selection and `h` overlap: first what precedes the overlap.
                if hr.start == h.range.start {
                } else if hr.start < h.range.start {
                    ret.push(
                        HighlightRange {
                            range: Range { start: hr.start, end: h.range.start },
                            style: marked_only,
                        },
                    );
                } else {
                    ret.push(
                        HighlightRange {
                            range: Range { start: h.range.start, end: hr.start },
                            style: syntax,
                        },
                    );
                }
                let overlap_start = if hr.start < h.range.start {
                    h.range.start
                } else {
                    hr.start
                };
                if hr.end == h.range.end {
                    ret.push(
                        HighlightRange {
                            range: Range { start: overlap_start, end: h.range.end },
                            style: both,
                        },
                    );
                    engagement_out = EngagementWithHighlightRange::Done;
                } else if hr.end > h.range.end {
                    ret.push(
                        HighlightRange {
                            range: Range { start: overlap_start, end: h.range.end },
                            style: both,
                        },
                    );
                    engagement_out = EngagementWithHighlightRange::InProgress;
                } else {
                    ret.push(
                        HighlightRange {
                            range: Range { start: overlap_start, end: hr.end },
                            style: both,
                        },
                    );
                    ret.push(
                        HighlightRange {
                            range: Range { start: hr.end, end: h.range.end },
                            style: syntax,
                        },
                    );
                    engagement_out = EngagementWithHighlightRange::Done;
                }
            }
        },
    }
    proof {
        let pieces = ret@;
        if lo <= h.range.start <= h.range.end && hr.start <= hr.end && engagement_holds(
            lo,
            hr,
            engagement,
        ) && (engagement == EngagementWithHighlightRange::InProgress ==> prev_end == lo) {
            assert forall|b: int| lo <= b < h.range.end implies (ranges_cover(pieces, b) <==> (
            covers(h.range, b) || covers(hr, b))) by {
                if covers(h.range, b) || covers(hr, b) {
                    if pieces.len() > 0 && covers(pieces[0].range, b) {
                    } else if pieces.len() > 1 && covers(pieces[1].range, b) {
                    } else if pieces.len() > 2 && covers(pieces[2].range, b) {
                    } else {
                        assert(pieces.len() > 3 && covers(pieces[3].range, b));
                    }
                }
            }
        }
    }
    (ret, engagement_out)
}


/// The offset up to which the first `k` syntax highlights reach.
pub open spec fn cut(ts: Seq<TreeSitterHighlight>, k: int) -> int {
    if k == 0 {
        0
    } else {
        ts[k - 1].range.end as int
    }
}

proof fn lemma_cut(ts: Seq<TreeSitterHighlight>, k: int)
    requires
        highlights_ordered(ts),
        0 <= k <= ts.len(),
    ensures
        forall|j: int| 0 <= j < k ==> ts[j].range.end <= cut(ts, k),
        forall|j: int| k <= j < ts.len() ==> cut(ts, k) <= ts[j].range.start,
{
    assert forall|j: int| 0 <= j < k implies ts[j].range.end <= cut(ts, k) by {
        if j < k - 1 {
            assert(ts[j].range.end <= ts[k - 1].range.start);
        }
    }
    assert forall|j: int| k <= j < ts.len() implies cut(ts, k) <= ts[j].range.start by {
        if k > 0 {
            assert(ts[k - 1].range.end <= ts[j].range.start);
        }
    }
}

/// Between the end of the previous syntax highlight and the end of the `k`th,
/// no other syntax highlight covers anything.
proof fn lemma_only_kth_covers(ts: Seq<TreeSitterHighlight>, k: int, b: int)
    requires
        highlights_ordered(ts),
        0 <= k < ts.len(),
        cut(ts, k) <= b < ts[k].range.end,
    ensures
        syntax_covers(ts, b) <==> covers(ts[k].range, b),
        covers(ts[k].range, b) ==> syntax_index_at(ts, b) == k,
{
    lemma_cut(ts, k);
    assert forall|j: int| 0 <= j < ts.len() && j != k implies !covers(ts[j].range, b) by {
        if j > k {
            assert(ts[k].range.end <= ts[j].range.start);
        }
    }
    if covers(ts[k].range, b) {
        assert(syntax_covers(ts, b));
    }
}

/// The pieces painted for the `k`th syntax highlight lie between boundaries.
proof fn lemma_new_pieces_between_boundaries(
    ts: Seq<TreeSitterHighlight>,
    hr: Range,
    k: int,
    pieces: Seq<HighlightRange>,
    from_lo: bool,
)
    requires
        highlights_ordered(ts),
        0 <= k < ts.len(),
        from_lo ==> k > 0,
        local_cells(pieces, cut(ts, k), from_lo, ts[k], hr),
        forall|i: int| 0 <= i < pieces.len() ==> cut(ts, k) <= #[trigger] pieces[i].range.start,
        forall|i: int| 0 <= i < pieces.len() ==> #[trigger] pieces[i].range.end <= ts[k].range.end,
    ensures
        pieces_between_boundaries(pieces, ts, hr),
{
    lemma_cut(ts, k);
    let lo = cut(ts, k);
    assert forall|i: int| 0 <= i < pieces.len() implies {
        &&& (#[trigger] pieces[i]).range.start < pieces[i].range.end
        &&& is_boundary(ts, hr, pieces[i].range.start as int)
        &&& is_boundary(ts, hr, pieces[i].range.end as int)
        &&& unsplit(ts, hr, pieces[i].range)
    } by {
        let r = pieces[i].range;
        if from_lo && r.start == lo {
            assert(at_edge(ts[k - 1], r.start as int));
        }
        if r.start == ts[k].range.start {
            assert(at_edge(ts[k], r.start as int));
        }
        if r.end == ts[k].range.start || r.end == ts[k].range.end {
            assert(at_edge(ts[k], r.end as int));
        }
        assert forall|j: int| 0 <= j < ts.len() implies !strictly_inside(r, (#[trigger] ts[j]).range.start as int)
            && !strictly_inside(r, ts[j].range.end as int) by {
            if j > k {
                assert(ts[k].range.end <= ts[j].range.start);
            }
        }
    }
}

/// Ranges between boundaries stay so when put together.
proof fn lemma_between_boundaries_append(
    a: Seq<HighlightRange>,
    b: Seq<HighlightRange>,
    ts: Seq<TreeSitterHighlight>,
    hr: Range,
)
    requires
        pieces_between_boundaries(a, ts, hr),
        pieces_between_boundaries(b, ts, hr),
    ensures
        pieces_between_boundaries(a + b, ts, hr),
{
    let c = a + b;
    assert forall|i: int| 0 <= i < c.len() implies {
        &&& (#[trigger] c[i]).range.start < c[i].range.end
        &&& is_boundary(ts, hr, c[i].range.start as int)
        &&& is_boundary(ts, hr, c[i].range.end as int)
        &&& unsplit(ts, hr, c[i].range)
    } by {
        if i < a.len() {
            assert(c[i] == a[i]);
        } else {
            assert(c[i] == b[i - a.len()]);
        }
    }
}

/// Overlays the selected range, if any, on the syntax highlights: the result
/// paints every byte a syntax highlight or the selection covers, in the
/// foreground of the syntax highlight and the background of the selection.
pub fn compute_highlight_ranges(
    tree_sitter_highlights: &[TreeSitterHighlight],
    highlight_range: Option<Range>,
    tree_sitter_highlight_colors: &[Color],
) -> (ret: Vec<HighlightRange>)
    requires
        forall|i: int|
            0 <= i < tree_sitter_highlights.len() ==> #[trigger] tree_sitter_highlights[i].highlight_type_index
                < tree_sitter_highlight_colors.len(),
    ensures
        highlight_range is None ==> ret@ == tree_sitter_highlights@.map_values(
            |h: TreeSitterHighlight| spec_syntax_range(h, tree_sitter_highlight_colors@),
        ),
        (highlight_range matches Some(r) && r.start <= r.end && highlights_ordered(
            tree_sitter_highlights@,
        )) ==> ranges_ordered(ret@) && overlay_correct(
            ret@,
            tree_sitter_highlights@,
            highlight_range,
            tree_sitter_highlight_colors@,
        ),
        (highlight_range matches Some(r) && r.start < r.end && highlights_ordered(tree_sitter_highlights@)
            && highlights_nonempty(tree_sitter_highlights@)) ==> pieces_between_boundaries(
            ret@,
            tree_sitter_highlights@,
            highlight_range->0,
        ),
{
    let ghost ts = tree_sitter_highlights@;
    let ghost colors = tree_sitter_highlight_colors@;
    let ghost checked = highlight_range matches Some(r) && r.start <= r.end && highlights_ordered(
        ts,
    );
    let ghost strict = highlight_range matches Some(r) && r.start < r.end && highlights_ordered(ts)
        && highlights_nonempty(ts);
    let mut engagement = EngagementWithHighlightRange::HasntStarted;
    let mut ret: Vec<HighlightRange> = Vec::new();
    let n = tree_sitter_highlights.len();
    let mut k: usize = 0;
    while k < n
        invariant
            n == ts.len(),
            ts == tree_sitter_highlights@,
            colors == tree_sitter_highlight_colors@,
            0 <= k <= n,
            forall|i: int| 0 <= i < n ==> #[trigger] ts[i].highlight_type_index < colors.len(),
            checked == (highlight_range matches Some(r) && r.start <= r.end && highlights_ordered(
                ts,
            )),
            highlight_range is None ==> ret@ == ts.subrange(0, k as int).map_values(
                |h: TreeSitterHighlight| spec_syntax_range(h, colors),
            ),
            engagement == EngagementWithHighlightRange::InProgress ==> k > 0,
            strict == (highlight_range matches Some(r) && r.start < r.end && highlights_ordered(ts)
                && highlights_nonempty(ts)),
            strict ==> pieces_between_boundaries(ret@, ts, highlight_range->0),
            checked ==> {
                let c = cut(ts, k as int);
                let hr = highlight_range->0;
                &&& ranges_ordered(ret@)
                &&& forall|i: int| 0 <= i < ret.len() ==> #[trigger] ret@[i].range.end <= c
                &&& forall|b: int| b < c ==> (ranges_cover(ret@, b) <==> (syntax_covers(ts, b) || marked(highlight_range, b)))
                &&& forall|i: int, b: int|
                    0 <= i < ret.len() && #[trigger] covers(ret@[i].range, b) ==> ret@[i].style
                        == style_at(ts, highlight_range, colors, b)
                &&& engagement_holds(c, hr, engagement)
            },
        decreases n - k,
    {
        let tree_sitter_highlight = &tree_sitter_highlights[k];
        match highlight_range {
            None => {
                ret.push(
                    tree_sitter_highlight_to_highlight_range(
                        tree_sitter_highlight,
                        tree_sitter_highlight_colors,
                    ),
                );
                proof {
                    assert(ts.subrange(0, k + 1) == ts.subrange(0, k as int).push(ts[k as int]));
                }
            },
            Some(hr) => {
                let prev_end = if k > 0 {
                    tree_sitter_highlights[k - 1].range.end
                } else {
                    0
                };
                let ghost lo = cut(ts, k as int);
                let ghost old_ret = ret@;
                let (pieces, next) = pieces_for_highlight(
                    tree_sitter_highlight,
                    hr,
                    engagement,
                    prev_end,
                    tree_sitter_highlight_colors,
                    Ghost(lo),
                );
                proof {
                    if checked {
                        lemma_cut(ts, k as int);
                    }
                }
                let ghost p = pieces@;
                proof {
                    if strict {
                        assert(ts[k as int].range.start < ts[k as int].range.end);
                        lemma_new_pieces_between_boundaries(
                            ts,
                            hr,
                            k as int,
                            p,
                            engagement == EngagementWithHighlightRange::InProgress,
                        );
                        lemma_between_boundaries_append(old_ret, p, ts, hr);
                    }
                }
                let mut pieces = pieces;
                ret.append(&mut pieces);
                engagement = next;
                proof {
                    if checked {
                        let h = ts[k as int];
                        let new_pieces = p;
                        assert(ret@ == old_ret + new_pieces);
                        assert(pieces_correct(new_pieces, lo, h, hr, colors, engagement));
                        let c2 = cut(ts, k + 1);
                        assert(c2 == h.range.end);
                        assert forall|i: int, j: int|
                            0 <= i < j < ret@.len() implies #[trigger] ret@[i].range.end
                            <= #[trigger] ret@[j].range.start by {
                            if j >= old_ret.len() && i < old_ret.len() {
                                assert(new_pieces[j - old_ret.len()] == ret@[j]);
                            } else if i >= old_ret.len() {
                                assert(new_pieces[i - old_ret.len()] == ret@[i]);
                                assert(new_pieces[j - old_ret.len()] == ret@[j]);
                            }
                        }
                        assert forall|i: int| 0 <= i < ret@.len() implies ret@[i].range.start
                            <= ret@[i].range.end by {
                            if i >= old_ret.len() {
                                assert(new_pieces[i - old_ret.len()] == ret@[i]);
                            }
                        }
                        assert forall|i: int| 0 <= i < ret.len() implies #[trigger] ret@[i].range.end
                            <= c2 by {
                            if i >= old_ret.len() {
                                assert(new_pieces[i - old_ret.len()] == ret@[i]);
                            }
                        }
                        assert forall|b: int| b < c2 implies (ranges_cover(ret@, b) <==> (
                        syntax_covers(ts, b) || marked(highlight_range, b))) by {
                            if b < lo {
                                if ranges_cover(ret@, b) {
                                    let i = choose|i: int|
                                        0 <= i < ret@.len() && #[trigger] covers(ret@[i].range, b);
                                    if i >= old_ret.len() {
                                        assert(new_pieces[i - old_ret.len()] == ret@[i]);
                                    }
                                    assert(covers(old_ret[i].range, b));
                                }
                                if ranges_cover(old_ret, b) {
                                    let i = choose|i: int|
                                        0 <= i < old_ret.len() && #[trigger] covers(old_ret[i].range, b);
                                    assert(covers(ret@[i].range, b));
                                }
                            } else {
                                lemma_only_kth_covers(ts, k as int, b);
                                if ranges_cover(ret@, b) {
                                    let i = choose|i: int|
                                        0 <= i < ret@.len() && #[trigger] covers(ret@[i].range, b);
                                    assert(i >= old_ret.len());
                                    assert(new_pieces[i - old_ret.len()] == ret@[i]);
                                    assert(covers(new_pieces[i - old_ret.len()].range, b));
                                }
                                if ranges_cover(new_pieces, b) {
                                    let i = choose|i: int|
                                        0 <= i < new_pieces.len() && #[trigger] covers(
                                            new_pieces[i].range,
                                            b,
                                        );
                                    assert(ret@[i + old_ret.len()] == new_pieces[i]);
                                    assert(covers(ret@[i + old_ret.len()].range, b));
                                }
                            }
                        }
                        assert forall|i: int, b: int|
                            0 <= i < ret.len() && #[trigger] covers(ret@[i].range, b) implies ret@[i].style
                            == style_at(ts, highlight_range, colors, b) by {
                            if i >= old_ret.len() {
                                assert(new_pieces[i - old_ret.len()] == ret@[i]);
                                assert(covers(new_pieces[i - old_ret.len()].range, b));
                                lemma_only_kth_covers(ts, k as int, b);
                            } else {
                                assert(old_ret[i] == ret@[i]);
                            }
                        }
                    }
                }
            },
        }
        k += 1;
    }
    match highlight_range {
        None => {
            proof {
                assert(ts.subrange(0, n as int) == ts);
            }
        },
        Some(hr) => {
            let ghost c = cut(ts, n as int);
            let ghost old_ret = ret@;
            match engagement {
                EngagementWithHighlightRange::HasntStarted => {
                    ret.push(highlight_range_to_highlight_range(hr));
                },
                EngagementWithHighlightRange::Done => {},
                EngagementWithHighlightRange::InProgress => {
                    ret.push(
                        HighlightRange {
                            range: Range {
                                start: tree_sitter_highlights[n - 1].range.end,
                                end: hr.end,
                            },
                            style: highlight_range_style(),
                        },
                    );
                },
            }
            proof {
                if strict {
                    lemma_cut(ts, n as int);
                    let added = ret@.subrange(old_ret.len() as int, ret@.len() as int);
                    assert(ret@ == old_ret + added);
                    assert forall|i: int| 0 <= i < added.len() implies {
                        &&& (#[trigger] added[i]).range.start < added[i].range.end
                        &&& is_boundary(ts, hr, added[i].range.start as int)
                        &&& is_boundary(ts, hr, added[i].range.end as int)
                        &&& unsplit(ts, hr, added[i].range)
                    } by {
                        let r = added[i].range;
                        if engagement == EngagementWithHighlightRange::InProgress {
                            assert(at_edge(ts[n - 1], r.start as int));
                        }
                        assert forall|j: int| 0 <= j < ts.len() implies !strictly_inside(
                            r,
                            (#[trigger] ts[j]).range.start as int,
                        ) && !strictly_inside(r, ts[j].range.end as int) by {
                            assert(ts[j].range.end <= c);
                        }
                    }
                    lemma_between_boundaries_append(old_ret, added, ts, hr);
                }
                if checked {
                    lemma_cut(ts, n as int);
                    assert forall|b: int| b >= c implies !syntax_covers(ts, b) by {
                        if syntax_covers(ts, b) {
                            let j = choose|j: int| 0 <= j < ts.len() && #[trigger] covers(ts[j].range, b);
                        }
                    }
                    assert forall|b: int| ranges_cover(ret@, b) <==> (syntax_covers(ts, b)
                        || marked(highlight_range, b)) by {
                        if b < c {
                            if ranges_cover(ret@, b) {
                                let i = choose|i: int|
                                    0 <= i < ret@.len() && #[trigger] covers(ret@[i].range, b);
                                if i < old_ret.len() {
                                    assert(covers(old_ret[i].range, b));
                                }
                            }
                            if ranges_cover(old_ret, b) {
                                let i = choose|i: int|
                                    0 <= i < old_ret.len() && #[trigger] covers(old_ret[i].range, b);
                                assert(covers(ret@[i].range, b));
                            }
                        } else {
                            if ranges_cover(ret@, b) {
                                let i = choose|i: int|
                                    0 <= i < ret@.len() && #[trigger] covers(ret@[i].range, b);
                                if i < old_ret.len() {
                                    assert(covers(old_ret[i].range, b));
                                }
                            }
                            if marked(highlight_range, b) {
                                assert(covers(ret@[ret@.len() - 1].range, b));
                            }
                        }
                    }
                    assert forall|i: int, b: int|
                        0 <= i < ret.len() && #[trigger] covers(ret@[i].range, b) implies ret@[i].style
                        == style_at(ts, highlight_range, colors, b) by {
                        if i < old_ret.len() {
                            assert(old_ret[i] == ret@[i]);
                        }
                    }
                }
            }
        },
    }
    ret
}

} // verus!
