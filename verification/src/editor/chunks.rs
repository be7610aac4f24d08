use vstd::prelude::*;

use ropey::Rope;
use smallvec::SmallVec;

use super::highlight::{covers, ranges_ordered};
use super::printed::PrintedLine;
use super::{HighlightRange, Style};
use crate::fold::{Fold, FoldIndex};
use crate::text::{
    chars_before_line, lemma_lines_of_flatten, rope_len_bytes, rope_len_lines, rope_line_chunk_texts,
    rope_line_chunks, rope_line_to_byte, rope_lines, rope_text,
};
use crate::text_util::lemma_utf8_concat;
use crate::LineNumber;

verus! {

/// A piece of one of the chunks a line is stored in, and how it is painted.
#[derive(Clone, Copy, Debug, PartialEq, Eq, Structural)]
pub struct LineChunk {
    pub chunk_index: usize,
    pub chunk_start_byte: usize,
    pub chunk_end_byte: usize,
    pub style: Option<Style>,
}

/// The pieces a line is painted in, in a `SmallVec`.
#[verifier::external_body]
pub struct LineChunks {
    inner: SmallVec<[LineChunk; 10]>,
}

/// The pieces held by a `LineChunks`, in order.
pub uninterp spec fn line_chunk_items(chunks: LineChunks) -> Seq<LineChunk>;

impl LineChunks {
    /// No pieces (`SmallVec::new`).
    #[verifier::external_body]
    pub(crate) fn new() -> (chunks: LineChunks)
        ensures
            line_chunk_items(chunks) == Seq::<LineChunk>::empty(),
    {
        LineChunks { inner: SmallVec::new() }
    }

    /// Appends a piece (`SmallVec::push`), which keeps the pieces and adds
    /// the new one last. `push` panics only when growing the capacity past
    /// what `usize` can count, which the bound on the length rules out.
    #[verifier::external_body]
    pub(crate) fn push(&mut self, chunk: LineChunk)
        requires
            line_chunk_items(*old(self)).len() < 0x4000_0000,
        ensures
            line_chunk_items(*final(self)) == line_chunk_items(*old(self)).push(chunk),
    {
        self.inner.push(chunk);
    }

    /// The number of pieces (`SmallVec::len`).
    #[verifier::external_body]
    pub(crate) fn len(&self) -> (len: usize)
        ensures
            len == line_chunk_items(*self).len(),
    {
        self.inner.len()
    }

    /// Piece `i`, read through the slice the `SmallVec` dereferences to.
    #[verifier::external_body]
    pub(crate) fn get(&self, i: usize) -> (chunk: LineChunk)
        requires
            i < line_chunk_items(*self).len(),
        ensures
            chunk == line_chunk_items(*self)[i as int],
    {
        self.inner[i]
    }
}

impl LineChunks {
    /// The pieces, in order, in a `Vec`.
    pub fn to_vec(&self) -> (pieces: Vec<LineChunk>)
        ensures
            pieces@ == line_chunk_items(*self),
    {
        let n = self.len();
        let mut pieces: Vec<LineChunk> = Vec::new();
        let mut i: usize = 0;
        while i < n
            invariant
                n == line_chunk_items(*self).len(),
                i <= n,
                pieces@ == line_chunk_items(*self).take(i as int),
            decreases n - i,
        {
            pieces.push(self.get(i));
            i += 1;
            proof {
                assert(pieces@ =~= line_chunk_items(*self).take(i as int));
            }
        }
        assert(line_chunk_items(*self).take(n as int) =~= line_chunk_items(*self));
        pieces
    }
}

/// The pieces a row of the file area is painted in.
pub enum PrintedLineChunks {
    Line(LineNumber, LineChunks),
    Fold(FoldIndex),
}

impl PrintedLineChunks {
    /// The first file line this row shows.
    pub fn start_line(&self, folds: &[Fold]) -> (line: LineNumber)
        requires
            self matches PrintedLineChunks::Fold(i) ==> i < folds@.len(),
        ensures
            line == match self {
                PrintedLineChunks::Line(l, _) => *l,
                PrintedLineChunks::Fold(i) => folds@[*i as int].range.start,
            },
    {
        match self {
            PrintedLineChunks::Line(line, _) => *line,
            PrintedLineChunks::Fold(fold_index) => folds[*fold_index].range.start,
        }
    }
}

// ---------------------------------------------------------------------------
// What the pieces mean
// ---------------------------------------------------------------------------

/// The bytes of a text in UTF-8.
pub open spec fn bytes_of(s: Seq<char>) -> Seq<u8> {
    vstd::utf8::encode_utf8(s)
}

/// The number of bytes of a chunk that are printed: all but a final `\n`.
pub open spec fn printable_len(c: Seq<char>) -> int {
    if c.len() > 0 && c.last() == '\n' {
        bytes_of(c).len() - 1
    } else {
        bytes_of(c).len() as int
    }
}

/// The byte offset of chunk `k` within its line.
pub open spec fn chunk_offset(cs: Seq<Seq<char>>, k: int) -> int {
    bytes_of(cs.take(k).flatten()).len() as int
}

/// The byte offset in the text at which line `l` of the rope starts.
pub open spec fn line_start_byte(rope: Rope, l: int) -> int {
    bytes_of(chars_before_line(rope_lines(rope), l)).len() as int
}

/// The style of the highlight range covering byte `b`, if any.
pub open spec fn highlight_style_at(rs: Seq<HighlightRange>, b: int) -> Option<Style> {
    if exists|i: int| 0 <= i < rs.len() && #[trigger] covers(rs[i].range, b) {
        Some(rs[choose|i: int| 0 <= i < rs.len() && #[trigger] covers(rs[i].range, b)].style)
    } else {
        None
    }
}

/// Piece `p` holds byte `b` of chunk `k`.
pub open spec fn piece_has(p: LineChunk, k: int, b: int) -> bool {
    p.chunk_index == k && p.chunk_start_byte <= b < p.chunk_end_byte
}

/// Some piece holds byte `b` of chunk `c`.
pub open spec fn painted(pieces: Seq<LineChunk>, c: int, b: int) -> bool {
    exists|i: int| 0 <= i < pieces.len() && #[trigger] piece_has(pieces[i], c, b)
}

/// The pieces of a line stored in chunks `cs` at byte offset `start` paint
/// chunks `[0, k)` in full and the first `bp` bytes of chunk `k`: each piece
/// lies within the printed bytes of its chunk; the pieces come in order;
/// every such byte is in some piece; and each piece has the style of the
/// highlight range covering each of its bytes (none where none covers it).
pub open spec fn pieces_paint(
    pieces: Seq<LineChunk>,
    cs: Seq<Seq<char>>,
    start: int,
    rs: Seq<HighlightRange>,
    k: int,
    bp: int,
) -> bool {
    &&& forall|i: int|
        0 <= i < pieces.len() ==> {
            let p = #[trigger] pieces[i];
            ||| (p.chunk_index < k && p.chunk_start_byte <= p.chunk_end_byte <= printable_len(cs[p.chunk_index as int]))
            ||| (p.chunk_index == k && p.chunk_start_byte <= p.chunk_end_byte <= bp)
        }
    &&& forall|i: int, j: int|
        0 <= i < j < pieces.len() ==> (#[trigger] pieces[i]).chunk_index < (#[trigger] pieces[j]).chunk_index || (
        pieces[i].chunk_index == pieces[j].chunk_index && pieces[i].chunk_end_byte <= pieces[j].chunk_start_byte)
    &&& forall|c: int, b: int| 0 <= c < k && 0 <= b < printable_len(cs[c]) ==> #[trigger] painted(pieces, c, b)
    &&& forall|b: int| 0 <= b < bp ==> #[trigger] painted(pieces, k, b)
    &&& forall|i: int, b: int|
        0 <= i < pieces.len() && #[trigger] piece_has(pieces[i], pieces[i].chunk_index as int, b) ==> style_right(
            pieces[i],
            cs,
            start,
            rs,
            b,
        )
}

/// Byte `b` of piece `p` has the style of the highlight range covering it.
pub open spec fn style_right(p: LineChunk, cs: Seq<Seq<char>>, start: int, rs: Seq<HighlightRange>, b: int) -> bool {
    p.style == highlight_style_at(rs, start + chunk_offset(cs, p.chunk_index as int) + b)
}

/// Some highlight range starts at byte `x`.
pub open spec fn range_starts_at(rs: Seq<HighlightRange>, x: int) -> bool {
    exists|j: int| 0 <= j < rs.len() && (#[trigger] rs[j]).range.start == x
}

/// Some highlight range ends at byte `x`.
pub open spec fn range_ends_at(rs: Seq<HighlightRange>, x: int) -> bool {
    exists|j: int| 0 <= j < rs.len() && (#[trigger] rs[j]).range.end == x
}

/// The byte in the text at which piece `p` starts.
pub open spec fn piece_start(p: LineChunk, cs: Seq<Seq<char>>, start: int) -> int {
    start + chunk_offset(cs, p.chunk_index as int) + p.chunk_start_byte
}

/// A piece holds some bytes, or it is empty only where painting meets a
/// highlight range: an unstyled one where a range starts at the start of its
/// chunk or right where another range ends; a styled one where its range
/// ends at the start of its chunk or is itself empty; or it is the whole of
/// a chunk with nothing to print.
pub open spec fn piece_nonempty_or_at_edge(p: LineChunk, cs: Seq<Seq<char>>, start: int, rs: Seq<HighlightRange>) -> bool {
    let q = piece_start(p, cs, start);
    ||| p.chunk_start_byte < p.chunk_end_byte
    ||| (p.style is None && range_starts_at(rs, q) && (p.chunk_start_byte == 0 || range_ends_at(rs, q)))
    ||| (p.style is Some && range_ends_at(rs, q) && (p.chunk_start_byte == 0 || range_starts_at(rs, q)))
    ||| (p.chunk_start_byte == 0 && p.chunk_end_byte == 0 && printable_len(cs[p.chunk_index as int]) == 0)
}

/// No highlight range starts or ends strictly inside piece `p`.
pub open spec fn no_edge_inside(p: LineChunk, cs: Seq<Seq<char>>, start: int, rs: Seq<HighlightRange>) -> bool {
    let q = piece_start(p, cs, start);
    let e = q + p.chunk_end_byte - p.chunk_start_byte;
    forall|j: int|
        0 <= j < rs.len() ==> !(q < (#[trigger] rs[j]).range.start < e) && !(q < rs[j].range.end < e)
}

/// Where the pieces are cut: the first piece of each chunk starts at its
/// start, each next piece of the same chunk starts where the one before
/// ends, and that is where a highlight range starts or ends; no range starts
/// or ends strictly inside a piece; an empty piece only stands where
/// `piece_nonempty_or_at_edge` says.
pub open spec fn pieces_cut(pieces: Seq<LineChunk>, cs: Seq<Seq<char>>, start: int, rs: Seq<HighlightRange>) -> bool {
    &&& forall|i: int| 0 <= i < pieces.len() ==> piece_nonempty_or_at_edge(#[trigger] pieces[i], cs, start, rs)
    &&& forall|i: int| 0 <= i < pieces.len() ==> no_edge_inside(#[trigger] pieces[i], cs, start, rs)
    &&& pieces.len() > 0 ==> pieces[0].chunk_start_byte == 0
    &&& forall|i: int, j: int|
        0 <= i && j == i + 1 && j < pieces.len() ==> {
            ||| (#[trigger] pieces[i]).chunk_index != (#[trigger] pieces[j]).chunk_index
                && pieces[j].chunk_start_byte == 0
            ||| pieces[i].chunk_index == pieces[j].chunk_index && pieces[j].chunk_start_byte
                == pieces[i].chunk_end_byte && (range_starts_at(rs, piece_start(pieces[j], cs, start))
                || range_ends_at(rs, piece_start(pieces[j], cs, start)))
        }
}

/// The pieces paint a whole line stored in chunks `cs` (see `pieces_paint`),
/// cut as `pieces_cut` says.
pub open spec fn line_painted(pieces: Seq<LineChunk>, cs: Seq<Seq<char>>, start: int, rs: Seq<HighlightRange>) -> bool {
    &&& pieces_paint(pieces, cs, start, rs, cs.len() as int, 0)
    &&& pieces_cut(pieces, cs, start, rs)
}

/// Adding a piece keeps the cuts where they should be.
proof fn lemma_add_piece_cut(
    pieces: Seq<LineChunk>,
    cs: Seq<Seq<char>>,
    start: int,
    rs: Seq<HighlightRange>,
    piece: LineChunk,
)
    requires
        pieces_cut(pieces, cs, start, rs),
        piece_nonempty_or_at_edge(piece, cs, start, rs),
        no_edge_inside(piece, cs, start, rs),
        pieces.len() == 0 || pieces.last().chunk_index != piece.chunk_index ==> piece.chunk_start_byte == 0,
        pieces.len() > 0 && pieces.last().chunk_index == piece.chunk_index ==> piece.chunk_start_byte
            == pieces.last().chunk_end_byte && (range_starts_at(rs, piece_start(piece, cs, start)) || range_ends_at(
            rs,
            piece_start(piece, cs, start),
        )),
    ensures
        pieces_cut(pieces.push(piece), cs, start, rs),
{
    let ps = pieces.push(piece);
    let n = pieces.len() as int;
    assert forall|i: int| 0 <= i < ps.len() implies piece_nonempty_or_at_edge(#[trigger] ps[i], cs, start, rs) by {
        if i < n {
            assert(ps[i] == pieces[i]);
        }
    }
    assert forall|i: int| 0 <= i < ps.len() implies no_edge_inside(#[trigger] ps[i], cs, start, rs) by {
        if i < n {
            assert(ps[i] == pieces[i]);
        }
    }
    assert forall|i: int, j: int| 0 <= i && j == i + 1 && j < ps.len() implies {
        ||| (#[trigger] ps[i]).chunk_index != (#[trigger] ps[j]).chunk_index && ps[j].chunk_start_byte == 0
        ||| ps[i].chunk_index == ps[j].chunk_index && ps[j].chunk_start_byte == ps[i].chunk_end_byte && (
        range_starts_at(rs, piece_start(ps[j], cs, start)) || range_ends_at(rs, piece_start(ps[j], cs, start)))
    } by {
        assert(ps[i] == pieces[i]);
        if j < n {
            assert(ps[j] == pieces[j]);
            assert(pieces_cut(pieces, cs, start, rs));
            assert(0 <= i && j == i + 1 && j < pieces.len());
        } else {
            assert(pieces.last() == pieces[i]);
        }
    }
    if n > 0 {
        assert(ps[0] == pieces[0]);
    }
}

// ---------------------------------------------------------------------------
// Where the rows jump
// ---------------------------------------------------------------------------

/// The byte at which the last line row before row `i` ends (the start of the
/// line after it), or zero where no line row comes before.
pub open spec fn previous_line_end(rope: Rope, rows: Seq<PrintedLine>, i: int) -> int
    decreases i,
{
    if i <= 0 {
        0
    } else {
        match rows[i - 1] {
            PrintedLine::Line(l) => line_start_byte(rope, l + 1),
            PrintedLine::Fold(_) => previous_line_end(rope, rows, i - 1),
        }
    }
}

/// Going on from byte `e` to byte `s` (no earlier) crosses no highlight range
/// boundary it cannot follow: no range that is still open at `e` ends before
/// `s`, and no range starting in `[e, s)` runs past `s`.
pub open spec fn jump_safe(rs: Seq<HighlightRange>, e: int, s: int) -> bool {
    &&& e <= s
    &&& forall|j: int|
        0 <= j < rs.len() ==> !((#[trigger] rs[j]).range.start < e <= rs[j].range.end < s) && !(e
            <= rs[j].range.start < s < rs[j].range.end)
}

/// The rows can be painted: each line row is in the file, has fewer than
/// `0x0800_0000` chunks, and is reached from the line row before it (or from
/// the start of the text) by a safe jump.
pub open spec fn rows_paintable(rope: Rope, rows: Seq<PrintedLine>, rs: Seq<HighlightRange>) -> bool {
    forall|i: int|
        0 <= i < rows.len() ==> match #[trigger] rows[i] {
            PrintedLine::Line(l) => {
                &&& l < rope_lines(rope).len()
                &&& rope_line_chunk_texts(rope, l as int).len() < 0x0800_0000
                &&& jump_safe(rs, previous_line_end(rope, rows, i), line_start_byte(rope, l as int))
            },
            PrintedLine::Fold(_) => true,
        }
}

// ---------------------------------------------------------------------------
// Facts about byte offsets
// ---------------------------------------------------------------------------

proof fn lemma_flatten_bytes_push(cs: Seq<Seq<char>>, c: Seq<char>)
    ensures
        bytes_of(cs.push(c).flatten()).len() == bytes_of(cs.flatten()).len() + bytes_of(c).len(),
{
    cs.lemma_flatten_push(c);
    lemma_utf8_concat(cs.flatten(), c);
}

proof fn lemma_chunk_offset_step(cs: Seq<Seq<char>>, k: int)
    requires
        0 <= k < cs.len(),
    ensures
        chunk_offset(cs, k + 1) == chunk_offset(cs, k) + bytes_of(cs[k]).len(),
{
    assert(cs.take(k + 1) =~= cs.take(k).push(cs[k]));
    lemma_flatten_bytes_push(cs.take(k), cs[k]);
}

proof fn lemma_chunk_offset_le(cs: Seq<Seq<char>>, k: int, m: int)
    requires
        0 <= k <= m <= cs.len(),
    ensures
        chunk_offset(cs, k) <= chunk_offset(cs, m),
    decreases m - k,
{
    if k < m {
        lemma_chunk_offset_step(cs, k);
        lemma_chunk_offset_le(cs, k + 1, m);
    }
}

proof fn lemma_line_start_step(rope: Rope, l: int)
    requires
        0 <= l < rope_lines(rope).len(),
    ensures
        line_start_byte(rope, l + 1) == line_start_byte(rope, l) + bytes_of(rope_lines(rope)[l]).len(),
{
    let lines = rope_lines(rope);
    assert(lines.take(l + 1) =~= lines.take(l).push(lines[l]));
    lemma_flatten_bytes_push(lines.take(l), lines[l]);
}

proof fn lemma_line_start_le_text(rope: Rope, l: int)
    requires
        0 <= l <= rope_lines(rope).len(),
    ensures
        line_start_byte(rope, l) <= bytes_of(rope_text(rope)).len(),
{
    let lines = rope_lines(rope);
    assert(lines == lines.take(l) + lines.skip(l));
    vstd::seq_lib::lemma_flatten_concat(lines.take(l), lines.skip(l));
    lemma_lines_of_flatten(rope_text(rope));
    lemma_utf8_concat(lines.take(l).flatten(), lines.skip(l).flatten());
}

proof fn lemma_printable_len(c: Seq<char>)
    ensures
        0 <= printable_len(c) <= bytes_of(c).len(),
{
    if c.len() > 0 && c.last() == '\n' {
        assert(c == c.drop_last() + seq!['\n']);
        lemma_utf8_concat(c.drop_last(), seq!['\n']);
        assert(bytes_of(seq!['\n']).len() == 1) by {
            let nl = seq!['\n'];
            assert(nl.drop_first() =~= Seq::<char>::empty());
            assert(nl[0] as u32 == 10u32);
            assert(vstd::utf8::has_width_1_encoding(10u32));
            assert(vstd::utf8::encode_scalar(10u32).len() == 1);
            assert(bytes_of(nl) == vstd::utf8::encode_scalar(nl[0] as u32) + bytes_of(nl.drop_first()));
        }
    }
}

proof fn lemma_style_covered(rs: Seq<HighlightRange>, o: int, b: int)
    requires
        ranges_ordered(rs),
        0 <= o < rs.len(),
        covers(rs[o].range, b),
    ensures
        highlight_style_at(rs, b) == Some(rs[o].style),
{
    let i = choose|i: int| 0 <= i < rs.len() && #[trigger] covers(rs[i].range, b);
    if i < o {
        assert(rs[i].range.end <= rs[o].range.start);
    } else if i > o {
        assert(rs[o].range.end <= rs[i].range.start);
    }
}

// ---------------------------------------------------------------------------
// Painting
// ---------------------------------------------------------------------------

/// Where painting is among the highlight ranges: inside range `i`, or
/// before range `i` (all earlier ones done).
#[derive(Clone, Copy, PartialEq, Eq, Structural)]
enum OpenHighlightOrProgress {
    OpenHighlight(usize),
    Next(usize),
}

/// The painting state fits position `pos` in a chunk starting at byte `p`:
/// an open range has started by `pos` and not ended before it; otherwise
/// the ranges before `i` end by `pos`, and later ones that start before
/// `pos` end by `p` (to be skipped).
spec fn state_fits(rs: Seq<HighlightRange>, st: OpenHighlightOrProgress, pos: int, p: int) -> bool {
    match st {
        OpenHighlightOrProgress::OpenHighlight(o) => {
            &&& o < rs.len()
            &&& rs[o as int].range.start <= pos <= rs[o as int].range.end
        },
        OpenHighlightOrProgress::Next(k) => {
            &&& k <= rs.len()
            &&& forall|j: int| 0 <= j < k ==> (#[trigger] rs[j]).range.end <= pos
            &&& forall|j: int| k <= j < rs.len() && (#[trigger] rs[j]).range.start < pos ==> rs[j].range.end <= p
        },
    }
}

/// The painting state at a chunk or line boundary at byte `q`.
spec fn state_at_boundary(rs: Seq<HighlightRange>, st: OpenHighlightOrProgress, q: int) -> bool {
    &&& state_fits(rs, st, q, q)
    &&& (st matches OpenHighlightOrProgress::OpenHighlight(o) ==> rs[o as int].range.start < q)
}

/// A jump that `jump_safe` allows keeps the painting state valid.
proof fn lemma_jump(rs: Seq<HighlightRange>, st: OpenHighlightOrProgress, e: int, s: int)
    requires
        ranges_ordered(rs),
        state_at_boundary(rs, st, e),
        jump_safe(rs, e, s),
    ensures
        state_at_boundary(rs, st, s),
{
    match st {
        OpenHighlightOrProgress::OpenHighlight(o) => {
            assert(!(rs[o as int].range.start < e <= rs[o as int].range.end < s));
        },
        OpenHighlightOrProgress::Next(k) => {
            assert forall|j: int| k <= j < rs.len() && (#[trigger] rs[j]).range.start < s implies rs[j].range.end
                <= s by {
                assert(!(e <= rs[j].range.start < s < rs[j].range.end));
            }
        },
    }
}

/// Adding a piece right after the painted bytes of chunk `k`, with the style
/// of each of its bytes, keeps the pieces painting.
proof fn lemma_add_piece(
    pieces: Seq<LineChunk>,
    cs: Seq<Seq<char>>,
    start: int,
    rs: Seq<HighlightRange>,
    k: int,
    bp: int,
    piece: LineChunk,
)
    requires
        pieces_paint(pieces, cs, start, rs, k, bp),
        0 <= k < cs.len(),
        piece.chunk_index == k,
        piece.chunk_start_byte == bp,
        bp <= piece.chunk_end_byte <= printable_len(cs[k]),
        forall|b: int|
            piece.chunk_start_byte <= b < piece.chunk_end_byte ==> #[trigger] style_right(piece, cs, start, rs, b),
    ensures
        pieces_paint(pieces.push(piece), cs, start, rs, k, piece.chunk_end_byte as int),
{
    let ps = pieces.push(piece);
    let n = pieces.len() as int;
    assert forall|i: int| 0 <= i < ps.len() implies {
        let p = #[trigger] ps[i];
        ||| (p.chunk_index < k && p.chunk_start_byte <= p.chunk_end_byte <= printable_len(cs[p.chunk_index as int]))
        ||| (p.chunk_index == k && p.chunk_start_byte <= p.chunk_end_byte <= piece.chunk_end_byte)
    } by {
        if i < n {
            assert(ps[i] == pieces[i]);
        }
    }
    assert forall|i: int, j: int|
        0 <= i < j < ps.len() implies (#[trigger] ps[i]).chunk_index < (#[trigger] ps[j]).chunk_index || (
        ps[i].chunk_index == ps[j].chunk_index && ps[i].chunk_end_byte <= ps[j].chunk_start_byte) by {
        assert(ps[i] == pieces[i]);
        if j < n {
            assert(ps[j] == pieces[j]);
        }
    }
    assert forall|c: int, b: int| 0 <= c < k && 0 <= b < printable_len(cs[c]) implies #[trigger] painted(
        ps,
        c,
        b,
    ) by {
        assert(painted(pieces, c, b));
        let i = choose|i: int| 0 <= i < pieces.len() && #[trigger] piece_has(pieces[i], c, b);
        assert(ps[i] == pieces[i]);
        assert(piece_has(ps[i], c, b));
    }
    assert forall|b: int| 0 <= b < piece.chunk_end_byte implies #[trigger] painted(ps, k, b) by {
        if b < bp {
            assert(painted(pieces, k, b));
            let i = choose|i: int| 0 <= i < pieces.len() && #[trigger] piece_has(pieces[i], k, b);
            assert(ps[i] == pieces[i]);
            assert(piece_has(ps[i], k, b));
        } else {
            assert(piece_has(ps[n], k, b));
        }
    }
    assert forall|i: int, b: int|
        0 <= i < ps.len() && #[trigger] piece_has(ps[i], ps[i].chunk_index as int, b) implies style_right(
            ps[i],
            cs,
            start,
            rs,
            b,
        ) by {
        if i < n {
            assert(ps[i] == pieces[i]);
        }
    }
}

/// Chunk `k` painted in full: painting goes on at the start of the next.
proof fn lemma_finish_chunk(pieces: Seq<LineChunk>, cs: Seq<Seq<char>>, start: int, rs: Seq<HighlightRange>, k: int)
    requires
        pieces_paint(pieces, cs, start, rs, k, printable_len(cs[k])),
        0 <= k < cs.len(),
    ensures
        pieces_paint(pieces, cs, start, rs, k + 1, 0),
{
    assert forall|c: int, b: int| 0 <= c < k + 1 && 0 <= b < printable_len(cs[c]) implies #[trigger] painted(
        pieces,
        c,
        b,
    ) by {
        if c == k {
            assert(0 <= b < printable_len(cs[k]));
        }
    }
}

/// Whether painting stops in a chunk ending at byte `next_start_byte`:
/// before a range that starts at or after it (or after the last range), or
/// inside a range that reaches it.
fn painting_stops(
    highlight_ranges: &Vec<HighlightRange>,
    state: OpenHighlightOrProgress,
    next_start_byte: usize,
) -> (stops: bool)
    requires
        match state {
            OpenHighlightOrProgress::OpenHighlight(o) => o < highlight_ranges@.len(),
            OpenHighlightOrProgress::Next(k) => k <= highlight_ranges@.len(),
        },
    ensures
        stops == match state {
            OpenHighlightOrProgress::Next(k) => k >= highlight_ranges@.len()
                || highlight_ranges@[k as int].range.start >= next_start_byte,
            OpenHighlightOrProgress::OpenHighlight(o) => highlight_ranges@[o as int].range.end
                >= next_start_byte,
        },
{
    match state {
        OpenHighlightOrProgress::Next(k) => k >= highlight_ranges.len() || highlight_ranges[k].range.start
            >= next_start_byte,
        OpenHighlightOrProgress::OpenHighlight(o) => highlight_ranges[o].range.end >= next_start_byte,
    }
}

/// The style of the bytes painting has reached: that of the open range, if
/// any.
fn open_style(highlight_ranges: &Vec<HighlightRange>, state: OpenHighlightOrProgress) -> (style: Option<Style>)
    requires
        state matches OpenHighlightOrProgress::OpenHighlight(o) ==> o < highlight_ranges@.len(),
    ensures
        style == match state {
            OpenHighlightOrProgress::OpenHighlight(o) => Some(highlight_ranges@[o as int].style),
            OpenHighlightOrProgress::Next(_) => None,
        },
{
    match state {
        OpenHighlightOrProgress::OpenHighlight(o) => Some(highlight_ranges[o].style),
        OpenHighlightOrProgress::Next(_) => None,
    }
}

/// Inside one highlight range no range starts or ends.
proof fn lemma_no_edge_in_range(rs: Seq<HighlightRange>, o: int, q: int, e: int)
    requires
        ranges_ordered(rs),
        0 <= o < rs.len(),
        rs[o].range.start <= q,
        e <= rs[o].range.end,
    ensures
        forall|j: int| 0 <= j < rs.len() ==> !(q < (#[trigger] rs[j]).range.start < e) && !(q < rs[j].range.end < e),
{
    assert forall|j: int| 0 <= j < rs.len() implies !(q < (#[trigger] rs[j]).range.start < e) && !(q
        < rs[j].range.end < e) by {
        if j < o {
            assert(rs[j].range.end <= rs[o].range.start);
        } else if j > o {
            assert(rs[o].range.end <= rs[j].range.start);
        }
    }
}

/// Between the ranges before `k`, all ended by `q`, and range `k`, starting
/// at `e` or later, no range starts or ends (later ones that start before
/// `q` end by `c <= q`).
proof fn lemma_no_edge_in_gap(rs: Seq<HighlightRange>, k: int, q: int, e: int, c: int)
    requires
        ranges_ordered(rs),
        0 <= k <= rs.len(),
        c <= q,
        forall|j: int| 0 <= j < k ==> (#[trigger] rs[j]).range.end <= q,
        forall|j: int| k <= j < rs.len() && (#[trigger] rs[j]).range.start < q ==> rs[j].range.end <= c,
        k < rs.len() ==> e <= rs[k].range.start,
    ensures
        forall|j: int| 0 <= j < rs.len() ==> !(q < (#[trigger] rs[j]).range.start < e) && !(q < rs[j].range.end < e),
{
    assert forall|j: int| 0 <= j < rs.len() implies !(q < (#[trigger] rs[j]).range.start < e) && !(q
        < rs[j].range.end < e) by {
        if j > k {
            assert(rs[k].range.end <= rs[j].range.start);
        }
    }
}

/// The last piece is one of chunk `k`.
spec fn last_in_chunk(pieces: Seq<LineChunk>, k: int) -> bool {
    pieces.len() > 0 && pieces.last().chunk_index == k
}

/// Paints one chunk (text `chunk`, index `chunk_index`, starting at byte
/// `current_start_byte`), appending its pieces; gives the state after it.
#[verifier::rlimit(60)]
fn paint_chunk(
    chunk: &str,
    chunk_index: usize,
    current_start_byte: usize,
    highlight_ranges: &Vec<HighlightRange>,
    state: OpenHighlightOrProgress,
    pieces: &mut LineChunks,
    Ghost(cs): Ghost<Seq<Seq<char>>>,
    Ghost(start): Ghost<int>,
) -> (next: OpenHighlightOrProgress)
    requires
        ranges_ordered(highlight_ranges@),
        highlight_ranges@.len() < 0x0800_0000,
        0 <= chunk_index < cs.len(),
        cs.len() < 0x0800_0000,
        cs[chunk_index as int] == chunk@,
        current_start_byte == start + chunk_offset(cs, chunk_index as int),
        current_start_byte + bytes_of(chunk@).len() <= usize::MAX,
        state_at_boundary(highlight_ranges@, state, current_start_byte as int),
        pieces_paint(line_chunk_items(*old(pieces)), cs, start, highlight_ranges@, chunk_index as int, 0),
        pieces_cut(line_chunk_items(*old(pieces)), cs, start, highlight_ranges@),
        forall|i: int|
            0 <= i < line_chunk_items(*old(pieces)).len() ==> (#[trigger] line_chunk_items(*old(pieces))[i]).chunk_index
                < chunk_index,
        line_chunk_items(*old(pieces)).len() + measure(state, highlight_ranges@.len() as int) <= 2
            * chunk_index + 2 * highlight_ranges@.len() + 2,
    ensures
        pieces_paint(line_chunk_items(*final(pieces)), cs, start, highlight_ranges@, chunk_index + 1, 0),
        pieces_cut(line_chunk_items(*final(pieces)), cs, start, highlight_ranges@),
        forall|i: int|
            0 <= i < line_chunk_items(*final(pieces)).len() ==> (#[trigger] line_chunk_items(
                *final(pieces),
            )[i]).chunk_index <= chunk_index,
        state_at_boundary(highlight_ranges@, next, current_start_byte + bytes_of(chunk@).len()),
        line_chunk_items(*final(pieces)).len() + measure(next, highlight_ranges@.len() as int) <= 2 * (
        chunk_index + 1) + 2 * highlight_ranges@.len() + 2,
{
    let ghost rs = highlight_ranges@;
    let ghost r = rs.len() as int;
    let ghost k = chunk_index as int;
    let bytes_len = chunk.as_bytes().len();
    let n_chars = chunk.unicode_len();
    let ends_with_newline = n_chars > 0 && chunk.get_char(n_chars - 1) == '\n';
    proof {
        lemma_printable_len(chunk@);
        lemma_chunk_offset_step(cs, k);
    }
    let printable: usize = if ends_with_newline {
        bytes_len - 1
    } else {
        bytes_len
    };
    assert(printable == printable_len(cs[k]));
    let next_start_byte = current_start_byte + bytes_len;
    let mut last_highlight = state;
    let mut bytes_printed: usize = 0;
    if let OpenHighlightOrProgress::OpenHighlight(index_in_highlights) = last_highlight {
        let open_highlight = &highlight_ranges[index_in_highlights];
        if open_highlight.range.end < next_start_byte {
            let num_bytes_to_print = open_highlight.range.end - current_start_byte;
            let piece = LineChunk {
                chunk_index,
                chunk_start_byte: 0,
                chunk_end_byte: num_bytes_to_print,
                style: Some(open_highlight.style),
            };
            proof {
                assert forall|b: int| 0 <= b < num_bytes_to_print implies style_right(piece, cs, start, rs, b) by {
                    lemma_style_covered(rs, index_in_highlights as int, current_start_byte + b);
                }
                lemma_add_piece(line_chunk_items(*pieces), cs, start, rs, k, 0, piece);
                let ghost o = index_in_highlights as int;
                assert(rs[o].range.end == current_start_byte + num_bytes_to_print);
                assert(range_ends_at(rs, current_start_byte + num_bytes_to_print));
                if num_bytes_to_print == 0 {
                    assert(range_ends_at(rs, piece_start(piece, cs, start)));
                }
                lemma_no_edge_in_range(rs, o, current_start_byte as int, current_start_byte + num_bytes_to_print);
                let items = line_chunk_items(*pieces);
                if items.len() > 0 {
                    assert(items[items.len() - 1] == items.last());
                }
                lemma_add_piece_cut(items, cs, start, rs, piece);
            }
            pieces.push(piece);
            bytes_printed = bytes_printed + num_bytes_to_print;
            last_highlight = OpenHighlightOrProgress::Next(index_in_highlights + 1);
        } else {
            let piece = LineChunk {
                chunk_index,
                chunk_start_byte: 0,
                chunk_end_byte: printable,
                style: Some(open_highlight.style),
            };
            proof {
                assert forall|b: int| 0 <= b < printable implies style_right(piece, cs, start, rs, b) by {
                    lemma_style_covered(rs, index_in_highlights as int, current_start_byte + b);
                }
                lemma_add_piece(line_chunk_items(*pieces), cs, start, rs, k, 0, piece);
                lemma_no_edge_in_range(rs, index_in_highlights as int, current_start_byte as int, current_start_byte + printable);
                let items = line_chunk_items(*pieces);
                if items.len() > 0 {
                    assert(items[items.len() - 1] == items.last());
                }
                lemma_add_piece_cut(items, cs, start, rs, piece);
            }
            pieces.push(piece);
            proof {
                lemma_finish_chunk(line_chunk_items(*pieces), cs, start, rs, k);
                let items = line_chunk_items(*pieces);
                assert forall|i: int| 0 <= i < items.len() implies (#[trigger] items[i]).chunk_index <= k by {
                    if i < items.len() - 1 {
                        assert(items[i] == line_chunk_items(*old(pieces))[i]);
                    }
                }
            }
            return last_highlight;
        }
    }
    while !painting_stops(highlight_ranges, last_highlight, next_start_byte)
        invariant
            rs == highlight_ranges@,
            r == rs.len(),
            ranges_ordered(rs),
            r < 0x0800_0000,
            0 <= k < cs.len(),
            cs.len() < 0x0800_0000,
            k == chunk_index,
            cs[k] == chunk@,
            current_start_byte == start + chunk_offset(cs, k),
            next_start_byte == current_start_byte + bytes_len,
            bytes_len == bytes_of(chunk@).len(),
            printable == printable_len(cs[k]),
            printable <= bytes_len,
            ends_with_newline ==> printable + 1 == bytes_len,
            !ends_with_newline ==> printable == bytes_len,
            bytes_printed <= printable,
            state_fits(rs, last_highlight, current_start_byte + bytes_printed, current_start_byte as int),
            last_highlight matches OpenHighlightOrProgress::OpenHighlight(o) ==> rs[o as int].range.start
                < next_start_byte,
            pieces_paint(line_chunk_items(*pieces), cs, start, rs, k, bytes_printed as int),
            line_chunk_items(*pieces).len() + measure(last_highlight, r) <= 2 * k + 2 * r + 2,
            pieces_cut(line_chunk_items(*pieces), cs, start, rs),
            forall|i: int|
                0 <= i < line_chunk_items(*pieces).len() ==> (#[trigger] line_chunk_items(*pieces)[i]).chunk_index <= k,
            last_in_chunk(line_chunk_items(*pieces), k) ==> line_chunk_items(*pieces).last().chunk_end_byte
                == bytes_printed && (range_starts_at(rs, current_start_byte + bytes_printed) || range_ends_at(
                rs,
                current_start_byte + bytes_printed,
            )),
            !last_in_chunk(line_chunk_items(*pieces), k) ==> bytes_printed == 0,
            last_highlight matches OpenHighlightOrProgress::OpenHighlight(o) ==> rs[o as int].range.start
                == current_start_byte + bytes_printed,
            (last_highlight is Next && last_in_chunk(line_chunk_items(*pieces), k)) ==> range_ends_at(
                rs,
                current_start_byte + bytes_printed,
            ),
        decreases measure(last_highlight, r),
    {
        let pos = current_start_byte + bytes_printed;
        match last_highlight {
            OpenHighlightOrProgress::OpenHighlight(last_highlight_open) => {
                let open_highlight = &highlight_ranges[last_highlight_open];
                let num_bytes_to_print = open_highlight.range.end - pos;
                let piece = LineChunk {
                    chunk_index,
                    chunk_start_byte: bytes_printed,
                    chunk_end_byte: bytes_printed + num_bytes_to_print,
                    style: Some(open_highlight.style),
                };
                proof {
                    assert forall|b: int|
                        bytes_printed <= b < bytes_printed + num_bytes_to_print implies style_right(piece, cs, start, rs, b) by {
                        lemma_style_covered(rs, last_highlight_open as int, current_start_byte + b);
                    }
                    lemma_add_piece(line_chunk_items(*pieces), cs, start, rs, k, bytes_printed as int, piece);
                    let ghost o = last_highlight_open as int;
                    assert(rs[o].range.start == current_start_byte + bytes_printed);
                    assert(range_starts_at(rs, current_start_byte + bytes_printed));
                    assert(rs[o].range.end == current_start_byte + bytes_printed + num_bytes_to_print);
                    assert(range_ends_at(rs, current_start_byte + bytes_printed + num_bytes_to_print));
                    lemma_no_edge_in_range(
                        rs,
                        o,
                        current_start_byte + bytes_printed,
                        current_start_byte + bytes_printed + num_bytes_to_print,
                    );
                    let items = line_chunk_items(*pieces);
                    if items.len() > 0 {
                        assert(items[items.len() - 1] == items.last());
                    }
                    lemma_add_piece_cut(items, cs, start, rs, piece);
                }
                pieces.push(piece);
                bytes_printed = bytes_printed + num_bytes_to_print;
                last_highlight = OpenHighlightOrProgress::Next(last_highlight_open + 1);
                proof {
                    let o = last_highlight_open as int;
                    assert forall|j: int| 0 <= j < o + 1 implies (#[trigger] rs[j]).range.end
                        <= current_start_byte + bytes_printed by {
                        if j < o {
                            assert(rs[j].range.end <= rs[o].range.start);
                        }
                    }
                    assert forall|j: int|
                        o + 1 <= j < r && (#[trigger] rs[j]).range.start < current_start_byte
                            + bytes_printed implies rs[j].range.end <= current_start_byte by {
                        assert(rs[o].range.end <= rs[j].range.start);
                    }
                }
            },
            OpenHighlightOrProgress::Next(last_highlight_next) => {
                let next_highlight = &highlight_ranges[last_highlight_next];
                if next_highlight.range.end <= current_start_byte {
                    last_highlight = OpenHighlightOrProgress::Next(last_highlight_next + 1);
                } else {
                    let num_bytes_to_print = next_highlight.range.start - pos;
                    let piece = LineChunk {
                        chunk_index,
                        chunk_start_byte: bytes_printed,
                        chunk_end_byte: bytes_printed + num_bytes_to_print,
                        style: None,
                    };
                    proof {
                        let kk = last_highlight_next as int;
                        assert forall|b: int|
                            bytes_printed <= b < bytes_printed + num_bytes_to_print implies style_right(piece, cs, start, rs, b) by {
                            let x = current_start_byte + b;
                            assert forall|j: int| 0 <= j < r implies !covers(#[trigger] rs[j].range, x) by {
                                if j > kk {
                                    assert(rs[kk].range.end <= rs[j].range.start);
                                }
                            }
                        }
                        lemma_add_piece(line_chunk_items(*pieces), cs, start, rs, k, bytes_printed as int, piece);
                        assert(rs[kk].range.start == current_start_byte + bytes_printed + num_bytes_to_print);
                        assert(range_starts_at(rs, current_start_byte + bytes_printed + num_bytes_to_print));
                        lemma_no_edge_in_gap(
                            rs,
                            kk,
                            current_start_byte + bytes_printed,
                            current_start_byte + bytes_printed + num_bytes_to_print,
                            current_start_byte as int,
                        );
                        let items = line_chunk_items(*pieces);
                        if items.len() > 0 {
                            assert(items[items.len() - 1] == items.last());
                        }
                        lemma_add_piece_cut(items, cs, start, rs, piece);
                    }
                    pieces.push(piece);
                    bytes_printed = bytes_printed + num_bytes_to_print;
                    last_highlight = OpenHighlightOrProgress::OpenHighlight(last_highlight_next);
                }
            },
        }
    }
    let style = open_style(highlight_ranges, last_highlight);
    if bytes_printed < printable {
        let piece = LineChunk { chunk_index, chunk_start_byte: bytes_printed, chunk_end_byte: printable, style };
        proof {
            assert forall|b: int| bytes_printed <= b < printable implies style_right(piece, cs, start, rs, b) by {
                let x = current_start_byte + b;
                match last_highlight {
                    OpenHighlightOrProgress::OpenHighlight(o) => {
                        lemma_style_covered(rs, o as int, x);
                    },
                    OpenHighlightOrProgress::Next(kk) => {
                        assert forall|j: int| 0 <= j < r implies !covers(#[trigger] rs[j].range, x) by {
                            if j > kk {
                                assert(rs[kk as int].range.end <= rs[j].range.start);
                            }
                        }
                    },
                }
            }
            lemma_add_piece(line_chunk_items(*pieces), cs, start, rs, k, bytes_printed as int, piece);
            match last_highlight {
                OpenHighlightOrProgress::OpenHighlight(o) => {
                    lemma_no_edge_in_range(
                        rs,
                        o as int,
                        current_start_byte + bytes_printed,
                        current_start_byte + printable,
                    );
                },
                OpenHighlightOrProgress::Next(kk) => {
                    lemma_no_edge_in_gap(
                        rs,
                        kk as int,
                        current_start_byte + bytes_printed,
                        current_start_byte + printable,
                        current_start_byte as int,
                    );
                },
            }
            let items = line_chunk_items(*pieces);
            if items.len() > 0 {
                assert(items[items.len() - 1] == items.last());
            }
            lemma_add_piece_cut(items, cs, start, rs, piece);
        }
        let ghost before = line_chunk_items(*pieces);
        pieces.push(piece);
        proof {
            let items = line_chunk_items(*pieces);
            assert forall|i: int| 0 <= i < items.len() implies (#[trigger] items[i]).chunk_index <= k by {
                if i < items.len() - 1 {
                    assert(items[i] == before[i]);
                }
            }
        }
    }
    proof {
        lemma_finish_chunk(line_chunk_items(*pieces), cs, start, rs, k);
        match last_highlight {
            OpenHighlightOrProgress::Next(kk) => {
                assert forall|j: int|
                    kk <= j < r && (#[trigger] rs[j]).range.start < next_start_byte implies rs[j].range.end
                        <= next_start_byte by {
                    if j > kk {
                        assert(rs[kk as int].range.end <= rs[j].range.start);
                    }
                }
            },
            _ => {},
        }
    }
    last_highlight
}

/// The measure of painting progress: twice the ranges left, and one more
/// before a range than inside it.
spec fn measure(st: OpenHighlightOrProgress, len: int) -> int {
    match st {
        OpenHighlightOrProgress::OpenHighlight(o) => 2 * (len - o),
        OpenHighlightOrProgress::Next(k) => 2 * (len - k) + 1,
    }
}

/// Paints line `line_num`, going on from `state` at the start of the line;
/// gives the pieces and the state at the end of the line.
fn paint_line(
    rope: &Rope,
    line_num: LineNumber,
    highlight_ranges: &Vec<HighlightRange>,
    state: OpenHighlightOrProgress,
) -> (painted_line: (LineChunks, OpenHighlightOrProgress))
    requires
        ranges_ordered(highlight_ranges@),
        highlight_ranges@.len() < 0x0800_0000,
        line_num < rope_lines(*rope).len(),
        rope_line_chunk_texts(*rope, line_num as int).len() < 0x0800_0000,
        bytes_of(rope_text(*rope)).len() <= usize::MAX,
        state_at_boundary(highlight_ranges@, state, line_start_byte(*rope, line_num as int)),
    ensures
        line_painted(
            line_chunk_items(painted_line.0),
            rope_line_chunk_texts(*rope, line_num as int),
            line_start_byte(*rope, line_num as int),
            highlight_ranges@,
        ),
        state_at_boundary(highlight_ranges@, painted_line.1, line_start_byte(*rope, line_num + 1)),
{
    let ghost rs = highlight_ranges@;
    let ghost l = line_num as int;
    let ghost cs = rope_line_chunk_texts(*rope, l);
    let ghost start = line_start_byte(*rope, l);
    let chunks = rope_line_chunks(rope, line_num);
    proof {
        assert(chunks@.map_values(|c: String| c@).len() == chunks@.len());
        lemma_line_start_step(*rope, l);
        lemma_line_start_le_text(*rope, l + 1);
        assert(cs.take(cs.len() as int) =~= cs);
    }
    let mut line_chunks = LineChunks::new();
    let mut current_start_byte = rope_line_to_byte(rope, line_num);
    let mut last_highlight = state;
    let mut chunk_index: usize = 0;
    while chunk_index < chunks.len()
        invariant
            rs == highlight_ranges@,
            ranges_ordered(rs),
            rs.len() < 0x0800_0000,
            cs == chunks@.map_values(|c: String| c@),
            cs.len() == chunks@.len(),
            cs.len() < 0x0800_0000,
            cs.flatten() == rope_lines(*rope)[l],
            start == line_start_byte(*rope, l),
            start + bytes_of(rope_lines(*rope)[l]).len() <= usize::MAX,
            0 <= chunk_index <= cs.len(),
            current_start_byte == start + chunk_offset(cs, chunk_index as int),
            state_at_boundary(rs, last_highlight, current_start_byte as int),
            pieces_paint(line_chunk_items(line_chunks), cs, start, rs, chunk_index as int, 0),
            line_chunk_items(line_chunks).len() + measure(last_highlight, rs.len() as int) <= 2 * chunk_index
                + 2 * rs.len() + 2,
            pieces_cut(line_chunk_items(line_chunks), cs, start, rs),
            forall|i: int|
                0 <= i < line_chunk_items(line_chunks).len() ==> (#[trigger] line_chunk_items(
                    line_chunks,
                )[i]).chunk_index < chunk_index,
        decreases chunks@.len() - chunk_index,
    {
        let chunk = chunks[chunk_index].as_str();
        proof {
            assert(cs[chunk_index as int] == chunks@[chunk_index as int]@);
            lemma_chunk_offset_step(cs, chunk_index as int);
            lemma_chunk_offset_le(cs, chunk_index + 1, cs.len() as int);
            assert(cs.take(cs.len() as int) =~= cs);
            assert(chunk_offset(cs, cs.len() as int) == bytes_of(rope_lines(*rope)[l]).len());
        }
        last_highlight = paint_chunk(
            chunk,
            chunk_index,
            current_start_byte,
            highlight_ranges,
            last_highlight,
            &mut line_chunks,
            Ghost(cs),
            Ghost(start),
        );
        current_start_byte = current_start_byte + chunk.as_bytes().len();
        chunk_index += 1;
    }
    (line_chunks, last_highlight)
}

/// The pieces a printed row is painted in: a fold row as is, and a line row
/// with pieces that paint the line's chunks (see `line_painted`).
pub open spec fn row_painted(
    out: PrintedLineChunks,
    row: PrintedLine,
    rope: Rope,
    rs: Seq<HighlightRange>,
) -> bool {
    match row {
        PrintedLine::Fold(f) => out matches PrintedLineChunks::Fold(g) && g == f,
        PrintedLine::Line(l) => out matches PrintedLineChunks::Line(m, pieces) && m == l && line_painted(
            line_chunk_items(pieces),
            rope_line_chunk_texts(rope, l as int),
            line_start_byte(rope, l as int),
            rs,
        ),
    }
}

/// The pieces each printed row is painted in, given the highlight ranges:
/// a fold row stays a fold row; a line row gets pieces of the chunks the
/// line is stored in, each with the style of the highlight range covering
/// its bytes (see `row_painted`).
pub fn compute_printed_line_chunks(
    printed_lines: &Vec<PrintedLine>,
    rope: &Rope,
    highlight_ranges: &Vec<HighlightRange>,
) -> (rows: Vec<PrintedLineChunks>)
    requires
        ranges_ordered(highlight_ranges@),
        highlight_ranges@.len() < 0x0800_0000,
        bytes_of(rope_text(*rope)).len() <= usize::MAX,
        rows_paintable(*rope, printed_lines@, highlight_ranges@),
    ensures
        rows@.len() == printed_lines@.len(),
        forall|i: int|
            0 <= i < rows@.len() ==> row_painted(#[trigger] rows@[i], printed_lines@[i], *rope, highlight_ranges@),
{
    let ghost rs = highlight_ranges@;
    let mut last_highlight = OpenHighlightOrProgress::Next(0);
    let mut rows: Vec<PrintedLineChunks> = Vec::new();
    let mut i: usize = 0;
    while i < printed_lines.len()
        invariant
            rs == highlight_ranges@,
            ranges_ordered(rs),
            rs.len() < 0x0800_0000,
            bytes_of(rope_text(*rope)).len() <= usize::MAX,
            rows_paintable(*rope, printed_lines@, rs),
            0 <= i <= printed_lines@.len(),
            rows@.len() == i,
            forall|j: int| 0 <= j < i ==> row_painted(#[trigger] rows@[j], printed_lines@[j], *rope, rs),
            state_at_boundary(rs, last_highlight, previous_line_end(*rope, printed_lines@, i as int)),
        decreases printed_lines@.len() - i,
    {
        let ghost ri = i as int;
        match printed_lines[i] {
            PrintedLine::Fold(fold_index) => {
                rows.push(PrintedLineChunks::Fold(fold_index));
            },
            PrintedLine::Line(line_num) => {
                proof {
                    assert(match printed_lines@[ri] {
                        PrintedLine::Line(l) => {
                            &&& l < rope_lines(*rope).len()
                            &&& rope_line_chunk_texts(*rope, l as int).len() < 0x0800_0000
                            &&& jump_safe(rs, previous_line_end(*rope, printed_lines@, ri), line_start_byte(*rope, l as int))
                        },
                        PrintedLine::Fold(_) => true,
                    });
                    lemma_jump(
                        rs,
                        last_highlight,
                        previous_line_end(*rope, printed_lines@, ri),
                        line_start_byte(*rope, line_num as int),
                    );
                }
                let (line_chunks, after) = paint_line(rope, line_num, highlight_ranges, last_highlight);
                last_highlight = after;
                rows.push(PrintedLineChunks::Line(line_num, line_chunks));
            },
        }
        proof {
            assert(rows@[ri] == rows@.last());
        }
        i += 1;
    }
    rows
}

/// Whether the highlight ranges are in order, none inverted or overlapping.
pub fn check_ranges_ordered(highlight_ranges: &Vec<HighlightRange>) -> (ordered: bool)
    ensures
        ordered == ranges_ordered(highlight_ranges@),
{
    let ghost rs = highlight_ranges@;
    let n = highlight_ranges.len();
    let mut i: usize = 0;
    while i < n
        invariant
            n == rs.len(),
            rs == highlight_ranges@,
            0 <= i <= n,
            forall|j: int| 0 <= j < i ==> rs[j].range.start <= rs[j].range.end,
            forall|a: int, b: int| 0 <= a < b < i ==> #[trigger] rs[a].range.end <= #[trigger] rs[b].range.start,
            forall|a: int| 0 <= a < i ==> #[trigger] rs[a].range.end <= rs[i - 1].range.end,
        decreases n - i,
    {
        if highlight_ranges[i].range.start > highlight_ranges[i].range.end {
            return false;
        }
        if i > 0 && highlight_ranges[i - 1].range.end > highlight_ranges[i].range.start {
            proof {
                assert(!(rs[i - 1].range.end <= rs[i as int].range.start));
            }
            return false;
        }
        i += 1;
    }
    true
}

/// Whether a jump from byte `e` to byte `s` is safe (see `jump_safe`).
fn check_jump_safe(highlight_ranges: &Vec<HighlightRange>, e: usize, s: usize) -> (safe: bool)
    ensures
        safe == jump_safe(highlight_ranges@, e as int, s as int),
{
    if e > s {
        return false;
    }
    let n = highlight_ranges.len();
    let mut j: usize = 0;
    while j < n
        invariant
            n == highlight_ranges@.len(),
            e <= s,
            0 <= j <= n,
            forall|k: int|
                0 <= k < j ==> !((#[trigger] highlight_ranges@[k]).range.start < e <= highlight_ranges@[k].range.end
                    < s) && !(e <= highlight_ranges@[k].range.start < s < highlight_ranges@[k].range.end),
        decreases n - j,
    {
        let r = highlight_ranges[j].range;
        if (r.start < e && e <= r.end && r.end < s) || (e <= r.start && r.start < s && s < r.end) {
            return false;
        }
        j += 1;
    }
    true
}

/// Whether the rows can be painted with the highlight ranges: the ranges
/// are in order and fewer than `0x0800_0000`, and the rows are paintable
/// (see `rows_paintable`).
pub fn check_rows_paintable(
    printed_lines: &Vec<PrintedLine>,
    rope: &Rope,
    highlight_ranges: &Vec<HighlightRange>,
) -> (paintable: bool)
    ensures
        paintable == (ranges_ordered(highlight_ranges@) && highlight_ranges@.len() < 0x0800_0000
            && rows_paintable(*rope, printed_lines@, highlight_ranges@)),
        bytes_of(rope_text(*rope)).len() <= usize::MAX,
{
    let total_bytes = rope_len_bytes(rope);
    if !check_ranges_ordered(highlight_ranges) || highlight_ranges.len() >= 0x0800_0000 {
        return false;
    }
    let num_lines = rope_len_lines(rope);
    let ghost rows = printed_lines@;
    let mut previous_end: usize = 0;
    let mut i: usize = 0;
    while i < printed_lines.len()
        invariant
            rows == printed_lines@,
            num_lines == rope_lines(*rope).len(),
            total_bytes == bytes_of(rope_text(*rope)).len(),
            0 <= i <= rows.len(),
            previous_end == previous_line_end(*rope, rows, i as int),
            forall|k: int| 0 <= k < i ==> match #[trigger] rows[k] {
                PrintedLine::Line(l) => {
                    &&& l < rope_lines(*rope).len()
                    &&& rope_line_chunk_texts(*rope, l as int).len() < 0x0800_0000
                    &&& jump_safe(highlight_ranges@, previous_line_end(*rope, rows, k), line_start_byte(*rope, l as int))
                },
                PrintedLine::Fold(_) => true,
            },
        decreases rows.len() - i,
    {
        match printed_lines[i] {
            PrintedLine::Fold(_) => {},
            PrintedLine::Line(l) => {
                if l >= num_lines {
                    return false;
                }
                let chunks = rope_line_chunks(rope, l);
                proof {
                    assert(chunks@.map_values(|c: String| c@).len() == chunks@.len());
                }
                if chunks.len() >= 0x0800_0000 {
                    return false;
                }
                let s = rope_line_to_byte(rope, l);
                if !check_jump_safe(highlight_ranges, previous_end, s) {
                    return false;
                }
                proof {
                    lemma_line_start_le_text(*rope, l + 1);
                }
                previous_end = rope_line_to_byte(rope, l + 1);
            },
        }
        i += 1;
    }
    true
}

} // verus!
