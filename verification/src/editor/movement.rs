use vstd::prelude::*;

use super::printed::{
    compute_printed_lines, fold_ranges_ordered, lemma_walk_head, lemma_walk_len,
    lemma_walk_head_nonempty, lemma_walk_own_height, lemma_walk_prefix, lemma_walk_suffix, next_line_after,
    printed_line_valid, printed_walk, spec_one_past_line, spec_start_line, PrintedLine,
};
use super::{Editor, RowOrColumnNumber};
use crate::fold::{fold_wf, folds_wf, Fold};
use crate::text::{lemma_lines_of_nonempty, rope_len_lines, rope_line, rope_lines};
use vstd::math::min;

verus! {

/// The length of a line in bytes, not counting a final line feed.
pub open spec fn spec_line_len(line: Seq<char>) -> int {
    let bytes = vstd::utf8::encode_utf8(line);
    if bytes.len() > 0 && bytes.last() == 0x0Au8 {
        bytes.len() - 1
    } else {
        bytes.len() as int
    }
}

/// The length of a line in bytes, not counting a final line feed. The line
/// must not be empty.
pub fn line_len(line: &str) -> (len: usize)
    requires
        vstd::utf8::encode_utf8(line@).len() > 0,
    ensures
        len == spec_line_len(line@),
{
    let bytes = line.as_bytes();
    let line_len = bytes.len();
    if bytes[line_len - 1] == 0x0A {
        line_len - 1
    } else {
        line_len
    }
}

/// The cursor can stand on a line when the line is not empty and short
/// enough for a column number.
pub open spec fn line_measurable(line: Seq<char>) -> bool {
    vstd::utf8::encode_utf8(line).len() > 0 && spec_line_len(line) <= RowOrColumnNumber::MAX
}

/// The last column the cursor may take on a line.
pub open spec fn spec_max_column(line: Seq<char>) -> int {
    if spec_line_len(line) == 0 {
        0
    } else {
        spec_line_len(line) - 1
    }
}

/// The folds are ordered, as the printed rows need.
pub proof fn lemma_folds_ordered(folds: Seq<Fold>, num_lines: int)
    requires
        folds_wf(folds, num_lines),
    ensures
        fold_ranges_ordered(folds),
{
    assert forall|i: int| 0 <= i < folds.len() implies #[trigger] folds[i].range.start
        < folds[i].range.end by {
        assert(fold_wf(folds[i]@, num_lines));
    }
}

impl Editor {
    /// Everything but the view (cursor, top line, rows, remembered column)
    /// is the same in both editors.
    pub open spec fn same_content(&self, other: &Editor) -> bool {
        &&& self.current_file == other.current_file
        &&& self.initial_terminal_size == other.initial_terminal_size
        &&& self.printed_line_chunks == other.printed_line_chunks
        &&& self.current_tree_sitter_highlights == other.current_tree_sitter_highlights
        &&& self.tree_sitter_highlight_colors == other.tree_sitter_highlight_colors
        &&& self.current_file_shift_width == other.current_file_shift_width
        &&& self.current_file_indents == other.current_file_indents
        &&& self.folds == other.folds
        &&& self.max_folds == other.max_folds
        &&& self.mode == other.mode
        &&& self.last_rendered_grid == other.last_rendered_grid
        &&& self.disallow_folding == other.disallow_folding
        &&& self.disallow_ex_command_mode == other.disallow_ex_command_mode
        &&& self.highlight_range == other.highlight_range
        &&& self.current_highlight_ranges == other.current_highlight_ranges
    }

    /// The cursor may stand on the row `p`: a fold, or a line it can measure.
    pub open spec fn row_measurable(&self, p: PrintedLine) -> bool {
        match p {
            PrintedLine::Line(l) => line_measurable(self.lines()[l as int]),
            PrintedLine::Fold(_) => true,
        }
    }

    /// The column the cursor ends up in on row `p`: zero on a fold, and on a
    /// line the remembered column (or the current one), clamped to the line.
    pub open spec fn allowed_column_for(&self, p: PrintedLine) -> int {
        match p {
            PrintedLine::Fold(_) => 0,
            PrintedLine::Line(l) => {
                let wanted = match self.sticky_cursor_position_column {
                    Some(c) => c as int,
                    None => self.cursor_position.column as int,
                };
                let max = spec_max_column(self.lines()[l as int]);
                if wanted > max {
                    max
                } else {
                    wanted
                }
            },
        }
    }

    /// The column the cursor ends up in on its own row.
    pub open spec fn allowed_column(&self) -> int {
        self.allowed_column_for(self.cursor_row_line())
    }

    /// The rows fill the file area and do not reach the end of the file.
    pub open spec fn spec_can_scroll(&self) -> bool {
        !(self.printed_lines@.len() < self.grid_height() || spec_one_past_line(
            self.printed_lines@.last(),
            self.folds@,
        ) >= self.num_lines())
    }

    /// The cursor's row reaches the end of the file.
    pub open spec fn spec_on_last_file_line(&self) -> bool {
        spec_one_past_line(self.cursor_row_line(), self.folds@) == self.num_lines()
    }

    /// Facts about row `i` of a well-formed editor.
    pub proof fn lemma_row(&self, i: int)
        requires
            self.wf(),
            0 <= i < self.printed_lines@.len(),
        ensures
            printed_line_valid(self.printed_lines@[i], self.folds@),
            spec_start_line(self.printed_lines@[i], self.folds@) < self.num_lines(),
            0 <= spec_start_line(self.printed_lines@[i], self.folds@),
            spec_start_line(self.printed_lines@[i], self.folds@) < spec_one_past_line(
                self.printed_lines@[i],
                self.folds@,
            ) <= self.num_lines(),
            i + 1 < self.printed_lines@.len() ==> spec_start_line(self.printed_lines@[i + 1], self.folds@)
                == spec_one_past_line(self.printed_lines@[i], self.folds@),
            self.printed_lines@[i] is Fold ==> !self.disallow_folding,
            self.walk_from(
                spec_start_line(self.printed_lines@[i], self.folds@),
                (self.printed_lines@.len() - i) as nat,
            ) == self.printed_lines@.subrange(i, self.printed_lines@.len() as int),
    {
        assert(self.folds@.len() == self.folds.len());
        lemma_folds_ordered(self.folds@, self.num_lines());
        lemma_walk_suffix(
            self.num_lines(),
            self.folds@,
            self.disallow_folding,
            self.top_start(),
            self.printed_lines@.len(),
            i,
        );
        if let PrintedLine::Fold(f) = self.printed_lines@[i] {
            assert(fold_wf(self.folds@[f as int]@, self.num_lines()));
        }
    }

    /// The row the cursor is on.
    pub fn cursor_printed_line(&self) -> (p: &PrintedLine)
        requires
            self.cursor_position.row < self.printed_lines@.len(),
        ensures
            *p == self.cursor_row_line(),
    {
        &self.printed_lines[self.cursor_position.row as usize]
    }

    /// One past the last file line the bottom row shows.
    pub fn one_past_final_last_printed_row_line_number(&self) -> (line: usize)
        requires
            self.wf(),
        ensures
            line == spec_one_past_line(self.printed_lines@.last(), self.folds@),
    {
        proof {
            self.lemma_row(self.printed_lines@.len() - 1);
        }
        self.one_past_printed_line_line_number(&self.printed_lines[self.printed_lines.len() - 1])
    }

    /// The cursor's row reaches the end of the file.
    pub fn is_cursor_on_last_file_line(&self) -> (last: bool)
        requires
            self.wf(),
        ensures
            last == (spec_one_past_line(self.cursor_row_line(), self.folds@) == self.num_lines()),
    {
        proof {
            self.lemma_row(self.cursor_position.row as int);
        }
        self.one_past_printed_line_line_number(self.cursor_printed_line()) == rope_len_lines(
            self.current_file.rope(),
        )
    }

    /// The rows fill the file area and do not reach the end of the file.
    pub fn can_scroll_down_further(&self) -> (can: bool)
        requires
            self.wf(),
        ensures
            can == !(self.printed_lines@.len() < self.grid_height() || spec_one_past_line(
                self.printed_lines@.last(),
                self.folds@,
            ) >= self.num_lines()),
    {
        !(self.printed_lines.len() < self.file_editor_grid_size().height as usize
            || self.one_past_final_last_printed_row_line_number() >= rope_len_lines(
            self.current_file.rope(),
        ))
    }

    /// The last column the cursor may take on its line.
    pub fn max_allowed_column(&self) -> (column: RowOrColumnNumber)
        requires
            self.wf(),
            self.cursor_row_line() is Line,
            self.row_measurable(self.cursor_row_line()),
        ensures
            column == spec_max_column(self.lines()[self.cursor_row_line()->Line_0 as int]),
    {
        proof {
            self.lemma_row(self.cursor_position.row as int);
        }
        let cursor_line_num = match self.cursor_printed_line() {
            PrintedLine::Line(line_num) => *line_num,
            PrintedLine::Fold(_) => vstd::pervasive::unreached(),
        };
        let line = rope_line(self.current_file.rope(), cursor_line_num);
        let len = line_len(line.as_str());
        if len == 0 {
            0
        } else {
            (len - 1) as RowOrColumnNumber
        }
    }

    /// Puts the cursor on column zero of a fold, and on a line on the
    /// remembered column (or the current one) clamped to the line.
    pub fn set_allowed_cursor_column(&mut self)
        requires
            old(self).wf(),
            old(self).row_measurable(old(self).cursor_row_line()),
        ensures
            final(self).wf(),
            final(self).same_content(old(self)),
            final(self).top_line == old(self).top_line,
            final(self).printed_lines == old(self).printed_lines,
            final(self).sticky_cursor_position_column == old(self).sticky_cursor_position_column,
            final(self).cursor_position.row == old(self).cursor_position.row,
            final(self).cursor_position.column == old(self).allowed_column(),
    {
        if let PrintedLine::Fold(_) = self.cursor_printed_line() {
            self.cursor_position.column = 0;
        } else {
            if let Some(sticky_cursor_position_column) = self.sticky_cursor_position_column {
                self.cursor_position.column = sticky_cursor_position_column;
            }
            let max = self.max_allowed_column();
            if self.cursor_position.column > max {
                self.cursor_position.column = max;
            }
        }
    }

    /// Remembers the cursor's column for moves to other lines.
    pub fn remember_sticky_cursor_position_column(&mut self)
        ensures
            final(self).sticky_cursor_position_column == Some(old(self).cursor_position.column),
            final(self).same_content(old(self)),
            final(self).top_line == old(self).top_line,
            final(self).printed_lines == old(self).printed_lines,
            final(self).cursor_position == old(self).cursor_position,
    {
        self.sticky_cursor_position_column = Some(self.cursor_position.column);
    }

    /// Moves the cursor one column right, unless it is at the end of its line.
    pub fn maybe_move_cursor_right_one_column(&mut self)
        requires
            old(self).wf(),
            old(self).cursor_row_line() is Line,
            old(self).row_measurable(old(self).cursor_row_line()),
        ensures
            final(self).wf(),
            final(self).same_content(old(self)),
            final(self).top_line == old(self).top_line,
            final(self).printed_lines == old(self).printed_lines,
            final(self).cursor_position.row == old(self).cursor_position.row,
            ({
                let max = spec_max_column(old(self).lines()[old(self).cursor_row_line()->Line_0 as int]);
                if old(self).cursor_position.column < max {
                    &&& final(self).cursor_position.column == old(self).cursor_position.column + 1
                    &&& final(self).sticky_cursor_position_column == Some(final(self).cursor_position.column)
                } else {
                    &&& final(self).cursor_position.column == old(self).cursor_position.column
                    &&& final(self).sticky_cursor_position_column == old(self).sticky_cursor_position_column
                }
            }),
    {
        if self.cursor_position.column < self.max_allowed_column() {
            self.cursor_position.column = self.cursor_position.column + 1;
            self.remember_sticky_cursor_position_column();
        }
    }

    /// Moves the cursor one column left, unless it is at the start of its line.
    pub fn maybe_move_cursor_left_one_column(&mut self)
        requires
            old(self).wf(),
            old(self).cursor_row_line() is Line,
        ensures
            final(self).wf(),
            final(self).same_content(old(self)),
            final(self).top_line == old(self).top_line,
            final(self).printed_lines == old(self).printed_lines,
            final(self).cursor_position.row == old(self).cursor_position.row,
            if old(self).cursor_position.column > 0 {
                &&& final(self).cursor_position.column == old(self).cursor_position.column - 1
                &&& final(self).sticky_cursor_position_column == Some(final(self).cursor_position.column)
            } else {
                &&& final(self).cursor_position.column == 0
                &&& final(self).sticky_cursor_position_column == old(self).sticky_cursor_position_column
            },
    {
        if self.cursor_position.column > 0 {
            self.cursor_position.column = self.cursor_position.column - 1;
            self.remember_sticky_cursor_position_column();
        }
    }

    /// Moves the cursor to the first column of its line.
    pub fn move_cursor_to_beginning_of_line(&mut self)
        requires
            old(self).wf(),
            old(self).cursor_row_line() is Line,
        ensures
            final(self).moved_to_line_start_from(old(self)),
    {
        self.cursor_position.column = 0;
        self.remember_sticky_cursor_position_column();
    }

    /// Moves the cursor to the last column of its line.
    pub fn move_cursor_to_end_of_line(&mut self)
        requires
            old(self).wf(),
            old(self).cursor_row_line() is Line,
            old(self).row_measurable(old(self).cursor_row_line()),
        ensures
            final(self).moved_to_line_end_from(old(self)),
    {
        self.cursor_position.column = self.max_allowed_column();
        self.remember_sticky_cursor_position_column();
    }
}


/// The index of the fold that ends at line `end`, if any.
pub open spec fn fold_ending_at(folds: Seq<Fold>, end: int) -> Option<int> {
    if exists|i: int| 0 <= i < folds.len() && #[trigger] folds[i].range.end == end {
        Some(choose|i: int| 0 <= i < folds.len() && #[trigger] folds[i].range.end == end)
    } else {
        None
    }
}

/// The first fold that ends at line `end`.
fn position_of_fold_ending_at(folds: &[Fold], end: usize) -> (idx: Option<usize>)
    requires
        fold_ranges_ordered(folds@),
    ensures
        idx matches Some(i) ==> fold_ending_at(folds@, end as int) == Some(i as int),
        idx is None ==> fold_ending_at(folds@, end as int) is None,
{
    let mut i: usize = 0;
    while i < folds.len()
        invariant
            0 <= i <= folds.len(),
            fold_ranges_ordered(folds@),
            forall|j: int| 0 <= j < i ==> #[trigger] folds@[j].range.end != end,
        decreases folds.len() - i,
    {
        if folds[i].range.end == end {
            proof {
                let fs = folds@;
                assert(fs[i as int].range.end == end);
                let j = choose|j: int| 0 <= j < fs.len() && #[trigger] fs[j].range.end == end;
                if j > i {
                    assert(fs[i as int].range.end <= fs[j].range.start);
                    assert(fs[j].range.start < fs[j].range.end);
                }
            }
            return Some(i);
        }
        i += 1;
    }
    None
}

impl Editor {
    /// The row that scrolling up one line puts on top: the fold that ends at
    /// the line before the top row's first line (when folding is allowed),
    /// otherwise that line.
    pub open spec fn spec_up_top(&self) -> PrintedLine {
        let before = self.top_start() - 1;
        match (if self.disallow_folding {
            None
        } else {
            fold_ending_at(self.folds@, before)
        }) {
            Some(i) => PrintedLine::Fold(i as usize),
            None => PrintedLine::Line(before as usize),
        }
    }

    /// Recomputes the rows from the top line, filling the file area.
    pub fn recompute_printed_lines(&mut self)
        requires
            old(self).wf_base(),
        ensures
            final(self).wf_base(),
            final(self).same_content(old(self)),
            final(self).top_line == old(self).top_line,
            final(self).cursor_position == old(self).cursor_position,
            final(self).sticky_cursor_position_column == old(self).sticky_cursor_position_column,
            final(self).printed_lines@ == old(self).walk_from(old(self).top_start(), old(self).grid_height() as nat),
            final(self).printed_lines@ == final(self).walk_from(final(self).top_start(), final(self).printed_lines@.len()),
            1 <= final(self).printed_lines@.len() <= final(self).grid_height(),
    {
        proof {
            lemma_folds_ordered(self.folds@, self.num_lines());
        }
        let num_lines = rope_len_lines(self.current_file.rope());
        let height = self.file_editor_grid_size().height;
        self.printed_lines = compute_printed_lines(
            num_lines,
            self.top_line,
            &self.folds,
            height,
            self.disallow_folding,
        );
        proof {
            assert(self.folds@.len() == self.folds.len());
            lemma_walk_own_height(self.num_lines(), self.folds@, self.disallow_folding, self.top_start(), height as nat);
            lemma_walk_head_nonempty(self.num_lines(), self.folds@, self.disallow_folding, self.top_start(), height as nat);
            lemma_walk_len(self.num_lines(), self.folds@, self.disallow_folding, self.top_start(), height as nat);
        }
    }

    /// Moving up one row does not panic: the row the cursor lands on can be
    /// measured.
    pub open spec fn up_allowed(&self) -> bool {
        &&& self.cursor_position.row > 0 ==> self.row_measurable(
            self.printed_lines@[self.cursor_position.row - 1],
        )
        &&& (self.cursor_position.row == 0 && self.top_start() > 0) ==> self.row_measurable(
            self.walk_from(spec_start_line(self.spec_up_top(), self.folds@), self.grid_height() as nat)[0],
        )
    }

    /// Moves the cursor up one row, scrolling up one line (or fold) when it
    /// is on the top row, unless the top row is the file's first line; the
    /// column then follows the remembered one.
    pub fn maybe_move_cursor_up_one_line(&mut self)
        requires
            old(self).wf(),
            old(self).up_allowed(),
        ensures
            final(self).moved_up_from(old(self)),
    {
        if self.cursor_position.row == 0 {
            let top_line_start_line = self.top_line.start_line(&self.folds);
            if top_line_start_line == 0 {
                return;
            }
            proof {
                lemma_folds_ordered(self.folds@, self.num_lines());
            }
            let found = if self.disallow_folding {
                None
            } else {
                position_of_fold_ending_at(&self.folds, top_line_start_line - 1)
            };
            self.top_line = match found {
                Some(fold_index) => PrintedLine::Fold(fold_index),
                None => PrintedLine::Line(top_line_start_line - 1),
            };
            proof {
                if let Some(i) = found {
                    assert(fold_wf(self.folds@[i as int]@, self.num_lines()));
                }
            }
            self.recompute_printed_lines();
            self.set_allowed_cursor_column();
        } else {
            self.cursor_position.row = self.cursor_position.row - 1;
            self.set_allowed_cursor_column();
        }
    }
}


/// Where the walk of `g` rows from row `m` of the rows `p` ends the file
/// early, and `p` (at least `g` rows) does not end it, starting `d` rows
/// earlier (`d` being the rows missing) still lies within `p` after its
/// first row, and the walk of `g` rows from there is full and ends the file.
#[verifier::spinoff_prover]
#[verifier::rlimit(40)]
proof fn lemma_scroll_back(n: int, fs: Seq<Fold>, dis: bool, top: int, len: nat, m: int, g: nat)
    requires
        fold_ranges_ordered(fs),
        0 <= top,
        n <= usize::MAX,
        fs.len() <= usize::MAX,
        printed_walk(n, fs, dis, top, len).len() == len,
        g <= len,
        0 <= m < len,
        m < g,
        next_line_after(printed_walk(n, fs, dis, top, len).last(), fs) < n,
        printed_walk(n, fs, dis, spec_start_line(printed_walk(n, fs, dis, top, len)[m], fs), g).len() < g,
    ensures
        ({
            let p = printed_walk(n, fs, dis, top, len);
            let w = printed_walk(n, fs, dis, spec_start_line(p[m], fs), g);
            let j = m - (g - w.len());
            let ww = printed_walk(n, fs, dis, spec_start_line(p[j], fs), g);
            &&& 1 <= j
            &&& ww.len() == g
            &&& next_line_after(ww.last(), fs) >= n
        }),
{
    let p = printed_walk(n, fs, dis, top, len);
    let t = spec_start_line(p[m], fs);
    let w = printed_walk(n, fs, dis, t, g);
    let d = g - w.len();
    lemma_walk_suffix(n, fs, dis, top, len, m);
    lemma_walk_suffix(n, fs, dis, top, len, len - 1);
    let ws = printed_walk(n, fs, dis, t, (len - m) as nat);
    assert(ws == p.subrange(m, len as int));
    if w.len() == 0 {
        lemma_walk_head_nonempty(n, fs, dis, t, g);
    }
    lemma_walk_suffix(n, fs, dis, t, g, w.len() - 1);
    if len - m >= w.len() {
        if len - m <= g {
            lemma_walk_prefix(n, fs, dis, t, (len - m) as nat, g);
            assert(ws.len() == w.len());
            assert(w.subrange(0, w.len() as int) =~= w);
            assert(p[len - 1] == ws[len - m - 1]);
        } else {
            lemma_walk_prefix(n, fs, dis, t, g, (len - m) as nat);
        }
        assert(false);
    }
    let j = m - d;
    let s = spec_start_line(p[j], fs);
    let ww = printed_walk(n, fs, dis, s, g);
    lemma_walk_suffix(n, fs, dis, top, len, j);
    lemma_walk_suffix(n, fs, dis, top, len, m - 1);
    lemma_walk_prefix(n, fs, dis, s, d as nat, (len - j) as nat);
    lemma_walk_prefix(n, fs, dis, s, d as nat, g);
    let first_part = printed_walk(n, fs, dis, s, d as nat);
    let pj = printed_walk(n, fs, dis, s, (len - j) as nat);
    assert(pj == p.subrange(j, len as int));
    assert(first_part.len() == d);
    assert(first_part == pj.subrange(0, d));
    assert(first_part == ww.subrange(0, d));
    assert(first_part[d - 1] == p[m - 1]);
    assert(ww[d - 1] == p[m - 1]);
    if ww.len() == d {
        lemma_walk_suffix(n, fs, dis, s, g, d - 1);
        assert(false);
    }
    lemma_walk_suffix(n, fs, dis, s, g, d - 1);
    lemma_walk_suffix(n, fs, dis, s, g, d);
    lemma_walk_suffix(n, fs, dis, s, (g - d) as nat, 0);
    lemma_walk_own_height(n, fs, dis, t, g);
    assert(ww.subrange(d, ww.len() as int) == printed_walk(n, fs, dis, t, (g - d) as nat));
    lemma_walk_prefix(n, fs, dis, t, (g - d) as nat, g);
    assert(w.subrange(0, w.len() as int) =~= w);
    assert(ww.subrange(d, ww.len() as int) == w);
    assert(ww.len() == g);
    assert(ww.last() == w.last());
}

impl Editor {
    /// Moving down `num_lines` rows does not panic: the row the cursor lands
    /// on without scrolling can be measured, and when scrolling, the rows
    /// to go fit a `u16` and do not reach past the next screenful.
    pub open spec fn down_allowed(&self, num_lines: u16) -> bool {
        &&& (!self.spec_on_last_file_line() && (!self.spec_can_scroll() || self.cursor_position.row
            + num_lines < self.grid_height())) ==> self.row_measurable(
            self.printed_lines@[self.cursor_position.row + min(
                num_lines as int,
                self.printed_lines@.len() - (self.cursor_position.row + 1),
            )],
        )
        &&& (!self.spec_on_last_file_line() && self.spec_can_scroll()) ==> self.cursor_position.row
            + num_lines + 1 <= RowOrColumnNumber::MAX
        &&& (!self.spec_on_last_file_line() && self.spec_can_scroll() && self.cursor_position.row
            + num_lines >= self.grid_height()) ==> self.cursor_position.row + num_lines + 1
            - self.grid_height() < self.grid_height()
    }
}


impl Editor {
    /// Moves the cursor down `num_lines` rows. When it would leave the file
    /// area, it goes to the bottom row and the view scrolls so that the row
    /// it would have reached is at the bottom, or, where the file ends before
    /// the file area does, so that the file's end fills the bottom row. It
    /// does not move from the row that reaches the end of the file.
    pub fn maybe_move_cursor_down_n_lines(&mut self, num_lines: u16)
        requires
            old(self).wf(),
            old(self).down_allowed(num_lines),
        ensures
            final(self).moved_down_from(old(self), num_lines),
    {
        if self.is_cursor_on_last_file_line() {
            return;
        }
        let grid_height = self.file_editor_grid_size().height;
        if !self.can_scroll_down_further() || self.cursor_position.row + num_lines < grid_height {
            let num_printed = self.printed_lines.len() as u16;
            let room = num_printed - (self.cursor_position.row + 1);
            let step = if num_lines < room {
                num_lines
            } else {
                room
            };
            self.cursor_position.row = self.cursor_position.row + step;
            self.set_allowed_cursor_column();
            return;
        }
        let ghost old_self = *self;
        let ghost p = self.printed_lines@;
        let ghost n = self.num_lines();
        let ghost fs = self.folds@;
        let ghost dis = self.disallow_folding;
        let old_cursor_position_row = self.cursor_position.row;
        self.cursor_position.row = grid_height - 1;
        let max_num_lines_to_scroll_by = old_cursor_position_row + num_lines + 1 - grid_height;
        if max_num_lines_to_scroll_by < grid_height {
            let m = max_num_lines_to_scroll_by;
            proof {
                old_self.lemma_row(m as int);
                lemma_folds_ordered(fs, n);
                assert(fs.len() == self.folds.len());
            }
            let tentative_new_top_line_if_we_can_still_fill_up_the_entire_screen = self.printed_lines[m as usize];
            let total_lines = rope_len_lines(self.current_file.rope());
            let tentative_new_printed_lines = compute_printed_lines(
                total_lines,
                tentative_new_top_line_if_we_can_still_fill_up_the_entire_screen,
                &self.folds,
                grid_height,
                self.disallow_folding,
            );
            let ghost t = spec_start_line(p[m as int], fs);
            let ghost w = tentative_new_printed_lines@;
            proof {
                lemma_walk_len(n, fs, dis, t, grid_height as nat);
                lemma_walk_head_nonempty(n, fs, dis, t, grid_height as nat);
            }
            if tentative_new_printed_lines.len() == grid_height as usize {
                self.top_line = tentative_new_top_line_if_we_can_still_fill_up_the_entire_screen;
                self.printed_lines = tentative_new_printed_lines;
                return;
            }
            let ghost len = p.len() as int;
            let ghost d = grid_height - w.len();
            proof {
                lemma_scroll_back(n, fs, dis, old_self.top_start(), len as nat, m as int, grid_height as nat);
            }
            let back = grid_height - tentative_new_printed_lines.len() as u16;
            self.top_line = self.printed_lines[(m - back) as usize];
            proof {
                old_self.lemma_row((m - d) as int);
            }
            self.recompute_printed_lines();
            return;
        }
        vstd::pervasive::unreached()
    }
}

impl Editor {
    /// Whether the cursor can stand on row `p` (see `row_measurable`).
    pub fn row_is_measurable(&self, p: &PrintedLine) -> (ok: bool)
        requires
            self.wf_base(),
            p matches PrintedLine::Line(l) ==> l < self.num_lines(),
        ensures
            ok == self.row_measurable(*p),
    {
        match p {
            PrintedLine::Fold(_) => true,
            PrintedLine::Line(l) => {
                let line = rope_line(self.current_file.rope(), *l);
                let num_bytes = line.as_str().as_bytes().len();
                if num_bytes == 0 {
                    false
                } else {
                    line_len(line.as_str()) <= 0xFFFF
                }
            },
        }
    }

    /// Whether the cursor can move down `num_lines` rows (see
    /// `down_allowed`).
    pub fn can_move_cursor_down_n_lines(&self, num_lines: u16) -> (ok: bool)
        requires
            self.wf(),
        ensures
            ok == self.down_allowed(num_lines),
    {
        proof {
            self.lemma_row(self.cursor_position.row as int);
        }
        let on_last = self.is_cursor_on_last_file_line();
        if on_last {
            return true;
        }
        let can_scroll = self.can_scroll_down_further();
        let row = self.cursor_position.row as usize;
        let n = num_lines as usize;
        let height = self.file_editor_grid_size().height as usize;
        let len = self.printed_lines.len();
        if !can_scroll || row + n < height {
            let step = if n < len - (row + 1) {
                n
            } else {
                len - (row + 1)
            };
            proof {
                self.lemma_row(row + step);
            }
            if !self.row_is_measurable(&self.printed_lines[row + step]) {
                return false;
            }
        }
        if can_scroll {
            if row + n + 1 > 0xFFFF {
                return false;
            }
            if row + n >= height && row + n + 1 - height >= height {
                return false;
            }
        }
        true
    }

    /// Whether the cursor can move up one row (see `up_allowed`).
    pub fn can_move_cursor_up_one_line(&self) -> (ok: bool)
        requires
            self.wf(),
        ensures
            ok == self.up_allowed(),
    {
        let row = self.cursor_position.row as usize;
        if row > 0 {
            proof {
                self.lemma_row(row - 1);
            }
            return self.row_is_measurable(&self.printed_lines[row - 1]);
        }
        let top = self.top_line.start_line(&self.folds);
        if top == 0 {
            return true;
        }
        proof {
            lemma_folds_ordered(self.folds@, self.num_lines());
        }
        let found = if self.disallow_folding {
            None
        } else {
            position_of_fold_ending_at(&self.folds, top - 1)
        };
        let up_top = match found {
            Some(fold_index) => PrintedLine::Fold(fold_index),
            None => PrintedLine::Line(top - 1),
        };
        proof {
            if let Some(i) = found {
                assert(fold_wf(self.folds@[i as int]@, self.num_lines()));
            }
        }
        let num_lines = rope_len_lines(self.current_file.rope());
        let height = self.file_editor_grid_size().height;
        let rows = compute_printed_lines(num_lines, up_top, &self.folds, height, self.disallow_folding);
        proof {
            let start = spec_start_line(up_top, self.folds@);
            assert(up_top == self.spec_up_top());
            assert(self.folds@.len() == self.folds.len());
            lemma_walk_head_nonempty(self.num_lines(), self.folds@, self.disallow_folding, start, height as nat);
            lemma_walk_head(self.num_lines(), self.folds@, self.disallow_folding, start, height as nat);
        }
        self.row_is_measurable(&rows[0])
    }
}

impl Editor {
    /// What moving the cursor down `num_lines` rows from `old` gives (see
    /// `maybe_move_cursor_down_n_lines`).
    pub open spec fn moved_down_from(&self, old: &Editor, num_lines: u16) -> bool {
        &&& self.wf()
        &&& self.same_content(old)
        &&& self.sticky_cursor_position_column == old.sticky_cursor_position_column
        &&& if old.spec_on_last_file_line() {
            &&& self.top_line == old.top_line
            &&& self.printed_lines == old.printed_lines
            &&& self.cursor_position == old.cursor_position
        } else if !old.spec_can_scroll() || old.cursor_position.row + num_lines
            < old.grid_height() {
            &&& self.top_line == old.top_line
            &&& self.printed_lines == old.printed_lines
            &&& self.cursor_position.row == old.cursor_position.row + min(
                num_lines as int,
                old.printed_lines@.len() - (old.cursor_position.row + 1),
            )
            &&& self.cursor_position.column == old.allowed_column_for(
                self.cursor_row_line(),
            )
        } else {
            let g = old.grid_height();
            let m = old.cursor_position.row + num_lines + 1 - g;
            let tentative_top = old.printed_lines@[m];
            let tentative = old.walk_from(spec_start_line(tentative_top, old.folds@), g as nat);
            &&& self.cursor_position.row == g - 1
            &&& self.cursor_position.column == old.cursor_position.column
            &&& self.printed_lines@.len() == g
            &&& if tentative.len() == g {
                &&& self.top_line == tentative_top
                &&& self.printed_lines@ == tentative
            } else {
                &&& self.top_line == old.printed_lines@[m - (g - tentative.len())]
                &&& self.printed_lines@ == old.walk_from(
                    spec_start_line(self.top_line, old.folds@),
                    g as nat,
                )
                &&& !self.spec_can_scroll()
            }
        }
    }

    /// What moving the cursor up one row from `old` gives (see
    /// `maybe_move_cursor_up_one_line`).
    pub open spec fn moved_up_from(&self, old: &Editor) -> bool {
        &&& self.wf()
        &&& self.same_content(old)
        &&& self.sticky_cursor_position_column == old.sticky_cursor_position_column
        &&& if old.cursor_position.row > 0 {
            &&& self.top_line == old.top_line
            &&& self.printed_lines == old.printed_lines
            &&& self.cursor_position.row == old.cursor_position.row - 1
            &&& self.cursor_position.column == old.allowed_column_for(self.cursor_row_line())
        } else if old.top_start() == 0 {
            &&& self.top_line == old.top_line
            &&& self.printed_lines == old.printed_lines
            &&& self.cursor_position == old.cursor_position
        } else {
            &&& self.top_line == old.spec_up_top()
            &&& self.printed_lines@ == old.walk_from(
                spec_start_line(old.spec_up_top(), old.folds@),
                old.grid_height() as nat,
            )
            &&& self.cursor_position.row == 0
            &&& self.cursor_position.column == old.allowed_column_for(self.cursor_row_line())
        }
    }

    /// What moving the cursor to the start of its line gives.
    pub open spec fn moved_to_line_start_from(&self, old: &Editor) -> bool {
        &&& self.wf()
        &&& self.same_content(old)
        &&& self.top_line == old.top_line
        &&& self.printed_lines == old.printed_lines
        &&& self.cursor_position.row == old.cursor_position.row
        &&& self.cursor_position.column == 0
        &&& self.sticky_cursor_position_column == Some(0u16)
    }

    /// What moving the cursor to the end of its line gives.
    pub open spec fn moved_to_line_end_from(&self, old: &Editor) -> bool {
        &&& self.wf()
        &&& self.same_content(old)
        &&& self.top_line == old.top_line
        &&& self.printed_lines == old.printed_lines
        &&& self.cursor_position.row == old.cursor_position.row
        &&& self.cursor_position.column == spec_max_column(
            old.lines()[old.cursor_row_line()->Line_0 as int],
        )
        &&& self.sticky_cursor_position_column == Some(self.cursor_position.column)
    }
}

/// Moving the cursor down one row and then up one row brings it back to its
/// row, with the same rows on the screen, where the row below it is on the
/// screen and the screen is not over-full.
pub proof fn law_up_undoes_down(e0: Editor, e1: Editor, e2: Editor)
    requires
        e0.wf(),
        e0.cursor_position.row + 1 < e0.printed_lines@.len(),
        e0.printed_lines@.len() <= e0.grid_height(),
        e1.moved_down_from(&e0, 1),
        e2.moved_up_from(&e1),
    ensures
        e2.cursor_position.row == e0.cursor_position.row,
        e2.top_line == e0.top_line,
        e2.printed_lines == e0.printed_lines,
{
    let r = e0.cursor_position.row as int;
    e0.lemma_row(r);
    e0.lemma_row(r + 1);
    assert(!e0.spec_on_last_file_line());
}

/// Moving the cursor up one row and then down one row brings it back to its
/// row, with the same rows on the screen, where the cursor is not on the top
/// row and the screen is not over-full.
pub proof fn law_down_undoes_up(e0: Editor, e1: Editor, e2: Editor)
    requires
        e0.wf(),
        e0.cursor_position.row > 0,
        e0.printed_lines@.len() <= e0.grid_height(),
        e1.moved_up_from(&e0),
        e2.moved_down_from(&e1, 1),
    ensures
        e2.cursor_position.row == e0.cursor_position.row,
        e2.top_line == e0.top_line,
        e2.printed_lines == e0.printed_lines,
{
    let r = e0.cursor_position.row as int;
    e0.lemma_row(r - 1);
    e0.lemma_row(r);
    assert(!e1.spec_on_last_file_line());
}

} // verus!
