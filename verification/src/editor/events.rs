use vstd::prelude::*;

use std::path::PathBuf;

use ropey::Rope;

use super::chunks::{check_rows_paintable, compute_printed_line_chunks, row_painted, PrintedLineChunks};
use super::highlight::{compute_highlight_ranges, spec_syntax_range};
use super::printed::{compute_printed_lines, printed_walk, spec_start_line, PrintedLine};
use super::movement::lemma_folds_ordered;
use super::{
    tree_sitter_highlight_colors, Event, Happened, HighlightRange, Mode, OpenFile, OpenFileAnonymous,
    OpenFileNamed, Position, Range, Size,
};
use super::Editor;
use crate::fold::{calculate_folds, duplicate_folds, fold_wf, folds_wf, Fold};
use crate::indent::{calculate_indents, indent_level};
use crate::text::{
    chars_before_line, rope_from_str, rope_insert_char, rope_len_chars, rope_len_lines, rope_line_to_char, rope_lines,
    rope_text, rope_to_string,
};
use crate::text_util::{str_equal, string_push};
use crate::tree_sitter::{calculate_highlights, syntax_highlights, TreeSitterHighlight};
use vstd::math::min;
use crate::{strip_trailing_newline, without_trailing_newline};

verus! {

impl OpenFile {
    /// A file holding `contents` without one final line feed, named by
    /// `path` where there is one.
    pub fn from_contents(contents: &str, path: Option<PathBuf>) -> (file: OpenFile)
        ensures
            rope_text(file.spec_rope()) == without_trailing_newline(contents@),
            file is Named <==> path is Some,
            match (file, path) {
                (OpenFile::Named(named), Some(p)) => named.path == p,
                _ => true,
            },
    {
        let rope = rope_from_str(strip_trailing_newline(contents));
        match path {
            Some(path) => OpenFile::Named(OpenFileNamed { rope, path }),
            None => OpenFile::Anonymous(OpenFileAnonymous { rope }),
        }
    }
}

/// The syntax highlights each have a color among the three.
pub open spec fn highlights_colored(ts: Seq<TreeSitterHighlight>) -> bool {
    forall|i: int| 0 <= i < ts.len() ==> #[trigger] ts[i].highlight_type_index < 3
}

/// The syntax highlights each have a color among the first `n`.
pub open spec fn highlights_fit(ts: Seq<TreeSitterHighlight>, n: nat) -> bool {
    forall|i: int| 0 <= i < ts.len() ==> #[trigger] ts[i].highlight_type_index < n
}

/// Whether the syntax highlights each have a color among the first `n`.
pub fn check_highlights_fit(ts: &Vec<TreeSitterHighlight>, n: usize) -> (fit: bool)
    ensures
        fit == highlights_fit(ts@, n as nat),
{
    let mut i: usize = 0;
    while i < ts.len()
        invariant
            0 <= i <= ts@.len(),
            forall|j: int| 0 <= j < i ==> #[trigger] ts@[j].highlight_type_index < n,
        decreases ts@.len() - i,
    {
        if ts[i].highlight_type_index >= n {
            return false;
        }
        i += 1;
    }
    true
}

impl Editor {
    /// The rows can be painted with the current highlight ranges.
    pub open spec fn chunks_computable(&self) -> bool {
        &&& super::highlight::ranges_ordered(self.current_highlight_ranges@)
        &&& self.current_highlight_ranges@.len() < 0x0800_0000
        &&& super::chunks::rows_paintable(
            self.current_file.spec_rope(),
            self.printed_lines@,
            self.current_highlight_ranges@,
        )
    }

    /// The painted rows match the rows and the highlight ranges.
    pub open spec fn chunks_current(&self) -> bool {
        &&& self.printed_line_chunks@.len() == self.printed_lines@.len()
        &&& forall|i: int|
            0 <= i < self.printed_line_chunks@.len() ==> row_painted(
                #[trigger] self.printed_line_chunks@[i],
                self.printed_lines@[i],
                self.current_file.spec_rope(),
                self.current_highlight_ranges@,
            )
    }

    /// The editor as `new` builds it from these arguments.
    pub open spec fn opened_with(
        &self,
        current_file: OpenFile,
        tree_sitter_highlights: Seq<TreeSitterHighlight>,
        initial_terminal_size: Size,
        disallow_folding: bool,
        disallow_ex_command_mode: bool,
    ) -> bool {
        &&& self.wf()
        &&& self.current_file == current_file
        &&& self.initial_terminal_size == initial_terminal_size
        &&& self.cursor_position == (Position { row: 0, column: 0 })
        &&& self.current_file_shift_width == 4
        &&& self.current_file_indents@.len() == self.num_lines()
        &&& forall|i: int|
                0 <= i < self.num_lines() ==> #[trigger] self.current_file_indents@[i] == indent_level(
                    self.lines()[i],
                    4,
                )
        &&& forall|i: int|
                0 <= i < self.folds@.len() ==> crate::fold::fold_matches_indents(
                    #[trigger] self.folds@[i],
                    self.current_file_indents@,
                )
        &&& forall|s: int|
                crate::fold::fold_starts_at(self.current_file_indents@, s) ==> exists|i: int|
                    0 <= i < self.folds@.len() && #[trigger] self.folds@[i].range.start == s
        &&& self.max_folds@.len() == self.folds@.len()
        &&& forall|i: int| 0 <= i < self.folds@.len() ==> #[trigger] self.max_folds@[i]@ == self.folds@[i]@
        &&& self.top_line == if !disallow_folding && self.folds@.len() > 0 && self.folds@[0].range.start == 0 {
            PrintedLine::Fold(0)
        } else {
            PrintedLine::Line(0)
        }
        &&& self.printed_lines@ == self.walk_from(0, initial_terminal_size.height as nat)
        &&& self.current_tree_sitter_highlights@ == tree_sitter_highlights
        &&& self.tree_sitter_highlight_colors@ == seq![
                super::Color::Rgb { r: 47, g: 47, b: 255 },
                super::Color::Rgb { r: 47, g: 47, b: 255 },
                super::Color::Rgb { r: 240, g: 240, b: 0 },
            ]
        &&& self.highlight_range is None
        &&& self.current_highlight_ranges@ == tree_sitter_highlights.map_values(
                |h: TreeSitterHighlight| spec_syntax_range(h, self.tree_sitter_highlight_colors@),
            )
        &&& self.mode == Mode::Normal
        &&& self.sticky_cursor_position_column is None
        &&& self.last_rendered_grid is None
        &&& self.disallow_folding == disallow_folding
        &&& self.disallow_ex_command_mode == disallow_ex_command_mode
        &&& self.chunks_computable() ==> self.chunks_current()
        &&& !self.chunks_computable() ==> self.printed_line_chunks@.len() == 0
    }

    /// An editor for `current_file`: indent levels with a shift width of
    /// four, the folds they give (all closed), the top row at the file's
    /// first line (its fold where one starts there and folding is allowed),
    /// rows for the whole terminal height, the cursor at the top left, no
    /// selection, and the highlight ranges of the syntax highlights. The rows
    /// are painted where they can be (see `check_rows_paintable`), and left
    /// unpainted otherwise.
    pub fn new(
        current_file: OpenFile,
        tree_sitter_highlights: Vec<TreeSitterHighlight>,
        initial_terminal_size: Size,
        disallow_folding: bool,
        disallow_ex_command_mode: bool,
    ) -> (editor: Editor)
        requires
            highlights_colored(tree_sitter_highlights@),
            initial_terminal_size.height >= 3,
            rope_lines(current_file.spec_rope()).len() < usize::MAX,
        ensures
            editor.opened_with(
                current_file,
                tree_sitter_highlights@,
                initial_terminal_size,
                disallow_folding,
                disallow_ex_command_mode,
            ),
            editor.current_tree_sitter_highlights == tree_sitter_highlights,
    {
        let current_file_shift_width: usize = 4;
        let current_file_indents = calculate_indents(current_file.rope(), current_file_shift_width);
        let indents_slice = current_file_indents.as_slice();
        let folds = calculate_folds(indents_slice);
        let ghost ind = current_file_indents@;
        let ghost fs = folds@;
        assert(indents_slice@ == ind);
        let max_folds = duplicate_folds(&folds);
        let ghost n = rope_lines(current_file.spec_rope()).len() as int;
        proof {
            assert forall|i: int| 0 <= i < max_folds@.len() implies fold_wf(#[trigger] max_folds@[i]@, n) by {
                assert(max_folds@[i]@ == folds@[i]@);
            }
            assert forall|i: int, j: int|
                0 <= i < j < max_folds@.len() implies #[trigger] max_folds@[i].range.end
                <= #[trigger] max_folds@[j].range.start by {
                assert(max_folds@[i]@ == folds@[i]@ && max_folds@[j]@ == folds@[j]@);
            }
            lemma_folds_ordered(folds@, n);
        }
        let top_line = if !disallow_folding && folds.len() > 0 && folds[0].range.start == 0 {
            PrintedLine::Fold(0)
        } else {
            PrintedLine::Line(0)
        };
        let num_lines = rope_len_lines(current_file.rope());
        proof {
            crate::text::lemma_lines_of_nonempty(rope_text(current_file.spec_rope()));
        }
        let printed_lines = compute_printed_lines(
            num_lines,
            top_line,
            &folds,
            initial_terminal_size.height,
            disallow_folding,
        );
        proof {
            let h = initial_terminal_size.height as nat;
            super::printed::lemma_walk_len(n, folds@, disallow_folding, 0, h);
            super::printed::lemma_walk_head_nonempty(n, folds@, disallow_folding, 0, h);
            super::printed::lemma_walk_own_height(n, folds@, disallow_folding, 0, h);
        }
        let colors = tree_sitter_highlight_colors();
        let highlight_range: Option<Range> = None;
        let current_highlight_ranges = compute_highlight_ranges(
            tree_sitter_highlights.as_slice(),
            highlight_range,
            colors.as_slice(),
        );
        let printed_line_chunks = if check_rows_paintable(
            &printed_lines,
            current_file.rope(),
            &current_highlight_ranges,
        ) {
            compute_printed_line_chunks(&printed_lines, current_file.rope(), &current_highlight_ranges)
        } else {
            Vec::new()
        };
        let editor = Editor {
            current_file,
            cursor_position: Position { row: 0, column: 0 },
            initial_terminal_size,
            top_line,
            printed_lines,
            printed_line_chunks,
            current_tree_sitter_highlights: tree_sitter_highlights,
            tree_sitter_highlight_colors: colors,
            current_file_shift_width,
            current_file_indents,
            folds,
            max_folds,
            mode: Mode::Normal,
            sticky_cursor_position_column: None,
            last_rendered_grid: None,
            disallow_folding,
            disallow_ex_command_mode,
            highlight_range,
            current_highlight_ranges,
        };
        assert(editor.folds@ == fs);
        assert(editor.current_file_indents@ == ind);
        assert forall|s: int| crate::fold::fold_starts_at(ind, s) implies exists|i: int|
            0 <= i < fs.len() && #[trigger] fs[i].range.start == s by {
            assert(crate::fold::fold_starts_at(indents_slice@, s));
        }
        editor
    }
}

impl Editor {
    /// Opens `current_file` as `new` does, with the syntax highlights of its
    /// text (see `calculate_highlights`); gives nothing where one of them has
    /// no color.
    pub fn with_syntax_highlights(
        current_file: OpenFile,
        initial_terminal_size: Size,
        disallow_folding: bool,
        disallow_ex_command_mode: bool,
    ) -> (editor: Option<Editor>)
        requires
            initial_terminal_size.height >= 3,
            rope_lines(current_file.spec_rope()).len() < usize::MAX,
        ensures
            editor is Some <==> highlights_colored(syntax_highlights(rope_text(current_file.spec_rope()))),
            editor matches Some(e) ==> e.opened_with(
                current_file,
                syntax_highlights(rope_text(current_file.spec_rope())),
                initial_terminal_size,
                disallow_folding,
                disallow_ex_command_mode,
            ),
    {
        let text = rope_to_string(current_file.rope());
        let highlights = calculate_highlights(text.as_str());
        if check_highlights_fit(&highlights, 3) {
            Some(
                Editor::new(
                    current_file,
                    highlights,
                    initial_terminal_size,
                    disallow_folding,
                    disallow_ex_command_mode,
                ),
            )
        } else {
            None
        }
    }
}

/// Every fold ends by line `n`.
fn folds_within(folds: &Vec<Fold>, n: usize) -> (within: bool)
    ensures
        within == forall|i: int| 0 <= i < folds@.len() ==> #[trigger] folds@[i].range.end <= n,
{
    let mut i: usize = 0;
    while i < folds.len()
        invariant
            0 <= i <= folds@.len(),
            forall|j: int| 0 <= j < i ==> #[trigger] folds@[j].range.end <= n,
        decreases folds@.len() - i,
    {
        if folds[i].range.end > n {
            return false;
        }
        i += 1;
    }
    true
}

/// Well-formed folds for `n` lines that end by line `m` are well formed for
/// `m` lines.
proof fn lemma_folds_wf_other_length(folds: Seq<Fold>, n: int, m: int)
    requires
        folds_wf(folds, n),
        forall|i: int| 0 <= i < folds.len() ==> #[trigger] folds[i].range.end <= m,
    ensures
        folds_wf(folds, m),
{
    assert forall|i: int| 0 <= i < folds.len() implies fold_wf(#[trigger] folds[i]@, m) by {
        assert(fold_wf(folds[i]@, n));
        assert(folds[i].range.end <= m);
    }
}

/// Well-formed folds for `m` lines end by line `m`.
proof fn lemma_folds_wf_ends(folds: Seq<Fold>, m: int)
    ensures
        folds_wf(folds, m) ==> forall|i: int| 0 <= i < folds.len() ==> #[trigger] folds[i].range.end <= m,
{
    if folds_wf(folds, m) {
        assert forall|i: int| 0 <= i < folds.len() implies #[trigger] folds[i].range.end <= m by {
            assert(fold_wf(folds[i]@, m));
        }
    }
}

/// The char index of the cursor's position, taking its row as a line of the
/// file.
fn get_char_offset(rope: &Rope, position: Position) -> (offset: usize)
    requires
        position.row <= rope_lines(*rope).len(),
        chars_before_line(rope_lines(*rope), position.row as int).len() + position.column <= usize::MAX,
    ensures
        offset == chars_before_line(rope_lines(*rope), position.row as int).len() + position.column,
{
    let beginning_of_line = rope_line_to_char(rope, position.row as usize);
    beginning_of_line + position.column as usize
}

impl Editor {
    /// Repaints the rows where they can be painted (see `chunks_computable`),
    /// and gives whether it did; otherwise nothing changes.
    pub fn recompute_printed_line_chunks_only(&mut self) -> (painted: bool)
        ensures
            painted == old(self).chunks_computable(),
            painted ==> final(self).chunks_current(),
            *final(self) == (Editor { printed_line_chunks: final(self).printed_line_chunks, ..*old(self) }),
            !painted ==> *final(self) == *old(self),
    {
        if check_rows_paintable(&self.printed_lines, self.current_file.rope(), &self.current_highlight_ranges) {
            self.printed_line_chunks = compute_printed_line_chunks(
                &self.printed_lines,
                self.current_file.rope(),
                &self.current_highlight_ranges,
            );
            true
        } else {
            false
        }
    }

    /// Recomputes the highlight ranges from the syntax highlights and the
    /// selection.
    pub fn recompute_highlight_ranges(&mut self)
        requires
            old(self).wf(),
        ensures
            final(self).highlights_recomputed_from(old(self)),
    {
        self.current_highlight_ranges = compute_highlight_ranges(
            self.current_tree_sitter_highlights.as_slice(),
            self.highlight_range,
            self.tree_sitter_highlight_colors.as_slice(),
        );
    }

    /// Computes the syntax highlights of the current text (see
    /// `calculate_highlights`) and, where each has a color, takes them and
    /// recomputes the highlight ranges; otherwise nothing changes. Gives
    /// whether it took them.
    pub fn recompute_tree_sitter_highlights(&mut self) -> (taken: bool)
        requires
            old(self).wf(),
        ensures
            taken == highlights_fit(
                syntax_highlights(rope_text(old(self).current_file.spec_rope())),
                old(self).tree_sitter_highlight_colors@.len(),
            ),
            taken ==> final(self).current_tree_sitter_highlights@ == syntax_highlights(
                rope_text(old(self).current_file.spec_rope()),
            ),
            taken ==> final(self).highlights_recomputed_from(
                &(Editor { current_tree_sitter_highlights: final(self).current_tree_sitter_highlights, ..*old(self) }),
            ),
            !taken ==> *final(self) == *old(self),
    {
        let text = rope_to_string(self.current_file.rope());
        let highlights = calculate_highlights(text.as_str());
        if !check_highlights_fit(&highlights, self.tree_sitter_highlight_colors.len()) {
            return false;
        }
        self.current_tree_sitter_highlights = highlights;
        self.recompute_highlight_ranges();
        true
    }

    /// Inserting `ch` at the cursor does not panic: the cursor's row, taken
    /// as a line of the file, exists, the position lies within the text, and
    /// the column can grow by one.
    pub open spec fn insert_allowed(&self) -> bool {
        &&& self.cursor_position.row <= self.num_lines()
        &&& chars_before_line(self.lines(), self.cursor_position.row as int).len()
            + self.cursor_position.column <= rope_text(self.current_file.spec_rope()).len()
        &&& self.cursor_position.column < u16::MAX
    }

    /// Inserts `ch` at the char index of the cursor (its row taken as a line
    /// of the file, then its column), moves the cursor one column right and
    /// recomputes the rows where the folds and the top line still lie within
    /// the text. Gives whether the editor's invariant holds afterwards; where
    /// it does, recomputes the syntax highlights of the new text with the
    /// highlight ranges (see `recompute_tree_sitter_highlights`), then the
    /// painted rows (see `recompute_printed_line_chunks_only`).
    pub fn insert_char(&mut self, ch: char) -> (consistent: bool)
        requires
            old(self).wf(),
            old(self).insert_allowed(),
        ensures
            consistent == final(self).wf(),
            final(self).inserted_char_from(old(self), ch),
    {
        let total_chars = rope_len_chars(self.current_file.rope());
        assert(total_chars == rope_text(self.current_file.spec_rope()).len());
        let offset = get_char_offset(self.current_file.rope(), self.cursor_position);
        let rope = self.current_file.rope_mut();
        rope_insert_char(rope, offset, ch);
        self.cursor_position.column = self.cursor_position.column + 1;
        let num_lines = rope_len_lines(self.current_file.rope());
        let ghost old_n = old(self).num_lines();
        if !folds_within(&self.folds, num_lines) || !folds_within(&self.max_folds, num_lines) {
            proof {
                lemma_folds_wf_ends(self.folds@, num_lines as int);
                lemma_folds_wf_ends(self.max_folds@, num_lines as int);
            }
            return false;
        }
        proof {
            lemma_folds_wf_other_length(self.folds@, old_n, num_lines as int);
            lemma_folds_wf_other_length(self.max_folds@, old_n, num_lines as int);
        }
        let top = self.top_line.start_line(&self.folds);
        if top >= num_lines {
            return false;
        }
        self.recompute_printed_lines();
        if (self.cursor_position.row as usize) >= self.printed_lines.len() {
            return false;
        }
        self.recompute_tree_sitter_highlights();
        self.recompute_printed_line_chunks_only();
        true
    }

    /// Ends the ex command: `:q` asks to quit.
    pub fn finish_ex_command(&mut self) -> (happened: Happened)
        requires
            !old(self).disallow_ex_command_mode,
            old(self).mode matches Mode::ExCommand(command) && command@ == "q"@,
        ensures
            happened == Happened::Quit,
            *final(self) == (Editor { mode: Mode::Normal, ..*old(self) }),
    {
        self.mode = Mode::Normal;
        Happened::Quit
    }
}

impl Editor {
    /// Handling the event does not panic (see each handler).
    pub open spec fn event_allowed(&self, event: Event) -> bool {
        match event {
            Event::MoveCursorDownNLines(n) => self.down_allowed(n),
            Event::MoveCursorUpNLines(n) => n == 1 && self.up_allowed(),
            Event::MoveCursorRightNColumns(_) => self.cursor_row_line() is Line && self.row_measurable(
                self.cursor_row_line(),
            ),
            Event::MoveCursorLeftNColumns(_) => self.cursor_row_line() is Line,
            Event::FullyCloseFoldUnderCursor => self.fully_close_allowed(),
            Event::CloseFoldUnderCursorOneLevel => self.close_one_level_allowed(),
            Event::ExCommandChar(_) => self.mode is ExCommand,
            Event::FinishExCommand => !self.disallow_ex_command_mode && (self.mode matches Mode::ExCommand(
                command,
            ) && command@ == "q"@),
            Event::MoveCursorToBeginningOfLine => self.cursor_row_line() is Line,
            Event::MoveCursorToEndOfLine => self.cursor_row_line() is Line && self.row_measurable(
                self.cursor_row_line(),
            ),
            Event::InsertChar(_) => self.insert_allowed(),
            _ => true,
        }
    }

    /// What recomputing the highlight ranges of `old` gives (see
    /// `recompute_highlight_ranges`).
    pub open spec fn highlights_recomputed_from(&self, old: &Editor) -> bool {
        &&& self.wf()
        &&& *self == (Editor { current_highlight_ranges: self.current_highlight_ranges, ..*old })
        &&& old.highlight_range is None ==> self.current_highlight_ranges@
            == old.current_tree_sitter_highlights@.map_values(
            |h: TreeSitterHighlight| spec_syntax_range(h, old.tree_sitter_highlight_colors@),
        )
        &&& (old.highlight_range matches Some(r) && r.start <= r.end
            && super::highlight::highlights_ordered(old.current_tree_sitter_highlights@))
            ==> super::highlight::ranges_ordered(self.current_highlight_ranges@)
            && super::highlight::overlay_correct(
            self.current_highlight_ranges@,
            old.current_tree_sitter_highlights@,
            old.highlight_range,
            old.tree_sitter_highlight_colors@,
        )
        &&& (old.highlight_range matches Some(r) && r.start < r.end
            && super::highlight::highlights_ordered(old.current_tree_sitter_highlights@)
            && super::highlight::highlights_nonempty(old.current_tree_sitter_highlights@))
            ==> super::highlight::pieces_between_boundaries(
            self.current_highlight_ranges@,
            old.current_tree_sitter_highlights@,
            old.highlight_range->0,
        )
    }

    /// What inserting `ch` at the cursor of `old` gives (see `insert_char`),
    /// the editor's invariant aside.
    pub open spec fn inserted_char_from(&self, old: &Editor, ch: char) -> bool {
        let new_highlights = syntax_highlights(rope_text(self.current_file.spec_rope()));
        &&& rope_text(self.current_file.spec_rope()) == rope_text(old.current_file.spec_rope()).insert(
            chars_before_line(old.lines(), old.cursor_position.row as int).len()
                + old.cursor_position.column,
            ch,
        )
        &&& (self.current_file is Anonymous) == (old.current_file is Anonymous)
        &&& self.cursor_position == (Position {
            row: old.cursor_position.row,
            column: (old.cursor_position.column + 1) as u16,
        })
        &&& *self == (Editor {
            current_file: self.current_file,
            cursor_position: self.cursor_position,
            printed_lines: self.printed_lines,
            current_tree_sitter_highlights: self.current_tree_sitter_highlights,
            current_highlight_ranges: self.current_highlight_ranges,
            printed_line_chunks: self.printed_line_chunks,
            ..*old
        })
        &&& self.wf_base() ==> self.printed_lines@ == self.walk_from(
            self.top_start(),
            self.grid_height() as nat,
        )
        &&& !self.wf_base() ==> self.printed_lines == old.printed_lines
        &&& (!self.wf() || !highlights_fit(new_highlights, old.tree_sitter_highlight_colors@.len()))
            ==> self.current_tree_sitter_highlights == old.current_tree_sitter_highlights
            && self.current_highlight_ranges == old.current_highlight_ranges
        &&& (self.wf() && highlights_fit(new_highlights, old.tree_sitter_highlight_colors@.len()))
            ==> self.current_tree_sitter_highlights@ == new_highlights
            && (Editor { printed_line_chunks: old.printed_line_chunks, ..*self }).highlights_recomputed_from(
            &(Editor {
                current_tree_sitter_highlights: self.current_tree_sitter_highlights,
                current_highlight_ranges: old.current_highlight_ranges,
                printed_line_chunks: old.printed_line_chunks,
                ..*self
            }),
        )
        &&& !self.wf() ==> self.printed_line_chunks == old.printed_line_chunks
        &&& (self.wf() && self.chunks_computable()) ==> self.chunks_current()
        &&& (self.wf() && !self.chunks_computable()) ==> self.printed_line_chunks == old.printed_line_chunks
    }

    /// What moving the cursor `n` columns right gives: it stops at the last
    /// column of its line and, where it moved, remembers its column.
    pub open spec fn moved_right_from(&self, old: &Editor, n: u16) -> bool {
        let max = super::movement::spec_max_column(old.lines()[old.cursor_row_line()->Line_0 as int]);
        let c0 = old.cursor_position.column;
        &&& self.wf()
        &&& self.same_content(old)
        &&& self.top_line == old.top_line
        &&& self.printed_lines == old.printed_lines
        &&& self.cursor_position.row == old.cursor_position.row
        &&& if n > 0 && c0 < max {
            &&& self.cursor_position.column == min(c0 + n, max)
            &&& self.sticky_cursor_position_column == Some(self.cursor_position.column)
        } else {
            &&& self.cursor_position.column == c0
            &&& self.sticky_cursor_position_column == old.sticky_cursor_position_column
        }
    }

    /// What moving the cursor `n` columns left gives: it stops at the first
    /// column and, where it moved, remembers its column.
    pub open spec fn moved_left_from(&self, old: &Editor, n: u16) -> bool {
        let c0 = old.cursor_position.column;
        &&& self.wf()
        &&& self.same_content(old)
        &&& self.top_line == old.top_line
        &&& self.printed_lines == old.printed_lines
        &&& self.cursor_position.row == old.cursor_position.row
        &&& if n > 0 && c0 > 0 {
            &&& self.cursor_position.column == (if c0 > n {
                c0 - n
            } else {
                0
            })
            &&& self.sticky_cursor_position_column == Some(self.cursor_position.column)
        } else {
            &&& self.cursor_position.column == c0
            &&& self.sticky_cursor_position_column == old.sticky_cursor_position_column
        }
    }

    /// Whether a character can be inserted at the cursor (see
    /// `insert_allowed`).
    pub fn can_insert_char(&self) -> (ok: bool)
        ensures
            ok == self.insert_allowed(),
    {
        let rope = self.current_file.rope();
        let num_lines = rope_len_lines(rope);
        let row = self.cursor_position.row as usize;
        if row > num_lines {
            return false;
        }
        let start = rope_line_to_char(rope, row);
        let total = rope_len_chars(rope);
        start <= total && self.cursor_position.column as usize <= total - start
            && self.cursor_position.column < 0xFFFF
    }

    /// Whether `receive` can take the event now (see `event_allowed`).
    pub fn can_receive(&self, event: Event) -> (ok: bool)
        requires
            self.wf(),
        ensures
            ok == self.event_allowed(event),
    {
        let row = self.cursor_position.row as usize;
        proof {
            self.lemma_row(row as int);
        }
        let on_line = match self.printed_lines[row] {
            PrintedLine::Line(_) => true,
            PrintedLine::Fold(_) => false,
        };
        match event {
            Event::MoveCursorDownNLines(n) => self.can_move_cursor_down_n_lines(n),
            Event::MoveCursorUpNLines(n) => n == 1 && self.can_move_cursor_up_one_line(),
            Event::MoveCursorRightNColumns(_) | Event::MoveCursorToEndOfLine => on_line
                && self.row_is_measurable(&self.printed_lines[row]),
            Event::MoveCursorLeftNColumns(_) | Event::MoveCursorToBeginningOfLine => on_line,
            Event::FullyCloseFoldUnderCursor => self.can_fully_close_fold_under_cursor(),
            Event::CloseFoldUnderCursorOneLevel => self.can_close_fold_under_cursor_one_level(),
            Event::ExCommandChar(_) => match self.mode {
                Mode::ExCommand(_) => true,
                _ => false,
            },
            Event::FinishExCommand => {
                proof {
                    reveal_strlit("q");
                }
                !self.disallow_ex_command_mode && match &self.mode {
                    Mode::ExCommand(command) => str_equal(command.as_str(), "q"),
                    _ => false,
                }
            },
            Event::InsertChar(_) => self.can_insert_char(),
            _ => true,
        }
    }

    /// Handles one event. Motions and fold commands go to their handlers;
    /// mode changes set the mode (leaving insert mode steps back onto the
    /// last character typed); a typed ex-command character grows the
    /// command; finishing the ex command `:q` gives `Quit`; a typed
    /// character is inserted; a selected range is highlighted. The rows are
    /// not repainted (see `recompute_printed_line_chunks_only`).
    pub fn receive(&mut self, event: Event) -> (happened: Option<Happened>)
        requires
            old(self).wf(),
            old(self).event_allowed(event),
        ensures
            happened == (if event is FinishExCommand {
                Some(Happened::Quit)
            } else {
                None::<Happened>
            }),
            !(event is InsertChar) ==> final(self).wf(),
            match event {
                Event::MoveCursorDownNLines(n) => final(self).moved_down_from(old(self), n),
                Event::MoveCursorUpNLines(_) => final(self).moved_up_from(old(self)),
                Event::MoveCursorRightNColumns(n) => final(self).moved_right_from(old(self), n),
                Event::MoveCursorLeftNColumns(n) => final(self).moved_left_from(old(self), n),
                Event::MoveCursorToBeginningOfLine => final(self).moved_to_line_start_from(old(self)),
                Event::MoveCursorToEndOfLine => final(self).moved_to_line_end_from(old(self)),
                Event::FullyOpenFoldUnderCursor => final(self).fully_opened_from(old(self)),
                Event::OpenFoldUnderCursorOneLevel => final(self).opened_one_level_from(old(self)),
                Event::FullyCloseFoldUnderCursor => final(self).fully_closed_from(old(self)),
                Event::CloseFoldUnderCursorOneLevel => final(self).closed_one_level_from(old(self)),
                Event::GoIntoNormalMode => *final(self) == (Editor {
                    mode: Mode::Normal,
                    cursor_position: if old(self).mode is Insert && old(self).cursor_position.column > 0 {
                        Position {
                            row: old(self).cursor_position.row,
                            column: (old(self).cursor_position.column - 1) as u16,
                        }
                    } else {
                        old(self).cursor_position
                    },
                    ..*old(self)
                }),
                Event::GoIntoExCommandMode => *final(self) == (Editor { mode: final(self).mode, ..*old(self) })
                    && (final(self).mode matches Mode::ExCommand(command) && command@.len() == 0),
                Event::ExCommandChar(c) => *final(self) == (Editor { mode: final(self).mode, ..*old(self) })
                    && (final(self).mode matches Mode::ExCommand(command) && (old(self).mode matches Mode::ExCommand(
                    before,
                ) && command@ == before@.push(c))),
                Event::FinishExCommand => *final(self) == (Editor { mode: Mode::Normal, ..*old(self) }),
                Event::GoIntoInsertMode => *final(self) == (Editor { mode: Mode::Insert, ..*old(self) }),
                Event::InsertChar(ch) => final(self).inserted_char_from(old(self), ch),
                Event::HighlightRange(r) => final(self).highlights_recomputed_from(
                    &(Editor { highlight_range: Some(r), ..*old(self) }),
                ),
            },
    {
        match event {
            Event::MoveCursorDownNLines(n) => {
                self.maybe_move_cursor_down_n_lines(n);
                None
            },
            Event::MoveCursorUpNLines(_) => {
                self.maybe_move_cursor_up_one_line();
                None
            },
            Event::MoveCursorRightNColumns(n) => {
                let ghost start = *self;
                let ghost max = super::movement::spec_max_column(
                    start.lines()[start.cursor_row_line()->Line_0 as int],
                );
                let ghost c0 = start.cursor_position.column;
                let mut i: u16 = 0;
                while i < n
                    invariant
                        self.wf(),
                        self.same_content(&start),
                        self.top_line == start.top_line,
                        self.printed_lines == start.printed_lines,
                        self.cursor_position.row == start.cursor_position.row,
                        start.cursor_row_line() is Line,
                        start.row_measurable(start.cursor_row_line()),
                        self.mode == start.mode,
                        max == super::movement::spec_max_column(
                            start.lines()[start.cursor_row_line()->Line_0 as int],
                        ),
                        c0 == start.cursor_position.column,
                        i <= n,
                        if i > 0 && c0 < max {
                            &&& self.cursor_position.column == min(c0 + i, max)
                            &&& self.sticky_cursor_position_column == Some(self.cursor_position.column)
                        } else {
                            &&& self.cursor_position.column == c0
                            &&& self.sticky_cursor_position_column == start.sticky_cursor_position_column
                        },
                    decreases n - i,
                {
                    self.maybe_move_cursor_right_one_column();
                    i += 1;
                }
                None
            },
            Event::MoveCursorLeftNColumns(n) => {
                let ghost start = *self;
                let ghost c0 = start.cursor_position.column;
                let mut i: u16 = 0;
                while i < n
                    invariant
                        self.wf(),
                        self.same_content(&start),
                        self.top_line == start.top_line,
                        self.printed_lines == start.printed_lines,
                        self.cursor_position.row == start.cursor_position.row,
                        start.cursor_row_line() is Line,
                        self.mode == start.mode,
                        c0 == start.cursor_position.column,
                        i <= n,
                        if i > 0 && c0 > 0 {
                            &&& self.cursor_position.column == (if c0 > i {
                                c0 - i
                            } else {
                                0
                            })
                            &&& self.sticky_cursor_position_column == Some(self.cursor_position.column)
                        } else {
                            &&& self.cursor_position.column == c0
                            &&& self.sticky_cursor_position_column == start.sticky_cursor_position_column
                        },
                    decreases n - i,
                {
                    self.maybe_move_cursor_left_one_column();
                    i += 1;
                }
                None
            },
            Event::FullyOpenFoldUnderCursor => {
                self.fully_open_fold_under_cursor();
                None
            },
            Event::OpenFoldUnderCursorOneLevel => {
                self.open_fold_under_cursor_one_level();
                None
            },
            Event::FullyCloseFoldUnderCursor => {
                self.fully_close_fold_under_cursor();
                None
            },
            Event::CloseFoldUnderCursorOneLevel => {
                self.close_fold_under_cursor_one_level();
                None
            },
            Event::GoIntoNormalMode => {
                let inserting = match self.mode {
                    Mode::Insert => true,
                    _ => false,
                };
                if inserting && self.cursor_position.column > 0 {
                    self.cursor_position.column = self.cursor_position.column - 1;
                }
                self.mode = Mode::Normal;
                None
            },
            Event::GoIntoExCommandMode => {
                self.mode = Mode::ExCommand(String::new());
                None
            },
            Event::ExCommandChar(ch) => {
                string_push(self.mode.as_ex_command_mut(), ch);
                None
            },
            Event::FinishExCommand => Some(self.finish_ex_command()),
            Event::MoveCursorToBeginningOfLine => {
                self.move_cursor_to_beginning_of_line();
                None
            },
            Event::MoveCursorToEndOfLine => {
                self.move_cursor_to_end_of_line();
                None
            },
            Event::GoIntoInsertMode => {
                self.mode = Mode::Insert;
                None
            },
            Event::InsertChar(ch) => {
                let _ = self.insert_char(ch);
                None
            },
            Event::HighlightRange(range) => {
                self.highlight_range = Some(range);
                self.recompute_highlight_ranges();
                None
            },
        }
    }
}

impl Editor {
    /// Recomputes the indent level of each line with the file's shift width.
    pub fn set_current_file_indents(&mut self)
        requires
            old(self).current_file_shift_width > 0,
        ensures
            final(self).current_file_indents@.len() == old(self).num_lines(),
            forall|i: int|
                0 <= i < old(self).num_lines() ==> #[trigger] final(self).current_file_indents@[i]
                    == indent_level(old(self).lines()[i], old(self).current_file_shift_width as nat),
            *final(self) == (Editor { current_file_indents: final(self).current_file_indents, ..*old(self) }),
    {
        self.current_file_indents = calculate_indents(self.current_file.rope(), self.current_file_shift_width);
    }

    /// Computes the folds from the indent levels, all closed, and keeps a copy
    /// as the largest folds. The rows are not recomputed.
    pub fn apply_initial_folds(&mut self)
        requires
            old(self).current_file_indents@.len() < usize::MAX,
        ensures
            folds_wf(final(self).folds@, old(self).current_file_indents@.len() as int),
            forall|i: int|
                0 <= i < final(self).folds@.len() ==> crate::fold::fold_matches_indents(
                    #[trigger] final(self).folds@[i],
                    old(self).current_file_indents@,
                ),
            forall|s: int|
                crate::fold::fold_starts_at(old(self).current_file_indents@, s) ==> exists|i: int|
                    0 <= i < final(self).folds@.len() && #[trigger] final(self).folds@[i].range.start == s,
            final(self).max_folds@.len() == final(self).folds@.len(),
            forall|i: int|
                0 <= i < final(self).folds@.len() ==> #[trigger] final(self).max_folds@[i]@ == final(self).folds@[i]@,
            *final(self) == (Editor {
                folds: final(self).folds,
                max_folds: final(self).max_folds,
                ..*old(self)
            }),
    {
        let folds = calculate_folds(self.current_file_indents.as_slice());
        self.max_folds = duplicate_folds(&folds);
        self.folds = folds;
    }
}

} // verus!
