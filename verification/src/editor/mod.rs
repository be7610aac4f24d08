use vstd::prelude::*;

use ropey::Rope;
use std::path::PathBuf;

use crate::fold::{folds_wf, Fold};
use crate::indent::IndentLevel;
use crate::text::{rope_lines, rope_text};
use crate::tree_sitter::TreeSitterHighlight;

pub mod highlight;
pub mod printed;
pub mod chunks;
pub mod movement;
pub mod folding;
pub mod aggregate;
pub mod view;
pub mod fold_line;
pub mod events;

pub use printed::PrintedLine;

verus! {

#[verifier::external_type_specification]
#[verifier::external_body]
pub struct ExPathBuf(PathBuf);

/// A row or column of the terminal.
pub type RowOrColumnNumber = u16;

/// A byte offset into the file's text.
pub type Offset = usize;

/// A half-open range of byte offsets `[start, end)`.
#[derive(Clone, Copy, Debug, PartialEq, Eq, Structural)]
pub struct Range {
    pub start: Offset,
    pub end: Offset,
}

/// A cursor position on the file area of the screen.
#[derive(Clone, Copy, Debug, PartialEq, Eq, Structural)]
pub struct Position {
    pub row: RowOrColumnNumber,
    pub column: RowOrColumnNumber,
}

/// A size on the terminal, in rows and columns.
#[derive(Clone, Copy, Debug, PartialEq, Eq, Structural)]
pub struct Size {
    pub height: RowOrColumnNumber,
    pub width: RowOrColumnNumber,
}

/// The colors the editor paints with.
#[derive(Clone, Copy, Debug, PartialEq, Eq, Structural)]
pub enum Color {
    Rgb { r: u8, g: u8, b: u8 },
    AnsiValue(u8),
}

/// How a span of text is painted.
#[derive(Clone, Copy, Debug, PartialEq, Eq, Structural)]
pub struct Style {
    pub foreground_color: Option<Color>,
    pub background_color: Option<Color>,
}

/// A span of the file's text together with the style it is painted in.
#[derive(Clone, Copy, Debug, PartialEq, Eq, Structural)]
pub struct HighlightRange {
    pub range: Range,
    pub style: Style,
}

/// A file held in memory, with or without a path on disk.
pub enum OpenFile {
    Anonymous(OpenFileAnonymous),
    Named(OpenFileNamed),
}

/// A file with no path.
pub struct OpenFileAnonymous {
    pub rope: Rope,
}

/// A file read from a path.
pub struct OpenFileNamed {
    pub rope: Rope,
    pub path: PathBuf,
}

impl OpenFile {
    /// The text of the file.
    pub open spec fn spec_rope(&self) -> Rope {
        match self {
            OpenFile::Anonymous(file) => file.rope,
            OpenFile::Named(file) => file.rope,
        }
    }

    /// The text of the file.
    pub fn rope(&self) -> (rope: &Rope)
        ensures
            *rope == self.spec_rope(),
    {
        match self {
            OpenFile::Anonymous(file) => &file.rope,
            OpenFile::Named(file) => &file.rope,
        }
    }

    /// The text of the file, for editing.
    pub fn rope_mut(&mut self) -> (rope: &mut Rope)
        ensures
            *rope == old(self).spec_rope(),
            final(self).spec_rope() == *final(rope),
            (*old(self) is Anonymous) == (*final(self) is Anonymous),
    {
        match self {
            OpenFile::Anonymous(file) => &mut file.rope,
            OpenFile::Named(file) => &mut file.rope,
        }
    }
}

impl Default for OpenFile {
    /// An anonymous, empty file.
    fn default() -> (file: OpenFile)
        ensures
            file is Anonymous,
            rope_text(file.spec_rope()) == Seq::<char>::empty(),
    {
        OpenFile::Anonymous(OpenFileAnonymous { rope: crate::text::rope_new() })
    }
}

/// What the editor is doing with keystrokes.
#[derive(Debug, PartialEq, Eq)]
pub enum Mode {
    Normal,
    ExCommand(String),
    Insert,
}

impl Mode {
    /// The ex command typed so far; only meaningful in ex-command mode.
    pub fn as_ex_command(&self) -> (command: &str)
        requires
            self is ExCommand,
        ensures
            command@ == self->ExCommand_0@,
    {
        match self {
            Mode::ExCommand(command) => command.as_str(),
            _ => vstd::pervasive::unreached(),
        }
    }

    /// The ex command typed so far, for appending to it.
    pub fn as_ex_command_mut(&mut self) -> (command: &mut String)
        requires
            *old(self) is ExCommand,
        ensures
            *command == old(self)->ExCommand_0,
            *final(self) == Mode::ExCommand(*final(command)),
    {
        match self {
            Mode::ExCommand(command) => command,
            _ => vstd::pervasive::unreached(),
        }
    }
}

/// What the editor asks the world around it to do.
#[derive(Clone, Copy, Debug, PartialEq, Eq, Structural)]
pub enum Happened {
    Quit,
}

/// What the editor is asked to do.
#[derive(Clone, Copy, Debug, PartialEq, Eq, Structural)]
pub enum Event {
    MoveCursorDownNLines(u16),
    MoveCursorUpNLines(u16),
    MoveCursorRightNColumns(u16),
    MoveCursorLeftNColumns(u16),
    FullyOpenFoldUnderCursor,
    OpenFoldUnderCursorOneLevel,
    FullyCloseFoldUnderCursor,
    CloseFoldUnderCursorOneLevel,
    GoIntoNormalMode,
    GoIntoExCommandMode,
    ExCommandChar(char),
    FinishExCommand,
    MoveCursorToBeginningOfLine,
    MoveCursorToEndOfLine,
    GoIntoInsertMode,
    InsertChar(char),
    HighlightRange(Range),
}

/// Whether handling the event changes the file's contents (or leaves it).
pub open spec fn spec_is_file_contents_mutating(e: Event) -> bool {
    e is InsertChar || e is FinishExCommand
}

impl Event {
    /// Whether handling the event changes the file's contents (or leaves it).
    pub fn is_file_contents_mutating(&self) -> (mutating: bool)
        ensures
            mutating == spec_is_file_contents_mutating(*self),
    {
        match self {
            Event::MoveCursorDownNLines(_)
            | Event::MoveCursorUpNLines(_)
            | Event::MoveCursorRightNColumns(_)
            | Event::MoveCursorLeftNColumns(_)
            | Event::FullyOpenFoldUnderCursor
            | Event::OpenFoldUnderCursorOneLevel
            | Event::FullyCloseFoldUnderCursor
            | Event::CloseFoldUnderCursorOneLevel
            | Event::GoIntoNormalMode
            | Event::GoIntoExCommandMode
            | Event::ExCommandChar(_)
            | Event::MoveCursorToBeginningOfLine
            | Event::MoveCursorToEndOfLine
            | Event::GoIntoInsertMode
            | Event::HighlightRange(_) => false,
            Event::InsertChar(_) | Event::FinishExCommand => true,
        }
    }
}


/// How many columns `num` takes when printed in decimal (up to five).
pub open spec fn spec_num_columns_taken_up(num: int) -> int {
    if num >= 10000 {
        5
    } else if num >= 1000 {
        4
    } else if num >= 100 {
        3
    } else if num >= 10 {
        2
    } else {
        1
    }
}

/// How many columns `num` takes when printed in decimal; five or more digits
/// count as five.
pub fn num_columns_taken_up(num: usize) -> (columns: RowOrColumnNumber)
    ensures
        columns == spec_num_columns_taken_up(num as int),
{
    if num >= 10000 {
        5
    } else if num >= 1000 {
        4
    } else if num >= 100 {
        3
    } else if num >= 10 {
        2
    } else {
        1
    }
}

/// The dark blue of comments and fold lines.
pub fn dark_blue() -> (c: Color)
    ensures
        c == (Color::Rgb { r: 47, g: 47, b: 255 }),
{
    Color::Rgb { r: 47, g: 47, b: 255 }
}

/// The yellow of string literals.
pub fn yellow() -> (c: Color)
    ensures
        c == (Color::Rgb { r: 240, g: 240, b: 0 }),
{
    Color::Rgb { r: 240, g: 240, b: 0 }
}

/// The colors of the three highlight patterns: line comments, block
/// comments, string literals.
pub fn tree_sitter_highlight_colors() -> (colors: Vec<Color>)
    ensures
        colors@ == seq![
            Color::Rgb { r: 47, g: 47, b: 255 },
            Color::Rgb { r: 47, g: 47, b: 255 },
            Color::Rgb { r: 240, g: 240, b: 0 },
        ],
{
    let mut colors: Vec<Color> = Vec::new();
    colors.push(dark_blue());
    colors.push(dark_blue());
    colors.push(yellow());
    colors
}

/// The editor's state: the file, what part of it the screen shows, the
/// cursor, the folds and the highlighting.
pub struct Editor {
    pub current_file: OpenFile,
    /// position on file-contents part of screen "grid",
    /// not in terms of file line # or actual terminal cursor
    /// position
    pub cursor_position: Position,
    pub initial_terminal_size: Size,
    pub top_line: PrintedLine,
    pub printed_lines: Vec<PrintedLine>,
    pub printed_line_chunks: Vec<chunks::PrintedLineChunks>,
    pub current_tree_sitter_highlights: Vec<TreeSitterHighlight>,
    pub tree_sitter_highlight_colors: Vec<Color>,
    pub current_file_shift_width: usize,
    pub current_file_indents: Vec<IndentLevel>,
    pub folds: Vec<Fold>,
    pub max_folds: Vec<Fold>,
    pub mode: Mode,
    pub sticky_cursor_position_column: Option<RowOrColumnNumber>,
    pub last_rendered_grid: Option<Size>,
    pub disallow_folding: bool,
    pub disallow_ex_command_mode: bool,
    pub highlight_range: Option<Range>,
    pub current_highlight_ranges: Vec<HighlightRange>,
}

impl Editor {
    /// The lines of the file.
    pub open spec fn lines(&self) -> Seq<Seq<char>> {
        rope_lines(self.current_file.spec_rope())
    }

    /// The number of lines of the file.
    pub open spec fn num_lines(&self) -> int {
        self.lines().len() as int
    }

    /// The size last rendered at, or the terminal's initial size.
    pub open spec fn spec_size(&self) -> Size {
        match self.last_rendered_grid {
            Some(grid) => grid,
            None => self.initial_terminal_size,
        }
    }

    /// The number of rows of the file area: the screen less the status rows.
    pub open spec fn grid_height(&self) -> int {
        self.spec_size().height - 2
    }

    /// The first file line the top row shows.
    pub open spec fn top_start(&self) -> int {
        printed::spec_start_line(self.top_line, self.folds@)
    }

    /// The rows of the file area from file line `start` on, `height` at most.
    pub open spec fn walk_from(&self, start: int, height: nat) -> Seq<PrintedLine> {
        printed::printed_walk(self.num_lines(), self.folds@, self.disallow_folding, start, height)
    }

    /// The row the cursor is on.
    pub open spec fn cursor_row_line(&self) -> PrintedLine {
        self.printed_lines@[self.cursor_position.row as int]
    }

    /// The part of the editor's invariant that concerns neither the rows nor
    /// the top line: the folds are well formed, the screen has room for at
    /// least one row of the file, and every highlight has a color.
    pub open spec fn wf_content(&self) -> bool {
        &&& self.num_lines() <= usize::MAX
        &&& folds_wf(self.folds@, self.num_lines())
        &&& folds_wf(self.max_folds@, self.num_lines())
        &&& self.initial_terminal_size.height >= 3
        &&& (self.last_rendered_grid matches Some(grid) ==> grid.height >= 3)
        &&& forall|i: int|
            0 <= i < self.current_tree_sitter_highlights@.len()
                ==> #[trigger] self.current_tree_sitter_highlights@[i].highlight_type_index
                < self.tree_sitter_highlight_colors@.len()
    }

    /// The part of the editor's invariant that does not concern the rows:
    /// `wf_content`, and the top line is in the file.
    pub open spec fn wf_base(&self) -> bool {
        &&& self.wf_content()
        &&& printed::printed_line_valid(self.top_line, self.folds@)
        &&& self.top_start() < self.num_lines()
    }

    /// The editor's invariant: `wf_base`, the rows shown are the walk from the
    /// top line, and the cursor is on one of them.
    pub open spec fn wf(&self) -> bool {
        &&& self.wf_base()
        &&& self.printed_lines@ == self.walk_from(self.top_start(), self.printed_lines@.len())
        &&& 1 <= self.printed_lines@.len() <= RowOrColumnNumber::MAX
        &&& self.cursor_position.row < self.printed_lines@.len()
    }

    /// The size last rendered at, or the terminal's initial size.
    pub fn size(&self) -> (size: Size)
        ensures
            size == self.spec_size(),
    {
        match self.last_rendered_grid {
            Some(grid) => grid,
            None => self.initial_terminal_size,
        }
    }

    /// The size of the file area: the screen less the two status rows.
    pub fn file_editor_grid_size(&self) -> (size: Size)
        requires
            self.spec_size().height >= 2,
        ensures
            size.height == self.grid_height(),
            size.width == self.spec_size().width,
    {
        let size = self.size();
        Size { height: size.height - 2, width: size.width }
    }

    /// One past the last file line a row shows.
    pub fn one_past_printed_line_line_number(&self, printed_line: &PrintedLine) -> (line: usize)
        requires
            printed::printed_line_valid(*printed_line, self.folds@),
            printed::spec_start_line(*printed_line, self.folds@) < self.num_lines(),
            self.num_lines() <= usize::MAX,
        ensures
            line == printed::spec_one_past_line(*printed_line, self.folds@),
    {
        match printed_line {
            PrintedLine::Fold(fold_index) => self.folds[*fold_index].range.end,
            PrintedLine::Line(line) => line + 1,
        }
    }
}

} // verus!
