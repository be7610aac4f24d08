use vstd::prelude::*;

use super::{num_columns_taken_up, spec_num_columns_taken_up, Color, Editor, RowOrColumnNumber};
use crate::text::rope_len_lines;
use crate::text_util::{decimal, decimal_string, lemma_decimal_len, push_spaces, push_str};
use crate::LineNumber;

verus! {

/// What the number column shows on a row: the distance to the cursor's row,
/// or, on the cursor's row, the line number.
#[derive(Clone, Copy, Debug, PartialEq, Eq, Structural)]
pub enum RelativeOrCurrentLineNum {
    Relative(u16),
    Current(LineNumber),
}

/// The number column of a row.
#[derive(Clone, Copy, Debug, PartialEq, Eq, Structural)]
pub struct RelativeLineNumber {
    pub num_columns: u16,
    pub relative_or_current_line_num: RelativeOrCurrentLineNum,
}

/// `n` spaces.
pub open spec fn spaces(n: nat) -> Seq<char> {
    Seq::new(n, |i: int| ' ')
}

/// The text of a number column `num_columns` wide: the line number (one
/// more than the zero-based one) followed by spaces on the cursor's row, and
/// the distance to the cursor's row after spaces on the others.
pub open spec fn spec_relative_line_number_text(r: RelativeLineNumber) -> Seq<char> {
    match r.relative_or_current_line_num {
        RelativeOrCurrentLineNum::Current(line_num) => {
            let shown = line_num + 1;
            decimal(shown as nat) + spaces((r.num_columns - spec_num_columns_taken_up(shown)) as nat)
        },
        RelativeOrCurrentLineNum::Relative(relative) => spaces(
            (r.num_columns - spec_num_columns_taken_up(relative as int)) as nat,
        ) + decimal(relative as nat),
    }
}

/// The number column fits the number: it has at least as many columns as
/// the number takes (five at most).
pub open spec fn relative_line_number_fits(r: RelativeLineNumber) -> bool {
    match r.relative_or_current_line_num {
        RelativeOrCurrentLineNum::Current(line_num) => line_num < usize::MAX && spec_num_columns_taken_up(
            line_num + 1,
        ) <= r.num_columns,
        RelativeOrCurrentLineNum::Relative(relative) => spec_num_columns_taken_up(relative as int)
            <= r.num_columns,
    }
}

/// The number column is exactly as wide as it is told to be, for any number
/// it fits that has fewer than six digits.
pub proof fn law_number_column_width(r: RelativeLineNumber)
    requires
        relative_line_number_fits(r),
        match r.relative_or_current_line_num {
            RelativeOrCurrentLineNum::Current(line_num) => line_num + 1 < 100000,
            RelativeOrCurrentLineNum::Relative(relative) => relative < 100000,
        },
    ensures
        spec_relative_line_number_text(r).len() == r.num_columns,
{
    match r.relative_or_current_line_num {
        RelativeOrCurrentLineNum::Current(line_num) => lemma_decimal_len((line_num + 1) as nat),
        RelativeOrCurrentLineNum::Relative(relative) => lemma_decimal_len(relative as nat),
    }
}

impl RelativeLineNumber {
    pub fn new(num_columns: u16, relative_or_current_line_num: RelativeOrCurrentLineNum) -> (r: Self)
        ensures
            r.num_columns == num_columns,
            r.relative_or_current_line_num == relative_or_current_line_num,
    {
        RelativeLineNumber { num_columns, relative_or_current_line_num }
    }

    /// The gray the number column is painted in.
    pub fn color() -> (c: Color)
        ensures
            c == (Color::Rgb { r: 122, g: 122, b: 122 }),
    {
        Color::Rgb { r: 122, g: 122, b: 122 }
    }

    /// The text of the number column (see `spec_relative_line_number_text`).
    pub fn text(&self) -> (text: String)
        requires
            relative_line_number_fits(*self),
        ensures
            text@ == spec_relative_line_number_text(*self),
    {
        match self.relative_or_current_line_num {
            RelativeOrCurrentLineNum::Current(line_num) => {
                let line_num_to_show = line_num + 1;
                let taken = num_columns_taken_up(line_num_to_show);
                let num_remaining_columns = self.num_columns - taken;
                let mut text = decimal_string(line_num_to_show);
                push_spaces(&mut text, num_remaining_columns as usize);
                text
            },
            RelativeOrCurrentLineNum::Relative(relative_line_num) => {
                let taken = num_columns_taken_up(relative_line_num as usize);
                let num_remaining_columns = self.num_columns - taken;
                let mut text = String::new();
                push_spaces(&mut text, num_remaining_columns as usize);
                let number = decimal_string(relative_line_num as usize);
                push_str(&mut text, number.as_str());
                proof {
                    assert(text@ =~= spec_relative_line_number_text(*self));
                }
                text
            },
        }
    }
}

/// What the number column of printed row `printed_row` shows, with the cursor
/// on row `cursor_row` and the row starting at file line `line_num`.
pub fn row_line_number(cursor_row: u16, printed_row: u16, line_num: LineNumber) -> (shown: RelativeOrCurrentLineNum)
    ensures
        shown == if cursor_row == printed_row {
            RelativeOrCurrentLineNum::Current(line_num)
        } else if cursor_row > printed_row {
            RelativeOrCurrentLineNum::Relative((cursor_row - printed_row) as u16)
        } else {
            RelativeOrCurrentLineNum::Relative((printed_row - cursor_row) as u16)
        },
{
    if cursor_row == printed_row {
        RelativeOrCurrentLineNum::Current(line_num)
    } else if cursor_row > printed_row {
        RelativeOrCurrentLineNum::Relative(cursor_row - printed_row)
    } else {
        RelativeOrCurrentLineNum::Relative(printed_row - cursor_row)
    }
}

/// The status line: the file's name, how far down the cursor is, the number
/// of lines and the cursor's column.
pub struct StatusLine<'a> {
    pub percent: u32,
    pub file_name: Option<&'a str>,
    pub num_lines: LineNumber,
    pub column: RowOrColumnNumber,
}

/// The text of the status line: `name [percent%] lines lines |column`, with
/// `[No Name]` for a file without one.
pub open spec fn spec_status_line_text(
    percent: u32,
    file_name: Option<Seq<char>>,
    num_lines: LineNumber,
    column: RowOrColumnNumber,
) -> Seq<char> {
    let name = match file_name {
        Some(n) => n,
        None => "[No Name]"@,
    };
    name + " ["@ + decimal(percent as nat) + "%] "@ + decimal(num_lines as nat) + " lines |"@ + decimal(
        column as nat,
    )
}

impl<'a> StatusLine<'a> {
    pub fn new(
        percent: u32,
        file_name: Option<&'a str>,
        num_lines: LineNumber,
        column: RowOrColumnNumber,
    ) -> (s: Self)
        ensures
            s.percent == percent,
            s.file_name == file_name,
            s.num_lines == num_lines,
            s.column == column,
    {
        StatusLine { percent, file_name, num_lines, column }
    }

    /// The color the status line is painted in.
    pub fn color() -> (c: Color)
        ensures
            c == Color::AnsiValue(182),
    {
        Color::AnsiValue(182)
    }

    /// The status line's height in rows.
    pub fn height() -> (h: u16)
        ensures
            h == 1,
    {
        1
    }

    /// The text of the status line (see `spec_status_line_text`).
    pub fn text(&self) -> (text: String)
        ensures
            text@ == spec_status_line_text(
                self.percent,
                match self.file_name {
                    Some(n) => Some(n@),
                    None => None,
                },
                self.num_lines,
                self.column,
            ),
    {
        let mut text = String::new();
        match self.file_name {
            Some(name) => push_str(&mut text, name),
            None => push_str(&mut text, "[No Name]"),
        }
        push_str(&mut text, " [");
        push_str(&mut text, decimal_string(self.percent as usize).as_str());
        push_str(&mut text, "%] ");
        push_str(&mut text, decimal_string(self.num_lines).as_str());
        push_str(&mut text, " lines |");
        push_str(&mut text, decimal_string(self.column as usize).as_str());
        proof {
            assert(text@ =~= spec_status_line_text(
                self.percent,
                match self.file_name {
                    Some(n) => Some(n@),
                    None => None,
                },
                self.num_lines,
                self.column,
            ));
        }
        text
    }
}

impl Editor {
    /// The width of the number column: enough for the number of lines, and
    /// at least three.
    pub fn num_relative_line_number_columns(&self) -> (columns: RowOrColumnNumber)
        ensures
            columns == if spec_num_columns_taken_up(self.num_lines()) > 3 {
                spec_num_columns_taken_up(self.num_lines())
            } else {
                3
            },
    {
        let taken = num_columns_taken_up(rope_len_lines(self.current_file.rope()));
        if taken > 3 {
            taken
        } else {
            3
        }
    }

    /// Where the terminal cursor goes: right of the number column and the
    /// space after it, on the cursor's row.
    pub fn cursor_screen_position(&self) -> (xy: (u16, u16))
        requires
            self.cursor_position.column + 6 <= u16::MAX,
        ensures
            xy.0 == self.cursor_position.column + (if spec_num_columns_taken_up(self.num_lines()) > 3 {
                spec_num_columns_taken_up(self.num_lines())
            } else {
                3
            }) + 1,
            xy.1 == self.cursor_position.row,
    {
        let columns = self.num_relative_line_number_columns();
        (self.cursor_position.column + columns + 1, self.cursor_position.row)
    }
}

} // verus!
