use vstd::prelude::*;

use ropey::Rope;

use crate::text::{rope_len_lines, rope_line, rope_lines};

verus! {

/// How far a line is indented, in shift widths; lines holding nothing but
/// blanks have no level.
#[derive(Clone, Copy, Debug, PartialEq, Eq, Structural)]
pub enum IndentLevel {
    Level(usize),
    BlankLine,
}

/// The number of spaces and line feeds at the start of `s`.
pub open spec fn leading_blank_count(s: Seq<char>) -> nat
    decreases s.len(),
{
    if s.len() > 0 && (s[0] == ' ' || s[0] == '\n') {
        1 + leading_blank_count(s.drop_first())
    } else {
        0
    }
}

/// The indent level of a line: blank when the line is nothing but spaces and
/// line feeds, otherwise the number of shift widths its leading spaces take,
/// rounded up.
pub open spec fn indent_level(line: Seq<char>, shift_width: nat) -> IndentLevel {
    let k = leading_blank_count(line);
    if k == line.len() {
        IndentLevel::BlankLine
    } else {
        IndentLevel::Level(((k + shift_width - 1) / shift_width as int) as usize)
    }
}

proof fn lemma_leading_blank_count_step(s: Seq<char>, i: int)
    requires
        0 <= i < s.len(),
        forall|j: int| 0 <= j < i ==> s[j] == ' ' || s[j] == '\n',
    ensures
        (s[i] == ' ' || s[i] == '\n') ==> leading_blank_count(s) >= i + 1,
        !(s[i] == ' ' || s[i] == '\n') ==> leading_blank_count(s) == i,
    decreases i,
{
    if i > 0 {
        lemma_leading_blank_count_step(s.drop_first(), i - 1);
    }
}

proof fn lemma_leading_blank_count_all(s: Seq<char>)
    requires
        forall|j: int| 0 <= j < s.len() ==> s[j] == ' ' || s[j] == '\n',
    ensures
        leading_blank_count(s) == s.len(),
    decreases s.len(),
{
    if s.len() > 0 {
        lemma_leading_blank_count_all(s.drop_first());
    }
}

proof fn lemma_leading_blank_count_le(s: Seq<char>)
    ensures
        leading_blank_count(s) <= s.len(),
    decreases s.len(),
{
    if s.len() > 0 {
        lemma_leading_blank_count_le(s.drop_first());
    }
}

/// The indent level of one line of text.
pub fn get_indent_level(line: &str, shift_width: usize) -> (level: IndentLevel)
    requires
        shift_width > 0,
    ensures
        level == indent_level(line@, shift_width as nat),
{
    let len = line.unicode_len();
    let mut i: usize = 0;
    while i < len
        invariant
            len == line@.len(),
            shift_width > 0,
            0 <= i <= len,
            forall|j: int| 0 <= j < i ==> line@[j] == ' ' || line@[j] == '\n',
        decreases len - i,
    {
        let c = line.get_char(i);
        if c != ' ' && c != '\n' {
            proof {
                lemma_leading_blank_count_step(line@, i as int);
            }
            // `i` blanks, so `i < len` and the rounded-up quotient fits.
            let level = i / shift_width + if i % shift_width == 0 {
                0
            } else {
                1
            };
            proof {
                let k = i as int;
                let w = shift_width as int;
                assert((k + w - 1) / w == k / w + if k % w == 0 {
                    0int
                } else {
                    1int
                }) by (nonlinear_arith)
                    requires
                        w > 0,
                        k >= 0,
                ;
            }
            return IndentLevel::Level(level);
        }
        i += 1;
    }
    proof {
        lemma_leading_blank_count_all(line@);
    }
    IndentLevel::BlankLine
}

/// The indent level of every line of the rope, in order.
pub fn calculate_indents(rope: &Rope, shift_width: usize) -> (indents: Vec<IndentLevel>)
    requires
        shift_width > 0,
    ensures
        indents@.len() == rope_lines(*rope).len(),
        forall|i: int|
            0 <= i < indents@.len() ==> #[trigger] indents@[i] == indent_level(
                rope_lines(*rope)[i],
                shift_width as nat,
            ),
{
    let n = rope_len_lines(rope);
    let mut indents: Vec<IndentLevel> = Vec::new();
    let mut i: usize = 0;
    while i < n
        invariant
            n == rope_lines(*rope).len(),
            0 <= i <= n,
            shift_width > 0,
            indents@.len() == i,
            forall|j: int|
                0 <= j < i ==> #[trigger] indents@[j] == indent_level(
                    rope_lines(*rope)[j],
                    shift_width as nat,
                ),
        decreases n - i,
    {
        let line = rope_line(rope, i);
        indents.push(get_indent_level(line.as_str(), shift_width));
        i += 1;
    }
    indents
}

} // verus!
