use vstd::prelude::*;

use ropey::Rope;

verus! {

// ---------------------------------------------------------------------------
// The text model of a rope: its characters and how they split into lines.
// ---------------------------------------------------------------------------

#[verifier::external_type_specification]
#[verifier::external_body]
pub struct ExRope(Rope);

/// The characters that a rope holds, in order.
pub uninterp spec fn rope_text(rope: Rope) -> Seq<char>;

/// The characters ropey treats as line breaks (with its default features):
/// LF, VT, FF, CR, NEL, LINE SEPARATOR and PARAGRAPH SEPARATOR; a CR
/// directly followed by an LF counts as one break.
pub open spec fn is_line_break(c: char) -> bool {
    c == '\n' || c == '\u{000B}' || c == '\u{000C}' || c == '\r' || c == '\u{0085}' || c
        == '\u{2028}' || c == '\u{2029}'
}

/// A new line starts at position `p` of `s`: right after a line break, and
/// not between the CR and the LF of a CRLF pair.
pub open spec fn line_starts_at(s: Seq<char>, p: int) -> bool {
    0 < p <= s.len() && is_line_break(s[p - 1]) && !(s[p - 1] == '\r' && p < s.len() && s[p]
        == '\n')
}

/// The first position after `i` at which a new line starts, or `s.len() + 1`
/// when no line break follows `i`.
pub open spec fn next_line_start(s: Seq<char>, i: int) -> int
    decreases s.len() - i,
{
    if i >= s.len() {
        s.len() + 1int
    } else if line_starts_at(s, i + 1) {
        i + 1
    } else {
        next_line_start(s, i + 1)
    }
}

pub proof fn lemma_next_line_start_bounds(s: Seq<char>, i: int)
    requires
        0 <= i <= s.len(),
    ensures
        next_line_start(s, i) > i,
        next_line_start(s, i) <= s.len() + 1,
        next_line_start(s, i) <= s.len() ==> line_starts_at(s, next_line_start(s, i)),
    decreases s.len() - i,
{
    if i < s.len() && !line_starts_at(s, i + 1) {
        lemma_next_line_start_bounds(s, i + 1);
    }
}

/// The lines of `s` as ropey splits them: each line keeps the line break that
/// ends it, and the text after the last line break (possibly empty) is the
/// last line.
pub open spec fn lines_of(s: Seq<char>) -> Seq<Seq<char>>
    decreases s.len(),
{
    let p = next_line_start(s, 0);
    if p > s.len() {
        seq![s]
    } else {
        proof {
            lemma_next_line_start_bounds(s, 0);
        }
        seq![s.take(p)] + lines_of(s.skip(p))
    }
}

/// The lines of the text a rope holds.
pub open spec fn rope_lines(rope: Rope) -> Seq<Seq<char>> {
    lines_of(rope_text(rope))
}

/// The characters of the first `n` lines of `lines`, concatenated.
pub open spec fn chars_before_line(lines: Seq<Seq<char>>, n: int) -> Seq<char> {
    lines.take(n).flatten()
}

pub proof fn lemma_lines_of_nonempty(s: Seq<char>)
    ensures
        lines_of(s).len() >= 1,
    decreases s.len(),
{
    let p = next_line_start(s, 0);
    if p <= s.len() {
        lemma_next_line_start_bounds(s, 0);
        lemma_lines_of_nonempty(s.skip(p));
    }
}

pub proof fn lemma_lines_of_flatten(s: Seq<char>)
    ensures
        lines_of(s).flatten() == s,
    decreases s.len(),
{
    let p = next_line_start(s, 0);
    if p > s.len() {
        assert(lines_of(s) == seq![s]);
        assert(seq![s].flatten() == s + Seq::<Seq<char>>::empty().flatten()) by {
            reveal_with_fuel(Seq::flatten, 2);
        }
        assert(s + Seq::<char>::empty() == s);
    } else {
        lemma_next_line_start_bounds(s, 0);
        lemma_lines_of_flatten(s.skip(p));
        let rest = lines_of(s.skip(p));
        assert(lines_of(s) == seq![s.take(p)] + rest);
        assert((seq![s.take(p)] + rest).drop_first() == rest);
        assert(s.take(p) + s.skip(p) == s);
    }
}

/// Only the last line of a text can lack a line break, so only it can be empty.
pub proof fn lemma_lines_of_inner_nonempty(s: Seq<char>, i: int)
    requires
        0 <= i < lines_of(s).len() - 1,
    ensures
        lines_of(s)[i].len() > 0,
        is_line_break(lines_of(s)[i].last()),
    decreases s.len(),
{
    let p = next_line_start(s, 0);
    lemma_next_line_start_bounds(s, 0);
    if p <= s.len() {
        let rest = lines_of(s.skip(p));
        assert(lines_of(s) == seq![s.take(p)] + rest);
        if i > 0 {
            lemma_lines_of_inner_nonempty(s.skip(p), i - 1);
        }
    }
}

// ---------------------------------------------------------------------------
// The rope operations the editor uses.
// ---------------------------------------------------------------------------

/// Builds a rope from a string (`ropey::Rope::from_str`): it holds exactly
/// the string's characters.
#[verifier::external_body]
pub(crate) fn rope_from_str(text: &str) -> (rope: Rope)
    ensures
        rope_text(rope) == text@,
{
    Rope::from_str(text)
}

/// The whole text of a rope as a string (`String::from(&ropey::Rope)`).
#[verifier::external_body]
pub(crate) fn rope_to_string(rope: &Rope) -> (text: String)
    ensures
        text@ == rope_text(*rope),
{
    String::from(rope)
}

/// The empty rope (`ropey::Rope::new`).
#[verifier::external_body]
pub(crate) fn rope_new() -> (rope: Rope)
    ensures
        rope_text(rope) == Seq::<char>::empty(),
{
    Rope::new()
}

/// The number of lines (`ropey::Rope::len_lines`): one more than the number
/// of line breaks, so it agrees with `rope_lines`.
#[verifier::external_body]
pub(crate) fn rope_len_lines(rope: &Rope) -> (n: usize)
    ensures
        n == rope_lines(*rope).len(),
{
    rope.len_lines()
}

/// The text of line `line_idx`, including its line break
/// (`ropey::Rope::line`, turned into a `String`). Ropey panics past the last
/// line.
#[verifier::external_body]
pub(crate) fn rope_line(rope: &Rope, line_idx: usize) -> (line: String)
    requires
        line_idx < rope_lines(*rope).len(),
    ensures
        line@ == rope_lines(*rope)[line_idx as int],
{
    rope.line(line_idx).to_string()
}

/// The texts of the chunks ropey stores line `line` of a rope in, in order:
/// they depend on how the rope was built and edited, and they spell out the
/// line.
pub uninterp spec fn rope_line_chunk_texts(rope: Rope, line: int) -> Seq<Seq<char>>;

/// The chunks line `line_idx` is stored in (`ropey::Rope::line`, then
/// `ropey::RopeSlice::chunks`, each turned into a `String`). The same rope
/// gives the same chunks; the chunks spell out the line. Ropey panics past
/// the last line.
#[verifier::external_body]
pub(crate) fn rope_line_chunks(rope: &Rope, line_idx: usize) -> (chunks: Vec<String>)
    requires
        line_idx < rope_lines(*rope).len(),
    ensures
        chunks@.map_values(|c: String| c@) == rope_line_chunk_texts(*rope, line_idx as int),
        chunks@.map_values(|c: String| c@).flatten() == rope_lines(*rope)[line_idx as int],
{
    rope.line(line_idx).chunks().map(|chunk| chunk.to_string()).collect()
}

/// The char index at which line `line_idx` starts (`ropey::Rope::line_to_char`);
/// one past the last line gives the length. Ropey panics beyond that.
#[verifier::external_body]
pub(crate) fn rope_line_to_char(rope: &Rope, line_idx: usize) -> (c: usize)
    requires
        line_idx <= rope_lines(*rope).len(),
    ensures
        c == chars_before_line(rope_lines(*rope), line_idx as int).len(),
{
    rope.line_to_char(line_idx)
}

/// The byte index at which line `line_idx` starts in the UTF-8 text
/// (`ropey::Rope::line_to_byte`); one past the last line gives the length.
/// Ropey panics beyond that.
#[verifier::external_body]
pub(crate) fn rope_line_to_byte(rope: &Rope, line_idx: usize) -> (b: usize)
    requires
        line_idx <= rope_lines(*rope).len(),
    ensures
        b == vstd::utf8::encode_utf8(chars_before_line(rope_lines(*rope), line_idx as int)).len(),
{
    rope.line_to_byte(line_idx)
}

/// Inserts `ch` before the char at `char_idx` (`ropey::Rope::insert_char`);
/// ropey panics past the end of the text.
#[verifier::external_body]
pub(crate) fn rope_insert_char(rope: &mut Rope, char_idx: usize, ch: char)
    requires
        char_idx <= rope_text(*old(rope)).len(),
    ensures
        rope_text(*final(rope)) == rope_text(*old(rope)).insert(char_idx as int, ch),
{
    rope.insert_char(char_idx, ch)
}

/// The length of the text in UTF-8 bytes (`ropey::Rope::len_bytes`).
#[verifier::external_body]
pub(crate) fn rope_len_bytes(rope: &Rope) -> (n: usize)
    ensures
        n == vstd::utf8::encode_utf8(rope_text(*rope)).len(),
{
    rope.len_bytes()
}

/// The number of chars of the text (`ropey::Rope::len_chars`).
#[verifier::external_body]
pub(crate) fn rope_len_chars(rope: &Rope) -> (n: usize)
    ensures
        n == rope_text(*rope).len(),
{
    rope.len_chars()
}

} // verus!
