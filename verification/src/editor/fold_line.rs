use vstd::prelude::*;

use ropey::Rope;

use crate::fold::Fold;
use crate::text::{rope_line_chunk_texts, rope_line_chunks, rope_lines};
use crate::text_util::{decimal, decimal_string, lemma_decimal_len, lemma_utf8_concat, push_str};

verus! {

/// The number of bytes `s` takes in UTF-8.
pub open spec fn utf8_len(s: Seq<char>) -> nat {
    vstd::utf8::encode_utf8(s).len()
}

/// `s` without the line feed it ends with, if it ends with one.
pub open spec fn strip_line_feed(s: Seq<char>) -> Seq<char> {
    if s.len() > 0 && s.last() == '\n' {
        s.drop_last()
    } else {
        s
    }
}

/// The number of spaces `s` starts with.
pub open spec fn leading_spaces(s: Seq<char>) -> nat
    decreases s.len(),
{
    if s.len() > 0 && s[0] == ' ' {
        1 + leading_spaces(s.drop_first())
    } else {
        0
    }
}

/// What a fold line shows of each chunk of the fold's first line: the chunk
/// without its line feed; chunks made only of spaces are left out until the
/// first one that is not, whose leading spaces are left out.
pub open spec fn fold_line_pieces(chunks: Seq<Seq<char>>, passed_blanks: bool) -> Seq<Seq<char>>
    decreases chunks.len(),
{
    if chunks.len() == 0 {
        Seq::empty()
    } else {
        let t = strip_line_feed(chunks[0]);
        if passed_blanks {
            seq![t] + fold_line_pieces(chunks.drop_first(), true)
        } else if t.len() > 0 && leading_spaces(t) == t.len() {
            fold_line_pieces(chunks.drop_first(), false)
        } else {
            seq![t.skip(leading_spaces(t) as int)] + fold_line_pieces(chunks.drop_first(), true)
        }
    }
}

/// The number of leading chars of `s` whose UTF-8 encoding fits in `room`
/// bytes.
pub open spec fn chars_within(s: Seq<char>, room: int) -> nat
    decreases s.len(),
{
    if s.len() > 0 && utf8_len(seq![s[0]]) <= room {
        1 + chars_within(s.drop_first(), room - utf8_len(seq![s[0]]))
    } else {
        0
    }
}

/// The pieces, one after the other, within `room` bytes: the first piece
/// that does not fit is cut to the chars that do, and nothing follows it.
pub open spec fn fold_line_body(pieces: Seq<Seq<char>>, room: int) -> Seq<char>
    decreases pieces.len(),
{
    if pieces.len() == 0 {
        Seq::empty()
    } else {
        let p = pieces[0];
        if utf8_len(p) > room {
            p.take(chars_within(p, room) as int)
        } else {
            p + fold_line_body(pieces.drop_first(), room - utf8_len(p))
        }
    }
}

/// Each cut falls between two chars: the piece that does not fit has a
/// prefix of exactly the remaining number of bytes.
pub open spec fn fold_line_cut_ok(pieces: Seq<Seq<char>>, room: int) -> bool
    decreases pieces.len(),
{
    if pieces.len() == 0 {
        true
    } else {
        let p = pieces[0];
        if utf8_len(p) > room {
            utf8_len(p.take(chars_within(p, room) as int)) == room
        } else {
            fold_line_cut_ok(pieces.drop_first(), room - utf8_len(p))
        }
    }
}

/// `n` copies of `c`.
pub open spec fn repeat_char(c: char, n: nat) -> Seq<char> {
    Seq::new(n, |i: int| c)
}

/// The start of a fold line: `+--`, a dash for each indent level the fold
/// has left open, the number of lines it hides (right-aligned in three
/// columns when shorter) and ` lines: `.
pub open spec fn fold_line_header(fold: Fold) -> Seq<char> {
    let open_levels: nat = if fold.num_closes < fold.full_num_indents {
        (fold.full_num_indents - fold.num_closes) as nat
    } else {
        0
    };
    let count = decimal((fold.range.end - fold.range.start) as nat);
    "+--"@ + repeat_char('-', open_levels) + (if count.len() < 3 {
        " "@
    } else {
        Seq::<char>::empty()
    }) + count + " lines: "@
}

/// The text of the line that stands for a closed fold, `width` bytes wide
/// at most, given the chunks of the fold's first line.
pub open spec fn spec_fold_line_text(fold: Fold, chunks: Seq<Seq<char>>, width: int) -> Seq<char> {
    let header = fold_line_header(fold);
    header + fold_line_body(fold_line_pieces(chunks, false), width - header.len())
}

/// A fold line can be printed `width` bytes wide: where any of the first
/// line is shown, the header fits and the cut falls between two chars.
pub open spec fn fold_line_printable(fold: Fold, chunks: Seq<Seq<char>>, width: int) -> bool {
    let header = fold_line_header(fold);
    let pieces = fold_line_pieces(chunks, false);
    pieces.len() > 0 ==> header.len() <= width && fold_line_cut_ok(pieces, width - header.len())
}

/// Every char of `s` is ASCII.
pub open spec fn is_ascii_text(s: Seq<char>) -> bool {
    forall|i: int| 0 <= i < s.len() ==> (#[trigger] s[i] as u32) < 128
}

proof fn lemma_utf8_len_ascii(s: Seq<char>)
    requires
        is_ascii_text(s),
    ensures
        utf8_len(s) == s.len(),
    decreases s.len(),
{
    if s.len() > 0 {
        assert(is_ascii_text(s.drop_first())) by {
            assert forall|i: int| 0 <= i < s.drop_first().len() implies (#[trigger] s.drop_first()[i]
                as u32) < 128 by {
                assert(s.drop_first()[i] == s[i + 1]);
            }
        }
        lemma_utf8_len_ascii(s.drop_first());
        assert((s[0] as u32) < 128);
    }
}

proof fn lemma_decimal_ascii(n: nat)
    ensures
        is_ascii_text(decimal(n)),
    decreases n,
{
    if n >= 10 {
        lemma_decimal_ascii(n / 10);
        let d = decimal(n / 10).push(crate::text_util::digit_char(n % 10));
        assert forall|i: int| 0 <= i < d.len() implies (#[trigger] d[i] as u32) < 128 by {
            if i < d.len() - 1 {
                assert(d[i] == decimal(n / 10)[i]);
            }
        }
    }
}

proof fn lemma_fold_line_body_len(pieces: Seq<Seq<char>>, room: int)
    requires
        room >= 0,
        fold_line_cut_ok(pieces, room),
    ensures
        utf8_len(fold_line_body(pieces, room)) <= room,
    decreases pieces.len(),
{
    if pieces.len() == 0 {
        assert(vstd::utf8::encode_utf8(Seq::<char>::empty()) =~= Seq::<u8>::empty());
    } else {
        let p = pieces[0];
        if utf8_len(p) <= room {
            lemma_fold_line_body_len(pieces.drop_first(), room - utf8_len(p));
            lemma_utf8_concat(p, fold_line_body(pieces.drop_first(), room - utf8_len(p)));
        }
    }
}

/// A fold line that shows any of the fold's first line takes at most
/// `width` bytes.
pub proof fn law_fold_line_fits_width(fold: Fold, chunks: Seq<Seq<char>>, width: int)
    requires
        fold_line_printable(fold, chunks, width),
        fold_line_pieces(chunks, false).len() > 0,
    ensures
        utf8_len(spec_fold_line_text(fold, chunks, width)) <= width,
{
    reveal_strlit("+--");
    reveal_strlit(" ");
    reveal_strlit(" lines: ");
    let open_levels: nat = if fold.num_closes < fold.full_num_indents {
        (fold.full_num_indents - fold.num_closes) as nat
    } else {
        0
    };
    let count = decimal((fold.range.end - fold.range.start) as nat);
    let pad = if count.len() < 3 {
        " "@
    } else {
        Seq::<char>::empty()
    };
    let a = "+--"@;
    let b = repeat_char('-', open_levels);
    let e = " lines: "@;
    lemma_decimal_ascii((fold.range.end - fold.range.start) as nat);
    lemma_utf8_len_ascii(a);
    lemma_utf8_len_ascii(b);
    lemma_utf8_len_ascii(pad);
    lemma_utf8_len_ascii(count);
    lemma_utf8_len_ascii(e);
    lemma_utf8_concat(a, b);
    lemma_utf8_concat(a + b, pad);
    lemma_utf8_concat(a + b + pad, count);
    lemma_utf8_concat(a + b + pad + count, e);
    let header = fold_line_header(fold);
    assert(header == a + b + pad + count + e);
    let body = fold_line_body(fold_line_pieces(chunks, false), width - header.len());
    lemma_fold_line_body_len(fold_line_pieces(chunks, false), width - header.len());
    lemma_utf8_concat(header, body);
}

/// The line shown in place of a closed fold.
pub struct FoldLine<'a> {
    pub fold: &'a Fold,
    /// The chunks the fold's first line is stored in.
    pub line: Vec<String>,
}

/// The texts of a list of strings.
pub open spec fn texts(v: Seq<String>) -> Seq<Seq<char>> {
    v.map_values(|c: String| c@)
}

/// The number of bytes `c` takes in UTF-8.
fn char_utf8_len(c: char) -> (n: usize)
    ensures
        n == utf8_len(seq![c]),
        1 <= n <= 4,
{
    let v = c as u32;
    proof {
        vstd::utf8::char_is_scalar(c);
        assert(vstd::utf8::encode_utf8(seq![c]) =~= vstd::utf8::encode_scalar(c as u32)
            + vstd::utf8::encode_utf8(seq![c].drop_first()));
        assert(seq![c].drop_first() =~= Seq::<char>::empty());
        assert(vstd::utf8::encode_utf8(Seq::<char>::empty()) =~= Seq::<u8>::empty());
    }
    if v <= 0x7F {
        1
    } else if v <= 0x7FF {
        2
    } else if v <= 0xFFFF {
        3
    } else {
        4
    }
}

proof fn lemma_utf8_len_push(s: Seq<char>, k: int)
    requires
        0 <= k < s.len(),
    ensures
        utf8_len(s.take(k + 1)) == utf8_len(s.take(k)) + utf8_len(seq![s[k]]),
{
    assert(s.take(k + 1) =~= s.take(k) + seq![s[k]]);
    lemma_utf8_concat(s.take(k), seq![s[k]]);
}

proof fn lemma_chars_within_step(s: Seq<char>, k: int, room: int)
    requires
        0 <= k < s.len(),
        utf8_len(seq![s[k]]) <= room,
    ensures
        chars_within(s.skip(k), room) == 1 + chars_within(s.skip(k + 1), room - utf8_len(seq![s[k]])),
{
    assert(s.skip(k).drop_first() =~= s.skip(k + 1));
    assert(s.skip(k)[0] == s[k]);
}

proof fn lemma_leading_spaces_step(s: Seq<char>, k: int)
    requires
        0 <= k < s.len(),
    ensures
        s[k] == ' ' ==> leading_spaces(s.skip(k)) == 1 + leading_spaces(s.skip(k + 1)),
        s[k] != ' ' ==> leading_spaces(s.skip(k)) == 0,
{
    assert(s.skip(k).drop_first() =~= s.skip(k + 1));
    assert(s.skip(k)[0] == s[k]);
}

proof fn lemma_leading_spaces_bound(s: Seq<char>)
    ensures
        leading_spaces(s) <= s.len(),
        leading_spaces(s) < s.len() ==> s[leading_spaces(s) as int] != ' ',
        forall|i: int| 0 <= i < leading_spaces(s) ==> s[i] == ' ',
    decreases s.len(),
{
    if s.len() > 0 && s[0] == ' ' {
        lemma_leading_spaces_bound(s.drop_first());
        assert forall|i: int| 0 <= i < leading_spaces(s) implies s[i] == ' ' by {
            if i > 0 {
                assert(s[i] == s.drop_first()[i - 1]);
            }
        }
    }
}

/// The number of spaces the chars `0..end` of `s` start with.
fn count_leading_spaces(s: &str, end: usize) -> (k: usize)
    requires
        end <= s@.len(),
    ensures
        k == leading_spaces(s@.take(end as int)),
{
    let ghost t = s@.take(end as int);
    let mut k: usize = 0;
    assert(t.skip(0) =~= t);
    while k < end && s.get_char(k) == ' '
        invariant
            t == s@.take(end as int),
            end <= s@.len(),
            k <= end,
            leading_spaces(t) == k + leading_spaces(t.skip(k as int)),
        decreases end - k,
    {
        proof {
            lemma_leading_spaces_step(t, k as int);
        }
        k += 1;
    }
    proof {
        if k < end {
            lemma_leading_spaces_step(t, k as int);
        } else {
            assert(t.skip(k as int) =~= Seq::<char>::empty());
        }
    }
    k
}

/// The number of leading chars of `s` that fit in `room` bytes, with the
/// number of bytes they take.
fn count_chars_within(s: &str, room: usize) -> (r: (usize, usize))
    ensures
        r.0 == chars_within(s@, room as int),
        r.0 <= s@.len(),
        r.1 == utf8_len(s@.take(r.0 as int)),
        r.1 <= room,
{
    let n = s.unicode_len();
    let mut k: usize = 0;
    let mut used: usize = 0;
    proof {
        assert(s@.skip(0) =~= s@);
        assert(s@.take(0) =~= Seq::<char>::empty());
        assert(vstd::utf8::encode_utf8(Seq::<char>::empty()) =~= Seq::<u8>::empty());
    }
    loop
        invariant
            n == s@.len(),
            k <= n,
            used <= room,
            used == utf8_len(s@.take(k as int)),
            chars_within(s@, room as int) == k + chars_within(s@.skip(k as int), room - used),
        ensures
            k <= n,
            used <= room,
            used == utf8_len(s@.take(k as int)),
            chars_within(s@, room as int) == k,
        decreases n - k,
    {
        if k == n {
            assert(s@.skip(k as int) =~= Seq::<char>::empty());
            assert(chars_within(s@.skip(k as int), room - used) == 0);
            break;
        }
        let w = char_utf8_len(s.get_char(k));
        if w > room - used {
            proof {
                assert(s@.skip(k as int)[0] == s@[k as int]);
                assert(chars_within(s@.skip(k as int), room - used) == 0);
            }
            break;
        }
        proof {
            lemma_chars_within_step(s@, k as int, room - used);
            lemma_utf8_len_push(s@, k as int);
        }
        used = used + w;
        k += 1;
    }
    (k, used)
}

impl<'a> FoldLine<'a> {
    /// The fold line of `fold`, reading the chunks of its first line from
    /// `rope`.
    pub fn new(fold: &'a Fold, rope: &Rope) -> (f: Self)
        requires
            fold.range.start < rope_lines(*rope).len(),
        ensures
            f.fold == fold,
            texts(f.line@) == rope_line_chunk_texts(*rope, fold.range.start as int),
            texts(f.line@).flatten() == rope_lines(*rope)[fold.range.start as int],
    {
        let line = rope_line_chunks(rope, fold.range.start);
        FoldLine { fold, line }
    }

    /// Whether the fold line can be printed `width` bytes wide: the fold's
    /// range is not reversed, its header is not too long to count, and
    /// `fold_line_printable` holds.
    pub fn can_print(&self, width: u16) -> (ok: bool)
        ensures
            ok == (self.fold.range.start <= self.fold.range.end && fold_line_header(*self.fold).len()
                <= usize::MAX && fold_line_printable(*self.fold, texts(self.line@), width as int)),
    {
        let fold = self.fold;
        if fold.range.start > fold.range.end {
            return false;
        }
        let ghost header = fold_line_header(*fold);
        let ghost chunks = texts(self.line@);
        proof {
            reveal_strlit("+--");
            reveal_strlit(" ");
            reveal_strlit(" lines: ");
            lemma_decimal_len((fold.range.end - fold.range.start) as nat);
        }
        let num_len = decimal_string(fold.range.end - fold.range.start).unicode_len();
        let open_levels: usize = if fold.num_closes < fold.full_num_indents {
            fold.full_num_indents - fold.num_closes
        } else {
            0
        };
        let pad: usize = if num_len < 3 {
            1
        } else {
            0
        };
        if num_len > usize::MAX - 11 - pad {
            return false;
        }
        let fixed = 11 + pad + num_len;
        if open_levels > usize::MAX - fixed {
            return false;
        }
        let mut printed: usize = open_levels + fixed;
        assert(printed == header.len());
        let ghost wanted = fold_line_printable(*fold, chunks, width as int);
        let mut has_passed_initial_blanks = false;
        let mut i: usize = 0;
        proof {
            assert(chunks.skip(0) =~= chunks);
        }
        while i < self.line.len()
            invariant
                chunks == texts(self.line@),
                i <= self.line.len(),
                fold == self.fold,
                fold.range.start <= fold.range.end,
                fold_line_header(*fold).len() <= usize::MAX,
                wanted == fold_line_printable(*fold, chunks, width as int),
                wanted == (fold_line_pieces(chunks.skip(i as int), has_passed_initial_blanks).len() > 0 ==> (
                printed <= width && fold_line_cut_ok(
                    fold_line_pieces(chunks.skip(i as int), has_passed_initial_blanks),
                    width - printed,
                ))),
            decreases self.line.len() - i,
        {
            let chunk = self.line[i].as_str();
            let ghost rest = chunks.skip(i as int + 1);
            proof {
                assert(chunks.skip(i as int).drop_first() =~= rest);
                assert(chunks.skip(i as int)[0] == chunk@);
            }
            let n = chunk.unicode_len();
            let end = if n > 0 && chunk.get_char(n - 1) == '\n' {
                n - 1
            } else {
                n
            };
            let ghost t = strip_line_feed(chunk@);
            assert(t =~= chunk@.take(end as int));
            let mut begin: usize = 0;
            let ghost old_passed = has_passed_initial_blanks;
            if !has_passed_initial_blanks {
                let blanks = count_leading_spaces(chunk, end);
                if end > 0 && blanks == end {
                    i += 1;
                    continue;
                }
                has_passed_initial_blanks = true;
                begin = blanks;
                proof {
                    lemma_leading_spaces_bound(t);
                }
            }
            let to_print = chunk.substring_char(begin, end);
            let ghost pieces = fold_line_pieces(chunks.skip(i as int), old_passed);
            assert(to_print@ =~= t.skip(begin as int));
            assert(pieces[0] == to_print@);
            assert(pieces.drop_first() =~= fold_line_pieces(rest, true));
            if printed > width as usize {
                return false;
            }
            let num_bytes = to_print.as_bytes().len();
            let remaining_bytes_on_line = width as usize - printed;
            if num_bytes > remaining_bytes_on_line {
                let (_, used) = count_chars_within(to_print, remaining_bytes_on_line);
                return used == remaining_bytes_on_line;
            }
            proof {
                assert(fold_line_cut_ok(pieces, width - printed) == fold_line_cut_ok(
                    fold_line_pieces(rest, true),
                    width - printed - num_bytes,
                ));
                if fold_line_pieces(rest, true).len() == 0 {
                    assert(fold_line_cut_ok(fold_line_pieces(rest, true), width - printed - num_bytes));
                }
            }
            printed += num_bytes;
            i += 1;
        }
        proof {
            assert(chunks.skip(i as int) =~= Seq::<Seq<char>>::empty());
        }
        true
    }

    /// The text of the fold line, `width` bytes wide at most (see
    /// `spec_fold_line_text`).
    pub fn text(&self, width: u16) -> (text: String)
        requires
            self.fold.range.start <= self.fold.range.end,
            fold_line_header(*self.fold).len() <= usize::MAX,
            fold_line_printable(*self.fold, texts(self.line@), width as int),
        ensures
            text@ == spec_fold_line_text(*self.fold, texts(self.line@), width as int),
    {
        let fold = self.fold;
        let ghost header = fold_line_header(*fold);
        let ghost chunks = texts(self.line@);
        let mut text = String::new();
        proof {
            reveal_strlit("+--");
            reveal_strlit(" ");
            reveal_strlit(" lines: ");
            lemma_decimal_len((fold.range.end - fold.range.start) as nat);
        }
        push_str(&mut text, "+--");
        let mut printed: usize = 3;
        let mut level = fold.num_closes;
        let ghost start_level = fold.num_closes;
        while level < fold.full_num_indents
            invariant
                start_level == fold.num_closes,
                start_level <= level <= fold.full_num_indents || level == start_level,
                text@ == "+--"@ + repeat_char('-', (level - start_level) as nat),
                printed == text@.len(),
                level - start_level <= header.len(),
                header == fold_line_header(*fold),
                header.len() <= usize::MAX,
                "+--"@.len() == 3,
                " lines: "@.len() == 8,
            decreases fold.full_num_indents - level,
        {
            push_str(&mut text, "-");
            proof {
                reveal_strlit("-");
                assert(text@ =~= "+--"@ + repeat_char('-', (level + 1 - start_level) as nat));
            }
            level += 1;
            printed += 1;
        }
        let printed_num_lines = decimal_string(fold.range.end - fold.range.start);
        let num_len = printed_num_lines.unicode_len();
        if num_len < 3 {
            push_str(&mut text, " ");
            printed += 1;
        }
        push_str(&mut text, printed_num_lines.as_str());
        printed += num_len;
        push_str(&mut text, " lines: ");
        printed += 8;
        assert(text@ =~= header);
        let ghost target = spec_fold_line_text(*fold, chunks, width as int);
        let mut has_passed_initial_blanks = false;
        let mut i: usize = 0;
        let ghost mut body: Seq<char> = Seq::empty();
        assert(vstd::utf8::encode_utf8(Seq::<char>::empty()) =~= Seq::<u8>::empty());
        proof {
            assert(chunks.skip(0) =~= chunks);
        }
        while i < self.line.len()
            invariant_except_break
                text@ == header + body,
                printed == header.len() + utf8_len(body),
                text@ + fold_line_body(
                    fold_line_pieces(chunks.skip(i as int), has_passed_initial_blanks),
                    width - printed,
                ) == target,
                fold_line_pieces(chunks.skip(i as int), has_passed_initial_blanks).len() > 0 ==> (
                printed <= width && fold_line_cut_ok(
                    fold_line_pieces(chunks.skip(i as int), has_passed_initial_blanks),
                    width - printed,
                )),
            invariant
                chunks == texts(self.line@),
                i <= self.line.len(),
            ensures
                text@ == target,
            decreases self.line.len() - i,
        {
            let chunk = self.line[i].as_str();
            let ghost rest = chunks.skip(i as int + 1);
            proof {
                assert(chunks.skip(i as int).drop_first() =~= rest);
                assert(chunks.skip(i as int)[0] == chunk@);
            }
            let n = chunk.unicode_len();
            let end = if n > 0 && chunk.get_char(n - 1) == '\n' {
                n - 1
            } else {
                n
            };
            let ghost t = strip_line_feed(chunk@);
            assert(t =~= chunk@.take(end as int));
            let mut begin: usize = 0;
            let ghost old_passed = has_passed_initial_blanks;
            if !has_passed_initial_blanks {
                let blanks = count_leading_spaces(chunk, end);
                if end > 0 && blanks == end {
                    i += 1;
                    continue;
                }
                has_passed_initial_blanks = true;
                begin = blanks;
                proof {
                    lemma_leading_spaces_bound(t);
                }
            }
            let to_print = chunk.substring_char(begin, end);
            let ghost pieces = fold_line_pieces(chunks.skip(i as int), old_passed);
            assert(to_print@ =~= t.skip(begin as int));
            assert(pieces[0] == to_print@);
            assert(pieces.drop_first() =~= fold_line_pieces(rest, true));
            let num_bytes = to_print.as_bytes().len();
            let remaining_bytes_on_line = width as usize - printed;
            assert(fold_line_body(pieces, width - printed) =~= if num_bytes > remaining_bytes_on_line {
                to_print@.take(chars_within(to_print@, width - printed) as int)
            } else {
                to_print@ + fold_line_body(fold_line_pieces(rest, true), width - printed - num_bytes)
            });
            if num_bytes > remaining_bytes_on_line {
                let (k, used) = count_chars_within(to_print, remaining_bytes_on_line);
                let cut = to_print.substring_char(0, k);
                push_str(&mut text, cut);
                proof {
                    assert(cut@ =~= to_print@.take(k as int));
                }
                break;
            }
            push_str(&mut text, to_print);
            proof {
                lemma_utf8_concat(body, to_print@);
                body = body + to_print@;
            }
            printed += num_bytes;
            i += 1;
        }
        text
    }
}

} // verus!
