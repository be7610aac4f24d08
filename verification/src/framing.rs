use vstd::prelude::*;

use crate::jsonrpc::{
    field_lines, field_views, law_content_length_round_trip, law_header_field_round_trip, message_bytes,
    spec_parse_header_field, spec_parse_usize, utf8, Message, DEFAULT_CONTENT_TYPE,
};
use crate::text_util::{decimal, find_from, is_whitespace, lemma_find_from, lemma_utf8_concat, trim};

verus! {

// ---------------------------------------------------------------------------
// Lines on the wire
// ---------------------------------------------------------------------------

/// A CR directly followed by an LF starts at byte `i`.
pub open spec fn crlf_at(b: Seq<u8>, i: int) -> bool {
    0 <= i && i + 1 < b.len() && b[i] == 13u8 && b[i + 1] == 10u8
}

/// The bytes hold a CR directly followed by an LF.
pub open spec fn has_crlf(b: Seq<u8>) -> bool {
    exists|i: int| #[trigger] crlf_at(b, i)
}

/// The first byte from `k` on where a CR LF starts.
pub open spec fn first_crlf(b: Seq<u8>, k: int) -> Option<int>
    decreases b.len() - k,
{
    if k < 0 || k + 1 >= b.len() {
        None
    } else if crlf_at(b, k) {
        Some(k)
    } else {
        first_crlf(b, k + 1)
    }
}

/// The first line of the bytes, up to the first CR LF, and the bytes after
/// that CR LF; `None` where no CR LF comes.
pub open spec fn split_line(b: Seq<u8>) -> Option<(Seq<u8>, Seq<u8>)> {
    match first_crlf(b, 0) {
        None => None,
        Some(i) => Some((b.take(i), b.skip(i + 2))),
    }
}

/// `n` lines read off the front of the bytes, each as text, and the bytes
/// after them; `None` where a line does not end or is not UTF-8.
pub open spec fn read_lines(b: Seq<u8>, n: nat) -> Option<(Seq<Seq<char>>, Seq<u8>)>
    decreases n,
{
    if n == 0 {
        Some((Seq::empty(), b))
    } else {
        match split_line(b) {
            None => None,
            Some((line, rest)) => if !vstd::utf8::valid_utf8(line) {
                None
            } else {
                match read_lines(rest, (n - 1) as nat) {
                    None => None,
                    Some((lines, tail)) => Some((seq![vstd::utf8::decode_utf8(line)] + lines, tail)),
                }
            },
        }
    }
}

/// The bytes of lines written one after the other, each ended by CR LF.
pub open spec fn lines_bytes(lines: Seq<Seq<char>>) -> Seq<u8>
    decreases lines.len(),
{
    if lines.len() == 0 {
        Seq::empty()
    } else {
        utf8(lines[0]) + utf8("\r\n"@) + lines_bytes(lines.drop_first())
    }
}

// ---------------------------------------------------------------------------
// Header fields as lines
// ---------------------------------------------------------------------------

/// A header field written as a line: `name: value`.
pub open spec fn field_line(f: (Seq<char>, Seq<char>)) -> Seq<char> {
    f.0 + ": "@ + f.1
}

/// The lines of a list of header fields.
pub open spec fn field_lines_of(fs: Seq<(Seq<char>, Seq<char>)>) -> Seq<Seq<char>>
    decreases fs.len(),
{
    if fs.len() == 0 {
        Seq::empty()
    } else {
        seq![field_line(fs[0])] + field_lines_of(fs.drop_first())
    }
}

/// The header fields a message is written with: its length, its content
/// type where that is not the default, and its additional fields.
pub open spec fn header_fields(m: Message) -> Seq<(Seq<char>, Seq<char>)> {
    let h = m.headers;
    seq![("Content-Length"@, decimal(h.content_length as nat))] + (if h.content_type@ != DEFAULT_CONTENT_TYPE@ {
        seq![("Content-Type"@, h.content_type@)]
    } else {
        Seq::empty()
    }) + field_views(h.additional@)
}

/// A field that reads back as written: no whitespace at the ends of its
/// name or value, no `": "` in its name, and no CR LF in its line's bytes.
pub open spec fn field_clean(f: (Seq<char>, Seq<char>)) -> bool {
    &&& trim(f.0) == f.0
    &&& trim(f.1) == f.1
    &&& find_from(f.0, ": "@, 0) is None
    &&& !has_crlf(utf8(field_line(f)))
}

// ---------------------------------------------------------------------------
// Facts about the bytes
// ---------------------------------------------------------------------------

proof fn lemma_crlf_bytes()
    ensures
        utf8("\r\n"@) == seq![13u8, 10u8],
{
    reveal_strlit("\r\n");
    let t = "\r\n"@;
    assert(t.drop_first() =~= seq!['\n']);
    assert(seq!['\n'].drop_first() =~= Seq::<char>::empty());
    assert(vstd::utf8::encode_utf8(Seq::<char>::empty()) =~= Seq::<u8>::empty());
    assert(vstd::utf8::encode_utf8(seq!['\n']) =~= seq![10u8]) by {
        assert(vstd::utf8::encode_scalar('\n' as u32) =~= seq![10u8]) by {
            assert(('\n' as u32) == 10u32);
            assert(10u32 & 0x7F == 10u32) by (bit_vector);
        }
    }
    assert(vstd::utf8::encode_scalar('\r' as u32) =~= seq![13u8]) by {
        assert(('\r' as u32) == 13u32);
        assert(13u32 & 0x7F == 13u32) by (bit_vector);
    }
    assert(utf8(t) =~= seq![13u8, 10u8]);
}

proof fn lemma_first_crlf_from(p: Seq<u8>, s: Seq<u8>, k: int)
    requires
        !has_crlf(p),
        s.len() >= 2,
        s[0] == 13u8,
        s[1] == 10u8,
        0 <= k <= p.len(),
    ensures
        first_crlf(p + s, k) == Some(p.len() as int),
    decreases p.len() - k,
{
    let b = p + s;
    if k < p.len() {
        if crlf_at(b, k) {
            if k + 1 < p.len() {
                assert(crlf_at(p, k));
            } else {
                assert(b[k + 1] == 13u8);
            }
        }
        lemma_first_crlf_from(p, s, k + 1);
    } else {
        assert(crlf_at(b, k));
    }
}

/// Lines written one after the other, then an empty line and some bytes,
/// read back as those lines, the empty line, and those bytes.
proof fn lemma_read_lines(lines: Seq<Seq<char>>, tail: Seq<u8>)
    requires
        forall|i: int| 0 <= i < lines.len() ==> !has_crlf(#[trigger] utf8(lines[i])),
    ensures
        read_lines(lines_bytes(lines) + utf8("\r\n"@) + tail, (lines.len() + 1) as nat) == Some(
            (lines.push(Seq::<char>::empty()), tail),
        ),
    decreases lines.len(),
{
    lemma_crlf_bytes();
    let crlf = utf8("\r\n"@);
    let b = lines_bytes(lines) + crlf + tail;
    if lines.len() == 0 {
        assert(b =~= Seq::<u8>::empty() + (crlf + tail));
        lemma_first_crlf_from(Seq::<u8>::empty(), crlf + tail, 0);
        assert(b.take(0) =~= Seq::<u8>::empty());
        assert(b.skip(2) =~= tail);
        assert(vstd::utf8::valid_utf8(Seq::<u8>::empty())) by {
            vstd::utf8::encode_utf8_valid_utf8(Seq::<char>::empty());
            assert(vstd::utf8::encode_utf8(Seq::<char>::empty()) =~= Seq::<u8>::empty());
        }
        assert(vstd::utf8::decode_utf8(Seq::<u8>::empty()) =~= Seq::<char>::empty()) by {
            vstd::utf8::encode_utf8_decode_utf8(Seq::<char>::empty());
            assert(vstd::utf8::encode_utf8(Seq::<char>::empty()) =~= Seq::<u8>::empty());
        }
        assert(split_line(b) == Some((Seq::<u8>::empty(), tail)));
        assert(read_lines(tail, 0) == Some((Seq::<Seq<char>>::empty(), tail)));
        assert(seq![Seq::<char>::empty()] + Seq::<Seq<char>>::empty() =~= lines.push(Seq::<char>::empty()));
    } else {
        let first = utf8(lines[0]);
        let rest_lines = lines.drop_first();
        assert forall|i: int| 0 <= i < rest_lines.len() implies !has_crlf(#[trigger] utf8(rest_lines[i])) by {
            assert(rest_lines[i] == lines[i + 1]);
        }
        lemma_read_lines(rest_lines, tail);
        let after = lines_bytes(rest_lines) + crlf + tail;
        assert(b =~= first + (crlf + after));
        assert(!has_crlf(first));
        lemma_first_crlf_from(first, crlf + after, 0);
        assert(b.take(first.len() as int) =~= first);
        assert(b.skip(first.len() as int + 2) =~= after);
        vstd::utf8::encode_utf8_valid_utf8(lines[0]);
        vstd::utf8::encode_utf8_decode_utf8(lines[0]);
        assert(split_line(b) == Some((first, after)));
        assert(seq![lines[0]] + rest_lines.push(Seq::<char>::empty()) =~= lines.push(Seq::<char>::empty()));
    }
}

proof fn lemma_lines_bytes_concat(a: Seq<Seq<char>>, b: Seq<Seq<char>>)
    ensures
        lines_bytes(a + b) == lines_bytes(a) + lines_bytes(b),
    decreases a.len(),
{
    if a.len() == 0 {
        assert(a + b =~= b);
        assert(Seq::<u8>::empty() + lines_bytes(b) =~= lines_bytes(b));
    } else {
        assert((a + b).drop_first() =~= a.drop_first() + b);
        assert((a + b)[0] == a[0]);
        lemma_lines_bytes_concat(a.drop_first(), b);
        assert(lines_bytes(a + b) =~= lines_bytes(a) + lines_bytes(b));
    }
}

proof fn lemma_field_lines_of_concat(a: Seq<(Seq<char>, Seq<char>)>, b: Seq<(Seq<char>, Seq<char>)>)
    ensures
        field_lines_of(a + b) == field_lines_of(a) + field_lines_of(b),
    decreases a.len(),
{
    if a.len() == 0 {
        assert(a + b =~= b);
        assert(Seq::<Seq<char>>::empty() + field_lines_of(b) =~= field_lines_of(b));
    } else {
        assert((a + b).drop_first() =~= a.drop_first() + b);
        assert((a + b)[0] == a[0]);
        lemma_field_lines_of_concat(a.drop_first(), b);
        assert(field_lines_of(a + b) =~= field_lines_of(a) + field_lines_of(b));
    }
}

/// The bytes of one field's line and its CR LF.
proof fn lemma_one_field_bytes(f: (Seq<char>, Seq<char>))
    ensures
        lines_bytes(field_lines_of(seq![f])) == utf8(f.0) + utf8(": "@) + utf8(f.1) + utf8("\r\n"@),
{
    let single = seq![f];
    assert(single.drop_first() =~= Seq::<(Seq<char>, Seq<char>)>::empty());
    assert(field_lines_of(Seq::<(Seq<char>, Seq<char>)>::empty()) =~= Seq::<Seq<char>>::empty());
    assert(single[0] == f);
    let ls = field_lines_of(single);
    assert(ls =~= seq![field_line(f)] + Seq::<Seq<char>>::empty());
    assert(ls =~= seq![field_line(f)]);
    assert(ls.drop_first() =~= Seq::<Seq<char>>::empty());
    assert(lines_bytes(Seq::<Seq<char>>::empty()) =~= Seq::<u8>::empty());
    assert(ls[0] == field_line(f));
    lemma_utf8_concat(f.0, ": "@);
    lemma_utf8_concat(f.0 + ": "@, f.1);
    assert(lines_bytes(ls) =~= utf8(f.0) + utf8(": "@) + utf8(f.1) + utf8("\r\n"@));
}

/// The bytes of the additional fields are their lines, one after the other.
proof fn lemma_field_lines_bytes(fields: Seq<(String, String)>)
    ensures
        field_lines(fields) == lines_bytes(field_lines_of(field_views(fields))),
    decreases fields.len(),
{
    if fields.len() == 0 {
        assert(field_views(fields) =~= Seq::<(Seq<char>, Seq<char>)>::empty());
    } else {
        let init = fields.drop_last();
        let last = fields.last();
        let f = (last.0@, last.1@);
        lemma_field_lines_bytes(init);
        assert(field_views(fields) =~= field_views(init) + seq![f]);
        lemma_field_lines_of_concat(field_views(init), seq![f]);
        lemma_lines_bytes_concat(field_lines_of(field_views(init)), field_lines_of(seq![f]));
        lemma_one_field_bytes(f);
        assert(field_lines(fields) =~= lines_bytes(field_lines_of(field_views(fields))));
    }
}

/// A message's bytes are the lines of its header fields, an empty line, and
/// its content.
proof fn lemma_message_bytes_lines(m: Message)
    ensures
        message_bytes(m) == lines_bytes(field_lines_of(header_fields(m))) + utf8("\r\n"@) + utf8(m.content@),
{
    let h = m.headers;
    reveal_strlit("Content-Length: ");
    reveal_strlit("Content-Length");
    reveal_strlit("Content-Type: ");
    reveal_strlit("Content-Type");
    reveal_strlit(": ");
    assert("Content-Length: "@ =~= "Content-Length"@ + ": "@);
    assert("Content-Type: "@ =~= "Content-Type"@ + ": "@);
    lemma_utf8_concat("Content-Length"@, ": "@);
    lemma_utf8_concat("Content-Type"@, ": "@);
    let cl = ("Content-Length"@, decimal(h.content_length as nat));
    let ct_fields: Seq<(Seq<char>, Seq<char>)> = if h.content_type@ != DEFAULT_CONTENT_TYPE@ {
        seq![("Content-Type"@, h.content_type@)]
    } else {
        Seq::empty()
    };
    let extra = field_views(h.additional@);
    assert(header_fields(m) == seq![cl] + ct_fields + extra);
    lemma_field_lines_of_concat(seq![cl] + ct_fields, extra);
    lemma_field_lines_of_concat(seq![cl], ct_fields);
    lemma_lines_bytes_concat(field_lines_of(seq![cl]) + field_lines_of(ct_fields), field_lines_of(extra));
    lemma_lines_bytes_concat(field_lines_of(seq![cl]), field_lines_of(ct_fields));
    lemma_one_field_bytes(cl);
    if h.content_type@ != DEFAULT_CONTENT_TYPE@ {
        lemma_one_field_bytes(("Content-Type"@, h.content_type@));
    } else {
        assert(field_lines_of(ct_fields) =~= Seq::<Seq<char>>::empty());
        assert(lines_bytes(field_lines_of(ct_fields)) =~= Seq::<u8>::empty());
    }
    lemma_field_lines_bytes(h.additional@);
    assert(message_bytes(m) =~= lines_bytes(field_lines_of(header_fields(m))) + utf8("\r\n"@) + utf8(m.content@));
}

/// A char that can stand in a header name or a number: ASCII, not
/// whitespace, not a colon.
pub open spec fn word_char(c: char) -> bool {
    (c as u32) < 128 && !is_whitespace(c) && c != ':'
}

/// A nonempty text of word chars.
pub open spec fn is_word(s: Seq<char>) -> bool {
    s.len() > 0 && forall|i: int| 0 <= i < s.len() ==> word_char(#[trigger] s[i])
}

proof fn lemma_word_trim_find(s: Seq<char>)
    requires
        is_word(s),
    ensures
        trim(s) == s,
        find_from(s, ": "@, 0) is None,
{
    reveal_strlit(": ");
    assert(word_char(s[0]));
    assert(word_char(s[s.len() - 1]));
    let rest = s.subrange(0, s.len() as int);
    assert(rest =~= s);
    assert(rest.subrange(0, rest.len() as int) =~= s);
    lemma_find_from(s, ": "@, 0);
    if let Some(i) = find_from(s, ": "@, 0) {
        assert(s.subrange(i, i + 2)[0] == s[i]);
        assert(word_char(s[i]));
    }
}

proof fn lemma_ascii_utf8(s: Seq<char>)
    requires
        forall|i: int| 0 <= i < s.len() ==> (#[trigger] s[i] as u32) < 128,
    ensures
        utf8(s).len() == s.len(),
        forall|i: int| 0 <= i < s.len() ==> #[trigger] utf8(s)[i] == (s[i] as u32) as u8,
    decreases s.len(),
{
    if s.len() > 0 {
        let t = s.drop_first();
        assert forall|i: int| 0 <= i < t.len() implies (#[trigger] t[i] as u32) < 128 by {
            assert(t[i] == s[i + 1]);
        }
        lemma_ascii_utf8(t);
        let v = s[0] as u32;
        assert(v < 128);
        assert(v & 0x7F == v) by (bit_vector)
            requires
                v < 128,
        ;
        assert(vstd::utf8::encode_scalar(v) =~= seq![v as u8]);
        assert forall|i: int| 0 <= i < s.len() implies #[trigger] utf8(s)[i] == (s[i] as u32) as u8 by {
            if i > 0 {
                assert(utf8(s)[i] == utf8(t)[i - 1]);
                assert(t[i - 1] == s[i]);
            }
        }
    }
}

/// A line of ASCII chars with no CR has no CR LF in its bytes.
proof fn lemma_ascii_no_crlf(s: Seq<char>)
    requires
        forall|i: int| 0 <= i < s.len() ==> (#[trigger] s[i] as u32) < 128 && s[i] != '\r',
    ensures
        !has_crlf(utf8(s)),
{
    lemma_ascii_utf8(s);
    if has_crlf(utf8(s)) {
        let i = choose|i: int| #[trigger] crlf_at(utf8(s), i);
        assert(utf8(s)[i] == (s[i] as u32) as u8);
        assert((s[i] as u32) < 128);
        assert((s[i] as u32) == 13u32);
        assert(('\r' as u32) == 13u32);
        vstd::utf8::char_u32_cast(s[i], 13u32);
        vstd::utf8::char_u32_cast('\r', 13u32);
        assert(s[i] == '\r');
    }
}

proof fn lemma_decimal_word(n: nat)
    ensures
        is_word(decimal(n)),
    decreases n,
{
    if n >= 10 {
        lemma_decimal_word(n / 10);
        let d = decimal(n / 10).push(crate::text_util::digit_char(n % 10));
        assert forall|i: int| 0 <= i < d.len() implies word_char(#[trigger] d[i]) by {
            if i < d.len() - 1 {
                assert(d[i] == decimal(n / 10)[i]);
            }
        }
    }
}

proof fn lemma_literal_words()
    ensures
        is_word("Content-Length"@),
        is_word("Content-Type"@),
{
    reveal_strlit("Content-Length");
    reveal_strlit("Content-Type");
    let a = "Content-Length"@;
    assert forall|i: int| 0 <= i < a.len() implies word_char(#[trigger] a[i]) by {
        if i == 0 {
        } else if i == 1 {
        } else if i == 2 {
        } else if i == 3 {
        } else if i == 4 {
        } else if i == 5 {
        } else if i == 6 {
        } else if i == 7 {
        } else if i == 8 {
        } else if i == 9 {
        } else if i == 10 {
        } else if i == 11 {
        } else if i == 12 {
        } else {
        }
    }
    let b = "Content-Type"@;
    assert forall|i: int| 0 <= i < b.len() implies word_char(#[trigger] b[i]) by {
        if i == 0 {
        } else if i == 1 {
        } else if i == 2 {
        } else if i == 3 {
        } else if i == 4 {
        } else if i == 5 {
        } else if i == 6 {
        } else if i == 7 {
        } else if i == 8 {
        } else if i == 9 {
        } else if i == 10 {
        } else {
        }
    }
}

/// A field whose name and value are words reads back as written.
proof fn lemma_word_field_clean(name: Seq<char>, value: Seq<char>)
    requires
        is_word(name),
        is_word(value),
    ensures
        field_clean((name, value)),
{
    reveal_strlit(": ");
    lemma_word_trim_find(name);
    lemma_word_trim_find(value);
    let line = field_line((name, value));
    assert forall|i: int| 0 <= i < line.len() implies (#[trigger] line[i] as u32) < 128 && line[i] != '\r' by {
        if i < name.len() {
            assert(line[i] == name[i]);
            assert(word_char(name[i]));
        } else if i < name.len() + 2 {
            assert(line[i] == ": "@[i - name.len()]);
        } else {
            assert(line[i] == value[i - name.len() - 2]);
            assert(word_char(value[i - name.len() - 2]));
        }
    }
    lemma_ascii_no_crlf(line);
}

proof fn lemma_field_lines_of_index(fs: Seq<(Seq<char>, Seq<char>)>)
    ensures
        field_lines_of(fs).len() == fs.len(),
        forall|i: int| 0 <= i < fs.len() ==> #[trigger] field_lines_of(fs)[i] == field_line(fs[i]),
    decreases fs.len(),
{
    if fs.len() > 0 {
        lemma_field_lines_of_index(fs.drop_first());
        assert forall|i: int| 0 <= i < fs.len() implies #[trigger] field_lines_of(fs)[i] == field_line(fs[i]) by {
            if i > 0 {
                assert(field_lines_of(fs)[i] == field_lines_of(fs.drop_first())[i - 1]);
                assert(fs.drop_first()[i - 1] == fs[i]);
            }
        }
    }
}

/// A message written to the wire reads back. Its bytes, split at CR LF,
/// give the lines of its header fields, an empty line, and then exactly the
/// bytes of its content; each of those lines parses to the field written,
/// and the length field's value to the content length. This holds where the
/// content type (where it is not the default) and the additional fields
/// read back as written (see `field_clean`).
pub proof fn law_message_reads_back(m: Message)
    requires
        m.headers.content_type@ != DEFAULT_CONTENT_TYPE@ ==> field_clean(
            ("Content-Type"@, m.headers.content_type@),
        ),
        forall|i: int|
            0 <= i < m.headers.additional@.len() ==> field_clean(#[trigger] field_views(m.headers.additional@)[i]),
    ensures
        read_lines(message_bytes(m), (header_fields(m).len() + 1) as nat) == Some(
            (field_lines_of(header_fields(m)).push(Seq::<char>::empty()), utf8(m.content@)),
        ),
        forall|i: int|
            0 <= i < header_fields(m).len() ==> spec_parse_header_field(
                #[trigger] field_lines_of(header_fields(m))[i],
            ) == Some(Some(header_fields(m)[i])),
        spec_parse_usize(header_fields(m)[0].1) == Some(m.headers.content_length as nat),
{
    let h = m.headers;
    let fs = header_fields(m);
    let cl = ("Content-Length"@, decimal(h.content_length as nat));
    let ct_fields: Seq<(Seq<char>, Seq<char>)> = if h.content_type@ != DEFAULT_CONTENT_TYPE@ {
        seq![("Content-Type"@, h.content_type@)]
    } else {
        Seq::empty()
    };
    let extra = field_views(h.additional@);
    assert(fs == seq![cl] + ct_fields + extra);
    lemma_literal_words();
    lemma_decimal_word(h.content_length as nat);
    lemma_word_field_clean(cl.0, cl.1);
    assert(extra.len() == h.additional@.len());
    assert forall|i: int| 0 <= i < fs.len() implies field_clean(#[trigger] fs[i]) by {
        let k = ct_fields.len() as int;
        if i == 0 {
            assert(fs[i] == cl);
        } else if i < 1 + k {
            assert(fs[i] == ct_fields[i - 1]);
        } else {
            assert(fs[i] == extra[i - 1 - k]);
        }
    }
    lemma_field_lines_of_index(fs);
    let lines = field_lines_of(fs);
    assert forall|i: int| 0 <= i < lines.len() implies !has_crlf(#[trigger] utf8(lines[i])) by {
        assert(field_clean(fs[i]));
    }
    lemma_message_bytes_lines(m);
    lemma_read_lines(lines, utf8(m.content@));
    assert forall|i: int| 0 <= i < fs.len() implies spec_parse_header_field(#[trigger] lines[i]) == Some(
        Some(fs[i]),
    ) by {
        assert(field_clean(fs[i]));
        law_header_field_round_trip(fs[i].0, fs[i].1);
    }
    assert(fs[0] == cl);
    law_content_length_round_trip(h.content_length);
}

// ---------------------------------------------------------------------------
// Reading a line byte by byte
// ---------------------------------------------------------------------------

/// One byte taken by a line reader holding `line` after `prev` (see
/// `LineReader::push_byte`): an LF after a CR ends the line, dropping the
/// CR; any other byte is kept.
pub open spec fn line_step(line: Seq<u8>, prev: u8, byte: u8) -> (Seq<u8>, u8, bool) {
    if byte == 10u8 && prev == 13u8 {
        (line.drop_last(), prev, true)
    } else {
        (line.push(byte), byte, false)
    }
}

/// A line reader holding `line` after `prev`, fed the bytes one by one:
/// the line it holds when one of them ends it, and how many bytes it took;
/// `None` where none ends it.
pub open spec fn line_feed(line: Seq<u8>, prev: u8, bytes: Seq<u8>) -> Option<(Seq<u8>, int)>
    decreases bytes.len(),
{
    if bytes.len() == 0 {
        None
    } else {
        let (next, last, done) = line_step(line, prev, bytes[0]);
        if done {
            Some((next, 1int))
        } else {
            match line_feed(next, last, bytes.drop_first()) {
                None => None,
                Some((l, n)) => Some((l, n + 1)),
            }
        }
    }
}

proof fn lemma_line_feed_from(b: Seq<u8>, k: int)
    requires
        0 <= k <= b.len(),
        forall|j: int| 0 <= j < k - 1 ==> !crlf_at(b, j),
    ensures
        line_feed(b.take(k), if k == 0 {
            0u8
        } else {
            b[k - 1]
        }, b.skip(k)) == match first_crlf(b, if k == 0 {
            0
        } else {
            k - 1
        }) {
            Some(i) => Some((b.take(i), i + 2 - k)),
            None => None::<(Seq<u8>, int)>,
        },
    decreases b.len() - k,
{
    let prev: u8 = if k == 0 {
        0u8
    } else {
        b[k - 1]
    };
    let from: int = if k == 0 {
        0
    } else {
        k - 1
    };
    let rest = b.skip(k);
    if k == b.len() {
        assert(rest.len() == 0);
        if k > 0 {
            assert(!crlf_at(b, k - 1));
        }
    } else {
        assert(rest[0] == b[k]);
        assert(rest.drop_first() =~= b.skip(k + 1));
        if b[k] == 10u8 && prev == 13u8 {
            assert(k > 0);
            assert(crlf_at(b, k - 1));
            assert(first_crlf(b, k - 1) == Some(k - 1));
            assert(b.take(k).drop_last() =~= b.take(k - 1));
        } else {
            assert(b.take(k).push(b[k]) =~= b.take(k + 1));
            if k > 0 {
                assert(!crlf_at(b, k - 1));
                assert(first_crlf(b, k - 1) == first_crlf(b, k));
            }
            lemma_line_feed_from(b, k + 1);
        }
    }
}

/// A line reader fed bytes from the start stops at the first CR LF and
/// holds the bytes before it: the line `split_line` gives, after taking the
/// line and its CR LF.
pub proof fn law_line_reader_splits_at_crlf(bytes: Seq<u8>)
    ensures
        line_feed(Seq::empty(), 0u8, bytes) == match split_line(bytes) {
            Some((line, _)) => Some((line, line.len() + 2int)),
            None => None::<(Seq<u8>, int)>,
        },
{
    lemma_line_feed_from(bytes, 0);
    lemma_first_crlf_found(bytes, 0);
    assert(bytes.take(0) =~= Seq::<u8>::empty());
    assert(bytes.skip(0) =~= bytes);
}

proof fn lemma_first_crlf_found(b: Seq<u8>, k: int)
    ensures
        first_crlf(b, k) matches Some(i) ==> crlf_at(b, i) && k <= i,
    decreases b.len() - k,
{
    if !(k < 0 || k + 1 >= b.len()) && !crlf_at(b, k) {
        lemma_first_crlf_found(b, k + 1);
    }
}

} // verus!
