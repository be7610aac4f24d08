use vstd::prelude::*;

use crate::text_util::{
    decimal, decimal_string, find_from, lemma_decimal_len, find_str_from, lemma_find_from, occurs_at, str_equal, trim,
    trim_str,
};

verus! {

// ---------------------------------------------------------------------------
// Messages
// ---------------------------------------------------------------------------

/// The id of a request, which its response repeats.
#[derive(Clone, Debug, PartialEq, Eq)]
pub enum Id {
    Number(i64),
    String(String),
}

/// A request: it has an id and a method. Parameters are held as JSON text.
pub struct RequestMessage {
    pub jsonrpc: String,
    pub id: Id,
    pub method: String,
    pub params: Option<String>,
}

/// A notification: a method and no id. Parameters are held as JSON text.
pub struct NotificationMessage {
    pub jsonrpc: String,
    pub method: String,
    pub params: Option<String>,
}

/// The error a response may carry.
pub struct ResponseError {
    pub code: i64,
    pub message: String,
    pub data: Option<String>,
}

/// A response to a request, with its id where the request's was known.
/// The result is held as JSON text.
pub struct ResponseMessage {
    pub jsonrpc: String,
    pub id: Option<Id>,
    pub result: Option<String>,
    pub error: Option<ResponseError>,
}

/// Any JSON-RPC message.
pub enum RpcMessage {
    Request(RequestMessage),
    Notification(NotificationMessage),
    Response(ResponseMessage),
}

/// The protocol version every message carries.
pub fn jsonrpc_version() -> (v: String)
    ensures
        v@ == "2.0"@,
{
    String::from_str("2.0")
}

impl RequestMessage {
    /// A request with no parameters.
    pub fn new(id: Id, method: String) -> (request: RequestMessage)
        ensures
            request.jsonrpc@ == "2.0"@,
            request.id == id,
            request.method == method,
            request.params is None,
    {
        RequestMessage { jsonrpc: jsonrpc_version(), id, method, params: None }
    }

    /// A request with parameters (JSON text).
    pub fn with_params(id: Id, method: String, params: String) -> (request: RequestMessage)
        ensures
            request.jsonrpc@ == "2.0"@,
            request.id == id,
            request.method == method,
            request.params == Some(params),
    {
        RequestMessage { jsonrpc: jsonrpc_version(), id, method, params: Some(params) }
    }
}

impl NotificationMessage {
    /// A notification with no parameters.
    pub fn new(method: String) -> (notification: NotificationMessage)
        ensures
            notification.jsonrpc@ == "2.0"@,
            notification.method == method,
            notification.params is None,
    {
        NotificationMessage { jsonrpc: jsonrpc_version(), method, params: None }
    }

    /// A notification with parameters (JSON text).
    pub fn with_params(method: String, params: String) -> (notification: NotificationMessage)
        ensures
            notification.jsonrpc@ == "2.0"@,
            notification.method == method,
            notification.params == Some(params),
    {
        NotificationMessage { jsonrpc: jsonrpc_version(), method, params: Some(params) }
    }
}

impl ResponseMessage {
    /// A successful response with its result (JSON text).
    pub fn success(id: Id, result: String) -> (response: ResponseMessage)
        ensures
            response.jsonrpc@ == "2.0"@,
            response.id == Some(id),
            response.result == Some(result),
            response.error is None,
    {
        ResponseMessage { jsonrpc: jsonrpc_version(), id: Some(id), result: Some(result), error: None }
    }

    /// A failed response.
    pub fn error(id: Option<Id>, error: ResponseError) -> (response: ResponseMessage)
        ensures
            response.jsonrpc@ == "2.0"@,
            response.id == id,
            response.result is None,
            response.error == Some(error),
    {
        ResponseMessage { jsonrpc: jsonrpc_version(), id, result: None, error: Some(error) }
    }
}

impl RpcMessage {
    /// Whether this is a request.
    pub fn is_request(&self) -> (b: bool)
        ensures
            b == self is Request,
    {
        match self {
            RpcMessage::Request(_) => true,
            _ => false,
        }
    }

    /// Whether this is a response.
    pub fn is_response(&self) -> (b: bool)
        ensures
            b == self is Response,
    {
        match self {
            RpcMessage::Response(_) => true,
            _ => false,
        }
    }

    /// Whether this is a notification.
    pub fn is_notification(&self) -> (b: bool)
        ensures
            b == self is Notification,
    {
        match self {
            RpcMessage::Notification(_) => true,
            _ => false,
        }
    }

    /// The method of a request or notification.
    pub fn method(&self) -> (method: Option<&str>)
        ensures
            match self {
                RpcMessage::Request(r) => method matches Some(m) && m@ == r.method@,
                RpcMessage::Notification(n) => method matches Some(m) && m@ == n.method@,
                RpcMessage::Response(_) => method is None,
            },
    {
        match self {
            RpcMessage::Request(req) => Some(req.method.as_str()),
            RpcMessage::Notification(notif) => Some(notif.method.as_str()),
            RpcMessage::Response(_) => None,
        }
    }

    /// The id of a request or response.
    pub fn id(&self) -> (id: Option<&Id>)
        ensures
            match self {
                RpcMessage::Request(r) => id == Some(&r.id),
                RpcMessage::Response(r) => match r.id {
                    Some(i) => id == Some(&i),
                    None => id is None,
                },
                RpcMessage::Notification(_) => id is None,
            },
    {
        match self {
            RpcMessage::Request(req) => Some(&req.id),
            RpcMessage::Response(resp) => match &resp.id {
                Some(i) => Some(i),
                None => None,
            },
            RpcMessage::Notification(_) => None,
        }
    }
}

// ---------------------------------------------------------------------------
// Headers
// ---------------------------------------------------------------------------

/// The content type a message has unless it says otherwise.
pub const DEFAULT_CONTENT_TYPE: &'static str = "application/vscode-jsonrpc; charset=utf-8";

/// What can go wrong reading a message.
#[derive(Debug, PartialEq, Eq)]
pub enum JsonRpcError {
    /// A header line without `": "`.
    InvalidHeaderField(String),
    /// A `Content-Length` that is not a number.
    InvalidContentLength(String),
    /// No `Content-Length` among the headers.
    MissingContentLength,
    /// A charset other than UTF-8.
    UnsupportedEncoding(String),
    /// Bytes that are not UTF-8.
    InvalidUtf8,
}

/// The names and values of header fields, as text.
pub open spec fn field_views(fields: Seq<(String, String)>) -> Seq<(Seq<char>, Seq<char>)> {
    fields.map_values(|p: (String, String)| (p.0@, p.1@))
}

/// No name occurs twice among the additional header fields.
pub open spec fn names_distinct(fields: Seq<(Seq<char>, Seq<char>)>) -> bool {
    forall|i: int, j: int| 0 <= i < j < fields.len() ==> #[trigger] fields[i].0 != #[trigger] fields[j].0
}

/// The header fields of a message.
pub struct MessageHeaders {
    /// The length of the content part in bytes.
    pub content_length: usize,
    /// The MIME type of the content part.
    pub content_type: String,
    /// Additional header fields, in the order first added; each name once.
    pub additional: Vec<(String, String)>,
}

/// The additional fields with `value` under `name`: it replaces the value of
/// a field of that name, or comes last as a new field.
pub open spec fn with_field(fields: Seq<(Seq<char>, Seq<char>)>, name: Seq<char>, value: Seq<char>) -> Seq<
    (Seq<char>, Seq<char>),
> {
    if exists|i: int| 0 <= i < fields.len() && #[trigger] fields[i].0 == name {
        let i = choose|i: int| 0 <= i < fields.len() && #[trigger] fields[i].0 == name;
        fields.update(i, (name, value))
    } else {
        fields.push((name, value))
    }
}

/// The charset named in a content type: the text after the first
/// `charset=` (up to the next `charset=`, if any), up to the first `;`,
/// trimmed; `utf8` is read as `utf-8`, and a content type without a
/// charset is `utf-8`.
pub open spec fn spec_encoding(content_type: Seq<char>) -> Seq<char> {
    let key = "charset="@;
    match find_from(content_type, key, 0) {
        None => "utf-8"@,
        Some(i) => {
            let after = i + key.len();
            let stop = match find_from(content_type, key, after) {
                Some(j) => j,
                None => content_type.len() as int,
            };
            let part = content_type.subrange(after, stop);
            let upto = match find_from(part, ";"@, 0) {
                Some(k) => k,
                None => part.len() as int,
            };
            let charset = trim(part.subrange(0, upto));
            if charset == "utf8"@ {
                "utf-8"@
            } else {
                charset
            }
        },
    }
}

impl MessageHeaders {
    /// Headers for content of the given length, with the default content
    /// type and no other fields.
    pub fn new(content_length: usize) -> (headers: MessageHeaders)
        ensures
            headers.content_length == content_length,
            headers.content_type@ == DEFAULT_CONTENT_TYPE@,
            headers.additional@.len() == 0,
    {
        MessageHeaders {
            content_length,
            content_type: String::from_str(DEFAULT_CONTENT_TYPE),
            additional: Vec::new(),
        }
    }

    /// Headers with a content type of the caller's.
    pub fn with_content_type(content_length: usize, content_type: String) -> (headers: MessageHeaders)
        ensures
            headers.content_length == content_length,
            headers.content_type == content_type,
            headers.additional@.len() == 0,
    {
        MessageHeaders { content_length, content_type, additional: Vec::new() }
    }

    /// Adds a header field; a field of the same name gets the new value.
    pub fn add_header(self, name: String, value: String) -> (headers: MessageHeaders)
        requires
            names_distinct(field_views(self.additional@)),
        ensures
            headers.content_length == self.content_length,
            headers.content_type == self.content_type,
            field_views(headers.additional@) == with_field(field_views(self.additional@), name@, value@),
            names_distinct(field_views(headers.additional@)),
    {
        let mut headers = self;
        let ghost fields = field_views(headers.additional@);
        let mut i: usize = 0;
        while i < headers.additional.len()
            invariant
                field_views(headers.additional@) == fields,
                fields == field_views(self.additional@),
                headers.additional@.len() == fields.len(),
                headers.content_length == self.content_length,
                headers.content_type == self.content_type,
                names_distinct(fields),
                0 <= i <= fields.len(),
                forall|k: int| 0 <= k < i ==> #[trigger] fields[k].0 != name@,
            decreases fields.len() - i,
        {
            proof {
                assert(fields[i as int] == (headers.additional@[i as int].0@, headers.additional@[i as int].1@));
            }
            if str_equal(headers.additional[i].0.as_str(), name.as_str()) {
                let ghost before = headers.additional@;
                let _ = headers.additional.remove(i);
                headers.additional.insert(i, (name, value));
                proof {
                    assert(fields[i as int].0 == name@);
                    let w = choose|w: int| 0 <= w < fields.len() && #[trigger] fields[w].0 == name@;
                    if w != i {
                        assert(fields[w].0 == fields[i as int].0);
                    }
                    assert(headers.additional@ =~= before.update(i as int, (name, value)));
                    assert(field_views(headers.additional@) =~= fields.update(i as int, (name@, value@)));
                }
                return headers;
            }
            i += 1;
        }
        headers.additional.push((name, value));
        proof {
            assert(field_views(headers.additional@) =~= fields.push((name@, value@)));
        }
        headers
    }

    /// The character encoding of the content (see `spec_encoding`).
    pub fn get_encoding(&self) -> (encoding: &str)
        ensures
            encoding@ == spec_encoding(self.content_type@),
    {
        let ct = self.content_type.as_str();
        let ct_len = ct.unicode_len();
        let key = "charset=";
        proof {
            reveal_strlit("charset=");
            reveal_strlit(";");
            reveal_strlit("utf8");
            reveal_strlit("utf-8");
        }
        match find_str_from(ct, key, 0) {
            None => "utf-8",
            Some(i) => {
                proof {
                    lemma_find_from(ct@, key@, 0);
                }
                let after = i + 8;
                let stop = match find_str_from(ct, key, after) {
                    Some(j) => {
                        proof {
                            lemma_find_from(ct@, key@, after as int);
                        }
                        j
                    },
                    None => ct_len,
                };
                let part = ct.substring_char(after, stop);
                let upto = match find_str_from(part, ";", 0) {
                    Some(k) => {
                        proof {
                            lemma_find_from(part@, ";"@, 0);
                        }
                        k
                    },
                    None => part.unicode_len(),
                };
                let charset = trim_str(part.substring_char(0, upto));
                if charset.unicode_len() == 4 && charset.get_char(0) == 'u' && charset.get_char(1) == 't'
                    && charset.get_char(2) == 'f' && charset.get_char(3) == '8' {
                    proof {
                        assert(charset@ =~= "utf8"@);
                    }
                    "utf-8"
                } else {
                    proof {
                        if charset@ == "utf8"@ {
                            assert(charset@[0] == 'u');
                        }
                    }
                    charset
                }
            },
        }
    }
}

/// A header line split at its first `": "`, both parts trimmed; `None` for
/// an empty line.
pub open spec fn spec_parse_header_field(line: Seq<char>) -> Option<Option<(Seq<char>, Seq<char>)>> {
    if line.len() == 0 {
        Some(None)
    } else {
        match find_from(line, ": "@, 0) {
            None => None,
            Some(i) => Some(Some((trim(line.subrange(0, i)), trim(line.subrange(i + 2, line.len() as int))))),
        }
    }
}

/// Splits a header line into its name and value. An empty line (the end of
/// the headers) gives `None`; a line without `": "` is an error.
pub fn parse_header_field(line: &str) -> (field: Result<Option<(String, String)>, JsonRpcError>)
    ensures
        match field {
            Ok(None) => spec_parse_header_field(line@) == Some(None::<(Seq<char>, Seq<char>)>),
            Ok(Some((name, value))) => spec_parse_header_field(line@) == Some(Some((name@, value@))),
            Err(e) => spec_parse_header_field(line@) is None && (e matches JsonRpcError::InvalidHeaderField(
                l,
            ) && l@ == line@),
        },
{
    proof {
        reveal_strlit(": ");
    }
    let len = line.unicode_len();
    if len == 0 {
        return Ok(None);
    }
    match find_str_from(line, ": ", 0) {
        None => Err(JsonRpcError::InvalidHeaderField(line.to_owned())),
        Some(i) => {
            proof {
                lemma_find_from(line@, ": "@, 0);
            }
            let name = trim_str(line.substring_char(0, i)).to_owned();
            let value = trim_str(line.substring_char(i + 2, len)).to_owned();
            Ok(Some((name, value)))
        },
    }
}

// ---------------------------------------------------------------------------
// Whole messages
// ---------------------------------------------------------------------------

/// A message: its headers and its content.
pub struct Message {
    pub headers: MessageHeaders,
    pub content: String,
}

/// The bytes of the text `s` in UTF-8.
pub open spec fn utf8(s: Seq<char>) -> Seq<u8> {
    vstd::utf8::encode_utf8(s)
}

/// The header lines of the additional fields, `name: value` each.
pub open spec fn field_lines(fields: Seq<(String, String)>) -> Seq<u8>
    decreases fields.len(),
{
    if fields.len() == 0 {
        Seq::empty()
    } else {
        field_lines(fields.drop_last()) + utf8(fields.last().0@) + utf8(": "@) + utf8(fields.last().1@)
            + utf8("\r\n"@)
    }
}

/// A message as it goes over the wire: the `Content-Length` line, a
/// `Content-Type` line where the type is not the default, a line for each
/// additional field, an empty line, and the content.
pub open spec fn message_bytes(m: Message) -> Seq<u8> {
    let h = m.headers;
    utf8("Content-Length: "@) + utf8(decimal(h.content_length as nat)) + utf8("\r\n"@) + (if h.content_type@
        != DEFAULT_CONTENT_TYPE@ {
        utf8("Content-Type: "@) + utf8(h.content_type@) + utf8("\r\n"@)
    } else {
        Seq::empty()
    }) + field_lines(h.additional@) + utf8("\r\n"@) + utf8(m.content@)
}

/// Appends the UTF-8 bytes of `s`.
fn push_bytes(out: &mut Vec<u8>, s: &str)
    ensures
        final(out)@ == old(out)@ + utf8(s@),
{
    let bytes = s.as_bytes();
    let ghost start = out@;
    let mut i: usize = 0;
    while i < bytes.len()
        invariant
            bytes@ == utf8(s@),
            0 <= i <= bytes@.len(),
            out@ == start + bytes@.subrange(0, i as int),
        decreases bytes@.len() - i,
    {
        out.push(bytes[i]);
        i += 1;
        proof {
            assert(out@ =~= start + bytes@.subrange(0, i as int));
        }
    }
    assert(bytes@.subrange(0, bytes@.len() as int) =~= bytes@);
}

impl Message {
    /// A message with the given content, its length in bytes and the
    /// default content type.
    pub fn new(content: String) -> (message: Message)
        ensures
            message.content == content,
            message.headers.content_length == utf8(content@).len(),
            message.headers.content_type@ == DEFAULT_CONTENT_TYPE@,
            message.headers.additional@.len() == 0,
    {
        let content_bytes = content.as_str().as_bytes().len();
        Message { headers: MessageHeaders::new(content_bytes), content }
    }

    /// The message as bytes for the wire (see `message_bytes`).
    pub fn to_bytes(&self) -> (bytes: Vec<u8>)
        ensures
            bytes@ == message_bytes(*self),
    {
        let mut result: Vec<u8> = Vec::new();
        push_bytes(&mut result, "Content-Length: ");
        let length = decimal_string(self.headers.content_length);
        push_bytes(&mut result, length.as_str());
        push_bytes(&mut result, "\r\n");
        let ghost before_type = result@;
        if !str_equal(self.headers.content_type.as_str(), DEFAULT_CONTENT_TYPE) {
            push_bytes(&mut result, "Content-Type: ");
            push_bytes(&mut result, self.headers.content_type.as_str());
            push_bytes(&mut result, "\r\n");
        }
        let ghost before_fields = result@;
        let fields = &self.headers.additional;
        let mut i: usize = 0;
        while i < fields.len()
            invariant
                0 <= i <= fields@.len(),
                result@ == before_fields + field_lines(fields@.subrange(0, i as int)),
            decreases fields@.len() - i,
        {
            push_bytes(&mut result, fields[i].0.as_str());
            push_bytes(&mut result, ": ");
            push_bytes(&mut result, fields[i].1.as_str());
            push_bytes(&mut result, "\r\n");
            proof {
                let next = fields@.subrange(0, i + 1);
                assert(next.drop_last() =~= fields@.subrange(0, i as int));
                assert(next.last() == fields@[i as int]);
                assert(result@ =~= before_fields + field_lines(next));
            }
            i += 1;
        }
        assert(fields@.subrange(0, fields@.len() as int) =~= fields@);
        push_bytes(&mut result, "\r\n");
        push_bytes(&mut result, self.content.as_str());
        assert(result@ =~= message_bytes(*self));
        result
    }
}

// ---------------------------------------------------------------------------
// Reading a message
// ---------------------------------------------------------------------------

/// The decimal number a header value spells, as `usize::from_str` reads it:
/// an optional `+`, then one or more ASCII digits, with a value that fits.
pub open spec fn spec_parse_usize(s: Seq<char>) -> Option<nat> {
    let digits = if s.len() > 0 && s[0] == '+' {
        s.subrange(1, s.len() as int)
    } else {
        s
    };
    if digits.len() > 0 && all_digits(digits) && crate::editor::aggregate::digits_value(digits)
        <= usize::MAX {
        Some(crate::editor::aggregate::digits_value(digits) as nat)
    } else {
        None
    }
}

/// Every character is an ASCII digit.
pub open spec fn all_digits(ds: Seq<char>) -> bool {
    forall|i: int| 0 <= i < ds.len() ==> crate::editor::aggregate::is_digit(#[trigger] ds[i])
}

/// Reads a decimal `usize` as `usize::from_str` does (see `spec_parse_usize`).
pub fn parse_usize(s: &str) -> (n: Option<usize>)
    ensures
        match n {
            Some(v) => spec_parse_usize(s@) == Some(v as nat),
            None => spec_parse_usize(s@) is None,
        },
{
    let len = s.unicode_len();
    let start: usize = if len > 0 && s.get_char(0) == '+' {
        1
    } else {
        0
    };
    let ghost digits = s@.subrange(start as int, len as int);
    proof {
        if len > 0 && s@[0] == '+' {
            assert(digits == s@.subrange(1, s@.len() as int));
        } else {
            assert(digits =~= s@);
        }
    }
    if start == len {
        return None;
    }
    let mut value: usize = 0;
    let mut i: usize = start;
    while i < len
        invariant
            len == s@.len(),
            start <= i <= len,
            digits == s@.subrange(start as int, len as int),
            digits == (if s@.len() > 0 && s@[0] == '+' {
                s@.subrange(1, s@.len() as int)
            } else {
                s@
            }),
            forall|k: int| 0 <= k < i - start ==> crate::editor::aggregate::is_digit(#[trigger] digits[k]),
            value == crate::editor::aggregate::digits_value(digits.take(i - start)),
        decreases len - i,
    {
        let c = s.get_char(i);
        if !('0' <= c && c <= '9') {
            proof {
                assert(digits[i - start] == c);
                assert(!all_digits(digits));
            }
            return None;
        }
        let d = (c as u32 - '0' as u32) as usize;
        proof {
            assert(digits[i - start] == c);
            assert(digits.take(i - start + 1).drop_last() =~= digits.take(i - start));
            assert(digits.take(i - start + 1).last() == c);
        }
        if value > (usize::MAX - d) / 10 {
            proof {
                let ds = digits.take(i - start + 1);
                assert(crate::editor::aggregate::digits_value(ds) > usize::MAX) by (nonlinear_arith)
                    requires
                        crate::editor::aggregate::digits_value(ds) == value * 10 + d,
                        value > (usize::MAX - d) / 10,
                        d <= 9,
                ;
                if all_digits(digits) {
                    crate::editor::aggregate::lemma_digits_value_prefix(digits, i - start + 1);
                }
            }
            return None;
        }
        value = value * 10 + d;
        i += 1;
    }
    assert(digits.take(len - start) =~= digits);
    Some(value)
}

/// The digits of `n` in decimal spell `n` back.
proof fn lemma_decimal_digits(n: nat)
    ensures
        all_digits(decimal(n)),
        crate::editor::aggregate::digits_value(decimal(n)) == n,
        decimal(n)[0] != '+',
    decreases n,
{
    lemma_decimal_len(n);
    let last = n % 10;
    assert(crate::text_util::digit_char(last) as int - '0' as int == last);
    if n < 10 {
        let d = seq![crate::text_util::digit_char(n)];
        assert(d.drop_last() =~= Seq::<char>::empty());
        assert(crate::editor::aggregate::digits_value(d.drop_last()) == 0);
    } else {
        lemma_decimal_digits(n / 10);
        let d = decimal(n / 10).push(crate::text_util::digit_char(n % 10));
        assert(d.drop_last() =~= decimal(n / 10));
        assert(n == (n / 10) * 10 + last);
        assert(d[0] == decimal(n / 10)[0]);
        assert forall|i: int| 0 <= i < d.len() implies crate::editor::aggregate::is_digit(#[trigger] d[i]) by {
            if i < d.len() - 1 {
                assert(d[i] == decimal(n / 10)[i]);
            }
        }
    }
}

/// The `Content-Length` a message is written with reads back as the same
/// number: the decimal digits of a length parse to that length.
pub proof fn law_content_length_round_trip(n: usize)
    ensures
        spec_parse_usize(decimal(n as nat)) == Some(n as nat),
{
    lemma_decimal_digits(n as nat);
}

/// A header field written as `name: value` reads back as the same name and
/// value, where neither has whitespace at its ends and the name holds no
/// `": "`.
pub proof fn law_header_field_round_trip(name: Seq<char>, value: Seq<char>)
    requires
        trim(name) == name,
        trim(value) == value,
        find_from(name, ": "@, 0) is None,
    ensures
        spec_parse_header_field(name + ": "@ + value) == Some(Some((name, value))),
{
    reveal_strlit(": ");
    let line = name + ": "@ + value;
    let k = name.len() as int;
    lemma_find_from(name, ": "@, 0);
    assert(occurs_at(line, ": "@, k)) by {
        assert(line.subrange(k, k + 2) =~= ": "@);
    }
    assert forall|j: int| 0 <= j < k implies !occurs_at(line, ": "@, j) by {
        if j + 2 <= k {
            assert(line.subrange(j, j + 2) =~= name.subrange(j, j + 2));
            assert(!occurs_at(name, ": "@, j));
        } else {
            assert(line[j + 1] == ':');
            if occurs_at(line, ": "@, j) {
                assert(line.subrange(j, j + 2)[1] == line[j + 1]);
                assert(": "@[1] == ' ');
            }
        }
    }
    lemma_find_first(line, ": "@, 0, k);
    assert(line.subrange(0, k) =~= name);
    assert(line.subrange(k + 2, line.len() as int) =~= value);
}

/// The first occurrence from `k` on is at `i` when the pattern occurs at `i`
/// and nowhere between `k` and `i`.
proof fn lemma_find_first(s: Seq<char>, pat: Seq<char>, k: int, i: int)
    requires
        0 <= k <= i,
        occurs_at(s, pat, i),
        forall|j: int| k <= j < i ==> !occurs_at(s, pat, j),
    ensures
        find_from(s, pat, k) == Some(i),
    decreases i - k,
{
    if k < i {
        lemma_find_first(s, pat, k + 1, i);
    }
}

/// Content written as UTF-8 decodes to itself: its bytes are valid UTF-8,
/// and the only text with those bytes is the content.
pub proof fn law_content_round_trip(content: Seq<char>, decoded: Seq<char>)
    requires
        utf8(decoded) == utf8(content),
    ensures
        vstd::utf8::valid_utf8(utf8(content)),
        decoded == content,
{
    vstd::utf8::encode_utf8_valid_utf8(content);
    vstd::utf8::encode_utf8_decode_utf8(content);
    vstd::utf8::encode_utf8_decode_utf8(decoded);
}

/// The lowercase form of a text, as `str::to_lowercase` computes it.
pub uninterp spec fn lowercase(s: Seq<char>) -> Seq<char>;

/// A character is ASCII.
pub open spec fn is_ascii_char(c: char) -> bool {
    (c as u32) < 128
}

/// The lowercase form of an ASCII character: `A`..`Z` become `a`..`z`.
pub open spec fn ascii_lower(c: char) -> char {
    if 'A' <= c <= 'Z' {
        ((c as u32) + 32) as char
    } else {
        c
    }
}

/// `str::to_lowercase`: its result depends on the text alone, and an ASCII
/// text lowers character by character, the letters `A`..`Z` to `a`..`z`
/// and every other ASCII character to itself, as std documents for ASCII.
/// What it gives for other characters (Unicode case mapping) is named, not
/// stated.
#[verifier::external_body]
fn to_lowercase(s: &str) -> (lower: String)
    ensures
        lower@ == lowercase(s@),
        (forall|i: int| 0 <= i < s@.len() ==> is_ascii_char(#[trigger] s@[i])) ==> lower@ == s@.map_values(
            |c: char| ascii_lower(c),
        ),
{
    s.to_lowercase()
}

/// The headers read so far.
pub struct HeaderReader {
    pub content_length: Option<usize>,
    pub content_type: String,
    pub additional: Vec<(String, String)>,
}

/// The value of a header reader: length, content type, additional fields.
pub open spec fn reader_view(r: HeaderReader) -> (Option<usize>, Seq<char>, Seq<(Seq<char>, Seq<char>)>) {
    (r.content_length, r.content_type@, field_views(r.additional@))
}

/// The headers read after one more field (not the empty line that ends
/// the headers): `Content-Length` and `Content-Type`, in any case, set those;
/// any other field is added, replacing one of the same name. `None` for a
/// length that is not a number.
pub open spec fn spec_read_header_field(
    r: (Option<usize>, Seq<char>, Seq<(Seq<char>, Seq<char>)>),
    name: Seq<char>,
    value: Seq<char>,
) -> Option<(Option<usize>, Seq<char>, Seq<(Seq<char>, Seq<char>)>)> {
    spec_take_header_field(r, lowercase(name), name, value)
}

/// The headers read after one more field whose name lowercases to `lower`:
/// `content-length` and `content-type` set those; any other field is added,
/// replacing one of the same name. `None` for a length that is not a number.
pub open spec fn spec_take_header_field(
    r: (Option<usize>, Seq<char>, Seq<(Seq<char>, Seq<char>)>),
    lower: Seq<char>,
    name: Seq<char>,
    value: Seq<char>,
) -> Option<(Option<usize>, Seq<char>, Seq<(Seq<char>, Seq<char>)>)> {
    if lower == "content-length"@ {
        match spec_parse_usize(value) {
            Some(n) => Some((Some(n as usize), r.1, r.2)),
            None => None,
        }
    } else if lower == "content-type"@ {
        Some((r.0, value, r.2))
    } else {
        Some((r.0, r.1, with_field(r.2, name, value)))
    }
}

impl HeaderReader {
    /// No headers read yet: no length, the default content type.
    pub fn new() -> (reader: HeaderReader)
        ensures
            reader.content_length is None,
            reader.content_type@ == DEFAULT_CONTENT_TYPE@,
            reader.additional@.len() == 0,
    {
        HeaderReader {
            content_length: None,
            content_type: String::from_str(DEFAULT_CONTENT_TYPE),
            additional: Vec::new(),
        }
    }

    /// Takes one header line. Gives `Ok(true)` at the empty line that ends
    /// the headers, `Ok(false)` after a field, and an error for a line that
    /// is not a field or a `Content-Length` that is not a number. A field
    /// name in ASCII is matched in lowercase letter by letter (see
    /// `to_lowercase`).
    pub fn read_header_line(&mut self, line: &str) -> (done: Result<bool, JsonRpcError>)
        requires
            names_distinct(field_views(old(self).additional@)),
        ensures
            names_distinct(field_views(final(self).additional@)),
            match spec_parse_header_field(line@) {
                None => {
                    &&& done matches Err(JsonRpcError::InvalidHeaderField(l)) && l@ == line@
                    &&& reader_view(*final(self)) == reader_view(*old(self))
                },
                Some(None) => {
                    &&& done == Ok::<bool, JsonRpcError>(true)
                    &&& reader_view(*final(self)) == reader_view(*old(self))
                },
                Some(Some((name, value))) => match spec_read_header_field(reader_view(*old(self)), name, value) {
                    None => {
                        &&& done matches Err(JsonRpcError::InvalidContentLength(v)) && v@ == value
                        &&& reader_view(*final(self)) == reader_view(*old(self))
                    },
                    Some(r) => {
                        &&& done == Ok::<bool, JsonRpcError>(false)
                        &&& reader_view(*final(self)) == r
                    },
                },
            },
            spec_parse_header_field(line@) matches Some(Some((name, value))) ==> ((forall|i: int|
                0 <= i < name.len() ==> is_ascii_char(#[trigger] name[i])) ==> lowercase(name) == name.map_values(
                |c: char| ascii_lower(c),
            )),
    {
        let field = parse_header_field(line);
        match field {
            Err(e) => Err(e),
            Ok(None) => Ok(true),
            Ok(Some((name, value))) => {
                let lower = to_lowercase(name.as_str());
                self.take_header_field(lower.as_str(), name, value)
            },
        }
    }

    /// Takes one header field whose name lowercases to `lower`: gives
    /// `Ok(false)` and the headers as `spec_take_header_field` says, or an
    /// error for a `Content-Length` that is not a number.
    pub fn take_header_field(&mut self, lower: &str, name: String, value: String) -> (done: Result<bool, JsonRpcError>)
        requires
            names_distinct(field_views(old(self).additional@)),
        ensures
            names_distinct(field_views(final(self).additional@)),
            match spec_take_header_field(reader_view(*old(self)), lower@, name@, value@) {
                None => {
                    &&& done matches Err(JsonRpcError::InvalidContentLength(v)) && v@ == value@
                    &&& reader_view(*final(self)) == reader_view(*old(self))
                },
                Some(r) => {
                    &&& done == Ok::<bool, JsonRpcError>(false)
                    &&& reader_view(*final(self)) == r
                },
            },
    {
        proof {
            reveal_strlit("content-length");
            reveal_strlit("content-type");
        }
        if str_equal(lower, "content-length") {
            match parse_usize(value.as_str()) {
                Some(n) => {
                    self.content_length = Some(n);
                    Ok(false)
                },
                None => Err(JsonRpcError::InvalidContentLength(value)),
            }
        } else if str_equal(lower, "content-type") {
            self.content_type = value;
            Ok(false)
        } else {
            let mut additional: Vec<(String, String)> = Vec::new();
            std::mem::swap(&mut additional, &mut self.additional);
            let headers = MessageHeaders { content_length: 0, content_type: String::new(), additional };
            let headers = headers.add_header(name, value);
            self.additional = headers.additional;
            Ok(false)
        }
    }

    /// The headers read, once the empty line has come; an error where no
    /// `Content-Length` was read.
    pub fn finish(self) -> (headers: Result<MessageHeaders, JsonRpcError>)
        ensures
            match self.content_length {
                None => headers == Err::<MessageHeaders, JsonRpcError>(JsonRpcError::MissingContentLength),
                Some(n) => headers matches Ok(h) && h.content_length == n && h.content_type == self.content_type
                    && h.additional == self.additional,
            },
    {
        match self.content_length {
            None => Err(JsonRpcError::MissingContentLength),
            Some(content_length) => Ok(
                MessageHeaders {
                    content_length,
                    content_type: self.content_type,
                    additional: self.additional,
                },
            ),
        }
    }
}

/// The text the bytes are in UTF-8, if they are valid UTF-8
/// (`String::from_utf8`).
#[verifier::external_body]
fn string_from_utf8(bytes: Vec<u8>) -> (text: Option<String>)
    ensures
        match text {
            Some(t) => utf8(t@) == bytes@,
            None => !vstd::utf8::valid_utf8(bytes@),
        },
{
    String::from_utf8(bytes).ok()
}

/// The content of a message from its bytes: an error where the headers name
/// an encoding other than UTF-8, or the bytes are not UTF-8.
pub fn decode_content(headers: &MessageHeaders, buffer: Vec<u8>) -> (content: Result<String, JsonRpcError>)
    ensures
        spec_encoding(headers.content_type@) != "utf-8"@ ==> (content matches Err(
            JsonRpcError::UnsupportedEncoding(e),
        ) && e@ == spec_encoding(headers.content_type@)),
        spec_encoding(headers.content_type@) == "utf-8"@ ==> match content {
            Ok(text) => utf8(text@) == buffer@,
            Err(e) => e == JsonRpcError::InvalidUtf8 && !vstd::utf8::valid_utf8(buffer@),
        },
{
    let encoding = headers.get_encoding();
    proof {
        reveal_strlit("utf-8");
    }
    if !str_equal(encoding, "utf-8") {
        return Err(JsonRpcError::UnsupportedEncoding(encoding.to_owned()));
    }
    match string_from_utf8(buffer) {
        Some(text) => Ok(text),
        None => Err(JsonRpcError::InvalidUtf8),
    }
}

/// A header line being read byte by byte, up to `\r\n`.
pub struct LineReader {
    pub line: Vec<u8>,
    pub prev_byte: u8,
}

impl LineReader {
    /// Nothing read yet.
    pub fn new() -> (reader: LineReader)
        ensures
            reader.line@.len() == 0,
            reader.prev_byte == 0,
    {
        LineReader { line: Vec::new(), prev_byte: 0 }
    }

    /// Takes one byte; gives `true` when it ends the line (a `\n` after a
    /// `\r`, which is then dropped from the line); see `line_step`.
    pub fn push_byte(&mut self, byte: u8) -> (done: bool)
        requires
            old(self).prev_byte == 13u8 ==> old(self).line@.len() > 0,
        ensures
            (final(self).line@, final(self).prev_byte, done) == crate::framing::line_step(
                old(self).line@,
                old(self).prev_byte,
                byte,
            ),
            !done ==> (final(self).prev_byte == 13u8 ==> final(self).line@.len() > 0),
    {
        if byte == 10u8 && self.prev_byte == 13u8 {
            self.line.pop();
            return true;
        }
        self.line.push(byte);
        self.prev_byte = byte;
        false
    }

    /// The line read, as text; an error where it is not UTF-8.
    pub fn finish(self) -> (text: Result<String, JsonRpcError>)
        ensures
            match text {
                Ok(t) => utf8(t@) == self.line@,
                Err(e) => e == JsonRpcError::InvalidUtf8 && !vstd::utf8::valid_utf8(self.line@),
            },
    {
        match string_from_utf8(self.line) {
            Some(t) => Ok(t),
            None => Err(JsonRpcError::InvalidUtf8),
        }
    }
}
} // verus!
