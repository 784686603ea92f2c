//! The form of a `CONNECT` request, as a function of the items that were read of a stream.
//!
//! ```text
//! CONNECT <hostname>:<port> HTTP/1.1\r\n
//! <Key>: <Value>\r\n
//! \r\n
//! ```
//!
//! A request is read in runs. A run takes bytes as long as they belong to a [`Class`], and the
//! item that ends it is looked at but left to the next run, unless it is the end of the
//! stream, which the run takes with it. So every function here takes the items `s` and the
//! index `i` at which its part begins, and says of all of `s` what becomes of the request.

use vstd::prelude::*;

use crate::stream::Item;
use crate::text::{ascii, text_of, with_reason};

verus! {

/// The method that a request begins with.
pub const CONNECT: &'static str = "CONNECT";

/// The protocol that a request line ends with.
pub const PROTOCOL: &'static str = "HTTP/1.1";

/// The space.
pub const SPACE: u8 = 0x20;

/// The colon.
pub const COLON: u8 = 0x3a;

/// The digit zero.
pub const ZERO: u8 = 0x30;

/// The digit nine.
pub const NINE: u8 = 0x39;

/// The carriage return.
pub const CR: u8 = 0x0d;

/// The line feed.
pub const LF: u8 = 0x0a;

/// The bytes that a run takes.
#[derive(Clone, Copy, Debug, PartialEq, Eq, Structural)]
pub enum Class {
    Any,
    Space,
    Colon,
    NotColon,
    Digit,
    Cr,
    NotCr,
    Lf,
}

impl Class {
    /// Whether a run of this class takes `b`.
    pub open spec fn takes(self, b: u8) -> bool {
        match self {
            Class::Any => true,
            Class::Space => b == SPACE,
            Class::Colon => b == COLON,
            Class::NotColon => b != COLON,
            Class::Digit => ZERO <= b <= NINE,
            Class::Cr => b == CR,
            Class::NotCr => b != CR,
            Class::Lf => b == LF,
        }
    }

    /// Whether a run of this class takes `item`: only bytes are ever taken.
    pub open spec fn takes_item(self, item: Item) -> bool {
        item matches Item::Byte(b) && self.takes(b)
    }

    /// Whether a run of this class takes `b`.
    pub fn accepts(self, b: u8) -> (yes: bool)
        ensures
            yes == self.takes(b),
    {
        match self {
            Class::Any => true,
            Class::Space => b == SPACE,
            Class::Colon => b == COLON,
            Class::NotColon => b != COLON,
            Class::Digit => ZERO <= b && b <= NINE,
            Class::Cr => b == CR,
            Class::NotCr => b != CR,
            Class::Lf => b == LF,
        }
    }
}

/// A part of a request that has been read whole, in the order in which the parts come.
#[derive(Debug)]
pub enum Field {
    Method(Vec<u8>),
    Hostname(Vec<u8>),
    Port(i32),
    Protocol(Vec<u8>),
    Key(Vec<u8>),
    Value(Vec<u8>),
    End,
}

/// What a [`Field`] holds.
pub enum FieldView {
    Method(Seq<u8>),
    Hostname(Seq<u8>),
    Port(i32),
    Protocol(Seq<u8>),
    Key(Seq<u8>),
    Value(Seq<u8>),
    End,
}

impl View for Field {
    type V = FieldView;

    open spec fn view(&self) -> FieldView {
        match self {
            Field::Method(bytes) => FieldView::Method(bytes@),
            Field::Hostname(bytes) => FieldView::Hostname(bytes@),
            Field::Port(port) => FieldView::Port(*port),
            Field::Protocol(bytes) => FieldView::Protocol(bytes@),
            Field::Key(bytes) => FieldView::Key(bytes@),
            Field::Value(bytes) => FieldView::Value(bytes@),
            Field::End => FieldView::End,
        }
    }
}

/// What a list of fields holds.
pub open spec fn fields_view(fields: Seq<Field>) -> Seq<FieldView> {
    fields.map_values(|f: Field| f@)
}

/// What a part holds are its bytes, or its number, and nothing else.
pub proof fn law_parts_hold_their_bytes(bytes: Vec<u8>, port: i32)
    ensures
        Field::Method(bytes)@ == FieldView::Method(bytes@),
        Field::Hostname(bytes)@ == FieldView::Hostname(bytes@),
        Field::Port(port)@ == FieldView::Port(port),
        Field::Protocol(bytes)@ == FieldView::Protocol(bytes@),
        Field::Key(bytes)@ == FieldView::Key(bytes@),
        Field::Value(bytes)@ == FieldView::Value(bytes@),
        Field::End@ == FieldView::End,
{
}

/// Why a request is refused.
#[derive(Debug)]
pub enum ParseError {
    /// The stream failed before the method was read.
    Stream(String),
    ExpectedConnect,
    EmptyPort,
    PortTooLarge,
    ExpectedProtocol,
    ExpectedNewline,
}

impl ParseError {
    /// What the user is told of the error.
    pub open spec fn text(self) -> Seq<char> {
        match self {
            ParseError::Stream(text) => text@,
            ParseError::ExpectedConnect => "Expected CONNECT method"@,
            ParseError::EmptyPort => "failed to parse port number"@ + ", "@
                + "cannot parse integer from empty string"@,
            ParseError::PortTooLarge => "failed to parse port number"@ + ", "@
                + "number too large to fit in target type"@,
            ParseError::ExpectedProtocol => "Expected "@ + PROTOCOL@,
            ParseError::ExpectedNewline => "Expected newline"@,
        }
    }

    /// What the user is told of the error.
    pub fn message(&self) -> (text: String)
        ensures
            text@ == self.text(),
            match self {
                ParseError::Stream(cause) => text@ == cause@,
                ParseError::ExpectedConnect => text@ == "Expected CONNECT method"@,
                ParseError::EmptyPort => text@ == "failed to parse port number"@ + ", "@
                    + "cannot parse integer from empty string"@,
                ParseError::PortTooLarge => text@ == "failed to parse port number"@ + ", "@
                    + "number too large to fit in target type"@,
                ParseError::ExpectedProtocol => text@ == "Expected "@ + "HTTP/1.1"@,
                ParseError::ExpectedNewline => text@ == "Expected newline"@,
            },
    {
        match self {
            ParseError::Stream(text) => text.clone(),
            ParseError::ExpectedConnect => "Expected CONNECT method".to_owned(),
            ParseError::EmptyPort => with_reason(
                "failed to parse port number",
                "cannot parse integer from empty string",
            ),
            ParseError::PortTooLarge => with_reason(
                "failed to parse port number",
                "number too large to fit in target type",
            ),
            ParseError::ExpectedProtocol => {
                let mut text = "Expected ".to_owned();
                text.append(PROTOCOL);
                text
            },
            ParseError::ExpectedNewline => "Expected newline".to_owned(),
        }
    }
}

/// How far a request has come.
pub enum Status {
    /// All items were read, and the next one is wanted.
    Pending,
    /// The stream failed among the headers, with the last of the `read` items that were read:
    /// no answer is ever given, and no further item is read.
    Stalled { read: int },
    /// The request was answered with the hostname and the port, or with an error, once
    /// `read` items had been read.
    Answered { answer: Result<(Seq<char>, i32), ParseError>, read: int },
}

/// What becomes of a request.
pub struct Outcome {
    /// The parts that were read whole.
    pub fields: Seq<FieldView>,
    pub status: Status,
}

/// The request wants another item.
pub open spec fn pending(fields: Seq<FieldView>) -> Outcome {
    Outcome { fields, status: Status::Pending }
}

/// The request is refused once `read` items have been read.
pub open spec fn refused(fields: Seq<FieldView>, error: ParseError, read: int) -> Outcome {
    Outcome { fields, status: Status::Answered { answer: Err(error), read } }
}

/// The number that decimal digits stand for.
pub open spec fn number(digits: Seq<u8>) -> nat
    decreases digits.len(),
{
    if digits.len() == 0 {
        0
    } else {
        10 * number(digits.drop_last()) + (digits.last() - ZERO) as nat
    }
}

/// Whether `t` begins with `s`.
pub open spec fn extends(t: Seq<Item>, s: Seq<Item>) -> bool {
    s.len() <= t.len() && forall|k: int| 0 <= k < s.len() ==> #[trigger] t[k] == s[k]
}

/// The end of the run of class `c` that begins at `i`: the index of the first item from `i`
/// on that is not taken.
pub open spec fn run(s: Seq<Item>, i: int, c: Class) -> int
    decreases s.len() - i,
{
    if 0 <= i < s.len() && c.takes_item(s[i]) {
        run(s, i + 1, c)
    } else {
        i
    }
}

/// The bytes from `i` up to `j`.
pub open spec fn bytes(s: Seq<Item>, i: int, j: int) -> Seq<u8> {
    Seq::new((j - i) as nat, |k: int| s[i + k]->Byte_0)
}

/// Where the part behind a run begins that the item at `j` ended.
pub open spec fn after(s: Seq<Item>, j: int) -> int {
    if s[j] is End {
        j + 1
    } else {
        j
    }
}

/// What becomes of a request of which the items `s` were read.
///
/// As many bytes as the method has are read, and then held against it. A stream that ends
/// before gives a method that is too short; one that fails before gives its own error.
pub open spec fn connect(s: Seq<Item>) -> Outcome {
    let size = CONNECT@.len() as int;
    let j = run(s, 0, Class::Any);
    if j >= size {
        let method = bytes(s, 0, size);
        let fields = seq![FieldView::Method(method)];
        if method == ascii(CONNECT@) {
            leading_spaces(s, size, fields)
        } else {
            refused(fields, ParseError::ExpectedConnect, size)
        }
    } else if j == s.len() {
        pending(seq![])
    } else {
        match s[j] {
            Item::Failed(text) => refused(seq![], ParseError::Stream(text), j + 1),
            _ => refused(
                seq![FieldView::Method(bytes(s, 0, j))],
                ParseError::ExpectedConnect,
                j + 1,
            ),
        }
    }
}

/// Spaces before the hostname.
pub open spec fn leading_spaces(s: Seq<Item>, i: int, fields: Seq<FieldView>) -> Outcome {
    let j = run(s, i, Class::Space);
    if j == s.len() {
        pending(fields)
    } else {
        hostname(s, after(s, j), fields)
    }
}

/// The hostname, up to a colon.
pub open spec fn hostname(s: Seq<Item>, i: int, fields: Seq<FieldView>) -> Outcome {
    let j = run(s, i, Class::NotColon);
    if j == s.len() {
        pending(fields)
    } else {
        let host = bytes(s, i, j);
        colons(s, after(s, j), host, fields.push(FieldView::Hostname(host)))
    }
}

/// Colons between the hostname and the port.
pub open spec fn colons(s: Seq<Item>, i: int, host: Seq<u8>, fields: Seq<FieldView>) -> Outcome {
    let j = run(s, i, Class::Colon);
    if j == s.len() {
        pending(fields)
    } else {
        port_number(s, after(s, j), host, fields)
    }
}

/// The port: decimal digits that stand for a number of type `i32`.
pub open spec fn port_number(
    s: Seq<Item>,
    i: int,
    host: Seq<u8>,
    fields: Seq<FieldView>,
) -> Outcome {
    let j = run(s, i, Class::Digit);
    if j == s.len() {
        pending(fields)
    } else if j == i {
        refused(fields, ParseError::EmptyPort, j + 1)
    } else if number(bytes(s, i, j)) > i32::MAX {
        refused(fields, ParseError::PortTooLarge, j + 1)
    } else {
        let port = number(bytes(s, i, j)) as i32;
        port_spaces(s, after(s, j), host, port, fields.push(FieldView::Port(port)))
    }
}

/// Spaces between the port and the protocol.
pub open spec fn port_spaces(
    s: Seq<Item>,
    i: int,
    host: Seq<u8>,
    port: i32,
    fields: Seq<FieldView>,
) -> Outcome {
    let j = run(s, i, Class::Space);
    if j == s.len() {
        pending(fields)
    } else {
        protocol(s, after(s, j), host, port, fields)
    }
}

/// The protocol, up to a carriage return.
pub open spec fn protocol(
    s: Seq<Item>,
    i: int,
    host: Seq<u8>,
    port: i32,
    fields: Seq<FieldView>,
) -> Outcome {
    let j = run(s, i, Class::NotCr);
    if j == s.len() {
        pending(fields)
    } else {
        let name = bytes(s, i, j);
        let more = fields.push(FieldView::Protocol(name));
        if name == ascii(PROTOCOL@) {
            headers_after(s, line_cr(s, after(s, j), more), host, port)
        } else {
            refused(more, ParseError::ExpectedProtocol, j + 1)
        }
    }
}

/// The rest of a line: the parts that were read whole with it, and where the next line
/// begins, if the items reach that far.
pub struct Line {
    pub fields: Seq<FieldView>,
    pub next: Option<int>,
}

/// The line wants another item.
pub open spec fn unfinished(fields: Seq<FieldView>) -> Line {
    Line { fields, next: None }
}

/// Line feeds at the end of a line.
pub open spec fn line_lf(s: Seq<Item>, i: int, fields: Seq<FieldView>) -> Line {
    let j = run(s, i, Class::Lf);
    if j == s.len() {
        unfinished(fields)
    } else {
        Line { fields, next: Some(after(s, j)) }
    }
}

/// Carriage returns, and then line feeds, at the end of a line.
pub open spec fn line_cr(s: Seq<Item>, i: int, fields: Seq<FieldView>) -> Line {
    let j = run(s, i, Class::Cr);
    if j == s.len() {
        unfinished(fields)
    } else {
        line_lf(s, after(s, j), fields)
    }
}

/// The value of a header, up to a carriage return.
pub open spec fn value(s: Seq<Item>, i: int, fields: Seq<FieldView>) -> Line {
    let j = run(s, i, Class::NotCr);
    if j == s.len() {
        unfinished(fields)
    } else {
        line_cr(s, after(s, j), fields.push(FieldView::Value(bytes(s, i, j))))
    }
}

/// Spaces before the value of a header.
pub open spec fn key_spaces(s: Seq<Item>, i: int, fields: Seq<FieldView>) -> Line {
    let j = run(s, i, Class::Space);
    if j == s.len() {
        unfinished(fields)
    } else {
        value(s, after(s, j), fields)
    }
}

/// Colons behind the key of a header.
pub open spec fn key_colons(s: Seq<Item>, i: int, fields: Seq<FieldView>) -> Line {
    let j = run(s, i, Class::Colon);
    if j == s.len() {
        unfinished(fields)
    } else {
        key_spaces(s, after(s, j), fields)
    }
}

/// The key of a header, up to a colon.
pub open spec fn key(s: Seq<Item>, i: int, fields: Seq<FieldView>) -> Line {
    let j = run(s, i, Class::NotColon);
    if j == s.len() {
        unfinished(fields)
    } else {
        key_colons(s, after(s, j), fields.push(FieldView::Key(bytes(s, i, j))))
    }
}

/// What becomes of the request behind a line.
pub open spec fn headers_after(s: Seq<Item>, line: Line, host: Seq<u8>, port: i32) -> Outcome {
    match line.next {
        None => pending(line.fields),
        Some(i) => headers(s, i, host, port, line.fields),
    }
}

/// The headers, up to and including the empty line.
///
/// A carriage return at the beginning of a line is the empty line, and a line feed is owed
/// behind it. Any other byte, and the end of the stream, begins a header. A stream that
/// fails yields no more, so that no run can ever get past the failure.
pub open spec fn headers(
    s: Seq<Item>,
    i: int,
    host: Seq<u8>,
    port: i32,
    fields: Seq<FieldView>,
) -> Outcome
    decreases s.len() - i,
{
    if i < 0 || i >= s.len() {
        pending(fields)
    } else if s[i] == Item::Byte(CR) {
        empty_line(s, i + 1, host, port, fields)
    } else if s[i] is Failed {
        Outcome { fields, status: Status::Stalled { read: i + 1 } }
    } else {
        let line = key(s, i, fields);
        match line.next {
            None => pending(line.fields),
            Some(n) => {
                proof {
                    lemma_header_advances(s, i, fields);
                }
                headers(s, n, host, port, line.fields)
            },
        }
    }
}

/// The line feed that ends the empty line, and with it the request.
pub open spec fn empty_line(
    s: Seq<Item>,
    i: int,
    host: Seq<u8>,
    port: i32,
    fields: Seq<FieldView>,
) -> Outcome {
    if i == s.len() {
        pending(fields)
    } else if s[i] == Item::Byte(LF) {
        Outcome {
            fields: fields.push(FieldView::End),
            status: Status::Answered { answer: Ok((text_of(host), port)), read: i + 1 },
        }
    } else {
        refused(fields, ParseError::ExpectedNewline, i + 1)
    }
}

/// A run ends at or behind its beginning, within the items, and before an item that it does
/// not take; everything in between is taken.
pub proof fn lemma_run(s: Seq<Item>, i: int, c: Class)
    requires
        0 <= i <= s.len(),
    ensures
        i <= run(s, i, c) <= s.len(),
        run(s, i, c) < s.len() ==> !c.takes_item(s[run(s, i, c)]),
        forall|k: int| i <= k < run(s, i, c) ==> c.takes_item(#[trigger] s[k]),
    decreases s.len() - i,
{
    if i < s.len() && c.takes_item(s[i]) {
        lemma_run(s, i + 1, c);
    }
}

/// `run` ends where the first item stands that it does not take.
pub proof fn lemma_run_ends(t: Seq<Item>, i: int, j: int, c: Class)
    requires
        0 <= i <= j <= t.len(),
        forall|k: int| i <= k < j ==> c.takes_item(#[trigger] t[k]),
        j < t.len() ==> !c.takes_item(t[j]),
    ensures
        run(t, i, c) == j,
    decreases j - i,
{
    if i < j {
        assert(c.takes_item(t[i]));
        lemma_run_ends(t, i + 1, j, c);
    }
}

/// `run` does not end before the items that it takes.
pub proof fn lemma_run_reaches(t: Seq<Item>, i: int, j: int, c: Class)
    requires
        0 <= i <= j <= t.len(),
        forall|k: int| i <= k < j ==> c.takes_item(#[trigger] t[k]),
    ensures
        run(t, i, c) >= j,
    decreases j - i,
{
    if i < j {
        assert(c.takes_item(t[i]));
        lemma_run_reaches(t, i + 1, j, c);
    } else {
        lemma_run(t, i, c);
    }
}

/// The line behind a header begins behind the item that the header began with, and not
/// behind the items.
pub proof fn lemma_header_advances(s: Seq<Item>, i: int, fields: Seq<FieldView>)
    requires
        0 <= i < s.len(),
        !(s[i] is Failed),
    ensures
        key(s, i, fields).next matches Some(n) ==> i < n <= s.len(),
{
    lemma_run(s, i, Class::NotColon);
    let j = run(s, i, Class::NotColon);
    if j < s.len() {
        lemma_run(s, after(s, j), Class::Colon);
        let k = run(s, after(s, j), Class::Colon);
        if k < s.len() {
            lemma_run(s, after(s, k), Class::Space);
            let l = run(s, after(s, k), Class::Space);
            if l < s.len() {
                lemma_run(s, after(s, l), Class::NotCr);
                let m = run(s, after(s, l), Class::NotCr);
                if m < s.len() {
                    lemma_run(s, after(s, m), Class::Cr);
                    let n = run(s, after(s, m), Class::Cr);
                    if n < s.len() {
                        lemma_run(s, after(s, n), Class::Lf);
                    }
                }
            }
        }
    }
}

} // verus!
