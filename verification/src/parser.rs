//! Reading a `CONNECT` request item by item.
//!
//! A [`Parser`] is handed the items of a stream one at a time and asks for the next only
//! while the request is unfinished. So the stream is left exactly behind the request, and what
//! follows it there is the tunnel's.

use vstd::prelude::*;

use crate::access::guard;
use crate::grammar::{
    after, bytes, colons, connect, empty_line, extends, fields_view, headers, headers_after,
    hostname, key, key_colons, key_spaces, leading_spaces, lemma_run_ends, lemma_run_reaches,
    line_cr, line_lf, number, pending, port_number, port_spaces, protocol, run, value, Class, Field,
    FieldView, Outcome, ParseError, Status, COLON, CONNECT, CR, LF, PROTOCOL, ZERO,
};
use crate::laws::law_outcome_is_final;
use crate::stream::Item;
use crate::text::{lemma_ascii_bytes, same_bytes, text_of, to_text};

verus! {

/// The part of a request that the next item belongs to.
#[derive(Clone, Copy, Debug, PartialEq, Eq, Structural)]
enum Phase {
    Method,
    LeadingSpaces,
    Hostname,
    Colons,
    Port,
    PortSpaces,
    Protocol,
    LineCr,
    LineLf,
    LineStart,
    Key,
    KeyColons,
    KeySpaces,
    Value,
    EmptyLine,
}

impl Phase {
    /// The bytes that the run of this part takes.
    spec fn class(self) -> Class {
        match self {
            Phase::Method => Class::Any,
            Phase::LeadingSpaces | Phase::PortSpaces | Phase::KeySpaces => Class::Space,
            Phase::Hostname | Phase::Key => Class::NotColon,
            Phase::Colons | Phase::KeyColons => Class::Colon,
            Phase::Port => Class::Digit,
            Phase::Protocol | Phase::Value => Class::NotCr,
            Phase::LineCr => Class::Cr,
            Phase::LineLf => Class::Lf,
            Phase::LineStart | Phase::EmptyLine => Class::Any,
        }
    }
}

/// A request that is being read.
pub struct Parser {
    phase: Phase,
    /// The bytes that were read of the part so far, where they matter.
    held: Vec<u8>,
    host: String,
    port: i32,
    /// The items that were read.
    seen: Ghost<Seq<Item>>,
    /// Where among them the part begins.
    start: Ghost<int>,
    /// The parts before it.
    fields: Ghost<Seq<FieldView>>,
    /// The bytes of the hostname.
    host_bytes: Ghost<Seq<u8>>,
}

/// What a parser does with an item.
pub struct Reading {
    /// The parts that the item completed.
    pub fields: Vec<Field>,
    pub next: Next,
}

/// What is to be done behind an item.
pub enum Next {
    /// The next item is to be read and handed to this parser.
    Read(Parser),
    /// The stream failed among the headers. No answer is given, and no item can change that.
    Stalled,
    /// The request is answered. Nothing more is to be read.
    Answer(Result<(String, i32), ParseError>),
}

/// Whether an answer is the one that the form of the request gives.
pub open spec fn same_answer(
    answer: Result<(String, i32), ParseError>,
    model: Result<(Seq<char>, i32), ParseError>,
) -> bool {
    match (answer, model) {
        (Ok(a), Ok(m)) => a.0@ == m.0 && a.1 == m.1,
        (Err(a), Err(m)) => a == m,
        _ => false,
    }
}

impl Reading {
    /// Whether this is what becomes of a request of which the items `s` were read, the parts
    /// `before` without the last of them.
    pub open spec fn follows(self, s: Seq<Item>, before: Seq<FieldView>) -> bool {
        &&& connect(s).fields == before + fields_view(self.fields@)
        &&& match self.next {
            Next::Read(parser) => {
                &&& parser.wf()
                &&& parser.seen() == s
                &&& connect(s).status is Pending
            },
            Next::Stalled => connect(s).status == (Status::Stalled { read: s.len() as int }),
            Next::Answer(answer) => {
                &&& connect(s).status matches Status::Answered { answer: model, read }
                &&& read == s.len()
                &&& same_answer(answer, model)
            },
        }
    }
}

/// Adds a field to a list.
fn with_field(fields: Vec<Field>, field: Field) -> (more: Vec<Field>)
    ensures
        fields_view(more@) == fields_view(fields@).push(field@),
{
    let ghost was = fields@;
    let mut more = fields;
    more.push(field);
    assert(fields_view(more@) =~= fields_view(was).push(field@));
    more
}

/// The number that leading digits stand for is no greater than that of all digits.
proof fn lemma_number_grows(digits: Seq<u8>, i: int)
    requires
        0 <= i <= digits.len(),
    ensures
        number(digits.take(i)) <= number(digits),
    decreases digits.len() - i,
{
    if i == digits.len() {
        assert(digits.take(i) =~= digits);
    } else {
        assert(digits.take(i + 1).drop_last() =~= digits.take(i));
        lemma_number_grows(digits, i + 1);
    }
}

/// The number that decimal digits stand for, if it is one of type `i32`.
fn to_number(digits: &[u8]) -> (value: Option<i32>)
    requires
        forall|k: int| 0 <= k < digits@.len() ==> Class::Digit.takes(#[trigger] digits@[k]),
    ensures
        match value {
            Some(n) => n == number(digits@),
            None => number(digits@) > i32::MAX,
        },
{
    let mut value: i32 = 0;
    let mut i: usize = 0;
    while i < digits.len()
        invariant
            i <= digits.len(),
            forall|k: int| 0 <= k < digits@.len() ==> Class::Digit.takes(#[trigger] digits@[k]),
            0 <= value,
            value == number(digits@.take(i as int)),
        decreases digits.len() - i,
    {
        assert(Class::Digit.takes(digits@[i as int]));
        let next: i64 = 10 * (value as i64) + (digits[i] - ZERO) as i64;
        proof {
            assert(digits@.take(i + 1).drop_last() =~= digits@.take(i as int));
            lemma_number_grows(digits@, i + 1);
        }
        if next > i32::MAX as i64 {
            return None;
        }
        value = next as i32;
        i += 1;
    }
    assert(digits@.take(i as int) =~= digits@);
    Some(value)
}

/// Whether a run of class `c` takes `item`.
fn taken(c: Class, item: &Item) -> (yes: bool)
    ensures
        yes == c.takes_item(*item),
{
    match item {
        Item::Byte(b) => c.accepts(*b),
        _ => false,
    }
}

impl Parser {
    /// The items that were read.
    pub closed spec fn seen(self) -> Seq<Item> {
        self.seen@
    }

    /// What becomes of a request from the current part on, of which the items `t` were read.
    spec fn resume(self, t: Seq<Item>) -> Outcome {
        let i = self.start@;
        let f = self.fields@;
        let h = self.host_bytes@;
        match self.phase {
            Phase::Method => connect(t),
            Phase::LeadingSpaces => leading_spaces(t, i, f),
            Phase::Hostname => hostname(t, i, f),
            Phase::Colons => colons(t, i, h, f),
            Phase::Port => port_number(t, i, h, f),
            Phase::PortSpaces => port_spaces(t, i, h, self.port, f),
            Phase::Protocol => protocol(t, i, h, self.port, f),
            Phase::LineCr => headers_after(t, line_cr(t, i, f), h, self.port),
            Phase::LineLf => headers_after(t, line_lf(t, i, f), h, self.port),
            Phase::LineStart => headers(t, i, h, self.port, f),
            Phase::Key => headers_after(t, key(t, i, f), h, self.port),
            Phase::KeyColons => headers_after(t, key_colons(t, i, f), h, self.port),
            Phase::KeySpaces => headers_after(t, key_spaces(t, i, f), h, self.port),
            Phase::Value => headers_after(t, value(t, i, f), h, self.port),
            Phase::EmptyLine => empty_line(t, i, h, self.port, f),
        }
    }

    /// Everything from the beginning of the part on was taken by its run, and is held where
    /// it matters.
    spec fn in_run(self) -> bool {
        let n = self.seen@.len();
        &&& 0 <= self.start@ <= n
        &&& forall|k: int| self.start@ <= k < n ==> self.phase.class().takes_item(#[trigger] self.seen@[k])
        &&& self.host@ == text_of(self.host_bytes@)
        &&& match self.phase {
            Phase::Method => {
                &&& self.start@ == 0
                &&& n < CONNECT@.len()
                &&& self.held@ == bytes(self.seen@, 0, n as int)
                &&& self.fields@.len() == 0
            },
            Phase::Hostname | Phase::Port | Phase::Protocol | Phase::Key | Phase::Value => self.held@
                == bytes(self.seen@, self.start@, n as int),
            Phase::LineStart | Phase::EmptyLine => self.start@ == n,
            _ => true,
        }
    }

    /// A stream that begins with `s` comes, from the current part on, to what its form says.
    spec fn leads(self, s: Seq<Item>) -> bool {
        forall|t: Seq<Item>| #[trigger] extends(t, s) ==> connect(t) == self.resume(t)
    }

    /// What holds of every parser: it stands where the items that were read have led.
    pub closed spec fn wf(self) -> bool {
        self.in_run() && self.leads(self.seen@)
    }

    /// A run that `item` ends ends there in every stream that goes on like this.
    proof fn lemma_left_run(self, item: Item, t: Seq<Item>)
        requires
            self.in_run(),
            !self.phase.class().takes_item(item),
            extends(t, self.seen@.push(item)),
        ensures
            run(t, self.start@, self.phase.class()) == self.seen@.len(),
            self.seen@.len() < t.len(),
            t[self.seen@.len() as int] == item,
            bytes(t, self.start@, self.seen@.len() as int) == bytes(
                self.seen@,
                self.start@,
                self.seen@.len() as int,
            ),
    {
        let n = self.seen@.len() as int;
        let known = self.seen@.push(item);
        assert(t[n] == known[n]);
        assert forall|k: int| 0 <= k < n implies #[trigger] t[k] == self.seen@[k] by {
            assert(t[k] == known[k]);
        }
        lemma_run_ends(t, self.start@, n, self.phase.class());
        assert(bytes(t, self.start@, n) =~= bytes(self.seen@, self.start@, n));
    }

    /// A parser that is within a run wants another item, whatever its part is.
    proof fn lemma_pending(self)
        requires
            self.wf(),
        ensures
            connect(self.seen@) == pending(self.fields@),
    {
        let s = self.seen@;
        assert(extends(s, s));
        lemma_run_ends(s, self.start@, s.len() as int, self.phase.class());
        reveal_strlit("CONNECT");
        assert(self.fields@.len() == 0 ==> self.fields@ =~= seq![]);
    }

    /// Goes on within a run whose bytes do not matter.
    fn stay(self, item: Item, fields: Vec<Field>, Ghost(before): Ghost<Seq<FieldView>>) -> (reading:
        Reading)
        requires
            self.in_run(),
            self.leads(self.seen@.push(item)),
            self.fields@ == before + fields_view(fields@),
            self.phase.class().takes_item(item),
            match self.phase {
                Phase::LeadingSpaces
                | Phase::Colons
                | Phase::PortSpaces
                | Phase::LineCr
                | Phase::LineLf
                | Phase::KeyColons
                | Phase::KeySpaces => true,
                _ => false,
            },
        ensures
            reading.follows(self.seen@.push(item), before),
    {
        let parser = Parser { seen: Ghost(self.seen@.push(item)), ..self };
        proof {
            parser.lemma_pending();
        }
        Reading { fields, next: Next::Read(parser) }
    }

    /// Goes on within a run whose bytes are held.
    fn hold(self, b: u8, fields: Vec<Field>, Ghost(before): Ghost<Seq<FieldView>>) -> (reading:
        Reading)
        requires
            self.in_run(),
            self.leads(self.seen@.push(Item::Byte(b))),
            self.fields@ == before + fields_view(fields@),
            self.phase.class().takes(b),
            match self.phase {
                Phase::Hostname
                | Phase::Port
                | Phase::Protocol
                | Phase::Key
                | Phase::Value => true,
                _ => false,
            },
        ensures
            reading.follows(self.seen@.push(Item::Byte(b)), before),
    {
        let ghost known = self.seen@.push(Item::Byte(b));
        let ghost was = self.held@;
        let mut held = self.held;
        held.push(b);
        let parser = Parser { held, seen: Ghost(known), ..self };
        proof {
            assert(parser.held@ =~= bytes(known, parser.start@, known.len() as int)) by {
                assert(was == bytes(self.seen@, self.start@, self.seen@.len() as int));
            }
            parser.lemma_pending();
        }
        Reading { fields, next: Next::Read(parser) }
    }

    /// Begins a part behind the end of the stream, which the run before has taken.
    fn begin(self, item: Item, fields: Vec<Field>, Ghost(before): Ghost<Seq<FieldView>>) -> (reading:
        Reading)
        requires
            item is End,
            self.start@ == self.seen@.len() + 1,
            self.leads(self.seen@.push(item)),
            self.fields@ == before + fields_view(fields@),
            self.held@.len() == 0,
            self.host@ == text_of(self.host_bytes@),
            self.phase != Phase::Method,
        ensures
            reading.follows(self.seen@.push(item), before),
    {
        let ghost known = self.seen@.push(item);
        let parser = Parser { seen: Ghost(known), ..self };
        proof {
            assert(parser.held@ =~= bytes(known, parser.start@, known.len() as int));
            parser.lemma_pending();
        }
        Reading { fields, next: Next::Read(parser) }
    }

    /// The beginning of a line: a header, or the empty line.
    fn at_line_start(
        self,
        item: Item,
        fields: Vec<Field>,
        Ghost(before): Ghost<Seq<FieldView>>,
    ) -> (reading: Reading)
        requires
            self.phase == Phase::LineStart,
            self.in_run(),
            self.leads(self.seen@.push(item)),
            self.fields@ == before + fields_view(fields@),
        ensures
            reading.follows(self.seen@.push(item), before),
    {
        let ghost known = self.seen@.push(item);
        let ghost n = self.seen@.len() as int;
        let ghost none = Seq::<u8>::empty();
        let ghost with_key = self.fields@.push(FieldView::Key(none));
        proof {
            assert(extends(known, known));
            assert forall|t: Seq<Item>| #[trigger] extends(t, known) implies t.len() > n && t[n] == item by {
                assert(t[n] == known[n]);
            }
            if !(item is Failed) && item != Item::Byte(CR) && !Class::NotColon.takes_item(item) {
                // The key is empty.
                assert forall|t: Seq<Item>| #[trigger] extends(t, known) implies connect(t)
                    == headers_after(
                    t,
                    key_colons(t, after(t, n), with_key),
                    self.host_bytes@,
                    self.port,
                ) by {
                    lemma_run_ends(t, n, n, Class::NotColon);
                    assert(bytes(t, n, n) =~= none);
                }
            }
        }
        match item {
            Item::Failed(_) => Reading { fields, next: Next::Stalled },
            Item::End => {
                let fields = with_field(fields, Field::Key(Vec::new()));
                let parser = Parser {
                    phase: Phase::KeyColons,
                    held: Vec::new(),
                    start: Ghost(n + 1),
                    fields: Ghost(with_key),
                    ..self
                };
                parser.begin(item, fields, Ghost(before))
            },
            Item::Byte(b) => if b == CR {
                let parser = Parser {
                    phase: Phase::EmptyLine,
                    seen: Ghost(known),
                    start: Ghost(n + 1),
                    ..self
                };
                proof {
                    parser.lemma_pending();
                }
                Reading { fields, next: Next::Read(parser) }
            } else if b == COLON {
                let fields = with_field(fields, Field::Key(Vec::new()));
                let parser = Parser {
                    phase: Phase::KeyColons,
                    start: Ghost(n),
                    fields: Ghost(with_key),
                    ..self
                };
                parser.stay(item, fields, Ghost(before))
            } else {
                let parser = Parser { phase: Phase::Key, held: Vec::new(), start: Ghost(n), ..self };
                proof {
                    assert(parser.held@ =~= bytes(self.seen@, n, n));
                }
                parser.hold(b, fields, Ghost(before))
            },
        }
    }

    /// Leaves a run whose bytes do not matter for the part behind it.
    fn turn(self, phase: Phase, item: &Item) -> (next: Parser)
        requires
            self.in_run(),
            self.leads(self.seen@.push(*item)),
            !self.phase.class().takes_item(*item),
            match self.phase {
                Phase::LeadingSpaces => phase == Phase::Hostname,
                Phase::Colons => phase == Phase::Port,
                Phase::PortSpaces => phase == Phase::Protocol,
                Phase::LineCr => phase == Phase::LineLf,
                Phase::LineLf => phase == Phase::LineStart,
                Phase::KeyColons => phase == Phase::KeySpaces,
                Phase::KeySpaces => phase == Phase::Value,
                _ => false,
            },
        ensures
            next.phase == phase,
            next.held@.len() == 0,
            next.seen@ == self.seen@,
            next.start@ == after(self.seen@.push(*item), self.seen@.len() as int),
            next.fields@ == self.fields@,
            next.host@ == text_of(next.host_bytes@),
            !(item is End) ==> next.in_run(),
            next.leads(self.seen@.push(*item)),
    {
        let ghost known = self.seen@.push(*item);
        let ghost n = self.seen@.len() as int;
        let next = Parser { phase, held: Vec::new(), start: Ghost(after(known, n)), ..self };
        proof {
            assert forall|t: Seq<Item>| #[trigger] extends(t, known) implies connect(t)
                == next.resume(t) by {
                self.lemma_left_run(*item, t);
            }
            assert(next.held@ =~= bytes(self.seen@, n, n));
        }
        next
    }

    /// Line feeds at the end of a line.
    fn at_line_lf(self, item: Item, fields: Vec<Field>, Ghost(before): Ghost<Seq<FieldView>>) -> (reading:
        Reading)
        requires
            self.phase == Phase::LineLf,
            self.in_run(),
            self.leads(self.seen@.push(item)),
            self.fields@ == before + fields_view(fields@),
        ensures
            reading.follows(self.seen@.push(item), before),
    {
        if taken(Class::Lf, &item) {
            return self.stay(item, fields, Ghost(before));
        }
        let next = self.turn(Phase::LineStart, &item);
        match item {
            Item::End => next.begin(item, fields, Ghost(before)),
            _ => next.at_line_start(item, fields, Ghost(before)),
        }
    }

    /// Carriage returns at the end of a line.
    fn at_line_cr(self, item: Item, fields: Vec<Field>, Ghost(before): Ghost<Seq<FieldView>>) -> (reading:
        Reading)
        requires
            self.phase == Phase::LineCr,
            self.in_run(),
            self.leads(self.seen@.push(item)),
            self.fields@ == before + fields_view(fields@),
        ensures
            reading.follows(self.seen@.push(item), before),
    {
        if taken(Class::Cr, &item) {
            return self.stay(item, fields, Ghost(before));
        }
        let next = self.turn(Phase::LineLf, &item);
        match item {
            Item::End => next.begin(item, fields, Ghost(before)),
            _ => next.at_line_lf(item, fields, Ghost(before)),
        }
    }

    /// The value of a header.
    fn at_value(self, item: Item, fields: Vec<Field>, Ghost(before): Ghost<Seq<FieldView>>) -> (reading:
        Reading)
        requires
            self.phase == Phase::Value,
            self.in_run(),
            self.leads(self.seen@.push(item)),
            self.fields@ == before + fields_view(fields@),
        ensures
            reading.follows(self.seen@.push(item), before),
    {
        if let Item::Byte(b) = item {
            if Class::NotCr.accepts(b) {
                return self.hold(b, fields, Ghost(before));
            }
        }
        let ghost known = self.seen@.push(item);
        let ghost n = self.seen@.len() as int;
        let ghost value = FieldView::Value(self.held@);
        let ghost prior = self;
        let fields = with_field(fields, Field::Value(self.held));
        let next = Parser {
            phase: Phase::LineCr,
            held: Vec::new(),
            start: Ghost(after(known, n)),
            fields: Ghost(self.fields@.push(value)),
            ..self
        };
        proof {
            assert forall|t: Seq<Item>| #[trigger] extends(t, known) implies connect(t)
                == next.resume(t) by {
                prior.lemma_left_run(item, t);
            }
        }
        match item {
            Item::End => next.begin(item, fields, Ghost(before)),
            _ => next.at_line_cr(item, fields, Ghost(before)),
        }
    }

    /// Spaces before the value of a header.
    fn at_key_spaces(self, item: Item, fields: Vec<Field>, Ghost(before): Ghost<Seq<FieldView>>) -> (reading:
        Reading)
        requires
            self.phase == Phase::KeySpaces,
            self.in_run(),
            self.leads(self.seen@.push(item)),
            self.fields@ == before + fields_view(fields@),
        ensures
            reading.follows(self.seen@.push(item), before),
    {
        if taken(Class::Space, &item) {
            return self.stay(item, fields, Ghost(before));
        }
        let next = self.turn(Phase::Value, &item);
        match item {
            Item::End => next.begin(item, fields, Ghost(before)),
            _ => next.at_value(item, fields, Ghost(before)),
        }
    }

    /// Colons behind the key of a header.
    fn at_key_colons(self, item: Item, fields: Vec<Field>, Ghost(before): Ghost<Seq<FieldView>>) -> (reading:
        Reading)
        requires
            self.phase == Phase::KeyColons,
            self.in_run(),
            self.leads(self.seen@.push(item)),
            self.fields@ == before + fields_view(fields@),
        ensures
            reading.follows(self.seen@.push(item), before),
    {
        if taken(Class::Colon, &item) {
            return self.stay(item, fields, Ghost(before));
        }
        let next = self.turn(Phase::KeySpaces, &item);
        match item {
            Item::End => next.begin(item, fields, Ghost(before)),
            _ => next.at_key_spaces(item, fields, Ghost(before)),
        }
    }

    /// The key of a header.
    fn at_key(self, item: Item, fields: Vec<Field>, Ghost(before): Ghost<Seq<FieldView>>) -> (reading:
        Reading)
        requires
            self.phase == Phase::Key,
            self.in_run(),
            self.leads(self.seen@.push(item)),
            self.fields@ == before + fields_view(fields@),
        ensures
            reading.follows(self.seen@.push(item), before),
    {
        if let Item::Byte(b) = item {
            if Class::NotColon.accepts(b) {
                return self.hold(b, fields, Ghost(before));
            }
        }
        let ghost known = self.seen@.push(item);
        let ghost n = self.seen@.len() as int;
        let ghost key = FieldView::Key(self.held@);
        let ghost prior = self;
        let fields = with_field(fields, Field::Key(self.held));
        let next = Parser {
            phase: Phase::KeyColons,
            held: Vec::new(),
            start: Ghost(after(known, n)),
            fields: Ghost(self.fields@.push(key)),
            ..self
        };
        proof {
            assert forall|t: Seq<Item>| #[trigger] extends(t, known) implies connect(t)
                == next.resume(t) by {
                prior.lemma_left_run(item, t);
            }
        }
        match item {
            Item::End => next.begin(item, fields, Ghost(before)),
            _ => next.at_key_colons(item, fields, Ghost(before)),
        }
    }

    /// The line feed that ends the request.
    fn at_empty_line(self, item: Item, fields: Vec<Field>, Ghost(before): Ghost<Seq<FieldView>>) -> (reading:
        Reading)
        requires
            self.phase == Phase::EmptyLine,
            self.in_run(),
            self.leads(self.seen@.push(item)),
            self.fields@ == before + fields_view(fields@),
        ensures
            reading.follows(self.seen@.push(item), before),
    {
        let ghost known = self.seen@.push(item);
        let ghost n = self.seen@.len() as int;
        proof {
            assert(extends(known, known));
            assert(known[n] == item);
        }
        match item {
            Item::Byte(LF) => Reading {
                fields: with_field(fields, Field::End),
                next: Next::Answer(Ok((self.host, self.port))),
            },
            _ => Reading { fields, next: Next::Answer(Err(ParseError::ExpectedNewline)) },
        }
    }

    /// The protocol.
    fn at_protocol(self, item: Item, fields: Vec<Field>, Ghost(before): Ghost<Seq<FieldView>>) -> (reading:
        Reading)
        requires
            self.phase == Phase::Protocol,
            self.in_run(),
            self.leads(self.seen@.push(item)),
            self.fields@ == before + fields_view(fields@),
        ensures
            reading.follows(self.seen@.push(item), before),
    {
        if let Item::Byte(b) = item {
            if Class::NotCr.accepts(b) {
                return self.hold(b, fields, Ghost(before));
            }
        }
        let ghost known = self.seen@.push(item);
        let ghost n = self.seen@.len() as int;
        let ghost prior = self;
        let ghost name = FieldView::Protocol(self.held@);
        proof {
            reveal_strlit("HTTP/1.1");
            lemma_ascii_bytes(PROTOCOL);
            assert(extends(known, known));
            prior.lemma_left_run(item, known);
        }
        let expected = same_bytes(self.held.as_slice(), PROTOCOL.as_bytes());
        let fields = with_field(fields, Field::Protocol(self.held));
        if let Err(error) = guard(expected, ParseError::ExpectedProtocol) {
            return Reading { fields, next: Next::Answer(Err(error)) };
        }
        let next = Parser {
            phase: Phase::LineCr,
            held: Vec::new(),
            start: Ghost(after(known, n)),
            fields: Ghost(self.fields@.push(name)),
            ..self
        };
        proof {
            assert forall|t: Seq<Item>| #[trigger] extends(t, known) implies connect(t)
                == next.resume(t) by {
                prior.lemma_left_run(item, t);
            }
        }
        match item {
            Item::End => next.begin(item, fields, Ghost(before)),
            _ => next.at_line_cr(item, fields, Ghost(before)),
        }
    }

    /// Spaces between the port and the protocol.
    fn at_port_spaces(self, item: Item, fields: Vec<Field>, Ghost(before): Ghost<Seq<FieldView>>) -> (reading:
        Reading)
        requires
            self.phase == Phase::PortSpaces,
            self.in_run(),
            self.leads(self.seen@.push(item)),
            self.fields@ == before + fields_view(fields@),
        ensures
            reading.follows(self.seen@.push(item), before),
    {
        if taken(Class::Space, &item) {
            return self.stay(item, fields, Ghost(before));
        }
        let next = self.turn(Phase::Protocol, &item);
        match item {
            Item::End => next.begin(item, fields, Ghost(before)),
            _ => next.at_protocol(item, fields, Ghost(before)),
        }
    }

    /// The port.
    fn at_port(self, item: Item, fields: Vec<Field>, Ghost(before): Ghost<Seq<FieldView>>) -> (reading:
        Reading)
        requires
            self.phase == Phase::Port,
            self.in_run(),
            self.leads(self.seen@.push(item)),
            self.fields@ == before + fields_view(fields@),
        ensures
            reading.follows(self.seen@.push(item), before),
    {
        if let Item::Byte(b) = item {
            if Class::Digit.accepts(b) {
                return self.hold(b, fields, Ghost(before));
            }
        }
        let ghost known = self.seen@.push(item);
        let ghost n = self.seen@.len() as int;
        let ghost prior = self;
        proof {
            assert(extends(known, known));
            prior.lemma_left_run(item, known);
            assert forall|k: int| 0 <= k < self.held@.len() implies Class::Digit.takes(
                #[trigger] self.held@[k],
            ) by {
                assert(Class::Digit.takes_item(self.seen@[self.start@ + k]));
            }
        }
        if self.held.len() == 0 {
            return Reading { fields, next: Next::Answer(Err(ParseError::EmptyPort)) };
        }
        let port = match to_number(self.held.as_slice()) {
            Some(port) => port,
            None => {
                return Reading { fields, next: Next::Answer(Err(ParseError::PortTooLarge)) };
            },
        };
        let fields = with_field(fields, Field::Port(port));
        let next = Parser {
            phase: Phase::PortSpaces,
            held: Vec::new(),
            port,
            start: Ghost(after(known, n)),
            fields: Ghost(self.fields@.push(FieldView::Port(port))),
            ..self
        };
        proof {
            assert forall|t: Seq<Item>| #[trigger] extends(t, known) implies connect(t)
                == next.resume(t) by {
                prior.lemma_left_run(item, t);
            }
        }
        match item {
            Item::End => next.begin(item, fields, Ghost(before)),
            _ => next.at_port_spaces(item, fields, Ghost(before)),
        }
    }

    /// Colons between the hostname and the port.
    fn at_colons(self, item: Item, fields: Vec<Field>, Ghost(before): Ghost<Seq<FieldView>>) -> (reading:
        Reading)
        requires
            self.phase == Phase::Colons,
            self.in_run(),
            self.leads(self.seen@.push(item)),
            self.fields@ == before + fields_view(fields@),
        ensures
            reading.follows(self.seen@.push(item), before),
    {
        if taken(Class::Colon, &item) {
            return self.stay(item, fields, Ghost(before));
        }
        let next = self.turn(Phase::Port, &item);
        match item {
            Item::End => next.begin(item, fields, Ghost(before)),
            _ => next.at_port(item, fields, Ghost(before)),
        }
    }

    /// The hostname.
    fn at_hostname(self, item: Item, fields: Vec<Field>, Ghost(before): Ghost<Seq<FieldView>>) -> (reading:
        Reading)
        requires
            self.phase == Phase::Hostname,
            self.in_run(),
            self.leads(self.seen@.push(item)),
            self.fields@ == before + fields_view(fields@),
        ensures
            reading.follows(self.seen@.push(item), before),
    {
        if let Item::Byte(b) = item {
            if Class::NotColon.accepts(b) {
                return self.hold(b, fields, Ghost(before));
            }
        }
        let ghost known = self.seen@.push(item);
        let ghost n = self.seen@.len() as int;
        let ghost prior = self;
        let ghost host_bytes = self.held@;
        let host = to_text(self.held.as_slice());
        let fields = with_field(fields, Field::Hostname(self.held));
        let next = Parser {
            phase: Phase::Colons,
            held: Vec::new(),
            host,
            start: Ghost(after(known, n)),
            fields: Ghost(self.fields@.push(FieldView::Hostname(host_bytes))),
            host_bytes: Ghost(host_bytes),
            ..self
        };
        proof {
            assert forall|t: Seq<Item>| #[trigger] extends(t, known) implies connect(t)
                == next.resume(t) by {
                prior.lemma_left_run(item, t);
            }
        }
        match item {
            Item::End => next.begin(item, fields, Ghost(before)),
            _ => next.at_colons(item, fields, Ghost(before)),
        }
    }

    /// Spaces before the hostname.
    fn at_leading_spaces(self, item: Item, fields: Vec<Field>, Ghost(before): Ghost<Seq<FieldView>>) -> (reading:
        Reading)
        requires
            self.phase == Phase::LeadingSpaces,
            self.in_run(),
            self.leads(self.seen@.push(item)),
            self.fields@ == before + fields_view(fields@),
        ensures
            reading.follows(self.seen@.push(item), before),
    {
        if taken(Class::Space, &item) {
            return self.stay(item, fields, Ghost(before));
        }
        let next = self.turn(Phase::Hostname, &item);
        match item {
            Item::End => next.begin(item, fields, Ghost(before)),
            _ => next.at_hostname(item, fields, Ghost(before)),
        }
    }

    /// The method.
    fn at_method(self, item: Item, fields: Vec<Field>, Ghost(before): Ghost<Seq<FieldView>>) -> (reading:
        Reading)
        requires
            self.phase == Phase::Method,
            self.in_run(),
            self.leads(self.seen@.push(item)),
            self.fields@ == before + fields_view(fields@),
        ensures
            reading.follows(self.seen@.push(item), before),
    {
        let ghost known = self.seen@.push(item);
        let ghost n = self.seen@.len() as int;
        let ghost prior = self;
        proof {
            reveal_strlit("CONNECT");
            lemma_ascii_bytes(CONNECT);
            assert(extends(known, known));
            assert(known[n] == item);
            assert(self.fields@ =~= seq![]);
            if !(item is Byte) {
                prior.lemma_left_run(item, known);
            }
        }
        match item {
            Item::Failed(text) => Reading { fields, next: Next::Answer(Err(ParseError::Stream(text))) },
            Item::End => Reading {
                fields: with_field(fields, Field::Method(self.held)),
                next: Next::Answer(Err(ParseError::ExpectedConnect)),
            },
            Item::Byte(b) => {
                let mut held = self.held;
                held.push(b);
                assert(held@ =~= bytes(known, 0, n + 1));
                if held.len() < CONNECT.len() {
                    let parser = Parser { held, seen: Ghost(known), ..self };
                    proof {
                        parser.lemma_pending();
                    }
                    return Reading { fields, next: Next::Read(parser) };
                }
                let ghost method = held@;
                let ghost first = seq![FieldView::Method(method)];
                proof {
                    assert forall|t: Seq<Item>| #[trigger] extends(t, known) implies run(
                        t,
                        0,
                        Class::Any,
                    ) >= CONNECT@.len() && bytes(t, 0, n + 1) == method by {
                        lemma_run_reaches(t, 0, n + 1, Class::Any);
                        assert(bytes(t, 0, n + 1) =~= method);
                    }
                }
                let expected = same_bytes(held.as_slice(), CONNECT.as_bytes());
                let fields = with_field(fields, Field::Method(held));
                assert(before + fields_view(fields@) =~= first);
                if let Err(error) = guard(expected, ParseError::ExpectedConnect) {
                    return Reading { fields, next: Next::Answer(Err(error)) };
                }
                let parser = Parser {
                    phase: Phase::LeadingSpaces,
                    held: Vec::new(),
                    seen: Ghost(known),
                    start: Ghost(n + 1),
                    fields: Ghost(first),
                    ..self
                };
                proof {
                    parser.lemma_pending();
                }
                Reading { fields, next: Next::Read(parser) }
            },
        }
    }

    /// A request of which nothing was read.
    pub fn new() -> (parser: Parser)
        ensures
            parser.wf(),
            parser.seen() == Seq::<Item>::empty(),
    {
        let parser = Parser {
            phase: Phase::Method,
            held: Vec::new(),
            host: to_text(&[]),
            port: 0,
            seen: Ghost(Seq::empty()),
            start: Ghost(0),
            fields: Ghost(Seq::empty()),
            host_bytes: Ghost(Seq::empty()),
        };
        proof {
            reveal_strlit("CONNECT");
            assert(parser.held@ =~= bytes(parser.seen@, 0, 0));
        }
        parser
    }

    /// Reads one more item.
    pub fn step(self, item: Item) -> (reading: Reading)
        requires
            self.wf(),
        ensures
            reading.follows(self.seen().push(item), connect(self.seen()).fields),
            connect(self.seen()).status is Pending,
            connect(self.seen().push(item)).fields == connect(self.seen()).fields
                + reading.fields@.map_values(|field: Field| field@),
            match reading.next {
                Next::Read(parser) => {
                    &&& parser.wf()
                    &&& parser.seen() == self.seen().push(item)
                    &&& connect(self.seen().push(item)).status is Pending
                },
                Next::Stalled => connect(self.seen().push(item)).status == (Status::Stalled {
                    read: self.seen().len() as int + 1,
                }),
                Next::Answer(Ok((hostname, port))) => connect(self.seen().push(item)).status == (
                Status::Answered { answer: Ok((hostname@, port)), read: self.seen().len() as int + 1 }),
                Next::Answer(Err(error)) => connect(self.seen().push(item)).status == (
                Status::Answered { answer: Err(error), read: self.seen().len() as int + 1 }),
            },
    {
        let ghost before = self.fields@;
        let fields: Vec<Field> = Vec::new();
        proof {
            self.lemma_pending();
            assert(before =~= before + fields_view(fields@));
            assert forall|t: Seq<Item>| #[trigger] extends(t, self.seen@.push(item)) implies extends(
                t,
                self.seen@,
            ) by {
                let known = self.seen@.push(item);
                assert forall|k: int| 0 <= k < self.seen@.len() implies #[trigger] t[k]
                    == self.seen@[k] by {
                    assert(t[k] == known[k]);
                }
            }
        }
        match self.phase {
            Phase::Method => self.at_method(item, fields, Ghost(before)),
            Phase::LeadingSpaces => self.at_leading_spaces(item, fields, Ghost(before)),
            Phase::Hostname => self.at_hostname(item, fields, Ghost(before)),
            Phase::Colons => self.at_colons(item, fields, Ghost(before)),
            Phase::Port => self.at_port(item, fields, Ghost(before)),
            Phase::PortSpaces => self.at_port_spaces(item, fields, Ghost(before)),
            Phase::Protocol => self.at_protocol(item, fields, Ghost(before)),
            Phase::LineCr => self.at_line_cr(item, fields, Ghost(before)),
            Phase::LineLf => self.at_line_lf(item, fields, Ghost(before)),
            Phase::LineStart => self.at_line_start(item, fields, Ghost(before)),
            Phase::Key => self.at_key(item, fields, Ghost(before)),
            Phase::KeyColons => self.at_key_colons(item, fields, Ghost(before)),
            Phase::KeySpaces => self.at_key_spaces(item, fields, Ghost(before)),
            Phase::Value => self.at_value(item, fields, Ghost(before)),
            Phase::EmptyLine => self.at_empty_line(item, fields, Ghost(before)),
        }
    }
}

/// What was made of the items of a stream.
pub struct Parsed {
    /// The parts that were read whole.
    pub fields: Vec<Field>,
    pub progress: Progress,
}

/// How far a request has come.
pub enum Progress {
    /// All items were read, and the next one is wanted.
    Pending,
    /// The stream failed among the headers, with the last of the `read` items that were read.
    Stalled { read: usize },
    /// The request is answered once `read` items have been read.
    Answered { answer: Result<(String, i32), ParseError>, read: usize },
}

impl Parsed {
    /// Whether this is what becomes of a request as its form says.
    pub open spec fn is(self, outcome: Outcome) -> bool {
        &&& fields_view(self.fields@) == outcome.fields
        &&& match (self.progress, outcome.status) {
            (Progress::Pending, Status::Pending) => true,
            (Progress::Stalled { read }, Status::Stalled { read: model }) => read == model,
            (
                Progress::Answered { answer, read },
                Status::Answered { answer: model, read: model_read },
            ) => same_answer(answer, model) && read == model_read,
            _ => false,
        }
    }
}

/// Reads a request from the items of a stream, from the first on and no further than it takes.
pub fn parse_http_connect(input: &[Item]) -> (parsed: Parsed)
    ensures
        parsed.is(connect(input@)),
        parsed.fields@.map_values(|field: Field| field@) == connect(input@).fields,
        match parsed.progress {
            Progress::Pending => connect(input@).status is Pending,
            Progress::Stalled { read } => connect(input@).status == (Status::Stalled {
                read: read as int,
            }),
            Progress::Answered { answer: Ok((hostname, port)), read } => connect(input@).status == (
            Status::Answered { answer: Ok((hostname@, port)), read: read as int }),
            Progress::Answered { answer: Err(error), read } => connect(input@).status == (
            Status::Answered { answer: Err(error), read: read as int }),
        },
{
    let mut parser = Parser::new();
    let mut fields: Vec<Field> = Vec::new();
    let mut i: usize = 0;
    proof {
        reveal_strlit("CONNECT");
        assert(input@.take(0) =~= parser.seen@);
        assert(fields_view(fields@) =~= connect(parser.seen@).fields);
    }
    while i < input.len()
        invariant
            i <= input.len(),
            parser.wf(),
            parser.seen() == input@.take(i as int),
            fields_view(fields@) == connect(input@.take(i as int)).fields,
        decreases input.len() - i,
    {
        let reading = parser.step(input[i].copied());
        i += 1;
        let mut more = reading.fields;
        let ghost s = input@.take(i as int);
        proof {
            assert(input@.take(i - 1).push(input@[i - 1]) =~= s);
            assert(fields_view(fields@ + more@) =~= fields_view(fields@) + fields_view(more@));
            assert(extends(input@, s));
            if !(connect(s).status is Pending) {
                law_outcome_is_final(s, input@);
            }
        }
        fields.append(&mut more);
        match reading.next {
            Next::Read(next) => {
                parser = next;
            },
            Next::Stalled => {
                return Parsed { fields, progress: Progress::Stalled { read: i } };
            },
            Next::Answer(answer) => {
                return Parsed { fields, progress: Progress::Answered { answer, read: i } };
            },
        }
    }
    proof {
        assert(input@.take(i as int) =~= input@);
        parser.lemma_pending();
    }
    Parsed { fields, progress: Progress::Pending }
}

} // verus!
