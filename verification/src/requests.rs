//! Requests in the usual form, and how they are read.

use vstd::arithmetic::power::pow;
use vstd::prelude::*;
use vstd::utf8::{encode_utf8, encode_utf8_decode_utf8, encode_utf8_valid_utf8};

use crate::grammar::{
    after, bytes, connect, headers, key, leading_spaces, lemma_run_ends, lemma_run_reaches, line_cr,
    number, port_number, protocol, run, Class, FieldView, Line, Status, COLON, CONNECT, CR, LF,
    PROTOCOL, SPACE, ZERO,
};
use crate::stream::Item;
use crate::text::{ascii, decimal, digits, lemma_power_of_ten, text_of};

verus! {

/// So many spaces.
pub open spec fn blanks(n: nat) -> Seq<u8> {
    Seq::new(n, |k: int| SPACE)
}

/// Bytes without the spaces that they begin with.
pub open spec fn trimmed(b: Seq<u8>) -> Seq<u8>
    decreases b.len(),
{
    if b.len() > 0 && b[0] == SPACE {
        trimmed(b.drop_first())
    } else {
        b
    }
}

/// A header of a request.
pub struct Header {
    pub key: Seq<u8>,
    /// The number of spaces between the colon and the value.
    pub spaces: nat,
    pub value: Seq<u8>,
}

impl Header {
    /// A header of which a key and a value can be told apart and from the lines around it: its
    /// key holds no colon and does not begin like the end of a line; its value holds no
    /// carriage return, and begins with no colon right behind that of the key.
    pub open spec fn plain(self) -> bool {
        &&& forall|k: int| 0 <= k < self.key.len() ==> #[trigger] self.key[k] != COLON
        &&& self.key.len() > 0 ==> self.key[0] != CR && self.key[0] != LF
        &&& forall|k: int| 0 <= k < self.value.len() ==> #[trigger] self.value[k] != CR
        &&& self.spaces == 0 && self.value.len() > 0 ==> self.value[0] != COLON
    }

    /// What stands between the colon and the end of the line.
    pub open spec fn rest(self) -> Seq<u8> {
        blanks(self.spaces) + self.value
    }

    /// The line of the header.
    pub open spec fn line(self) -> Seq<u8> {
        self.key + (seq![COLON] + (self.rest() + seq![CR, LF]))
    }
}

/// The lines of the headers, and the empty line.
pub open spec fn header_lines(list: Seq<Header>) -> Seq<u8>
    decreases list.len(),
{
    if list.len() == 0 {
        seq![CR, LF]
    } else {
        list[0].line() + header_lines(list.drop_first())
    }
}

/// The parts that are read of the headers and the empty line. Spaces at the beginning of a
/// value are no part of it.
pub open spec fn header_fields(list: Seq<Header>) -> Seq<FieldView>
    decreases list.len(),
{
    if list.len() == 0 {
        seq![FieldView::End]
    } else {
        seq![FieldView::Key(list[0].key), FieldView::Value(trimmed(list[0].value))] + header_fields(
            list.drop_first(),
        )
    }
}

/// A request in the usual form.
pub struct Request {
    /// The number of spaces before the hostname.
    pub spaces: nat,
    pub host: Seq<u8>,
    /// The digits of the port.
    pub port: Seq<u8>,
    /// The number of spaces behind the port.
    pub port_spaces: nat,
    pub headers: Seq<Header>,
}

impl Request {
    /// A request of which the parts can be told apart: the hostname holds no colon and begins with no
    /// space, the port is a number of type `i32`, and the headers are plain.
    pub open spec fn plain(self) -> bool {
        &&& forall|k: int| 0 <= k < self.host.len() ==> #[trigger] self.host[k] != COLON
        &&& self.host.len() > 0 ==> self.host[0] != SPACE
        &&& self.port.len() > 0
        &&& forall|k: int| 0 <= k < self.port.len() ==> Class::Digit.takes(#[trigger] self.port[k])
        &&& number(self.port) <= i32::MAX
        &&& forall|k: int| 0 <= k < self.headers.len() ==> (#[trigger] self.headers[k]).plain()
    }

    /// The bytes of the request.
    pub open spec fn bytes(self) -> Seq<u8> {
        ascii(CONNECT@) + (blanks(self.spaces) + (self.host + (seq![COLON] + (self.port + (blanks(
            self.port_spaces,
        ) + (ascii(PROTOCOL@) + (seq![CR, LF] + header_lines(self.headers))))))))
    }
}

/// Whether the bytes `b` stand in `s` from `i` on.
pub open spec fn stands(s: Seq<Item>, i: int, b: Seq<u8>) -> bool {
    &&& 0 <= i
    &&& i + b.len() <= s.len()
    &&& forall|k: int| i <= k < i + b.len() ==> #[trigger] s[k] == Item::Byte(b[k - i])
}

proof fn lemma_stands_split(s: Seq<Item>, i: int, a: Seq<u8>, b: Seq<u8>)
    requires
        stands(s, i, a + b),
    ensures
        stands(s, i, a),
        stands(s, i + a.len(), b),
{
    assert forall|k: int| i <= k < i + a.len() implies #[trigger] s[k] == Item::Byte(a[k - i]) by {
        assert((a + b)[k - i] == a[k - i]);
    }
    assert forall|k: int| i + a.len() <= k < i + a.len() + b.len() implies #[trigger] s[k]
        == Item::Byte(b[k - (i + a.len())]) by {
        assert((a + b)[k - i] == b[k - (i + a.len())]);
    }
}

/// A run over bytes that it takes, up to an item that it does not.
proof fn lemma_run_over(s: Seq<Item>, i: int, b: Seq<u8>, c: Class)
    requires
        stands(s, i, b),
        forall|k: int| 0 <= k < b.len() ==> c.takes(#[trigger] b[k]),
        i + b.len() < s.len(),
        !c.takes_item(s[i + b.len()]),
        !(s[i + b.len()] is End),
    ensures
        run(s, i, c) == i + b.len(),
        bytes(s, i, i + b.len()) == b,
        after(s, i + b.len()) == i + b.len(),
{
    assert forall|k: int| i <= k < i + b.len() implies c.takes_item(#[trigger] s[k]) by {
        assert(c.takes(b[k - i]));
    }
    lemma_run_ends(s, i, i + b.len(), c);
    assert(bytes(s, i, i + b.len()) =~= b);
}

/// What is trimmed of bytes are spaces at their beginning.
proof fn lemma_trimmed(b: Seq<u8>)
    ensures
        trimmed(b).len() <= b.len(),
        trimmed(b) == b.skip(b.len() - trimmed(b).len()),
        forall|k: int| 0 <= k < b.len() - trimmed(b).len() ==> #[trigger] b[k] == SPACE,
        trimmed(b).len() > 0 ==> trimmed(b)[0] != SPACE,
    decreases b.len(),
{
    if b.len() > 0 && b[0] == SPACE {
        let rest = b.drop_first();
        lemma_trimmed(rest);
        assert(b.skip(b.len() - trimmed(b).len()) =~= rest.skip(rest.len() - trimmed(rest).len()));
        assert forall|k: int| 0 <= k < b.len() - trimmed(b).len() implies #[trigger] b[k]
            == SPACE by {
            if k > 0 {
                assert(b[k] == rest[k - 1]);
            }
        }
    } else {
        assert(b.skip(0) =~= b);
    }
}

/// More spaces before bytes make no difference to what is left when they are trimmed.
proof fn lemma_trimmed_blanks(n: nat, b: Seq<u8>)
    ensures
        trimmed(blanks(n) + b) == trimmed(b),
    decreases n,
{
    if n == 0 {
        assert(blanks(n) + b =~= b);
    } else {
        assert((blanks(n) + b).drop_first() =~= blanks((n - 1) as nat) + b);
        lemma_trimmed_blanks((n - 1) as nat, b);
    }
}

/// A value that ends in a carriage return, and the spaces before it.
proof fn lemma_value_over(s: Seq<Item>, i: int, b: Seq<u8>)
    requires
        stands(s, i, b),
        i + b.len() < s.len(),
        s[i + b.len()] == Item::Byte(CR),
        forall|k: int| 0 <= k < b.len() ==> #[trigger] b[k] != CR,
    ensures
        ({
            let j = run(s, i, Class::Space);
            &&& i <= j < s.len()
            &&& after(s, j) == j
            &&& run(s, j, Class::NotCr) == i + b.len()
            &&& bytes(s, j, i + b.len()) == trimmed(b)
            &&& after(s, i + b.len()) == i + b.len()
        }),
{
    lemma_trimmed(b);
    let n = b.len() - trimmed(b).len();
    let head = b.take(n);
    assert(b =~= head + trimmed(b));
    lemma_stands_split(s, i, head, trimmed(b));
    assert(s[i + n] == Item::Byte(if trimmed(b).len() > 0 {
        trimmed(b)[0]
    } else {
        CR
    }));
    lemma_run_over(s, i, head, Class::Space);
    assert forall|k: int| 0 <= k < trimmed(b).len() implies Class::NotCr.takes(
        #[trigger] trimmed(b)[k],
    ) by {
        assert(b[n + k] != CR);
    }
    lemma_run_over(s, i + n, trimmed(b), Class::NotCr);
}

/// Spaces before a byte that is none.
proof fn lemma_blanks_over(s: Seq<Item>, i: int, n: nat)
    requires
        stands(s, i, blanks(n)),
        i + n < s.len(),
        s[i + n] matches Item::Byte(b) && b != SPACE,
    ensures
        run(s, i, Class::Space) == i + n,
        after(s, i + n) == i + n,
{
    lemma_run_over(s, i, blanks(n), Class::Space);
}

/// The first byte of the lines of plain headers is not a line feed.
proof fn lemma_header_lines_begin(list: Seq<Header>)
    requires
        forall|k: int| 0 <= k < list.len() ==> (#[trigger] list[k]).plain(),
    ensures
        header_lines(list).len() > 0,
        header_lines(list)[0] != LF,
{
    if list.len() > 0 {
        assert(list[0].plain());
        let line = list[0].line();
        assert(line[0] == if list[0].key.len() > 0 {
            list[0].key[0]
        } else {
            COLON
        });
        assert(header_lines(list)[0] == line[0]);
    }
}

/// The end of a line, before an item that is not a line feed.
proof fn lemma_line_cr_over(s: Seq<Item>, i: int, f: Seq<FieldView>)
    requires
        stands(s, i, seq![CR, LF]),
        i + 2 < s.len(),
        s[i + 2] is Byte,
        s[i + 2] != Item::Byte(LF),
    ensures
        line_cr(s, i, f) == (Line { fields: f, next: Some(i + 2) }),
{
    assert(s[i] == Item::Byte(CR));
    assert(s[i + 1] == Item::Byte(LF));
    lemma_run_ends(s, i, i + 1, Class::Cr);
    lemma_run_ends(s, i + 1, i + 2, Class::Lf);
}

proof fn lemma_headers_over(
    s: Seq<Item>,
    i: int,
    list: Seq<Header>,
    h: Seq<u8>,
    p: i32,
    f: Seq<FieldView>,
)
    requires
        stands(s, i, header_lines(list)),
        forall|k: int| 0 <= k < list.len() ==> (#[trigger] list[k]).plain(),
    ensures
        headers(s, i, h, p, f).fields == f + header_fields(list),
        headers(s, i, h, p, f).status == (Status::Answered {
            answer: Ok((text_of(h), p)),
            read: i + header_lines(list).len(),
        }),
    decreases list.len(),
{
    if list.len() == 0 {
        assert(s[i] == Item::Byte(CR));
        assert(s[i + 1] == Item::Byte(LF));
        assert(f.push(FieldView::End) =~= f + header_fields(list));
    } else {
        let first = list[0];
        let rest = list.drop_first();
        assert(first.plain());
        assert forall|k: int| 0 <= k < rest.len() implies (#[trigger] rest[k]).plain() by {
            assert(list[k + 1].plain());
        }
        let rest_of_line = first.rest();
        lemma_stands_split(s, i, first.line(), header_lines(rest));
        lemma_stands_split(s, i, first.key, seq![COLON] + (rest_of_line + seq![CR, LF]));
        let a = i + first.key.len();
        lemma_stands_split(s, a, seq![COLON], rest_of_line + seq![CR, LF]);
        let b = a + 1;
        lemma_stands_split(s, b, rest_of_line, seq![CR, LF]);
        let c = b + rest_of_line.len();
        let n = c + 2;
        lemma_header_lines_begin(rest);
        assert(s[n] == Item::Byte(header_lines(rest)[0]));
        assert(s[a] == Item::Byte(COLON));
        assert(s[c] == Item::Byte(CR));
        assert(s[i] == Item::Byte(if first.key.len() > 0 {
            first.key[0]
        } else {
            COLON
        }));
        assert(s[b] == Item::Byte(if first.spaces > 0 {
            SPACE
        } else if first.value.len() > 0 {
            first.value[0]
        } else {
            CR
        }));
        let value = trimmed(first.value);
        let f1 = f.push(FieldView::Key(first.key));
        let f2 = f1.push(FieldView::Value(value));
        lemma_run_over(s, i, first.key, Class::NotColon);
        lemma_run_ends(s, a, b, Class::Colon);
        lemma_value_over(s, b, rest_of_line);
        lemma_trimmed_blanks(first.spaces, first.value);
        lemma_line_cr_over(s, c, f2);
        assert(key(s, i, f) == (Line { fields: f2, next: Some(n) }));
        lemma_headers_over(s, n, rest, h, p, f2);
        assert(f2 + header_fields(rest) =~= f + header_fields(list));
        assert(header_lines(list).len() == first.line().len() + header_lines(rest).len());
    }
}

/// The bytes of a request from the protocol on.
spec fn from_protocol(request: Request) -> Seq<u8> {
    ascii(PROTOCOL@) + (seq![CR, LF] + header_lines(request.headers))
}

/// The bytes of a request from the port on.
spec fn from_port(request: Request) -> Seq<u8> {
    request.port + (blanks(request.port_spaces) + from_protocol(request))
}

/// The bytes of a request from the spaces before the hostname on.
spec fn from_host(request: Request) -> Seq<u8> {
    blanks(request.spaces) + (request.host + (seq![COLON] + from_port(request)))
}

/// The answer to a request that ends with `s[read - 1]`.
spec fn accepted(request: Request, read: int) -> Status {
    Status::Answered {
        answer: Ok((text_of(request.host), number(request.port) as i32)),
        read,
    }
}

proof fn lemma_protocol_over(s: Seq<Item>, i: int, request: Request, f: Seq<FieldView>)
    requires
        request.plain(),
        stands(s, i, from_protocol(request)),
    ensures
        ({
            let p = number(request.port) as i32;
            let outcome = protocol(s, i, request.host, p, f);
            &&& outcome.fields == f + seq![FieldView::Protocol(ascii(PROTOCOL@))] + header_fields(
                request.headers,
            )
            &&& outcome.status == accepted(request, i + from_protocol(request).len())
        }),
{
    reveal_strlit("HTTP/1.1");
    let lines = header_lines(request.headers);
    let name = ascii(PROTOCOL@);
    lemma_stands_split(s, i, name, seq![CR, LF] + lines);
    let a = i + name.len();
    lemma_stands_split(s, a, seq![CR, LF], lines);
    assert(s[a] == Item::Byte(CR));
    lemma_run_over(s, i, name, Class::NotCr);
    lemma_header_lines_begin(request.headers);
    assert(s[a + 2] == Item::Byte(lines[0]));
    let p = number(request.port) as i32;
    let more = f.push(FieldView::Protocol(name));
    lemma_line_cr_over(s, a, more);
    lemma_headers_over(s, a + 2, request.headers, request.host, p, more);
    assert(more =~= f + seq![FieldView::Protocol(name)]);
}

proof fn lemma_port_over(s: Seq<Item>, i: int, request: Request, f: Seq<FieldView>)
    requires
        request.plain(),
        stands(s, i, from_port(request)),
    ensures
        ({
            let p = number(request.port) as i32;
            let outcome = port_number(s, i, request.host, f);
            &&& outcome.fields == f + seq![
                FieldView::Port(p),
                FieldView::Protocol(ascii(PROTOCOL@)),
            ] + header_fields(request.headers)
            &&& outcome.status == accepted(request, i + from_port(request).len())
        }),
{
    reveal_strlit("HTTP/1.1");
    let p = number(request.port) as i32;
    let tail = from_protocol(request);
    let gap = blanks(request.port_spaces);
    lemma_stands_split(s, i, request.port, gap + tail);
    let a = i + request.port.len();
    lemma_stands_split(s, a, gap, tail);
    let b = a + gap.len();
    lemma_stands_split(s, b, ascii(PROTOCOL@), seq![CR, LF] + header_lines(request.headers));
    assert(s[b] == Item::Byte(ascii(PROTOCOL@)[0]));
    assert(s[a] == Item::Byte(if gap.len() > 0 {
        SPACE
    } else {
        ascii(PROTOCOL@)[0]
    }));
    lemma_run_over(s, i, request.port, Class::Digit);
    lemma_blanks_over(s, a, request.port_spaces);
    let more = f.push(FieldView::Port(p));
    lemma_protocol_over(s, b, request, more);
    assert(more + seq![FieldView::Protocol(ascii(PROTOCOL@))] =~= f + seq![
        FieldView::Port(p),
        FieldView::Protocol(ascii(PROTOCOL@)),
    ]);
}

proof fn lemma_host_over(s: Seq<Item>, i: int, request: Request, f: Seq<FieldView>)
    requires
        request.plain(),
        stands(s, i, from_host(request)),
    ensures
        ({
            let p = number(request.port) as i32;
            let outcome = leading_spaces(s, i, f);
            &&& outcome.fields == f + seq![
                FieldView::Hostname(request.host),
                FieldView::Port(p),
                FieldView::Protocol(ascii(PROTOCOL@)),
            ] + header_fields(request.headers)
            &&& outcome.status == accepted(request, i + from_host(request).len())
        }),
{
    let p = number(request.port) as i32;
    let tail = from_port(request);
    let host = request.host;
    let lead = blanks(request.spaces);
    lemma_stands_split(s, i, lead, host + (seq![COLON] + tail));
    let b = i + lead.len();
    lemma_stands_split(s, b, host, seq![COLON] + tail);
    let a = b + host.len();
    lemma_stands_split(s, a, seq![COLON], tail);
    lemma_stands_split(
        s,
        a + 1,
        request.port,
        blanks(request.port_spaces) + from_protocol(request),
    );
    assert(s[a] == Item::Byte(COLON));
    assert(s[b] == Item::Byte(if host.len() > 0 {
        host[0]
    } else {
        COLON
    }));
    assert(Class::Digit.takes(request.port[0]));
    assert(s[a + 1] == Item::Byte(request.port[0]));
    lemma_blanks_over(s, i, request.spaces);
    lemma_run_over(s, b, host, Class::NotColon);
    lemma_run_ends(s, a, a + 1, Class::Colon);
    let more = f.push(FieldView::Hostname(host));
    lemma_port_over(s, a + 1, request, more);
    assert(more + seq![FieldView::Port(p), FieldView::Protocol(ascii(PROTOCOL@))] =~= f + seq![
        FieldView::Hostname(host),
        FieldView::Port(p),
        FieldView::Protocol(ascii(PROTOCOL@)),
    ]);
}

/// A request in the usual form is answered with its hostname and its port, however many spaces
/// stand before the one and behind the other, and nothing behind it is read: whatever
/// follows it on the stream is left there.
pub proof fn law_request_is_read(s: Seq<Item>, request: Request)
    requires
        request.plain(),
        stands(s, 0, request.bytes()),
    ensures
        connect(s).fields == seq![
            FieldView::Method(ascii(CONNECT@)),
            FieldView::Hostname(request.host),
            FieldView::Port(number(request.port) as i32),
            FieldView::Protocol(ascii(PROTOCOL@)),
        ] + header_fields(request.headers),
        connect(s).status == (Status::Answered {
            answer: Ok((text_of(request.host), number(request.port) as i32)),
            read: request.bytes().len() as int,
        }),
{
    reveal_strlit("CONNECT");
    let method = ascii(CONNECT@);
    lemma_stands_split(s, 0, method, from_host(request));
    let n = method.len() as int;
    assert forall|k: int| 0 <= k < n implies Class::Any.takes_item(#[trigger] s[k]) by {}
    lemma_run_reaches(s, 0, n, Class::Any);
    assert(bytes(s, 0, n) =~= method);
    let first = seq![FieldView::Method(method)];
    lemma_host_over(s, n, request, first);
    let p = number(request.port) as i32;
    assert(first + seq![
        FieldView::Hostname(request.host),
        FieldView::Port(p),
        FieldView::Protocol(ascii(PROTOCOL@)),
    ] =~= seq![
        FieldView::Method(method),
        FieldView::Hostname(request.host),
        FieldView::Port(p),
        FieldView::Protocol(ascii(PROTOCOL@)),
    ]);
}

proof fn lemma_digits_number(n: nat)
    ensures
        ascii(digits(n)).len() > 0,
        forall|k: int|
            0 <= k < ascii(digits(n)).len() ==> Class::Digit.takes(#[trigger] ascii(digits(n))[k]),
        number(ascii(digits(n))) == n,
    decreases n,
{
    let b = ascii(digits(n));
    let d = (n % 10) as int;
    assert(b.last() == (ZERO + d) as u8);
    if n < 10 {
        assert(b.drop_last() =~= seq![]);
        assert(number(b.drop_last()) == 0);
    } else {
        lemma_digits_number(n / 10);
        assert(b.drop_last() =~= ascii(digits(n / 10)));
        assert forall|k: int| 0 <= k < b.len() implies Class::Digit.takes(#[trigger] b[k]) by {
            if k < b.len() - 1 {
                assert(b[k] == b.drop_last()[k]);
            }
        }
    }
}

/// Each digit counts its power of ten in the number that digits stand for.
pub proof fn law_number_counts_powers_of_ten(digits: Seq<u8>)
    requires
        forall|k: int| 0 <= k < digits.len() ==> 0x30 <= #[trigger] digits[k] <= 0x39,
    ensures
        number(digits) < pow(10, digits.len()),
        forall|k: int|
            0 <= k < digits.len() ==> #[trigger] digits[k] == 0x30 + (number(digits) as int / pow(
                10,
                (digits.len() - 1 - k) as nat,
            )) % 10,
    decreases digits.len(),
{
    let n = number(digits);
    if digits.len() == 0 {
        reveal(pow);
    } else {
        let front = digits.drop_last();
        assert forall|k: int| 0 <= k < front.len() implies 0x30 <= #[trigger] front[k] <= 0x39 by {
            assert(front[k] == digits[k]);
        }
        law_number_counts_powers_of_ten(front);
        lemma_power_of_ten(n, digits.len());
        assert(0x30 <= digits[digits.len() - 1] <= 0x39);
        assert(n / 10 == number(front));
        assert forall|k: int| 0 <= k < digits.len() implies #[trigger] digits[k] == 0x30 + (
        n as int / pow(10, (digits.len() - 1 - k) as nat)) % 10 by {
            if k < front.len() {
                assert(digits[k] == front[k]);
                lemma_power_of_ten(n, (digits.len() - 1 - k) as nat);
            } else {
                reveal(pow);
                assert(pow(10, 0) == 1);
                assert(n as int / pow(10, 0) == n);
            }
        }
    }
}

/// A port that is written as a number is read as that number.
pub proof fn law_port_is_read_back(port: i32)
    requires
        0 <= port,
    ensures
        ascii(decimal(port as int)).len() > 0,
        forall|k: int|
            0 <= k < ascii(decimal(port as int)).len() ==> Class::Digit.takes(
                #[trigger] ascii(decimal(port as int))[k],
            ),
        number(ascii(decimal(port as int))) == port,
{
    lemma_digits_number(port as nat);
}

/// A request for a hostname and a port is answered with that hostname and that port, whatever
/// follows it: the hostname is the text that its bytes encode.
pub proof fn law_answer_names_the_target(
    s: Seq<Item>,
    request: Request,
    hostname: Seq<char>,
    port: i32,
)
    requires
        request.plain(),
        request.host == encode_utf8(hostname),
        0 <= port,
        request.port == ascii(decimal(port as int)),
        stands(s, 0, request.bytes()),
    ensures
        connect(s).status == (Status::Answered {
            answer: Ok((hostname, port)),
            read: request.bytes().len() as int,
        }),
{
    law_request_is_read(s, request);
    law_port_is_read_back(port);
    encode_utf8_valid_utf8(hostname);
    encode_utf8_decode_utf8(hostname);
}

} // verus!
