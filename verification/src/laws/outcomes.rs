//! What becomes of a request, read off the items of its stream one by one.

use vstd::prelude::*;
use vstd::utf8::{decode_utf8, valid_utf8};

use crate::grammar::{
    after, bytes, connect, headers, key, lemma_header_advances, lemma_run, lemma_run_ends,
    lemma_run_reaches, number, run, Class, FieldView, Line, Outcome, ParseError, Status, CONNECT,
    CR, PROTOCOL,
};
use crate::laws::law_accepted_request;
use crate::stream::Item;
use crate::text::{ascii, replaced_text, text_of};

verus! {

/// Items in a row, from the first up to the one behind them.
pub struct Span {
    pub start: int,
    pub end: int,
}

/// Where the parts of a header stand, and where the next line begins.
pub struct LineWalk {
    pub key: Span,
    pub colons: Span,
    pub spaces: Span,
    pub value: Span,
    pub cr: Span,
    pub lf: Span,
    pub next: int,
}

/// Where the parts of a request stand behind the method, where the headers begin, and where the
/// line behind the last header begins.
pub struct Walk {
    pub spaces: Span,
    pub host: Span,
    pub colons: Span,
    pub port: Span,
    pub gap: Span,
    pub protocol: Span,
    pub cr: Span,
    pub lf: Span,
    pub headers: int,
    pub lines: Seq<LineWalk>,
    pub last: int,
}

/// Whether a run of class `c` takes the span and no more.
#[verifier::opaque]
spec fn stops(s: Seq<Item>, span: Span, c: Class) -> bool {
    &&& 0 <= span.start <= span.end <= s.len()
    &&& forall|k: int| span.start <= k < span.end ==> c.takes_item(#[trigger] s[k])
    &&& span.end < s.len() ==> !c.takes_item(s[span.end])
}

/// The items that a run of class `c` takes from `i` on.
pub open spec fn span(s: Seq<Item>, i: int, c: Class) -> Span {
    Span { start: i, end: run(s, i, c) }
}

/// Where the part behind a run begins that ended at `j`.
pub open spec fn behind(s: Seq<Item>, j: int) -> int {
    j + if j < s.len() && s[j] is End {
        1int
    } else {
        0
    }
}

/// Where the parts of the header stand that begins at `i`.
pub open spec fn walk_line(s: Seq<Item>, i: int) -> LineWalk {
    let key = span(s, i, Class::NotColon);
    let colons = span(s, behind(s, key.end), Class::Colon);
    let spaces = span(s, behind(s, colons.end), Class::Space);
    let value = span(s, behind(s, spaces.end), Class::NotCr);
    let cr = span(s, behind(s, value.end), Class::Cr);
    let lf = span(s, behind(s, cr.end), Class::Lf);
    LineWalk { key, colons, spaces, value, cr, lf, next: behind(s, lf.end) }
}

/// Where the parts of the headers stand from `i` on.
pub open spec fn walk_lines(s: Seq<Item>, i: int) -> Seq<LineWalk>
    decreases s.len() - i,
{
    if 0 <= i < s.len() && s[i] != Item::Byte(CR) && !(s[i] is Failed) {
        let line = walk_line(s, i);
        if i < line.next <= s.len() {
            seq![line] + walk_lines(s, line.next)
        } else {
            seq![line]
        }
    } else {
        seq![]
    }
}

/// Where the parts of a request stand.
pub open spec fn walk(s: Seq<Item>) -> Walk {
    let spaces = span(s, 7, Class::Space);
    let host = span(s, behind(s, spaces.end), Class::NotColon);
    let colons = span(s, behind(s, host.end), Class::Colon);
    let port = span(s, behind(s, colons.end), Class::Digit);
    let gap = span(s, behind(s, port.end), Class::Space);
    let protocol = span(s, behind(s, gap.end), Class::NotCr);
    let cr = span(s, behind(s, protocol.end), Class::Cr);
    let lf = span(s, behind(s, cr.end), Class::Lf);
    let headers = behind(s, lf.end);
    let lines = walk_lines(s, headers);
    Walk {
        spaces,
        host,
        colons,
        port,
        gap,
        protocol,
        cr,
        lf,
        headers,
        lines,
        last: if lines.len() == 0 {
            headers
        } else {
            lines.last().next
        },
    }
}

proof fn lemma_span(s: Seq<Item>, i: int, c: Class)
    requires
        0 <= i <= s.len(),
    ensures
        stops(s, span(s, i, c), c),
        i <= run(s, i, c) <= behind(s, run(s, i, c)) <= s.len(),
        run(s, i, c) < s.len() ==> behind(s, run(s, i, c)) == after(s, run(s, i, c)),
{
    reveal(stops);
    lemma_run(s, i, c);
}

/// What stands in a span of spaces, and what does not stand behind it.
proof fn lemma_spaces(s: Seq<Item>, span: Span)
    requires
        stops(s, span, Class::Space),
    ensures
        span.start <= span.end <= s.len(),
        forall|k: int| span.start <= k < span.end ==> #[trigger] s[k] == Item::Byte(0x20),
        span.end < s.len() ==> s[span.end] != Item::Byte(0x20),
{
    reveal(stops);
    assert forall|k: int|
        span.start <= k < span.end implies #[trigger] s[k] == Item::Byte(0x20) by {
        assert(Class::Space.takes_item(s[k]));
    }
}

/// What stands in a span of colons, and what does not stand behind it.
proof fn lemma_colons(s: Seq<Item>, span: Span)
    requires
        stops(s, span, Class::Colon),
    ensures
        span.start <= span.end <= s.len(),
        forall|k: int| span.start <= k < span.end ==> #[trigger] s[k] == Item::Byte(0x3a),
        span.end < s.len() ==> s[span.end] != Item::Byte(0x3a),
{
    reveal(stops);
    assert forall|k: int|
        span.start <= k < span.end implies #[trigger] s[k] == Item::Byte(0x3a) by {
        assert(Class::Colon.takes_item(s[k]));
    }
}

/// What stands in a span of carriage returns, and what does not stand behind it.
proof fn lemma_returns(s: Seq<Item>, span: Span)
    requires
        stops(s, span, Class::Cr),
    ensures
        span.start <= span.end <= s.len(),
        forall|k: int| span.start <= k < span.end ==> #[trigger] s[k] == Item::Byte(0x0d),
        span.end < s.len() ==> s[span.end] != Item::Byte(0x0d),
{
    reveal(stops);
    assert forall|k: int|
        span.start <= k < span.end implies #[trigger] s[k] == Item::Byte(0x0d) by {
        assert(Class::Cr.takes_item(s[k]));
    }
}

/// What stands in a span of line feeds, and what does not stand behind it.
proof fn lemma_feeds(s: Seq<Item>, span: Span)
    requires
        stops(s, span, Class::Lf),
    ensures
        span.start <= span.end <= s.len(),
        forall|k: int| span.start <= k < span.end ==> #[trigger] s[k] == Item::Byte(0x0a),
        span.end < s.len() ==> s[span.end] != Item::Byte(0x0a),
{
    reveal(stops);
    assert forall|k: int|
        span.start <= k < span.end implies #[trigger] s[k] == Item::Byte(0x0a) by {
        assert(Class::Lf.takes_item(s[k]));
    }
}

/// What stands in a span of digits, and what does not stand behind it.
proof fn lemma_digits(s: Seq<Item>, span: Span)
    requires
        stops(s, span, Class::Digit),
    ensures
        span.start <= span.end <= s.len(),
        forall|k: int|
            span.start <= k < span.end ==> (#[trigger] s[k] matches Item::Byte(b)
                && 0x30 <= b <= 0x39),
        span.end < s.len() ==> !(s[span.end] matches Item::Byte(b) && 0x30 <= b <= 0x39),
{
    reveal(stops);
    assert forall|k: int|
        span.start <= k < span.end implies (#[trigger] s[k] matches Item::Byte(b)
            && 0x30 <= b <= 0x39) by {
        assert(Class::Digit.takes_item(s[k]));
    }
}

/// What stands in a span of bytes up to a colon, and what does not stand behind it.
proof fn lemma_up_to_colon(s: Seq<Item>, span: Span)
    requires
        stops(s, span, Class::NotColon),
    ensures
        span.start <= span.end <= s.len(),
        forall|k: int|
            span.start <= k < span.end ==> #[trigger] s[k] is Byte && s[k] != Item::Byte(0x3a),
        span.end < s.len() ==> !(s[span.end] is Byte) || s[span.end] == Item::Byte(0x3a),
{
    reveal(stops);
    assert forall|k: int|
        span.start <= k < span.end implies #[trigger] s[k] is Byte && s[k] != Item::Byte(0x3a) by {
        assert(Class::NotColon.takes_item(s[k]));
    }
}

/// What stands in a span of bytes up to a carriage return, and what does not stand behind it.
proof fn lemma_up_to_return(s: Seq<Item>, span: Span)
    requires
        stops(s, span, Class::NotCr),
    ensures
        span.start <= span.end <= s.len(),
        forall|k: int|
            span.start <= k < span.end ==> #[trigger] s[k] is Byte && s[k] != Item::Byte(0x0d),
        span.end < s.len() ==> !(s[span.end] is Byte) || s[span.end] == Item::Byte(0x0d),
{
    reveal(stops);
    assert forall|k: int|
        span.start <= k < span.end implies #[trigger] s[k] is Byte && s[k] != Item::Byte(0x0d) by {
        assert(Class::NotCr.takes_item(s[k]));
    }
}

/// Whether the parts of a header stand one behind the other.
#[verifier::opaque]
spec fn line_walks(s: Seq<Item>, l: LineWalk) -> bool {
    &&& stops(s, l.key, Class::NotColon)
    &&& stops(s, l.colons, Class::Colon)
    &&& stops(s, l.spaces, Class::Space)
    &&& stops(s, l.value, Class::NotCr)
    &&& stops(s, l.cr, Class::Cr)
    &&& stops(s, l.lf, Class::Lf)
    &&& l.colons.start == behind(s, l.key.end)
    &&& l.spaces.start == behind(s, l.colons.end)
    &&& l.value.start == behind(s, l.spaces.end)
    &&& l.cr.start == behind(s, l.value.end)
    &&& l.lf.start == behind(s, l.cr.end)
    &&& l.next == behind(s, l.lf.end)
}

/// The parts that were read of a header.
spec fn line_fields(s: Seq<Item>, l: LineWalk, f: Seq<FieldView>) -> Seq<FieldView> {
    let with_key = f.push(FieldView::Key(bytes(s, l.key.start, l.key.end)));
    if l.key.end == s.len() {
        f
    } else if l.value.end == s.len() {
        with_key
    } else {
        with_key.push(FieldView::Value(bytes(s, l.value.start, l.value.end)))
    }
}

proof fn lemma_line_walk(s: Seq<Item>, i: int, f: Seq<FieldView>)
    requires
        0 <= i < s.len(),
        !(s[i] is Failed),
    ensures
        ({
            let l = walk_line(s, i);
            &&& line_walks(s, l)
            &&& i < l.next <= s.len()
            &&& l.key.end <= l.value.end <= l.lf.end <= s.len()
            &&& l.lf.end == s.len() ==> l.next == s.len()
            &&& key(s, i, f) == (Line {
                fields: line_fields(s, l, f),
                next: if l.lf.end < s.len() {
                    Some(l.next)
                } else {
                    None
                },
            })
        }),
{
    reveal(line_walks);
    let l = walk_line(s, i);
    lemma_span(s, i, Class::NotColon);
    lemma_span(s, behind(s, l.key.end), Class::Colon);
    lemma_span(s, behind(s, l.colons.end), Class::Space);
    lemma_span(s, behind(s, l.spaces.end), Class::NotCr);
    lemma_span(s, behind(s, l.value.end), Class::Cr);
    lemma_span(s, behind(s, l.cr.end), Class::Lf);
    lemma_header_advances(s, i, f);
}

/// Whether header lines follow one another from `i` on, and another line begins at `last`.
#[verifier::opaque]
spec fn lines_walk(s: Seq<Item>, i: int, lines: Seq<LineWalk>, last: int) -> bool {
    &&& forall|j: int|
        0 <= j < lines.len() ==> {
            let l = #[trigger] lines[j];
            &&& line_walks(s, l)
            &&& l.key.start == if j == 0 {
                i
            } else {
                lines[j - 1].next
            }
            &&& 0 <= l.key.start < s.len()
            &&& s[l.key.start] != Item::Byte(CR)
            &&& !(s[l.key.start] is Failed)
        }
    &&& last == if lines.len() == 0 {
        i
    } else {
        lines.last().next
    }
    &&& i <= last <= s.len()
    &&& last < s.len() ==> s[last] == Item::Byte(CR) || s[last] is Failed
}

/// How many of two parts the last of the headers still lacks.
spec fn lacking(s: Seq<Item>, lines: Seq<LineWalk>) -> int {
    if lines.len() == 0 || lines.last().value.end < s.len() {
        0
    } else if lines.last().key.end < s.len() {
        1
    } else {
        2
    }
}

/// What becomes of the headers.
spec fn lines_status(s: Seq<Item>, last: int, h: Seq<u8>, p: i32) -> Status {
    if last == s.len() {
        Status::Pending
    } else if s[last] is Failed {
        Status::Stalled { read: last + 1 }
    } else if last + 1 == s.len() {
        Status::Pending
    } else if s[last + 1] == Item::Byte(0x0a) {
        Status::Answered { answer: Ok((text_of(h), p)), read: last + 2 }
    } else {
        Status::Answered { answer: Err(ParseError::ExpectedNewline), read: last + 2 }
    }
}

/// Whether the parts `g` are those before the headers, `f`, and those of the headers.
#[verifier::opaque]
spec fn lines_fields(
    s: Seq<Item>,
    lines: Seq<LineWalk>,
    f: Seq<FieldView>,
    g: Seq<FieldView>,
    ended: bool,
) -> bool {
    &&& g.len() == f.len() + 2 * lines.len() - lacking(s, lines) + if ended {
        1int
    } else {
        0
    }
    &&& forall|k: int| 0 <= k < f.len() ==> #[trigger] g[k] == f[k]
    &&& forall|j: int|
        0 <= j < lines.len() ==> {
            let l = #[trigger] lines[j];
            &&& l.key.end < s.len() ==> g[f.len() + 2 * j] == FieldView::Key(
                bytes(s, l.key.start, l.key.end),
            )
            &&& l.value.end < s.len() ==> g[f.len() + 2 * j + 1] == FieldView::Value(
                bytes(s, l.value.start, l.value.end),
            )
        }
    &&& ended ==> g.last() == FieldView::End
}

/// A header line before others.
proof fn lemma_lines_prepend(s: Seq<Item>, l: LineWalk, rest: Seq<LineWalk>, last: int)
    requires
        line_walks(s, l),
        0 <= l.key.start < s.len(),
        l.key.start < l.next,
        s[l.key.start] != Item::Byte(CR),
        !(s[l.key.start] is Failed),
        lines_walk(s, l.next, rest, last),
    ensures
        lines_walk(s, l.key.start, seq![l] + rest, last),
{
    reveal(lines_walk);
    let lines = seq![l] + rest;
    assert forall|j: int| 0 <= j < lines.len() implies {
        let m = #[trigger] lines[j];
        &&& line_walks(s, m)
        &&& m.key.start == if j == 0 {
            l.key.start
        } else {
            lines[j - 1].next
        }
        &&& 0 <= m.key.start < s.len()
        &&& s[m.key.start] != Item::Byte(CR)
        &&& !(s[m.key.start] is Failed)
    } by {
        if j > 0 {
            assert(lines[j] == rest[j - 1]);
            if j > 1 {
                assert(lines[j - 1] == rest[j - 2]);
            }
        }
    }
    assert(rest.len() > 0 ==> lines.last() == rest.last());
    assert(rest.len() == 0 ==> lines.last() == l);
}

/// The parts of a header before those of others.
proof fn lemma_fields_prepend(
    s: Seq<Item>,
    l: LineWalk,
    rest: Seq<LineWalk>,
    f: Seq<FieldView>,
    g: Seq<FieldView>,
    ended: bool,
)
    requires
        l.key.end < s.len(),
        l.value.end < s.len(),
        lines_fields(s, rest, line_fields(s, l, f), g, ended),
        lacking(s, rest) <= 2 * rest.len(),
    ensures
        lines_fields(s, seq![l] + rest, f, g, ended),
{
    reveal(lines_fields);
    let lines = seq![l] + rest;
    let more = line_fields(s, l, f);
    assert(rest.len() > 0 ==> lines.last() == rest.last());
    assert(rest.len() == 0 ==> lines.last() == l);
    assert forall|j: int| 0 <= j < lines.len() implies {
        let m = #[trigger] lines[j];
        &&& m.key.end < s.len() ==> g[f.len() + 2 * j] == FieldView::Key(
            bytes(s, m.key.start, m.key.end),
        )
        &&& m.value.end < s.len() ==> g[f.len() + 2 * j + 1] == FieldView::Value(
            bytes(s, m.value.start, m.value.end),
        )
    } by {
        if j > 0 {
            assert(lines[j] == rest[j - 1]);
            assert(f.len() + 2 * j == more.len() + 2 * (j - 1));
        } else {
            assert(g[f.len() as int] == more[f.len() as int]);
            assert(g[f.len() as int + 1] == more[f.len() as int + 1]);
        }
    }
    assert forall|k: int| 0 <= k < f.len() implies #[trigger] g[k] == f[k] by {
        assert(g[k] == more[k]);
    }
}

/// Whether a request is answered with a hostname and a port.
spec fn accepts(status: Status) -> bool {
    status matches Status::Answered { answer, .. } && answer is Ok
}

/// Where the line behind the last header begins.
spec fn line_behind(lines: Seq<LineWalk>, i: int) -> int {
    if lines.len() == 0 {
        i
    } else {
        lines.last().next
    }
}

proof fn lemma_lines(s: Seq<Item>, i: int)
    requires
        0 <= i <= s.len(),
    ensures
        lines_walk(s, i, walk_lines(s, i), line_behind(walk_lines(s, i), i)),
    decreases s.len() - i,
{
    let none = Seq::<LineWalk>::empty();
    if i == s.len() || s[i] == Item::Byte(CR) || s[i] is Failed {
        reveal(lines_walk);
    } else {
        let l = walk_line(s, i);
        lemma_line_walk(s, i, seq![]);
        let rest = walk_lines(s, l.next);
        lemma_lines(s, l.next);
        lemma_lines_prepend(s, l, rest, line_behind(rest, l.next));
        assert(rest.len() > 0 ==> (seq![l] + rest).last() == rest.last());
        assert(rest.len() == 0 ==> (seq![l] + rest).last() == l);
    }
}

proof fn lemma_headers_walk(s: Seq<Item>, i: int, h: Seq<u8>, p: i32, f: Seq<FieldView>)
    requires
        0 <= i <= s.len(),
    ensures
        headers(s, i, h, p, f).status == lines_status(s, line_behind(walk_lines(s, i), i), h, p),
        lines_fields(
            s,
            walk_lines(s, i),
            f,
            headers(s, i, h, p, f).fields,
            accepts(headers(s, i, h, p, f).status),
        ),
    decreases s.len() - i,
{
    if i == s.len() || s[i] == Item::Byte(CR) || s[i] is Failed {
        reveal(lines_fields);
    } else {
        let l = walk_line(s, i);
        lemma_line_walk(s, i, f);
        let rest = walk_lines(s, l.next);
        assert(rest.len() > 0 ==> (seq![l] + rest).last() == rest.last());
        assert(rest.len() == 0 ==> (seq![l] + rest).last() == l);
        if l.lf.end < s.len() {
            let more = line_fields(s, l, f);
            lemma_headers_walk(s, l.next, h, p, more);
            let g = headers(s, i, h, p, f).fields;
            lemma_fields_prepend(s, l, rest, f, g, accepts(headers(s, i, h, p, f).status));
        } else {
            assert(rest =~= Seq::<LineWalk>::empty());
            assert(walk_lines(s, i) =~= seq![l]);
            reveal(lines_fields);
        }
    }
}

/// The parts of a request line behind the method are spaces, the hostname up to a colon, colons,
/// digits, spaces, the protocol up to a carriage return, carriage returns and line feeds. Each
/// of them takes as many items as it can, and the next begins with the item that it did not
/// take, or behind it if that is the end of the stream.
pub proof fn law_parts_of_the_request_line(s: Seq<Item>)
    requires
        s.len() >= 7,
    ensures
        ({
            let n = s.len();
            let w = walk(s);
            &&& w.spaces.start == 7
            &&& w.spaces.start <= w.spaces.end <= n
            &&& forall|k: int|
                w.spaces.start <= k < w.spaces.end ==> #[trigger] s[k] == Item::Byte(0x20)
            &&& w.spaces.end < n ==> s[w.spaces.end] != Item::Byte(0x20)
            &&& w.host.start == (w.spaces.end + if w.spaces.end < n && s[w.spaces.end] is End {
                1int
            } else {
                0
            })
            &&& w.host.start <= w.host.end <= n
            &&& forall|k: int|
                w.host.start <= k < w.host.end ==> #[trigger] s[k] is Byte
                    && s[k] != Item::Byte(0x3a)
            &&& w.host.end < n ==> !(s[w.host.end] is Byte) || s[w.host.end] == Item::Byte(0x3a)
            &&& w.colons.start == (w.host.end + if w.host.end < n && s[w.host.end] is End {
                1int
            } else {
                0
            })
            &&& w.colons.start <= w.colons.end <= n
            &&& forall|k: int|
                w.colons.start <= k < w.colons.end ==> #[trigger] s[k] == Item::Byte(0x3a)
            &&& w.colons.end < n ==> s[w.colons.end] != Item::Byte(0x3a)
            &&& w.port.start == (w.colons.end + if w.colons.end < n && s[w.colons.end] is End {
                1int
            } else {
                0
            })
            &&& w.port.start <= w.port.end <= n
            &&& forall|k: int|
                w.port.start <= k < w.port.end ==> (#[trigger] s[k] matches Item::Byte(b)
                    && 0x30 <= b <= 0x39)
            &&& w.port.end < n ==> !(s[w.port.end] matches Item::Byte(b) && 0x30 <= b <= 0x39)
            &&& w.gap.start == (w.port.end + if w.port.end < n && s[w.port.end] is End {
                1int
            } else {
                0
            })
            &&& w.gap.start <= w.gap.end <= n
            &&& forall|k: int|
                w.gap.start <= k < w.gap.end ==> #[trigger] s[k] == Item::Byte(0x20)
            &&& w.gap.end < n ==> s[w.gap.end] != Item::Byte(0x20)
            &&& w.protocol.start == (w.gap.end + if w.gap.end < n && s[w.gap.end] is End {
                1int
            } else {
                0
            })
            &&& w.protocol.start <= w.protocol.end <= n
            &&& forall|k: int|
                w.protocol.start <= k < w.protocol.end ==> #[trigger] s[k] is Byte
                    && s[k] != Item::Byte(0x0d)
            &&& w.protocol.end < n ==> !(s[w.protocol.end] is Byte)
                || s[w.protocol.end] == Item::Byte(0x0d)
            &&& w.cr.start == (w.protocol.end + if w.protocol.end < n && s[w.protocol.end] is End {
                1int
            } else {
                0
            })
            &&& w.cr.start <= w.cr.end <= n
            &&& forall|k: int|
                w.cr.start <= k < w.cr.end ==> #[trigger] s[k] == Item::Byte(0x0d)
            &&& w.cr.end < n ==> s[w.cr.end] != Item::Byte(0x0d)
            &&& w.lf.start == (w.cr.end + if w.cr.end < n && s[w.cr.end] is End {
                1int
            } else {
                0
            })
            &&& w.lf.start <= w.lf.end <= n
            &&& forall|k: int|
                w.lf.start <= k < w.lf.end ==> #[trigger] s[k] == Item::Byte(0x0a)
            &&& w.lf.end < n ==> s[w.lf.end] != Item::Byte(0x0a)
            &&& w.headers == (w.lf.end + if w.lf.end < n && s[w.lf.end] is End {
                1int
            } else {
                0
            })
        }),
{
    let w = walk(s);
    lemma_span(s, 7, Class::Space);
    lemma_span(s, behind(s, w.spaces.end), Class::NotColon);
    lemma_span(s, behind(s, w.host.end), Class::Colon);
    lemma_span(s, behind(s, w.colons.end), Class::Digit);
    lemma_span(s, behind(s, w.port.end), Class::Space);
    lemma_span(s, behind(s, w.gap.end), Class::NotCr);
    lemma_span(s, behind(s, w.protocol.end), Class::Cr);
    lemma_span(s, behind(s, w.cr.end), Class::Lf);
    lemma_spaces(s, w.spaces);
    lemma_up_to_colon(s, w.host);
    lemma_colons(s, w.colons);
    lemma_digits(s, w.port);
    lemma_spaces(s, w.gap);
    lemma_up_to_return(s, w.protocol);
    lemma_returns(s, w.cr);
    lemma_feeds(s, w.lf);
}

/// The headers stand on lines of the same kind: a key up to a colon, colons, spaces, a value up
/// to a carriage return, carriage returns and line feeds. The first begins behind the request
/// line, and each of the others behind the one before it; none begins with a carriage return
/// or with a failure.
pub proof fn law_parts_of_a_header(s: Seq<Item>, j: int)
    requires
        s.len() >= 7,
        0 <= j < walk(s).lines.len(),
    ensures
        ({
            let n = s.len();
            let l = walk(s).lines[j];
            &&& l.key.start < n
            &&& s[l.key.start] != Item::Byte(0x0d)
            &&& !(s[l.key.start] is Failed)
            &&& l.key.start == (if j == 0 {
                walk(s).headers
            } else {
                walk(s).lines[j - 1].next
            })
            &&& l.key.start <= l.key.end <= n
            &&& forall|k: int|
                l.key.start <= k < l.key.end ==> #[trigger] s[k] is Byte && s[k] != Item::Byte(0x3a)
            &&& l.key.end < n ==> !(s[l.key.end] is Byte) || s[l.key.end] == Item::Byte(0x3a)
            &&& l.colons.start == (l.key.end + if l.key.end < n && s[l.key.end] is End {
                1int
            } else {
                0
            })
            &&& l.colons.start <= l.colons.end <= n
            &&& forall|k: int|
                l.colons.start <= k < l.colons.end ==> #[trigger] s[k] == Item::Byte(0x3a)
            &&& l.colons.end < n ==> s[l.colons.end] != Item::Byte(0x3a)
            &&& l.spaces.start == (l.colons.end + if l.colons.end < n && s[l.colons.end] is End {
                1int
            } else {
                0
            })
            &&& l.spaces.start <= l.spaces.end <= n
            &&& forall|k: int|
                l.spaces.start <= k < l.spaces.end ==> #[trigger] s[k] == Item::Byte(0x20)
            &&& l.spaces.end < n ==> s[l.spaces.end] != Item::Byte(0x20)
            &&& l.value.start == (l.spaces.end + if l.spaces.end < n && s[l.spaces.end] is End {
                1int
            } else {
                0
            })
            &&& l.value.start <= l.value.end <= n
            &&& forall|k: int|
                l.value.start <= k < l.value.end ==> #[trigger] s[k] is Byte
                    && s[k] != Item::Byte(0x0d)
            &&& l.value.end < n ==> !(s[l.value.end] is Byte) || s[l.value.end] == Item::Byte(0x0d)
            &&& l.cr.start == (l.value.end + if l.value.end < n && s[l.value.end] is End {
                1int
            } else {
                0
            })
            &&& l.cr.start <= l.cr.end <= n
            &&& forall|k: int|
                l.cr.start <= k < l.cr.end ==> #[trigger] s[k] == Item::Byte(0x0d)
            &&& l.cr.end < n ==> s[l.cr.end] != Item::Byte(0x0d)
            &&& l.lf.start == (l.cr.end + if l.cr.end < n && s[l.cr.end] is End {
                1int
            } else {
                0
            })
            &&& l.lf.start <= l.lf.end <= n
            &&& forall|k: int|
                l.lf.start <= k < l.lf.end ==> #[trigger] s[k] == Item::Byte(0x0a)
            &&& l.lf.end < n ==> s[l.lf.end] != Item::Byte(0x0a)
            &&& l.next == (l.lf.end + if l.lf.end < n && s[l.lf.end] is End {
                1int
            } else {
                0
            })
        }),
{
    lemma_headers_begin(s);
    lemma_lines(s, walk(s).headers);
    let l = walk(s).lines[j];
    assert({
        &&& line_walks(s, l)
        &&& l.key.start == if j == 0 {
            walk(s).headers
        } else {
            walk(s).lines[j - 1].next
        }
        &&& l.key.start < s.len()
        &&& s[l.key.start] != Item::Byte(CR)
        &&& !(s[l.key.start] is Failed)
    }) by {
        reveal(lines_walk);
    }
    reveal(line_walks);
    lemma_up_to_colon(s, l.key);
    lemma_colons(s, l.colons);
    lemma_spaces(s, l.spaces);
    lemma_up_to_return(s, l.value);
    lemma_returns(s, l.cr);
    lemma_feeds(s, l.lf);
}

/// The headers go on up to a line that begins with a carriage return or with a failure, or up
/// to where the items end.
pub proof fn law_end_of_the_headers(s: Seq<Item>)
    requires
        s.len() >= 7,
    ensures
        walk(s).last == if walk(s).lines.len() == 0 {
            walk(s).headers
        } else {
            walk(s).lines.last().next
        },
        walk(s).headers <= walk(s).last <= s.len(),
        walk(s).last < s.len() ==> s[walk(s).last] == Item::Byte(0x0d) || s[walk(s).last] is Failed,
{
    lemma_headers_begin(s);
    lemma_lines(s, walk(s).headers);
    reveal(lines_walk);
}

proof fn lemma_headers_begin(s: Seq<Item>)
    requires
        s.len() >= 7,
    ensures
        7 <= walk(s).headers <= s.len(),
{
    let w = walk(s);
    lemma_span(s, 7, Class::Space);
    lemma_span(s, behind(s, w.spaces.end), Class::NotColon);
    lemma_span(s, behind(s, w.host.end), Class::Colon);
    lemma_span(s, behind(s, w.colons.end), Class::Digit);
    lemma_span(s, behind(s, w.port.end), Class::Space);
    lemma_span(s, behind(s, w.gap.end), Class::NotCr);
    lemma_span(s, behind(s, w.protocol.end), Class::Cr);
    lemma_span(s, behind(s, w.cr.end), Class::Lf);
}

/// The parts of a request before the headers.
spec fn head_fields(s: Seq<Item>) -> Seq<FieldView> {
    let w = walk(s);
    seq![
        FieldView::Method(seq![0x43u8, 0x4fu8, 0x4eu8, 0x4eu8, 0x45u8, 0x43u8, 0x54u8]),
        FieldView::Hostname(bytes(s, w.host.start, w.host.end)),
        FieldView::Port(number(bytes(s, w.port.start, w.port.end)) as i32),
        FieldView::Protocol(bytes(s, w.protocol.start, w.protocol.end)),
    ]
}

/// The items that begin with the method.
spec fn begins(s: Seq<Item>) -> bool {
    &&& s.len() >= 7
    &&& s[0] == Item::Byte(0x43)
    &&& s[1] == Item::Byte(0x4f)
    &&& s[2] == Item::Byte(0x4e)
    &&& s[3] == Item::Byte(0x4e)
    &&& s[4] == Item::Byte(0x45)
    &&& s[5] == Item::Byte(0x43)
    &&& s[6] == Item::Byte(0x54)
}

proof fn lemma_connect_walk(s: Seq<Item>)
    requires
        begins(s),
    ensures
        ({
            let n = s.len();
            let w = walk(s);
            let f = head_fields(s);
            let host = bytes(s, w.host.start, w.host.end);
            let port = number(bytes(s, w.port.start, w.port.end));
            let protocol = bytes(s, w.protocol.start, w.protocol.end);
            &&& 7 <= w.headers <= n
            &&& if w.host.end == n {
                connect(s) == (Outcome { fields: f.take(1), status: Status::Pending })
            } else if w.port.end == n {
                connect(s) == (Outcome { fields: f.take(2), status: Status::Pending })
            } else if w.port.start == w.port.end {
                connect(s) == (Outcome {
                    fields: f.take(2),
                    status: Status::Answered {
                        answer: Err(ParseError::EmptyPort),
                        read: w.port.end + 1,
                    },
                })
            } else if port > i32::MAX {
                connect(s) == (Outcome {
                    fields: f.take(2),
                    status: Status::Answered {
                        answer: Err(ParseError::PortTooLarge),
                        read: w.port.end + 1,
                    },
                })
            } else if w.protocol.end == n {
                connect(s) == (Outcome { fields: f.take(3), status: Status::Pending })
            } else if protocol != seq![
                0x48u8,
                0x54u8,
                0x54u8,
                0x50u8,
                0x2fu8,
                0x31u8,
                0x2eu8,
                0x31u8,
            ] {
                connect(s) == (Outcome {
                    fields: f,
                    status: Status::Answered {
                        answer: Err(ParseError::ExpectedProtocol),
                        read: w.protocol.end + 1,
                    },
                })
            } else if w.lf.end == n {
                connect(s) == (Outcome { fields: f, status: Status::Pending })
            } else {
                &&& connect(s).status == lines_status(s, w.last, host, port as i32)
                &&& lines_fields(s, w.lines, f, connect(s).fields, accepts(connect(s).status))
            }
        }),
{
    reveal_strlit("CONNECT");
    reveal_strlit("HTTP/1.1");
    let method = seq![0x43u8, 0x4fu8, 0x4eu8, 0x4eu8, 0x45u8, 0x43u8, 0x54u8];
    lemma_run_reaches(s, 0, 7, Class::Any);
    assert(bytes(s, 0, 7) =~= method);
    assert(ascii(CONNECT@) =~= method);
    assert(ascii(PROTOCOL@) =~= seq![
        0x48u8,
        0x54u8,
        0x54u8,
        0x50u8,
        0x2fu8,
        0x31u8,
        0x2eu8,
        0x31u8,
    ]);
    let w = walk(s);
    lemma_span(s, 7, Class::Space);
    lemma_span(s, behind(s, w.spaces.end), Class::NotColon);
    lemma_span(s, behind(s, w.host.end), Class::Colon);
    lemma_span(s, behind(s, w.colons.end), Class::Digit);
    lemma_span(s, behind(s, w.port.end), Class::Space);
    lemma_span(s, behind(s, w.gap.end), Class::NotCr);
    lemma_span(s, behind(s, w.protocol.end), Class::Cr);
    lemma_span(s, behind(s, w.cr.end), Class::Lf);
    let f = head_fields(s);
    let f1 = seq![FieldView::Method(method)];
    let host = bytes(s, w.host.start, w.host.end);
    let port = number(bytes(s, w.port.start, w.port.end)) as i32;
    let f2 = f1.push(FieldView::Hostname(host));
    let f3 = f2.push(FieldView::Port(port));
    assert(f.take(1) =~= f1);
    assert(f.take(2) =~= f2);
    assert(f.take(3) =~= f3);
    assert(f =~= f3.push(
        FieldView::Protocol(bytes(s, w.protocol.start, w.protocol.end)),
    ));
    lemma_headers_walk(s, w.headers, host, port, f);
}

/// What becomes of a request that begins with the method is told by its items.
///
/// It is refused where there is no digit, or too large a number, or another protocol than
/// `HTTP/1.1`, or anything but a line feed behind the carriage return that the last line begins
/// with. It is answered with the hostname and the number where that line feed stands. A failure
/// at the beginning of a line leaves it without an answer, and where the items reach no
/// further, more are wanted.
pub proof fn law_items_tell_the_outcome(s: Seq<Item>)
    requires
        s.len() >= 7,
        s[0] == Item::Byte(0x43),
        s[1] == Item::Byte(0x4f),
        s[2] == Item::Byte(0x4e),
        s[3] == Item::Byte(0x4e),
        s[4] == Item::Byte(0x45),
        s[5] == Item::Byte(0x43),
        s[6] == Item::Byte(0x54),
    ensures
        ({
            let n = s.len();
            let w = walk(s);
            let f1 = seq![
                FieldView::Method(seq![0x43u8, 0x4fu8, 0x4eu8, 0x4eu8, 0x45u8, 0x43u8, 0x54u8]),
            ];
            let host = Seq::new(
                (w.host.end - w.host.start) as nat,
                |k: int| s[w.host.start + k]->Byte_0,
            );
            let f2 = f1.push(FieldView::Hostname(host));
            let port = number(
                Seq::new(
                    (w.port.end - w.port.start) as nat,
                    |k: int| s[w.port.start + k]->Byte_0,
                ),
            );
            let f3 = f2.push(FieldView::Port(port as i32));
            let protocol = Seq::new(
                (w.protocol.end - w.protocol.start) as nat,
                |k: int| s[w.protocol.start + k]->Byte_0,
            );
            let f4 = f3.push(FieldView::Protocol(protocol));
            let found = protocol == seq![
                0x48u8,
                0x54u8,
                0x54u8,
                0x50u8,
                0x2fu8,
                0x31u8,
                0x2eu8,
                0x31u8,
            ];
            let status = connect(s).status;
            let fields = connect(s).fields;
            if w.host.end == n {
                status is Pending && fields == f1
            } else if w.port.end == n {
                status is Pending && fields == f2
            } else if w.port.start == w.port.end {
                fields == f2 && status == (Status::Answered {
                    answer: Err(ParseError::EmptyPort),
                    read: w.port.end + 1,
                })
            } else if port > 0x7fff_ffff {
                fields == f2 && status == (Status::Answered {
                    answer: Err(ParseError::PortTooLarge),
                    read: w.port.end + 1,
                })
            } else if w.protocol.end == n {
                status is Pending && fields == f3
            } else if !found {
                fields == f4 && status == (Status::Answered {
                    answer: Err(ParseError::ExpectedProtocol),
                    read: w.protocol.end + 1,
                })
            } else if w.lf.end == n {
                status is Pending && fields == f4
            } else {
                &&& fields.len() >= 4
                &&& fields.take(4) == f4
                &&& w.headers <= w.last <= n
                &&& if w.last == n || (s[w.last] == Item::Byte(0x0d) && w.last + 1 == n) {
                    status is Pending
                } else if s[w.last] is Failed {
                    status == (Status::Stalled { read: w.last + 1 })
                } else if s[w.last + 1] == Item::Byte(0x0a) {
                    &&& status matches Status::Answered { answer: Ok((hostname, number)), read }
                    &&& read == w.last + 2
                    &&& number == port
                    &&& valid_utf8(host) ==> hostname == decode_utf8(host)
                    &&& !valid_utf8(host) ==> hostname == replaced_text(host)
                } else {
                    status == (Status::Answered {
                        answer: Err(ParseError::ExpectedNewline),
                        read: w.last + 2,
                    })
                }
            }
        }),
{
    lemma_connect_walk(s);
    let w = walk(s);
    let host = bytes(s, w.host.start, w.host.end);
    assert(host =~= Seq::new(
        (w.host.end - w.host.start) as nat,
        |k: int| s[w.host.start + k]->Byte_0,
    ));
    assert(bytes(s, w.port.start, w.port.end) =~= Seq::new(
        (w.port.end - w.port.start) as nat,
        |k: int| s[w.port.start + k]->Byte_0,
    ));
    assert(bytes(s, w.protocol.start, w.protocol.end) =~= Seq::new(
        (w.protocol.end - w.protocol.start) as nat,
        |k: int| s[w.protocol.start + k]->Byte_0,
    ));
    law_end_of_the_headers(s);
    let f = head_fields(s);
    let g = connect(s).fields;
    if lines_fields(s, w.lines, f, g, accepts(connect(s).status)) {
        assert(g.len() >= 4 && g.take(4) =~= f) by {
            reveal(lines_fields);
        }
    }
    assert(f =~= f.take(3).push(f[3]));
    assert(f.take(3) =~= f.take(2).push(f[2]));
    assert(f.take(2) =~= f.take(1).push(f[1]));
    assert(f.take(1) =~= seq![f[0]]);
}

/// What becomes of a request before or with its method is told by its first items: as many
/// bytes as the method has are wanted; a failure among them is handed on, and an end of the
/// stream among them leaves too short a method; and any other bytes than `CONNECT` are refused.
pub proof fn law_items_tell_the_method(s: Seq<Item>, k: int)
    requires
        0 <= k <= 7,
        k <= s.len(),
        forall|j: int| 0 <= j < k ==> #[trigger] s[j] is Byte,
    ensures
        ({
            let method = Seq::new(k as nat, |j: int| s[j]->Byte_0);
            let outcome = connect(s);
            if k < 7 && k == s.len() {
                outcome.status is Pending && outcome.fields.len() == 0
            } else if k < 7 {
                match s[k] {
                    Item::Byte(_) => true,
                    Item::End => {
                        &&& outcome.fields == seq![FieldView::Method(method)]
                        &&& outcome.status == (Status::Answered {
                            answer: Err(ParseError::ExpectedConnect),
                            read: k + 1,
                        })
                    },
                    Item::Failed(text) => {
                        &&& outcome.fields.len() == 0
                        &&& outcome.status == (Status::Answered {
                            answer: Err(ParseError::Stream(text)),
                            read: k + 1,
                        })
                    },
                }
            } else {
                method != seq![0x43u8, 0x4fu8, 0x4eu8, 0x4eu8, 0x45u8, 0x43u8, 0x54u8] ==> {
                    &&& outcome.fields == seq![FieldView::Method(method)]
                    &&& outcome.status == (Status::Answered {
                        answer: Err(ParseError::ExpectedConnect),
                        read: 7,
                    })
                }
            }
        }),
{
    reveal_strlit("CONNECT");
    assert(ascii(CONNECT@) =~= seq![0x43u8, 0x4fu8, 0x4eu8, 0x4eu8, 0x45u8, 0x43u8, 0x54u8]);
    assert(bytes(s, 0, k) =~= Seq::new(k as nat, |j: int| s[j]->Byte_0));
    if k == 7 {
        lemma_run_reaches(s, 0, 7, Class::Any);
    } else if k == s.len() || !(s[k] is Byte) {
        lemma_run_ends(s, 0, k, Class::Any);
    }
}

proof fn lemma_accepted_begins(s: Seq<Item>)
    requires
        accepts(connect(s).status),
    ensures
        begins(s),
{
    reveal_strlit("CONNECT");
    lemma_run(s, 0, Class::Any);
    assert(ascii(CONNECT@) =~= seq![0x43u8, 0x4fu8, 0x4eu8, 0x4eu8, 0x45u8, 0x43u8, 0x54u8]);
    let method = bytes(s, 0, 7);
    assert(method == ascii(CONNECT@));
    assert forall|k: int| 0 <= k < 7 implies #[trigger] s[k] == Item::Byte(method[k]) by {
        assert(Class::Any.takes_item(s[k]));
    }
}

proof fn lemma_accepted_without_failure(s: Seq<Item>, k: int)
    requires
        accepts(connect(s).status),
        connect(s).status matches Status::Answered { read, .. } && 0 <= k < read,
    ensures
        !(s[k] is Failed),
{
    law_accepted_request(s);
}

proof fn lemma_protocol_span(s: Seq<Item>)
    requires
        s.len() >= 7,
    ensures
        stops(s, walk(s).protocol, Class::NotCr),
        walk(s).port.start <= walk(s).port.end,
        7 <= walk(s).protocol.start <= walk(s).protocol.end <= walk(s).cr.start
            <= walk(s).headers,
        walk(s).lf.end < s.len() ==> walk(s).protocol.end < s.len(),
{
    let w = walk(s);
    lemma_span(s, 7, Class::Space);
    lemma_span(s, behind(s, w.spaces.end), Class::NotColon);
    lemma_span(s, behind(s, w.host.end), Class::Colon);
    lemma_span(s, behind(s, w.colons.end), Class::Digit);
    lemma_span(s, behind(s, w.port.end), Class::Space);
    lemma_span(s, behind(s, w.gap.end), Class::NotCr);
    lemma_span(s, behind(s, w.protocol.end), Class::Cr);
    lemma_span(s, behind(s, w.cr.end), Class::Lf);
}

/// The parts of an accepted request stand in its items: `CONNECT` comes first, digits behind
/// the hostname stand for the port, and `HTTP/1.1` stands before the end of the request line.
pub proof fn law_accepted_items(s: Seq<Item>)
    requires
        connect(s).status matches Status::Answered { answer, .. } && answer is Ok,
    ensures
        s.len() >= 7,
        s[0] == Item::Byte(0x43),
        s[1] == Item::Byte(0x4f),
        s[2] == Item::Byte(0x4e),
        s[3] == Item::Byte(0x4e),
        s[4] == Item::Byte(0x45),
        s[5] == Item::Byte(0x43),
        s[6] == Item::Byte(0x54),
        ({
            let w = walk(s);
            let p = w.protocol.start;
            &&& connect(s).status matches Status::Answered { answer: Ok((hostname, port)), read }
            &&& w.port.start < w.port.end
            &&& port == number(
                Seq::new(
                    (w.port.end - w.port.start) as nat,
                    |k: int| s[w.port.start + k]->Byte_0,
                ),
            )
            &&& w.protocol.end == p + 8
            &&& s[p] == Item::Byte(0x48)
            &&& s[p + 1] == Item::Byte(0x54)
            &&& s[p + 2] == Item::Byte(0x54)
            &&& s[p + 3] == Item::Byte(0x50)
            &&& s[p + 4] == Item::Byte(0x2f)
            &&& s[p + 5] == Item::Byte(0x31)
            &&& s[p + 6] == Item::Byte(0x2e)
            &&& s[p + 7] == Item::Byte(0x31)
            &&& p + 8 < read <= s.len()
            &&& read == w.last + 2
            &&& s[p + 8] == Item::Byte(0x0d) || s[p + 8] is End
        }),
{
    lemma_accepted_begins(s);
    lemma_connect_walk(s);
    law_end_of_the_headers(s);
    let w = walk(s);
    let p = w.protocol.start;
    lemma_protocol_span(s);
    lemma_up_to_return(s, w.protocol);
    let name = bytes(s, p, w.protocol.end);
    assert(name.len() == 8);
    assert(s[p] is Byte && name[0] == s[p]->Byte_0);
    assert(s[p + 1] is Byte && name[1] == s[p + 1]->Byte_0);
    assert(s[p + 2] is Byte && name[2] == s[p + 2]->Byte_0);
    assert(s[p + 3] is Byte && name[3] == s[p + 3]->Byte_0);
    assert(s[p + 4] is Byte && name[4] == s[p + 4]->Byte_0);
    assert(s[p + 5] is Byte && name[5] == s[p + 5]->Byte_0);
    assert(s[p + 6] is Byte && name[6] == s[p + 6]->Byte_0);
    assert(s[p + 7] is Byte && name[7] == s[p + 7]->Byte_0);
    lemma_accepted_without_failure(s, p + 8);
    assert(bytes(s, w.port.start, w.port.end) =~= Seq::new(
        (w.port.end - w.port.start) as nat,
        |k: int| s[w.port.start + k]->Byte_0,
    ));
}

/// A request for another protocol than `HTTP/1.1` is refused with the carriage return behind
/// it, whatever its hostname and its port are. The spaces before the hostname end at `host`,
/// the hostname at `colon`, the digits of the port at `gap` and the spaces behind them at
/// `name`.
pub proof fn law_other_protocol_is_refused(
    s: Seq<Item>,
    host: int,
    colon: int,
    gap: int,
    name: int,
    end: int,
)
    requires
        7 <= host <= colon < gap - 1,
        gap <= name <= end < s.len(),
        s[0] == Item::Byte(0x43),
        s[1] == Item::Byte(0x4f),
        s[2] == Item::Byte(0x4e),
        s[3] == Item::Byte(0x4e),
        s[4] == Item::Byte(0x45),
        s[5] == Item::Byte(0x43),
        s[6] == Item::Byte(0x54),
        forall|k: int| 7 <= k < host ==> #[trigger] s[k] == Item::Byte(0x20),
        s[host] != Item::Byte(0x20),
        forall|k: int|
            host <= k < colon ==> #[trigger] s[k] is Byte && s[k] != Item::Byte(0x3a),
        s[colon] == Item::Byte(0x3a),
        forall|k: int|
            colon < k < gap ==> (#[trigger] s[k] matches Item::Byte(b) && 0x30 <= b <= 0x39),
        number(Seq::new((gap - colon - 1) as nat, |k: int| s[colon + 1 + k]->Byte_0)) <= i32::MAX,
        forall|k: int| gap <= k < name ==> #[trigger] s[k] == Item::Byte(0x20),
        s[name] is Byte && s[name] != Item::Byte(0x20),
        !(s[gap] matches Item::Byte(b) && 0x30 <= b <= 0x39),
        forall|k: int| name <= k < end ==> #[trigger] s[k] is Byte && s[k] != Item::Byte(0x0d),
        s[end] == Item::Byte(0x0d),
        Seq::new((end - name) as nat, |k: int| s[name + k]->Byte_0) != seq![
            0x48u8,
            0x54u8,
            0x54u8,
            0x50u8,
            0x2fu8,
            0x31u8,
            0x2eu8,
            0x31u8,
        ],
    ensures
        connect(s).status == (Status::Answered {
            answer: Err(ParseError::ExpectedProtocol),
            read: end + 1,
        }),
{
    assert(s[host] is Byte);
    lemma_run_ends(s, 7, host, Class::Space);
    lemma_run_ends(s, host, colon, Class::NotColon);
    assert(s[colon + 1] is Byte && s[colon + 1] != Item::Byte(0x3a));
    lemma_run_ends(s, colon, colon + 1, Class::Colon);
    lemma_run_ends(s, colon + 1, gap, Class::Digit);
    assert(s[gap] is Byte);
    lemma_run_ends(s, gap, name, Class::Space);
    lemma_run_ends(s, name, end, Class::NotCr);
    let w = walk(s);
    assert(w.host == (Span { start: host, end: colon }));
    assert(w.port == (Span { start: colon + 1, end: gap }));
    assert(w.protocol == (Span { start: name, end }));
    assert(Seq::new((gap - colon - 1) as nat, |k: int| s[colon + 1 + k]->Byte_0) =~= bytes(
        s,
        colon + 1,
        gap,
    ));
    assert(Seq::new((end - name) as nat, |k: int| s[name + k]->Byte_0) =~= bytes(s, name, end));
    lemma_connect_walk(s);
}

/// The headers that are reported are the keys and the values that stand in the items.
pub proof fn law_items_tell_the_headers(s: Seq<Item>)
    requires
        s.len() >= 7,
        s[0] == Item::Byte(0x43),
        s[1] == Item::Byte(0x4f),
        s[2] == Item::Byte(0x4e),
        s[3] == Item::Byte(0x4e),
        s[4] == Item::Byte(0x45),
        s[5] == Item::Byte(0x43),
        s[6] == Item::Byte(0x54),
        connect(s).fields.len() >= 4,
        walk(s).lf.end < s.len(),
        !(connect(s).status matches Status::Answered { answer, .. } && answer
            == Err::<(Seq<char>, i32), ParseError>(ParseError::ExpectedProtocol)),
    ensures
        forall|j: int|
            0 <= j < walk(s).lines.len() ==> {
                let l = #[trigger] walk(s).lines[j];
                &&& l.key.end < s.len() ==> connect(s).fields[4 + 2 * j] == FieldView::Key(
                    Seq::new((l.key.end - l.key.start) as nat, |k: int| s[l.key.start + k]->Byte_0),
                )
                &&& l.value.end < s.len() ==> connect(s).fields[5 + 2 * j] == FieldView::Value(
                    Seq::new(
                        (l.value.end - l.value.start) as nat,
                        |k: int| s[l.value.start + k]->Byte_0,
                    ),
                )
            },
        ({
            let lines = walk(s).lines;
            let accepted = connect(s).status matches Status::Answered { answer, .. } && answer
                is Ok;
            &&& connect(s).fields.len() == 4 + 2 * lines.len() - (if lines.len() == 0
                || lines.last().value.end < s.len() {
                0int
            } else if lines.last().key.end < s.len() {
                1
            } else {
                2
            }) + (if accepted {
                1int
            } else {
                0
            })
            &&& accepted ==> connect(s).fields.last() == FieldView::End
        }),
{
    lemma_connect_walk(s);
    reveal(lines_fields);
    let w = walk(s);
    assert forall|j: int| 0 <= j < w.lines.len() implies {
        let l = #[trigger] w.lines[j];
        &&& bytes(s, l.key.start, l.key.end) == Seq::new(
            (l.key.end - l.key.start) as nat,
            |k: int| s[l.key.start + k]->Byte_0,
        )
        &&& bytes(s, l.value.start, l.value.end) == Seq::new(
            (l.value.end - l.value.start) as nat,
            |k: int| s[l.value.start + k]->Byte_0,
        )
    } by {
        let l = w.lines[j];
        assert(bytes(s, l.key.start, l.key.end) =~= Seq::new(
            (l.key.end - l.key.start) as nat,
            |k: int| s[l.key.start + k]->Byte_0,
        ));
        assert(bytes(s, l.value.start, l.value.end) =~= Seq::new(
            (l.value.end - l.value.start) as nat,
            |k: int| s[l.value.start + k]->Byte_0,
        ));
    }
}

} // verus!
