//! What holds of every stream that a request is read from.

pub mod outcomes;

use vstd::prelude::*;
use vstd::utf8::valid_utf8;

use crate::grammar::{
    after, bytes, connect, extends, headers, key, leading_spaces, lemma_header_advances, lemma_run,
    lemma_run_ends, lemma_run_reaches, line_cr, number, port_number, protocol, run, Class,
    FieldView, Outcome, Status, COLON, CONNECT, CR, LF, PROTOCOL, SPACE,
};
use crate::stream::Item;
use crate::text::{ascii, lemma_ascii_in_text, text_of};

verus! {

/// Whether `s` and `u` have the first `r` items in common.
spec fn agree(s: Seq<Item>, u: Seq<Item>, r: int) -> bool {
    &&& 0 <= r <= s.len()
    &&& r <= u.len()
    &&& forall|k: int| 0 <= k < r ==> #[trigger] s[k] == u[k]
}

/// The number of items that are read of a request before it comes to nothing more.
pub open spec fn items_read(status: Status) -> int
    recommends
        !(status is Pending),
{
    match status {
        Status::Pending => 0,
        Status::Stalled { read } => read,
        Status::Answered { answer, read } => read,
    }
}

/// A request that comes to nothing more has read an item from `i` on, and none behind `s`.
spec fn reads_within(s: Seq<Item>, i: int, outcome: Outcome) -> bool {
    !(outcome.status is Pending) ==> i < items_read(outcome.status) <= s.len()
}

proof fn lemma_line_cr_bounds(s: Seq<Item>, i: int, f: Seq<FieldView>)
    requires
        0 <= i <= s.len(),
    ensures
        line_cr(s, i, f).next matches Some(n) ==> i <= n <= s.len(),
{
    lemma_run(s, i, Class::Cr);
    let j = run(s, i, Class::Cr);
    if j < s.len() {
        lemma_run(s, after(s, j), Class::Lf);
    }
}

proof fn lemma_headers_bounds(s: Seq<Item>, i: int, h: Seq<u8>, p: i32, f: Seq<FieldView>)
    requires
        0 <= i <= s.len(),
    ensures
        reads_within(s, i, headers(s, i, h, p, f)),
    decreases s.len() - i,
{
    if i < s.len() && s[i] != Item::Byte(CR) && !(s[i] is Failed) {
        lemma_header_advances(s, i, f);
        let line = key(s, i, f);
        if let Some(n) = line.next {
            lemma_headers_bounds(s, n, h, p, line.fields);
        }
    }
}

proof fn lemma_protocol_bounds(s: Seq<Item>, i: int, h: Seq<u8>, p: i32, f: Seq<FieldView>)
    requires
        0 <= i <= s.len(),
    ensures
        reads_within(s, i, protocol(s, i, h, p, f)),
{
    lemma_run(s, i, Class::NotCr);
    let j = run(s, i, Class::NotCr);
    if j < s.len() {
        let more = f.push(FieldView::Protocol(bytes(s, i, j)));
        lemma_line_cr_bounds(s, after(s, j), more);
        let line = line_cr(s, after(s, j), more);
        if let Some(n) = line.next {
            lemma_headers_bounds(s, n, h, p, line.fields);
        }
    }
}

proof fn lemma_port_number_bounds(s: Seq<Item>, i: int, h: Seq<u8>, f: Seq<FieldView>)
    requires
        0 <= i <= s.len(),
    ensures
        reads_within(s, i, port_number(s, i, h, f)),
{
    lemma_run(s, i, Class::Digit);
    let j = run(s, i, Class::Digit);
    if j < s.len() {
        let a = after(s, j);
        lemma_run(s, a, Class::Space);
        let k = run(s, a, Class::Space);
        let p = number(bytes(s, i, j)) as i32;
        if k < s.len() {
            lemma_protocol_bounds(s, after(s, k), h, p, f.push(FieldView::Port(p)));
        }
    }
}

proof fn lemma_leading_spaces_bounds(s: Seq<Item>, i: int, f: Seq<FieldView>)
    requires
        0 <= i <= s.len(),
    ensures
        reads_within(s, i, leading_spaces(s, i, f)),
{
    lemma_run(s, i, Class::Space);
    let j = run(s, i, Class::Space);
    if j < s.len() {
        let a = after(s, j);
        lemma_run(s, a, Class::NotColon);
        let k = run(s, a, Class::NotColon);
        if k < s.len() {
            let b = after(s, k);
            let h = bytes(s, a, k);
            lemma_run(s, b, Class::Colon);
            let l = run(s, b, Class::Colon);
            if l < s.len() {
                lemma_port_number_bounds(s, after(s, l), h, f.push(FieldView::Hostname(h)));
            }
        }
    }
}

proof fn lemma_connect_bounds(s: Seq<Item>)
    ensures
        reads_within(s, 0, connect(s)),
{
    reveal_strlit("CONNECT");
    lemma_run(s, 0, Class::Any);
    let size = CONNECT@.len() as int;
    if run(s, 0, Class::Any) >= size {
        let fields = seq![FieldView::Method(bytes(s, 0, size))];
        lemma_leading_spaces_bounds(s, size, fields);
    }
}

/// A run that ends among common items is a common run.
proof fn lemma_run_agrees(s: Seq<Item>, u: Seq<Item>, r: int, i: int, c: Class)
    requires
        agree(s, u, r),
        0 <= i <= s.len(),
        run(s, i, c) < r,
    ensures
        i <= run(s, i, c),
        run(u, i, c) == run(s, i, c),
        bytes(u, i, run(s, i, c)) == bytes(s, i, run(s, i, c)),
        after(u, run(s, i, c)) == after(s, run(s, i, c)),
        u[run(s, i, c)] == s[run(s, i, c)],
{
    lemma_run(s, i, c);
    let j = run(s, i, c);
    assert forall|k: int| i <= k < j implies c.takes_item(#[trigger] u[k]) by {
        assert(c.takes_item(s[k]));
    }
    assert(s[j] == u[j]);
    lemma_run_ends(u, i, j, c);
    assert(bytes(u, i, j) =~= bytes(s, i, j));
}

proof fn lemma_line_cr_agrees(s: Seq<Item>, u: Seq<Item>, r: int, i: int, f: Seq<FieldView>)
    requires
        agree(s, u, r),
        0 <= i <= s.len(),
        line_cr(s, i, f).next matches Some(n) && (n < r || r == s.len()),
    ensures
        line_cr(u, i, f) == line_cr(s, i, f),
{
    lemma_run(s, i, Class::Cr);
    let j = run(s, i, Class::Cr);
    lemma_run(s, after(s, j), Class::Lf);
    lemma_run_agrees(s, u, r, after(s, j), Class::Lf);
    lemma_run_agrees(s, u, r, i, Class::Cr);
}

proof fn lemma_key_agrees(s: Seq<Item>, u: Seq<Item>, r: int, i: int, f: Seq<FieldView>)
    requires
        agree(s, u, r),
        0 <= i <= s.len(),
        key(s, i, f).next matches Some(n) && (n < r || r == s.len()),
    ensures
        key(u, i, f) == key(s, i, f),
{
    lemma_run(s, i, Class::NotColon);
    let j = run(s, i, Class::NotColon);
    let f1 = f.push(FieldView::Key(bytes(s, i, j)));
    let a = after(s, j);
    lemma_run(s, a, Class::Colon);
    let k = run(s, a, Class::Colon);
    let b = after(s, k);
    lemma_run(s, b, Class::Space);
    let l = run(s, b, Class::Space);
    let c = after(s, l);
    lemma_run(s, c, Class::NotCr);
    let m = run(s, c, Class::NotCr);
    let f2 = f1.push(FieldView::Value(bytes(s, c, m)));
    lemma_line_cr_bounds(s, after(s, m), f2);
    lemma_line_cr_agrees(s, u, r, after(s, m), f2);
    lemma_run_agrees(s, u, r, c, Class::NotCr);
    lemma_run_agrees(s, u, r, b, Class::Space);
    lemma_run_agrees(s, u, r, a, Class::Colon);
    lemma_run_agrees(s, u, r, i, Class::NotColon);
}

proof fn lemma_headers_agree(
    s: Seq<Item>,
    u: Seq<Item>,
    r: int,
    i: int,
    h: Seq<u8>,
    p: i32,
    f: Seq<FieldView>,
)
    requires
        agree(s, u, r),
        0 <= i <= s.len(),
        !(headers(s, i, h, p, f).status is Pending),
        items_read(headers(s, i, h, p, f).status) <= r,
    ensures
        headers(u, i, h, p, f) == headers(s, i, h, p, f),
    decreases s.len() - i,
{
    lemma_headers_bounds(s, i, h, p, f);
    assert(s[i] == u[i]);
    if s[i] == Item::Byte(CR) {
        assert(s[i + 1] == u[i + 1]);
    } else if !(s[i] is Failed) {
        lemma_header_advances(s, i, f);
        let line = key(s, i, f);
        let n = line.next->0;
        lemma_headers_bounds(s, n, h, p, line.fields);
        lemma_key_agrees(s, u, r, i, f);
        lemma_headers_agree(s, u, r, n, h, p, line.fields);
    }
}

proof fn lemma_protocol_agrees(
    s: Seq<Item>,
    u: Seq<Item>,
    r: int,
    i: int,
    h: Seq<u8>,
    p: i32,
    f: Seq<FieldView>,
)
    requires
        agree(s, u, r),
        0 <= i <= s.len(),
        !(protocol(s, i, h, p, f).status is Pending),
        items_read(protocol(s, i, h, p, f).status) <= r,
    ensures
        protocol(u, i, h, p, f) == protocol(s, i, h, p, f),
{
    lemma_run(s, i, Class::NotCr);
    let j = run(s, i, Class::NotCr);
    let name = bytes(s, i, j);
    let more = f.push(FieldView::Protocol(name));
    if name == ascii(PROTOCOL@) {
        lemma_line_cr_bounds(s, after(s, j), more);
        let line = line_cr(s, after(s, j), more);
        let n = line.next->0;
        lemma_headers_bounds(s, n, h, p, line.fields);
        lemma_line_cr_agrees(s, u, r, after(s, j), more);
        lemma_headers_agree(s, u, r, n, h, p, line.fields);
    }
    lemma_run_agrees(s, u, r, i, Class::NotCr);
}

proof fn lemma_port_number_agrees(
    s: Seq<Item>,
    u: Seq<Item>,
    r: int,
    i: int,
    h: Seq<u8>,
    f: Seq<FieldView>,
)
    requires
        agree(s, u, r),
        0 <= i <= s.len(),
        !(port_number(s, i, h, f).status is Pending),
        items_read(port_number(s, i, h, f).status) <= r,
    ensures
        port_number(u, i, h, f) == port_number(s, i, h, f),
{
    lemma_run(s, i, Class::Digit);
    let j = run(s, i, Class::Digit);
    if j != i && number(bytes(s, i, j)) <= i32::MAX {
        let p = number(bytes(s, i, j)) as i32;
        let more = f.push(FieldView::Port(p));
        let a = after(s, j);
        lemma_run(s, a, Class::Space);
        let k = run(s, a, Class::Space);
        lemma_protocol_bounds(s, after(s, k), h, p, more);
        lemma_protocol_agrees(s, u, r, after(s, k), h, p, more);
        lemma_run_agrees(s, u, r, a, Class::Space);
    }
    lemma_run_agrees(s, u, r, i, Class::Digit);
}

proof fn lemma_leading_spaces_agree(
    s: Seq<Item>,
    u: Seq<Item>,
    r: int,
    i: int,
    f: Seq<FieldView>,
)
    requires
        agree(s, u, r),
        0 <= i <= s.len(),
        !(leading_spaces(s, i, f).status is Pending),
        items_read(leading_spaces(s, i, f).status) <= r,
    ensures
        leading_spaces(u, i, f) == leading_spaces(s, i, f),
{
    lemma_run(s, i, Class::Space);
    let j = run(s, i, Class::Space);
    let a = after(s, j);
    lemma_run(s, a, Class::NotColon);
    let k = run(s, a, Class::NotColon);
    let b = after(s, k);
    let h = bytes(s, a, k);
    let more = f.push(FieldView::Hostname(h));
    lemma_run(s, b, Class::Colon);
    let l = run(s, b, Class::Colon);
    lemma_port_number_bounds(s, after(s, l), h, more);
    lemma_port_number_agrees(s, u, r, after(s, l), h, more);
    lemma_run_agrees(s, u, r, b, Class::Colon);
    lemma_run_agrees(s, u, r, a, Class::NotColon);
    lemma_run_agrees(s, u, r, i, Class::Space);
}

/// What becomes of a request rests on the items alone that are read of it.
proof fn lemma_connect_agrees(s: Seq<Item>, u: Seq<Item>, r: int)
    requires
        agree(s, u, r),
        !(connect(s).status is Pending),
        items_read(connect(s).status) <= r,
    ensures
        connect(u) == connect(s),
{
    reveal_strlit("CONNECT");
    lemma_run(s, 0, Class::Any);
    let size = CONNECT@.len() as int;
    let j = run(s, 0, Class::Any);
    if j >= size {
        let method = bytes(s, 0, size);
        let fields = seq![FieldView::Method(method)];
        lemma_leading_spaces_bounds(s, size, fields);
        assert forall|k: int| 0 <= k < size implies Class::Any.takes_item(#[trigger] u[k]) by {
            assert(Class::Any.takes_item(s[k]));
        }
        lemma_run_reaches(u, 0, size, Class::Any);
        assert(bytes(u, 0, size) =~= method);
        if method == ascii(CONNECT@) {
            lemma_leading_spaces_agree(s, u, r, size, fields);
        }
    } else {
        lemma_run_agrees(s, u, r, 0, Class::Any);
    }
}

/// What has become of a request stays so, whatever more the stream may hold: behind an answer,
/// and behind a stall, nothing is read that could change it.
pub proof fn law_outcome_is_final(s: Seq<Item>, t: Seq<Item>)
    requires
        extends(t, s),
        !(connect(s).status is Pending),
    ensures
        connect(t) == connect(s),
{
    lemma_connect_bounds(s);
    lemma_connect_agrees(s, t, s.len() as int);
}

/// A request is read exactly as far as its outcome takes: with fewer items there is none yet,
/// and with those items alone it is the same.
pub proof fn law_reads_no_further(s: Seq<Item>)
    requires
        !(connect(s).status is Pending),
    ensures
        0 < items_read(connect(s).status) <= s.len(),
        connect(s.take(items_read(connect(s).status))) == connect(s),
        forall|k: int|
            0 <= k < items_read(connect(s).status) ==> (#[trigger] connect(s.take(k))).status
                is Pending,
{
    lemma_connect_bounds(s);
    let r = items_read(connect(s).status);
    lemma_connect_agrees(s, s.take(r), r);
    assert forall|k: int| 0 <= k < r implies (#[trigger] connect(s.take(k))).status is Pending by {
        if !(connect(s.take(k)).status is Pending) {
            lemma_connect_bounds(s.take(k));
            law_outcome_is_final(s.take(k), s);
        }
    }
}

/// What holds of a request of which the parts `f` were read before the headers, where it comes
/// to a hostname and a port: they are `h` and `p`, an empty line was read last, and the parts
/// before are still the first ones.
spec fn ends_well(
    s: Seq<Item>,
    h: Seq<u8>,
    p: i32,
    f: Seq<FieldView>,
    outcome: Outcome,
) -> bool {
    outcome.status matches Status::Answered { answer: Ok(found), read } ==> {
        &&& found == (text_of(h), p)
        &&& 2 <= read <= s.len()
        &&& s[read - 2] == Item::Byte(CR)
        &&& s[read - 1] == Item::Byte(LF)
        &&& f.len() < outcome.fields.len()
        &&& forall|k: int| 0 <= k < f.len() ==> #[trigger] outcome.fields[k] == f[k]
        &&& outcome.fields.last() == FieldView::End
    }
}

proof fn lemma_line_cr_keeps(s: Seq<Item>, i: int, f: Seq<FieldView>)
    ensures
        line_cr(s, i, f).fields == f,
{
}

proof fn lemma_key_keeps(s: Seq<Item>, i: int, f: Seq<FieldView>)
    ensures
        f.len() <= key(s, i, f).fields.len(),
        forall|k: int| 0 <= k < f.len() ==> #[trigger] key(s, i, f).fields[k] == f[k],
{
}

proof fn lemma_headers_end_well(s: Seq<Item>, i: int, h: Seq<u8>, p: i32, f: Seq<FieldView>)
    requires
        0 <= i <= s.len(),
    ensures
        ends_well(s, h, p, f, headers(s, i, h, p, f)),
    decreases s.len() - i,
{
    if i < s.len() && s[i] != Item::Byte(CR) && !(s[i] is Failed) {
        lemma_header_advances(s, i, f);
        lemma_key_keeps(s, i, f);
        let line = key(s, i, f);
        if let Some(n) = line.next {
            lemma_headers_end_well(s, n, h, p, line.fields);
            let outcome = headers(s, n, h, p, line.fields);
            assert forall|k: int|
                0 <= k < f.len() && outcome.status matches Status::Answered {
                    answer: Ok(found),
                    read,
                } implies #[trigger] outcome.fields[k] == f[k] by {
                assert(outcome.fields[k] == line.fields[k]);
            }
        }
    }
}

/// Whether none of the first `r` items is the end of the stream.
spec fn endless(s: Seq<Item>, r: int) -> bool {
    r <= s.len() && forall|k: int| 0 <= k < r ==> !(#[trigger] s[k] is End)
}

/// A line that begins with a carriage return comes behind a line feed.
proof fn lemma_line_cr_then_cr(s: Seq<Item>, i: int, f: Seq<FieldView>, r: int)
    requires
        endless(s, r),
        0 <= i <= s.len(),
        line_cr(s, i, f).next matches Some(n) && n < r && s[n] == Item::Byte(CR),
    ensures
        line_cr(s, i, f).next matches Some(n) && 0 < n && s[n - 1] == Item::Byte(LF),
{
    lemma_run(s, i, Class::Cr);
    let j = run(s, i, Class::Cr);
    lemma_run(s, after(s, j), Class::Lf);
    let k = run(s, after(s, j), Class::Lf);
    assert(!(s[j] is End));
    assert(!(s[k] is End));
    assert(j < k);
    assert(Class::Lf.takes_item(s[k - 1]));
}

/// A header before a line that begins with a carriage return ends in a line feed.
proof fn lemma_key_then_cr(s: Seq<Item>, i: int, f: Seq<FieldView>, r: int)
    requires
        endless(s, r),
        0 <= i <= s.len(),
        key(s, i, f).next matches Some(n) && n < r && s[n] == Item::Byte(CR),
    ensures
        key(s, i, f).next matches Some(n) && 0 < n && s[n - 1] == Item::Byte(LF),
{
    lemma_run(s, i, Class::NotColon);
    let j = run(s, i, Class::NotColon);
    let a = after(s, j);
    lemma_run(s, a, Class::Colon);
    let b = after(s, run(s, a, Class::Colon));
    lemma_run(s, b, Class::Space);
    let c = after(s, run(s, b, Class::Space));
    lemma_run(s, c, Class::NotCr);
    let m = run(s, c, Class::NotCr);
    let more = f.push(FieldView::Key(bytes(s, i, j))).push(FieldView::Value(bytes(s, c, m)));
    lemma_line_cr_then_cr(s, after(s, m), more, r);
}

/// The empty line comes behind a line feed.
proof fn lemma_empty_line_behind_lf(
    s: Seq<Item>,
    i: int,
    h: Seq<u8>,
    p: i32,
    f: Seq<FieldView>,
    r: int,
)
    requires
        endless(s, r),
        0 < i <= s.len(),
        i < s.len() && s[i] == Item::Byte(CR) ==> s[i - 1] == Item::Byte(LF),
        headers(s, i, h, p, f).status matches Status::Answered { answer, read } && answer is Ok
            && read <= r,
    ensures
        headers(s, i, h, p, f).status matches Status::Answered { answer, read } && 3 <= read && s[read
            - 3] == Item::Byte(LF),
    decreases s.len() - i,
{
    if s[i] != Item::Byte(CR) {
        lemma_header_advances(s, i, f);
        let line = key(s, i, f);
        let n = line.next->0;
        lemma_headers_bounds(s, n, h, p, line.fields);
        if s[n] == Item::Byte(CR) {
            lemma_key_then_cr(s, i, f, r);
        }
        lemma_empty_line_behind_lf(s, n, h, p, line.fields, r);
    }
}

/// On items that end in a failure, a run ends among them, and what follows it begins there.
proof fn lemma_run_before_failure(s: Seq<Item>, i: int, c: Class)
    requires
        0 <= i < s.len(),
        s.last() is Failed,
    ensures
        i <= run(s, i, c) <= after(s, run(s, i, c)) < s.len(),
{
    lemma_run(s, i, c);
    if run(s, i, c) == s.len() {
        assert(c.takes_item(s[s.len() - 1]));
    }
}

proof fn lemma_line_cr_before_failure(s: Seq<Item>, i: int, f: Seq<FieldView>)
    requires
        0 <= i < s.len(),
        s.last() is Failed,
    ensures
        line_cr(s, i, f).next matches Some(n) && i <= n < s.len(),
{
    lemma_run_before_failure(s, i, Class::Cr);
    lemma_run_before_failure(s, after(s, run(s, i, Class::Cr)), Class::Lf);
}

proof fn lemma_headers_before_failure(s: Seq<Item>, i: int, h: Seq<u8>, p: i32, f: Seq<FieldView>)
    requires
        0 <= i < s.len(),
        s.last() is Failed,
    ensures
        !(headers(s, i, h, p, f).status is Pending),
    decreases s.len() - i,
{
    if s[i] != Item::Byte(CR) && !(s[i] is Failed) {
        lemma_run_before_failure(s, i, Class::NotColon);
        let j = run(s, i, Class::NotColon);
        let a = after(s, j);
        lemma_run_before_failure(s, a, Class::Colon);
        let b = after(s, run(s, a, Class::Colon));
        lemma_run_before_failure(s, b, Class::Space);
        let c = after(s, run(s, b, Class::Space));
        lemma_run_before_failure(s, c, Class::NotCr);
        let m = run(s, c, Class::NotCr);
        let more = f.push(FieldView::Key(bytes(s, i, j))).push(FieldView::Value(bytes(s, c, m)));
        lemma_line_cr_before_failure(s, after(s, m), more);
        lemma_header_advances(s, i, f);
        let line = key(s, i, f);
        assert(line == line_cr(s, after(s, m), more));
        lemma_headers_before_failure(s, line.next->0, h, p, line.fields);
    }
}

/// A request that has come to a failure of the stream wants no further item: it is answered,
/// or it stalls.
pub proof fn law_failure_ends_the_reading(s: Seq<Item>)
    requires
        s.len() > 0,
        s.last() is Failed,
    ensures
        !(connect(s).status is Pending),
{
    reveal_strlit("CONNECT");
    lemma_run_before_failure(s, 0, Class::Any);
    let a = CONNECT@.len() as int;
    if run(s, 0, Class::Any) >= a {
        let f0 = seq![FieldView::Method(bytes(s, 0, a))];
        lemma_run_before_failure(s, a, Class::Space);
        let b = after(s, run(s, a, Class::Space));
        lemma_run_before_failure(s, b, Class::NotColon);
        let j = run(s, b, Class::NotColon);
        let host = bytes(s, b, j);
        let f1 = f0.push(FieldView::Hostname(host));
        lemma_run_before_failure(s, after(s, j), Class::Colon);
        let c = after(s, run(s, after(s, j), Class::Colon));
        lemma_run_before_failure(s, c, Class::Digit);
        let k = run(s, c, Class::Digit);
        let port = number(bytes(s, c, k)) as i32;
        let f2 = f1.push(FieldView::Port(port));
        lemma_run_before_failure(s, after(s, k), Class::Space);
        let d = after(s, run(s, after(s, k), Class::Space));
        lemma_run_before_failure(s, d, Class::NotCr);
        let l = run(s, d, Class::NotCr);
        let f3 = f2.push(FieldView::Protocol(bytes(s, d, l)));
        lemma_line_cr_before_failure(s, after(s, l), f3);
        lemma_line_cr_keeps(s, after(s, l), f3);
        let n = line_cr(s, after(s, l), f3).next->0;
        lemma_headers_before_failure(s, n, host, port, f3);
    }
}

/// Whether a stream that has ended stays so: nothing but ends follows an end.
pub open spec fn ends_for_good(s: Seq<Item>) -> bool {
    forall|i: int, j: int|
        0 <= i < j < s.len() && (#[trigger] s[i]) is End ==> (#[trigger] s[j]) is End
}

/// A request is answered with a hostname and a port only where it began with the method, the
/// hostname, the port and the protocol, and an empty line was the last that was read of it:
/// the stream is left at the first item behind that line, and it has not failed up to there.
/// The bytes of the hostname hold no colon, nor does the hostname where they are UTF-8. On a
/// stream that stays ended once it has, neither begins with a space, and the empty line
/// follows a line feed.
pub proof fn law_accepted_request(s: Seq<Item>)
    requires
        connect(s).status matches Status::Answered { answer, read } && answer is Ok,
    ensures
        connect(s).status matches Status::Answered { answer: Ok((host, port)), read } && {
            &&& 2 <= read <= s.len()
            &&& s[read - 2] == Item::Byte(CR)
            &&& s[read - 1] == Item::Byte(LF)
            &&& forall|k: int| 0 <= k < read ==> !(#[trigger] s[k] is Failed)
            &&& connect(s).fields.len() > 4
            &&& connect(s).fields[0] == FieldView::Method(ascii(CONNECT@))
            &&& connect(s).fields[1] matches FieldView::Hostname(name) && {
                &&& host == text_of(name)
                &&& forall|k: int| 0 <= k < name.len() ==> #[trigger] name[k] != COLON
                &&& valid_utf8(name) ==> !host.contains(':')
                &&& ends_for_good(s) && name.len() > 0 ==> name[0] != SPACE
                &&& ends_for_good(s) && valid_utf8(name) && host.len() > 0 ==> host[0] != ' '
            }
            &&& connect(s).fields[2] == FieldView::Port(port)
            &&& 0 <= port
            &&& connect(s).fields[3] == FieldView::Protocol(ascii(PROTOCOL@))
            &&& connect(s).fields.last() == FieldView::End
            &&& ends_for_good(s) ==> 3 <= read && s[read - 3] == Item::Byte(LF)
        },
{
    reveal_strlit("CONNECT");
    lemma_run(s, 0, Class::Any);
    let a = CONNECT@.len() as int;
    let f0 = seq![FieldView::Method(ascii(CONNECT@))];
    lemma_run(s, a, Class::Space);
    let e = run(s, a, Class::Space);
    let b = after(s, e);
    lemma_run(s, b, Class::NotColon);
    let j = run(s, b, Class::NotColon);
    let host = bytes(s, b, j);
    let f1 = f0.push(FieldView::Hostname(host));
    lemma_run(s, after(s, j), Class::Colon);
    let c = after(s, run(s, after(s, j), Class::Colon));
    lemma_run(s, c, Class::Digit);
    let k = run(s, c, Class::Digit);
    let port = number(bytes(s, c, k)) as i32;
    let f2 = f1.push(FieldView::Port(port));
    lemma_run(s, after(s, k), Class::Space);
    let d = after(s, run(s, after(s, k), Class::Space));
    lemma_run(s, d, Class::NotCr);
    let l = run(s, d, Class::NotCr);
    let f3 = f2.push(FieldView::Protocol(bytes(s, d, l)));
    lemma_line_cr_bounds(s, after(s, l), f3);
    lemma_line_cr_keeps(s, after(s, l), f3);
    let n = line_cr(s, after(s, l), f3).next->0;
    lemma_headers_end_well(s, n, host, port, f3);
    lemma_headers_bounds(s, n, host, port, f3);
    assert(connect(s) == headers(s, n, host, port, f3));
    assert(connect(s).fields[0] == f3[0]);
    assert(connect(s).fields[1] == f3[1]);
    assert(connect(s).fields[2] == f3[2]);
    assert(connect(s).fields[3] == f3[3]);
    assert forall|x: int| 0 <= x < host.len() implies #[trigger] host[x] != COLON by {
        assert(Class::NotColon.takes_item(s[b + x]));
    }
    if valid_utf8(host) {
        lemma_ascii_in_text(host, ':');
        lemma_ascii_in_text(host, ' ');
    }
    let read = items_read(connect(s).status);
    law_reads_no_further(s);
    assert forall|x: int| 0 <= x < read implies !(#[trigger] s[x] is Failed) by {
        let t = s.take(x + 1);
        if s[x] is Failed {
            assert(t.last() == s[x]);
            law_failure_ends_the_reading(t);
            assert(x + 1 == read);
        }
    }
    if ends_for_good(s) {
        assert forall|x: int| 0 <= x < read implies !(#[trigger] s[x] is End) by {
            if x < read - 1 && s[x] is End {
                assert(s[read - 1] is End);
            }
        }
        assert(endless(s, read));
        assert(!(s[e] is End));
        if host.len() > 0 {
            assert(Class::NotColon.takes_item(s[b]));
            assert(host[0] == s[b]->Byte_0);
        }
        if s[n] == Item::Byte(CR) {
            lemma_line_cr_then_cr(s, after(s, l), f3, read);
        }
        lemma_empty_line_behind_lf(s, n, host, port, f3, read);
    }
}

/// Whether the list `g` of parts begins with `f`.
pub open spec fn grows(f: Seq<FieldView>, g: Seq<FieldView>) -> bool {
    f.len() <= g.len() && forall|k: int| 0 <= k < f.len() ==> #[trigger] g[k] == f[k]
}

proof fn lemma_grows_transitive(f: Seq<FieldView>, g: Seq<FieldView>, h: Seq<FieldView>)
    requires
        grows(f, g),
        grows(g, h),
    ensures
        grows(f, h),
{
    assert forall|k: int| 0 <= k < f.len() implies #[trigger] h[k] == f[k] by {
        assert(h[k] == g[k]);
    }
}

proof fn lemma_headers_keep(s: Seq<Item>, i: int, h: Seq<u8>, p: i32, f: Seq<FieldView>)
    requires
        0 <= i <= s.len(),
    ensures
        grows(f, headers(s, i, h, p, f).fields),
    decreases s.len() - i,
{
    if i < s.len() && s[i] != Item::Byte(CR) && !(s[i] is Failed) {
        lemma_header_advances(s, i, f);
        lemma_key_keeps(s, i, f);
        let line = key(s, i, f);
        if let Some(n) = line.next {
            lemma_headers_keep(s, n, h, p, line.fields);
            lemma_grows_transitive(f, line.fields, headers(s, n, h, p, line.fields).fields);
        }
    }
}

proof fn lemma_protocol_keeps(s: Seq<Item>, i: int, h: Seq<u8>, p: i32, f: Seq<FieldView>)
    requires
        0 <= i <= s.len(),
    ensures
        grows(f, protocol(s, i, h, p, f).fields),
{
    lemma_run(s, i, Class::NotCr);
    let j = run(s, i, Class::NotCr);
    if j < s.len() {
        let more = f.push(FieldView::Protocol(bytes(s, i, j)));
        lemma_line_cr_bounds(s, after(s, j), more);
        let line = line_cr(s, after(s, j), more);
        if let Some(n) = line.next {
            lemma_headers_keep(s, n, h, p, more);
            lemma_grows_transitive(f, more, headers(s, n, h, p, more).fields);
        }
    }
}

proof fn lemma_port_number_keeps(s: Seq<Item>, i: int, h: Seq<u8>, f: Seq<FieldView>)
    requires
        0 <= i <= s.len(),
    ensures
        grows(f, port_number(s, i, h, f).fields),
{
    lemma_run(s, i, Class::Digit);
    let j = run(s, i, Class::Digit);
    if j < s.len() {
        let a = after(s, j);
        lemma_run(s, a, Class::Space);
        let k = run(s, a, Class::Space);
        let p = number(bytes(s, i, j)) as i32;
        let more = f.push(FieldView::Port(p));
        if k < s.len() {
            lemma_protocol_keeps(s, after(s, k), h, p, more);
            lemma_grows_transitive(f, more, protocol(s, after(s, k), h, p, more).fields);
        }
    }
}

proof fn lemma_leading_spaces_keep(s: Seq<Item>, i: int, f: Seq<FieldView>)
    requires
        0 <= i <= s.len(),
    ensures
        grows(f, leading_spaces(s, i, f).fields),
{
    lemma_run(s, i, Class::Space);
    let j = run(s, i, Class::Space);
    if j < s.len() {
        let a = after(s, j);
        lemma_run(s, a, Class::NotColon);
        let k = run(s, a, Class::NotColon);
        if k < s.len() {
            let b = after(s, k);
            let h = bytes(s, a, k);
            let more = f.push(FieldView::Hostname(h));
            lemma_run(s, b, Class::Colon);
            let l = run(s, b, Class::Colon);
            if l < s.len() {
                lemma_port_number_keeps(s, after(s, l), h, more);
                lemma_grows_transitive(f, more, port_number(s, after(s, l), h, more).fields);
            }
        }
    }
}

proof fn lemma_key_grows(s: Seq<Item>, t: Seq<Item>, i: int, f: Seq<FieldView>)
    requires
        agree(s, t, s.len() as int),
        0 <= i <= s.len(),
        key(s, i, f).next is None,
    ensures
        grows(key(s, i, f).fields, key(t, i, f).fields),
{
    let r = s.len() as int;
    lemma_run(s, i, Class::NotColon);
    let j = run(s, i, Class::NotColon);
    if j < r {
        lemma_run_agrees(s, t, r, i, Class::NotColon);
        let a = after(s, j);
        lemma_run(s, a, Class::Colon);
        let k = run(s, a, Class::Colon);
        if k < r {
            lemma_run_agrees(s, t, r, a, Class::Colon);
            let b = after(s, k);
            lemma_run(s, b, Class::Space);
            let l = run(s, b, Class::Space);
            if l < r {
                lemma_run_agrees(s, t, r, b, Class::Space);
                let c = after(s, l);
                lemma_run(s, c, Class::NotCr);
                if run(s, c, Class::NotCr) < r {
                    lemma_run_agrees(s, t, r, c, Class::NotCr);
                }
            }
        }
    }
}

proof fn lemma_headers_grow(
    s: Seq<Item>,
    t: Seq<Item>,
    i: int,
    h: Seq<u8>,
    p: i32,
    f: Seq<FieldView>,
)
    requires
        agree(s, t, s.len() as int),
        0 <= i <= s.len(),
    ensures
        grows(headers(s, i, h, p, f).fields, headers(t, i, h, p, f).fields),
    decreases s.len() - i,
{
    let r = s.len() as int;
    if i == r || !(headers(s, i, h, p, f).status is Pending) {
        lemma_headers_keep(t, i, h, p, f);
        lemma_headers_bounds(s, i, h, p, f);
        if i < r {
            lemma_headers_agree(s, t, r, i, h, p, f);
        }
    } else {
        assert(s[i] == t[i]);
        if s[i] == Item::Byte(CR) {
            lemma_headers_keep(t, i, h, p, f);
        } else {
            lemma_header_advances(s, i, f);
            lemma_header_advances(t, i, f);
            let line = key(s, i, f);
            let other = key(t, i, f);
            match line.next {
                Some(n) => {
                    lemma_key_agrees(s, t, r, i, f);
                    lemma_headers_grow(s, t, n, h, p, line.fields);
                },
                None => {
                    lemma_key_grows(s, t, i, f);
                    if let Some(n) = other.next {
                        lemma_headers_keep(t, n, h, p, other.fields);
                        lemma_grows_transitive(
                            line.fields,
                            other.fields,
                            headers(t, n, h, p, other.fields).fields,
                        );
                    }
                },
            }
        }
    }
}

proof fn lemma_protocol_grows(
    s: Seq<Item>,
    t: Seq<Item>,
    i: int,
    h: Seq<u8>,
    p: i32,
    f: Seq<FieldView>,
)
    requires
        agree(s, t, s.len() as int),
        0 <= i <= s.len(),
    ensures
        grows(protocol(s, i, h, p, f).fields, protocol(t, i, h, p, f).fields),
{
    let r = s.len() as int;
    lemma_run(s, i, Class::NotCr);
    let j = run(s, i, Class::NotCr);
    if j == r {
        lemma_protocol_keeps(t, i, h, p, f);
    } else {
        lemma_run_agrees(s, t, r, i, Class::NotCr);
        let a = after(s, j);
        let more = f.push(FieldView::Protocol(bytes(s, i, j)));
        lemma_line_cr_bounds(s, a, more);
        lemma_line_cr_bounds(t, a, more);
        if let Some(n) = line_cr(s, a, more).next {
            lemma_line_cr_agrees(s, t, r, a, more);
            lemma_headers_grow(s, t, n, h, p, more);
        } else if let Some(n) = line_cr(t, a, more).next {
            lemma_headers_keep(t, n, h, p, more);
        }
    }
}

proof fn lemma_port_number_grows(
    s: Seq<Item>,
    t: Seq<Item>,
    i: int,
    h: Seq<u8>,
    f: Seq<FieldView>,
)
    requires
        agree(s, t, s.len() as int),
        0 <= i <= s.len(),
    ensures
        grows(port_number(s, i, h, f).fields, port_number(t, i, h, f).fields),
{
    let r = s.len() as int;
    lemma_run(s, i, Class::Digit);
    let j = run(s, i, Class::Digit);
    if j == r {
        lemma_port_number_keeps(t, i, h, f);
    } else {
        lemma_run_agrees(s, t, r, i, Class::Digit);
        let a = after(s, j);
        let p = number(bytes(s, i, j)) as i32;
        let more = f.push(FieldView::Port(p));
        lemma_run(s, a, Class::Space);
        lemma_run(t, a, Class::Space);
        let k = run(s, a, Class::Space);
        if k < r {
            lemma_run_agrees(s, t, r, a, Class::Space);
            lemma_protocol_grows(s, t, after(s, k), h, p, more);
        } else if run(t, a, Class::Space) < t.len() {
            lemma_protocol_keeps(t, after(t, run(t, a, Class::Space)), h, p, more);
        }
    }
}

proof fn lemma_leading_spaces_grow(s: Seq<Item>, t: Seq<Item>, i: int, f: Seq<FieldView>)
    requires
        agree(s, t, s.len() as int),
        0 <= i <= s.len(),
    ensures
        grows(leading_spaces(s, i, f).fields, leading_spaces(t, i, f).fields),
{
    let r = s.len() as int;
    lemma_leading_spaces_keep(t, i, f);
    lemma_run(s, i, Class::Space);
    let j = run(s, i, Class::Space);
    if j < r {
        lemma_run_agrees(s, t, r, i, Class::Space);
        let a = after(s, j);
        lemma_run(s, a, Class::NotColon);
        let k = run(s, a, Class::NotColon);
        if k < r {
            lemma_run_agrees(s, t, r, a, Class::NotColon);
            let b = after(s, k);
            let h = bytes(s, a, k);
            let more = f.push(FieldView::Hostname(h));
            lemma_run(s, b, Class::Colon);
            lemma_run(t, b, Class::Colon);
            let l = run(s, b, Class::Colon);
            if l < r {
                lemma_run_agrees(s, t, r, b, Class::Colon);
                lemma_port_number_grows(s, t, after(s, l), h, more);
            } else if run(t, b, Class::Colon) < t.len() {
                lemma_port_number_keeps(t, after(t, run(t, b, Class::Colon)), h, more);
            }
        }
    }
}

/// The parts of a request that were read stay read: with more items there can only be more
/// of them, behind the others.
pub proof fn law_parts_are_kept(s: Seq<Item>, t: Seq<Item>)
    requires
        extends(t, s),
    ensures
        grows(connect(s).fields, connect(t).fields),
{
    let r = s.len() as int;
    if !(connect(s).status is Pending) {
        law_outcome_is_final(s, t);
    } else {
        reveal_strlit("CONNECT");
        lemma_run(s, 0, Class::Any);
        let size = CONNECT@.len() as int;
        if run(s, 0, Class::Any) >= size {
            assert forall|k: int| 0 <= k < size implies Class::Any.takes_item(#[trigger] t[k]) by {
                assert(Class::Any.takes_item(s[k]));
            }
            lemma_run_reaches(t, 0, size, Class::Any);
            assert(bytes(t, 0, size) =~= bytes(s, 0, size));
            lemma_leading_spaces_grow(s, t, size, seq![FieldView::Method(bytes(s, 0, size))]);
        }
    }
}

} // verus!
