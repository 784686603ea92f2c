//! Texts and the bytes that stand for them.

use vstd::arithmetic::div_mod::lemma_div_denominator;
use vstd::arithmetic::power::{lemma_pow_positive, pow};
use vstd::prelude::*;
use vstd::string::*;
use vstd::utf8::*;

verus! {

/// The bytes of a text of ASCII characters, one byte for each character.
pub open spec fn ascii(text: Seq<char>) -> Seq<u8> {
    text.map_values(|c: char| c as u8)
}

/// The bytes of an ASCII text are its characters.
pub proof fn lemma_ascii_bytes(text: &str)
    requires
        is_ascii_chars(text@),
    ensures
        text.spec_bytes() == ascii(text@),
{
    is_ascii_chars_encode_utf8(text@);
    assert(text.spec_bytes() =~= ascii(text@));
}

/// The encoding of a text that begins with an ASCII character begins with its byte.
proof fn lemma_encoding_begins(text: Seq<char>)
    requires
        text.len() > 0,
        is_ascii_chars(seq![text[0]]),
    ensures
        encode_utf8(text).len() > 0,
        encode_utf8(text)[0] == text[0] as u8,
        encode_utf8(text) == seq![text[0] as u8] + encode_utf8(text.drop_first()),
{
    let first = seq![text[0]];
    is_ascii_chars_encode_utf8(first);
    assert(first.drop_first() =~= Seq::<char>::empty());
    assert(encode_utf8(first) =~= seq![text[0] as u8]);
    assert(first[0] == text[0]);
    assert(encode_utf8(first) =~= encode_scalar(text[0] as u32));
}

/// An ASCII character stands in the encoding of a text that holds it.
proof fn lemma_encoding_contains(text: Seq<char>, c: char)
    requires
        text.contains(c),
        is_ascii_chars(seq![c]),
    ensures
        encode_utf8(text).contains(c as u8),
    decreases text.len(),
{
    let k = choose|k: int| 0 <= k < text.len() && text[k] == c;
    if k == 0 {
        lemma_encoding_begins(text);
    } else {
        let rest = text.drop_first();
        assert(rest[k - 1] == c);
        lemma_encoding_contains(rest, c);
        let behind = encode_utf8(rest);
        let j = choose|j: int| 0 <= j < behind.len() && behind[j] == c as u8;
        let head = encode_scalar(text[0] as u32);
        assert(encode_utf8(text) == head + behind);
        assert((head + behind)[head.len() + j] == c as u8);
    }
}

/// Of bytes that are UTF-8, an ASCII character stands in the text only if its byte is among
/// them, and at its beginning only if its byte comes first.
pub proof fn lemma_ascii_in_text(bytes: Seq<u8>, c: char)
    requires
        valid_utf8(bytes),
        is_ascii_chars(seq![c]),
    ensures
        text_of(bytes).contains(c) ==> bytes.contains(c as u8),
        text_of(bytes).len() > 0 && text_of(bytes)[0] == c ==> bytes.len() > 0 && bytes[0]
            == c as u8,
{
    let text = text_of(bytes);
    decode_utf8_encode_utf8(bytes);
    if text.contains(c) {
        lemma_encoding_contains(text, c);
    }
    if text.len() > 0 && text[0] == c {
        lemma_encoding_begins(text);
    }
}

/// The text that stands for bytes that are not UTF-8, with U+FFFD in place of what cannot
/// be decoded. It names what `String::from_utf8_lossy` returns for such bytes.
pub uninterp spec fn replaced_text(bytes: Seq<u8>) -> Seq<char>;

/// The text that stands for `bytes`: the decoded text where they are UTF-8.
pub open spec fn text_of(bytes: Seq<u8>) -> Seq<char> {
    if valid_utf8(bytes) {
        decode_utf8(bytes)
    } else {
        replaced_text(bytes)
    }
}

/// Calls `String::from_utf8_lossy`: bytes that are UTF-8 are decoded as they stand; of others
/// the result is a function of the bytes, and holds at least one U+FFFD.
#[verifier::external_body]
fn from_utf8_lossy(bytes: &[u8]) -> (text: String)
    ensures
        valid_utf8(bytes@) ==> text@ == decode_utf8(bytes@),
        !valid_utf8(bytes@) ==> text@ == replaced_text(bytes@),
        !valid_utf8(bytes@) ==> text@.contains('\u{FFFD}'),
{
    String::from_utf8_lossy(bytes).into_owned()
}

/// The text that stands for `bytes`. Where they are not UTF-8, it shows that something was
/// replaced.
pub fn to_text(bytes: &[u8]) -> (text: String)
    ensures
        text@ == text_of(bytes@),
        valid_utf8(bytes@) ==> text@ == decode_utf8(bytes@),
        !valid_utf8(bytes@) ==> text@ == replaced_text(bytes@),
        !valid_utf8(bytes@) ==> text@.contains('\u{FFFD}'),
{
    from_utf8_lossy(bytes)
}

/// Calls `simple_error::SimpleError::with`, with a `SimpleError` made of `reason`: the text
/// is `context`, a comma and a space, and the reason.
#[verifier::external_body]
pub(crate) fn with_reason(context: &str, reason: &str) -> (text: String)
    ensures
        text@ == context@ + ", "@ + reason@,
{
    simple_error::SimpleError::with(context, simple_error::SimpleError::new(reason)).as_str().to_owned()
}

/// Whether two runs of bytes are the same.
pub fn same_bytes(a: &[u8], b: &[u8]) -> (same: bool)
    ensures
        same == (a@ == b@),
{
    if a.len() != b.len() {
        return false;
    }
    let mut i: usize = 0;
    while i < a.len()
        invariant
            i <= a.len(),
            a.len() == b.len(),
            forall|k: int| 0 <= k < i ==> a@[k] == b@[k],
        decreases a.len() - i,
    {
        if a[i] != b[i] {
            assert(a@[i as int] != b@[i as int]);
            return false;
        }
        i += 1;
    }
    assert(a@ =~= b@);
    true
}

/// The digit that stands for a number below ten.
pub open spec fn digit(n: int) -> char {
    ('0' as u8 + n) as char
}

/// A natural number in decimal digits, without leading zeros.
pub open spec fn digits(n: nat) -> Seq<char>
    decreases n,
{
    if n < 10 {
        seq![digit(n as int)]
    } else {
        digits(n / 10).push(digit((n % 10) as int))
    }
}

/// A number in decimal digits, with a minus sign before it where it is negative.
pub open spec fn decimal(n: int) -> Seq<char> {
    if n < 0 {
        seq!['-'] + digits((-n) as nat)
    } else {
        digits(n as nat)
    }
}

/// The bytes of an ASCII text stand for its characters one by one.
pub proof fn law_ascii_keeps_characters(text: Seq<char>)
    ensures
        ascii(text).len() == text.len(),
        forall|k: int| 0 <= k < text.len() ==> #[trigger] ascii(text)[k] == text[k] as u8,
{
}

/// The text that stands for the encoding of a text is that text again, and bytes that are not
/// UTF-8 stand for what they are replaced with.
pub proof fn law_text_is_decoded(text: Seq<char>, bytes: Seq<u8>)
    ensures
        text_of(encode_utf8(text)) == text,
        valid_utf8(bytes) ==> encode_utf8(text_of(bytes)) == bytes,
        !valid_utf8(bytes) ==> text_of(bytes) == replaced_text(bytes),
{
    encode_utf8_valid_utf8(text);
    encode_utf8_decode_utf8(text);
    if valid_utf8(bytes) {
        decode_utf8_encode_utf8(bytes);
    }
}

/// Powers of ten, and what dividing by them leaves of a number behind its last digit.
pub(crate) proof fn lemma_power_of_ten(n: nat, k: nat)
    requires
        k > 0,
    ensures
        pow(10, k) == 10 * pow(10, (k - 1) as nat),
        pow(10, k) > 0,
        pow(10, (k - 1) as nat) > 0,
        n as int / pow(10, k) == (n / 10) as int / pow(10, (k - 1) as nat),
{
    reveal(pow);
    lemma_pow_positive(10, (k - 1) as nat);
    lemma_div_denominator(n as int, 10, pow(10, (k - 1) as nat));
}

/// Each decimal digit of a number counts its power of ten, and there are as many of them as
/// the number takes.
pub proof fn law_digits_count_powers_of_ten(n: nat)
    ensures
        digits(n).len() > 0,
        n < pow(10, digits(n).len()),
        digits(n).len() > 1 ==> pow(10, (digits(n).len() - 1) as nat) <= n,
        forall|k: int|
            0 <= k < digits(n).len() ==> #[trigger] digits(n)[k] as int == '0' as int + (n as int
                / pow(10, (digits(n).len() - 1 - k) as nat)) % 10,
    decreases n,
{
    let list = digits(n);
    if n < 10 {
        reveal(pow);
        assert(pow(10, 0) == 1);
        assert(pow(10, 1) == 10 * pow(10, 0));
        assert(n as int / pow(10, 0) == n);
    } else {
        let front = digits(n / 10);
        law_digits_count_powers_of_ten(n / 10);
        lemma_power_of_ten(n, list.len());
        if front.len() > 1 {
            lemma_power_of_ten(n, (list.len() - 1) as nat);
        } else {
            reveal(pow);
            assert(pow(10, 0) == 1);
            assert(pow(10, 1) == 10 * pow(10, 0));
        }
        assert forall|k: int| 0 <= k < list.len() implies #[trigger] list[k] as int == '0' as int
            + (n as int / pow(10, (list.len() - 1 - k) as nat)) % 10 by {
            if k < front.len() {
                assert(list[k] == front[k]);
                lemma_power_of_ten(n, (list.len() - 1 - k) as nat);
            } else {
                reveal(pow);
                assert(pow(10, 0) == 1);
                assert(n as int / pow(10, 0) == n);
            }
        }
    }
}

/// A number that is not negative is written as its digits, and its negation with a minus sign
/// before them.
pub proof fn law_decimal_bears_the_sign(n: nat)
    ensures
        decimal(n as int) == digits(n),
        n > 0 ==> decimal(-n) == seq!['-'] + digits(n),
{
}

/// The digit that stands for a number below ten.
fn to_digit(n: u64) -> (text: &'static str)
    requires
        n < 10,
    ensures
        text@ == seq![digit(n as int)],
{
    proof {
        reveal_strlit("0");
        reveal_strlit("1");
        reveal_strlit("2");
        reveal_strlit("3");
        reveal_strlit("4");
        reveal_strlit("5");
        reveal_strlit("6");
        reveal_strlit("7");
        reveal_strlit("8");
        reveal_strlit("9");
    }
    let text = match n {
        0 => "0",
        1 => "1",
        2 => "2",
        3 => "3",
        4 => "4",
        5 => "5",
        6 => "6",
        7 => "7",
        8 => "8",
        _ => "9",
    };
    assert(text@ =~= seq![digit(n as int)]);
    text
}

/// A natural number in decimal digits.
fn to_digits(n: u64) -> (text: String)
    ensures
        text@ == digits(n as nat),
    decreases n,
{
    if n < 10 {
        to_digit(n).to_owned()
    } else {
        let mut text = to_digits(n / 10);
        text.append(to_digit(n % 10));
        assert(text@ =~= digits(n as nat));
        text
    }
}

/// A number in decimal digits, behind a text and a colon.
pub(crate) fn with_port(host: &str, port: i32) -> (text: String)
    ensures
        text@ == host@ + seq![':'] + decimal(port as int),
{
    let mut text = host.to_owned();
    proof {
        reveal_strlit(":");
        reveal_strlit("-");
        assert(":"@ =~= seq![':']);
        assert("-"@ =~= seq!['-']);
    }
    text.append(":");
    if port < 0 {
        text.append("-");
        text.append(to_digits((-(port as i64)) as u64).as_str());
        assert(text@ =~= host@ + seq![':'] + decimal(port as int));
    } else {
        text.append(to_digits(port as u64).as_str());
    }
    text
}

} // verus!
