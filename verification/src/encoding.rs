//! Base64 in the standard alphabet with padding, as RFC 4648 defines it.

use base64::engine::general_purpose::STANDARD;
use base64::Engine;
use vstd::prelude::*;

verus! {

/// The sixty-four digits of the standard alphabet, in the order of their values.
pub open spec fn alphabet() -> Seq<char> {
    "ABCDEFGHIJKLMNOPQRSTUVWXYZabcdefghijklmnopqrstuvwxyz0123456789+/"@
}

/// The digit that stands for the six-bit value `value`.
pub open spec fn digit(value: int) -> char
    recommends
        0 <= value < 64,
{
    alphabet()[value]
}

/// The number of characters that encode `len` bytes.
pub open spec fn base64_len(len: nat) -> nat {
    4 * ((len + 2) / 3)
}

/// The four digits that carry the twenty-four bits of three bytes, six bits
/// each from the highest down: the high six bits of `first`; its low two bits
/// and the high four of `second`; the low four bits of `second` and the high
/// two of `third`; the low six bits of `third`.
pub open spec fn group_text(first: int, second: int, third: int) -> Seq<char> {
    seq![
        digit(first / 4),
        digit(first % 4 * 16 + second / 16),
        digit(second % 16 * 4 + third / 64),
        digit(third % 64),
    ]
}

/// The base64 text of `bytes`: four digits for every three bytes, and a last
/// group padded with `=` where one or two bytes are left over, the missing
/// bits taken as zero.
pub open spec fn base64_text(bytes: Seq<u8>) -> Seq<char>
    decreases bytes.len(),
{
    if bytes.len() == 0 {
        Seq::empty()
    } else if bytes.len() == 1 {
        group_text(bytes[0] as int, 0, 0).take(2) + seq!['=', '=']
    } else if bytes.len() == 2 {
        group_text(bytes[0] as int, bytes[1] as int, 0).take(3) + seq!['=']
    } else {
        group_text(bytes[0] as int, bytes[1] as int, bytes[2] as int) + base64_text(
            bytes.skip(3),
        )
    }
}

/// The six-bit value that the digit `c` stands for; `None` where `c` is no
/// digit of the alphabet.
pub open spec fn digit_value(c: char) -> Option<int> {
    alphabet().index_of_first(c)
}

/// The bytes that one group of four characters stands for. Only the last
/// group of a text may be padded, and the bits that its padding leaves
/// unused must be zero.
pub open spec fn group_bytes(group: Seq<char>, last: bool) -> Option<Seq<u8>>
    recommends
        group.len() == 4,
{
    match (
        digit_value(group[0]),
        digit_value(group[1]),
        digit_value(group[2]),
        digit_value(group[3]),
    ) {
        (Some(a), Some(b), Some(c), Some(d)) => Some(
            seq![(a * 4 + b / 16) as u8, (b % 16 * 16 + c / 4) as u8, (c % 4 * 64 + d) as u8],
        ),
        (Some(a), Some(b), Some(c), None) => if last && group[3] == '=' && c % 4 == 0 {
            Some(seq![(a * 4 + b / 16) as u8, (b % 16 * 16 + c / 4) as u8])
        } else {
            None
        },
        (Some(a), Some(b), None, None) => if last && group[2] == '=' && group[3] == '=' && b % 16
            == 0 {
            Some(seq![(a * 4 + b / 16) as u8])
        } else {
            None
        },
        _ => None,
    }
}

/// The bytes that the base64 text `text` stands for; `None` where `text` is
/// not the text of any bytes.
pub open spec fn base64_bytes(text: Seq<char>) -> Option<Seq<u8>>
    decreases text.len(),
{
    if text.len() == 0 {
        Some(Seq::empty())
    } else if text.len() < 4 {
        None
    } else {
        match (group_bytes(text.take(4), text.len() == 4), base64_bytes(text.skip(4))) {
            (Some(head), Some(rest)) => Some(head + rest),
            _ => None,
        }
    }
}

/// Encodes `bytes` with `Engine::encode` of the `base64` crate, on its
/// `STANDARD` engine.
///
/// Trusted: the engine is taken to write the RFC 4648 encoding in the
/// standard alphabet, padded with `=`, which is what [`base64_text`] spells
/// out. The precondition leaves out the lengths for which the crate panics:
/// it fills a buffer of the size of its output, and no buffer is larger than
/// `isize::MAX` bytes.
#[verifier::external_body]
pub(crate) fn encode_standard(bytes: &Vec<u8>) -> (text: String)
    requires
        base64_len(bytes@.len()) <= isize::MAX,
    ensures
        text@ == base64_text(bytes@),
{
    STANDARD.encode(bytes)
}

/// The value of each digit of the alphabet, by ranges.
pub proof fn lemma_alphabet(value: int)
    requires
        0 <= value < 64,
    ensures
        alphabet().len() == 64,
        value < 26 ==> digit(value) as int == 'A' as int + value,
        26 <= value < 52 ==> digit(value) as int == 'a' as int + (value - 26),
        52 <= value < 62 ==> digit(value) as int == '0' as int + (value - 52),
        value == 62 ==> digit(value) == '+',
        value == 63 ==> digit(value) == '/',
{
    reveal_strlit("ABCDEFGHIJKLMNOPQRSTUVWXYZabcdefghijklmnopqrstuvwxyz0123456789+/");
}

/// Every digit of the alphabet stands for its own position, and the padding
/// character is no digit.
pub proof fn lemma_digit_value(value: int)
    requires
        0 <= value < 64,
    ensures
        digit_value(digit(value)) == Some(value),
        digit_value('=') is None,
{
    assert forall|i: int| 0 <= i < 64 implies alphabet()[i] != '=' && (i != value ==> alphabet()[i]
        != alphabet()[value]) by {
        lemma_alphabet(i);
        lemma_alphabet(value);
    }
    lemma_alphabet(value);
    alphabet().index_of_first_ensures(digit(value));
    alphabet().index_of_first_ensures('=');
}

/// The text of `len` bytes has `base64_len(len)` characters.
pub proof fn lemma_base64_len(bytes: Seq<u8>)
    ensures
        base64_text(bytes).len() == base64_len(bytes.len()),
    decreases bytes.len(),
{
    if bytes.len() >= 3 {
        lemma_base64_len(bytes.skip(3));
    }
}

/// A group of four digits stands for the three bytes that it was made from;
/// a padded group for the one or two bytes that it was made from.
proof fn lemma_group_round_trip(first: u8, second: u8, third: u8, last: bool)
    ensures
        group_bytes(group_text(first as int, second as int, third as int), last) == Some(
            seq![first, second, third],
        ),
        group_bytes(group_text(first as int, second as int, 0).take(3) + seq!['='], true) == Some(
            seq![first, second],
        ),
        group_bytes(group_text(first as int, 0, 0).take(2) + seq!['=', '='], true) == Some(
            seq![first],
        ),
{
    let (a, b, c) = (first as int, second as int, third as int);
    lemma_digit_value(a / 4);
    lemma_digit_value(a % 4 * 16 + b / 16);
    lemma_digit_value(a % 4 * 16);
    lemma_digit_value(b % 16 * 4 + c / 64);
    lemma_digit_value(b % 16 * 4);
    lemma_digit_value(c % 64);
    assert(group_bytes(group_text(a, b, c), last) =~= Some(seq![first, second, third]));
    let two = group_text(a, b, 0).take(3) + seq!['='];
    assert(two[2] == digit(b % 16 * 4) && two[3] == '=');
    assert(group_bytes(two, true) =~= Some(seq![first, second]));
    let one = group_text(a, 0, 0).take(2) + seq!['=', '='];
    assert(one[1] == digit(a % 4 * 16) && one[2] == '=' && one[3] == '=');
    assert(group_bytes(one, true) =~= Some(seq![first]));
}

/// Decoding undoes encoding: the text of any bytes stands for those bytes.
pub proof fn lemma_base64_round_trip(bytes: Seq<u8>)
    ensures
        base64_bytes(base64_text(bytes)) == Some(bytes),
    decreases bytes.len(),
{
    let text = base64_text(bytes);
    let nothing = Seq::<char>::empty();
    assert(base64_bytes(nothing) == Some(Seq::<u8>::empty()));
    if bytes.len() == 0 {
        assert(bytes =~= Seq::<u8>::empty());
    } else if bytes.len() == 1 {
        lemma_group_round_trip(bytes[0], 0, 0, true);
        assert(text.take(4) =~= text);
        assert(text.skip(4) =~= nothing);
        assert(seq![bytes[0]] + Seq::<u8>::empty() =~= bytes);
    } else if bytes.len() == 2 {
        lemma_group_round_trip(bytes[0], bytes[1], 0, true);
        assert(text.take(4) =~= text);
        assert(text.skip(4) =~= nothing);
        assert(seq![bytes[0], bytes[1]] + Seq::<u8>::empty() =~= bytes);
    } else {
        let rest = bytes.skip(3);
        let group = group_text(bytes[0] as int, bytes[1] as int, bytes[2] as int);
        lemma_base64_round_trip(rest);
        lemma_base64_len(rest);
        lemma_group_round_trip(bytes[0], bytes[1], bytes[2], text.len() == 4);
        assert(text.take(4) =~= group);
        assert(text.skip(4) =~= base64_text(rest));
        assert(seq![bytes[0], bytes[1], bytes[2]] + rest =~= bytes);
    }
}

/// Only encodings are decoded: a text that stands for bytes is the text of
/// those bytes.
pub proof fn lemma_base64_bytes_are_encoded(text: Seq<char>)
    ensures
        base64_bytes(text) matches Some(bytes) ==> base64_text(bytes) == text,
    decreases text.len(),
{
    if text.len() >= 4 && base64_bytes(text) is Some {
        let group = text.take(4);
        let head = group_bytes(group, text.len() == 4)->0;
        let rest = base64_bytes(text.skip(4))->0;
        let bytes = head + rest;
        lemma_base64_bytes_are_encoded(text.skip(4));
        assert forall|i: int| 0 <= i < 4 && digit_value(group[i]) is Some implies {
            let value = digit_value(#[trigger] group[i])->0;
            0 <= value < 64 && digit(value) == group[i]
        } by {
            alphabet().index_of_first_ensures(group[i]);
            lemma_alphabet(0);
        }
        assert(text =~= group + text.skip(4));
        if head.len() == 3 {
            assert(bytes.skip(3) =~= rest);
            assert(group_text(bytes[0] as int, bytes[1] as int, bytes[2] as int) =~= group);
        } else {
            assert(base64_bytes(Seq::<char>::empty()) == Some(Seq::<u8>::empty()));
            assert(text.skip(4) =~= Seq::<char>::empty());
            assert(bytes =~= head);
            assert(base64_text(bytes) =~= group);
        }
    } else if text.len() == 0 {
        assert(text =~= Seq::<char>::empty());
    }
}

} // verus!
