//! Text: numbers written out in decimal, and what follows a prefix.

use vstd::prelude::*;
use vstd::string::*;
use vstd::utf8::{
    decode_utf8, decode_utf8_encode_utf8, decode_utf8_split, encode_utf8,
    encode_utf8_decode_utf8, encode_utf8_valid_utf8, is_char_boundary, length_of_first_scalar,
    pop_first_scalar, valid_utf8, valid_utf8_concat, valid_utf8_split,
};

verus! {

/// The ten decimal digits, in the order of their values.
pub const DECIMAL_DIGITS: &'static str = "0123456789";

/// `n` in decimal: no sign, and no leading zero but for zero itself.
pub open spec fn decimal_text(n: nat) -> Seq<char>
    decreases n,
{
    if n < 10 {
        seq![DECIMAL_DIGITS@[n as int]]
    } else {
        decimal_text(n / 10).push(DECIMAL_DIGITS@[(n % 10) as int])
    }
}

/// Writes `n` in decimal.
pub fn decimal(n: usize) -> (text: String)
    ensures
        text@ == decimal_text(n as nat),
    decreases n,
{
    proof {
        reveal_strlit("0123456789");
    }
    let last = n % 10;
    let digit = DECIMAL_DIGITS.substring_ascii(last, last + 1);
    assert(digit@ =~= seq![DECIMAL_DIGITS@[last as int]]);
    if n < 10 {
        String::from_str(digit)
    } else {
        let mut text = decimal(n / 10);
        text.append(digit);
        text
    }
}

/// Where a valid encoding begins a valid encoding, it ends at the boundary of
/// a character.
proof fn lemma_boundary_after_front(front: Seq<u8>, back: Seq<u8>)
    requires
        valid_utf8(front),
        valid_utf8(front + back),
    ensures
        is_char_boundary(front + back, front.len() as int),
    decreases front.len(),
{
    let whole = front + back;
    if front.len() > 0 {
        assert(whole[0] == front[0]);
        assert(length_of_first_scalar(whole) == length_of_first_scalar(front));
        assert(pop_first_scalar(whole) =~= pop_first_scalar(front) + back);
        lemma_boundary_after_front(pop_first_scalar(front), back);
    }
}

/// The encoding of two texts, one after the other, is their encodings, one
/// after the other.
pub proof fn lemma_encode_utf8_concat(first: Seq<char>, second: Seq<char>)
    ensures
        encode_utf8(first + second) == encode_utf8(first) + encode_utf8(second),
{
    let front = encode_utf8(first);
    let back = encode_utf8(second);
    let whole = front + back;
    encode_utf8_valid_utf8(first);
    encode_utf8_valid_utf8(second);
    valid_utf8_concat(front, back);
    lemma_boundary_after_front(front, back);
    decode_utf8_split(whole, front.len() as int);
    assert(whole.subrange(0, front.len() as int) =~= front);
    assert(whole.subrange(front.len() as int, whole.len() as int) =~= back);
    encode_utf8_decode_utf8(first);
    encode_utf8_decode_utf8(second);
    decode_utf8_encode_utf8(whole);
}

/// What follows `prefix` in `text`; `None` where `text` does not begin with
/// `prefix`.
pub fn strip_prefix<'a>(text: &'a str, prefix: &str) -> (rest: Option<&'a str>)
    ensures
        match rest {
            Some(found) => prefix@.is_prefix_of(text@) && found@ == text@.skip(
                prefix@.len() as int,
            ),
            None => !prefix@.is_prefix_of(text@),
        },
{
    let whole = text.as_bytes();
    let front = prefix.as_bytes();
    let len = front.len();
    proof {
        if prefix@.is_prefix_of(text@) {
            let tail = text@.skip(prefix@.len() as int);
            assert(text@ =~= prefix@ + tail);
            lemma_encode_utf8_concat(prefix@, tail);
            assert(front@.is_prefix_of(whole@));
        }
    }
    if len > whole.len() {
        return None;
    }
    let mut at: usize = 0;
    while at < len
        invariant
            len == front@.len(),
            len <= whole@.len(),
            at <= len,
            forall|i: int| 0 <= i < at ==> whole@[i] == front@[i],
            prefix@.is_prefix_of(text@) ==> front@.is_prefix_of(whole@),
        decreases len - at,
    {
        if whole[at] != front[at] {
            assert(whole@.subrange(0, len as int)[at as int] == whole@[at as int]);
            return None;
        }
        at += 1;
    }
    proof {
        let back = whole@.subrange(len as int, whole@.len() as int);
        assert(whole@ =~= front@ + back);
        encode_utf8_valid_utf8(text@);
        encode_utf8_valid_utf8(prefix@);
        lemma_boundary_after_front(front@, back);
        valid_utf8_split(whole@, len as int);
        decode_utf8_split(whole@, len as int);
        assert(whole@.subrange(0, len as int) =~= front@);
        encode_utf8_decode_utf8(text@);
        encode_utf8_decode_utf8(prefix@);
    }
    let (_, rest) = text.split_at(len);
    proof {
        encode_utf8_decode_utf8(rest@);
        assert(text@ =~= prefix@ + rest@);
        assert(prefix@.is_prefix_of(text@));
        assert(rest@ =~= text@.skip(prefix@.len() as int));
    }
    Some(rest)
}

} // verus!
