//! Canonical textual form of a fingerprint: each character followed by the
//! single decimal digit of its count, concatenated without separators.

use vstd::prelude::*;

verus! {

/// The character standing for the single decimal digit `v`.
pub open spec fn digit_char(v: u32) -> char {
    ((48 + v) as u8) as char
}

/// Whether `c` is a decimal digit.
pub open spec fn is_digit(c: char) -> bool {
    48 <= c as u32 <= 57
}

/// The value of the decimal digit `c`.
pub open spec fn digit_val(c: char) -> u32 {
    ((c as u32) - 48) as u32
}

/// The canonical text of an entry sequence.
pub open spec fn encode_spec(e: Seq<(char, u32)>) -> Seq<char>
    decreases e.len(),
{
    if e.len() == 0 {
        Seq::empty()
    } else {
        encode_spec(e.drop_last()) + seq![e.last().0, digit_char(e.last().1)]
    }
}

/// Whether `t` parses as canonical fingerprint text: even length, and the
/// second character of every two-character chunk a decimal digit.
pub open spec fn decode_ok(t: Seq<char>) -> bool {
    t.len() % 2 == 0 && (forall|i: int| 0 <= i < t.len() / 2 ==> is_digit(#[trigger] t[2 * i + 1]))
}

/// The entry sequence read back from canonical fingerprint text.
pub open spec fn decode_pairs(t: Seq<char>) -> Seq<(char, u32)> {
    Seq::new(t.len() / 2, |i: int| (t[2 * i], digit_val(t[2 * i + 1])))
}

pub proof fn lemma_encode_len(e: Seq<(char, u32)>)
    ensures
        encode_spec(e).len() == 2 * e.len(),
    decreases e.len(),
{
    if e.len() > 0 {
        lemma_encode_len(e.drop_last());
    }
}

/// The text of an entry sequence holds, chunk by chunk, each entry's
/// character and the digit of its count.
pub proof fn lemma_encode_chars(e: Seq<(char, u32)>, i: int)
    requires
        0 <= i < e.len(),
    ensures
        encode_spec(e)[2 * i] == e[i].0,
        encode_spec(e)[2 * i + 1] == digit_char(e[i].1),
    decreases e.len(),
{
    lemma_encode_len(e);
    lemma_encode_len(e.drop_last());
    if i == e.len() - 1 {
    } else {
        lemma_encode_chars(e.drop_last(), i);
    }
}

/// Round trip: decoding the canonical text of any entry sequence whose
/// counts all fit one decimal digit yields the sequence back.
pub proof fn lemma_round_trip(e: Seq<(char, u32)>)
    requires
        forall|i: int| 0 <= i < e.len() ==> (#[trigger] e[i]).1 <= 9,
    ensures
        decode_ok(encode_spec(e)),
        decode_pairs(encode_spec(e)) == e,
{
    lemma_encode_len(e);
    let t = encode_spec(e);
    assert forall|i: int| 0 <= i < t.len() / 2 implies is_digit(#[trigger] t[2 * i + 1]) by {
        lemma_encode_chars(e, i);
        assert(digit_char(e[i].1) as u32 == 48 + e[i].1);
    }
    assert(decode_pairs(t) =~= e) by {
        assert forall|i: int| 0 <= i < e.len() implies decode_pairs(t)[i] == e[i] by {
            lemma_encode_chars(e, i);
            assert(digit_char(e[i].1) as u32 == 48 + e[i].1);
            assert(digit_val(digit_char(e[i].1)) == e[i].1);
        }
    }
}

/// Relies on String::push: appends the character to the end of the string.
#[verifier::external_body]
pub(crate) fn string_push(s: &mut String, c: char)
    ensures
        final(s)@ == old(s)@.push(c),
{
    s.push(c);
}

/// The decimal digit character of `v`.
pub(crate) fn digit_char_exec(v: u32) -> (c: char)
    requires
        v <= 9,
    ensures
        c == digit_char(v),
{
    let b: u8 = 48 + (v as u8);
    b as char
}

} // verus!
