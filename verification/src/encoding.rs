//! Facts that carry statements about the UTF-8 bytes of a string over to its
//! characters, and back.
//!
//! The executable code scans bytes; the contracts speak of characters. The
//! lemmas here are the bridge: how encoding distributes over concatenation,
//! where character boundaries lie, and what an ASCII byte says about the
//! character it encodes.

use vstd::prelude::*;
use vstd::utf8::*;

verus! {

/// The character that a single ASCII byte encodes.
pub open spec fn ascii_char(byte: u8) -> char {
    byte as char
}

/// Encoding distributes over concatenation.
pub proof fn lemma_encode_concat(left: Seq<char>, right: Seq<char>)
    ensures
        encode_utf8(left + right) == encode_utf8(left) + encode_utf8(right),
    decreases left.len(),
{
    if left.len() == 0 {
        assert(left + right =~= right);
        assert(encode_utf8(left) + encode_utf8(right) =~= encode_utf8(right));
    } else {
        let whole = left + right;
        assert(whole[0] == left[0]);
        assert(whole.drop_first() =~= left.drop_first() + right);
        lemma_encode_concat(left.drop_first(), right);
        assert(encode_utf8(whole) =~= encode_utf8(left) + encode_utf8(right));
    }
}

/// An ASCII character is encoded as the one byte of the same value.
pub proof fn lemma_encode_ascii(c: char)
    requires
        c as u32 <= 0x7f,
    ensures
        encode_utf8(seq![c]) == seq![c as u8],
        ascii_char(c as u8) == c,
{
    let v = c as u32;
    assert(leading_byte_width_1(v) == v as u8) by (bit_vector)
        requires
            v <= 0x7f,
    ;
    let one = seq![c];
    assert(one.drop_first() =~= Seq::<char>::empty());
    reveal_with_fuel(encode_utf8, 2);
    assert(encode_utf8(one) =~= seq![c as u8]);
}

/// Where a valid encoding begins with another valid encoding, the end of
/// that prefix is a character boundary.
pub proof fn lemma_valid_prefix_ends_at_boundary(bytes: Seq<u8>, prefix: Seq<u8>)
    requires
        valid_utf8(bytes),
        valid_utf8(prefix),
        prefix.is_prefix_of(bytes),
    ensures
        is_char_boundary(bytes, prefix.len() as int),
    decreases prefix.len(),
{
    if prefix.len() > 0 {
        assert(bytes[0] == prefix[0]);
        let width = length_of_first_scalar(prefix);
        assert(width == length_of_first_scalar(bytes));
        assert(1 <= width <= prefix.len());
        let prefix_rest = pop_first_scalar(prefix);
        let bytes_rest = pop_first_scalar(bytes);
        assert(prefix_rest.is_prefix_of(bytes_rest)) by {
            assert(prefix_rest =~= bytes_rest.subrange(0, prefix_rest.len() as int));
        }
        lemma_valid_prefix_ends_at_boundary(bytes_rest, prefix_rest);
        assert(prefix_rest.len() == prefix.len() - width);
    }
}

/// An ASCII byte in a valid encoding stands between two character
/// boundaries, and the text decodes as what comes before it, the byte's own
/// character, and what comes after it.
pub proof fn lemma_decode_around_ascii(bytes: Seq<u8>, i: int)
    requires
        valid_utf8(bytes),
        0 <= i < bytes.len(),
        bytes[i] <= 0x7f,
    ensures
        is_char_boundary(bytes, i),
        is_char_boundary(bytes, i + 1),
        valid_utf8(bytes.subrange(0, i)),
        valid_utf8(bytes.subrange(i + 1, bytes.len() as int)),
        decode_utf8(bytes) == decode_utf8(bytes.subrange(0, i)).push(ascii_char(bytes[i]))
            + decode_utf8(bytes.subrange(i + 1, bytes.len() as int)),
{
    let n = bytes.len() as int;
    let head = bytes.subrange(0, i);
    let tail = bytes.subrange(i, n);
    let rest = bytes.subrange(i + 1, n);
    is_char_boundary_iff_not_is_continuation_byte(bytes, i);
    valid_utf8_split(bytes, i);
    decode_utf8_split(bytes, i);
    assert(tail[0] == bytes[i]);
    assert(pop_first_scalar(tail) =~= rest);
    let b = bytes[i];
    assert((b & 0x7f) as u32 == b as u32) by (bit_vector)
        requires
            b <= 0x7f,
    ;
    assert(decode_utf8(tail) == seq![ascii_char(b)] + decode_utf8(rest));
    assert(decode_utf8(bytes) =~= decode_utf8(head).push(ascii_char(b)) + decode_utf8(rest));
    partial_valid_utf8_extend(bytes, i);
    lemma_valid_prefix_ends_at_boundary(bytes, bytes.subrange(0, i + 1));
}

/// An ASCII character of a text is encoded in place: the bytes are those of
/// what comes before it, the character's own byte, and those of what comes
/// after it.
pub proof fn lemma_encode_around_ascii(text: Seq<char>, i: int)
    requires
        0 <= i < text.len(),
        text[i] as u32 <= 0x7f,
    ensures
        encode_utf8(text) == encode_utf8(text.take(i)).push(text[i] as u8) + encode_utf8(
            text.skip(i + 1),
        ),
{
    let before = text.take(i);
    let after = text.skip(i + 1);
    assert(text =~= before + seq![text[i]] + after);
    lemma_encode_concat(before + seq![text[i]], after);
    lemma_encode_concat(before, seq![text[i]]);
    lemma_encode_ascii(text[i]);
    assert(encode_utf8(before) + seq![text[i] as u8] =~= encode_utf8(before).push(text[i] as u8));
}

/// A text none of whose bytes is a given ASCII byte holds no such character.
pub proof fn lemma_ascii_absent(text: Seq<char>, c: char)
    requires
        c as u32 <= 0x7f,
        !encode_utf8(text).contains(c as u8),
    ensures
        !text.contains(c),
{
    if text.contains(c) {
        let i = choose|i: int| 0 <= i < text.len() && text[i] == c;
        lemma_encode_around_ascii(text, i);
        let at = encode_utf8(text.take(i)).len() as int;
        assert(encode_utf8(text)[at] == c as u8);
    }
}

/// A text ends with a given ASCII character exactly when its encoding ends
/// with that character's byte; the encoding without that byte is then the
/// encoding of the text without that character.
pub proof fn lemma_ascii_last(text: Seq<char>, c: char)
    requires
        c as u32 <= 0x7f,
    ensures
        (text.len() > 0 && text.last() == c) <==> (encode_utf8(text).len() > 0 && encode_utf8(
            text,
        ).last() == c as u8),
        text.len() > 0 && text.last() == c ==> encode_utf8(text.drop_last()) == encode_utf8(
            text,
        ).drop_last(),
{
    broadcast use encode_utf8_valid_utf8, encode_utf8_decode_utf8;

    let bytes = encode_utf8(text);
    if text.len() > 0 && text.last() == c {
        let i = text.len() - 1;
        lemma_encode_around_ascii(text, i);
        assert(text.skip(i + 1) =~= Seq::<char>::empty());
        assert(text.take(i) =~= text.drop_last());
        assert(bytes =~= encode_utf8(text.drop_last()).push(c as u8));
        assert(bytes.drop_last() =~= encode_utf8(text.drop_last()));
    }
    if bytes.len() > 0 && bytes.last() == c as u8 {
        let i = bytes.len() - 1;
        lemma_decode_around_ascii(bytes, i);
        lemma_encode_ascii(c);
        assert(bytes.subrange(i + 1, bytes.len() as int) =~= Seq::<u8>::empty());
        assert(text =~= decode_utf8(bytes.subrange(0, i)).push(c));
    }
}

} // verus!
