//! Facts about the UTF-8 encoding of text that is cut in two.

use vstd::prelude::*;
use vstd::utf8::*;

verus! {

/// The UTF-8 encoding of a text in two parts is that of the one followed by that of the other.
pub proof fn lemma_encode_utf8_append(a: Seq<char>, b: Seq<char>)
    ensures
        encode_utf8(a + b) == encode_utf8(a) + encode_utf8(b),
    decreases a.len(),
{
    if a.len() == 0 {
        assert(a + b =~= b);
    } else {
        assert((a + b).drop_first() =~= a.drop_first() + b);
        lemma_encode_utf8_append(a.drop_first(), b);
    }
}

/// Two texts with the same UTF-8 encoding are the same.
pub proof fn lemma_encode_utf8_injective(a: Seq<char>, b: Seq<char>)
    requires
        encode_utf8(a) == encode_utf8(b),
    ensures
        a == b,
{
    encode_utf8_decode_utf8(a);
    encode_utf8_decode_utf8(b);
}

/// Where the encoding of a text is cut between characters, so is the text.
pub proof fn lemma_cut(text: Seq<char>, index: int, a: Seq<char>, b: Seq<char>)
    requires
        0 <= index <= encode_utf8(text).len(),
        encode_utf8(a) == encode_utf8(text).subrange(0, index),
        encode_utf8(b) == encode_utf8(text).subrange(index, encode_utf8(text).len() as int),
    ensures
        text == a + b,
{
    lemma_encode_utf8_append(a, b);
    assert(encode_utf8(text) =~= encode_utf8(a) + encode_utf8(b));
    lemma_encode_utf8_injective(text, a + b);
}

/// Every character takes one to four bytes.
pub proof fn lemma_encode_utf8_len(text: Seq<char>)
    ensures
        text.len() <= encode_utf8(text).len() <= 4 * text.len(),
    decreases text.len(),
{
    if text.len() > 0 {
        lemma_encode_utf8_len(text.drop_first());
    }
}

/// The number of a character as a `u32` is its number.
pub proof fn lemma_char_number(c: char)
    ensures
        '\0' <= c,
        c as u32 as int == c as int,
{
}

/// The first byte of a text is below 0x80 just where its first character is ASCII, and is then
/// that character.
pub proof fn lemma_first_byte(text: Seq<char>)
    requires
        text.len() > 0,
    ensures
        encode_utf8(text).len() > 0,
        encode_utf8(text)[0] < 0x80 <==> text[0] <= '\u{7f}',
        text[0] <= '\u{7f}' ==> encode_utf8(text)[0] == text[0] as u8,
        text[0] <= '\u{7f}' ==> encode_utf8(text).skip(1) == encode_utf8(text.drop_first()),
{
    encode_utf8_first_scalar(text);
    let scalar = text[0] as u32;
    lemma_char_number(text[0]);
    if scalar <= 0x7f {
        assert(scalar & 0x7f == scalar) by (bit_vector)
            requires
                scalar <= 0x7f,
        ;
        assert(encode_utf8(text).skip(1) =~= encode_utf8(text.drop_first()));
    } else {
        let byte = encode_utf8(text)[0];
        assert(byte & 0x7f <= 0x7f) by (bit_vector);
    }
}

/// Bytes below 0x80 are ASCII text.
pub proof fn lemma_ascii_bytes(text: Seq<char>)
    requires
        forall|i: int| 0 <= i < encode_utf8(text).len() ==> #[trigger] encode_utf8(text)[i] < 0x80,
    ensures
        is_ascii_chars(text),
    decreases text.len(),
{
    if text.len() > 0 {
        lemma_first_byte(text);
        let rest = text.drop_first();
        assert forall|i: int| 0 <= i < encode_utf8(rest).len() implies #[trigger] encode_utf8(
            rest,
        )[i] < 0x80 by {
            assert(encode_utf8(rest)[i] == encode_utf8(text)[i + 1]);
        }
        lemma_ascii_bytes(rest);
        assert forall|i: int| 0 <= i < text.len() implies '\0' <= #[trigger] text[i]
            <= '\u{7f}' by {
            if i > 0 {
                assert(text[i] == rest[i - 1]);
            } else {
                lemma_char_number(text[0]);
            }
        }
    }
}

/// A text may be cut before any byte below 0x80, and where it ends.
pub proof fn lemma_cut_before_ascii(text: Seq<char>, index: int)
    requires
        0 <= index <= encode_utf8(text).len(),
        index < encode_utf8(text).len() ==> encode_utf8(text)[index] < 0x80,
    ensures
        is_char_boundary(encode_utf8(text), index),
{
    encode_utf8_valid_utf8(text);
    if index < encode_utf8(text).len() {
        is_char_boundary_iff_not_is_continuation_byte(encode_utf8(text), index);
    } else {
        is_char_boundary_start_end_of_seq(encode_utf8(text));
    }
}

/// A text may be cut after any run of bytes below 0x80 at its start.
pub proof fn lemma_cut_after_ascii(text: Seq<char>, index: int)
    requires
        0 <= index <= encode_utf8(text).len(),
        forall|i: int| 0 <= i < index ==> #[trigger] encode_utf8(text)[i] < 0x80,
    ensures
        is_char_boundary(encode_utf8(text), index),
    decreases index,
{
    encode_utf8_valid_utf8(text);
    if index > 0 {
        lemma_first_byte(text);
        encode_utf8_first_scalar(text);
        let rest = text.drop_first();
        assert forall|i: int| 0 <= i < index - 1 implies #[trigger] encode_utf8(rest)[i]
            < 0x80 by {
            assert(encode_utf8(rest)[i] == encode_utf8(text)[i + 1]);
        }
        lemma_cut_after_ascii(rest, index - 1);
        assert(pop_first_scalar(encode_utf8(text)) =~= encode_utf8(rest));
    }
}

/// Where the first bytes of valid UTF-8 are valid UTF-8 too, they end between characters.
pub proof fn lemma_valid_prefix_is_boundary(bytes: Seq<u8>, index: int)
    requires
        0 <= index <= bytes.len(),
        valid_utf8(bytes),
        valid_utf8(bytes.take(index)),
    ensures
        is_char_boundary(bytes, index),
    decreases bytes.len(),
{
    if index > 0 {
        let n = length_of_first_scalar(bytes);
        let head = bytes.take(index);
        assert(length_of_first_scalar(head) == n);
        assert(pop_first_scalar(head) =~= pop_first_scalar(bytes).take(index - n));
        lemma_valid_prefix_is_boundary(pop_first_scalar(bytes), index - n);
    }
}

/// The encoding of a text may be cut after the bytes of any number of its characters.
pub proof fn lemma_char_cut(text: Seq<char>, count: int)
    requires
        0 <= count <= text.len(),
    ensures
        encode_utf8(text) == encode_utf8(text.take(count)) + encode_utf8(text.skip(count)),
        is_char_boundary(encode_utf8(text), encode_utf8(text.take(count)).len() as int),
{
    let a = text.take(count);
    let b = text.skip(count);
    let bytes = encode_utf8(text);
    assert(text =~= a + b);
    lemma_encode_utf8_append(a, b);
    encode_utf8_valid_utf8(text);
    encode_utf8_valid_utf8(a);
    assert(bytes.take(encode_utf8(a).len() as int) =~= encode_utf8(a));
    lemma_valid_prefix_is_boundary(bytes, encode_utf8(a).len() as int);
}

/// The longest run of ASCII characters at the start of a text.
pub open spec fn ascii_prefix(text: Seq<char>) -> Seq<char>
    decreases text.len(),
{
    if text.len() > 0 && text[0] <= '\u{7f}' {
        seq![text[0]] + ascii_prefix(text.drop_first())
    } else {
        seq![]
    }
}

/// Where a text is ASCII up to some place and not there, that is its ASCII prefix.
pub proof fn lemma_ascii_prefix(a: Seq<char>, b: Seq<char>)
    requires
        is_ascii_chars(a),
        b.len() > 0 ==> b[0] > '\u{7f}',
    ensures
        ascii_prefix(a + b) == a,
    decreases a.len(),
{
    if a.len() == 0 {
        assert(a + b =~= b);
        assert(a =~= seq![]);
    } else {
        lemma_ascii_prefix(a.drop_first(), b);
        assert((a + b).drop_first() =~= a.drop_first() + b);
        assert(a =~= seq![a[0]] + a.drop_first());
    }
}

/// The ASCII text at the start of a text is ASCII, and what follows it does not start with any.
pub proof fn lemma_ascii_prefix_is_prefix(text: Seq<char>)
    ensures
        ascii_prefix(text).is_prefix_of(text),
        is_ascii_chars(ascii_prefix(text)),
        text == ascii_prefix(text) + after_ascii(text),
    decreases text.len(),
{
    let lead = ascii_prefix(text);
    if text.len() > 0 && text[0] <= '\u{7f}' {
        let rest = text.drop_first();
        lemma_ascii_prefix_is_prefix(rest);
        lemma_char_number(text[0]);
        assert forall|i: int| 0 <= i < lead.len() implies lead[i] == text[i] && '\0' <= #[trigger] lead[i]
            <= '\u{7f}' by {
            if i > 0 {
                assert(lead[i] == ascii_prefix(rest)[i - 1]);
                assert(text[i] == rest[i - 1]);
            }
        }
    }
    assert(lead =~= text.take(lead.len() as int));
    assert(text =~= lead + after_ascii(text));
}

/// What follows the ASCII text at the start of a text.
pub open spec fn after_ascii(text: Seq<char>) -> Seq<char> {
    text.skip(ascii_prefix(text).len() as int)
}

} // verus!
