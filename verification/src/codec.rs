//! The character encodings, encoders and decoders of `encoding_rs`, and what this crate relies on
//! of them.

use encoding_rs::{Decoder, Encoder, Encoding};
use vstd::prelude::*;
use vstd::string::*;
use vstd::utf8::*;

use crate::utf8_stream;
use crate::utf8_text;

verus! {

/// `encoding_rs::Encoding`, a character encoding.
#[verifier::external_type_specification]
#[verifier::external_body]
pub struct ExEncoding(Encoding);

/// `encoding_rs::Encoder`, which turns text into bytes.
#[verifier::external_type_specification]
#[verifier::external_body]
pub struct ExEncoder(Encoder);

/// `encoding_rs::Decoder`, which turns bytes into text and keeps an unfinished character between
/// calls.
#[verifier::external_type_specification]
#[verifier::external_body]
pub struct ExDecoder(Decoder);

/// What an encoding holds: the bytes that its encoder writes for each character.
pub uninterp spec fn encoding_table(encoding: Encoding) -> Map<char, Seq<u8>>;

/// Whether the ASCII characters and the bytes below 0x80 stand for each other in an encoding.
pub uninterp spec fn ascii_compatible(encoding: Encoding) -> bool;

/// What an encoder holds: the bytes that it writes for each character, which is one and the same
/// for all of the text where the encoding is compatible with ASCII.
pub uninterp spec fn encoder_table(encoder: Encoder) -> Map<char, Seq<u8>>;

/// Whether an encoder is in a state in which it would have to write something more at the end of the
/// text.
pub uninterp spec fn encoder_has_state(encoder: Encoder) -> bool;

/// The table of UTF-8, which writes every character as itself.
pub open spec fn utf8_table() -> Map<char, Seq<u8>> {
    Map::new(|c: char| true, |c: char| encode_scalar(c as u32))
}

/// The bytes for each character of a text in turn.
pub open spec fn encode_text(table: Map<char, Seq<u8>>, text: Seq<char>) -> Seq<u8>
    decreases text.len(),
{
    if text.len() == 0 {
        seq![]
    } else {
        table[text[0]] + encode_text(table, text.drop_first())
    }
}

/// A table that writes something for every character, and each ASCII character as one byte of
/// the same value.
pub open spec fn extends_ascii(table: Map<char, Seq<u8>>) -> bool {
    &&& forall|c: char| #[trigger] table.contains_key(c) && table[c].len() > 0
    &&& forall|c: char| c <= '\u{7f}' ==> #[trigger] table[c] == seq![c as u8]
}

/// A number in decimal digits.
pub open spec fn decimal(number: nat) -> Seq<u8>
    decreases number,
{
    let digit = (0x30 + number % 10) as u8;
    if number < 10 {
        seq![digit]
    } else {
        decimal(number / 10).push(digit)
    }
}

/// The numeric character reference that stands for a character, such as `&#8364;`.
pub open spec fn numeric_reference(c: char) -> Seq<u8> {
    seq![0x26u8, 0x23u8] + decimal(c as nat) + seq![0x3bu8]
}

/// A character that a table has no bytes of its own for, so that a reference is written for it.
pub open spec fn lacks(table: Map<char, Seq<u8>>, c: char) -> bool {
    table[c] == numeric_reference(c)
}

/// Whether there is a character in a text that a table lacks.
pub open spec fn lacks_some(table: Map<char, Seq<u8>>, text: Seq<char>) -> bool {
    exists|i: int| 0 <= i < text.len() && lacks(table, #[trigger] text[i])
}

/// A table that writes one to four bytes for each character that it has, and a numeric character
/// reference for each that it lacks.
pub open spec fn refers_to_missing(table: Map<char, Seq<u8>>) -> bool {
    forall|c: char| 0 < (#[trigger] table[c]).len() <= 4 || lacks(table, c)
}

/// Encoding a text in two parts, one after the other, gives the bytes of the whole.
pub proof fn lemma_encode_text_append(table: Map<char, Seq<u8>>, a: Seq<char>, b: Seq<char>)
    ensures
        encode_text(table, a + b) == encode_text(table, a) + encode_text(table, b),
    decreases a.len(),
{
    if a.len() == 0 {
        assert(a + b =~= b);
    } else {
        assert((a + b).drop_first() =~= a.drop_first() + b);
        lemma_encode_text_append(table, a.drop_first(), b);
    }
}

/// Encoding with the table of UTF-8 is UTF-8 encoding.
pub proof fn lemma_encode_text_utf8(text: Seq<char>)
    ensures
        encode_text(utf8_table(), text) == encode_utf8(text),
    decreases text.len(),
{
    if text.len() > 0 {
        lemma_encode_text_utf8(text.drop_first());
    }
}

/// A table that extends ASCII writes ASCII text as UTF-8 does.
pub proof fn lemma_encode_text_ascii(table: Map<char, Seq<u8>>, text: Seq<char>)
    requires
        extends_ascii(table),
        is_ascii_chars(text),
    ensures
        encode_text(table, text) == encode_utf8(text),
    decreases text.len(),
{
    if text.len() > 0 {
        let c = text[0];
        let scalar = c as u32;
        assert(scalar & 0x7f == scalar) by (bit_vector)
            requires
                scalar <= 0x7f,
        ;
        assert(table[c] =~= encode_scalar(scalar));
        lemma_encode_text_ascii(table, text.drop_first());
    }
}

/// A table that extends ASCII writes at least one byte for each character.
pub proof fn lemma_encode_text_len(table: Map<char, Seq<u8>>, text: Seq<char>)
    requires
        extends_ascii(table),
    ensures
        text.len() <= encode_text(table, text).len(),
    decreases text.len(),
{
    if text.len() > 0 {
        assert(table.contains_key(text[0]));
        lemma_encode_text_len(table, text.drop_first());
    }
}

/// UTF-8 extends ASCII and has every character.
pub proof fn lemma_utf8_extends_ascii()
    ensures
        extends_ascii(utf8_table()),
        refers_to_missing(utf8_table()),
{
    let table = utf8_table();
    assert forall|c: char| c <= '\u{7f}' implies #[trigger] table[c] == seq![c as u8] by {
        let scalar = c as u32;
        utf8_text::lemma_char_number(c);
        assert(scalar & 0x7f == scalar) by (bit_vector)
            requires
                scalar <= 0x7f,
        ;
        assert(table[c] =~= seq![c as u8]);
    }
}

/// At most so many bytes of its room does an encoder leave when it asks for more: 10 that it keeps
/// for a numeric character reference, and less than the 4 that a character takes at most.
pub const ENCODER_SLACK: usize = 13;

/// How a call of an encoder ended.
#[derive(Debug, Clone, Copy, PartialEq, Eq, Structural)]
pub enum EncodeStatus {
    /// All of the input was read.
    InputEmpty,
    /// More room in the output is needed before more of the input can be read.
    OutputFull,
}

/// `Encoding::is_ascii_compatible` says whether an encoding is compatible with ASCII. It is so of
/// all of them but the replacement encoding, UTF-16BE, UTF-16LE and ISO-2022-JP.
pub assume_specification[ Encoding::is_ascii_compatible ](encoding: &'static Encoding) -> (res: bool)
    ensures
        res == ascii_compatible(*encoding),
;

/// `==` of `Encoding` with `encoding_rs::UTF_8` on the other side. Each encoding exists once, so
/// this holds of UTF-8 alone. Its table is that of UTF-8. So is that of UTF-16BE, UTF-16LE and the
/// replacement encoding, whose encoders write UTF-8, but of no other that is compatible with ASCII.
#[verifier::external_body]
pub(crate) fn is_utf8(encoding: &'static Encoding) -> (res: bool)
    ensures
        res ==> encoding_table(*encoding) == utf8_table(),
        !res && ascii_compatible(*encoding) ==> encoding_table(*encoding) != utf8_table(),
{
    encoding == encoding_rs::UTF_8
}

/// `Encoding::new_encoder` makes an encoder that writes what the encoding holds, and is in no state
/// in which it would have to write something more at the end of the text. An encoding that
/// is compatible with ASCII writes an ASCII character as the one byte of the same value. Of the other
/// characters it writes those that it has as one to four bytes, and those that it lacks as a decimal
/// numeric character reference.
pub assume_specification[ Encoding::new_encoder ](encoding: &'static Encoding) -> (res: Encoder)
    ensures
        encoder_table(res) == encoding_table(*encoding),
        !encoder_has_state(res),
        ascii_compatible(*encoding) ==> extends_ascii(encoder_table(res)) && refers_to_missing(
            encoder_table(res),
        ),
;

/// So many characters from the start of a text, or all of them where there are not so many.
pub open spec fn first_chars(text: Seq<char>, count: nat) -> Seq<char> {
    if count < text.len() {
        text.take(count as int)
    } else {
        text
    }
}

/// `Encoder::has_pending_state` says whether an encoder would have to write something more at the end
/// of the text. Only an encoder of ISO-2022-JP ever would.
pub assume_specification[ Encoder::has_pending_state ](encoder: &Encoder) -> (res: bool)
    ensures
        res == encoder_has_state(*encoder),
;

/// How many characters an encoder with this table reads from the start of a text before it asks for
/// more room than `room` bytes, or ends because it has read them all.
pub uninterp spec fn encoder_reads(
    table: Map<char, Seq<u8>>,
    text: Seq<char>,
    room: nat,
) -> nat;

/// `Encoder::encode_from_utf8` encodes characters from the start of `src` while it finds room for
/// them in `dst`. It gives back how it ended, how many bytes of `src` it read, how many bytes of
/// `dst` it wrote, and whether it met a character that the encoding lacks:
/// - it reads as many whole characters as [`encoder_reads`] says, which rests on the encoding, on
///   the text and on the length of `dst` alone;
/// - it writes for them what the encoder holds, one after the other;
/// - it ends with `InputEmpty` just where it has read all of `src`;
/// - it ends with `OutputFull` only where it has left no more than [`ENCODER_SLACK`] bytes of
///   `dst`;
/// - it keeps no state that would change what is written for later text or at its end, so that
///   `last` makes no difference.
///
/// What it leaves in `dst` behind the bytes written is left open.
#[verifier::external_body]
pub(crate) fn encode_from_utf8(encoder: &mut Encoder, src: &str, dst: &mut [u8], last: bool) -> (res: (
    EncodeStatus,
    usize,
    usize,
    bool,
))
    requires
        extends_ascii(encoder_table(*old(encoder))),
    ensures
        encoder_table(*final(encoder)) == encoder_table(*old(encoder)),
        !encoder_has_state(*final(encoder)),
        final(dst)@.len() == old(dst)@.len(),
        ({
            let table = encoder_table(*old(encoder));
            let part = first_chars(src@, encoder_reads(table, src@, old(dst)@.len()));
            &&& res.0 == if part.len() == src@.len() {
                EncodeStatus::InputEmpty
            } else {
                EncodeStatus::OutputFull
            }
            &&& res.1 == encode_utf8(part).len()
            &&& res.2 <= old(dst)@.len()
            &&& final(dst)@.take(res.2 as int) == encode_text(table, part)
            &&& res.0 == EncodeStatus::OutputFull ==> old(dst)@.len() <= res.2 + ENCODER_SLACK
            &&& res.3 <==> lacks_some(table, part)
        }),
{
    let (result, read, written, had_unmappables) = encoder.encode_from_utf8(src, dst, last);
    let status = match result {
        encoding_rs::CoderResult::InputEmpty => EncodeStatus::InputEmpty,
        encoding_rs::CoderResult::OutputFull => EncodeStatus::OutputFull,
    };
    (status, read, written, had_unmappables)
}

/// `Encoding::ascii_valid_up_to` finds the first byte that is not ASCII: it gives back the index of
/// that byte, or the length where there is none.
pub assume_specification[ Encoding::ascii_valid_up_to ](bytes: &[u8]) -> (res: usize)
    ensures
        res <= bytes@.len(),
        forall|i: int| 0 <= i < res ==> #[trigger] bytes@[i] < 0x80,
        res < bytes@.len() ==> bytes@[res as int] >= 0x80,
;

/// The bytes of an unfinished character that a UTF-8 decoder holds.
pub uninterp spec fn decoder_pending(decoder: Decoder) -> Seq<u8>;

/// Whether a decoder decodes UTF-8, does not look for a byte order mark and may be handed more
/// bytes.
pub uninterp spec fn decoder_open(decoder: Decoder) -> bool;

/// How a call of a decoder ended.
#[derive(Debug, Clone, Copy, PartialEq, Eq, Structural)]
pub enum DecodeStatus {
    /// All of the input was read.
    InputEmpty,
    /// More room in the output is needed before more of the input can be read.
    OutputFull,
    /// The input does not go on as UTF-8.
    Malformed,
}

/// How a UTF-8 decoder that may write `room` bytes ends on a stream of bytes, where `last` says
/// that nothing follows the stream.
pub open spec fn decode_status(stream: Seq<u8>, room: nat, last: bool) -> DecodeStatus {
    let len = utf8_stream::valid_prefix_len(stream, room);
    if len == stream.len() {
        DecodeStatus::InputEmpty
    } else if room - len < 4 {
        DecodeStatus::OutputFull
    } else if !last && utf8_stream::is_incomplete(stream.skip(len as int)) {
        DecodeStatus::InputEmpty
    } else {
        DecodeStatus::Malformed
    }
}

/// `Encoding::new_decoder_without_bom_handling` on `encoding_rs::UTF_8` makes a decoder for UTF-8
/// that treats a byte order mark as any other character. It has read nothing yet.
#[verifier::external_body]
pub(crate) fn new_utf8_decoder() -> (res: Decoder)
    ensures
        decoder_open(res),
        decoder_pending(res) == Seq::<u8>::empty(),
{
    encoding_rs::UTF_8.new_decoder_without_bom_handling()
}

/// `Decoder::decode_to_str_without_replacement`, on a UTF-8 decoder, goes on with the bytes `src`
/// after those of the unfinished character that the decoder holds, and gives back how it ended, how
/// many bytes of `src` it read and how many bytes of `dst` it wrote:
/// - it writes the longest run of whole characters that the bytes start with and `dst` has room
///   for, and leaves the length of `dst` as it is;
/// - it ends as [`decode_status`] says;
/// - where it ends with `InputEmpty` it has read all of `src`, and the decoder now holds what
///   follows that run; where it ends with `OutputFull` it has read up to the end of that run;
/// - where it ends otherwise the decoder holds nothing any more;
/// - it may be called again, unless `last` was set and there was room.
///
/// With less than 4 bytes of room it may never get on, and after the end of the input it panics;
/// both are left out here. How much of `src` is read before it ends with `Malformed` is left open,
/// as is what it leaves in `dst` behind the bytes written.
#[verifier::external_body]
pub(crate) fn decode_to_str_without_replacement(
    decoder: &mut Decoder,
    src: &[u8],
    dst: &mut String,
    last: bool,
) -> (res: (DecodeStatus, usize, usize))
    requires
        decoder_open(*old(decoder)),
        encode_utf8(old(dst)@).len() >= 4,
    ensures
        ({
            let pending = decoder_pending(*old(decoder));
            let stream = pending + src@;
            let room = encode_utf8(old(dst)@).len();
            let len = utf8_stream::valid_prefix_len(stream, room);
            &&& res.0 == decode_status(stream, room, last)
            &&& res.0 == DecodeStatus::InputEmpty ==> res.1 == src@.len()
            &&& res.0 == DecodeStatus::OutputFull ==> res.1 + pending.len() == len
            &&& res.1 <= src@.len()
            &&& res.2 == len
            &&& encode_utf8(final(dst)@).len() == room
            &&& encode_utf8(final(dst)@).take(len as int) == stream.take(len as int)
            &&& decoder_pending(*final(decoder)) == if res.0 == DecodeStatus::InputEmpty {
                stream.skip(len as int)
            } else {
                Seq::<u8>::empty()
            }
            &&& !last || res.0 == DecodeStatus::OutputFull ==> decoder_open(*final(decoder))
        }),
{
    let (result, read, written) = decoder.decode_to_str_without_replacement(src, dst, last);
    let status = match result {
        encoding_rs::DecoderResult::InputEmpty => DecodeStatus::InputEmpty,
        encoding_rs::DecoderResult::OutputFull => DecodeStatus::OutputFull,
        encoding_rs::DecoderResult::Malformed(_, _) => DecodeStatus::Malformed,
    };
    (status, read, written)
}

/// `str::repeat` joins `n` copies of a string. It panics where the bytes would be more than a
/// string can hold.
pub assume_specification[ str::repeat ](s: &str, n: usize) -> (res: String)
    requires
        s.spec_bytes().len() * n <= isize::MAX,
    ensures
        res@.len() == s@.len() * n,
        forall|i: int| 0 <= i < res@.len() ==> #[trigger] res@[i] == s@[i % (s@.len() as int)],
;

} // verus!
