//! How a stream of bytes divides into text and an unfinished character.

use vstd::prelude::*;
use vstd::seq_lib::*;
use vstd::utf8::*;

use crate::output;
use crate::utf8_text;

verus! {

/// How many bytes the longest run of whole characters at the start takes, among the runs of at
/// most `limit` bytes.
pub open spec fn valid_prefix_len(bytes: Seq<u8>, limit: nat) -> nat
    decreases bytes.len(),
{
    if valid_first_scalar(bytes) && length_of_first_scalar(bytes) <= limit {
        let n = length_of_first_scalar(bytes);
        (n + valid_prefix_len(bytes.skip(n), (limit - n) as nat)) as nat
    } else {
        0
    }
}

/// The bytes are the start of the encoding of some character, and not all of it.
pub open spec fn is_incomplete(bytes: Seq<u8>) -> bool {
    &&& bytes.len() > 0
    &&& exists|c: char|
        {
            &&& bytes.len() < (#[trigger] encode_scalar(c as u32)).len()
            &&& bytes.is_prefix_of(encode_scalar(c as u32))
        }
}

/// The room that text is decoded into, in bytes.
pub const DECODE_ROOM: usize = 1024;

/// What a stream of bytes divides into.
pub struct Utf8Split {
    /// The text, in the pieces that it is decoded in.
    pub pieces: Seq<Seq<char>>,
    /// The bytes of the unfinished character at the end.
    pub pending: Seq<u8>,
    /// Whether the stream is text up to its end or up to an unfinished character.
    pub ok: bool,
}

/// Text is decoded in pieces that each leave less than 4 bytes of the room, but for the last one.
/// Where the stream turns out to be malformed, the text since the last full piece is dropped.
pub open spec fn split_utf8(stream: Seq<u8>) -> Utf8Split
    decreases stream.len(),
{
    let len = valid_prefix_len(stream, DECODE_ROOM as nat);
    let piece = output::one_piece(decode_utf8(stream.take(len as int)));
    let rest = stream.skip(len as int);
    if rest.len() == 0 {
        Utf8Split { pieces: piece, pending: seq![], ok: true }
    } else if DECODE_ROOM - len < 4 {
        proof {
            lemma_valid_prefix(stream, DECODE_ROOM as nat);
        }
        let more = split_utf8(rest);
        Utf8Split { pieces: piece + more.pieces, ..more }
    } else if is_incomplete(rest) {
        Utf8Split { pieces: piece, pending: rest, ok: true }
    } else {
        Utf8Split { pieces: seq![], pending: seq![], ok: false }
    }
}

/// A run of whole characters is valid UTF-8 within the limit.
pub proof fn lemma_valid_prefix(bytes: Seq<u8>, limit: nat)
    ensures
        valid_prefix_len(bytes, limit) <= bytes.len(),
        valid_prefix_len(bytes, limit) <= limit,
        valid_utf8(bytes.take(valid_prefix_len(bytes, limit) as int)),
    decreases bytes.len(),
{
    if valid_first_scalar(bytes) && length_of_first_scalar(bytes) <= limit {
        let n = length_of_first_scalar(bytes);
        let rest = bytes.skip(n);
        lemma_valid_prefix(rest, (limit - n) as nat);
        let whole = bytes.take(valid_prefix_len(bytes, limit) as int);
        assert(pop_first_scalar(whole) =~= rest.take(
            valid_prefix_len(rest, (limit - n) as nat) as int,
        ));
    }
}

/// After a run that leaves room for one more character no whole character follows.
pub proof fn lemma_valid_prefix_ends(bytes: Seq<u8>, limit: nat)
    requires
        valid_prefix_len(bytes, limit) + 4 <= limit,
    ensures
        !valid_first_scalar(bytes.skip(valid_prefix_len(bytes, limit) as int)),
    decreases bytes.len(),
{
    if valid_first_scalar(bytes) && length_of_first_scalar(bytes) <= limit {
        let n = length_of_first_scalar(bytes);
        let rest = bytes.skip(n);
        lemma_valid_prefix(rest, (limit - n) as nat);
        lemma_valid_prefix_ends(rest, (limit - n) as nat);
        assert(rest.skip(valid_prefix_len(rest, (limit - n) as nat) as int) =~= bytes.skip(
            valid_prefix_len(bytes, limit) as int,
        ));
    } else {
        assert(bytes.skip(0) =~= bytes);
    }
}

/// The first whole character after a run does not fit into the limit any more.
pub proof fn lemma_valid_prefix_is_full(bytes: Seq<u8>, limit: nat)
    ensures
        ({
            let rest = bytes.skip(valid_prefix_len(bytes, limit) as int);
            valid_first_scalar(rest) ==> valid_prefix_len(bytes, limit) + length_of_first_scalar(
                rest,
            ) > limit
        }),
    decreases bytes.len(),
{
    if valid_first_scalar(bytes) && length_of_first_scalar(bytes) <= limit {
        let n = length_of_first_scalar(bytes);
        let rest = bytes.skip(n);
        lemma_valid_prefix(rest, (limit - n) as nat);
        lemma_valid_prefix_is_full(rest, (limit - n) as nat);
        assert(rest.skip(valid_prefix_len(rest, (limit - n) as nat) as int) =~= bytes.skip(
            valid_prefix_len(bytes, limit) as int,
        ));
    } else {
        assert(bytes.skip(0) =~= bytes);
    }
}

/// Valid UTF-8 at the start belongs to the run.
pub proof fn lemma_valid_prefix_append(valid: Seq<u8>, bytes: Seq<u8>, limit: nat)
    requires
        valid_utf8(valid),
        valid.len() <= limit,
    ensures
        valid_prefix_len(valid + bytes, limit) == valid.len() + valid_prefix_len(
            bytes,
            (limit - valid.len()) as nat,
        ),
    decreases valid.len(),
{
    if valid.len() == 0 {
        assert(valid + bytes =~= bytes);
    } else {
        let n = length_of_first_scalar(valid);
        lemma_valid_prefix_append(pop_first_scalar(valid), bytes, (limit - n) as nat);
        assert((valid + bytes).skip(n) =~= pop_first_scalar(valid) + bytes);
    }
}

/// An unfinished character is no whole one.
pub proof fn lemma_incomplete(bytes: Seq<u8>)
    requires
        is_incomplete(bytes),
    ensures
        !valid_first_scalar(bytes),
        bytes.len() < 4,
{
    let c = choose|c: char|
        {
            &&& bytes.len() < (#[trigger] encode_scalar(c as u32)).len()
            &&& bytes.is_prefix_of(encode_scalar(c as u32))
        };
    encode_utf8_first_scalar(seq![c]);
    reveal_with_fuel(encode_utf8, 2);
    assert(encode_utf8(seq![c]) =~= encode_scalar(c as u32));
    assert(bytes[0] == encode_scalar(c as u32)[0]);
}

/// The text of two valid parts is that of the one followed by that of the other.
pub proof fn lemma_decode_utf8_append(a: Seq<u8>, b: Seq<u8>)
    requires
        valid_utf8(a),
        valid_utf8(b),
    ensures
        valid_utf8(a + b),
        decode_utf8(a + b) == decode_utf8(a) + decode_utf8(b),
{
    valid_utf8_concat(a, b);
    decode_utf8_encode_utf8(a);
    decode_utf8_encode_utf8(b);
    decode_utf8_encode_utf8(a + b);
    utf8_text::lemma_encode_utf8_append(decode_utf8(a), decode_utf8(b));
    utf8_text::lemma_encode_utf8_injective(decode_utf8(a + b), decode_utf8(a) + decode_utf8(b));
}

/// How many bytes of a stream are whole characters before anything else.
pub open spec fn text_len(stream: Seq<u8>) -> nat {
    valid_prefix_len(stream, stream.len())
}

/// A whole character follows no run that has no limit.
pub proof fn lemma_text_len(stream: Seq<u8>)
    ensures
        text_len(stream) <= stream.len(),
        valid_utf8(stream.take(text_len(stream) as int)),
        !valid_first_scalar(stream.skip(text_len(stream) as int)),
{
    lemma_valid_prefix(stream, stream.len());
    lemma_valid_prefix_limit(stream, stream.len(), stream.len() + 4);
    lemma_valid_prefix_ends(stream, stream.len() + 4);
}

/// A limit beyond the end is no limit.
proof fn lemma_valid_prefix_limit(bytes: Seq<u8>, limit: nat, other: nat)
    requires
        bytes.len() <= limit,
        bytes.len() <= other,
    ensures
        valid_prefix_len(bytes, limit) == valid_prefix_len(bytes, other),
    decreases bytes.len(),
{
    if valid_first_scalar(bytes) {
        let n = length_of_first_scalar(bytes);
        lemma_valid_prefix_limit(bytes.skip(n), (limit - n) as nat, (other - n) as nat);
    }
}

/// Valid UTF-8 in front of a stream is so much more text.
pub proof fn lemma_text_len_append(valid: Seq<u8>, stream: Seq<u8>)
    requires
        valid_utf8(valid),
    ensures
        text_len(valid + stream) == valid.len() + text_len(stream),
{
    lemma_valid_prefix_append(valid, stream, (valid + stream).len());
}

/// What a stream divides into, without regard to pieces: the whole characters at its start, if
/// nothing or an unfinished character follows them.
pub proof fn lemma_split_utf8(stream: Seq<u8>)
    ensures
        ({
            let split = split_utf8(stream);
            let rest = stream.skip(text_len(stream) as int);
            &&& split.ok <==> rest.len() == 0 || is_incomplete(rest)
            &&& split.ok ==> split.pending == rest && split.pieces.flatten() == decode_utf8(
                stream.take(text_len(stream) as int),
            )
            &&& !split.ok ==> split.pending.len() == 0
        }),
    decreases stream.len(),
{
    let len = valid_prefix_len(stream, DECODE_ROOM as nat);
    let head = stream.take(len as int);
    let rest = stream.skip(len as int);
    lemma_valid_prefix(stream, DECODE_ROOM as nat);
    assert(head + rest =~= stream);
    lemma_text_len_append(head, rest);
    lemma_text_len(rest);
    lemma_text_len(stream);
    output::lemma_one_piece(decode_utf8(head));
    assert(stream.skip(text_len(stream) as int) =~= rest.skip(text_len(rest) as int));
    assert(stream.take(text_len(stream) as int) =~= head + rest.take(text_len(rest) as int));
    lemma_decode_utf8_append(head, rest.take(text_len(rest) as int));
    if rest.len() == 0 {
    } else if DECODE_ROOM - len < 4 {
        lemma_split_utf8(rest);
        let more = split_utf8(rest);
        lemma_flatten_concat(output::one_piece(decode_utf8(head)), more.pieces);
    } else {
        lemma_valid_prefix_ends(stream, DECODE_ROOM as nat);
        assert(text_len(rest) == 0);
        assert(rest.skip(0) =~= rest);
    }
}

/// Valid UTF-8 at the start of a stream is text.
pub proof fn lemma_valid_is_text(stream: Seq<u8>, len: int)
    requires
        0 <= len <= stream.len(),
        valid_utf8(stream.take(len)),
    ensures
        len <= text_len(stream),
{
    assert(stream.take(len) + stream.skip(len) =~= stream);
    lemma_text_len_append(stream.take(len), stream.skip(len));
}

/// The bytes of the first character of a text.
pub open spec fn first_char_len(text: Seq<char>) -> nat {
    encode_utf8(text.take(1)).len()
}

/// The pieces of a stream in order: they are the text at its start, each fits into the room, and each
/// but the last leaves no room for the character that follows it. Of a malformed stream each piece
/// that is not dropped has all but filled the room, and what is dropped has not.
pub proof fn lemma_split_pieces(stream: Seq<u8>)
    ensures
        ({
            let split = split_utf8(stream);
            let pieces = split.pieces;
            let bytes = encode_utf8(pieces.flatten());
            &&& bytes.is_prefix_of(stream)
            &&& forall|i: int|
                0 <= i < pieces.len() ==> (#[trigger] pieces[i]).len() > 0 && encode_utf8(
                    pieces[i],
                ).len() <= DECODE_ROOM
            &&& forall|i: int, j: int|
                0 <= i && j == i + 1 && j < pieces.len() ==> encode_utf8(#[trigger] pieces[i]).len()
                    + first_char_len(#[trigger] pieces[j]) > DECODE_ROOM
            &&& split.ok ==> bytes.len() == text_len(stream)
            &&& !split.ok ==> bytes.len() <= text_len(stream) <= bytes.len() + DECODE_ROOM - 4
            &&& !split.ok ==> forall|i: int|
                0 <= i < pieces.len() ==> encode_utf8(#[trigger] pieces[i]).len() + 4 > DECODE_ROOM
        }),
    decreases stream.len(),
{
    let split = split_utf8(stream);
    let len = valid_prefix_len(stream, DECODE_ROOM as nat);
    let head = stream.take(len as int);
    let rest = stream.skip(len as int);
    let text = decode_utf8(head);
    let piece = output::one_piece(text);
    lemma_valid_prefix(stream, DECODE_ROOM as nat);
    decode_utf8_encode_utf8(head);
    output::lemma_one_piece(text);
    assert(head + rest =~= stream);
    lemma_text_len_append(head, rest);
    lemma_text_len(rest);
    if rest.len() == 0 {
    } else if DECODE_ROOM - len < 4 {
        let more = split_utf8(rest);
        let pieces = piece + more.pieces;
        lemma_split_pieces(rest);
        lemma_flatten_concat(piece, more.pieces);
        utf8_text::lemma_encode_utf8_append(text, more.pieces.flatten());
        let bytes = encode_utf8(pieces.flatten());
        assert(bytes =~= head + encode_utf8(more.pieces.flatten()));
        assert(bytes.is_prefix_of(stream));
        assert forall|i: int| 0 <= i < pieces.len() implies (#[trigger] pieces[i]).len() > 0
            && encode_utf8(pieces[i]).len() <= DECODE_ROOM by {
            if i >= piece.len() {
                assert(pieces[i] == more.pieces[i - piece.len()]);
            }
        }
        assert forall|i: int, j: int|
            0 <= i && j == i + 1 && j < pieces.len() implies encode_utf8(#[trigger] pieces[i]).len()
            + first_char_len(#[trigger] pieces[j]) > DECODE_ROOM by {
            assert(pieces[j] == more.pieces[j - piece.len()]);
            if i >= piece.len() {
                assert(pieces[i] == more.pieces[i - piece.len()]);
            } else {
                let next = more.pieces[0];
                assert(more.pieces =~= seq![next] + more.pieces.drop_first());
                utf8_text::lemma_encode_utf8_append(next, more.pieces.drop_first().flatten());
                lemma_first_char(next, rest);
                lemma_valid_prefix_is_full(stream, DECODE_ROOM as nat);
            }
        }
        if !split.ok {
            assert forall|i: int| 0 <= i < pieces.len() implies encode_utf8(
                #[trigger] pieces[i],
            ).len() + 4 > DECODE_ROOM by {
                if i >= piece.len() {
                    assert(pieces[i] == more.pieces[i - piece.len()]);
                }
            }
        }
    } else {
        lemma_valid_prefix_ends(stream, DECODE_ROOM as nat);
        assert(text_len(rest) == 0);
    }
}

/// Where a text that is not empty is encoded at the start of some bytes, the first whole character
/// there is the first character of the text.
proof fn lemma_first_char(text: Seq<char>, bytes: Seq<u8>)
    requires
        text.len() > 0,
        encode_utf8(text).is_prefix_of(bytes),
    ensures
        valid_first_scalar(bytes),
        length_of_first_scalar(bytes) == first_char_len(text),
{
    let encoded = encode_utf8(text);
    encode_utf8_first_scalar(text);
    reveal_with_fuel(encode_utf8, 2);
    assert(text.take(1).drop_first() =~= seq![]);
    assert(encode_utf8(text.take(1)) =~= encode_scalar(text[0] as u32));
    assert(bytes[0] == encoded[0]);
    let n = length_of_first_scalar(encoded);
    assert(n >= 2 ==> bytes[1] == encoded[1]);
    assert(n >= 3 ==> bytes[2] == encoded[2]);
    assert(n >= 4 ==> bytes[3] == encoded[3]);
}

/// An unfinished character, or nothing, stays pending.
pub proof fn lemma_split_pending(pending: Seq<u8>)
    requires
        pending.len() == 0 || is_incomplete(pending),
    ensures
        split_utf8(pending) == (Utf8Split { pieces: seq![], pending, ok: true }),
{
    if pending.len() > 0 {
        lemma_incomplete(pending);
    }
    assert(pending.take(0) =~= seq![]);
    assert(pending.skip(0) =~= pending);
    assert(output::one_piece(decode_utf8(pending.take(0))) =~= seq![]);
}

} // verus!
