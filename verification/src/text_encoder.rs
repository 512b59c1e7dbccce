//! Encoding of text into encodings other than UTF-8.

use encoding_rs::{Encoder, Encoding};
use vstd::prelude::*;
use vstd::seq_lib::*;
use vstd::slice::slice_subrange;
use vstd::string::*;
use vstd::utf8::*;

use crate::codec;
use crate::codec::{EncodeStatus, ENCODER_SLACK};
use crate::output;
use crate::output::OutputChunks;
use crate::utf8_text;

verus! {

/// How many bytes are encoded at a time without use of the heap.
pub const STACK_ROOM: usize = 63;

/// How many bytes are encoded at a time once that has turned out too little.
pub const HEAP_ROOM: usize = 1024;

/// How many bytes are encoded at a time of long content.
pub const LONG_ROOM: usize = 4096;

/// From how many bytes on content counts as long.
pub const LONG: usize = 1048576;

/// Where encoded bytes are put before they are handed on.
enum Buffer {
    Heap(Vec<u8>),
    Stack([u8; 63]),
}

/// Encodes text into one encoding, chunk by chunk.
pub struct TextEncoder {
    encoder: Encoder,
    buffer: Buffer,
}

impl Buffer {
    /// How many bytes the buffer has room for.
    spec fn room(&self) -> nat {
        match self {
            Buffer::Heap(buf) => buf@.len(),
            Buffer::Stack(_) => STACK_ROOM as nat,
        }
    }
}

impl TextEncoder {
    /// The bytes that each character is written as.
    pub closed spec fn table(&self) -> Map<char, Seq<u8>> {
        codec::encoder_table(self.encoder)
    }

    /// How many bytes are encoded at a time.
    pub closed spec fn room(&self) -> nat {
        self.buffer.room()
    }

    /// Whether the buffer is on the heap.
    pub closed spec fn on_heap(&self) -> bool {
        self.buffer is Heap
    }

    /// Whether something more would have to be written at the end of the text.
    pub closed spec fn has_pending_state(&self) -> bool {
        codec::encoder_has_state(self.encoder)
    }

    /// The encoding extends ASCII and is not UTF-8, the encoder has no state, and the buffer has one
    /// of three sizes.
    pub closed spec fn wf(&self) -> bool {
        &&& codec::extends_ascii(self.table())
        &&& codec::refers_to_missing(self.table())
        &&& self.table() != codec::utf8_table()
        &&& !self.has_pending_state()
        &&& self.buffer is Stack || self.room() == HEAP_ROOM || self.room() == LONG_ROOM
    }

    /// The encoding extends ASCII, a reference is written for what it lacks, and it is not UTF-8.
    pub proof fn lemma_table(&self)
        requires
            self.wf(),
        ensures
            codec::extends_ascii(self.table()),
            codec::refers_to_missing(self.table()),
            self.table() != codec::utf8_table(),
    {
    }

    /// The buffer is the one on the stack or has one of two sizes on the heap, and nothing more would
    /// have to be written at the end of the text.
    pub proof fn lemma_buffer(&self)
        requires
            self.wf(),
        ensures
            self.room() == STACK_ROOM || self.room() == HEAP_ROOM || self.room() == LONG_ROOM,
            self.on_heap() <==> self.room() != STACK_ROOM,
            !self.has_pending_state(),
    {
    }

    /// An encoder into `encoding`, which is not UTF-8 and is compatible with ASCII.
    pub fn new(encoding: &'static Encoding) -> (res: Self)
        requires
            codec::ascii_compatible(*encoding),
            codec::encoding_table(*encoding) != codec::utf8_table(),
        ensures
            res.wf(),
            res.table() == codec::encoding_table(*encoding),
            res.room() == STACK_ROOM,
            !res.on_heap(),
            !res.has_pending_state(),
    {
        TextEncoder { encoder: encoding.new_encoder(), buffer: Buffer::Stack([0; 63]) }
    }

    /// Hands on `content` in this encoding.
    ///
    /// ASCII text at its start is a chunk of its own. As much of the rest as the buffer has room for
    /// is the next chunk, and what is left is handed on in the same way. The buffer starts out small
    /// and without use of the heap, and grows once: when it turns out too small, or when much is left
    /// after the ASCII text at the start.
    #[verifier::rlimit(30)]
    pub fn encode(&mut self, content: &str, output_handler: &mut OutputChunks)
        requires
            old(self).wf(),
        ensures
            encoded(*old(self), content@, *final(self)),
            final(self).table() == old(self).table(),
            old(output_handler)@.is_prefix_of(final(output_handler)@),
            final(output_handler)@.flatten() == old(output_handler)@.flatten() + codec::encode_text(
                old(self).table(),
                content@,
            ),
            final(output_handler)@ == old(output_handler)@ + output::encode_parts(
                old(self).table(),
                cut_pieces(old(self).table(), old(self).room(), content@),
            ),
            chunks_fit(old(output_handler)@.len(), final(output_handler)@, final(self).room()),
            cut_only_when_full(old(self).table(), old(self).room(), content@),
    {
        let ghost table = self.table();
        let ghost room = self.room();
        let ghost before = output_handler@;
        let ghost pieces = cut_pieces(table, room, content@);
        let ghost mut done = Seq::<Seq<char>>::empty();
        let mut remaining = content;
        proof {
            assert(done + pieces =~= pieces);
            assert(before + output::encode_parts(table, done) =~= before);
        }
        loop
            invariant
                self.wf(),
                self.table() == table,
                table == old(self).table(),
                room == old(self).room(),
                before == old(output_handler)@,
                pieces == cut_pieces(table, room, content@),
                pieces == done + cut_pieces(table, self.room(), remaining@),
                output_handler@ == before + output::encode_parts(table, done),
                chunks_fit(before.len(), output_handler@, self.room()),
                done.len() == 0 ==> remaining@ == content@ && self.room() == room,
                done.len() > 0 ==> {
                    &&& self.room() != STACK_ROOM
                    &&& self.room() == room_after(table, room, content@)
                    &&& room_follows(table, content@, room, self.room())
                    &&& cut_only_when_full(table, room, content@)
                },
            decreases remaining@.len(),
        {
            let ghost text = remaining@;
            let ghost first = done.len() == 0;
            let _has_state = self.encoder.has_pending_state();
            // An encoding that is compatible with ASCII needs nothing more at the end of the text.
            assert(!_has_state);
            let ascii_len: usize = Encoding::ascii_valid_up_to(remaining.as_bytes());
            proof {
                utf8_text::lemma_cut_after_ascii(text, ascii_len as int);
            }
            let (ascii, remainder) = remaining.split_at(ascii_len);
            proof {
                lemma_ascii_cut(text, ascii_len as int, ascii@, remainder@);
                codec::lemma_encode_text_ascii(table, ascii@);
                assert(utf8_text::after_ascii(text) =~= remainder@);
            }
            if !ascii.is_empty() {
                output_handler.push(ascii.as_bytes());
                proof {
                    lemma_push_part(table, before, done, ascii@);
                    done = done.push(ascii@);
                }
            }
            assert(output_handler@ == before + output::encode_parts(table, done));
            assert(chunks_fit(before.len(), output_handler@, self.room()));
            if remainder.is_empty() {
                proof {
                    assert(done =~= pieces);
                    lemma_all_handed_on(table, room, content@, before);
                }
                return ;
            }
            remaining = remainder;
            if remaining.as_bytes().len() >= LONG {
                // Long content would take many rounds through a small buffer.
                if let Buffer::Stack(_) = self.buffer {
                    self.buffer = Buffer::Heap(vec![0; LONG_ROOM]);
                }
            }
            assert(self.room() == working_room(if first { room } else { self.room() }, remaining@));
            let buffer: &mut [u8] = match &mut self.buffer {
                Buffer::Heap(buf) => buf.as_mut_slice(),
                Buffer::Stack(buf) => buf,
            };
            let (result, read, written, _) = codec::encode_from_utf8(
                &mut self.encoder,
                remaining,
                buffer,
                false,
            );
            let ghost count = codec::first_chars(
                remaining@,
                codec::encoder_reads(table, remaining@, buffer@.len()),
            ).len();
            proof {
                utf8_text::lemma_char_cut(remaining@, count as int);
            }
            let (part, unread) = remaining.split_at(read);
            proof {
                lemma_parts_of_cut(remaining@, count as int, part@, unread@);
                codec::lemma_encode_text_len(table, part@);
                codec::lemma_encode_text_append(table, part@, unread@);
            }
            if written > 0 && written <= buffer.len() {
                output_handler.push(slice_subrange(buffer, 0, written));
                proof {
                    assert(buffer@.subrange(0, written as int) =~= buffer@.take(written as int));
                    lemma_push_part(table, before, done, part@);
                    done = done.push(part@);
                }
            }
            if read >= remaining.as_bytes().len() {
                proof {
                    assert(done =~= pieces);
                    lemma_all_handed_on(table, room, content@, before);
                }
                return ;
            }
            remaining = unread;
            if let EncodeStatus::OutputFull = result {
                let small = match &self.buffer {
                    Buffer::Heap(buf) => buf.len() < HEAP_ROOM,
                    Buffer::Stack(_) => true,
                };
                if small {
                    self.buffer = Buffer::Heap(vec![0; HEAP_ROOM]);
                }
            }
        }
    }
}

/// Cutting a text after the last of the bytes below 0x80 at its start parts its ASCII prefix from
/// the rest.
proof fn lemma_ascii_cut(text: Seq<char>, index: int, ascii: Seq<char>, rest: Seq<char>)
    requires
        0 <= index <= encode_utf8(text).len(),
        forall|i: int| 0 <= i < index ==> #[trigger] encode_utf8(text)[i] < 0x80,
        index < encode_utf8(text).len() ==> encode_utf8(text)[index] >= 0x80,
        encode_utf8(ascii) == encode_utf8(text).subrange(0, index),
        encode_utf8(rest) == encode_utf8(text).subrange(index, encode_utf8(text).len() as int),
    ensures
        text == ascii + rest,
        is_ascii_chars(ascii),
        utf8_text::ascii_prefix(text) == ascii,
        is_ascii_bytes(encode_utf8(ascii)),
        rest.len() > 0 ==> rest[0] > '\u{7f}',
{
    utf8_text::lemma_cut(text, index, ascii, rest);
    assert forall|i: int| 0 <= i < encode_utf8(ascii).len() implies #[trigger] encode_utf8(ascii)[i]
        < 0x80 by {
        assert(encode_utf8(ascii)[i] == encode_utf8(text)[i]);
    }
    utf8_text::lemma_ascii_bytes(ascii);
    if rest.len() > 0 {
        utf8_text::lemma_first_byte(rest);
    }
    utf8_text::lemma_ascii_prefix(ascii, rest);
}

/// The two parts of a text that its encoding is cut into after some of its characters.
proof fn lemma_parts_of_cut(text: Seq<char>, count: int, part: Seq<char>, rest: Seq<char>)
    requires
        0 <= count <= text.len(),
        encode_utf8(part) == encode_utf8(text).subrange(0, encode_utf8(text.take(count)).len() as int),
        encode_utf8(rest) == encode_utf8(text).subrange(
            encode_utf8(text.take(count)).len() as int,
            encode_utf8(text).len() as int,
        ),
    ensures
        part == text.take(count),
        rest == text.skip(count),
        text == part + rest,
        rest.len() == 0 <==> encode_utf8(text.take(count)).len() == encode_utf8(text).len(),
{
    utf8_text::lemma_char_cut(text, count);
    let at = encode_utf8(text.take(count)).len() as int;
    assert(encode_utf8(text).subrange(0, at) =~= encode_utf8(text.take(count)));
    assert(encode_utf8(text).subrange(at, encode_utf8(text).len() as int) =~= encode_utf8(
        text.skip(count),
    ));
    utf8_text::lemma_encode_utf8_injective(part, text.take(count));
    utf8_text::lemma_encode_utf8_injective(rest, text.skip(count));
    utf8_text::lemma_encode_utf8_len(rest);
    assert(text =~= part + rest);
}

/// One more part is one more chunk.
proof fn lemma_push_part(
    table: Map<char, Seq<u8>>,
    before: Seq<Seq<u8>>,
    done: Seq<Seq<char>>,
    part: Seq<char>,
)
    ensures
        (before + output::encode_parts(table, done)).push(codec::encode_text(table, part)) == before
            + output::encode_parts(table, done.push(part)),
{
    assert(output::encode_parts(table, done.push(part)) =~= output::encode_parts(table, done).push(
        codec::encode_text(table, part),
    ));
}

/// The room that is used for what follows the ASCII text at the start: that of the small buffer
/// only where not much follows.
pub open spec fn working_room(room: nat, rest: Seq<char>) -> nat {
    if room == STACK_ROOM && encode_utf8(rest).len() >= LONG {
        LONG_ROOM as nat
    } else {
        room
    }
}

/// The room that is used after the buffer has been full once.
pub open spec fn grown_room(room: nat) -> nat {
    if room < HEAP_ROOM {
        HEAP_ROOM as nat
    } else {
        room
    }
}

/// Going from the encoder `before` to the encoder `after` hands on a text: the encoding stays, and the
/// buffer grows as the text asks for.
pub open spec fn encoded(before: TextEncoder, text: Seq<char>, after: TextEncoder) -> bool {
    &&& after.wf()
    &&& after.table() == before.table()
    &&& after.room() == room_after(before.table(), before.room(), text)
    &&& room_follows(before.table(), text, before.room(), after.room())
}

/// The pieces that a text is handed on in, one to a chunk: the ASCII text at its start, as much of
/// the rest as the encoder reads before the buffer is full, and what follows in the same way.
pub open spec fn cut_pieces(table: Map<char, Seq<u8>>, room: nat, text: Seq<char>) -> Seq<Seq<char>>
    decreases text.len(),
{
    let lead = output::one_piece(utf8_text::ascii_prefix(text));
    let rest = utf8_text::after_ascii(text);
    let now = working_room(room, rest);
    let count = codec::encoder_reads(table, rest, now);
    if 0 < count < rest.len() {
        proof {
            utf8_text::lemma_ascii_prefix_is_prefix(text);
        }
        lead + seq![rest.take(count as int)] + cut_pieces(
            table,
            grown_room(now),
            rest.skip(count as int),
        )
    } else {
        lead + output::one_piece(rest)
    }
}

/// The room after a text was handed on.
pub open spec fn room_after(table: Map<char, Seq<u8>>, room: nat, text: Seq<char>) -> nat {
    let rest = utf8_text::after_ascii(text);
    let now = working_room(room, rest);
    if rest.len() == 0 {
        room
    } else if codec::encoder_reads(table, rest, now) < rest.len() {
        grown_room(now)
    } else {
        now
    }
}

/// Cutting a text makes pieces of it, none of them empty.
pub proof fn lemma_cut_pieces(table: Map<char, Seq<u8>>, room: nat, text: Seq<char>)
    ensures
        output::recuts(cut_pieces(table, room, text), output::one_piece(text)),
    decreases text.len(),
{
    let pieces = cut_pieces(table, room, text);
    let lead = utf8_text::ascii_prefix(text);
    let rest = utf8_text::after_ascii(text);
    let now = working_room(room, rest);
    let count = codec::encoder_reads(table, rest, now);
    utf8_text::lemma_ascii_prefix_is_prefix(text);
    output::lemma_one_piece(text);
    output::lemma_one_piece(lead);
    if 0 < count < rest.len() {
        let part = rest.take(count as int);
        let left = rest.skip(count as int);
        let more = cut_pieces(table, grown_room(now), left);
        let start = output::one_piece(lead) + seq![part];
        lemma_cut_pieces(table, grown_room(now), left);
        output::lemma_one_piece(left);
        seq![part].lemma_flatten_one_element();
        lemma_flatten_concat(output::one_piece(lead), seq![part]);
        lemma_flatten_concat(start, more);
        assert(rest =~= part + left);
        assert(lead + part + left =~= lead + rest);
        assert forall|i: int| 0 <= i < pieces.len() implies (#[trigger] pieces[i]).len() > 0 by {
            if i >= start.len() {
                assert(pieces[i] == more[i - start.len()]);
            }
        }
    } else {
        output::lemma_one_piece(rest);
        lemma_flatten_concat(output::one_piece(lead), output::one_piece(rest));
    }
}

/// Handing on all pieces of a text adds its bytes to what was there.
proof fn lemma_all_handed_on(
    table: Map<char, Seq<u8>>,
    room: nat,
    text: Seq<char>,
    before: Seq<Seq<u8>>,
)
    ensures
        ({
            let after = before + output::encode_parts(table, cut_pieces(table, room, text));
            &&& before.is_prefix_of(after)
            &&& after.flatten() == before.flatten() + codec::encode_text(table, text)
        }),
{
    let pieces = cut_pieces(table, room, text);
    lemma_cut_pieces(table, room, text);
    output::lemma_one_piece(text);
    output::lemma_encode_parts(table, pieces);
    lemma_flatten_concat(before, output::encode_parts(table, pieces));
}

/// How the buffer grows while a text is encoded: not where it has grown before, where the text is
/// all ASCII, or where what follows the ASCII text at the start is so short that it fits; and else
/// to a size that depends on how much follows.
pub open spec fn room_follows(
    table: Map<char, Seq<u8>>,
    text: Seq<char>,
    before: nat,
    after: nat,
) -> bool {
    let rest = utf8_text::after_ascii(text);
    let need = codec::encode_text(table, rest).len();
    if before != STACK_ROOM || rest.len() == 0 {
        after == before
    } else if encode_utf8(rest).len() >= LONG {
        after == LONG_ROOM
    } else {
        &&& after == STACK_ROOM || after == HEAP_ROOM
        &&& need + ENCODER_SLACK < STACK_ROOM ==> after == STACK_ROOM
        &&& need > STACK_ROOM ==> after == HEAP_ROOM
    }
}

/// What follows the ASCII text at the start of a text is one piece where the buffer has room for it,
/// and more than one where it has not.
pub open spec fn cut_only_when_full(
    table: Map<char, Seq<u8>>,
    room: nat,
    text: Seq<char>,
) -> bool {
    let lead = output::one_piece(utf8_text::ascii_prefix(text));
    let rest = utf8_text::after_ascii(text);
    let need = codec::encode_text(table, rest).len();
    let now = working_room(room, rest);
    &&& need + ENCODER_SLACK < now ==> cut_pieces(table, room, text) == lead + output::one_piece(rest)
    &&& need > now ==> cut_pieces(table, room, text).len() > lead.len() + 1
}

/// Each chunk from some index on fits into the room or is all ASCII.
pub open spec fn chunks_fit(start: nat, chunks: Seq<Seq<u8>>, room: nat) -> bool {
    forall|i: int|
        start <= i < chunks.len() ==> (#[trigger] chunks[i]).len() <= room || is_ascii_bytes(
            chunks[i],
        )
}

/// All bytes are below 0x80.
pub open spec fn is_ascii_bytes(bytes: Seq<u8>) -> bool {
    forall|i: int| 0 <= i < bytes.len() ==> #[trigger] bytes[i] < 0x80
}

} // verus!
