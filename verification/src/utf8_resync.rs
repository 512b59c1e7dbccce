//! Decoding of UTF-8 that arrives in pieces.

use encoding_rs::Decoder;
use vstd::prelude::*;
use vstd::slice::slice_subrange;
use vstd::string::*;
use vstd::utf8::*;

use crate::call_laws;
use crate::codec;
use crate::codec::DecodeStatus;
use crate::utf8_stream;
use crate::utf8_stream::DECODE_ROOM;
use crate::utf8_text;

verus! {

/// Input contained a byte sequence that is not UTF-8.
///
/// An incomplete sequence at the end of a chunk is no error. It is one within a chunk, or where the
/// next chunk starts with bytes that do not go with it.
#[derive(Debug, Clone, Copy, PartialEq, Eq, Structural)]
pub struct Utf8Error;

impl Utf8Error {
    /// What to tell a user.
    pub fn message(&self) -> (res: String)
        ensures
            res@ == "Invalid UTF-8"@,
    {
        "Invalid UTF-8".to_owned()
    }
}

/// How a stream is decoded, by what of it is valid UTF-8.
proof fn lemma_decoded(stream: Seq<u8>, last: bool)
    ensures
        ({
            let len = utf8_stream::valid_prefix_len(stream, DECODE_ROOM as nat);
            let status = codec::decode_status(stream, DECODE_ROOM as nat, last);
            &&& status == DecodeStatus::Malformed <==> !(exists|n: int|
                1021 <= n <= 1024 && n <= stream.len() && valid_utf8(#[trigger] stream.take(n)))
                && !(if last {
                valid_utf8(stream)
            } else {
                exists|more: Seq<u8>| #[trigger] valid_utf8(stream + more)
            })
            &&& forall|n: int|
                len < n <= 1024 && n <= stream.len() ==> !valid_utf8(#[trigger] stream.take(n))
            &&& status == DecodeStatus::InputEmpty && last ==> len == stream.len()
        }),
{
    let room = DECODE_ROOM as nat;
    call_laws::law_decoder_ends(stream, room, last);
    call_laws::law_decoder_takes_the_longest_valid_start(stream, room);
    assert(stream.take(stream.len() as int) =~= stream);
    assert(stream + Seq::<u8>::empty() =~= stream);
    assert(valid_utf8(stream) ==> valid_utf8(stream + Seq::<u8>::empty()));
}

/// Decodes UTF-8, and keeps an unfinished character at the end of one call for the next.
pub struct IncompleteUtf8Resync {
    decoder: Decoder,
    buffer: String,
}

impl IncompleteUtf8Resync {
    /// The bytes of an unfinished character that wait for the next call.
    pub closed spec fn pending(&self) -> Seq<u8> {
        codec::decoder_pending(self.decoder)
    }

    /// Whether more may be decoded.
    pub closed spec fn is_open(&self) -> bool {
        codec::decoder_open(self.decoder)
    }

    /// The buffer has its size, and what is pending is the start of a character.
    pub closed spec fn wf(&self) -> bool {
        &&& encode_utf8(self.buffer@).len() == DECODE_ROOM
        &&& self.is_open() ==> self.pending().len() == 0 || utf8_stream::is_incomplete(
            self.pending(),
        )
    }

    /// What is pending is the start of a character.
    pub proof fn lemma_pending(&self)
        requires
            self.wf(),
            self.is_open(),
        ensures
            self.pending().len() == 0 || utf8_stream::is_incomplete(self.pending()),
    {
    }

    /// A decoder that has read nothing yet.
    pub fn new() -> (res: Self)
        ensures
            res.wf(),
            res.is_open(),
            res.pending() == Seq::<u8>::empty(),
    {
        proof {
            reveal_strlit("\0");
            is_ascii_chars_encode_utf8("\0"@);
        }
        let buffer = "\0".repeat(DECODE_ROOM);
        proof {
            is_ascii_chars_encode_utf8(buffer@);
        }
        IncompleteUtf8Resync { decoder: codec::new_utf8_decoder(), buffer }
    }

    /// Decodes as much of `content` as the buffer has room for, after what is pending. Gives back
    /// the text and what is left of `content`, which is nothing but where the buffer was full.
    ///
    /// With `is_last` an unfinished character at the end is an error too. After an error, or where
    /// the buffer was full, more may be decoded. After `is_last` it may not otherwise.
    pub fn utf8_bytes_to_slice<'buf, 'src: 'buf>(
        &'buf mut self,
        content: &'src [u8],
        is_last: bool,
    ) -> (res: Result<(&'buf str, &'src [u8]), Utf8Error>)
        requires
            old(self).wf(),
            old(self).is_open(),
        ensures
            final(self).wf(),
            ({
                let stream = old(self).pending() + content@;
                let len = utf8_stream::valid_prefix_len(stream, DECODE_ROOM as nat);
                let status = codec::decode_status(stream, DECODE_ROOM as nat, is_last);
                &&& res is Err <==> status == DecodeStatus::Malformed
                &&& res matches Ok((text, rest)) ==> {
                    &&& text@ == decode_utf8(stream.take(len as int))
                    &&& rest@ == if status == DecodeStatus::InputEmpty {
                        Seq::<u8>::empty()
                    } else {
                        stream.skip(len as int)
                    }
                }
                &&& final(self).pending() == if status == DecodeStatus::InputEmpty {
                    stream.skip(len as int)
                } else {
                    Seq::<u8>::empty()
                }
                &&& !is_last || status == DecodeStatus::OutputFull ==> final(self).is_open()
                &&& res is Err ==> final(self).is_open()
            }),
            !is_last ==> final(self).is_open(),
            res is Err ==> final(self).pending().len() == 0,
            res is Err <==> !(exists|n: int|
                1021 <= n <= 1024 && n <= (old(self).pending() + content@).len() && valid_utf8(
                    #[trigger] (old(self).pending() + content@).take(n),
                )) && !(if is_last {
                valid_utf8(old(self).pending() + content@)
            } else {
                exists|more: Seq<u8>| #[trigger] valid_utf8(old(self).pending() + content@ + more)
            }),
            res matches Ok((text, rest)) ==> {
                &&& encode_utf8(text@) + final(self).pending() + rest@ == old(self).pending()
                    + content@
                &&& encode_utf8(text@).len() <= 1024
                &&& rest@.len() > 0 ==> final(self).pending().len() == 0 && encode_utf8(
                    text@,
                ).len() >= 1021 && final(self).is_open()
                &&& is_last ==> final(self).pending().len() == 0
                &&& forall|n: int|
                    encode_utf8(text@).len() < n <= 1024 && n <= (old(self).pending()
                        + content@).len() ==> !valid_utf8(
                        #[trigger] (old(self).pending() + content@).take(n),
                    )
            },
    {
        let ghost stream = self.pending() + content@;
        let ghost len = utf8_stream::valid_prefix_len(stream, DECODE_ROOM as nat);
        proof {
            lemma_decoded(stream, is_last);
        }
        let (result, read, written) = codec::decode_to_str_without_replacement(
            &mut self.decoder,
            content,
            &mut self.buffer,
            is_last,
        );
        match result {
            DecodeStatus::InputEmpty => {},
            DecodeStatus::OutputFull => {},
            DecodeStatus::Malformed => {
                if is_last {
                    // A decoder that was told of the end of its input takes no more.
                    self.decoder = codec::new_utf8_decoder();
                }
                return Err(Utf8Error);
            },
        }
        proof {
            utf8_stream::lemma_valid_prefix(stream, DECODE_ROOM as nat);
            encode_utf8_valid_utf8(self.buffer@);
            utf8_text::lemma_valid_prefix_is_boundary(encode_utf8(self.buffer@), len as int);
        }
        let text = self.buffer.as_str().split_at(written).0;
        let remaining = slice_subrange(content, read, content.len());
        proof {
            assert(encode_utf8(text@) =~= stream.take(len as int));
            assert(stream.take(len as int) + stream.skip(len as int) =~= stream);
            assert(encode_utf8(text@) + self.pending() + remaining@ =~= stream);
            encode_utf8_decode_utf8(text@);
            assert(stream.skip(len as int) =~= if result == DecodeStatus::InputEmpty {
                stream.skip(len as int)
            } else {
                remaining@
            });
        }
        Ok((text, remaining))
    }

    /// Forgets what is pending, and says whether there was anything.
    pub fn discard_incomplete(&mut self) -> (res: bool)
        requires
            old(self).wf(),
            old(self).is_open(),
        ensures
            final(self).wf(),
            final(self).is_open(),
            final(self).pending() == Seq::<u8>::empty(),
            res == (old(self).pending().len() > 0),
    {
        proof {
            let stream = self.pending() + Seq::<u8>::empty();
            assert(stream =~= self.pending());
            if stream.len() > 0 {
                utf8_stream::lemma_incomplete(stream);
            }
        }
        match self.utf8_bytes_to_slice(&[], true) {
            Ok(_) => {},
            Err(_) => {
                return true;
            },
        }
        // A decoder that was told of the end of its input takes no more.
        self.decoder = codec::new_utf8_decoder();
        false
    }
}

} // verus!
