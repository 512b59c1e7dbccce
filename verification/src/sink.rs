//! Writing of text and markup in streaming mutation handlers.

use encoding_rs::Encoding;
use vstd::prelude::*;
use vstd::string::*;
use vstd::utf8::*;

use crate::call_laws;
use crate::codec;
use crate::html;
use crate::html::{escape_body_text, ContentType};
use crate::output;
use crate::output::OutputChunks;
use crate::text_encoder;
use crate::text_encoder::{TextEncoder, STACK_ROOM};
use crate::utf8_resync::{IncompleteUtf8Resync, Utf8Error};
use crate::utf8_stream;
use crate::utf8_stream::DECODE_ROOM;
use crate::utf8_text;

verus! {

/// Used to write chunks of text or markup in streaming mutation handlers.
///
/// What is written is put into the encoding of the document and kept as [`OutputChunks`], which
/// the owner of the sink takes out and hands on.
pub struct StreamingHandlerSink {
    incomplete_utf8: Option<IncompleteUtf8Resync>,
    inner: StreamingHandlerSinkInner,
}

/// The part of a sink that hands on whole strings.
pub struct StreamingHandlerSinkInner {
    non_utf8_encoder: Option<TextEncoder>,
    output_handler: OutputChunks,
}

impl StreamingHandlerSink {
    /// The bytes that each character is written as.
    pub closed spec fn table(&self) -> Map<char, Seq<u8>> {
        self.inner.table()
    }

    /// The bytes of an unfinished character that wait for the next chunk.
    pub closed spec fn pending(&self) -> Seq<u8> {
        match self.incomplete_utf8 {
            Some(decoder) => decoder.pending(),
            None => Seq::empty(),
        }
    }

    /// The chunks that were handed on and not taken out.
    pub closed spec fn chunks(&self) -> Seq<Seq<u8>> {
        self.inner.chunks()
    }

    /// How many bytes are encoded at a time, or 0 in UTF-8, which is not encoded.
    pub closed spec fn room(&self) -> nat {
        self.inner.room()
    }

    /// The encoder, if there is one, and the decoder, if there is one, can go on.
    pub closed spec fn wf(&self) -> bool {
        &&& self.inner.wf()
        &&& self.incomplete_utf8 matches Some(decoder) ==> decoder.wf() && decoder.is_open()
    }

    /// What is pending is the start of a character.
    pub proof fn lemma_pending(&self)
        requires
            self.wf(),
        ensures
            self.pending().len() == 0 || utf8_stream::is_incomplete(self.pending()),
            self.pending().len() < 4,
    {
        if let Some(decoder) = self.incomplete_utf8 {
            decoder.lemma_pending();
            if decoder.pending().len() > 0 {
                utf8_stream::lemma_incomplete(decoder.pending());
            }
        }
    }

    /// The encoding extends ASCII, and a reference is written for what it lacks.
    pub proof fn lemma_table(&self)
        requires
            self.wf(),
        ensures
            codec::extends_ascii(self.table()),
            codec::refers_to_missing(self.table()),
    {
        match self.inner.non_utf8_encoder {
            Some(encoder) => encoder.lemma_table(),
            None => codec::lemma_utf8_extends_ascii(),
        }
    }

    /// A sink for a document in `encoding`, which is compatible with ASCII.
    pub fn new(encoding: &'static Encoding) -> (res: Self)
        requires
            codec::ascii_compatible(*encoding),
        ensures
            res.wf(),
            res.table() == codec::encoding_table(*encoding),
            res.pending() == Seq::<u8>::empty(),
            res.chunks() == Seq::<Seq<u8>>::empty(),
            res.room() == first_room(res.table()),
    {
        let non_utf8_encoder = if codec::is_utf8(encoding) {
            None
        } else {
            Some(TextEncoder::new(encoding))
        };
        StreamingHandlerSink {
            incomplete_utf8: None,
            inner: StreamingHandlerSinkInner {
                non_utf8_encoder,
                output_handler: OutputChunks::new(),
            },
        }
    }

    /// A sink for a document in `encoding`, or `None` where `encoding` is not compatible with
    /// ASCII.
    pub fn try_new(encoding: &'static Encoding) -> (res: Option<Self>)
        ensures
            res is Some <==> codec::ascii_compatible(*encoding),
            res matches Some(sink) ==> {
                &&& sink.wf()
                &&& sink.table() == codec::encoding_table(*encoding)
                &&& sink.pending() == Seq::<u8>::empty()
                &&& sink.chunks() == Seq::<Seq<u8>>::empty()
                &&& sink.room() == first_room(sink.table())
            },
    {
        if encoding.is_ascii_compatible() {
            Some(Self::new(encoding))
        } else {
            None
        }
    }

    /// Writes the given string to the output, converting the encoding and escaping if necessary.
    ///
    /// It may be called multiple times. The strings will be concatenated together. Where bytes of
    /// an unfinished character are left from [`StreamingHandlerSink::write_utf8_chunk`], a
    /// replacement character is written in their place first.
    pub fn write_str(&mut self, content: &str, content_type: ContentType)
        requires
            old(self).wf(),
        ensures
            final(self).wf(),
            string_written(*old(self), content@, content_type, *final(self)),
            final(self).table() == old(self).table(),
            final(self).pending() == Seq::<u8>::empty(),
            old(self).chunks().is_prefix_of(final(self).chunks()),
            final(self).chunks().flatten() == old(self).chunks().flatten() + (if old(
                self,
            ).pending().len() == 0 {
                Seq::<u8>::empty()
            } else {
                old(self).table()['\u{FFFD}']
            }) + codec::encode_text(
                old(self).table(),
                match content_type {
                    ContentType::Html => content@,
                    ContentType::Text => html::escape_text(content@),
                },
            ),
    {
        let ghost before = self.inner;
        let incomplete = match &mut self.incomplete_utf8 {
            Some(decoder) => decoder.discard_incomplete(),
            None => false,
        };
        proof {
            lemma_inner_wrote_nothing(before);
        }
        if incomplete {
            // too late to report the error to the caller of write_utf8_chunk
            self.inner.write_html("\u{FFFD}");
            proof {
                reveal_strlit("\u{FFFD}");
                assert("\u{FFFD}"@ =~= seq!['\u{FFFD}']);
            }
        }
        let ghost middle = self.inner;
        self.inner.write_str(content, content_type);
        proof {
            lemma_inner_wrote_append(
                before,
                replacement(old(self).pending()),
                middle,
                html::render_pieces(content_type, content@),
                self.inner,
            );
            call_laws::law_string_is_appended(*old(self), content@, content_type, *self);
            call_laws::law_escaping_goes_by_character(content@);
            call_laws::law_encoding_goes_by_character(
                self.table(),
                match content_type {
                    ContentType::Html => content@,
                    ContentType::Text => html::escape_text(content@),
                },
            );
        }
    }

    /// The chunks that were handed on and not taken out.
    pub fn output_handler(&mut self) -> (res: &mut OutputChunks)
        requires
            old(self).wf(),
        ensures
            res@ == old(self).chunks(),
            final(self).wf(),
            final(self).table() == old(self).table(),
            final(self).pending() == old(self).pending(),
            final(self).room() == old(self).room(),
            final(self).chunks() == final(res)@,
    {
        &mut self.inner.output_handler
    }

    /// Writes as much of the given UTF-8 fragment as possible, converting the encoding and escaping
    /// if necessary.
    ///
    /// The `content` doesn't need to be a complete UTF-8 string, as long as consecutive calls
    /// create a valid UTF-8 string. Any incomplete UTF-8 sequence at the end of the content is
    /// buffered and flushed as soon as it's completed.
    pub fn write_utf8_chunk(&mut self, content: &[u8], content_type: ContentType) -> (res: Result<
        (),
        Utf8Error,
    >)
        requires
            old(self).wf(),
        ensures
            final(self).wf(),
            chunk_written(*old(self), content@, content_type, *final(self), res is Ok),
            final(self).table() == old(self).table(),
            old(self).chunks().is_prefix_of(final(self).chunks()),
            res is Ok <==> exists|more: Seq<u8>| #[trigger]
                valid_utf8(old(self).pending() + content@ + more),
            res is Err ==> final(self).pending().len() == 0,
            ({
                let text = utf8_stream::split_utf8(old(self).pending() + content@).pieces.flatten();
                &&& encode_utf8(text).is_prefix_of(old(self).pending() + content@)
                &&& res is Ok ==> encode_utf8(text) + final(self).pending() == old(self).pending()
                    + content@
                &&& final(self).chunks().flatten() == old(self).chunks().flatten()
                    + codec::encode_text(
                    old(self).table(),
                    match content_type {
                        ContentType::Html => text,
                        ContentType::Text => html::escape_text(text),
                    },
                )
            }),
    {
        let ghost before = self.inner;
        let ghost split = utf8_stream::split_utf8(self.pending() + content@);
        let ghost mut done = Seq::<Seq<char>>::empty();
        if self.incomplete_utf8.is_none() {
            self.incomplete_utf8 = Some(IncompleteUtf8Resync::new());
        }
        let mut remaining = content;
        proof {
            lemma_inner_wrote_nothing(before);
            assert(html::render_parts(content_type, done) =~= seq![]);
            assert(done + split.pieces =~= split.pieces);
        }
        while !remaining.is_empty()
            invariant
                self.wf(),
                self.incomplete_utf8 is Some,
                before == old(self).inner,
                split == utf8_stream::split_utf8(old(self).pending() + content@),
                ({
                    let more = utf8_stream::split_utf8(self.pending() + remaining@);
                    &&& split.pieces == done + more.pieces
                    &&& split.pending == more.pending
                    &&& split.ok == more.ok
                }),
                inner_wrote(before, html::render_parts(content_type, done), self.inner),
            decreases remaining@.len(),
        {
            let ghost stream = self.pending() + remaining@;
            let ghost len = utf8_stream::valid_prefix_len(stream, DECODE_ROOM as nat);
            let ghost middle = self.inner;
            proof {
                self.lemma_pending();
                utf8_stream::lemma_valid_prefix(stream, DECODE_ROOM as nat);
            }
            if let Some(decoder) = &mut self.incomplete_utf8 {
                match decoder.utf8_bytes_to_slice(remaining, false) {
                    Ok((valid_chunk, rest)) => {
                        let ghost text = valid_chunk@;
                        proof {
                            lemma_inner_wrote_nothing(middle);
                        }
                        remaining = rest;
                        if !valid_chunk.is_empty() {
                            self.inner.write_str(valid_chunk, content_type);
                        }
                        proof {
                            let piece = output::one_piece(text);
                            let more = utf8_stream::split_utf8(stream.skip(len as int));
                            html::lemma_render_one_part(content_type, text);
                            html::lemma_render_parts_append(content_type, done, piece);
                            lemma_inner_wrote_append(
                                before,
                                html::render_parts(content_type, done),
                                middle,
                                html::render_pieces(content_type, text),
                                self.inner,
                            );
                            self.lemma_pending();
                            assert(self.pending() + remaining@ =~= stream.skip(len as int));
                            if remaining@.len() == 0 {
                                utf8_stream::lemma_split_pending(self.pending());
                            }
                            assert(done + (piece + more.pieces) =~= done + piece + more.pieces);
                            assert(done + piece =~= done + piece + Seq::<Seq<char>>::empty());
                            done = done + piece;
                        }
                    },
                    Err(error) => {
                        proof {
                            assert(done + Seq::<Seq<char>>::empty() =~= done);
                            lemma_chunk_written(*old(self), content@, content_type, *self, false);
                        }
                        return Err(error);
                    },
                }
            }
        }
        proof {
            self.lemma_pending();
            assert(self.pending() + remaining@ =~= self.pending());
            utf8_stream::lemma_split_pending(self.pending());
            assert(done + Seq::<Seq<char>>::empty() =~= done);
            lemma_chunk_written(*old(self), content@, content_type, *self, true);
        }
        Ok(())
    }
}

/// How many bytes a new sink encodes at a time, or 0 in UTF-8.
pub open spec fn first_room(table: Map<char, Seq<u8>>) -> nat {
    if table == codec::utf8_table() {
        0
    } else {
        STACK_ROOM as nat
    }
}

/// The chunks that pieces of text are handed on in, where `room` bytes are encoded at a time: in
/// UTF-8 each piece is a chunk, and elsewhere each is cut as the encoder cuts it.
pub open spec fn chunks_of(
    table: Map<char, Seq<u8>>,
    room: nat,
    pieces: Seq<Seq<char>>,
) -> Seq<Seq<u8>>
    decreases pieces.len(),
{
    if table == codec::utf8_table() {
        output::encode_parts(table, pieces)
    } else if pieces.len() == 0 {
        seq![]
    } else {
        output::encode_parts(table, text_encoder::cut_pieces(table, room, pieces[0])) + chunks_of(
            table,
            text_encoder::room_after(table, room, pieces[0]),
            pieces.drop_first(),
        )
    }
}

/// How many bytes are encoded at a time after pieces of text were handed on.
pub open spec fn room_after_pieces(
    table: Map<char, Seq<u8>>,
    room: nat,
    pieces: Seq<Seq<char>>,
) -> nat
    decreases pieces.len(),
{
    if table == codec::utf8_table() || pieces.len() == 0 {
        room
    } else {
        room_after_pieces(
            table,
            text_encoder::room_after(table, room, pieces[0]),
            pieces.drop_first(),
        )
    }
}

/// Handing on some pieces of text and then others is handing on all of them.
pub proof fn lemma_chunks_of_append(
    table: Map<char, Seq<u8>>,
    room: nat,
    a: Seq<Seq<char>>,
    b: Seq<Seq<char>>,
)
    ensures
        room_after_pieces(table, room, a + b) == room_after_pieces(
            table,
            room_after_pieces(table, room, a),
            b,
        ),
        chunks_of(table, room, a + b) == chunks_of(table, room, a) + chunks_of(
            table,
            room_after_pieces(table, room, a),
            b,
        ),
    decreases a.len(),
{
    if table == codec::utf8_table() {
        assert(output::encode_parts(table, a + b) =~= output::encode_parts(table, a)
            + output::encode_parts(table, b));
    } else if a.len() == 0 {
        assert(a + b =~= b);
        assert(chunks_of(table, room, a) + chunks_of(table, room, b) =~= chunks_of(table, room, b));
    } else {
        let later = text_encoder::room_after(table, room, a[0]);
        let rest = a.drop_first();
        let start = output::encode_parts(table, text_encoder::cut_pieces(table, room, a[0]));
        assert((a + b).drop_first() =~= rest + b);
        lemma_chunks_of_append(table, later, rest, b);
        assert(start + (chunks_of(table, later, rest) + chunks_of(
            table,
            room_after_pieces(table, later, rest),
            b,
        )) =~= start + chunks_of(table, later, rest) + chunks_of(
            table,
            room_after_pieces(table, later, rest),
            b,
        ));
    }
}

/// Going from the chunks `before` to the chunks `after` hands on pieces of text, where `room` bytes
/// are encoded at a time before and `room_after` after.
pub open spec fn pieces_written(
    table: Map<char, Seq<u8>>,
    pieces: Seq<Seq<char>>,
    room: nat,
    before: Seq<Seq<u8>>,
    room_after: nat,
    after: Seq<Seq<u8>>,
) -> bool {
    &&& after == before + chunks_of(table, room, pieces)
    &&& room_after == room_after_pieces(table, room, pieces)
    &&& output::emits(table, pieces, before, after)
}

/// Going from `before` to `after` hands on pieces of text.
pub open spec fn inner_wrote(
    before: StreamingHandlerSinkInner,
    pieces: Seq<Seq<char>>,
    after: StreamingHandlerSinkInner,
) -> bool {
    &&& after.table() == before.table()
    &&& pieces_written(
        before.table(),
        pieces,
        before.room(),
        before.chunks(),
        after.room(),
        after.chunks(),
    )
}

/// Handing on nothing changes nothing.
pub proof fn lemma_inner_wrote_nothing(inner: StreamingHandlerSinkInner)
    ensures
        inner_wrote(inner, seq![], inner),
{
    let none = Seq::<Seq<char>>::empty();
    output::lemma_emits_nothing(inner.table(), inner.chunks());
    assert(chunks_of(inner.table(), inner.room(), none) =~= seq![]);
    assert(inner.chunks() + Seq::<Seq<u8>>::empty() =~= inner.chunks());
}

/// Handing on some pieces and then others is handing on all of them.
pub proof fn lemma_inner_wrote_append(
    before: StreamingHandlerSinkInner,
    first: Seq<Seq<char>>,
    middle: StreamingHandlerSinkInner,
    second: Seq<Seq<char>>,
    after: StreamingHandlerSinkInner,
)
    requires
        inner_wrote(before, first, middle),
        inner_wrote(middle, second, after),
    ensures
        inner_wrote(before, first + second, after),
{
    output::lemma_emits_append(
        before.table(),
        first,
        second,
        before.chunks(),
        middle.chunks(),
        after.chunks(),
    );
    lemma_chunks_of_append(before.table(), before.room(), first, second);
    assert(after.chunks() =~= before.chunks() + chunks_of(
        before.table(),
        before.room(),
        first + second,
    ));
}

/// Outside UTF-8, handing on a text is handing on the pieces that the encoder cuts it into.
proof fn lemma_piece_written(
    table: Map<char, Seq<u8>>,
    room: nat,
    text: Seq<char>,
    before: Seq<Seq<u8>>,
)
    requires
        codec::extends_ascii(table),
        table != codec::utf8_table(),
    ensures
        pieces_written(
            table,
            output::one_piece(text),
            room,
            before,
            text_encoder::room_after(table, room, text),
            before + output::encode_parts(table, text_encoder::cut_pieces(table, room, text)),
        ),
{
    let pieces = output::one_piece(text);
    let parts = text_encoder::cut_pieces(table, room, text);
    text_encoder::lemma_cut_pieces(table, room, text);
    output::lemma_emits_parts(table, pieces, parts, before);
    if text.len() == 0 {
        assert(utf8_text::after_ascii(text) =~= seq![]);
        assert(output::encode_parts(table, parts) =~= chunks_of(table, room, pieces));
    } else {
        let later = text_encoder::room_after(table, room, text);
        assert(pieces.drop_first() =~= seq![]);
        assert(chunks_of(table, later, pieces.drop_first()) =~= seq![]);
        assert(output::encode_parts(table, parts) =~= chunks_of(table, room, pieces));
        reveal_with_fuel(room_after_pieces, 2);
    }
}

/// Going from the sink `before` to the sink `after` writes one more fragment of UTF-8, with success
/// or not: the fragment is read as the continuation of what was pending, its text is handed on, and
/// what is then left of an unfinished character is pending.
pub open spec fn chunk_written(
    before: StreamingHandlerSink,
    content: Seq<u8>,
    content_type: ContentType,
    after: StreamingHandlerSink,
    ok: bool,
) -> bool {
    let split = utf8_stream::split_utf8(before.pending() + content);
    &&& after.table() == before.table()
    &&& ok == split.ok
    &&& after.pending() == split.pending
    &&& pieces_written(
        before.table(),
        html::render_parts(content_type, split.pieces),
        before.room(),
        before.chunks(),
        after.room(),
        after.chunks(),
    )
}

/// What writing a fragment does, as bytes.
proof fn lemma_chunk_written(
    before: StreamingHandlerSink,
    content: Seq<u8>,
    content_type: ContentType,
    after: StreamingHandlerSink,
    ok: bool,
)
    requires
        chunk_written(before, content, content_type, after, ok),
    ensures
        after.table() == before.table(),
        before.chunks().is_prefix_of(after.chunks()),
        ok <==> exists|more: Seq<u8>| #[trigger] valid_utf8(before.pending() + content + more),
        !ok ==> after.pending().len() == 0,
        ({
            let text = utf8_stream::split_utf8(before.pending() + content).pieces.flatten();
            &&& encode_utf8(text).is_prefix_of(before.pending() + content)
            &&& ok ==> encode_utf8(text) + after.pending() == before.pending() + content
            &&& after.chunks().flatten() == before.chunks().flatten() + codec::encode_text(
                before.table(),
                match content_type {
                    ContentType::Html => text,
                    ContentType::Text => html::escape_text(text),
                },
            )
        }),
{
    let pieces = call_laws::law_fragment_is_appended(before, content, content_type, after, ok);
    let text = pieces.flatten();
    call_laws::law_escaping_goes_by_character(text);
    call_laws::law_encoding_goes_by_character(
        before.table(),
        match content_type {
            ContentType::Html => text,
            ContentType::Text => html::escape_text(text),
        },
    );
}

/// Going from the sink `before` to the sink `after` writes one more string: the string is handed on
/// after a replacement for what was pending, and nothing is pending any more.
pub open spec fn string_written(
    before: StreamingHandlerSink,
    content: Seq<char>,
    content_type: ContentType,
    after: StreamingHandlerSink,
) -> bool {
    &&& after.table() == before.table()
    &&& after.pending() == Seq::<u8>::empty()
    &&& pieces_written(
        before.table(),
        replacement(before.pending()) + html::render_pieces(content_type, content),
        before.room(),
        before.chunks(),
        after.room(),
        after.chunks(),
    )
}

/// Going from `before` to `after` hands on a string of either type.
pub open spec fn str_written(
    before: StreamingHandlerSinkInner,
    content: Seq<char>,
    content_type: ContentType,
    after: StreamingHandlerSinkInner,
) -> bool {
    inner_wrote(before, html::render_pieces(content_type, content), after)
}

/// Going from `before` to `after` hands on markup.
pub open spec fn html_written(
    before: StreamingHandlerSinkInner,
    html: Seq<char>,
    after: StreamingHandlerSinkInner,
) -> bool {
    inner_wrote(before, output::one_piece(html), after)
}

/// Going from `before` to `after` hands on text escaped.
pub open spec fn body_text_written(
    before: StreamingHandlerSinkInner,
    plaintext: Seq<char>,
    after: StreamingHandlerSinkInner,
) -> bool {
    inner_wrote(before, html::escape_pieces(plaintext), after)
}

/// What stands for an unfinished character: nothing where there is none.
pub open spec fn replacement(pending: Seq<u8>) -> Seq<Seq<char>> {
    if pending.len() == 0 {
        seq![]
    } else {
        seq![seq!['\u{FFFD}']]
    }
}

impl StreamingHandlerSinkInner {
    /// The bytes that each character is written as.
    pub closed spec fn table(&self) -> Map<char, Seq<u8>> {
        match self.non_utf8_encoder {
            Some(encoder) => encoder.table(),
            None => codec::utf8_table(),
        }
    }

    /// How many bytes are encoded at a time, or 0 in UTF-8, which is not encoded.
    pub closed spec fn room(&self) -> nat {
        match self.non_utf8_encoder {
            Some(encoder) => encoder.room(),
            None => 0,
        }
    }

    /// The chunks that were handed on and not taken out.
    pub closed spec fn chunks(&self) -> Seq<Seq<u8>> {
        self.output_handler@
    }

    /// The encoder, if there is one, can go on.
    pub closed spec fn wf(&self) -> bool {
        self.non_utf8_encoder matches Some(encoder) ==> encoder.wf()
    }

    /// Hands on content of either type.
    pub(crate) fn write_str(&mut self, content: &str, content_type: ContentType)
        requires
            old(self).wf(),
        ensures
            final(self).wf(),
            str_written(*old(self), content@, content_type, *final(self)),
    {
        match content_type {
            ContentType::Html => self.write_html(content),
            ContentType::Text => self.write_body_text(content),
        }
    }

    /// Hands on markup as it is.
    pub(crate) fn write_html(&mut self, html: &str)
        requires
            old(self).wf(),
        ensures
            final(self).wf(),
            html_written(*old(self), html@, *final(self)),
    {
        proof {
            lemma_inner_wrote_nothing(*self);
        }
        if let Some(encoder) = &mut self.non_utf8_encoder {
            proof {
                encoder.lemma_table();
                lemma_piece_written(encoder.table(), encoder.room(), html@, self.output_handler@);
            }
            encoder.encode(html, &mut self.output_handler);
        } else if !html.is_empty() {
            self.output_handler.push(html.as_bytes());
            proof {
                output::lemma_emits_utf8(html@, old(self).output_handler@);
                codec::lemma_encode_text_utf8(html@);
                assert(output::encode_parts(codec::utf8_table(), output::one_piece(html@))
                    =~= seq![encode_utf8(html@)]);
                assert(self.chunks() =~= old(self).chunks() + seq![encode_utf8(html@)]);
            }
        }
    }

    /// Hands on text escaped: for text content, not attributes.
    pub(crate) fn write_body_text(&mut self, plaintext: &str)
        requires
            old(self).wf(),
        ensures
            final(self).wf(),
            body_text_written(*old(self), plaintext@, *final(self)),
    {
        let pieces = escape_body_text(plaintext);
        let ghost texts = html::views(pieces@);
        proof {
            lemma_inner_wrote_nothing(*self);
            assert(texts.take(0) =~= seq![]);
            html::lemma_escape_pieces_nonempty(plaintext@);
        }
        let mut i: usize = 0;
        while i < pieces.len()
            invariant
                i <= pieces@.len(),
                texts == html::views(pieces@),
                forall|k: int| 0 <= k < texts.len() ==> (#[trigger] texts[k]).len() > 0,
                self.wf(),
                inner_wrote(*old(self), texts.take(i as int), *self),
            decreases pieces@.len() - i,
        {
            let ghost middle = *self;
            self.write_html(pieces[i]);
            proof {
                assert(texts[i as int].len() > 0);
                assert(texts.take(i + 1) =~= texts.take(i as int) + output::one_piece(
                    texts[i as int],
                ));
                lemma_inner_wrote_append(
                    *old(self),
                    texts.take(i as int),
                    middle,
                    output::one_piece(texts[i as int]),
                    *self,
                );
            }
            i += 1;
        }
        assert(texts.take(i as int) =~= texts);
    }
}

} // verus!
