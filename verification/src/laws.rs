//! What holds of the library as a whole.

use vstd::prelude::*;
use vstd::seq_lib::*;
use vstd::utf8::*;

use crate::codec;
use crate::html;
use crate::html::ContentType;
use crate::output;
use crate::sink;
use crate::sink::{StreamingHandlerSink, StreamingHandlerSinkInner};
use crate::text_encoder;
use crate::text_encoder::{TextEncoder, HEAP_ROOM, LONG_ROOM, STACK_ROOM};
use crate::utf8_stream;
use crate::utf8_text;

verus! {

/// The bytes that a text is written as.
pub open spec fn rendered(
    table: Map<char, Seq<u8>>,
    content_type: ContentType,
    text: Seq<char>,
) -> Seq<u8> {
    codec::encode_text(table, html::render_pieces(content_type, text).flatten())
}

/// The text that a stream of bytes holds, up to an unfinished character.
pub open spec fn text_of(stream: Seq<u8>) -> Seq<char> {
    utf8_stream::split_utf8(stream).pieces.flatten()
}

/// The text of a content type, before it is encoded.
pub proof fn lemma_render_flatten(content_type: ContentType, text: Seq<char>)
    ensures
        html::render_pieces(content_type, text).flatten() == match content_type {
            ContentType::Html => text,
            ContentType::Text => html::escape_text(text),
        },
{
    match content_type {
        ContentType::Html => output::lemma_one_piece(text),
        ContentType::Text => html::lemma_escape_pieces(text),
    }
}

/// A text in two parts is written as the one part and then the other.
pub proof fn law_rendering_concatenates(
    table: Map<char, Seq<u8>>,
    content_type: ContentType,
    a: Seq<char>,
    b: Seq<char>,
)
    ensures
        rendered(table, content_type, a + b) == rendered(table, content_type, a) + rendered(
            table,
            content_type,
            b,
        ),
{
    lemma_render_flatten(content_type, a);
    lemma_render_flatten(content_type, b);
    lemma_render_flatten(content_type, a + b);
    html::lemma_escape_text_append(a, b);
    match content_type {
        ContentType::Html => codec::lemma_encode_text_append(table, a, b),
        ContentType::Text => codec::lemma_encode_text_append(
            table,
            html::escape_text(a),
            html::escape_text(b),
        ),
    }
}

/// The bytes that a sink has handed on beyond those of another.
pub open spec fn bytes_since(before: StreamingHandlerSink, after: StreamingHandlerSink) -> Seq<u8> {
    after.chunks().skip(before.chunks().len() as int).flatten()
}

/// Strings that are written one after the other are concatenated: after two calls a sink has
/// handed on the same bytes as after one call with both strings.
pub proof fn law_strings_are_concatenated(
    before: StreamingHandlerSink,
    middle: StreamingHandlerSink,
    after: StreamingHandlerSink,
    at_once: StreamingHandlerSink,
    content_type: ContentType,
    a: Seq<char>,
    b: Seq<char>,
)
    requires
        sink::string_written(before, a, content_type, middle),
        sink::string_written(middle, b, content_type, after),
        sink::string_written(before, a + b, content_type, at_once),
    ensures
        bytes_since(before, after) == bytes_since(before, at_once),
        after.pending() == at_once.pending(),
        after.table() == at_once.table(),
        bytes_since(before, after) == codec::encode_text(
            before.table(),
            sink::replacement(before.pending()).flatten(),
        ) + rendered(before.table(), content_type, a + b),
{
    let table = before.table();
    let gap = sink::replacement(before.pending());
    let first = html::render_pieces(content_type, a);
    let second = html::render_pieces(content_type, b);
    let both = html::render_pieces(content_type, a + b);
    assert(sink::replacement(middle.pending()) + second =~= second);
    output::lemma_emits_append(
        table,
        gap + first,
        second,
        before.chunks(),
        middle.chunks(),
        after.chunks(),
    );
    lemma_flatten_concat(gap + first, second);
    lemma_flatten_concat(gap, first);
    lemma_flatten_concat(gap, both);
    codec::lemma_encode_text_append(table, (gap + first).flatten(), second.flatten());
    codec::lemma_encode_text_append(table, gap.flatten(), first.flatten());
    codec::lemma_encode_text_append(table, gap.flatten(), both.flatten());
    law_rendering_concatenates(table, content_type, a, b);
}

/// Writing nothing hands on nothing.
pub proof fn law_empty_text_is_silent(
    table: Map<char, Seq<u8>>,
    content_type: ContentType,
    before: Seq<Seq<u8>>,
    after: Seq<Seq<u8>>,
)
    requires
        output::emits(table, html::render_pieces(content_type, seq![]), before, after),
    ensures
        after == before,
{
    let nothing = Seq::<char>::empty();
    let fresh = after.skip(before.len() as int);
    assert(html::render_pieces(content_type, nothing) =~= seq![]);
    if fresh.len() > 0 {
        assert(fresh[0].len() > 0);
        assert(fresh.flatten()[0] == fresh[0][0]);
    }
    assert(after =~= before);
}

/// An empty chunk is accepted, whatever its type, and changes nothing.
pub proof fn law_empty_chunk_changes_nothing(
    before: StreamingHandlerSink,
    content_type: ContentType,
    after: StreamingHandlerSink,
    ok: bool,
)
    requires
        before.wf(),
        sink::chunk_written(before, seq![], content_type, after, ok),
    ensures
        ok,
        after.table() == before.table(),
        after.pending() == before.pending(),
        after.room() == before.room(),
        after.chunks() == before.chunks(),
{
    let pending = before.pending();
    before.lemma_pending();
    assert(pending + Seq::<u8>::empty() =~= pending);
    utf8_stream::lemma_split_pending(pending);
    assert(html::render_parts(content_type, seq![]) =~= html::render_pieces(content_type, seq![]));
    law_empty_text_is_silent(before.table(), content_type, before.chunks(), after.chunks());
}

/// Text without characters that stand for markup is written as markup is.
pub proof fn law_plain_text_is_unchanged(text: Seq<char>)
    requires
        forall|i: int| 0 <= i < text.len() ==> !html::is_markup(#[trigger] text[i]),
    ensures
        html::render_pieces(ContentType::Text, text) == html::render_pieces(ContentType::Html, text),
{
    html::lemma_plain_prefix(text, seq![]);
    assert(text + Seq::<char>::empty() =~= text);
}

/// In UTF-8, markup is handed on as it is, in one chunk.
pub proof fn law_utf8_markup_is_unchanged(
    before: StreamingHandlerSink,
    text: Seq<char>,
    after: StreamingHandlerSink,
)
    requires
        before.table() == codec::utf8_table(),
        before.pending().len() == 0,
        text.len() > 0,
        sink::string_written(before, text, ContentType::Html, after),
    ensures
        after.chunks() == before.chunks().push(encode_utf8(text)),
{
    let pieces = html::render_pieces(ContentType::Html, text);
    assert(sink::replacement(before.pending()) + pieces =~= pieces);
    codec::lemma_encode_text_utf8(text);
    let fresh = after.chunks().skip(before.chunks().len() as int);
    assert(fresh =~= seq![encode_utf8(text)]);
    assert(after.chunks() =~= before.chunks() + fresh);
}

/// In every encoding, ASCII markup is handed on as it is.
pub proof fn law_ascii_markup_is_unchanged(
    before: StreamingHandlerSink,
    text: Seq<char>,
    after: StreamingHandlerSink,
)
    requires
        before.wf(),
        before.pending().len() == 0,
        is_ascii_chars(text),
        sink::string_written(before, text, ContentType::Html, after),
    ensures
        bytes_since(before, after) == Seq::new(text.len(), |i: int| text[i] as u8),
{
    let pieces = html::render_pieces(ContentType::Html, text);
    assert(sink::replacement(before.pending()) + pieces =~= pieces);
    before.lemma_table();
    output::lemma_one_piece(text);
    codec::lemma_encode_text_ascii(before.table(), text);
    is_ascii_chars_encode_utf8(text);
    assert(encode_utf8(text) =~= Seq::new(text.len(), |i: int| text[i] as u8));
}

/// A character is written as one to four bytes, or where the encoding lacks it as a decimal numeric
/// character reference.
pub proof fn law_missing_character_is_a_reference(
    before: StreamingHandlerSink,
    c: char,
    after: StreamingHandlerSink,
)
    requires
        before.wf(),
        before.pending().len() == 0,
        sink::string_written(before, seq![c], ContentType::Html, after),
    ensures
        bytes_since(before, after) == before.table()[c],
        codec::lacks(before.table(), c) ==> bytes_since(before, after) == codec::numeric_reference(
            c,
        ),
        !codec::lacks(before.table(), c) ==> 0 < bytes_since(before, after).len() <= 4,
{
    let table = before.table();
    let text = seq![c];
    let pieces = html::render_pieces(ContentType::Html, text);
    assert(sink::replacement(before.pending()) + pieces =~= pieces);
    before.lemma_table();
    output::lemma_one_piece(text);
    reveal_with_fuel(codec::encode_text, 2);
    assert(codec::encode_text(table, text) =~= table[c]);
}

/// Whether two inner sinks are in the same state, as far as what they hand on goes.
pub open spec fn same_state(a: StreamingHandlerSinkInner, b: StreamingHandlerSinkInner) -> bool {
    &&& a.table() == b.table()
    &&& a.room() == b.room()
    &&& a.chunks() == b.chunks()
}

/// From the same state, writing a string as markup hands on the same chunks as writing markup, in
/// every encoding, and leaves the same state.
pub proof fn law_write_str_of_markup_is_write_html(
    a: StreamingHandlerSinkInner,
    b: StreamingHandlerSinkInner,
    content: Seq<char>,
    a_after: StreamingHandlerSinkInner,
    b_after: StreamingHandlerSinkInner,
)
    requires
        same_state(a, b),
        sink::str_written(a, content, ContentType::Html, a_after),
        sink::html_written(b, content, b_after),
    ensures
        same_state(a_after, b_after),
{
}

/// From the same state, writing a string as plain text hands on the same chunks as writing body
/// text, in every encoding, and leaves the same state.
pub proof fn law_write_str_of_text_is_write_body_text(
    a: StreamingHandlerSinkInner,
    b: StreamingHandlerSinkInner,
    content: Seq<char>,
    a_after: StreamingHandlerSinkInner,
    b_after: StreamingHandlerSinkInner,
)
    requires
        same_state(a, b),
        sink::str_written(a, content, ContentType::Text, a_after),
        sink::body_text_written(b, content, b_after),
    ensures
        same_state(a_after, b_after),
{
}

/// Escaped text holds no angle bracket, and a `&` only where a reference starts.
pub proof fn law_escaped_text_has_no_markup(text: Seq<char>)
    ensures
        forall|i: int|
            0 <= i < html::escape_text(text).len() ==> (#[trigger] html::escape_text(text)[i]) != '<'
                && html::escape_text(text)[i] != '>',
        forall|i: int|
            0 <= i < html::escape_text(text).len() && (#[trigger] html::escape_text(text)[i]) == '&'
                ==> starts_reference(html::escape_text(text).skip(i)),
    decreases text.len(),
{
    if text.len() > 0 {
        let rest = text.drop_first();
        let head = html::escape_char(text[0]);
        let tail = html::escape_text(rest);
        let whole = html::escape_text(text);
        law_escaped_text_has_no_markup(rest);
        assert forall|i: int| 0 <= i < whole.len() implies (#[trigger] whole[i]) != '<' && whole[i]
            != '>' by {
            if i >= head.len() {
                assert(whole[i] == tail[i - head.len()]);
            }
        }
        assert forall|i: int| 0 <= i < whole.len() && (#[trigger] whole[i])
            == '&' implies starts_reference(whole.skip(i)) by {
            if i >= head.len() {
                assert(whole[i] == tail[i - head.len()]);
                assert(whole.skip(i) =~= tail.skip(i - head.len()));
            } else {
                assert(i == 0);
                assert(head.is_prefix_of(whole.skip(0)));
            }
        }
    }
}

/// A text starts with one of the references that stand for markup.
pub open spec fn starts_reference(text: Seq<char>) -> bool {
    ||| html::escape_char('<').is_prefix_of(text)
    ||| html::escape_char('>').is_prefix_of(text)
    ||| html::escape_char('&').is_prefix_of(text)
}

/// In UTF-8, no byte of escaped text is an angle bracket.
pub proof fn law_escaped_bytes_have_no_markup(text: Seq<char>)
    ensures
        forall|i: int|
            0 <= i < rendered(codec::utf8_table(), ContentType::Text, text).len() ==> (
            #[trigger] rendered(codec::utf8_table(), ContentType::Text, text)[i]) != 0x3c && rendered(
                codec::utf8_table(),
                ContentType::Text,
                text,
            )[i] != 0x3e,
{
    lemma_render_flatten(ContentType::Text, text);
    codec::lemma_encode_text_utf8(html::escape_text(text));
    law_escaped_text_has_no_markup(text);
    lemma_bytes_without(html::escape_text(text));
}

/// Text without angle brackets has none among its bytes.
pub proof fn lemma_bytes_without(text: Seq<char>)
    requires
        forall|i: int| 0 <= i < text.len() ==> (#[trigger] text[i]) != '<' && text[i] != '>',
    ensures
        forall|i: int|
            0 <= i < encode_utf8(text).len() ==> (#[trigger] encode_utf8(text)[i]) != 0x3c
                && encode_utf8(text)[i] != 0x3e,
    decreases text.len(),
{
    if text.len() > 0 {
        let rest = text.drop_first();
        let scalar = text[0] as u32;
        let head = encode_scalar(scalar);
        let whole = encode_utf8(text);
        lemma_bytes_without(rest);
        utf8_text::lemma_first_byte(text);
        utf8_text::lemma_char_number(text[0]);
        assert(text[0] != '<' && text[0] != '>');
        lemma_scalar_bytes(scalar);
        assert forall|i: int| 0 <= i < whole.len() implies (#[trigger] whole[i]) != 0x3c && whole[i]
            != 0x3e by {
            if i >= head.len() {
                assert(whole[i] == encode_utf8(rest)[i - head.len()]);
            } else if i > 0 {
                assert(whole[i] == head[i]);
            }
        }
    }
}

/// All bytes of a character but the first are above ASCII.
proof fn lemma_scalar_bytes(scalar: u32)
    ensures
        forall|i: int| 0 < i < encode_scalar(scalar).len() ==> #[trigger] encode_scalar(scalar)[i]
            >= 0x80,
{
    let low = (scalar & 0x3f) as u8;
    let mid = ((scalar >> 6) & 0x3f) as u8;
    let high = ((scalar >> 12) & 0x3f) as u8;
    assert(0x80u8 | low >= 0x80) by (bit_vector);
    assert(0x80u8 | mid >= 0x80) by (bit_vector);
    assert(0x80u8 | high >= 0x80) by (bit_vector);
}

/// Nothing of an accepted stream is lost: it is the encoding of the text and then the bytes that
/// stay pending, which are the start of a character.
pub proof fn law_nothing_is_lost(stream: Seq<u8>)
    requires
        utf8_stream::split_utf8(stream).ok,
    ensures
        encode_utf8(text_of(stream)) + utf8_stream::split_utf8(stream).pending == stream,
        utf8_stream::split_utf8(stream).pending.len() == 0 || utf8_stream::is_incomplete(
            utf8_stream::split_utf8(stream).pending,
        ),
{
    utf8_stream::lemma_split_utf8(stream);
    utf8_stream::lemma_text_len(stream);
    let head = stream.take(utf8_stream::text_len(stream) as int);
    decode_utf8_encode_utf8(head);
    assert(head + stream.skip(utf8_stream::text_len(stream) as int) =~= stream);
}

/// A stream is accepted just where it can go on to become valid UTF-8. So an unfinished character
/// at the end is no error, and one in the middle is.
pub proof fn law_accepted_iff_it_can_become_valid(stream: Seq<u8>)
    ensures
        utf8_stream::split_utf8(stream).ok <==> exists|more: Seq<u8>| #[trigger]
            valid_utf8(stream + more),
{
    utf8_stream::lemma_split_utf8(stream);
    utf8_stream::lemma_text_len(stream);
    let len = utf8_stream::text_len(stream) as int;
    let head = stream.take(len);
    let rest = stream.skip(len);
    assert(head + rest =~= stream);
    if utf8_stream::split_utf8(stream).ok {
        if rest.len() == 0 {
            assert(stream + Seq::<u8>::empty() =~= head);
        } else {
            let c = choose|c: char|
                {
                    &&& rest.len() < (#[trigger] encode_scalar(c as u32)).len()
                    &&& rest.is_prefix_of(encode_scalar(c as u32))
                };
            let whole = encode_scalar(c as u32);
            let more = whole.skip(rest.len() as int);
            lemma_one_char(c);
            encode_utf8_valid_utf8(seq![c]);
            valid_utf8_concat(head, whole);
            assert(stream + more =~= head + whole);
        }
    }
    if exists|more: Seq<u8>| #[trigger] valid_utf8(stream + more) {
        let more = choose|more: Seq<u8>| #[trigger] valid_utf8(stream + more);
        let all = stream + more;
        let tail = rest + more;
        if rest.len() > 0 {
            assert(all.subrange(0, len) =~= head);
            assert(all.subrange(len, all.len() as int) =~= tail);
            if !valid_utf8(tail) {
                partial_valid_partial_invalid_utf8(all, len);
            }
            let n = length_of_first_scalar(tail);
            decode_utf8_first_scalar(tail);
            let c = decode_first_scalar(tail) as char;
            if n <= rest.len() {
                assert(rest[0] == tail[0]);
                assert(n >= 2 ==> rest[1] == tail[1]);
                assert(n >= 3 ==> rest[2] == tail[2]);
                assert(n >= 4 ==> rest[3] == tail[3]);
                assert(valid_first_scalar(rest));
            }
            assert(rest.is_prefix_of(encode_scalar(c as u32))) by {
                assert(rest =~= take_first_scalar(tail).take(rest.len() as int));
            }
            assert(utf8_stream::is_incomplete(rest));
        }
    }
}

/// One character is encoded as its scalar.
pub proof fn lemma_one_char(c: char)
    ensures
        encode_utf8(seq![c]) == encode_scalar(c as u32),
{
    reveal_with_fuel(encode_utf8, 2);
    assert(encode_utf8(seq![c]) =~= encode_scalar(c as u32));
}

/// It makes no difference where a stream is cut: after an accepted part, what follows is taken as
/// if it had come in one piece with it.
pub proof fn law_cuts_make_no_difference(first: Seq<u8>, second: Seq<u8>)
    requires
        utf8_stream::split_utf8(first).ok,
    ensures
        ({
            let pending = utf8_stream::split_utf8(first).pending;
            let whole = utf8_stream::split_utf8(first + second);
            let more = utf8_stream::split_utf8(pending + second);
            &&& whole.ok <==> more.ok
            &&& whole.pending == more.pending
            &&& whole.ok ==> text_of(first + second) == text_of(first) + text_of(
                pending + second,
            )
        }),
{
    let pending = utf8_stream::split_utf8(first).pending;
    let len = utf8_stream::text_len(first) as int;
    let head = first.take(len);
    let tail = pending + second;
    let more_len = utf8_stream::text_len(tail) as int;
    utf8_stream::lemma_split_utf8(first);
    utf8_stream::lemma_text_len(first);
    assert(first + second =~= head + tail);
    utf8_stream::lemma_split_utf8(first + second);
    utf8_stream::lemma_split_utf8(tail);
    utf8_stream::lemma_text_len(tail);
    utf8_stream::lemma_text_len_append(head, tail);
    assert((head + tail).take(len + more_len) =~= head + tail.take(more_len));
    assert((head + tail).skip(len + more_len) =~= tail.skip(more_len));
    utf8_stream::lemma_decode_utf8_append(head, tail.take(more_len));
}

/// What was refused stays refused, whatever follows.
pub proof fn law_refusal_is_final(first: Seq<u8>, second: Seq<u8>)
    requires
        !utf8_stream::split_utf8(first).ok,
    ensures
        !utf8_stream::split_utf8(first + second).ok,
{
    law_accepted_iff_it_can_become_valid(first);
    law_accepted_iff_it_can_become_valid(first + second);
    if exists|more: Seq<u8>| #[trigger] valid_utf8(first + second + more) {
        let more = choose|more: Seq<u8>| #[trigger] valid_utf8(first + second + more);
        assert(first + (second + more) =~= first + second + more);
        assert(valid_utf8(first + (second + more)));
    }
}

/// What calls with these chunks, one after the other, each of its type, hand on until one of them
/// fails, what is then pending, and whether none fails.
pub open spec fn written(
    table: Map<char, Seq<u8>>,
    types: Seq<ContentType>,
    pending: Seq<u8>,
    chunks: Seq<Seq<u8>>,
) -> (Seq<u8>, Seq<u8>, bool)
    decreases chunks.len(),
{
    if chunks.len() == 0 {
        (seq![], pending, true)
    } else {
        let split = utf8_stream::split_utf8(pending + chunks[0]);
        let bytes = codec::encode_text(table, html::render_parts(types[0], split.pieces).flatten());
        if split.ok {
            let (more, left, ok) = written(
                table,
                types.drop_first(),
                split.pending,
                chunks.drop_first(),
            );
            (bytes + more, left, ok)
        } else {
            (bytes, split.pending, false)
        }
    }
}

/// Every one of the types is this one.
pub open spec fn all_of_type(types: Seq<ContentType>, content_type: ContentType) -> bool {
    forall|i: int| 0 <= i < types.len() ==> #[trigger] types[i] == content_type
}

/// Rendering text piece by piece is rendering it.
pub proof fn lemma_render_parts_bytes(
    table: Map<char, Seq<u8>>,
    content_type: ContentType,
    parts: Seq<Seq<char>>,
)
    ensures
        codec::encode_text(table, html::render_parts(content_type, parts).flatten()) == rendered(
            table,
            content_type,
            parts.flatten(),
        ),
    decreases parts.len(),
{
    if parts.len() == 0 {
        assert(html::render_parts(content_type, parts) =~= seq![]);
        lemma_render_flatten(content_type, parts.flatten());
    } else {
        let first = parts[0];
        let rest = parts.drop_first();
        assert(parts =~= seq![first] + rest);
        html::lemma_render_parts_append(content_type, seq![first], rest);
        let f = |part: Seq<char>| html::render_pieces(content_type, part);
        assert(seq![first].map_values(f) =~= seq![f(first)]);
        seq![f(first)].lemma_flatten_one_element();
        lemma_flatten_concat(
            html::render_pieces(content_type, first),
            html::render_parts(content_type, rest),
        );
        codec::lemma_encode_text_append(
            table,
            html::render_pieces(content_type, first).flatten(),
            html::render_parts(content_type, rest).flatten(),
        );
        lemma_render_parts_bytes(table, content_type, rest);
        law_rendering_concatenates(table, content_type, first, rest.flatten());
    }
}

/// However a stream is cut into chunks, and of whatever types they are: every call succeeds just
/// where the stream can become valid UTF-8, and what is then pending is its unfinished character.
pub proof fn law_chunks_are_read_as_one_stream(
    table: Map<char, Seq<u8>>,
    types: Seq<ContentType>,
    pending: Seq<u8>,
    chunks: Seq<Seq<u8>>,
)
    requires
        pending.len() == 0 || utf8_stream::is_incomplete(pending),
        types.len() == chunks.len(),
    ensures
        ({
            let stream = pending + chunks.flatten();
            let (bytes, left, ok) = written(table, types, pending, chunks);
            &&& ok <==> utf8_stream::split_utf8(stream).ok
            &&& ok ==> left == utf8_stream::split_utf8(stream).pending
        }),
    decreases chunks.len(),
{
    if chunks.len() == 0 {
        assert(pending + chunks.flatten() =~= pending);
        utf8_stream::lemma_split_pending(pending);
    } else {
        let rest = chunks.drop_first();
        let first = pending + chunks[0];
        let split = utf8_stream::split_utf8(first);
        assert(pending + chunks.flatten() =~= first + rest.flatten());
        if split.ok {
            law_nothing_is_lost(first);
            law_cuts_make_no_difference(first, rest.flatten());
            law_chunks_are_read_as_one_stream(table, types.drop_first(), split.pending, rest);
        } else {
            law_refusal_is_final(first, rest.flatten());
        }
    }
}

/// However a stream is cut into chunks of one type: where every call succeeds, the text of the
/// stream is written, up to an unfinished character.
pub proof fn law_chunks_of_one_type_are_written_as_one_stream(
    table: Map<char, Seq<u8>>,
    content_type: ContentType,
    types: Seq<ContentType>,
    pending: Seq<u8>,
    chunks: Seq<Seq<u8>>,
)
    requires
        pending.len() == 0 || utf8_stream::is_incomplete(pending),
        types.len() == chunks.len(),
        all_of_type(types, content_type),
        written(table, types, pending, chunks).2,
    ensures
        written(table, types, pending, chunks).0 == rendered(
            table,
            content_type,
            text_of(pending + chunks.flatten()),
        ),
    decreases chunks.len(),
{
    if chunks.len() == 0 {
        assert(pending + chunks.flatten() =~= pending);
        utf8_stream::lemma_split_pending(pending);
        lemma_render_flatten(content_type, seq![]);
        assert(text_of(pending) =~= seq![]);
        assert(html::escape_text(seq![]) =~= seq![]);
    } else {
        let rest = chunks.drop_first();
        let later_types = types.drop_first();
        let first = pending + chunks[0];
        let split = utf8_stream::split_utf8(first);
        assert(pending + chunks.flatten() =~= first + rest.flatten());
        assert(types[0] == content_type);
        assert forall|i: int| 0 <= i < later_types.len() implies #[trigger] later_types[i]
            == content_type by {
            assert(later_types[i] == types[i + 1]);
        }
        law_nothing_is_lost(first);
        law_cuts_make_no_difference(first, rest.flatten());
        law_chunks_are_read_as_one_stream(table, later_types, split.pending, rest);
        law_chunks_of_one_type_are_written_as_one_stream(
            table,
            content_type,
            later_types,
            split.pending,
            rest,
        );
        lemma_render_parts_bytes(table, content_type, split.pieces);
        law_rendering_concatenates(
            table,
            content_type,
            text_of(first),
            text_of(split.pending + rest.flatten()),
        );
    }
}

/// Valid UTF-8 is text up to its end.
proof fn lemma_valid_stream(stream: Seq<u8>)
    requires
        valid_utf8(stream),
    ensures
        utf8_stream::split_utf8(stream).ok,
        utf8_stream::split_utf8(stream).pending == Seq::<u8>::empty(),
        text_of(stream) == decode_utf8(stream),
{
    utf8_stream::lemma_split_utf8(stream);
    utf8_stream::lemma_text_len_append(stream, seq![]);
    assert(stream + Seq::<u8>::empty() =~= stream);
    assert(stream.take(stream.len() as int) =~= stream);
}

/// Chunks that together are valid UTF-8 are all accepted, and where they are of one type their text
/// is written in full.
pub proof fn law_valid_chunks_are_written_in_full(
    table: Map<char, Seq<u8>>,
    content_type: ContentType,
    types: Seq<ContentType>,
    chunks: Seq<Seq<u8>>,
)
    requires
        types.len() == chunks.len(),
        all_of_type(types, content_type),
        valid_utf8(chunks.flatten()),
    ensures
        written(table, types, seq![], chunks) == (
            rendered(table, content_type, decode_utf8(chunks.flatten())),
            Seq::<u8>::empty(),
            true,
        ),
{
    let stream = chunks.flatten();
    assert(Seq::<u8>::empty() + stream =~= stream);
    lemma_valid_stream(stream);
    law_chunks_are_read_as_one_stream(table, types, seq![], chunks);
    law_chunks_of_one_type_are_written_as_one_stream(table, content_type, types, seq![], chunks);
}

/// Each of the sinks but the first comes from the one before it by writing one more chunk of its
/// type, where `oks` says which of the calls succeed.
pub open spec fn follows(
    sinks: Seq<StreamingHandlerSink>,
    chunks: Seq<Seq<u8>>,
    types: Seq<ContentType>,
    oks: Seq<bool>,
) -> bool {
    &&& sinks.len() == chunks.len() + 1
    &&& types.len() == chunks.len()
    &&& oks.len() == chunks.len()
    &&& forall|i: int|
        0 <= i < chunks.len() ==> #[trigger] sink::chunk_written(
            sinks[i],
            chunks[i],
            types[i],
            sinks[i + 1],
            oks[i],
        )
}

/// The text that each call hands on: that of its chunk after what was pending before it.
pub open spec fn texts_of_calls(
    sinks: Seq<StreamingHandlerSink>,
    chunks: Seq<Seq<u8>>,
) -> Seq<Seq<char>> {
    Seq::new(chunks.len(), |i: int| text_of(sinks[i].pending() + chunks[i]))
}

/// The bytes that each call hands on: its text, rendered as its type asks and in the encoding.
pub open spec fn bytes_of_calls(
    table: Map<char, Seq<u8>>,
    sinks: Seq<StreamingHandlerSink>,
    chunks: Seq<Seq<u8>>,
    types: Seq<ContentType>,
) -> Seq<Seq<u8>> {
    Seq::new(
        chunks.len(),
        |i: int| rendered(table, types[i], text_of(sinks[i].pending() + chunks[i])),
    )
}

/// Chunks of any types that go on from what is pending and together with it are valid UTF-8, cut
/// anywhere, are all accepted by a sink. In the end nothing is pending, and each call has handed on
/// its share of the text, rendered as the type of that call asks and in the encoding: a character
/// that is split over calls belongs to the call that completes it.
pub proof fn law_sink_joins_chunks(
    sinks: Seq<StreamingHandlerSink>,
    chunks: Seq<Seq<u8>>,
    types: Seq<ContentType>,
    oks: Seq<bool>,
)
    requires
        follows(sinks, chunks, types, oks),
        sinks[0].wf(),
        valid_utf8(sinks[0].pending() + chunks.flatten()),
    ensures
        forall|i: int| 0 <= i < oks.len() ==> #[trigger] oks[i],
        sinks.last().pending() == Seq::<u8>::empty(),
        sinks[0].chunks().is_prefix_of(sinks.last().chunks()),
        bytes_since(sinks[0], sinks.last()) == bytes_of_calls(
            sinks[0].table(),
            sinks,
            chunks,
            types,
        ).flatten(),
        texts_of_calls(sinks, chunks).flatten() == decode_utf8(
            sinks[0].pending() + chunks.flatten(),
        ),
{
    let stream = sinks[0].pending() + chunks.flatten();
    sinks[0].lemma_pending();
    lemma_valid_stream(stream);
    law_chunks_are_read_as_one_stream(sinks[0].table(), types, sinks[0].pending(), chunks);
    lemma_follows(sinks, chunks, types, oks);
}

/// Where the chunks are of one type, a sink has in the end handed on the whole text, rendered and in
/// its encoding.
pub proof fn law_sink_joins_chunks_of_one_type(
    sinks: Seq<StreamingHandlerSink>,
    chunks: Seq<Seq<u8>>,
    content_type: ContentType,
    types: Seq<ContentType>,
    oks: Seq<bool>,
)
    requires
        follows(sinks, chunks, types, oks),
        all_of_type(types, content_type),
        sinks[0].wf(),
        valid_utf8(sinks[0].pending() + chunks.flatten()),
    ensures
        forall|i: int| 0 <= i < oks.len() ==> #[trigger] oks[i],
        sinks.last().pending() == Seq::<u8>::empty(),
        bytes_since(sinks[0], sinks.last()) == rendered(
            sinks[0].table(),
            content_type,
            decode_utf8(sinks[0].pending() + chunks.flatten()),
        ),
{
    let table = sinks[0].table();
    let pending = sinks[0].pending();
    sinks[0].lemma_pending();
    lemma_valid_stream(pending + chunks.flatten());
    law_chunks_are_read_as_one_stream(table, types, pending, chunks);
    law_chunks_of_one_type_are_written_as_one_stream(table, content_type, types, pending, chunks);
    lemma_follows(sinks, chunks, types, oks);
}

/// Calls that follow each other hand on what [`written`] says, as long as none fails, and that is
/// what each of them hands on in turn.
proof fn lemma_follows(
    sinks: Seq<StreamingHandlerSink>,
    chunks: Seq<Seq<u8>>,
    types: Seq<ContentType>,
    oks: Seq<bool>,
)
    requires
        follows(sinks, chunks, types, oks),
        sinks[0].pending().len() == 0 || utf8_stream::is_incomplete(sinks[0].pending()),
        written(sinks[0].table(), types, sinks[0].pending(), chunks).2,
    ensures
        ({
            let table = sinks[0].table();
            let (bytes, left, ok) = written(table, types, sinks[0].pending(), chunks);
            &&& forall|i: int| 0 <= i < oks.len() ==> #[trigger] oks[i]
            &&& sinks.last().pending() == left
            &&& sinks[0].chunks().is_prefix_of(sinks.last().chunks())
            &&& bytes_since(sinks[0], sinks.last()) == bytes
            &&& bytes == bytes_of_calls(table, sinks, chunks, types).flatten()
            &&& texts_of_calls(sinks, chunks).flatten() == text_of(
                sinks[0].pending() + chunks.flatten(),
            )
        }),
    decreases chunks.len(),
{
    let table = sinks[0].table();
    let pending = sinks[0].pending();
    let start = sinks[0].chunks();
    let end = sinks.last().chunks();
    let texts = texts_of_calls(sinks, chunks);
    let calls = bytes_of_calls(table, sinks, chunks, types);
    if chunks.len() == 0 {
        assert(end.skip(start.len() as int) =~= seq![]);
        assert(pending + chunks.flatten() =~= pending);
        utf8_stream::lemma_split_pending(pending);
        assert(calls =~= seq![]);
        assert(texts =~= seq![]);
    } else {
        let later_sinks = sinks.drop_first();
        let later_chunks = chunks.drop_first();
        let later_types = types.drop_first();
        let later_oks = oks.drop_first();
        let middle = sinks[1].chunks();
        let first = pending + chunks[0];
        let split = utf8_stream::split_utf8(first);
        lemma_follows_later(sinks, chunks, types, oks);
        law_nothing_is_lost(first);
        lemma_follows(later_sinks, later_chunks, later_types, later_oks);
        assert(later_sinks.last() == sinks.last());
        assert(end.skip(start.len() as int) =~= middle.skip(start.len() as int) + end.skip(
            middle.len() as int,
        ));
        lemma_flatten_concat(middle.skip(start.len() as int), end.skip(middle.len() as int));
        lemma_render_parts_bytes(table, types[0], split.pieces);
        assert(calls.drop_first() =~= bytes_of_calls(table, later_sinks, later_chunks, later_types));
        assert(texts.drop_first() =~= texts_of_calls(later_sinks, later_chunks));
        assert(pending + chunks.flatten() =~= first + later_chunks.flatten());
        law_cuts_make_no_difference(first, later_chunks.flatten());
        law_chunks_are_read_as_one_stream(table, later_types, split.pending, later_chunks);
        assert forall|i: int| 0 <= i < oks.len() implies #[trigger] oks[i] by {
            if i > 0 {
                assert(oks[i] == later_oks[i - 1]);
            }
        }
    }
}

/// Of chunks of any types that go on from what is pending and together with it cannot become valid
/// UTF-8, a sink refuses at least one, wherever they are cut.
pub proof fn law_sink_refuses_invalid_chunks(
    sinks: Seq<StreamingHandlerSink>,
    chunks: Seq<Seq<u8>>,
    types: Seq<ContentType>,
    oks: Seq<bool>,
)
    requires
        follows(sinks, chunks, types, oks),
        sinks[0].wf(),
        forall|more: Seq<u8>| !#[trigger] valid_utf8(
            sinks[0].pending() + chunks.flatten() + more,
        ),
    ensures
        exists|i: int| 0 <= i < oks.len() && !#[trigger] oks[i],
{
    let stream = sinks[0].pending() + chunks.flatten();
    sinks[0].lemma_pending();
    law_accepted_iff_it_can_become_valid(stream);
    law_chunks_are_read_as_one_stream(sinks[0].table(), types, sinks[0].pending(), chunks);
    if forall|i: int| 0 <= i < oks.len() ==> #[trigger] oks[i] {
        lemma_all_accepted(sinks, chunks, types, oks);
    }
}

/// Calls that follow each other and all succeed are what [`written`] says succeeds.
proof fn lemma_all_accepted(
    sinks: Seq<StreamingHandlerSink>,
    chunks: Seq<Seq<u8>>,
    types: Seq<ContentType>,
    oks: Seq<bool>,
)
    requires
        follows(sinks, chunks, types, oks),
        forall|i: int| 0 <= i < oks.len() ==> #[trigger] oks[i],
    ensures
        written(sinks[0].table(), types, sinks[0].pending(), chunks).2,
    decreases chunks.len(),
{
    if chunks.len() > 0 {
        lemma_follows_later(sinks, chunks, types, oks);
        lemma_all_accepted(
            sinks.drop_first(),
            chunks.drop_first(),
            types.drop_first(),
            oks.drop_first(),
        );
    }
}

/// The sinks after the first follow each other as well.
proof fn lemma_follows_later(
    sinks: Seq<StreamingHandlerSink>,
    chunks: Seq<Seq<u8>>,
    types: Seq<ContentType>,
    oks: Seq<bool>,
)
    requires
        follows(sinks, chunks, types, oks),
        chunks.len() > 0,
    ensures
        follows(
            sinks.drop_first(),
            chunks.drop_first(),
            types.drop_first(),
            oks.drop_first(),
        ),
        sink::chunk_written(sinks[0], chunks[0], types[0], sinks[1], oks[0]),
{
    let later_sinks = sinks.drop_first();
    let later_chunks = chunks.drop_first();
    let later_types = types.drop_first();
    let later_oks = oks.drop_first();
    assert(sink::chunk_written(sinks[0], chunks[0], types[0], sinks[0int + 1], oks[0]));
    assert forall|i: int| 0 <= i < later_chunks.len() implies #[trigger] sink::chunk_written(
        later_sinks[i],
        later_chunks[i],
        later_types[i],
        later_sinks[i + 1],
        later_oks[i],
    ) by {
        let j = i + 1;
        assert(sink::chunk_written(sinks[j], chunks[j], types[j], sinks[j + 1], oks[j]));
    }
}

/// Whatever chunks a sink for UTF-8 is handed as plain text, and whether it accepts them or not,
/// no byte that it hands on is an angle bracket.
pub proof fn law_text_chunks_write_no_markup(
    types: Seq<ContentType>,
    pending: Seq<u8>,
    chunks: Seq<Seq<u8>>,
)
    requires
        types.len() == chunks.len(),
        all_of_type(types, ContentType::Text),
    ensures
        ({
            let bytes = written(codec::utf8_table(), types, pending, chunks).0;
            forall|i: int|
                0 <= i < bytes.len() ==> (#[trigger] bytes[i]) != 0x3c && bytes[i] != 0x3e
        }),
    decreases chunks.len(),
{
    if chunks.len() > 0 {
        let table = codec::utf8_table();
        let later_types = types.drop_first();
        let split = utf8_stream::split_utf8(pending + chunks[0]);
        let head = rendered(table, ContentType::Text, split.pieces.flatten());
        assert(types[0] == ContentType::Text);
        assert forall|i: int| 0 <= i < later_types.len() implies #[trigger] later_types[i]
            == ContentType::Text by {
            assert(later_types[i] == types[i + 1]);
        }
        lemma_render_parts_bytes(table, ContentType::Text, split.pieces);
        law_escaped_bytes_have_no_markup(split.pieces.flatten());
        law_text_chunks_write_no_markup(later_types, split.pending, chunks.drop_first());
        let bytes = written(table, types, pending, chunks).0;
        let more = written(table, later_types, split.pending, chunks.drop_first()).0;
        assert forall|i: int| 0 <= i < bytes.len() implies (#[trigger] bytes[i]) != 0x3c && bytes[i]
            != 0x3e by {
            if i < head.len() {
                assert(bytes[i] == head[i]);
            } else {
                assert(bytes[i] == more[i - head.len()]);
            }
        }
    }
}

/// Each of the encoders but the first comes from the one before it by handing on one more text.
pub open spec fn encodes_in_turn(encoders: Seq<TextEncoder>, texts: Seq<Seq<char>>) -> bool {
    &&& encoders.len() == texts.len() + 1
    &&& forall|i: int|
        0 <= i < texts.len() ==> #[trigger] text_encoder::encoded(
            encoders[i],
            texts[i],
            encoders[i + 1],
        )
}

/// After any number of texts the buffer of an encoder is the one on the stack or has one of two
/// sizes on the heap, and nothing more would have to be written at the end of the text. The buffer
/// never shrinks, and once it is on the heap it keeps its size.
pub proof fn law_encoder_keeps_its_buffer(
    encoders: Seq<TextEncoder>,
    texts: Seq<Seq<char>>,
    earlier: int,
    later: int,
)
    requires
        encodes_in_turn(encoders, texts),
        encoders[0].wf(),
        0 <= earlier <= later < encoders.len(),
    ensures
        ({
            let before = encoders[earlier];
            let after = encoders[later];
            &&& after.room() == STACK_ROOM || after.room() == HEAP_ROOM || after.room()
                == LONG_ROOM
            &&& after.on_heap() <==> after.room() != STACK_ROOM
            &&& !after.has_pending_state()
            &&& after.table() == before.table()
            &&& before.room() <= after.room()
            &&& before.on_heap() ==> after.on_heap() && after.room() == before.room()
        }),
    decreases later,
{
    if later == 0 {
        encoders[0].lemma_buffer();
    } else {
        let step = later - 1;
        assert(text_encoder::encoded(encoders[step], texts[step], encoders[step + 1]));
        encoders[later].lemma_buffer();
        if earlier < later {
            law_encoder_keeps_its_buffer(encoders, texts, earlier, step);
        }
        if earlier == 0 {
            encoders[0].lemma_buffer();
        } else {
            let last = earlier - 1;
            assert(text_encoder::encoded(encoders[last], texts[last], encoders[last + 1]));
            encoders[earlier].lemma_buffer();
        }
    }
}

/// An unfinished character is flushed as soon as it is completed.
pub proof fn law_completed_character_is_flushed(pending: Seq<u8>, content: Seq<u8>, c: char)
    requires
        pending + content == encode_scalar(c as u32),
    ensures
        utf8_stream::split_utf8(pending + content) == (utf8_stream::Utf8Split {
            pieces: seq![seq![c]],
            pending: seq![],
            ok: true,
        }),
{
    let stream = pending + content;
    let room = utf8_stream::DECODE_ROOM as nat;
    lemma_one_char(c);
    encode_utf8_valid_utf8(seq![c]);
    encode_utf8_decode_utf8(seq![c]);
    utf8_text::lemma_encode_utf8_len(seq![c]);
    utf8_stream::lemma_valid_prefix_append(stream, seq![], room);
    assert(stream + Seq::<u8>::empty() =~= stream);
    assert(stream.take(stream.len() as int) =~= stream);
    assert(stream.skip(stream.len() as int) =~= seq![]);
}

/// An ASCII byte completes no unfinished character: a chunk that starts with one is refused, and
/// nothing of it is handed on.
pub proof fn law_ascii_does_not_complete_a_character(pending: Seq<u8>, content: Seq<u8>)
    requires
        utf8_stream::is_incomplete(pending),
        content.len() > 0,
        content[0] < 0x80,
    ensures
        utf8_stream::split_utf8(pending + content) == (utf8_stream::Utf8Split {
            pieces: seq![],
            pending: seq![],
            ok: false,
        }),
{
    let stream = pending + content;
    utf8_stream::lemma_incomplete(pending);
    let start = choose|c: char|
        {
            &&& pending.len() < (#[trigger] encode_scalar(c as u32)).len()
            &&& pending.is_prefix_of(encode_scalar(c as u32))
        };
    lemma_one_char(start);
    encode_utf8_first_scalar(seq![start]);
    assert(stream[0] == encode_scalar(start as u32)[0]);
    assert(stream[pending.len() as int] == content[0]);
    assert(!valid_first_scalar(stream));
    assert(stream.skip(0) =~= stream);
    if utf8_stream::is_incomplete(stream) {
        let c = choose|c: char|
            {
                &&& stream.len() < (#[trigger] encode_scalar(c as u32)).len()
                &&& stream.is_prefix_of(encode_scalar(c as u32))
            };
        lemma_scalar_bytes(c as u32);
        assert(encode_scalar(c as u32)[pending.len() as int] == content[0]);
    }
}

} // verus!
