//! What each call does, spelled out: over the bytes and characters themselves, for every input and
//! every outcome.

use vstd::prelude::*;
use vstd::seq_lib::*;
use vstd::utf8::*;

use crate::codec;
use crate::html;
use crate::html::ContentType;
use crate::laws;
use crate::output;
use crate::sink;
use crate::sink::{StreamingHandlerSink, StreamingHandlerSinkInner};
use crate::text_encoder;
use crate::text_encoder::TextEncoder;
use crate::utf8_stream;
use crate::utf8_text;

verus! {

/// A text is encoded character by character, each as the bytes that the table has for it.
pub proof fn law_encoding_goes_by_character(table: Map<char, Seq<u8>>, text: Seq<char>)
    ensures
        codec::encode_text(table, text) == text.map_values(|c: char| table[c]).flatten(),
    decreases text.len(),
{
    let spelled = text.map_values(|c: char| table[c]);
    if text.len() > 0 {
        let rest = text.drop_first();
        law_encoding_goes_by_character(table, rest);
        assert(spelled.drop_first() =~= rest.map_values(|c: char| table[c]));
    } else {
        assert(spelled =~= seq![]);
    }
}

/// In UTF-8 every character is encoded as its scalar value.
pub proof fn law_utf8_is_utf8(text: Seq<char>)
    ensures
        forall|c: char| #[trigger] codec::utf8_table()[c] == encode_scalar(c as u32),
        codec::encode_text(codec::utf8_table(), text) == encode_utf8(text),
{
    codec::lemma_encode_text_utf8(text);
}

/// Parts of a text are encoded one by one, each character by character.
pub proof fn law_parts_are_encoded_one_by_one(table: Map<char, Seq<u8>>, parts: Seq<Seq<char>>)
    ensures
        output::encode_parts(table, parts) == parts.map_values(
            |part: Seq<char>| part.map_values(|c: char| table[c]).flatten(),
        ),
{
    let spelled = parts.map_values(
        |part: Seq<char>| part.map_values(|c: char| table[c]).flatten(),
    );
    assert forall|i: int| 0 <= i < parts.len() implies #[trigger] spelled[i] == codec::encode_text(
        table,
        parts[i],
    ) by {
        law_encoding_goes_by_character(table, parts[i]);
    }
    assert(output::encode_parts(table, parts) =~= spelled);
}

/// Text is escaped character by character: `<` becomes `&lt;`, `>` becomes `&gt;`, `&` becomes
/// `&amp;`, and every other character stays itself.
pub proof fn law_escaping_goes_by_character(text: Seq<char>)
    ensures
        html::escape_text(text) == text.map_values(
            |c: char|
                if c == '<' {
                    seq!['&', 'l', 't', ';']
                } else if c == '>' {
                    seq!['&', 'g', 't', ';']
                } else if c == '&' {
                    seq!['&', 'a', 'm', 'p', ';']
                } else {
                    seq![c]
                },
        ).flatten(),
    decreases text.len(),
{
    let escaped = |c: char|
        if c == '<' {
            seq!['&', 'l', 't', ';']
        } else if c == '>' {
            seq!['&', 'g', 't', ';']
        } else if c == '&' {
            seq!['&', 'a', 'm', 'p', ';']
        } else {
            seq![c]
        };
    let spelled = text.map_values(escaped);
    if text.len() > 0 {
        let rest = text.drop_first();
        law_escaping_goes_by_character(rest);
        assert(spelled.drop_first() =~= rest.map_values(escaped));
        assert(spelled[0] =~= html::escape_char(text[0]));
    } else {
        assert(spelled =~= seq![]);
    }
}

/// Escaping loses nothing: two texts that are the same once escaped are the same.
pub proof fn law_escaping_can_be_undone(a: Seq<char>, b: Seq<char>)
    requires
        html::escape_text(a) == html::escape_text(b),
    ensures
        a == b,
    decreases a.len(),
{
    if a.len() > 0 && b.len() > 0 {
        let x = html::escape_char(a[0]);
        let y = html::escape_char(b[0]);
        let whole = html::escape_text(a);
        assert(whole[0] == x[0] && whole[0] == y[0]);
        assert(x.len() > 1 ==> whole[1] == x[1]);
        assert(y.len() > 1 ==> whole[1] == y[1]);
        assert(a[0] == b[0]);
        assert(whole.skip(x.len() as int) =~= html::escape_text(a.drop_first()));
        assert(whole.skip(x.len() as int) =~= html::escape_text(b.drop_first()));
        law_escaping_can_be_undone(a.drop_first(), b.drop_first());
        assert(a =~= seq![a[0]] + a.drop_first());
        assert(b =~= seq![b[0]] + b.drop_first());
    } else {
        assert(html::escape_text(a).len() == 0 ==> a.len() == 0);
        assert(html::escape_text(b).len() == 0 ==> b.len() == 0);
        assert(a =~= b);
    }
}

/// The pieces that text is escaped in: each is a reference or a run of text in which nothing had to
/// be escaped, no such run follows another, and none is empty. Together they are the escaped text.
pub proof fn law_escaped_pieces_are_references_and_runs(text: Seq<char>)
    ensures
        ({
            let pieces = html::escape_pieces(text);
            &&& pieces.flatten() == html::escape_text(text)
            &&& forall|i: int|
                0 <= i < pieces.len() ==> (#[trigger] pieces[i]).len() > 0 && (is_run(pieces[i])
                    || is_reference(pieces[i]))
            &&& forall|i: int, j: int|
                0 <= i && j == i + 1 && j < pieces.len() ==> is_reference(#[trigger] pieces[i])
                    || is_reference(#[trigger] pieces[j])
        }),
    decreases text.len(),
{
    let pieces = html::escape_pieces(text);
    let plain = html::plain_prefix(text);
    let rest = text.skip(plain.len() as int);
    html::lemma_escape_pieces(text);
    html::lemma_escape_pieces_nonempty(text);
    html::lemma_plain_prefix_is_prefix(text);
    lemma_plain_prefix_is_run(text);
    if rest.len() > 0 {
        let reference = html::escape_char(rest[0]);
        let start = output::one_piece(plain) + seq![reference];
        let more = html::escape_pieces(rest.drop_first());
        law_escaped_pieces_are_references_and_runs(rest.drop_first());
        assert(is_reference(reference));
        assert forall|i: int| 0 <= i < pieces.len() implies (#[trigger] pieces[i]).len() > 0 && (
        is_run(pieces[i]) || is_reference(pieces[i])) by {
            if i >= start.len() {
                assert(pieces[i] == more[i - start.len()]);
            }
        }
        assert forall|i: int, j: int|
            0 <= i && j == i + 1 && j < pieces.len() implies is_reference(#[trigger] pieces[i])
            || is_reference(#[trigger] pieces[j]) by {
            if i >= start.len() {
                assert(pieces[i] == more[i - start.len()]);
                assert(pieces[j] == more[j - start.len()]);
            }
        }
    }
}

/// A run of text in which nothing has to be escaped.
pub open spec fn is_run(piece: Seq<char>) -> bool {
    forall|i: int|
        0 <= i < piece.len() ==> (#[trigger] piece[i]) != '<' && piece[i] != '>' && piece[i] != '&'
}

/// One of the three references that escaping makes.
pub open spec fn is_reference(piece: Seq<char>) -> bool {
    ||| piece == seq!['&', 'l', 't', ';']
    ||| piece == seq!['&', 'g', 't', ';']
    ||| piece == seq!['&', 'a', 'm', 'p', ';']
}

/// Nothing in the plain prefix of a text has to be escaped.
proof fn lemma_plain_prefix_is_run(text: Seq<char>)
    ensures
        is_run(html::plain_prefix(text)),
    decreases text.len(),
{
    if text.len() > 0 && !html::is_markup(text[0]) {
        let rest = html::plain_prefix(text.drop_first());
        let plain = html::plain_prefix(text);
        lemma_plain_prefix_is_run(text.drop_first());
        assert forall|i: int| 0 <= i < plain.len() implies (#[trigger] plain[i]) != '<' && plain[i]
            != '>' && plain[i] != '&' by {
            if i > 0 {
                assert(plain[i] == rest[i - 1]);
            }
        }
    }
}

/// The bytes of all chunks are those of the earlier ones and then those of the new ones.
proof fn lemma_flatten_since(before: Seq<Seq<u8>>, after: Seq<Seq<u8>>)
    requires
        before.is_prefix_of(after),
    ensures
        after.flatten() == before.flatten() + after.skip(before.len() as int).flatten(),
{
    assert(after =~= before + after.skip(before.len() as int));
    lemma_flatten_concat(before, after.skip(before.len() as int));
}

/// What handing on pieces of text does to the chunks: the earlier ones stay as they are, no new one
/// is empty, and the new bytes are those of the pieces.
proof fn lemma_pieces_are_appended(
    table: Map<char, Seq<u8>>,
    pieces: Seq<Seq<char>>,
    before: Seq<Seq<u8>>,
    after: Seq<Seq<u8>>,
)
    requires
        output::emits(table, pieces, before, after),
    ensures
        before.is_prefix_of(after),
        forall|i: int| before.len() <= i < after.len() ==> (#[trigger] after[i]).len() > 0,
        after.flatten() == before.flatten() + codec::encode_text(table, pieces.flatten()),
{
    let fresh = after.skip(before.len() as int);
    lemma_flatten_since(before, after);
    assert forall|i: int| before.len() <= i < after.len() implies (#[trigger] after[i]).len()
        > 0 by {
        assert(after[i] == fresh[i - before.len()]);
    }
}

/// Writing a string, in any encoding and of either type: every chunk that was there stays as it is,
/// and the bytes that are added are U+FFFD where bytes of an unfinished character were pending,
/// whichever they were, and then the content. Markup is added as it is; of text every `<`, `>` and
/// `&` is replaced and every other character is kept. Nothing is pending afterwards, and the encoding
/// is the same.
pub proof fn law_string_is_appended(
    before: StreamingHandlerSink,
    content: Seq<char>,
    content_type: ContentType,
    after: StreamingHandlerSink,
)
    requires
        sink::string_written(before, content, content_type, after),
    ensures
        after.table() == before.table(),
        after.pending().len() == 0,
        before.chunks().is_prefix_of(after.chunks()),
        forall|i: int|
            before.chunks().len() <= i < after.chunks().len() ==> (
            #[trigger] after.chunks()[i]).len() > 0,
        after.chunks().flatten() == before.chunks().flatten() + (if before.pending().len() == 0 {
            Seq::<u8>::empty()
        } else {
            before.table()['\u{FFFD}']
        }) + match content_type {
            ContentType::Html => content,
            ContentType::Text => content.map_values(
                |c: char|
                    if c == '<' {
                        seq!['&', 'l', 't', ';']
                    } else if c == '>' {
                        seq!['&', 'g', 't', ';']
                    } else if c == '&' {
                        seq!['&', 'a', 'm', 'p', ';']
                    } else {
                        seq![c]
                    },
            ).flatten(),
        }.map_values(|c: char| before.table()[c]).flatten(),
{
    let table = before.table();
    let gap = sink::replacement(before.pending());
    let pieces = html::render_pieces(content_type, content);
    lemma_pieces_are_appended(table, gap + pieces, before.chunks(), after.chunks());
    lemma_flatten_concat(gap, pieces);
    laws::lemma_render_flatten(content_type, content);
    law_escaping_goes_by_character(content);
    codec::lemma_encode_text_append(table, gap.flatten(), pieces.flatten());
    law_encoding_goes_by_character(table, pieces.flatten());
    if before.pending().len() > 0 {
        let mark = seq!['\u{FFFD}'];
        seq![mark].lemma_flatten_one_element();
        law_encoding_goes_by_character(table, mark);
        assert(mark.map_values(|c: char| table[c]) =~= seq![table['\u{FFFD}']]);
        seq![table['\u{FFFD}']].lemma_flatten_one_element();
    } else {
        assert(gap.flatten() =~= seq![]);
    }
    assert(after.chunks().flatten() =~= before.chunks().flatten() + codec::encode_text(
        table,
        gap.flatten(),
    ) + codec::encode_text(table, pieces.flatten()));
}

/// Strings of any two types that are written one after the other are concatenated: in the end there
/// is what was there, then the first string, then the second, each rendered as its own type asks.
pub proof fn law_strings_of_any_types_are_concatenated(
    before: StreamingHandlerSink,
    first: Seq<char>,
    first_type: ContentType,
    middle: StreamingHandlerSink,
    second: Seq<char>,
    second_type: ContentType,
    after: StreamingHandlerSink,
)
    requires
        before.pending().len() == 0,
        sink::string_written(before, first, first_type, middle),
        sink::string_written(middle, second, second_type, after),
    ensures
        after.table() == before.table(),
        before.chunks().is_prefix_of(middle.chunks()),
        middle.chunks().is_prefix_of(after.chunks()),
        after.chunks().flatten() == before.chunks().flatten() + match first_type {
            ContentType::Html => first,
            ContentType::Text => html::escape_text(first),
        }.map_values(|c: char| before.table()[c]).flatten() + match second_type {
            ContentType::Html => second,
            ContentType::Text => html::escape_text(second),
        }.map_values(|c: char| before.table()[c]).flatten(),
{
    law_string_is_appended(before, first, first_type, middle);
    law_string_is_appended(middle, second, second_type, after);
    law_escaping_goes_by_character(first);
    law_escaping_goes_by_character(second);
}

/// Writing a fragment, whether it is accepted or refused, in any encoding and of either type. Gives
/// back the pieces of text that are handed on.
///
/// The fragment goes on from what is pending. It is accepted just where the bytes can become valid
/// UTF-8. Then all of them that are whole characters are handed on, and the others are pending. Where
/// it is refused nothing is pending, and of the whole characters at the start up to 1020 bytes are
/// not handed on: the pieces that are have at least 1021 bytes each. No piece has more than 1024
/// bytes, and none has room for the character that follows it.
///
/// Every chunk that was there stays as it is, and the bytes that are added are those pieces and
/// nothing else: as they are where they are markup, and with every `<`, `>` and `&` replaced where
/// they are text. The encoding is the same.
pub proof fn law_fragment_is_appended(
    before: StreamingHandlerSink,
    content: Seq<u8>,
    content_type: ContentType,
    after: StreamingHandlerSink,
    ok: bool,
) -> (pieces: Seq<Seq<char>>)
    requires
        sink::chunk_written(before, content, content_type, after, ok),
    ensures
        pieces == utf8_stream::split_utf8(before.pending() + content).pieces,
        after.table() == before.table(),
        ok <==> exists|more: Seq<u8>| #[trigger] valid_utf8(before.pending() + content + more),
        encode_utf8(pieces.flatten()).is_prefix_of(before.pending() + content),
        ok ==> encode_utf8(pieces.flatten()) + after.pending() == before.pending() + content,
        ok ==> forall|n: int|
            encode_utf8(pieces.flatten()).len() < n <= (before.pending() + content).len()
                ==> !valid_utf8(#[trigger] (before.pending() + content).take(n)),
        !ok ==> after.pending().len() == 0,
        !ok ==> forall|n: int|
            encode_utf8(pieces.flatten()).len() + 1020 < n <= (before.pending() + content).len()
                ==> !valid_utf8(#[trigger] (before.pending() + content).take(n)),
        !ok ==> forall|i: int|
            0 <= i < pieces.len() ==> encode_utf8(#[trigger] pieces[i]).len() >= 1021,
        forall|i: int|
            0 <= i < pieces.len() ==> 0 < encode_utf8(#[trigger] pieces[i]).len() <= 1024,
        forall|i: int, j: int|
            0 <= i && j == i + 1 && j < pieces.len() ==> encode_utf8(#[trigger] pieces[i]).len()
                + encode_utf8((#[trigger] pieces[j]).take(1)).len() > 1024,
        before.chunks().is_prefix_of(after.chunks()),
        forall|i: int|
            before.chunks().len() <= i < after.chunks().len() ==> (
            #[trigger] after.chunks()[i]).len() > 0,
        after.chunks().flatten() == before.chunks().flatten() + match content_type {
            ContentType::Html => pieces.flatten(),
            ContentType::Text => pieces.flatten().map_values(
                |c: char|
                    if c == '<' {
                        seq!['&', 'l', 't', ';']
                    } else if c == '>' {
                        seq!['&', 'g', 't', ';']
                    } else if c == '&' {
                        seq!['&', 'a', 'm', 'p', ';']
                    } else {
                        seq![c]
                    },
            ).flatten(),
        }.map_values(|c: char| before.table()[c]).flatten(),
{
    let table = before.table();
    let stream = before.pending() + content;
    let split = utf8_stream::split_utf8(stream);
    let pieces = split.pieces;
    let text = pieces.flatten();
    laws::law_accepted_iff_it_can_become_valid(stream);
    utf8_stream::lemma_split_pieces(stream);
    utf8_stream::lemma_split_utf8(stream);
    if ok {
        laws::law_nothing_is_lost(stream);
    }
    assert forall|n: int| 0 <= n <= stream.len() && valid_utf8(#[trigger] stream.take(n)) implies n
        <= utf8_stream::text_len(stream) by {
        utf8_stream::lemma_valid_is_text(stream, n);
    }
    assert forall|i: int| 0 <= i < pieces.len() implies 0 < encode_utf8(#[trigger] pieces[i]).len()
        <= 1024 by {
        utf8_text::lemma_encode_utf8_len(pieces[i]);
    }
    lemma_pieces_are_appended(
        table,
        html::render_parts(content_type, pieces),
        before.chunks(),
        after.chunks(),
    );
    laws::lemma_render_parts_bytes(table, content_type, pieces);
    laws::lemma_render_flatten(content_type, text);
    law_escaping_goes_by_character(text);
    law_encoding_goes_by_character(
        table,
        html::render_pieces(content_type, text).flatten(),
    );
    pieces
}

/// A fragment that is refused within its first 1021 bytes hands on nothing at all.
pub proof fn law_early_refusal_hands_on_nothing(
    before: StreamingHandlerSink,
    content: Seq<u8>,
    content_type: ContentType,
    after: StreamingHandlerSink,
)
    requires
        sink::chunk_written(before, content, content_type, after, false),
        forall|n: int|
            1021 <= n <= (before.pending() + content).len() ==> !valid_utf8(
                #[trigger] (before.pending() + content).take(n),
            ),
    ensures
        after.chunks() == before.chunks(),
        after.pending().len() == 0,
        after.table() == before.table(),
{
    let stream = before.pending() + content;
    let pieces = law_fragment_is_appended(before, content, content_type, after, false);
    let bytes = encode_utf8(pieces.flatten());
    if pieces.len() > 0 {
        assert(encode_utf8(pieces[0]).len() >= 1021);
        assert(pieces =~= seq![pieces[0]] + pieces.drop_first());
        utf8_text::lemma_encode_utf8_append(pieces[0], pieces.drop_first().flatten());
        encode_utf8_valid_utf8(pieces.flatten());
        assert(stream.take(bytes.len() as int) =~= bytes);
    }
    let text = pieces.flatten();
    assert(text =~= seq![]);
    law_escaping_goes_by_character(text);
    law_encoding_goes_by_character(before.table(), seq![]);
    assert(html::escape_text(seq![]) =~= seq![]);
    assert(after.chunks().flatten() =~= before.chunks().flatten());
    lemma_flatten_since(before.chunks(), after.chunks());
    let fresh = after.chunks().skip(before.chunks().len() as int);
    if fresh.len() > 0 {
        assert(fresh[0] == after.chunks()[before.chunks().len() as int]);
        assert(fresh.flatten().len() > 0);
    }
    assert(after.chunks() =~= before.chunks());
}

/// In UTF-8 no fragment of text, accepted or refused, and no string of text adds a byte `<` or `>`.
pub proof fn law_utf8_text_adds_no_angle_bracket(
    before: StreamingHandlerSink,
    content: Seq<u8>,
    text: Seq<char>,
    after: StreamingHandlerSink,
    ok: bool,
)
    requires
        before.table() == codec::utf8_table(),
        sink::chunk_written(before, content, ContentType::Text, after, ok) || sink::string_written(
            before,
            text,
            ContentType::Text,
            after,
        ),
    ensures
        before.chunks().is_prefix_of(after.chunks()),
        forall|i: int|
            before.chunks().flatten().len() <= i < after.chunks().flatten().len() ==> (
            #[trigger] after.chunks().flatten()[i]) != 0x3c && after.chunks().flatten()[i] != 0x3e,
{
    let table = before.table();
    let old_bytes = before.chunks().flatten();
    let bytes = after.chunks().flatten();
    if sink::chunk_written(before, content, ContentType::Text, after, ok) {
        let pieces = law_fragment_is_appended(before, content, ContentType::Text, after, ok);
        let whole = pieces.flatten();
        law_escaping_goes_by_character(whole);
        law_encoding_goes_by_character(table, html::escape_text(whole));
        laws::law_escaped_bytes_have_no_markup(whole);
        laws::lemma_render_flatten(ContentType::Text, whole);
        let added = laws::rendered(table, ContentType::Text, whole);
        assert(bytes =~= old_bytes + added);
        assert forall|i: int| old_bytes.len() <= i < bytes.len() implies (#[trigger] bytes[i])
            != 0x3c && bytes[i] != 0x3e by {
            assert(bytes[i] == added[i - old_bytes.len()]);
        }
    } else {
        law_string_is_appended(before, text, ContentType::Text, after);
        law_escaping_goes_by_character(text);
        law_encoding_goes_by_character(table, html::escape_text(text));
        laws::law_escaped_bytes_have_no_markup(text);
        laws::lemma_render_flatten(ContentType::Text, text);
        let added = laws::rendered(table, ContentType::Text, text);
        let mark = seq!['\u{FFFD}'];
        let gap = if before.pending().len() == 0 {
            Seq::<u8>::empty()
        } else {
            table['\u{FFFD}']
        };
        laws::lemma_one_char('\u{FFFD}');
        laws::lemma_bytes_without(mark);
        assert(bytes =~= old_bytes + gap + added);
        assert forall|i: int| old_bytes.len() <= i < bytes.len() implies (#[trigger] bytes[i])
            != 0x3c && bytes[i] != 0x3e by {
            if i < old_bytes.len() + gap.len() {
                assert(bytes[i] == encode_utf8(mark)[i - old_bytes.len()]);
            } else {
                assert(bytes[i] == added[i - old_bytes.len() - gap.len()]);
            }
        }
    }
}

/// One call leads from a sink to another: of a string or of a fragment, of any content and type, and
/// accepted or refused.
pub open spec fn is_one_call(before: StreamingHandlerSink, after: StreamingHandlerSink) -> bool {
    ||| exists|content: Seq<char>, content_type: ContentType|
        sink::string_written(before, content, content_type, after)
    ||| exists|content: Seq<u8>, content_type: ContentType, ok: bool|
        sink::chunk_written(before, content, content_type, after, ok)
}

/// Over any calls of a sink, of strings and of fragments of any types, refused ones among them, the
/// encoding stays what it was, and nothing that was handed on is changed or taken back.
pub proof fn law_calls_keep_encoding_and_output(
    sinks: Seq<StreamingHandlerSink>,
    earlier: int,
    later: int,
)
    requires
        0 <= earlier <= later < sinks.len(),
        forall|i: int, j: int|
            0 <= i && j == i + 1 && j < sinks.len() ==> is_one_call(
                #[trigger] sinks[i],
                #[trigger] sinks[j],
            ),
    ensures
        sinks[later].table() == sinks[earlier].table(),
        sinks[earlier].chunks().is_prefix_of(sinks[later].chunks()),
    decreases later - earlier,
{
    if earlier < later {
        let last = later - 1;
        law_calls_keep_encoding_and_output(sinks, earlier, last);
        assert(is_one_call(sinks[last], sinks[later]));
        if exists|content: Seq<char>, content_type: ContentType|
            sink::string_written(sinks[last], content, content_type, sinks[later]) {
            let (content, content_type) = choose|content: Seq<char>, content_type: ContentType|
                sink::string_written(sinks[last], content, content_type, sinks[later]);
            law_string_is_appended(sinks[last], content, content_type, sinks[later]);
        } else {
            let (content, content_type, ok) = choose|
                content: Seq<u8>,
                content_type: ContentType,
                ok: bool,
            |
                sink::chunk_written(sinks[last], content, content_type, sinks[later], ok);
            law_fragment_is_appended(sinks[last], content, content_type, sinks[later], ok);
        }
        let a = sinks[earlier].chunks();
        let b = sinks[last].chunks();
        let c = sinks[later].chunks();
        assert forall|i: int| 0 <= i < a.len() implies a[i] == c[i] by {
            assert(a[i] == b[i]);
            assert(b[i] == c[i]);
        }
        assert(a =~= c.take(a.len() as int));
    }
}

/// Writing a string and writing its bytes as a fragment add the same bytes, where nothing is pending.
pub proof fn law_string_is_the_fragment_of_its_bytes(
    before: StreamingHandlerSink,
    content: Seq<char>,
    content_type: ContentType,
    by_string: StreamingHandlerSink,
    by_fragment: StreamingHandlerSink,
    ok: bool,
)
    requires
        before.pending().len() == 0,
        sink::string_written(before, content, content_type, by_string),
        sink::chunk_written(before, encode_utf8(content), content_type, by_fragment, ok),
    ensures
        ok,
        by_fragment.pending() == by_string.pending(),
        by_fragment.table() == by_string.table(),
        by_fragment.chunks().flatten() == by_string.chunks().flatten(),
{
    let stream = before.pending() + encode_utf8(content);
    assert(stream =~= encode_utf8(content));
    encode_utf8_valid_utf8(content);
    assert(stream + Seq::<u8>::empty() =~= stream);
    assert(valid_utf8(stream + Seq::<u8>::empty()));
    assert(before.pending() + encode_utf8(content) + Seq::<u8>::empty() =~= stream);
    law_string_is_appended(before, content, content_type, by_string);
    let pieces = law_fragment_is_appended(
        before,
        encode_utf8(content),
        content_type,
        by_fragment,
        ok,
    );
    assert(stream.take(stream.len() as int) =~= stream);
    assert(encode_utf8(pieces.flatten()) =~= stream);
    utf8_text::lemma_encode_utf8_injective(pieces.flatten(), content);
    assert(by_fragment.pending() =~= by_string.pending());
}

/// A string that is written after any calls, refused ones among them, is handed on in the encoding
/// that the sink had before all of them.
pub proof fn law_later_string_is_in_the_first_encoding(
    sinks: Seq<StreamingHandlerSink>,
    content: Seq<char>,
    content_type: ContentType,
    after: StreamingHandlerSink,
)
    requires
        sinks.len() > 0,
        forall|i: int, j: int|
            0 <= i && j == i + 1 && j < sinks.len() ==> is_one_call(
                #[trigger] sinks[i],
                #[trigger] sinks[j],
            ),
        sinks.last().pending().len() == 0,
        sink::string_written(sinks.last(), content, content_type, after),
    ensures
        sinks[0].chunks().is_prefix_of(sinks.last().chunks()),
        sinks.last().chunks().is_prefix_of(after.chunks()),
        after.table() == sinks[0].table(),
        after.chunks().flatten() == sinks.last().chunks().flatten() + match content_type {
            ContentType::Html => content,
            ContentType::Text => html::escape_text(content),
        }.map_values(|c: char| sinks[0].table()[c]).flatten(),
{
    law_calls_keep_encoding_and_output(sinks, 0, sinks.len() - 1);
    law_string_is_appended(sinks.last(), content, content_type, after);
    law_escaping_goes_by_character(content);
}

/// What the inner sink adds: markup as it is, text with every `<`, `>` and `&` replaced, and a string
/// as its type asks. Every chunk that was there stays as it is, and so does the encoding.
pub proof fn law_inner_writes_are_appended(
    before: StreamingHandlerSinkInner,
    content: Seq<char>,
    content_type: ContentType,
    after: StreamingHandlerSinkInner,
)
    requires
        sink::str_written(before, content, content_type, after) || (content_type
            == ContentType::Html && sink::html_written(before, content, after)) || (content_type
            == ContentType::Text && sink::body_text_written(before, content, after)),
    ensures
        after.table() == before.table(),
        before.chunks().is_prefix_of(after.chunks()),
        forall|i: int|
            before.chunks().len() <= i < after.chunks().len() ==> (
            #[trigger] after.chunks()[i]).len() > 0,
        after.chunks().flatten() == before.chunks().flatten() + match content_type {
            ContentType::Html => content,
            ContentType::Text => html::escape_text(content),
        }.map_values(|c: char| before.table()[c]).flatten(),
{
    let table = before.table();
    let pieces = html::render_pieces(content_type, content);
    lemma_pieces_are_appended(table, pieces, before.chunks(), after.chunks());
    laws::lemma_render_flatten(content_type, content);
    law_encoding_goes_by_character(table, pieces.flatten());
}

/// In UTF-8 a string is handed on as one chunk where it is markup, and as one chunk for each
/// reference and each run between them where it is text. A replacement character is a chunk of its
/// own before that.
pub proof fn law_utf8_string_chunks(
    before: StreamingHandlerSink,
    content: Seq<char>,
    content_type: ContentType,
    after: StreamingHandlerSink,
)
    requires
        before.table() == codec::utf8_table(),
        sink::string_written(before, content, content_type, after),
    ensures
        after.chunks() == before.chunks() + (if before.pending().len() == 0 {
            Seq::<Seq<u8>>::empty()
        } else {
            seq![encode_utf8(seq!['\u{FFFD}'])]
        }) + match content_type {
            ContentType::Html => if content.len() == 0 {
                Seq::<Seq<u8>>::empty()
            } else {
                seq![encode_utf8(content)]
            },
            ContentType::Text => html::escape_pieces(content).map_values(
                |piece: Seq<char>| encode_utf8(piece),
            ),
        },
{
    let table = before.table();
    let gap = sink::replacement(before.pending());
    let pieces = html::render_pieces(content_type, content);
    lemma_utf8_parts(gap + pieces);
    assert((gap + pieces).map_values(|piece: Seq<char>| encode_utf8(piece)) =~= gap.map_values(
        |piece: Seq<char>| encode_utf8(piece),
    ) + pieces.map_values(|piece: Seq<char>| encode_utf8(piece)));
    let gap_chunks = gap.map_values(|piece: Seq<char>| encode_utf8(piece));
    let chunks = pieces.map_values(|piece: Seq<char>| encode_utf8(piece));
    if before.pending().len() > 0 {
        assert(gap_chunks =~= seq![encode_utf8(seq!['\u{FFFD}'])]);
    } else {
        assert(gap_chunks =~= seq![]);
    }
    if content_type == ContentType::Html {
        if content.len() == 0 {
            assert(chunks =~= seq![]);
        } else {
            assert(chunks =~= seq![encode_utf8(content)]);
        }
    }
    assert(after.chunks() =~= before.chunks() + gap_chunks + chunks);
}

/// In UTF-8 each part is encoded as UTF-8.
proof fn lemma_utf8_parts(parts: Seq<Seq<char>>)
    ensures
        output::encode_parts(codec::utf8_table(), parts) == parts.map_values(
            |piece: Seq<char>| encode_utf8(piece),
        ),
{
    let encoded = output::encode_parts(codec::utf8_table(), parts);
    assert forall|i: int| 0 <= i < parts.len() implies #[trigger] encoded[i] == encode_utf8(
        parts[i],
    ) by {
        codec::lemma_encode_text_utf8(parts[i]);
    }
    assert(encoded =~= parts.map_values(|piece: Seq<char>| encode_utf8(piece)));
}

/// In UTF-8 a fragment is handed on, whether it is accepted or refused, as one chunk for each piece
/// of text that it is decoded in where it is markup, and as one chunk for each reference and each run
/// in each of those pieces where it is text.
pub proof fn law_utf8_fragment_chunks(
    before: StreamingHandlerSink,
    content: Seq<u8>,
    content_type: ContentType,
    after: StreamingHandlerSink,
    ok: bool,
)
    requires
        before.table() == codec::utf8_table(),
        sink::chunk_written(before, content, content_type, after, ok),
    ensures
        ({
            let pieces = utf8_stream::split_utf8(before.pending() + content).pieces;
            after.chunks() == before.chunks() + match content_type {
                ContentType::Html => pieces,
                ContentType::Text => pieces.map_values(
                    |piece: Seq<char>| html::escape_pieces(piece),
                ).flatten(),
            }.map_values(|piece: Seq<char>| encode_utf8(piece))
        }),
{
    let pieces = utf8_stream::split_utf8(before.pending() + content).pieces;
    let rendered = html::render_parts(content_type, pieces);
    utf8_stream::lemma_split_pieces(before.pending() + content);
    lemma_markup_parts(pieces);
    lemma_utf8_parts(rendered);
    assert(pieces.map_values(|piece: Seq<char>| html::render_pieces(ContentType::Text, piece))
        =~= pieces.map_values(|piece: Seq<char>| html::escape_pieces(piece)));
}

/// Rendering markup in parts keeps the parts, where none is empty.
proof fn lemma_markup_parts(parts: Seq<Seq<char>>)
    requires
        forall|i: int| 0 <= i < parts.len() ==> (#[trigger] parts[i]).len() > 0,
    ensures
        html::render_parts(ContentType::Html, parts) == parts,
    decreases parts.len(),
{
    if parts.len() == 0 {
        assert(html::render_parts(ContentType::Html, parts) =~= parts);
    } else {
        let first = parts[0];
        let rest = parts.drop_first();
        assert forall|i: int| 0 <= i < rest.len() implies (#[trigger] rest[i]).len() > 0 by {
            assert(rest[i] == parts[i + 1]);
        }
        lemma_markup_parts(rest);
        html::lemma_render_parts_append(ContentType::Html, seq![first], rest);
        html::lemma_render_one_part(ContentType::Html, first);
        assert(output::one_piece(first) =~= seq![first]);
        assert(seq![first] + rest =~= parts);
    }
}

/// Writing body text hands on the same chunks, in every encoding, as writing as markup, one after the
/// other, each of the pieces that the text is escaped in.
pub proof fn law_body_text_is_its_pieces_in_turn(
    before: StreamingHandlerSinkInner,
    plaintext: Seq<char>,
    after: StreamingHandlerSinkInner,
    steps: Seq<StreamingHandlerSinkInner>,
)
    requires
        sink::body_text_written(before, plaintext, after),
        steps.len() == html::escape_pieces(plaintext).len() + 1,
        laws::same_state(before, steps[0]),
        forall|i: int, j: int|
            0 <= i && j == i + 1 && j < steps.len() ==> sink::html_written(
                #[trigger] steps[i],
                html::escape_pieces(plaintext)[i],
                #[trigger] steps[j],
            ),
    ensures
        laws::same_state(after, steps.last()),
{
    let pieces = html::escape_pieces(plaintext);
    html::lemma_escape_pieces_nonempty(plaintext);
    lemma_steps(pieces, steps, steps.len() - 1);
    assert(pieces.take(pieces.len() as int) =~= pieces);
}

/// Writing pieces as markup one after the other hands on all of them.
proof fn lemma_steps(
    pieces: Seq<Seq<char>>,
    steps: Seq<StreamingHandlerSinkInner>,
    count: int,
)
    requires
        0 <= count <= pieces.len(),
        steps.len() == pieces.len() + 1,
        forall|i: int| 0 <= i < pieces.len() ==> (#[trigger] pieces[i]).len() > 0,
        forall|i: int, j: int|
            0 <= i && j == i + 1 && j < steps.len() ==> sink::html_written(
                #[trigger] steps[i],
                pieces[i],
                #[trigger] steps[j],
            ),
    ensures
        sink::inner_wrote(steps[0], pieces.take(count), steps[count]),
    decreases count,
{
    if count == 0 {
        sink::lemma_inner_wrote_nothing(steps[0]);
        assert(pieces.take(0) =~= seq![]);
    } else {
        let last = count - 1;
        lemma_steps(pieces, steps, last);
        assert(pieces[last].len() > 0);
        assert(sink::html_written(steps[last], pieces[last], steps[count]));
        sink::lemma_inner_wrote_append(
            steps[0],
            pieces.take(last),
            steps[last],
            output::one_piece(pieces[last]),
            steps[count],
        );
        assert(pieces.take(count) =~= pieces.take(last) + output::one_piece(pieces[last]));
    }
}

/// Outside UTF-8 markup is handed on in the pieces that the encoder cuts it into, one chunk for each.
pub proof fn law_encoded_markup_chunks(
    before: StreamingHandlerSink,
    html: Seq<char>,
    after: StreamingHandlerSink,
)
    requires
        before.table() != codec::utf8_table(),
        before.pending().len() == 0,
        html.len() > 0,
        sink::string_written(before, html, ContentType::Html, after),
    ensures
        after.room() == text_encoder::room_after(before.table(), before.room(), html),
        after.chunks() == before.chunks() + text_encoder::cut_pieces(
            before.table(),
            before.room(),
            html,
        ).map_values(
            |piece: Seq<char>| piece.map_values(|c: char| before.table()[c]).flatten(),
        ),
{
    let table = before.table();
    let room = before.room();
    let pieces = seq![html];
    let parts = text_encoder::cut_pieces(table, room, html);
    let later = text_encoder::room_after(table, room, html);
    assert(sink::replacement(before.pending()) + output::one_piece(html) =~= pieces);
    assert(pieces.drop_first() =~= seq![]);
    reveal_with_fuel(sink::room_after_pieces, 2);
    assert(sink::chunks_of(table, later, pieces.drop_first()) =~= seq![]);
    assert(sink::chunks_of(table, room, pieces) =~= output::encode_parts(table, parts));
    law_parts_are_encoded_one_by_one(table, parts);
}

/// Each of the sinks but the first comes from the one before it by writing one more string of this
/// type, and nothing is pending in the first.
pub open spec fn writes_in_turn(
    steps: Seq<StreamingHandlerSink>,
    strings: Seq<Seq<char>>,
    content_type: ContentType,
) -> bool {
    &&& steps.len() == strings.len() + 1
    &&& steps[0].pending().len() == 0
    &&& forall|i: int, j: int|
        0 <= i && j == i + 1 && j < steps.len() ==> sink::string_written(
            #[trigger] steps[i],
            strings[i],
            content_type,
            #[trigger] steps[j],
        )
}

/// Writing text hands on the same chunks, in every encoding, as writing as markup, one after the
/// other, each of the pieces that the text is escaped in.
pub proof fn law_text_is_its_pieces_in_turn(
    before: StreamingHandlerSink,
    content: Seq<char>,
    after: StreamingHandlerSink,
    steps: Seq<StreamingHandlerSink>,
)
    requires
        before.pending().len() == 0,
        sink::string_written(before, content, ContentType::Text, after),
        writes_in_turn(steps, html::escape_pieces(content), ContentType::Html),
        steps[0].table() == before.table(),
        steps[0].room() == before.room(),
        steps[0].chunks() == before.chunks(),
    ensures
        steps.last().chunks() == after.chunks(),
        steps.last().room() == after.room(),
{
    let pieces = html::escape_pieces(content);
    html::lemma_escape_pieces_nonempty(content);
    lemma_writes_in_turn(steps, pieces, ContentType::Html, pieces.len() as int);
    assert(pieces.take(pieces.len() as int) =~= pieces);
    lemma_markup_parts(pieces);
    assert(sink::replacement(before.pending()) + pieces =~= pieces);
}

/// Writing a fragment, whether it is accepted or refused, hands on the same chunks, in every encoding
/// and of either type, as writing as strings, one after the other, the pieces of text that it is
/// decoded in.
pub proof fn law_fragment_is_its_pieces_in_turn(
    before: StreamingHandlerSink,
    content: Seq<u8>,
    content_type: ContentType,
    after: StreamingHandlerSink,
    ok: bool,
    steps: Seq<StreamingHandlerSink>,
)
    requires
        sink::chunk_written(before, content, content_type, after, ok),
        writes_in_turn(
            steps,
            utf8_stream::split_utf8(before.pending() + content).pieces,
            content_type,
        ),
        steps[0].table() == before.table(),
        steps[0].room() == before.room(),
        steps[0].chunks() == before.chunks(),
    ensures
        steps.last().chunks() == after.chunks(),
        steps.last().room() == after.room(),
{
    let pieces = utf8_stream::split_utf8(before.pending() + content).pieces;
    lemma_writes_in_turn(steps, pieces, content_type, pieces.len() as int);
    assert(pieces.take(pieces.len() as int) =~= pieces);
}

/// Writing strings one after the other hands on what they are rendered as, one after the other.
proof fn lemma_writes_in_turn(
    steps: Seq<StreamingHandlerSink>,
    strings: Seq<Seq<char>>,
    content_type: ContentType,
    count: int,
)
    requires
        writes_in_turn(steps, strings, content_type),
        0 <= count <= strings.len(),
    ensures
        ({
            let table = steps[0].table();
            let room = steps[0].room();
            let pieces = html::render_parts(content_type, strings.take(count));
            &&& steps[count].table() == table
            &&& steps[count].pending().len() == 0
            &&& steps[count].room() == sink::room_after_pieces(table, room, pieces)
            &&& steps[count].chunks() == steps[0].chunks() + sink::chunks_of(table, room, pieces)
        }),
    decreases count,
{
    let table = steps[0].table();
    let room = steps[0].room();
    let pieces = html::render_parts(content_type, strings.take(count));
    if count == 0 {
        assert(strings.take(0) =~= seq![]);
        assert(pieces =~= seq![]);
        assert(sink::chunks_of(table, room, pieces) =~= seq![]);
        assert(steps[0].chunks() + Seq::<Seq<u8>>::empty() =~= steps[0].chunks());
    } else {
        let last = count - 1;
        let earlier = html::render_parts(content_type, strings.take(last));
        let added = html::render_pieces(content_type, strings[last]);
        lemma_writes_in_turn(steps, strings, content_type, last);
        assert(sink::string_written(steps[last], strings[last], content_type, steps[count]));
        assert(sink::replacement(steps[last].pending()) + added =~= added);
        assert(strings.take(count) =~= strings.take(last) + seq![strings[last]]);
        html::lemma_render_parts_append(content_type, strings.take(last), seq![strings[last]]);
        let f = |part: Seq<char>| html::render_pieces(content_type, part);
        assert(seq![strings[last]].map_values(f) =~= seq![f(strings[last])]);
        seq![f(strings[last])].lemma_flatten_one_element();
        assert(pieces == earlier + added);
        sink::lemma_chunks_of_append(table, room, earlier, added);
        assert(steps[count].chunks() =~= steps[0].chunks() + sink::chunks_of(table, room, pieces));
    }
}

/// How the encoder cuts a text. The pieces are the text, and none is empty. A piece is all ASCII, and
/// then no ASCII follows it, or it does not start with ASCII, and then it is as much of what is left
/// as the encoder reads into the buffer: the one of 63 bytes or the grown one for the first such
/// piece, where it is 4096 bytes for content of 1048576 bytes or more, and for all later ones one of
/// at least 1024 bytes.
pub proof fn law_encoder_cuts(table: Map<char, Seq<u8>>, room: nat, text: Seq<char>)
    ensures
        ({
            let pieces = text_encoder::cut_pieces(table, room, text);
            &&& pieces.flatten() == text
            &&& forall|i: int| 0 <= i < pieces.len() ==> (#[trigger] pieces[i]).len() > 0
            &&& forall|i: int|
                0 <= i < pieces.len() ==> (#[trigger] pieces[i])[0] > '\u{7f}' || is_all_ascii(
                    pieces[i],
                )
            &&& forall|i: int, j: int|
                0 <= i && j == i + 1 && j < pieces.len() && is_all_ascii(#[trigger] pieces[i])
                    ==> (#[trigger] pieces[j])[0] > '\u{7f}'
            &&& forall|i: int|
                0 <= i < pieces.len() && (#[trigger] pieces[i])[0] > '\u{7f}' ==> is_as_much_as_read(
                    table,
                    buffer_for(room, pieces, i),
                    pieces[i],
                    pieces.skip(i).flatten(),
                )
        }),
    decreases text.len(),
{
    let pieces = text_encoder::cut_pieces(table, room, text);
    let lead = utf8_text::ascii_prefix(text);
    let rest = utf8_text::after_ascii(text);
    let now = text_encoder::working_room(room, rest);
    let count = codec::encoder_reads(table, rest, now);
    text_encoder::lemma_cut_pieces(table, room, text);
    output::lemma_one_piece(text);
    utf8_text::lemma_ascii_prefix_is_prefix(text);
    lemma_after_ascii(text);
    let start = output::one_piece(lead);
    output::lemma_one_piece(lead);
    if lead.len() > 0 {
        assert(is_all_ascii(lead));
    }
    let (part, left) = if 0 < count < rest.len() {
        (rest.take(count as int), rest.skip(count as int))
    } else {
        (rest, Seq::<char>::empty())
    };
    let grown = text_encoder::grown_room(now);
    let more = if 0 < count < rest.len() {
        text_encoder::cut_pieces(table, grown, left)
    } else {
        Seq::<Seq<char>>::empty()
    };
    let first = output::one_piece(part);
    assert(pieces =~= start + first + more);
    if 0 < count < rest.len() {
        law_encoder_cuts(table, grown, left);
    }
    let base = start.len() + first.len();
    lemma_flatten_concat(start, first + more);
    lemma_flatten_concat(first, more);
    output::lemma_one_piece(part);
    assert(start + (first + more) =~= pieces);
    assert(rest =~= part + left);
    if part.len() > 0 {
        assert(pieces.skip(start.len() as int) =~= first + more);
        assert(pieces.skip(start.len() as int).flatten() =~= rest);
        assert(pieces[start.len() as int] == part);
        assert(part[0] == rest[0]);
    }
    assert forall|i: int| 0 <= i < pieces.len() implies (#[trigger] pieces[i])[0] > '\u{7f}'
        || is_all_ascii(pieces[i]) by {
        if i >= base {
            assert(pieces[i] == more[i - base]);
        }
    }
    assert forall|i: int, j: int|
        0 <= i && j == i + 1 && j < pieces.len() && is_all_ascii(#[trigger] pieces[i]) implies (
    #[trigger] pieces[j])[0] > '\u{7f}' by {
        if i >= base {
            assert(pieces[i] == more[i - base]);
            assert(pieces[j] == more[j - base]);
        } else if i >= start.len() {
            assert(pieces[i] == part);
            assert(part[0] > '\u{7f}');
        }
    }
    assert forall|i: int|
        0 <= i < pieces.len() && (#[trigger] pieces[i])[0] > '\u{7f}' implies is_as_much_as_read(
        table,
        buffer_for(room, pieces, i),
        pieces[i],
        pieces.skip(i).flatten(),
    ) by {
        if i >= base {
            let k = i - base;
            assert(pieces[i] == more[k]);
            assert(pieces.skip(i) =~= more.skip(k));
            assert(buffer_for(grown, more, k) == grown);
            if i == 1 {
                assert(part.len() > 0);
                assert(pieces[0] == part);
                assert(!is_all_ascii(pieces[0]));
            }
            assert(pieces.skip(first_encoded(pieces)).flatten() =~= rest);
            assert(buffer_for(room, pieces, i) == grown);
        } else if i < start.len() {
            assert(pieces[i] == lead);
            assert(is_all_ascii(lead));
        } else {
            assert(pieces[i] == part);
            assert(first_encoded(pieces) == i);
            assert(buffer_for(room, pieces, i) == now);
        }
    }
}

/// Every character is ASCII.
pub open spec fn is_all_ascii(text: Seq<char>) -> bool {
    forall|i: int| 0 <= i < text.len() ==> #[trigger] text[i] <= '\u{7f}'
}

/// Where the pieces that go through the buffer start: after ASCII text at the start.
pub open spec fn first_encoded(pieces: Seq<Seq<char>>) -> int {
    if pieces.len() > 0 && is_all_ascii(pieces[0]) {
        1
    } else {
        0
    }
}

/// The size of the buffer that a piece goes through.
pub open spec fn buffer_for(room: nat, pieces: Seq<Seq<char>>, index: int) -> nat {
    let first = if room == 63 && encode_utf8(pieces.skip(first_encoded(pieces)).flatten()).len()
        >= 1048576 {
        4096
    } else {
        room
    };
    if index <= first_encoded(pieces) || first >= 1024 {
        first
    } else {
        1024
    }
}

/// A piece is as much of what is left as the encoder reads, where it reads anything.
pub open spec fn is_as_much_as_read(
    table: Map<char, Seq<u8>>,
    room: nat,
    piece: Seq<char>,
    left: Seq<char>,
) -> bool {
    let count = codec::encoder_reads(table, left, room);
    count > 0 ==> piece == if count < left.len() {
        left.take(count as int)
    } else {
        left
    }
}

/// What follows the ASCII text at the start of a text does not start with ASCII.
proof fn lemma_after_ascii(text: Seq<char>)
    ensures
        utf8_text::after_ascii(text).len() > 0 ==> utf8_text::after_ascii(text)[0] > '\u{7f}',
    decreases text.len(),
{
    if text.len() > 0 && text[0] <= '\u{7f}' {
        let rest = text.drop_first();
        lemma_after_ascii(rest);
        utf8_text::lemma_ascii_prefix_is_prefix(rest);
        assert(utf8_text::after_ascii(text) =~= utf8_text::after_ascii(rest));
    } else {
        assert(utf8_text::after_ascii(text) =~= text);
    }
}

/// How the buffer of an encoder grows over a text, which is ASCII up to some place: not where nothing
/// follows or where it has grown before; to 4096 bytes where 1048576 bytes or more follow; and else
/// to 1024 bytes just where the encoder does not read all that follows into 63 bytes. It does where
/// that is less than 50 bytes in the encoding, and does not where it is more than 63.
pub proof fn law_buffer_growth(
    before: TextEncoder,
    ascii: Seq<char>,
    rest: Seq<char>,
    after: TextEncoder,
)
    requires
        before.wf(),
        is_all_ascii(ascii),
        rest.len() > 0 ==> rest[0] > '\u{7f}',
        text_encoder::encoded(before, ascii + rest, after),
    ensures
        before.room() == 63 || before.room() == 1024 || before.room() == 4096,
        after.table() == before.table(),
        rest.len() == 0 || before.room() != 63 ==> after.room() == before.room(),
        rest.len() > 0 && before.room() == 63 ==> {
            let need = rest.map_values(|c: char| before.table()[c]).flatten().len();
            if encode_utf8(rest).len() >= 1048576 {
                after.room() == 4096
            } else {
                &&& after.room() == if codec::encoder_reads(before.table(), rest, 63) < rest.len() {
                    1024nat
                } else {
                    63nat
                }
                &&& need < 50 ==> after.room() == 63
                &&& need > 63 ==> after.room() == 1024
            }
        },
{
    before.lemma_buffer();
    assert forall|i: int| 0 <= i < ascii.len() implies '\0' <= #[trigger] ascii[i]
        <= '\u{7f}' by {
        utf8_text::lemma_char_number(ascii[i]);
    }
    utf8_text::lemma_ascii_prefix(ascii, rest);
    assert(utf8_text::after_ascii(ascii + rest) =~= rest);
    law_encoding_goes_by_character(before.table(), rest);
}

/// A new sink encodes 63 bytes at a time, but for UTF-8, which is not encoded.
pub proof fn law_first_room(table: Map<char, Seq<u8>>)
    ensures
        sink::first_room(table) == if table == codec::utf8_table() {
            0nat
        } else {
            63nat
        },
{
}

/// How much a decoder with some room takes of a stream: the longest start of it that is valid UTF-8
/// and not longer than the room.
pub proof fn law_decoder_takes_the_longest_valid_start(stream: Seq<u8>, room: nat)
    ensures
        ({
            let len = utf8_stream::valid_prefix_len(stream, room);
            &&& len <= room
            &&& len <= stream.len()
            &&& valid_utf8(stream.take(len as int))
            &&& forall|n: int|
                len < n <= room && n <= stream.len() ==> !valid_utf8(#[trigger] stream.take(n))
        }),
{
    let len = utf8_stream::valid_prefix_len(stream, room);
    utf8_stream::lemma_valid_prefix(stream, room);
    assert forall|n: int| len < n <= room && n <= stream.len() implies !valid_utf8(
        #[trigger] stream.take(n),
    ) by {
        if valid_utf8(stream.take(n)) {
            assert(stream.take(n) + stream.skip(n) =~= stream);
            utf8_stream::lemma_valid_prefix_append(stream.take(n), stream.skip(n), room);
        }
    }
}

/// How a decoder with room for 4 bytes or more ends. It does not find the stream malformed just where
/// it is full, that is, where the stream goes on after a valid start that leaves less than 4 bytes of
/// the room, or where the stream is valid, or can become so and may go on.
pub proof fn law_decoder_ends(stream: Seq<u8>, room: nat, last: bool)
    requires
        room >= 4,
    ensures
        ({
            let status = codec::decode_status(stream, room, last);
            let full = exists|n: int|
                room < n + 4 && n <= room && n < stream.len() && valid_utf8(
                    #[trigger] stream.take(n),
                ) && !(stream.len() <= room && valid_utf8(stream));
            let accepted = if last {
                valid_utf8(stream)
            } else {
                exists|more: Seq<u8>| #[trigger] valid_utf8(stream + more)
            };
            &&& status == codec::DecodeStatus::OutputFull <==> full
            &&& status == codec::DecodeStatus::InputEmpty <==> !full && accepted
            &&& status == codec::DecodeStatus::Malformed <==> !full && !accepted
        }),
{
    let len = utf8_stream::valid_prefix_len(stream, room);
    let rest = stream.skip(len as int);
    law_decoder_takes_the_longest_valid_start(stream, room);
    laws::law_accepted_iff_it_can_become_valid(stream);
    utf8_stream::lemma_split_utf8(stream);
    assert(stream.take(stream.len() as int) =~= stream);
    if len == stream.len() {
        assert(stream + Seq::<u8>::empty() =~= stream);
        assert(valid_utf8(stream + Seq::<u8>::empty()));
    } else if room - len < 4 {
        assert(valid_utf8(stream.take(len as int)));
        if valid_utf8(stream) && stream.len() <= room {
            assert(valid_utf8(stream.take(stream.len() as int)));
        }
    } else {
        utf8_stream::lemma_valid_prefix_ends(stream, room);
        assert(stream.take(len as int) + rest =~= stream);
        utf8_stream::lemma_text_len_append(stream.take(len as int), rest);
        assert(utf8_stream::text_len(rest) == 0);
        if valid_utf8(stream) {
            utf8_stream::lemma_valid_is_text(stream, stream.len() as int);
        }
    }
}

/// The digits of a number in decimal: each is a digit, there is no 0 in front of others, and they
/// stand for the number.
pub proof fn law_decimal_digits(number: nat)
    ensures
        ({
            let digits = codec::decimal(number);
            &&& digits.len() > 0
            &&& forall|i: int| 0 <= i < digits.len() ==> 0x30 <= #[trigger] digits[i] <= 0x39
            &&& digits.len() > 1 ==> digits[0] != 0x30
            &&& digits.fold_left(0int, |value: int, digit: u8| value * 10 + (digit - 0x30))
                == number
        }),
    decreases number,
{
    let value_of = |value: int, digit: u8| value * 10 + (digit - 0x30);
    let digits = codec::decimal(number);
    if number < 10 {
        reveal_with_fuel(Seq::fold_left, 2);
        assert(digits.drop_last() =~= seq![]);
    } else {
        let high = codec::decimal(number / 10);
        law_decimal_digits(number / 10);
        assert(digits.drop_last() =~= high);
        reveal_with_fuel(Seq::fold_left, 2);
        assert(high[0] != 0x30) by {
            if high.len() == 1 {
                assert(number / 10 >= 10 || high == seq![(0x30 + number / 10) as u8]);
                if number / 10 >= 10 {
                    law_decimal_digits(number / 10 / 10);
                }
            }
        }
        assert(digits[0] == high[0]);
    }
}

/// The reference for a character is `&#`, its number in decimal and `;`.
pub proof fn law_reference_spells_the_number(c: char)
    ensures
        codec::numeric_reference(c) == seq![0x26u8, 0x23u8] + codec::decimal(c as nat) + seq![
            0x3bu8,
        ],
{
}

} // verus!
