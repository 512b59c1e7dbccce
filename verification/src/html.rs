//! Escaping of text for use in HTML.

use vstd::prelude::*;
use vstd::seq_lib::*;
use vstd::string::*;
use vstd::utf8::*;

use crate::call_laws;
use crate::output;
use crate::utf8_text;

verus! {

/// How inserted content is to be read.
#[derive(Debug, Clone, Copy, PartialEq, Eq, Structural)]
pub enum ContentType {
    /// Markup, which is inserted as it is.
    Html,
    /// Plain text, in which `<` is replaced with `&lt;`, `>` with `&gt;` and `&` with `&amp;`.
    Text,
}

/// The characters that stand for markup in the text of an HTML document.
pub open spec fn is_markup(c: char) -> bool {
    c == '<' || c == '>' || c == '&'
}

/// A character as it is written in the text of an HTML document.
pub open spec fn escape_char(c: char) -> Seq<char> {
    if c == '<' {
        seq!['&', 'l', 't', ';']
    } else if c == '>' {
        seq!['&', 'g', 't', ';']
    } else if c == '&' {
        seq!['&', 'a', 'm', 'p', ';']
    } else {
        seq![c]
    }
}

/// A text as it is written in an HTML document.
pub open spec fn escape_text(text: Seq<char>) -> Seq<char>
    decreases text.len(),
{
    if text.len() == 0 {
        seq![]
    } else {
        escape_char(text[0]) + escape_text(text.drop_first())
    }
}

/// The longest run at the start of a text that needs no escaping.
pub open spec fn plain_prefix(text: Seq<char>) -> Seq<char>
    decreases text.len(),
{
    if text.len() == 0 || is_markup(text[0]) {
        seq![]
    } else {
        seq![text[0]] + plain_prefix(text.drop_first())
    }
}

/// The pieces that an escaped text is made of: runs of text that needs no escaping, and the
/// references that stand for single characters between them.
pub open spec fn escape_pieces(text: Seq<char>) -> Seq<Seq<char>>
    decreases text.len(),
{
    let plain = plain_prefix(text);
    let rest = text.skip(plain.len() as int);
    if rest.len() == 0 {
        output::one_piece(plain)
    } else {
        proof {
            lemma_plain_prefix_is_prefix(text);
        }
        output::one_piece(plain) + seq![escape_char(rest[0])] + escape_pieces(rest.drop_first())
    }
}

/// The pieces that content of a type is inserted as.
pub open spec fn render_pieces(content_type: ContentType, content: Seq<char>) -> Seq<Seq<char>> {
    match content_type {
        ContentType::Html => output::one_piece(content),
        ContentType::Text => escape_pieces(content),
    }
}

/// The pieces that each part of some content is inserted as, one part after the other.
pub open spec fn render_parts(content_type: ContentType, parts: Seq<Seq<char>>) -> Seq<Seq<char>> {
    parts.map_values(|part: Seq<char>| render_pieces(content_type, part)).flatten()
}

/// The characters of each of a list of strings.
pub open spec fn views(pieces: Seq<&str>) -> Seq<Seq<char>> {
    pieces.map_values(|piece: &str| piece@)
}

/// Where a text needs no escaping up to some place and does there, that is its plain prefix.
pub proof fn lemma_plain_prefix(plain: Seq<char>, rest: Seq<char>)
    requires
        forall|i: int| 0 <= i < plain.len() ==> !is_markup(#[trigger] plain[i]),
        rest.len() > 0 ==> is_markup(rest[0]),
    ensures
        plain_prefix(plain + rest) == plain,
    decreases plain.len(),
{
    if plain.len() == 0 {
        assert(plain + rest =~= rest);
        assert(plain =~= seq![]);
    } else {
        assert(!is_markup(plain[0]));
        lemma_plain_prefix(plain.drop_first(), rest);
        assert((plain + rest).drop_first() =~= plain.drop_first() + rest);
        assert(plain =~= seq![plain[0]] + plain.drop_first());
    }
}

/// Escaping a text in two parts, one after the other, gives the whole escaped.
pub proof fn lemma_escape_text_append(a: Seq<char>, b: Seq<char>)
    ensures
        escape_text(a + b) == escape_text(a) + escape_text(b),
    decreases a.len(),
{
    if a.len() == 0 {
        assert(a + b =~= b);
    } else {
        assert((a + b).drop_first() =~= a.drop_first() + b);
        lemma_escape_text_append(a.drop_first(), b);
    }
}

/// The plain prefix is a prefix that escaping leaves alone, and markup or nothing follows it.
pub proof fn lemma_plain_prefix_is_prefix(text: Seq<char>)
    ensures
        plain_prefix(text).is_prefix_of(text),
        escape_text(plain_prefix(text)) == plain_prefix(text),
        plain_prefix(text).len() < text.len() ==> is_markup(text[plain_prefix(text).len() as int]),
    decreases text.len(),
{
    if text.len() == 0 || is_markup(text[0]) {
    } else {
        let rest = text.drop_first();
        lemma_plain_prefix_is_prefix(rest);
        let plain = plain_prefix(text);
        assert(plain.drop_first() =~= plain_prefix(rest));
        assert(plain =~= text.take(plain.len() as int)) by {
            assert forall|i: int| 0 < i < plain.len() implies plain[i] == text[i] by {
                assert(plain[i] == plain_prefix(rest)[i - 1]);
                assert(text[i] == rest[i - 1]);
            }
        }
    }
}

/// The pieces, one after the other, are the escaped text.
pub proof fn lemma_escape_pieces(text: Seq<char>)
    ensures
        escape_pieces(text).flatten() == escape_text(text),
    decreases text.len(),
{
    let plain = plain_prefix(text);
    let rest = text.skip(plain.len() as int);
    lemma_plain_prefix_is_prefix(text);
    assert(text =~= plain + rest);
    output::lemma_one_piece(plain);
    lemma_escape_text_append(plain, rest);
    if rest.len() > 0 {
        let c = rest[0];
        let tail = rest.drop_first();
        lemma_escape_pieces(tail);
        seq![escape_char(c)].lemma_flatten_one_element();
        lemma_flatten_concat(output::one_piece(plain), seq![escape_char(c)]);
        lemma_flatten_concat(output::one_piece(plain) + seq![escape_char(c)], escape_pieces(tail));
    }
}

/// No piece is empty.
pub proof fn lemma_escape_pieces_nonempty(text: Seq<char>)
    ensures
        forall|i: int|
            0 <= i < escape_pieces(text).len() ==> (#[trigger] escape_pieces(text)[i]).len() > 0,
    decreases text.len(),
{
    let plain = plain_prefix(text);
    let rest = text.skip(plain.len() as int);
    lemma_plain_prefix_is_prefix(text);
    if rest.len() > 0 {
        lemma_escape_pieces_nonempty(rest.drop_first());
        let first = output::one_piece(plain) + seq![escape_char(rest[0])];
        let more = escape_pieces(rest.drop_first());
        assert forall|i: int| 0 <= i < escape_pieces(text).len() implies (
        #[trigger] escape_pieces(text)[i]).len() > 0 by {
            if i >= first.len() {
                assert(escape_pieces(text)[i] == more[i - first.len()]);
            }
        }
    }
}

/// Rendering some parts and then others is rendering all of them.
pub proof fn lemma_render_parts_append(
    content_type: ContentType,
    a: Seq<Seq<char>>,
    b: Seq<Seq<char>>,
)
    ensures
        render_parts(content_type, a + b) == render_parts(content_type, a) + render_parts(
            content_type,
            b,
        ),
{
    let f = |part: Seq<char>| render_pieces(content_type, part);
    assert((a + b).map_values(f) =~= a.map_values(f) + b.map_values(f));
    lemma_flatten_concat(a.map_values(f), b.map_values(f));
}

/// Rendering a text that is one part is rendering it.
pub proof fn lemma_render_one_part(content_type: ContentType, text: Seq<char>)
    ensures
        render_parts(content_type, output::one_piece(text)) == render_pieces(content_type, text),
{
    let f = |part: Seq<char>| render_pieces(content_type, part);
    if text.len() == 0 {
        assert(output::one_piece(text).map_values(f) =~= seq![]);
        assert(render_pieces(content_type, text) =~= seq![]);
    } else {
        assert(output::one_piece(text).map_values(f) =~= seq![f(text)]);
        seq![f(text)].lemma_flatten_one_element();
    }
}

/// Where an ASCII character occurs in a text, its byte occurs in the encoding.
proof fn lemma_ascii_char_occurs(text: Seq<char>, index: int)
    requires
        0 <= index < text.len(),
        text[index] <= '\u{7f}',
    ensures
        encode_utf8(text.take(index)).len() < encode_utf8(text).len(),
        encode_utf8(text)[encode_utf8(text.take(index)).len() as int] == text[index] as u8,
{
    let a = text.take(index);
    let b = text.skip(index);
    assert(text =~= a + b);
    utf8_text::lemma_encode_utf8_append(a, b);
    utf8_text::lemma_first_byte(b);
}

/// Whether a byte needs escaping.
fn is_markup_byte(byte: u8) -> (res: bool)
    ensures
        res == is_markup(byte as char),
{
    let c = byte as char;
    c == '<' || c == '>' || c == '&'
}

/// The index of the first byte that needs escaping, or the length.
fn find_markup(bytes: &[u8]) -> (res: usize)
    ensures
        res <= bytes@.len(),
        forall|i: int| 0 <= i < res ==> !is_markup(#[trigger] bytes@[i] as char),
        res < bytes@.len() ==> is_markup(bytes@[res as int] as char),
{
    let mut i: usize = 0;
    while i < bytes.len()
        invariant
            i <= bytes@.len(),
            forall|k: int| 0 <= k < i ==> !is_markup(#[trigger] bytes@[k] as char),
        decreases bytes@.len() - i,
    {
        if is_markup_byte(bytes[i]) {
            return i;
        }
        i += 1;
    }
    i
}

/// Cutting a text before the first byte that needs escaping parts its plain prefix from the rest.
proof fn lemma_markup_cut(text: Seq<char>, index: int, plain: Seq<char>, rest: Seq<char>)
    requires
        0 <= index <= encode_utf8(text).len(),
        forall|i: int|
            0 <= i < index ==> !is_markup(#[trigger] encode_utf8(text)[i] as char),
        index < encode_utf8(text).len() ==> is_markup(encode_utf8(text)[index] as char),
        encode_utf8(plain) == encode_utf8(text).subrange(0, index),
        encode_utf8(rest) == encode_utf8(text).subrange(index, encode_utf8(text).len() as int),
    ensures
        text == plain + rest,
        plain_prefix(text) == plain,
        rest.len() > 0 ==> is_markup(rest[0]) && rest[0] == encode_utf8(text)[index] as char,
{
    utf8_text::lemma_cut(text, index, plain, rest);
    assert forall|i: int| 0 <= i < plain.len() implies !is_markup(#[trigger] plain[i]) by {
        if is_markup(plain[i]) {
            lemma_ascii_char_occurs(plain, i);
            let at = encode_utf8(plain.take(i)).len() as int;
            assert(encode_utf8(plain)[at] == encode_utf8(text)[at]);
        }
    }
    if rest.len() > 0 {
        utf8_text::lemma_encode_utf8_len(rest);
        utf8_text::lemma_first_byte(rest);
        utf8_text::lemma_char_number(rest[0]);
        assert(encode_utf8(rest)[0] == encode_utf8(text)[index]);
    }
    lemma_plain_prefix(plain, rest);
}

/// The reference that stands for a byte that needs escaping.
fn reference_for(byte: u8) -> (res: &'static str)
    requires
        is_markup(byte as char),
    ensures
        res@ == escape_char(byte as char),
{
    proof {
        reveal_strlit("&lt;");
        reveal_strlit("&gt;");
        reveal_strlit("&amp;");
    }
    let c = byte as char;
    if c == '<' {
        "&lt;"
    } else if c == '>' {
        "&gt;"
    } else {
        "&amp;"
    }
}

/// The pieces of `plaintext` escaped for the body of an HTML document. No piece is empty.
pub fn escape_body_text<'a>(plaintext: &'a str) -> (res: Vec<&'a str>)
    ensures
        views(res@) == escape_pieces(plaintext@),
        res@.map_values(|piece: &str| piece@).flatten() == plaintext@.map_values(
            |c: char|
                if c == '<' {
                    seq!['&', 'l', 't', ';']
                } else if c == '>' {
                    seq!['&', 'g', 't', ';']
                } else if c == '&' {
                    seq!['&', 'a', 'm', 'p', ';']
                } else {
                    seq![c]
                },
        ).flatten(),
{
    let mut pieces: Vec<&'a str> = Vec::new();
    let mut remaining: &'a str = plaintext;
    assert(views(pieces@) + escape_pieces(remaining@) =~= escape_pieces(plaintext@));
    loop
        invariant
            views(pieces@) + escape_pieces(remaining@) == escape_pieces(plaintext@),
        decreases remaining@.len(),
    {
        let ghost so_far = views(pieces@);
        let ghost text = remaining@;
        let at: usize = find_markup(remaining.as_bytes());
        proof {
            utf8_text::lemma_cut_before_ascii(text, at as int);
        }
        let (plain, rest) = remaining.split_at(at);
        proof {
            lemma_markup_cut(text, at as int, plain@, rest@);
            assert(text.skip(plain@.len() as int) =~= rest@);
        }
        if !plain.is_empty() {
            proof {
                lemma_views_push(pieces@, plain);
            }
            pieces.push(plain);
        }
        assert(views(pieces@) =~= so_far + output::one_piece(plain@));
        if rest.is_empty() {
            proof {
                lemma_escape_pieces(plaintext@);
                call_laws::law_escaping_goes_by_character(plaintext@);
                assert(escape_pieces(text) =~= output::one_piece(plain@));
                assert(pieces@.map_values(|piece: &str| piece@) =~= escape_pieces(plaintext@));
            }
            return pieces;
        }
        let matched: u8 = rest.as_bytes()[0];
        proof {
            utf8_text::lemma_first_byte(rest@);
            utf8_text::lemma_cut_after_ascii(rest@, 1);
        }
        let reference = reference_for(matched);
        proof {
            lemma_views_push(pieces@, reference);
        }
        pieces.push(reference);
        let tail = rest.split_at(1).1;
        proof {
            assert(encode_utf8(rest@).subrange(1, encode_utf8(rest@).len() as int) =~= encode_utf8(
                rest@,
            ).skip(1));
            utf8_text::lemma_encode_utf8_injective(tail@, rest@.drop_first());
            assert(views(pieces@) + escape_pieces(tail@) =~= so_far + (output::one_piece(plain@)
                + seq![escape_char(rest@[0])] + escape_pieces(tail@)));
        }
        remaining = tail;
    }
}

/// One more string is one more list of characters.
proof fn lemma_views_push(pieces: Seq<&str>, piece: &str)
    ensures
        views(pieces.push(piece)) == views(pieces).push(piece@),
{
    assert(views(pieces.push(piece)) =~= views(pieces).push(piece@));
}

} // verus!
