//! What a sink has handed on: a list of chunks of bytes.

use vstd::prelude::*;
use vstd::seq_lib::*;
use vstd::utf8::*;

use crate::codec;
use crate::utf8_text;

verus! {

/// The chunks of bytes that were handed on, in order.
pub struct OutputChunks {
    chunks: Vec<Vec<u8>>,
}

impl View for OutputChunks {
    type V = Seq<Seq<u8>>;

    closed spec fn view(&self) -> Seq<Seq<u8>> {
        self.chunks@.map_values(|chunk: Vec<u8>| chunk@)
    }
}

impl OutputChunks {
    /// No chunks.
    pub fn new() -> (res: Self)
        ensures
            res@ == Seq::<Seq<u8>>::empty(),
    {
        OutputChunks { chunks: Vec::new() }
    }

    /// Hands on one more chunk.
    pub fn push(&mut self, chunk: &[u8])
        ensures
            final(self)@ == old(self)@.push(chunk@),
    {
        self.chunks.push(vstd::slice::slice_to_vec(chunk));
    }

    /// Takes out the chunks that were handed on so far.
    pub fn take(&mut self) -> (res: Vec<Vec<u8>>)
        ensures
            res@.map_values(|chunk: Vec<u8>| chunk@) == old(self)@,
            final(self)@ == Seq::<Seq<u8>>::empty(),
    {
        let mut taken: Vec<Vec<u8>> = Vec::new();
        std::mem::swap(&mut taken, &mut self.chunks);
        taken
    }
}

/// A text as a list of pieces: the text, or no piece where there is no text.
pub open spec fn one_piece(text: Seq<char>) -> Seq<Seq<char>> {
    if text.len() == 0 {
        seq![]
    } else {
        seq![text]
    }
}

/// Each part of a text in the encoding with this table.
pub open spec fn encode_parts(table: Map<char, Seq<u8>>, parts: Seq<Seq<char>>) -> Seq<Seq<u8>> {
    parts.map_values(|part: Seq<char>| codec::encode_text(table, part))
}

/// Cutting the pieces differently makes the parts: both are the same text, and no part is empty.
pub open spec fn recuts(parts: Seq<Seq<char>>, pieces: Seq<Seq<char>>) -> bool {
    &&& parts.flatten() == pieces.flatten()
    &&& forall|i: int| 0 <= i < parts.len() ==> (#[trigger] parts[i]).len() > 0
}

/// Going from the chunks `before` to the chunks `after` hands on the pieces of text `pieces`:
/// - nothing is taken back;
/// - the new chunks, read one after the other, are the text in the encoding with this table;
/// - no chunk is empty, and no character is split over two chunks;
/// - in UTF-8 each piece is a chunk of its own.
pub open spec fn emits(
    table: Map<char, Seq<u8>>,
    pieces: Seq<Seq<char>>,
    before: Seq<Seq<u8>>,
    after: Seq<Seq<u8>>,
) -> bool {
    let fresh = after.skip(before.len() as int);
    &&& before.is_prefix_of(after)
    &&& fresh.flatten() == codec::encode_text(table, pieces.flatten())
    &&& forall|i: int| 0 <= i < fresh.len() ==> (#[trigger] fresh[i]).len() > 0
    &&& exists|parts: Seq<Seq<char>>| #[trigger]
        recuts(parts, pieces) && fresh == encode_parts(table, parts)
    &&& table == codec::utf8_table() ==> fresh == encode_parts(table, pieces)
}

/// Handing on nothing changes nothing.
pub proof fn lemma_emits_nothing(table: Map<char, Seq<u8>>, chunks: Seq<Seq<u8>>)
    ensures
        emits(table, seq![], chunks, chunks),
{
    let none = Seq::<Seq<char>>::empty();
    assert(chunks.skip(chunks.len() as int) =~= encode_parts(table, none));
    assert(recuts(none, none));
}

/// Handing on some pieces and then others is handing on all of them.
pub proof fn lemma_emits_append(
    table: Map<char, Seq<u8>>,
    first: Seq<Seq<char>>,
    second: Seq<Seq<char>>,
    before: Seq<Seq<u8>>,
    middle: Seq<Seq<u8>>,
    after: Seq<Seq<u8>>,
)
    requires
        emits(table, first, before, middle),
        emits(table, second, middle, after),
    ensures
        emits(table, first + second, before, after),
{
    let a = middle.skip(before.len() as int);
    let b = after.skip(middle.len() as int);
    assert(after.skip(before.len() as int) =~= a + b);
    assert(encode_parts(table, first + second) =~= encode_parts(table, first) + encode_parts(
        table,
        second,
    ));
    lemma_flatten_concat(a, b);
    lemma_flatten_concat(first, second);
    codec::lemma_encode_text_append(table, first.flatten(), second.flatten());
    assert(before.is_prefix_of(after));
    assert forall|i: int| 0 <= i < (a + b).len() implies (#[trigger] (a + b)[i]).len() > 0 by {
        if i >= a.len() {
            assert((a + b)[i] == b[i - a.len()]);
        }
    }
    let p = choose|parts: Seq<Seq<char>>| #[trigger]
        recuts(parts, first) && a == encode_parts(table, parts);
    let q = choose|parts: Seq<Seq<char>>| #[trigger]
        recuts(parts, second) && b == encode_parts(table, parts);
    lemma_flatten_concat(p, q);
    assert(recuts(p + q, first + second));
    assert(encode_parts(table, p + q) =~= a + b);
}

/// The bytes of the parts, one after the other, are those of the whole.
pub proof fn lemma_encode_parts(table: Map<char, Seq<u8>>, parts: Seq<Seq<char>>)
    ensures
        encode_parts(table, parts).flatten() == codec::encode_text(table, parts.flatten()),
    decreases parts.len(),
{
    if parts.len() > 0 {
        let rest = parts.drop_first();
        assert(encode_parts(table, parts).drop_first() =~= encode_parts(table, rest));
        lemma_encode_parts(table, rest);
        codec::lemma_encode_text_append(table, parts[0], rest.flatten());
    }
}

/// Outside UTF-8, a text may be handed on in any parts that are not empty.
pub proof fn lemma_emits_parts(
    table: Map<char, Seq<u8>>,
    pieces: Seq<Seq<char>>,
    parts: Seq<Seq<char>>,
    before: Seq<Seq<u8>>,
)
    requires
        codec::extends_ascii(table),
        table != codec::utf8_table(),
        recuts(parts, pieces),
    ensures
        emits(table, pieces, before, before + encode_parts(table, parts)),
{
    let after = before + encode_parts(table, parts);
    let fresh = after.skip(before.len() as int);
    assert(fresh =~= encode_parts(table, parts));
    assert(before.is_prefix_of(after));
    lemma_encode_parts(table, parts);
    assert forall|i: int| 0 <= i < fresh.len() implies (#[trigger] fresh[i]).len() > 0 by {
        assert(parts[i].len() > 0);
        codec::lemma_encode_text_len(table, parts[i]);
    }
}

/// In UTF-8, handing on a text is one chunk.
pub proof fn lemma_emits_utf8(text: Seq<char>, before: Seq<Seq<u8>>)
    requires
        text.len() > 0,
    ensures
        emits(codec::utf8_table(), one_piece(text), before, before.push(encode_utf8(text))),
{
    let chunk = encode_utf8(text);
    codec::lemma_encode_text_utf8(text);
    utf8_text::lemma_encode_utf8_len(text);
    lemma_one_piece(text);
    let fresh = before.push(chunk).skip(before.len() as int);
    assert(fresh =~= seq![chunk]);
    fresh.lemma_flatten_one_element();
    assert(encode_parts(codec::utf8_table(), one_piece(text)) =~= fresh);
    assert(recuts(one_piece(text), one_piece(text)));
}

/// The one piece of a text is the text.
pub proof fn lemma_one_piece(text: Seq<char>)
    ensures
        one_piece(text).flatten() == text,
{
    if text.len() == 0 {
        assert(text =~= seq![]);
    } else {
        seq![text].lemma_flatten_one_element();
    }
}

} // verus!
