# text_encoder

Writes text and markup into an HTML document in the document's own encoding, chunk by chunk.

`StreamingHandlerSink` takes strings, or fragments of UTF-8 that may be cut anywhere, even inside a
character. It escapes what is plain text, puts the result into the encoding of the document, and
gives out chunks of bytes in which no character is split.

- `src/` is the library. Every function has a contract, which Verus proves but for what `codec`
  takes on trust.
  - `sink` holds `StreamingHandlerSink`.
  - `text_encoder` encodes into encodings other than UTF-8.
  - `utf8_resync` decodes UTF-8 that arrives in pieces.
  - `html` escapes text.
  - `output` holds the chunks, and says what it means to hand on text.
  - `codec` holds what is taken on trust: four wrappers around calls of `encoding_rs`, and
    contracts for five functions that are called directly, four of `encoding_rs` and
    `str::repeat`.
  - `utf8_stream` and `utf8_text` say how streams of bytes and texts divide.
  - `laws` states what holds of the library as a whole.
- `app/` calls a handler with each chunk once a call of the library has returned, and makes the
  error a standard error.
- `tests/` runs the library.
