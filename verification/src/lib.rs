//! Writing of text and markup into an HTML document in its own encoding, chunk by chunk.
//!
//! [`sink::StreamingHandlerSink`] takes strings, or UTF-8 that may be cut anywhere, escapes plain
//! text, and gives out chunks of bytes in the encoding of the document.

pub mod call_laws;
pub mod codec;
pub mod html;
pub mod laws;
pub mod output;
pub mod sink;
pub mod text_encoder;
pub mod utf8_resync;
pub mod utf8_stream;
pub mod utf8_text;
