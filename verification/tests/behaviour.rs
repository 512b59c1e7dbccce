use encoding_rs::{
    EUC_JP, GBK, ISO_2022_JP, ISO_8859_2, REPLACEMENT, SHIFT_JIS, UTF_16BE, UTF_16LE, UTF_8,
    WINDOWS_1252,
};
use text_encoder::html::{escape_body_text, ContentType};
use text_encoder::output::OutputChunks;
use text_encoder::sink::StreamingHandlerSink;
use text_encoder::text_encoder::{TextEncoder, HEAP_ROOM, LONG, LONG_ROOM, STACK_ROOM};
use text_encoder::utf8_resync::{IncompleteUtf8Resync, Utf8Error};

/// What a sink has handed on, in chunks.
fn chunks(sink: &mut StreamingHandlerSink) -> Vec<Vec<u8>> {
    sink.output_handler().take()
}

/// What a sink has handed on, in one piece.
fn bytes(sink: &mut StreamingHandlerSink) -> Vec<u8> {
    chunks(sink).concat()
}

/// What a string is written as.
fn written(encoding: &'static encoding_rs::Encoding, text: &str, as_type: ContentType) -> Vec<u8> {
    let mut sink = StreamingHandlerSink::new(encoding);
    sink.write_str(text, as_type);
    bytes(&mut sink)
}

#[test]
fn sinks_need_ascii_compatible_encodings() {
    for encoding in [ISO_2022_JP, UTF_16BE, UTF_16LE, REPLACEMENT] {
        assert!(StreamingHandlerSink::try_new(encoding).is_none(), "{}", encoding.name());
    }
    for encoding in [UTF_8, ISO_8859_2, SHIFT_JIS, GBK, EUC_JP, WINDOWS_1252] {
        let mut sink = StreamingHandlerSink::try_new(encoding).unwrap();
        assert_eq!(chunks(&mut sink), Vec::<Vec<u8>>::new());
        sink.write_str("ok", ContentType::Html);
        assert_eq!(bytes(&mut sink), b"ok");
    }
}

#[test]
fn text_is_put_into_the_encoding() {
    assert_eq!(written(UTF_8, "ą", ContentType::Html), "ą".as_bytes());
    assert_eq!(written(ISO_8859_2, "ą", ContentType::Html), [0xb1]);
    assert_eq!(written(WINDOWS_1252, "€", ContentType::Html), [0x80]);
    assert_eq!(written(SHIFT_JIS, "日", ContentType::Html), [0x93, 0xfa]);
    assert_eq!(written(EUC_JP, "日", ContentType::Html), [0xc6, 0xfc]);
    assert_eq!(written(GBK, "中", ContentType::Html), [0xd6, 0xd0]);
}

#[test]
fn missing_characters_become_references() {
    assert_eq!(written(ISO_8859_2, "€", ContentType::Html), b"&#8364;");
    assert_eq!(written(ISO_8859_2, "a🐈b", ContentType::Text), b"a&#128008;b");
}

#[test]
fn ascii_is_unchanged_everywhere() {
    let text = "plain <b>markup</b> & more \0 \x7f";
    for encoding in [UTF_8, ISO_8859_2, SHIFT_JIS, GBK, EUC_JP, WINDOWS_1252] {
        let mut sink = StreamingHandlerSink::new(encoding);
        sink.write_str(text, ContentType::Html);
        assert_eq!(chunks(&mut sink), [text.as_bytes()], "{}", encoding.name());
    }
}

#[test]
fn markup_in_utf8_is_one_chunk() {
    let mut sink = StreamingHandlerSink::new(UTF_8);
    sink.write_str("<i>文字</i>", ContentType::Html);
    assert_eq!(chunks(&mut sink), ["<i>文字</i>".as_bytes()]);
}

#[test]
fn escaping_makes_pieces() {
    assert_eq!(escape_body_text(""), Vec::<&str>::new());
    assert_eq!(escape_body_text("plain"), ["plain"]);
    assert_eq!(escape_body_text("<"), ["&lt;"]);
    assert_eq!(
        escape_body_text("a<b>&c\"'"),
        ["a", "&lt;", "b", "&gt;", "&amp;", "c\"'"]
    );
    assert_eq!(escape_body_text("é&"), ["é", "&amp;"]);
    assert_eq!(escape_body_text("&lt;"), ["&amp;", "lt;"]);
}

#[test]
fn escaped_text_is_written_in_pieces() {
    let mut sink = StreamingHandlerSink::new(UTF_8);
    sink.write_str("ą<é", ContentType::Text);
    assert_eq!(chunks(&mut sink), ["ą".as_bytes(), b"&lt;", "é".as_bytes()]);
    let mut sink = StreamingHandlerSink::new(ISO_8859_2);
    sink.write_str("ab ą<c", ContentType::Text);
    assert_eq!(
        chunks(&mut sink),
        [&b"ab "[..], &[0xb1], &b"&lt;"[..], &b"c"[..]]
    );
}

#[test]
fn escaped_text_has_no_angle_brackets() {
    let mut sink = StreamingHandlerSink::new(UTF_8);
    sink.write_utf8_chunk(b"<<a\xc3", ContentType::Text).unwrap();
    sink.write_utf8_chunk(b"\xa9>&<", ContentType::Text).unwrap();
    assert!(sink.write_utf8_chunk(b"<\xff<", ContentType::Text).is_err());
    let out = bytes(&mut sink);
    assert_eq!(out, "&lt;&lt;aé&gt;&amp;&lt;".as_bytes());
    assert!(!out.contains(&b'<') && !out.contains(&b'>'));
}

#[test]
fn empty_content_is_silent() {
    for encoding in [UTF_8, ISO_8859_2] {
        let mut sink = StreamingHandlerSink::new(encoding);
        sink.write_str("", ContentType::Html);
        sink.write_str("", ContentType::Text);
        assert_eq!(sink.write_utf8_chunk(b"", ContentType::Html), Ok(()));
        assert_eq!(sink.write_utf8_chunk(b"", ContentType::Text), Ok(()));
        assert_eq!(chunks(&mut sink), Vec::<Vec<u8>>::new());
    }
}

#[test]
fn strings_are_concatenated() {
    for encoding in [UTF_8, ISO_8859_2, SHIFT_JIS] {
        for as_type in [ContentType::Html, ContentType::Text] {
            let mut sink = StreamingHandlerSink::new(encoding);
            sink.write_str("a<ą", as_type);
            sink.write_str("", as_type);
            sink.write_str("&日", as_type);
            assert_eq!(bytes(&mut sink), written(encoding, "a<ą&日", as_type));
        }
    }
}

#[test]
fn cuts_make_no_difference() {
    let text = "a€🐈<ą>";
    for encoding in [UTF_8, ISO_8859_2, SHIFT_JIS] {
        for as_type in [ContentType::Html, ContentType::Text] {
            for first in 0..=text.len() {
                for second in first..=text.len() {
                    let mut sink = StreamingHandlerSink::new(encoding);
                    let all = text.as_bytes();
                    for part in [&all[..first], &all[first..second], &all[second..]] {
                        assert_eq!(sink.write_utf8_chunk(part, as_type), Ok(()));
                    }
                    assert_eq!(bytes(&mut sink), written(encoding, text, as_type));
                }
            }
        }
    }
}

#[test]
fn completed_characters_are_flushed() {
    let mut sink = StreamingHandlerSink::new(UTF_8);
    for byte in &"🐈".as_bytes()[..3] {
        assert_eq!(sink.write_utf8_chunk(&[*byte], ContentType::Text), Ok(()));
        assert_eq!(chunks(&mut sink), Vec::<Vec<u8>>::new());
    }
    assert_eq!(sink.write_utf8_chunk(&"🐈".as_bytes()[3..], ContentType::Text), Ok(()));
    assert_eq!(chunks(&mut sink), ["🐈".as_bytes()]);
}

#[test]
fn ascii_does_not_complete_a_character() {
    let mut sink = StreamingHandlerSink::new(UTF_8);
    assert_eq!(sink.write_utf8_chunk(b"a\xe2\x82", ContentType::Html), Ok(()));
    assert_eq!(sink.write_utf8_chunk(b"<", ContentType::Html), Err(Utf8Error));
    assert_eq!(bytes(&mut sink), b"a");
    // What was pending is gone, and the sink can go on.
    assert_eq!(sink.write_utf8_chunk(b"b", ContentType::Html), Ok(()));
    assert_eq!(bytes(&mut sink), b"b");
}

#[test]
fn refused_streams_stay_refused() {
    for more in [&b""[..], b"a", b"\x80", b"\xbf\xbf"] {
        let mut stream = b"ok \xff".to_vec();
        stream.extend_from_slice(more);
        let mut sink = StreamingHandlerSink::new(UTF_8);
        assert_eq!(sink.write_utf8_chunk(&stream, ContentType::Html), Err(Utf8Error));
        assert_eq!(chunks(&mut sink), Vec::<Vec<u8>>::new());
    }
}

#[test]
fn unfinished_characters_are_accepted_only_where_they_can_go_on() {
    for good in [&b"\xc2"[..], b"\xe0\xa0", b"\xed\x9f", b"\xf0\x90\x80", b"\xf4\x8f"] {
        let mut sink = StreamingHandlerSink::new(UTF_8);
        assert_eq!(sink.write_utf8_chunk(good, ContentType::Html), Ok(()), "{good:x?}");
    }
    for bad in [&b"\xc1"[..], b"\xe0\x9f", b"\xed\xa0", b"\xf0\x8f", b"\xf4\x90", b"\xf5"] {
        let mut sink = StreamingHandlerSink::new(UTF_8);
        assert_eq!(
            sink.write_utf8_chunk(bad, ContentType::Html),
            Err(Utf8Error),
            "{bad:x?}"
        );
    }
}

#[test]
fn long_chunks_are_decoded_in_pieces() {
    for (text, lens) in [
        ("a".repeat(1024), vec![1024]),
        ("a".repeat(2000), vec![1024, 976]),
        ("é".repeat(600), vec![1024, 176]),
        ("€".repeat(400), vec![1023, 177]),
    ] {
        let mut sink = StreamingHandlerSink::new(UTF_8);
        assert_eq!(sink.write_utf8_chunk(text.as_bytes(), ContentType::Html), Ok(()));
        let out = chunks(&mut sink);
        let got: Vec<usize> = out.iter().map(|chunk| chunk.len()).collect();
        assert_eq!(got, lens);
        assert_eq!(out.concat(), text.as_bytes());
    }
}

#[test]
fn text_since_the_last_full_piece_is_dropped_on_errors() {
    let mut stream = "a".repeat(1024).into_bytes();
    stream.extend_from_slice(b"bc\xff");
    let mut sink = StreamingHandlerSink::new(UTF_8);
    assert_eq!(sink.write_utf8_chunk(&stream, ContentType::Html), Err(Utf8Error));
    assert_eq!(chunks(&mut sink), ["a".repeat(1024).into_bytes()]);
}

#[test]
fn strings_replace_unfinished_characters() {
    let mut sink = StreamingHandlerSink::new(UTF_8);
    assert_eq!(sink.write_utf8_chunk(b"a\xf0\x9f", ContentType::Html), Ok(()));
    sink.write_str("<b", ContentType::Text);
    assert_eq!(
        chunks(&mut sink),
        [&b"a"[..], "\u{FFFD}".as_bytes(), b"&lt;", b"b"]
    );
    let mut sink = StreamingHandlerSink::new(ISO_8859_2);
    assert_eq!(sink.write_utf8_chunk(b"\xc4", ContentType::Html), Ok(()));
    sink.write_str("", ContentType::Text);
    assert_eq!(bytes(&mut sink), b"&#65533;");
}

#[test]
fn strings_and_chunks_can_follow_each_other() {
    let mut sink = StreamingHandlerSink::new(UTF_8);
    assert_eq!(sink.write_utf8_chunk(b"a", ContentType::Html), Ok(()));
    sink.write_str("b", ContentType::Html);
    sink.write_str("c", ContentType::Html);
    assert_eq!(sink.write_utf8_chunk(b"\xe2\x82", ContentType::Html), Ok(()));
    sink.write_str("d", ContentType::Html);
    assert_eq!(sink.write_utf8_chunk(b"\xc3", ContentType::Html), Ok(()));
    assert_eq!(sink.write_utf8_chunk(b"\xa9", ContentType::Html), Ok(()));
    sink.write_str("e", ContentType::Html);
    assert_eq!(bytes(&mut sink), "abc\u{FFFD}dée".as_bytes());
}

#[test]
fn byte_order_marks_are_kept() {
    let mut sink = StreamingHandlerSink::new(UTF_8);
    assert_eq!(sink.write_utf8_chunk(b"\xef\xbb", ContentType::Html), Ok(()));
    assert_eq!(sink.write_utf8_chunk(b"\xbfa", ContentType::Html), Ok(()));
    assert_eq!(bytes(&mut sink), "\u{FEFF}a".as_bytes());
}

#[test]
fn encoders_cut_between_characters() {
    let text = "日本語".repeat(200);
    let mut out = OutputChunks::new();
    let mut encoder = TextEncoder::new(SHIFT_JIS);
    encoder.encode(&text, &mut out);
    let out = out.take();
    assert_eq!(out.concat(), SHIFT_JIS.encode(&text).0.as_ref());
    assert!(out.iter().all(|chunk| chunk.len() % 2 == 0 && !chunk.is_empty()));
    assert!(out[0].len() <= STACK_ROOM);
    assert!(out.iter().all(|chunk| chunk.len() <= HEAP_ROOM));
    assert!(out.iter().any(|chunk| chunk.len() > STACK_ROOM));
}

#[test]
fn short_text_is_one_chunk() {
    let mut out = OutputChunks::new();
    let mut encoder = TextEncoder::new(ISO_8859_2);
    encoder.encode(&"ą".repeat(10), &mut out);
    encoder.encode("", &mut out);
    encoder.encode("all ascii", &mut out);
    assert_eq!(out.take(), [vec![0xb1; 10], b"all ascii".to_vec()]);
    assert_eq!(out.take(), Vec::<Vec<u8>>::new());
}

#[test]
fn long_content_takes_a_larger_buffer() {
    let mut out = OutputChunks::new();
    let mut encoder = TextEncoder::new(ISO_8859_2);
    encoder.encode(&"ą".repeat(LONG / 2), &mut out);
    let out = out.take();
    assert_eq!(out.concat(), vec![0xb1; LONG / 2]);
    assert!(out.iter().all(|chunk| chunk.len() <= LONG_ROOM));
    assert!(out[0].len() > HEAP_ROOM);
}

#[test]
fn output_chunks_are_taken_out_once() {
    let mut out = OutputChunks::new();
    out.push(b"one");
    out.push(b"");
    out.push(b"two");
    assert_eq!(out.take(), [&b"one"[..], b"", b"two"]);
    assert_eq!(out.take(), Vec::<Vec<u8>>::new());
}

#[test]
fn fragments_are_decoded_with_what_is_left_of_the_last() {
    let mut resync = IncompleteUtf8Resync::new();
    assert_eq!(resync.utf8_bytes_to_slice(b"a\xc3", false), Ok(("a", &b""[..])));
    assert_eq!(resync.utf8_bytes_to_slice(b"", false), Ok(("", &b""[..])));
    assert_eq!(resync.utf8_bytes_to_slice(b"\xa9b", false), Ok(("éb", &b""[..])));
    let long = "a".repeat(1030);
    let (text, rest) = resync.utf8_bytes_to_slice(long.as_bytes(), true).unwrap();
    assert_eq!(text.len(), 1024);
    assert_eq!(rest, b"aaaaaa");
    assert_eq!(resync.utf8_bytes_to_slice(b"z", true), Ok(("z", &b""[..])));
}

#[test]
fn the_end_of_the_input_completes_no_character() {
    let mut resync = IncompleteUtf8Resync::new();
    assert_eq!(resync.utf8_bytes_to_slice(b"a\xc3", true), Err(Utf8Error));
    // After an error more may be decoded.
    assert_eq!(resync.utf8_bytes_to_slice(b"\xe0", true), Err(Utf8Error));
    assert_eq!(resync.utf8_bytes_to_slice(b"\xe1\x80", false), Ok(("", &b""[..])));
    assert_eq!(resync.utf8_bytes_to_slice(b"\x80", true), Ok(("\u{1000}", &b""[..])));
}

#[test]
fn discarding_says_whether_anything_was_pending() {
    let mut resync = IncompleteUtf8Resync::new();
    assert!(!resync.discard_incomplete());
    assert_eq!(resync.utf8_bytes_to_slice(b"a\xe0", false), Ok(("a", &b""[..])));
    assert!(resync.discard_incomplete());
    assert!(!resync.discard_incomplete());
    // A second byte that may not follow 0xE0 may follow 0xE1.
    assert_eq!(resync.utf8_bytes_to_slice(b"\xe1\x80\x80", false), Ok(("\u{1000}", &b""[..])));
    assert!(!resync.discard_incomplete());
}

#[test]
fn errors_have_a_message() {
    assert_eq!(Utf8Error.message(), "Invalid UTF-8");
}

#[test]
fn empty_chunks_keep_what_is_pending() {
    let mut sink = StreamingHandlerSink::new(UTF_8);
    assert_eq!(sink.write_utf8_chunk(b"\xe2", ContentType::Html), Ok(()));
    assert_eq!(sink.write_utf8_chunk(b"", ContentType::Text), Ok(()));
    assert_eq!(sink.write_utf8_chunk(b"\x82\xac", ContentType::Html), Ok(()));
    assert_eq!(chunks(&mut sink), ["€".as_bytes()]);
}

#[test]
fn plain_text_is_unchanged() {
    for encoding in [UTF_8, ISO_8859_2, SHIFT_JIS] {
        let text = "no ą markup \" ' here";
        assert_eq!(
            written(encoding, text, ContentType::Text),
            written(encoding, text, ContentType::Html)
        );
    }
}

#[test]
fn invalid_streams_are_refused_wherever_they_are_cut() {
    let stream = b"ok \xe2\x82<";
    for cut in 0..=stream.len() {
        let mut sink = StreamingHandlerSink::new(UTF_8);
        let first = sink.write_utf8_chunk(&stream[..cut], ContentType::Html);
        let second = sink.write_utf8_chunk(&stream[cut..], ContentType::Html);
        assert!(first.is_err() || second.is_err(), "{cut}");
    }
}

#[test]
fn chunks_are_cut_where_the_encoder_cuts() {
    for encoding in [ISO_8859_2, SHIFT_JIS, GBK, EUC_JP] {
        let text = format!("lead {}", "日ąa€, 🐈".repeat(300));
        let mut out = OutputChunks::new();
        TextEncoder::new(encoding).encode(&text, &mut out);

        let mut expected: Vec<Vec<u8>> = Vec::new();
        let mut rest = text.as_str();
        let mut room = STACK_ROOM;
        while !rest.is_empty() {
            let lead = rest.bytes().take_while(|byte| byte.is_ascii()).count();
            if lead > 0 {
                expected.push(rest.as_bytes()[..lead].to_vec());
            }
            rest = &rest[lead..];
            let mut buffer = vec![0; room];
            let (_, read, written, _) =
                encoding.new_encoder().encode_from_utf8(rest, &mut buffer, false);
            if written > 0 {
                expected.push(buffer[..written].to_vec());
            }
            rest = &rest[read..];
            room = HEAP_ROOM;
        }
        assert_eq!(out.take(), expected, "{}", encoding.name());
    }
}

#[test]
fn text_is_written_as_its_pieces_are() {
    let text = format!("a<ą{}>&日 {}", "ą".repeat(100), "€".repeat(500));
    for encoding in [UTF_8, ISO_8859_2, SHIFT_JIS] {
        let mut whole = StreamingHandlerSink::new(encoding);
        whole.write_str(&text, ContentType::Text);
        let mut pieces = StreamingHandlerSink::new(encoding);
        for piece in escape_body_text(&text) {
            pieces.write_str(piece, ContentType::Html);
        }
        assert_eq!(chunks(&mut whole), chunks(&mut pieces), "{}", encoding.name());
    }
}

#[test]
fn the_buffer_grows_when_it_is_too_small() {
    let mut out = OutputChunks::new();
    let mut encoder = TextEncoder::new(ISO_8859_2);
    encoder.encode(&"ą".repeat(64), &mut out);
    assert!(out.take().len() > 1);
    encoder.encode(&"ą".repeat(64), &mut out);
    assert_eq!(out.take(), [vec![0xb1; 64]]);
}

#[test]
fn split_characters_belong_to_the_call_that_completes_them() {
    for encoding in [UTF_8, ISO_8859_2] {
        let mut sink = StreamingHandlerSink::new(encoding);
        assert_eq!(sink.write_utf8_chunk(b"<\xc3", ContentType::Text), Ok(()));
        assert_eq!(sink.write_utf8_chunk(b"\xa9<\xc4", ContentType::Html), Ok(()));
        assert_eq!(sink.write_utf8_chunk(b"\x85>", ContentType::Text), Ok(()));
        assert_eq!(bytes(&mut sink), written(encoding, "&lt;é<ą&gt;", ContentType::Html));
    }
}

#[test]
fn a_buffer_that_has_grown_keeps_its_size() {
    let mut out = OutputChunks::new();
    let mut encoder = TextEncoder::new(ISO_8859_2);
    for text in ["ą".repeat(64), "ą".to_owned(), "a".repeat(5000), "ą".repeat(LONG / 2)] {
        encoder.encode(&text, &mut out);
    }
    let sizes: Vec<usize> = out.take().iter().map(|chunk| chunk.len()).collect();
    // Long content does not make a buffer larger that is on the heap already.
    assert!(sizes.iter().all(|&size| size <= HEAP_ROOM || size == 5000));
    assert!(sizes.iter().any(|&size| size > STACK_ROOM && size <= HEAP_ROOM));
}
