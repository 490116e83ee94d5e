use utf8_spans::{codepoint, decoder, DecodeError, Expected, Span};

fn fails_with(input: &[u8], expected: Expected, found: Option<u8>, start: usize, end: usize) {
    assert_eq!(
        decoder(input),
        Err(DecodeError { expected, found, span: Span::new(start, end) })
    );
}

#[test]
fn demo_success() {
    let output = decoder("👨‍👩‍👧‍👦".as_bytes());
    assert_eq!(
        output,
        Ok(vec![
            ('\u{1F468}', Span::new(0, 4)),
            ('\u{200D}', Span::new(4, 7)),
            ('\u{1F469}', Span::new(7, 11)),
            ('\u{200D}', Span::new(11, 14)),
            ('\u{1F467}', Span::new(14, 18)),
            ('\u{200D}', Span::new(18, 21)),
            ('\u{1F466}', Span::new(21, 25)),
        ])
    );
}

#[test]
fn demo_failure() {
    let output = decoder(b"\xED\xA0\x80");
    assert!(output.is_err());
    let error = output.unwrap_err();
    assert_eq!(error.expected.label(), "0x80 ..= 0x9F");
    assert_eq!(error.expected, Expected::Range80To9F);
    assert_eq!(error.found, Some(0xA0));
    assert_eq!(error.span, Span::new(1, 2));
}

#[test]
fn empty_input_gives_no_codepoints() {
    assert_eq!(decoder(b""), Ok(vec![]));
}

#[test]
fn overlong_null_is_rejected_at_second_byte() {
    let error = decoder(b"\xE0\x80\x80").unwrap_err();
    assert_eq!(error.expected.label(), "0xA0 ..= 0xBF");
    fails_with(b"\xE0\x80\x80", Expected::RangeA0ToBF, Some(0x80), 1, 2);
}

#[test]
fn surrogate_is_rejected_at_second_byte() {
    fails_with(b"\xED\xA0\x80", Expected::Range80To9F, Some(0xA0), 1, 2);
}

#[test]
fn four_byte_lead_narrowings() {
    fails_with(b"\xF0\x80\x80\x80", Expected::Range90ToBF, Some(0x80), 1, 2);
    fails_with(b"\xF4\x90\x80\x80", Expected::Range80To8F, Some(0x90), 1, 2);
    assert_eq!(Expected::Range90ToBF.label(), "0x90 ..= 0xBF");
    assert_eq!(Expected::Range80To8F.label(), "0x80 ..= 0x8F");
}

#[test]
fn invalid_start_bytes() {
    for lead in [0x80u8, 0xBF, 0xC0, 0xC1, 0xF5, 0xFF] {
        fails_with(&[lead, 0x80, 0x80, 0x80], Expected::StartByte, Some(lead), 0, 1);
    }
    fails_with(b"ab\xC1", Expected::StartByte, Some(0xC1), 2, 3);
    assert_eq!(Expected::StartByte.label(), "a UTF-8 start byte");
}

#[test]
fn generic_continuation_byte() {
    fails_with(b"\xC2\x41", Expected::ContinuationByte, Some(0x41), 1, 2);
    fails_with(b"x\xE2\x82\xC0", Expected::ContinuationByte, Some(0xC0), 3, 4);
    fails_with(b"\xF1\x80\x80\x7F", Expected::ContinuationByte, Some(0x7F), 3, 4);
    assert_eq!(Expected::ContinuationByte.label(), "a UTF-8 continuation byte");
}

#[test]
fn truncated_sequence_reports_end_of_input() {
    fails_with(b"\xE2\x82", Expected::ContinuationByte, None, 2, 2);
    fails_with(b"a\xF0", Expected::Range90ToBF, None, 2, 2);
}

#[test]
fn first_error_stops_decoding() {
    fails_with(b"ok\xFFthen\x80", Expected::StartByte, Some(0xFF), 2, 3);
}

#[test]
fn codepoint_at_position() {
    let input = "a€😀".as_bytes();
    assert_eq!(codepoint(input, 0), Ok(('a', 1)));
    assert_eq!(codepoint(input, 1), Ok(('€', 3)));
    assert_eq!(codepoint(input, 4), Ok(('😀', 4)));
    assert_eq!(
        codepoint(input, 8),
        Err(DecodeError { expected: Expected::StartByte, found: None, span: Span::new(8, 8) })
    );
    assert_eq!(
        codepoint(input, 2),
        Err(DecodeError { expected: Expected::StartByte, found: Some(0x82), span: Span::new(2, 3) })
    );
}

#[test]
fn exact_values_of_each_width() {
    assert_eq!(codepoint(b"\x7F", 0), Ok(('\u{7F}', 1)));
    assert_eq!(codepoint(b"\xC2\x80", 0), Ok(('\u{80}', 2)));
    assert_eq!(codepoint(b"\xDF\xBF", 0), Ok(('\u{7FF}', 2)));
    assert_eq!(codepoint(b"\xE0\xA0\x80", 0), Ok(('\u{800}', 3)));
    assert_eq!(codepoint(b"\xED\x9F\xBF", 0), Ok(('\u{D7FF}', 3)));
    assert_eq!(codepoint(b"\xEE\x80\x80", 0), Ok(('\u{E000}', 3)));
    assert_eq!(codepoint(b"\xEF\xBF\xBF", 0), Ok(('\u{FFFF}', 3)));
    assert_eq!(codepoint(b"\xF0\x90\x80\x80", 0), Ok(('\u{10000}', 4)));
    assert_eq!(codepoint(b"\xF4\x8F\xBF\xBF", 0), Ok(('\u{10FFFF}', 4)));
}

#[test]
fn every_scalar_round_trips() {
    let mut buf = [0u8; 4];
    for v in 0u32..=0x10FFFF {
        if let Some(c) = char::from_u32(v) {
            let bytes = c.encode_utf8(&mut buf).as_bytes();
            assert_eq!(codepoint(bytes, 0), Ok((c, bytes.len())));
        }
    }
}

#[test]
fn valid_text_matches_std_decoding() {
    let text = "héllo, wörld — 日本語 🦀\u{0}\u{10FFFF}";
    let decoded = decoder(text.as_bytes()).unwrap();
    let expected: Vec<(char, Span)> = text
        .char_indices()
        .map(|(i, c)| (c, Span::new(i, i + c.len_utf8())))
        .collect();
    assert_eq!(decoded, expected);
}

#[test]
fn corrupting_a_continuation_byte_names_its_range() {
    let valid = "a\u{800}\u{D7FF}\u{10000}\u{10FFFF}".as_bytes().to_vec();
    assert!(decoder(&valid).is_ok());
    let cases: [(usize, u8, Expected); 6] = [
        (2, 0x9F, Expected::RangeA0ToBF),
        (3, 0xC0, Expected::ContinuationByte),
        (5, 0xA0, Expected::Range80To9F),
        (8, 0x8F, Expected::Range90ToBF),
        (10, 0x00, Expected::ContinuationByte),
        (12, 0x90, Expected::Range80To8F),
    ];
    for (at, byte, expected) in cases {
        let mut bytes = valid.clone();
        bytes[at] = byte;
        fails_with(&bytes, expected, Some(byte), at, at + 1);
    }
}

#[test]
fn byte_classes_accept_their_ranges() {
    assert!(Expected::StartByte.accepts(0x41));
    assert!(Expected::StartByte.accepts(0xF4));
    assert!(!Expected::StartByte.accepts(0xC1));
    assert!(!Expected::StartByte.accepts(0xF5));
    assert!(Expected::ContinuationByte.accepts(0xBF));
    assert!(!Expected::ContinuationByte.accepts(0xC0));
    assert!(Expected::RangeA0ToBF.accepts(0xA0));
    assert!(!Expected::RangeA0ToBF.accepts(0x9F));
    assert!(Expected::Range80To9F.accepts(0x9F));
    assert!(!Expected::Range80To9F.accepts(0xA0));
    assert!(!Expected::Range90ToBF.accepts(0x8F));
    assert!(!Expected::Range80To8F.accepts(0x90));
}
