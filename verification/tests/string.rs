use mikrotik_rs::protocol::string::{
    format_mikrotik_bytes, text, validate_ascii, AsciiString, AsciiStringRef, EncodingError,
    WordContent,
};
use mikrotik_rs::protocol::word::DecimalError;

#[test]
fn ascii_string_ref_from_text() {
    assert_eq!(
        AsciiStringRef::try_from("ether1").ok(),
        Some(AsciiStringRef(b"ether1"))
    );
    assert_eq!(AsciiStringRef::try_from("").ok(), Some(AsciiStringRef(b"")));
    assert_eq!(
        AsciiStringRef::try_from("naïve").err(),
        Some(EncodingError::NonAsciiCharacterFound {
            pos: 2,
            character: 'ï'
        })
    );
    assert_eq!(
        AsciiStringRef::try_from("\u{7f}\u{80}").err(),
        Some(EncodingError::NonAsciiCharacterFound {
            pos: 1,
            character: '\u{80}'
        })
    );
    assert_eq!(
        AsciiStringRef::try_from("abc€").err(),
        Some(EncodingError::NonAsciiCharacterFound {
            pos: 3,
            character: '€'
        })
    );
    assert_eq!(
        AsciiStringRef::try_from("😀").err(),
        Some(EncodingError::NonAsciiCharacterFound {
            pos: 0,
            character: '😀'
        })
    );
}

#[test]
fn ascii_check_names_the_first_offender() {
    assert_eq!(validate_ascii(b""), Ok(()));
    assert_eq!(validate_ascii(b"\x00\x7F"), Ok(()));
    assert_eq!(
        validate_ascii(b"\x80"),
        Err(EncodingError::NonAsciiCharacterFound {
            pos: 0,
            character: '\u{80}'
        })
    );
    assert_eq!(
        validate_ascii(b"ab\xE9cd\xFF"),
        Err(EncodingError::NonAsciiCharacterFound {
            pos: 2,
            character: 'é'
        })
    );
}

#[test]
fn ascii_string_ref_parse_and_copy() {
    assert_eq!(AsciiStringRef(b"1500").parse(), Ok(1500));
    assert_eq!(AsciiStringRef(b"65536").parse(), Err(DecimalError::Overflow));
    assert_eq!(AsciiStringRef(b"").parse(), Err(DecimalError::Empty));
    assert_eq!(
        AsciiStringRef(b"1500 ").parse(),
        Err(DecimalError::InvalidDigit)
    );
    let owned = AsciiStringRef(b"ether1").to_ascii_string();
    assert_eq!(owned, AsciiString(b"ether1".to_vec()));
    assert_eq!(owned.as_deref(), AsciiStringRef(b"ether1"));
}

#[test]
fn ascii_string_into_string() {
    assert_eq!(
        AsciiString(b"ether1".to_vec()).into_string(),
        Ok("ether1".to_string())
    );
    assert_eq!(AsciiString(Vec::new()).into_string(), Ok(String::new()));
    assert_eq!(
        AsciiString(b"caf\xE9".to_vec()).into_string(),
        Err(EncodingError::NonAsciiCharacterFound {
            pos: 3,
            character: 'é'
        })
    );
}

#[test]
fn bytes_are_shown_with_escapes() {
    assert_eq!(format_mikrotik_bytes(b""), "");
    assert_eq!(format_mikrotik_bytes(b"ether1"), "ether1");
    assert_eq!(format_mikrotik_bytes(b"caf\xE9"), "caf\\xe9");
    assert_eq!(format_mikrotik_bytes(b"\x80\xFF\x0A\x9a"), "\\x80\\xff\n\\x9a");
    assert_eq!(AsciiStringRef(b"a\xC3\xA4").to_string(), "a\\xc3\\xa4");
    assert_eq!(AsciiString(b"\xA0b".to_vec()).to_string(), "\\xa0b");
}

#[test]
fn text_of_utf8() {
    assert_eq!(text(b"plain"), Some("plain".to_string()));
    assert_eq!(text("größer".as_bytes()), Some("größer".to_string()));
    assert_eq!(text(b""), Some(String::new()));
    assert_eq!(text(b"caf\xE9"), None);
    assert_eq!(text(b"\xC3"), None);
}

#[test]
fn what_can_be_written_as_a_word() {
    let mut buffer: Vec<u8> = vec![1];
    let slice: &[u8] = b"ab";
    assert_eq!(slice.byte_count(), 2);
    slice.write_to_buffer(&mut buffer);
    let array: [u8; 3] = *b"cde";
    assert_eq!(array.byte_count(), 3);
    array.write_to_buffer(&mut buffer);
    let text_: &str = "fß";
    assert_eq!(text_.byte_count(), 3);
    text_.write_to_buffer(&mut buffer);
    assert_eq!(buffer, b"\x01abcdef\xC3\x9F");
    // A byte is named as the character with its code, a character as it is.
    assert_eq!(slice.validate(), Ok(()));
    assert_eq!(array.validate(), Ok(()));
    assert_eq!("plain".validate(), Ok(()));
    assert_eq!(
        text_.validate(),
        Err(EncodingError::NonAsciiCharacterFound {
            pos: 1,
            character: 'ß'
        })
    );
    assert_eq!(
        text_.as_bytes().validate(),
        Err(EncodingError::NonAsciiCharacterFound {
            pos: 1,
            character: '\u{C3}'
        })
    );
    assert_eq!(
        [b'a', 0xE9].validate(),
        Err(EncodingError::NonAsciiCharacterFound {
            pos: 1,
            character: 'é'
        })
    );
}
