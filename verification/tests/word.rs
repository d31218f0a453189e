use mikrotik_rs::protocol::error::{MissingWord, WordType};
use mikrotik_rs::protocol::response::TrapCategory;
use mikrotik_rs::protocol::sentence::SentenceError;
use mikrotik_rs::protocol::word::{
    decimal_digits, read_decimal, read_number, DecimalError, Word, WordAttribute, WordCategory, WordError,
};

#[test]
fn word_test_word_parsing() {
    // Test cases for `Word::try_from` function
    assert_eq!(
        Word::try_from(b"!done".as_ref()).unwrap(),
        Word::Category(WordCategory::Done)
    );

    assert_eq!(
        Word::try_from(b".tag=123".as_ref()).unwrap(),
        Word::Tag(123)
    );

    assert_eq!(
        Word::try_from(b"=name=ether1".as_ref()).unwrap(),
        Word::Attribute(WordAttribute::new("name", Some("ether1")))
    );

    assert_eq!(
        Word::try_from(b"!fatal".as_ref()).unwrap(),
        Word::Category(WordCategory::Fatal)
    );

    assert_eq!(
        Word::try_from(b"!empty".as_ref()).unwrap(),
        Word::Category(WordCategory::Empty)
    );

    assert_eq!(
        Word::try_from(b"unknownword".as_ref()).unwrap(),
        Word::Message("unknownword")
    );

    // Invalid tag value
    assert!(Word::try_from(b".tag=notanumber".as_ref()).is_err());

    // Invalid UTF-8 sequence
    assert!(Word::try_from(b"\xFF\xFF".as_ref()).is_err());
}

#[test]
fn word_test_display_for_word() {
    // Test cases for the text form of `Word`
    let word = Word::Category(WordCategory::Done);
    assert_eq!(word.to_string(), "!done");

    let word = Word::Tag(123);
    assert_eq!(word.to_string(), ".tag=123");

    let word = Word::Attribute(WordAttribute::new("name", Some("ether1")));
    assert_eq!(word.to_string(), "=name=ether1");

    let word = Word::Message("unknownword");
    assert_eq!(word.to_string(), "unknownword");

    let word = Word::Category(WordCategory::Empty);
    assert_eq!(word.to_string(), "!empty");
}

#[test]
fn every_category_is_recognised_and_shown() {
    let all = [
        (WordCategory::Done, "!done"),
        (WordCategory::Reply, "!re"),
        (WordCategory::Trap, "!trap"),
        (WordCategory::Fatal, "!fatal"),
        (WordCategory::Empty, "!empty"),
    ];
    for (category, token) in all {
        assert_eq!(WordCategory::from_bytes(token.as_bytes()), Some(category));
        assert_eq!(category.to_string(), token);
        assert_eq!(category.bytes(), token.as_bytes());
    }
    assert_eq!(WordCategory::from_bytes(b"!don"), None);
    assert_eq!(WordCategory::from_bytes(b"!donee"), None);
    assert_eq!(WordCategory::from_bytes(b"!DONE"), None);
    assert_eq!(WordCategory::from_bytes(b""), None);
}

#[test]
fn word_kinds_and_getters() {
    let category = Word::try_from(b"!re".as_ref()).unwrap();
    assert_eq!(category.category(), Some(&WordCategory::Reply));
    assert_eq!(category.tag(), None);
    assert_eq!(category.attribute(), None);
    assert_eq!(category.generic(), None);
    assert_eq!(category.word_type(), WordType::Category);

    let tag = Word::try_from(b".tag=65535".as_ref()).unwrap();
    assert_eq!(tag.tag(), Some(65535));
    assert_eq!(tag.category(), None);
    assert_eq!(tag.word_type(), WordType::Tag);

    let attribute = Word::try_from(b"=a=b=c".as_ref()).unwrap();
    assert_eq!(attribute.attribute(), Some(("a", Some("b=c"))));
    assert_eq!(attribute.word_type(), WordType::Attribute);

    let message = Word::try_from(b"out of memory".as_ref()).unwrap();
    assert_eq!(message.generic(), Some("out of memory"));
    assert_eq!(message.word_type(), WordType::Message);
}

#[test]
fn attribute_shapes() {
    // A flag: the second `=` is there, the value is empty.
    match Word::try_from(b"=disabled=".as_ref()).unwrap() {
        Word::Attribute(a) => {
            assert_eq!(a.key, "disabled");
            assert_eq!(a.value, Some(""));
            assert_eq!(a.value_raw, Some(&b""[..]));
        }
        other => panic!("{:?}", other),
    }
    // No second `=`: no value at all.
    match Word::try_from(b"=disabled".as_ref()).unwrap() {
        Word::Attribute(a) => {
            assert_eq!(a.key, "disabled");
            assert_eq!(a.value, None);
            assert_eq!(a.value_raw, None);
        }
        other => panic!("{:?}", other),
    }
    // An empty key.
    match Word::try_from(b"==x".as_ref()).unwrap() {
        Word::Attribute(a) => {
            assert_eq!(a.key, "");
            assert_eq!(a.value, Some("x"));
        }
        other => panic!("{:?}", other),
    }
    // A lone `=`.
    match Word::try_from(b"=".as_ref()).unwrap() {
        Word::Attribute(a) => {
            assert_eq!(a.key, "");
            assert_eq!(a.value_raw, None);
        }
        other => panic!("{:?}", other),
    }
}

#[test]
fn attribute_values_are_byte_transparent() {
    // Latin-1 bytes in the value: kept as they are, without a text view.
    match Word::try_from(b"=comment=caf\xE9".as_ref()).unwrap() {
        Word::Attribute(a) => {
            assert_eq!(a.key, "comment");
            assert_eq!(a.value, None);
            assert_eq!(a.value_raw, Some(&b"caf\xE9"[..]));
        }
        other => panic!("{:?}", other),
    }
    // UTF-8 in the value: both views.
    match Word::try_from("=comment=café".as_bytes()).unwrap() {
        Word::Attribute(a) => {
            assert_eq!(a.value, Some("café"));
            assert_eq!(a.value_raw, Some("café".as_bytes()));
        }
        other => panic!("{:?}", other),
    }
}

#[test]
fn every_word_error() {
    assert_eq!(Word::try_from(b"\xFF\xFF".as_ref()), Err(WordError::Utf8));
    assert_eq!(
        Word::try_from(b".tag=\xFF".as_ref()),
        Err(WordError::Utf8)
    );
    assert_eq!(
        Word::try_from(b".tag=".as_ref()),
        Err(WordError::Tag(DecimalError::Empty))
    );
    assert_eq!(
        Word::try_from(b".tag=12a".as_ref()),
        Err(WordError::Tag(DecimalError::InvalidDigit))
    );
    assert_eq!(
        Word::try_from(b".tag=65536".as_ref()),
        Err(WordError::Tag(DecimalError::Overflow))
    );
    assert_eq!(
        Word::try_from(b"=k\xFFy=value".as_ref()),
        Err(WordError::AttributeKeyNotUtf8)
    );
    assert_eq!(
        WordAttribute::try_from(b"name=ether1".as_ref()),
        Err(WordError::Attribute)
    );
    assert_eq!(
        WordAttribute::try_from(b"".as_ref()),
        Err(WordError::Attribute)
    );
}

#[test]
fn a_word_that_only_resembles_a_tag_is_a_message() {
    assert_eq!(
        Word::try_from(b".tag".as_ref()),
        Ok(Word::Message(".tag"))
    );
    assert_eq!(
        Word::try_from(b".tags=1".as_ref()),
        Ok(Word::Message(".tags=1"))
    );
    assert_eq!(Word::try_from(b"".as_ref()), Ok(Word::Message("")));
}

#[test]
fn decimal_reading() {
    assert_eq!(read_decimal(b"0", 0xFFFF), Ok(0));
    assert_eq!(read_decimal(b"65535", 0xFFFF), Ok(65535));
    assert_eq!(read_decimal(b"+7", 0xFFFF), Ok(7));
    assert_eq!(read_decimal(b"0007", 0xFFFF), Ok(7));
    assert_eq!(read_decimal(b"000000000000000000255", 255), Ok(255));
    assert_eq!(read_decimal(b"", 0xFFFF), Err(DecimalError::Empty));
    assert_eq!(read_decimal(b"+", 0xFFFF), Err(DecimalError::InvalidDigit));
    assert_eq!(read_decimal(b"-", 0xFFFF), Err(DecimalError::InvalidDigit));
    assert_eq!(read_decimal(b"-5", 0xFFFF), Err(DecimalError::InvalidDigit));
    assert_eq!(read_decimal(b"++5", 0xFFFF), Err(DecimalError::InvalidDigit));
    assert_eq!(read_decimal(b"5 ", 0xFFFF), Err(DecimalError::InvalidDigit));
    assert_eq!(read_decimal(b"65536", 0xFFFF), Err(DecimalError::Overflow));
    assert_eq!(read_decimal(b"256", 255), Err(DecimalError::Overflow));
    // What goes wrong first decides.
    assert_eq!(read_decimal(b"99999x", 0xFFFF), Err(DecimalError::Overflow));
    assert_eq!(
        read_decimal(b"9x9999", 0xFFFF),
        Err(DecimalError::InvalidDigit)
    );
}

#[test]
fn decimal_reading_agrees_with_the_standard_library() {
    let inputs: [&str; 14] = [
        "", "+", "-", "0", "+0", "-0", "12", "65535", "65536", "99999x", "9x9999", "00012",
        "1 ", "١",
    ];
    for text in inputs {
        assert_eq!(
            read_decimal(text.as_bytes(), 0xFFFF).ok(),
            text.parse::<u16>().ok(),
            "{:?}",
            text
        );
        assert_eq!(
            read_decimal(text.as_bytes(), 0xFF).ok(),
            text.parse::<u8>().ok().map(u16::from),
            "{:?}",
            text
        );
    }
}

#[test]
fn decimal_writing_round_trip() {
    for n in [0u16, 1, 9, 10, 99, 100, 999, 1000, 1234, 9999, 10000, 65535] {
        let digits = decimal_digits(n);
        assert_eq!(digits, n.to_string().into_bytes());
        assert_eq!(read_decimal(&digits, 0xFFFF), Ok(n));
    }
}

#[test]
fn shown_attribute_without_value() {
    let word = Word::Attribute(WordAttribute::new("disabled", None));
    assert_eq!(word.to_string(), "=disabled=");
    let word = Word::try_from(b"=comment=caf\xE9".as_ref()).unwrap();
    assert_eq!(word.to_string(), "=comment=");
    let word = Word::Message("größer");
    assert_eq!(word.to_string(), "größer");
}

#[test]
fn errors_in_words() {
    assert_eq!(
        DecimalError::Empty.to_string(),
        "cannot parse integer from empty string"
    );
    assert_eq!(
        DecimalError::InvalidDigit.to_string(),
        "invalid digit found in string"
    );
    assert_eq!(
        DecimalError::Overflow.to_string(),
        "number too large to fit in target type"
    );
    assert_eq!(WordError::Utf8.to_string(), "UTF-8 decoding error");
    assert_eq!(
        WordError::Tag(DecimalError::InvalidDigit).to_string(),
        "Tag parsing error: invalid digit found in string"
    );
    assert_eq!(WordError::Attribute.to_string(), "Invalid attribute format");
    assert_eq!(
        WordError::AttributeKeyNotUtf8.to_string(),
        "Attribute key is not valid UTF-8"
    );
    assert_eq!(
        SentenceError::PrefixLength.to_string(),
        "Invalid prefix length"
    );
    assert_eq!(
        SentenceError::WordError(WordError::Tag(DecimalError::Overflow)).to_string(),
        "Word error: Tag parsing error: number too large to fit in target type"
    );
    assert_eq!(MissingWord::Tag.to_string(), "missing tag");
    assert_eq!(MissingWord::Category.to_string(), "missing category");
    assert_eq!(MissingWord::Message.to_string(), "missing message");
    // The same words as the standard library has for its own errors.
    assert_eq!(
        DecimalError::Empty.to_string(),
        "".parse::<u16>().unwrap_err().to_string()
    );
    assert_eq!(
        DecimalError::InvalidDigit.to_string(),
        "x".parse::<u16>().unwrap_err().to_string()
    );
    assert_eq!(
        DecimalError::Overflow.to_string(),
        "65536".parse::<u16>().unwrap_err().to_string()
    );
}

#[test]
fn kinds_and_categories_in_words() {
    assert_eq!(WordType::Tag.to_string(), "tag");
    assert_eq!(WordType::Category.to_string(), "category");
    assert_eq!(WordType::Attribute.to_string(), "attribute");
    assert_eq!(WordType::Message.to_string(), "message");
    let all = [
        (TrapCategory::MissingItemOrCommand, "Missing item or command"),
        (TrapCategory::ArgumentValueFailure, "Argument value failure"),
        (
            TrapCategory::CommandExecutionInterrupted,
            "Command execution interrupted",
        ),
        (TrapCategory::ScriptingFailure, "Scripting failure"),
        (TrapCategory::GeneralFailure, "General failure"),
        (TrapCategory::APIFailure, "API failure"),
        (TrapCategory::TTYFailure, "TTY failure"),
        (TrapCategory::ReturnValue, "Return value"),
    ];
    for (category, text) in all {
        assert_eq!(category.description(), text);
    }
}

#[test]
fn numbers_of_any_size() {
    assert_eq!(read_number(b"0"), Ok(0));
    assert_eq!(read_number(b"+300"), Ok(300));
    assert_eq!(read_number(b"00042"), Ok(42));
    assert_eq!(read_number(b"18446744073709551614"), Ok(u64::MAX - 1));
    assert_eq!(read_number(b"18446744073709551615"), Ok(u64::MAX));
    // Above the largest number of 64 bits that number is given.
    assert_eq!(read_number(b"18446744073709551616"), Ok(u64::MAX));
    assert_eq!(read_number(b"18446744073709551620"), Ok(u64::MAX));
    assert_eq!(read_number(b"184467440737095516150"), Ok(u64::MAX));
    assert_eq!(
        read_number(b"999999999999999999999999999999999999"),
        Ok(u64::MAX)
    );
    assert_eq!(read_number(b""), Err(DecimalError::Empty));
    assert_eq!(read_number(b"+"), Err(DecimalError::InvalidDigit));
    assert_eq!(read_number(b"-3"), Err(DecimalError::InvalidDigit));
    assert_eq!(read_number(b"3x"), Err(DecimalError::InvalidDigit));
    // A stray byte behind however many digits makes the text no number.
    assert_eq!(
        read_number(b"99999999999999999999999999x"),
        Err(DecimalError::InvalidDigit)
    );
}
