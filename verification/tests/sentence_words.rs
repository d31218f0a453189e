use mikrotik_rs::protocol::sentence::Sentence;
use mikrotik_rs::protocol::word::{Word, WordAttribute, WordCategory};

#[test]
fn test_sentence_iterator() {
    let data: &[u8] = &[
        0x05, b'!', b'd', b'o', b'n', b'e', // Word: !done
        0x08, b'.', b't', b'a', b'g', b'=', b'1', b'2', b'3', // Word: .tag=123
        0x0C, b'=', b'n', b'a', b'm', b'e', b'=', b'e', b't', b'h', b'e', b'r',
        b'1', // Word: =name=ether1
        0x00, // End of sentence
    ];

    let mut sentence = Sentence::new(data);

    assert_eq!(
        sentence.next().unwrap().unwrap(),
        Word::Category(WordCategory::Done)
    );

    assert_eq!(sentence.next().unwrap().unwrap(), Word::Tag(123));

    assert_eq!(
        sentence.next().unwrap().unwrap(),
        Word::Attribute(WordAttribute::new("name", Some("ether1")))
    );

    assert_eq!(sentence.next(), None);
}

#[test]
fn test_sentence_category_error() {
    // Test case where the first word is not a category
    let data: &[u8] = &[
        0x0A, b'.', b't', b'a', b'g', b'=', b'1', b'2', b'3', // Word: .tag=123
        0x0D, b'=', b'n', b'a', b'm', b'e', b'=', b'e', b't', b'h', b'e', b'r',
        b'1', // Word: =name=ether1
    ];

    let mut sentence = Sentence::new(data);

    assert!(sentence.next().unwrap().is_err());
}

#[test]
fn test_sentence_length_error() {
    // Test case where length is invalid
    let data: &[u8] = &[
        0xF8, b'.', b't', b'a', b'g', b'=', b'1', b'2', b'3', // Invalid length prefix
    ];

    let mut sentence = Sentence::new(data);

    assert!(sentence.next().unwrap().is_err());
}

#[test]
fn test_complete_sentence_parsing() {
    let data: &[u8] = &[
        0x05, b'!', b'd', b'o', b'n', b'e', // Word: !done
        0x08, b'.', b't', b'a', b'g', b'=', b'1', b'2', b'3', // Word: .tag=123
        0x0C, b'=', b'n', b'a', b'm', b'e', b'=', b'e', b't', b'h', b'e', b'r',
        b'1', // Word: =name=ether1
        0x00, // End of sentence
    ];

    let mut sentence = Sentence::new(data);

    assert_eq!(
        sentence.next().unwrap().unwrap(),
        Word::Category(WordCategory::Done)
    );

    assert_eq!(sentence.next().unwrap().unwrap(), Word::Tag(123));

    assert_eq!(
        sentence.next().unwrap().unwrap(),
        Word::Attribute(WordAttribute::new("name", Some("ether1")))
    );

    assert_eq!(sentence.next(), None);
}

#[test]
fn test_sentence_with_invalid_length() {
    let data: &[u8] = &[
        0xF8, b'.', b't', b'a', b'g', b'=', b'1', b'2', b'3', // Invalid length prefix
    ];

    let mut sentence = Sentence::new(data);

    assert!(sentence.next().unwrap().is_err());
}

#[test]
fn test_sentence_without_category() {
    let data: &[u8] = &[
        0x0A, b'.', b't', b'a', b'g', b'=', b'1', b'2', b'3', // Word: .tag=123
        0x0D, b'=', b'n', b'a', b'm', b'e', b'=', b'e', b't', b'h', b'e', b'r',
        b'1', // Word: =name=ether1
    ];

    let mut sentence = Sentence::new(data);

    assert!(sentence.next().unwrap().is_err());
}

#[test]
fn test_mixed_words_sentence() {
    let data: &[u8] = &[
        0x03, b'!', b'r', b'e', // Word: !re
        0x04, b'=', b'a', b'=', b'b', // Word: =a=b
        0x08, b'.', b't', b'a', b'g', b'=', b'4', b'5', b'6', // Word: .tag=456
        0x00, // End of sentence
    ];

    let mut sentence = Sentence::new(data);

    assert_eq!(
        sentence.next().unwrap().unwrap(),
        Word::Category(WordCategory::Reply)
    );

    assert_eq!(
        sentence.next().unwrap().unwrap(),
        Word::Attribute(WordAttribute::new("a", Some("b")))
    );

    assert_eq!(sentence.next().unwrap().unwrap(), Word::Tag(456));

    assert_eq!(sentence.next(), None);
}

#[test]
fn test_sentence_with_fatal_message() {
    let data: &[u8] = &[
        0x06, b'!', b'f', b'a', b't', b'a', b'l', 0x0B, b's', b'e', b'r', b'v', b'e', b'r',
        b' ', b'd', b'o', b'w', b'n', // Word: !fatal server down
        0x00, // End of sentence
    ];

    let mut sentence = Sentence::new(data);

    assert_eq!(
        sentence.next().unwrap().unwrap(),
        Word::Category(WordCategory::Fatal)
    );

    assert_eq!(
        sentence.next().unwrap().unwrap(),
        Word::Message("server down")
    );

    assert_eq!(sentence.next(), None);
}

#[test]
fn test_complete_sentence_with_extra_data() {
    let data: &[u8] = &[
        0x05, b'!', b'd', b'o', b'n', b'e', // Word: !done
        0x08, b'.', b't', b'a', b'g', b'=', b'1', b'2', b'3', // Word: .tag=123
        0x0C, b'=', b'n', b'a', b'm', b'e', b'=', b'e', b't', b'h', b'e', b'r',
        b'1', // Word: =name=ether1
        0x00, // End of sentence
        0x07, b'!', b'd', b'o', b'n', b'e', // Extra data: !done
    ];

    let mut sentence = Sentence::new(data);

    assert_eq!(
        sentence.next().unwrap().unwrap(),
        Word::Category(WordCategory::Done)
    );

    assert_eq!(sentence.next().unwrap().unwrap(), Word::Tag(123));

    assert_eq!(
        sentence.next().unwrap().unwrap(),
        Word::Attribute(WordAttribute::new("name", Some("ether1")))
    );

    assert_eq!(sentence.next(), None);

    // Confirm that extra data is ignored after the end of the sentence
    assert_eq!(sentence.next(), None);
}
