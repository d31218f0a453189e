use mikrotik_rs::protocol::command::CommandBuffer;
use mikrotik_rs::protocol::error::{MissingWord, ProtocolError, TrapCategoryError, WordType};
use mikrotik_rs::protocol::response::{
    bytes_eq, AttributeMap, CommandResponse, DoneResponse, EmptyResponse, TrapCategory,
};
use mikrotik_rs::protocol::sentence::{Sentence, SentenceError};
use mikrotik_rs::protocol::word::{DecimalError, WordError};

/// The wire form of the sentence made of these words.
fn sentence(words: &[&[u8]]) -> Vec<u8> {
    let mut buffer = CommandBuffer::default();
    for word in words {
        buffer.write_word(*word);
    }
    buffer.write_len(0);
    buffer.0
}

fn parse(words: &[&[u8]]) -> Result<CommandResponse, ProtocolError> {
    let bytes = sentence(words);
    CommandResponse::try_from(Sentence::new(&bytes))
}

#[test]
fn done_and_empty() {
    assert_eq!(
        parse(&[b"!done", b".tag=7"]),
        Ok(CommandResponse::Done(DoneResponse { tag: 7 }))
    );
    assert_eq!(
        parse(&[b"!empty", b".tag=8"]),
        Ok(CommandResponse::Empty(EmptyResponse { tag: 8 }))
    );
    // Words behind the tag are not read.
    assert_eq!(
        parse(&[b"!done", b".tag=7", b"\xFF"]),
        Ok(CommandResponse::Done(DoneResponse { tag: 7 }))
    );
    assert_eq!(parse(&[b"!done", b".tag=7"]).unwrap().tag(), Some(7));
    assert_eq!(parse(&[b"!empty", b".tag=8"]).unwrap().tag(), Some(8));
}

#[test]
fn reply_with_attributes_in_any_order() {
    let orders: [&[&[u8]]; 3] = [
        &[b"!re", b".tag=5", b"=name=ether1", b"=mtu=1500", b"=disabled"],
        &[b"!re", b"=name=ether1", b".tag=5", b"=mtu=1500", b"=disabled"],
        &[b"!re", b"=disabled", b"=mtu=1500", b"=name=ether1", b".tag=5"],
    ];
    for words in orders {
        let reply = match parse(words).unwrap() {
            CommandResponse::Reply(reply) => reply,
            other => panic!("{:?}", other),
        };
        assert_eq!(reply.tag, 5);
        assert_eq!(reply.attributes.len(), 3);
        assert_eq!(
            reply.attributes.get("name").unwrap().value,
            Some(b"ether1".to_vec())
        );
        assert_eq!(
            reply.attributes.get("mtu").unwrap().value,
            Some(b"1500".to_vec())
        );
        assert_eq!(reply.attributes.get("disabled").unwrap().value, None);
        assert!(reply.attributes.get("comment").is_none());
    }
}

#[test]
fn reply_without_attributes() {
    let response = parse(&[b"!re", b".tag=5"]).unwrap();
    assert_eq!(response.tag(), Some(5));
    match response {
        CommandResponse::Reply(reply) => assert_eq!(reply.attributes.len(), 0),
        other => panic!("{:?}", other),
    }
}

#[test]
fn reply_keeps_bytes_that_are_no_text() {
    let reply = match parse(&[b"!re", b".tag=1", b"=comment=caf\xE9"]).unwrap() {
        CommandResponse::Reply(reply) => reply,
        other => panic!("{:?}", other),
    };
    assert_eq!(
        reply.attributes.get("comment").unwrap().value,
        Some(b"caf\xE9".to_vec())
    );
}

#[test]
fn later_attribute_and_later_tag_win() {
    let reply = match parse(&[b"!re", b".tag=1", b"=a=1", b"=b=2", b"=a=3", b".tag=2"]).unwrap() {
        CommandResponse::Reply(reply) => reply,
        other => panic!("{:?}", other),
    };
    assert_eq!(reply.tag, 2);
    assert_eq!(reply.attributes.len(), 2);
    assert_eq!(reply.attributes.get("a").unwrap().value, Some(b"3".to_vec()));
    assert_eq!(reply.attributes.get("b").unwrap().value, Some(b"2".to_vec()));
    let keys: Vec<&str> = reply
        .attributes
        .entries()
        .iter()
        .map(|e| e.key.as_str())
        .collect();
    assert_eq!(keys, ["a", "b"]);
}

#[test]
fn trap_with_and_without_category() {
    let trap = match parse(&[b"!trap", b".tag=3", b"=category=2", b"=message=interrupted"]).unwrap()
    {
        CommandResponse::Trap(trap) => trap,
        other => panic!("{:?}", other),
    };
    assert_eq!(trap.tag, 3);
    assert_eq!(
        trap.category,
        Some(TrapCategory::CommandExecutionInterrupted)
    );
    assert_eq!(trap.message, "interrupted");

    let trap = match parse(&[b"!trap", b"=message=no such command", b".tag=3"]).unwrap() {
        CommandResponse::Trap(trap) => trap,
        other => panic!("{:?}", other),
    };
    assert_eq!(trap.category, None);
    assert_eq!(trap.message, "no such command");
    assert_eq!(CommandResponse::Trap(trap).tag(), Some(3));

    // A category without a value is none.
    let trap = match parse(&[b"!trap", b".tag=3", b"=category", b"=message="]).unwrap() {
        CommandResponse::Trap(trap) => trap,
        other => panic!("{:?}", other),
    };
    assert_eq!(trap.category, None);
    assert_eq!(trap.message, "");
}

#[test]
fn every_trap_category() {
    let all = [
        TrapCategory::MissingItemOrCommand,
        TrapCategory::ArgumentValueFailure,
        TrapCategory::CommandExecutionInterrupted,
        TrapCategory::ScriptingFailure,
        TrapCategory::GeneralFailure,
        TrapCategory::APIFailure,
        TrapCategory::TTYFailure,
        TrapCategory::ReturnValue,
    ];
    for (n, category) in all.iter().enumerate() {
        let n = n as u8;
        assert_eq!(TrapCategory::try_from(n), Ok(*category));
        assert_eq!(category.to_u8(), n);
        assert_eq!(TrapCategory::parse(n.to_string().as_bytes()), Ok(*category));
    }
    for n in 8..=255u8 {
        assert_eq!(
            TrapCategory::try_from(n),
            Err(TrapCategoryError::OutOfRange(n as u64))
        );
    }
    // Any decimal number above 7 is out of range, whatever its size.
    for (text, number) in [
        ("8", 8u64),
        ("+8", 8),
        ("0008", 8),
        ("255", 255),
        ("256", 256),
        ("300", 300),
        ("65536", 65536),
        ("18446744073709551615", u64::MAX),
        ("18446744073709551616", u64::MAX),
        ("99999999999999999999999999999999", u64::MAX),
    ] {
        assert_eq!(
            TrapCategory::parse(text.as_bytes()),
            Err(TrapCategoryError::OutOfRange(number)),
            "{}",
            text
        );
    }
    assert_eq!(
        TrapCategory::parse(b"+7"),
        Ok(TrapCategory::ReturnValue)
    );
    assert_eq!(
        TrapCategory::parse(b"000000000000000000000000000000000007"),
        Ok(TrapCategory::ReturnValue)
    );
    // Only text that is no decimal number is invalid.
    assert_eq!(
        TrapCategory::parse(b""),
        Err(TrapCategoryError::Invalid(DecimalError::Empty))
    );
    for text in ["two", "+", "-1", "3 ", "300x", "x300", "7.0", "99999999999999999999999x"] {
        assert_eq!(
            TrapCategory::parse(text.as_bytes()),
            Err(TrapCategoryError::Invalid(DecimalError::InvalidDigit)),
            "{}",
            text
        );
    }
}

#[test]
fn trap_with_a_category_above_255_is_out_of_range() {
    let bytes = b"\x05!trap\x07.tag=42\x0D=category=300\x0A=message=x\x00";
    assert_eq!(
        CommandResponse::try_from(Sentence::new(bytes)),
        Err(ProtocolError::TrapCategory(TrapCategoryError::OutOfRange(
            300
        )))
    );
    assert_eq!(
        parse(&[b"!trap", b".tag=42", b"=message=x", b"=category=123456789012345678901234567890"]),
        Err(ProtocolError::TrapCategory(TrapCategoryError::OutOfRange(
            u64::MAX
        )))
    );
    assert_eq!(
        parse(&[b"!trap", b".tag=42", b"=category=300x", b"=message=x"]),
        Err(ProtocolError::TrapCategory(TrapCategoryError::Invalid(
            DecimalError::InvalidDigit
        )))
    );
}

#[test]
fn trap_missing_message_fails() {
    assert_eq!(
        parse(&[b"!trap", b".tag=3", b"=category=2"]),
        Err(ProtocolError::TrapCategory(
            TrapCategoryError::MissingMessageAttribute
        ))
    );
    assert_eq!(
        parse(&[b"!trap", b".tag=3"]),
        Err(ProtocolError::TrapCategory(
            TrapCategoryError::MissingMessageAttribute
        ))
    );
    // A message without a value, or with a value that is no text, is none.
    assert_eq!(
        parse(&[b"!trap", b".tag=3", b"=message"]),
        Err(ProtocolError::TrapCategory(
            TrapCategoryError::MissingMessageAttribute
        ))
    );
    assert_eq!(
        parse(&[b"!trap", b".tag=3", b"=message=\xFF"]),
        Err(ProtocolError::TrapCategory(
            TrapCategoryError::MissingMessageAttribute
        ))
    );
    // A later message without a value takes the earlier one away.
    assert_eq!(
        parse(&[b"!trap", b".tag=3", b"=message=x", b"=message"]),
        Err(ProtocolError::TrapCategory(
            TrapCategoryError::MissingMessageAttribute
        ))
    );
}

#[test]
fn trap_with_category_8_is_out_of_range() {
    assert_eq!(
        parse(&[b"!trap", b".tag=3", b"=category=8", b"=message=x"]),
        Err(ProtocolError::TrapCategory(TrapCategoryError::OutOfRange(
            8
        )))
    );
    assert_eq!(
        parse(&[b"!trap", b".tag=3", b"=message=x", b"=category=x"]),
        Err(ProtocolError::TrapCategory(TrapCategoryError::Invalid(
            DecimalError::InvalidDigit
        )))
    );
    assert_eq!(
        parse(&[b"!trap", b".tag=3", b"=message=x", b"=category="]),
        Err(ProtocolError::TrapCategory(TrapCategoryError::Invalid(
            DecimalError::Empty
        )))
    );
}

#[test]
fn trap_takes_no_other_attribute() {
    assert_eq!(
        parse(&[b"!trap", b".tag=3", b"=message=x", b"=hint=y"]),
        Err(ProtocolError::TrapCategory(
            TrapCategoryError::InvalidAttribute {
                key: "hint".to_string(),
                value: Some("y".to_string()),
            }
        ))
    );
    assert_eq!(
        parse(&[b"!trap", b"=hint", b".tag=3", b"=message=x"]),
        Err(ProtocolError::TrapCategory(
            TrapCategoryError::InvalidAttribute {
                key: "hint".to_string(),
                value: None,
            }
        ))
    );
    assert_eq!(
        parse(&[b"!trap", b".tag=3", b"=message=x", b"stray"]),
        Err(ProtocolError::WordSequence {
            word: WordType::Message,
            expected: vec![WordType::Tag, WordType::Attribute],
        })
    );
}

#[test]
fn fatal_has_a_reason_and_no_tag() {
    let response = parse(&[b"!fatal", b"session terminated on request"]).unwrap();
    assert_eq!(response.tag(), None);
    assert_eq!(
        response,
        CommandResponse::Fatal("session terminated on request".to_string())
    );
    assert_eq!(
        parse(&[b"!fatal"]),
        Err(ProtocolError::Incomplete(MissingWord::Message))
    );
    assert_eq!(
        parse(&[b"!fatal", b".tag=1"]),
        Err(ProtocolError::WordSequence {
            word: WordType::Tag,
            expected: vec![WordType::Message],
        })
    );
    assert_eq!(
        parse(&[b"!fatal", b"\xFF"]),
        Err(ProtocolError::Sentence(SentenceError::WordError(
            WordError::Utf8
        )))
    );
}

#[test]
fn first_word_must_be_a_category() {
    assert_eq!(
        parse(&[]),
        Err(ProtocolError::Incomplete(MissingWord::Category))
    );
    assert_eq!(
        CommandResponse::try_from(Sentence::new(&[])),
        Err(ProtocolError::Incomplete(MissingWord::Category))
    );
    assert_eq!(
        parse(&[b".tag=1", b"!done"]),
        Err(ProtocolError::WordSequence {
            word: WordType::Tag,
            expected: vec![WordType::Category],
        })
    );
    assert_eq!(
        parse(&[b"=name=x", b"!re", b".tag=1"]),
        Err(ProtocolError::WordSequence {
            word: WordType::Attribute,
            expected: vec![WordType::Category],
        })
    );
    assert_eq!(
        parse(&[b"done", b".tag=1"]),
        Err(ProtocolError::WordSequence {
            word: WordType::Message,
            expected: vec![WordType::Category],
        })
    );
    assert_eq!(
        parse(&[b"\xFF", b".tag=1"]),
        Err(ProtocolError::Sentence(SentenceError::WordError(
            WordError::Utf8
        )))
    );
    assert_eq!(
        CommandResponse::try_from(Sentence::new(&[0xF8, 0x00])),
        Err(ProtocolError::Sentence(SentenceError::PrefixLength))
    );
}

#[test]
fn missing_tag() {
    assert_eq!(
        parse(&[b"!done"]),
        Err(ProtocolError::Incomplete(MissingWord::Tag))
    );
    assert_eq!(
        parse(&[b"!empty"]),
        Err(ProtocolError::Incomplete(MissingWord::Tag))
    );
    assert_eq!(
        parse(&[b"!re", b"=name=x"]),
        Err(ProtocolError::Incomplete(MissingWord::Tag))
    );
    assert_eq!(
        parse(&[b"!trap", b"=message=x"]),
        Err(ProtocolError::Incomplete(MissingWord::Tag))
    );
    assert_eq!(
        parse(&[b"!done", b"=name=x"]),
        Err(ProtocolError::WordSequence {
            word: WordType::Attribute,
            expected: vec![WordType::Tag],
        })
    );
    assert_eq!(
        parse(&[b"!done", b".tag=x"]),
        Err(ProtocolError::Sentence(SentenceError::WordError(
            WordError::Tag(DecimalError::InvalidDigit)
        )))
    );
}

#[test]
fn reply_takes_only_tags_and_attributes() {
    assert_eq!(
        parse(&[b"!re", b".tag=1", b"!done"]),
        Err(ProtocolError::WordSequence {
            word: WordType::Category,
            expected: vec![WordType::Tag, WordType::Attribute],
        })
    );
    assert_eq!(
        parse(&[b"!re", b".tag=1", b"text"]),
        Err(ProtocolError::WordSequence {
            word: WordType::Message,
            expected: vec![WordType::Tag, WordType::Attribute],
        })
    );
    // The first word that is refused decides.
    assert_eq!(
        parse(&[b"!re", b"=k\xFF=v", b"text"]),
        Err(ProtocolError::Sentence(SentenceError::WordError(
            WordError::AttributeKeyNotUtf8
        )))
    );
}

#[test]
fn a_cut_sentence_is_no_response() {
    let mut bytes = sentence(&[b"!re", b".tag=1", b"=name=ether1"]);
    bytes.truncate(bytes.len() - 4);
    assert_eq!(
        CommandResponse::try_from(Sentence::new(&bytes)),
        Err(ProtocolError::Sentence(SentenceError::PrefixLength))
    );
}

#[test]
fn attribute_map_by_hand() {
    let mut map = AttributeMap::new();
    assert_eq!(map.len(), 0);
    assert!(map.get("a").is_none());
    map.insert("a".to_string(), Some(b"1".to_vec()));
    map.insert("b".to_string(), None);
    map.insert("a".to_string(), Some(b"2".to_vec()));
    assert_eq!(map.len(), 2);
    assert_eq!(map.get("a").unwrap().value, Some(b"2".to_vec()));
    assert_eq!(map.get("a").unwrap().key, "a");
    assert_eq!(map.get("b").unwrap().value, None);
    assert_eq!(map.entries().len(), 2);
    let copy = map.clone();
    assert_eq!(copy, map);
    assert!(bytes_eq(b"abc", b"abc"));
    assert!(!bytes_eq(b"abc", b"abd"));
    assert!(!bytes_eq(b"abc", b"ab"));
    assert!(bytes_eq(b"", b""));
}
