//! Errors of the response parser.

use vstd::prelude::*;
use vstd::utf8::encode_utf8;
use super::sentence::SentenceError;
use super::word::DecimalError;

verus! {

/// The kind of a word, without what it holds.
#[derive(Debug, Clone, Copy, PartialEq, Eq)]
pub enum WordType {
    /// Tag word.
    Tag,
    /// Category word.
    Category,
    /// Attribute word.
    Attribute,
    /// Message word.
    Message,
}

impl WordType {
    /// The name of the kind.
    pub open spec fn name(self) -> Seq<char> {
        match self {
            WordType::Tag => "tag"@,
            WordType::Category => "category"@,
            WordType::Attribute => "attribute"@,
            WordType::Message => "message"@,
        }
    }

    /// The name of the kind.
    pub fn to_string(&self) -> (r: String)
        ensures
            r@ == self.name(),
    {
        match self {
            WordType::Tag => "tag".to_owned(),
            WordType::Category => "category".to_owned(),
            WordType::Attribute => "attribute".to_owned(),
            WordType::Message => "message".to_owned(),
        }
    }
}

/// A word that a response must have and that is not there.
#[derive(Debug, Clone, Copy, PartialEq, Eq)]
pub enum MissingWord {
    /// Missing `.tag`. Every response but `!fatal` carries one.
    Tag,
    /// Missing category (`!done`, `!re`, `!trap`, `!fatal`, `!empty`).
    Category,
    /// Missing reason after `!fatal`.
    Message,
}

impl MissingWord {
    /// What is missing, in words.
    pub open spec fn message(self) -> Seq<char> {
        match self {
            MissingWord::Tag => "missing tag"@,
            MissingWord::Category => "missing category"@,
            MissingWord::Message => "missing message"@,
        }
    }

    /// What is missing, in words.
    pub fn to_string(&self) -> (r: String)
        ensures
            r@ == self.message(),
    {
        match self {
            MissingWord::Tag => "missing tag".to_owned(),
            MissingWord::Category => "missing category".to_owned(),
            MissingWord::Message => "missing message".to_owned(),
        }
    }
}

/// What is wrong with the attributes of a `!trap`.
#[derive(Debug, Clone, PartialEq, Eq)]
pub enum TrapCategoryError {
    /// The value of `category` is no decimal number: it is empty, or it is
    /// not an optional `+` and then digits only.
    Invalid(DecimalError),
    /// The category is a number above 7, of whatever size: the number, or
    /// the largest number of 64 bits where it is larger than that.
    OutOfRange(u64),
    /// An attribute other than `category` and `message`.
    InvalidAttribute {
        /// The key of the attribute.
        key: String,
        /// The value of the attribute, if present and valid UTF-8.
        value: Option<String>,
    },
    /// There is no `message` attribute with a text value.
    MissingMessageAttribute,
}

/// Why a sentence is not a response.
#[derive(Debug, Clone, PartialEq, Eq)]
pub enum ProtocolError {
    /// A word of the sentence could not be read.
    Sentence(SentenceError),
    /// The sentence lacks a word that the response needs.
    Incomplete(MissingWord),
    /// A word of the wrong kind stands where another is expected.
    WordSequence {
        /// The kind of the word that was found.
        word: WordType,
        /// The kinds that may stand there.
        expected: Vec<WordType>,
    },
    /// The attributes of a `!trap` are not as they must be.
    TrapCategory(TrapCategoryError),
}

/// [`TrapCategoryError`], with bytes in place of text.
pub enum TrapCategoryErrorView {
    Invalid(DecimalError),
    OutOfRange(u64),
    InvalidAttribute { key: Seq<u8>, value: Option<Seq<u8>> },
    MissingMessageAttribute,
}

/// [`ProtocolError`], with bytes in place of text.
pub enum ProtocolErrorView {
    Sentence(SentenceError),
    Incomplete(MissingWord),
    WordSequence { word: WordType, expected: Seq<WordType> },
    TrapCategory(TrapCategoryErrorView),
}

impl View for TrapCategoryError {
    type V = TrapCategoryErrorView;

    open spec fn view(&self) -> TrapCategoryErrorView {
        match self {
            TrapCategoryError::Invalid(e) => TrapCategoryErrorView::Invalid(*e),
            TrapCategoryError::OutOfRange(n) => TrapCategoryErrorView::OutOfRange(*n),
            TrapCategoryError::InvalidAttribute { key, value } => {
                TrapCategoryErrorView::InvalidAttribute {
                    key: encode_utf8(key@),
                    value: match value {
                        Some(v) => Some(encode_utf8(v@)),
                        None => None,
                    },
                }
            },
            TrapCategoryError::MissingMessageAttribute => {
                TrapCategoryErrorView::MissingMessageAttribute
            },
        }
    }
}

impl View for ProtocolError {
    type V = ProtocolErrorView;

    open spec fn view(&self) -> ProtocolErrorView {
        match self {
            ProtocolError::Sentence(e) => ProtocolErrorView::Sentence(*e),
            ProtocolError::Incomplete(m) => ProtocolErrorView::Incomplete(*m),
            ProtocolError::WordSequence { word, expected } => ProtocolErrorView::WordSequence {
                word: *word,
                expected: expected@,
            },
            ProtocolError::TrapCategory(e) => ProtocolErrorView::TrapCategory(e@),
        }
    }
}

} // verus!
