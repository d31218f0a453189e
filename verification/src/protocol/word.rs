//! Words: the length-prefixed units of a sentence, and how their bytes are
//! classified.
//!
//! A word is, in this order of precedence,
//! 1. a category, if its bytes are one of `!done`, `!re`, `!trap`, `!fatal`,
//!    `!empty`;
//! 2. a tag, if it starts with `.tag=`: the rest must be a 16-bit decimal;
//! 3. an attribute, if it starts with `=`: the key runs up to the second `=`
//!    and must be valid UTF-8, the value is whatever follows, byte for byte;
//! 4. a free-form message otherwise, which must be valid UTF-8.

use vstd::prelude::*;
use vstd::slice::slice_subrange;
use vstd::string::{StringExecFns, StringSliceAdditionalSpecFns};
use vstd::utf8::{encode_utf8, encode_utf8_valid_utf8, valid_utf8, valid_utf8_concat};
use super::error::WordType;
use super::string::{known_text, lemma_ascii_is_utf8, utf8_text};

verus! {

/// Why a run of bytes is not the decimal notation of a number in range.
#[derive(Debug, PartialEq, Eq, Clone, Copy)]
pub enum DecimalError {
    /// There are no bytes at all.
    Empty,
    /// A byte is no ASCII digit, or a sign stands alone.
    InvalidDigit,
    /// The digits stand for more than the target type holds.
    Overflow,
}

/// Why a run of bytes is not a word.
#[derive(Debug, PartialEq, Eq, Clone, Copy)]
pub enum WordError {
    /// The word is not valid UTF-8.
    Utf8,
    /// The word starts with `.tag=` but what follows is no 16-bit decimal.
    Tag(DecimalError),
    /// The word is an attribute pair, but the format is invalid.
    Attribute,
    /// The key of the attribute pair is not valid UTF-8.
    AttributeKeyNotUtf8,
}

/// The kind of a response, given by the first word of its sentence.
#[derive(Debug, Clone, Copy, PartialEq, Eq)]
pub enum WordCategory {
    /// `!done`
    Done,
    /// `!re`
    Reply,
    /// `!trap`
    Trap,
    /// `!fatal`
    Fatal,
    /// `!empty`
    Empty,
}

/// A key-value pair of a sentence, borrowed from its bytes.
#[derive(Debug, PartialEq)]
pub struct WordAttribute<'a> {
    /// The key of the attribute.
    pub key: &'a str,
    /// The value of the attribute, if present and valid UTF-8.
    pub value: Option<&'a str>,
    /// The value of the attribute, if present, in bytes.
    pub value_raw: Option<&'a [u8]>,
}

/// A word of a sentence, borrowed from its bytes.
#[derive(Debug, PartialEq)]
pub enum Word<'a> {
    /// A category word, such as `!done`.
    Category(WordCategory),
    /// A tag word, such as `.tag=123`.
    Tag(u16),
    /// An attribute word, such as `=name=ether1`.
    Attribute(WordAttribute<'a>),
    /// Any other word; usually the reason that follows `!fatal`.
    Message(&'a str),
}

/// What a word says, in bytes.
pub enum WordView {
    Category(WordCategory),
    Tag(u16),
    Attribute { key: Seq<u8>, value: Option<Seq<u8>> },
    Message(Seq<u8>),
}

impl DecimalError {
    /// What went wrong, in words.
    pub open spec fn message(self) -> Seq<char> {
        match self {
            DecimalError::Empty => "cannot parse integer from empty string"@,
            DecimalError::InvalidDigit => "invalid digit found in string"@,
            DecimalError::Overflow => "number too large to fit in target type"@,
        }
    }

    /// What went wrong, in words.
    pub fn to_string(&self) -> (r: String)
        ensures
            r@ == self.message(),
    {
        match self {
            DecimalError::Empty => "cannot parse integer from empty string".to_owned(),
            DecimalError::InvalidDigit => "invalid digit found in string".to_owned(),
            DecimalError::Overflow => "number too large to fit in target type".to_owned(),
        }
    }
}

impl WordError {
    /// What went wrong, in words.
    pub open spec fn message(self) -> Seq<char> {
        match self {
            WordError::Utf8 => "UTF-8 decoding error"@,
            WordError::Tag(e) => "Tag parsing error: "@ + e.message(),
            WordError::Attribute => "Invalid attribute format"@,
            WordError::AttributeKeyNotUtf8 => "Attribute key is not valid UTF-8"@,
        }
    }

    /// What went wrong, in words.
    pub fn to_string(&self) -> (r: String)
        ensures
            r@ == self.message(),
    {
        match self {
            WordError::Utf8 => "UTF-8 decoding error".to_owned(),
            WordError::Tag(e) => {
                let mut text = "Tag parsing error: ".to_owned();
                text.append(e.to_string().as_str());
                text
            },
            WordError::Attribute => "Invalid attribute format".to_owned(),
            WordError::AttributeKeyNotUtf8 => "Attribute key is not valid UTF-8".to_owned(),
        }
    }
}

impl WordCategory {
    /// The bytes that stand for the category on the wire.
    pub open spec fn token(self) -> Seq<u8> {
        match self {
            WordCategory::Done => seq!['!' as u8, 'd' as u8, 'o' as u8, 'n' as u8, 'e' as u8],
            WordCategory::Reply => seq!['!' as u8, 'r' as u8, 'e' as u8],
            WordCategory::Trap => seq!['!' as u8, 't' as u8, 'r' as u8, 'a' as u8, 'p' as u8],
            WordCategory::Fatal => seq![
                '!' as u8, 'f' as u8, 'a' as u8, 't' as u8, 'a' as u8, 'l' as u8,
            ],
            WordCategory::Empty => seq![
                '!' as u8, 'e' as u8, 'm' as u8, 'p' as u8, 't' as u8, 'y' as u8,
            ],
        }
    }

    /// The category whose token `bytes` is, if any.
    pub open spec fn of(bytes: Seq<u8>) -> Option<WordCategory> {
        if bytes == WordCategory::Done.token() {
            Some(WordCategory::Done)
        } else if bytes == WordCategory::Reply.token() {
            Some(WordCategory::Reply)
        } else if bytes == WordCategory::Trap.token() {
            Some(WordCategory::Trap)
        } else if bytes == WordCategory::Fatal.token() {
            Some(WordCategory::Fatal)
        } else if bytes == WordCategory::Empty.token() {
            Some(WordCategory::Empty)
        } else {
            None
        }
    }

    /// The token of the category as text, such as `!done`.
    pub fn to_string(&self) -> (r: String)
        ensures
            encode_utf8(r@) == self.token(),
    {
        let token = self.bytes();
        proof {
            lemma_ascii_is_utf8(token@);
        }
        known_text(token.as_slice())
    }

    /// The token of the category.
    pub fn bytes(&self) -> (r: Vec<u8>)
        ensures
            r@ == self.token(),
            crate::protocol::string::is_ascii_bytes(r@),
    {
        let r = match self {
            WordCategory::Done => vec!['!' as u8, 'd' as u8, 'o' as u8, 'n' as u8, 'e' as u8],
            WordCategory::Reply => vec!['!' as u8, 'r' as u8, 'e' as u8],
            WordCategory::Trap => vec!['!' as u8, 't' as u8, 'r' as u8, 'a' as u8, 'p' as u8],
            WordCategory::Fatal => vec![
                '!' as u8, 'f' as u8, 'a' as u8, 't' as u8, 'a' as u8, 'l' as u8,
            ],
            WordCategory::Empty => vec![
                '!' as u8, 'e' as u8, 'm' as u8, 'p' as u8, 't' as u8, 'y' as u8,
            ],
        };
        assert(r@ =~= self.token());
        r
    }

    /// Recognises a category token.
    pub fn from_bytes(value: &[u8]) -> (r: Option<WordCategory>)
        ensures
            r == WordCategory::of(value@),
    {
        let n: usize = value.len();
        if n < 3 || value[0] != '!' as u8 {
            return None;
        }
        let r = if n == 5 && value[1] == 'd' as u8 && value[2] == 'o' as u8 && value[3] == 'n' as u8
            && value[4] == 'e' as u8 {
            Some(WordCategory::Done)
        } else if n == 3 && value[1] == 'r' as u8 && value[2] == 'e' as u8 {
            Some(WordCategory::Reply)
        } else if n == 5 && value[1] == 't' as u8 && value[2] == 'r' as u8 && value[3] == 'a' as u8
            && value[4] == 'p' as u8 {
            Some(WordCategory::Trap)
        } else if n == 6 && value[1] == 'f' as u8 && value[2] == 'a' as u8 && value[3] == 't' as u8
            && value[4] == 'a' as u8 && value[5] == 'l' as u8 {
            Some(WordCategory::Fatal)
        } else if n == 6 && value[1] == 'e' as u8 && value[2] == 'm' as u8 && value[3] == 'p' as u8
            && value[4] == 't' as u8 && value[5] == 'y' as u8 {
            Some(WordCategory::Empty)
        } else {
            None
        };
        proof {
            match r {
                Some(c) => {
                    assert(value@ =~= c.token());
                },
                None => {},
            }
        }
        r
    }
}

/// The bytes `.tag=` that open a tag word.
pub open spec fn tag_prefix() -> Seq<u8> {
    seq!['.' as u8, 't' as u8, 'a' as u8, 'g' as u8, '=' as u8]
}

/// The byte `=` that opens an attribute word and parts its key from its value.
pub open spec fn separator() -> u8 {
    '=' as u8
}

/// Key and value of the attribute word `bytes`, which starts with `=`: the
/// key runs up to the next `=`; the value is all that follows it, and is
/// absent where there is no second `=`.
pub open spec fn split_attribute(bytes: Seq<u8>) -> (Seq<u8>, Option<Seq<u8>>)
    recommends
        bytes.len() > 0,
{
    let body = bytes.drop_first();
    match body.index_of_first(separator()) {
        Some(at) => (body.take(at), Some(body.skip(at + 1))),
        None => (body, None),
    }
}

/// What the bytes of one word mean.
pub open spec fn classify(bytes: Seq<u8>) -> Result<WordView, WordError> {
    if WordCategory::of(bytes) is Some {
        Ok(WordView::Category(WordCategory::of(bytes)->0))
    } else if tag_prefix().is_prefix_of(bytes) {
        if !valid_utf8(bytes) {
            Err(WordError::Utf8)
        } else {
            match parse_decimal(bytes.skip(5), 0xFFFF) {
                Ok(tag) => Ok(WordView::Tag(tag as u16)),
                Err(e) => Err(WordError::Tag(e)),
            }
        }
    } else if bytes.len() > 0 && bytes[0] == separator() {
        let (key, value) = split_attribute(bytes);
        if valid_utf8(key) {
            Ok(WordView::Attribute { key, value })
        } else {
            Err(WordError::AttributeKeyNotUtf8)
        }
    } else if valid_utf8(bytes) {
        Ok(WordView::Message(bytes))
    } else {
        Err(WordError::Utf8)
    }
}

/// The token of a category is read as that category.
pub proof fn lemma_token_reads_back(category: WordCategory)
    ensures
        classify(category.token()) == Ok::<WordView, WordError>(WordView::Category(category)),
{
    match category {
        WordCategory::Done => {},
        WordCategory::Reply => {
            assert(WordCategory::Reply.token().len() != WordCategory::Done.token().len());
        },
        WordCategory::Trap => {
            assert(WordCategory::Trap.token()[1] != WordCategory::Done.token()[1]);
            assert(WordCategory::Trap.token().len() != WordCategory::Reply.token().len());
        },
        WordCategory::Fatal => {
            assert(WordCategory::Fatal.token().len() != WordCategory::Done.token().len());
            assert(WordCategory::Fatal.token().len() != WordCategory::Reply.token().len());
            assert(WordCategory::Fatal.token().len() != WordCategory::Trap.token().len());
        },
        WordCategory::Empty => {
            assert(WordCategory::Empty.token().len() != WordCategory::Done.token().len());
            assert(WordCategory::Empty.token().len() != WordCategory::Reply.token().len());
            assert(WordCategory::Empty.token().len() != WordCategory::Trap.token().len());
            assert(WordCategory::Empty.token()[1] != WordCategory::Fatal.token()[1]);
        },
    }
}

/// The tag word of a tag: `.tag=` and the tag in decimal.
pub open spec fn tag_word(tag: u16) -> Seq<u8> {
    tag_prefix() + decimal_text(tag as nat)
}

/// A tag word is read as its tag.
pub proof fn lemma_tag_word_reads_back(tag: u16)
    ensures
        classify(tag_word(tag)) == Ok::<WordView, WordError>(WordView::Tag(tag)),
        0 < tag_word(tag).len() <= 10,
{
    let word = tag_word(tag);
    lemma_decimal_text(tag as nat);
    lemma_decimal_round_trip(tag as nat, 0xFFFF);
    assert(word[0] == '.' as u8);
    assert(word.subrange(0, 5) =~= tag_prefix());
    assert(word.skip(5) =~= decimal_text(tag as nat));
    assert(crate::protocol::string::is_ascii_bytes(word)) by {
        assert forall|i: int| 0 <= i < word.len() implies #[trigger] word[i] < 0x80 by {
            if i >= 5 {
                assert(is_digit(decimal_text(tag as nat)[i - 5]));
            }
        }
    }
    lemma_ascii_is_utf8(word);
    reveal_with_fuel(decimal_text, 5);
}

/// Bytes that do not start with `!` are the token of no category.
pub proof fn lemma_not_a_token(bytes: Seq<u8>)
    requires
        bytes.len() == 0 || bytes[0] != '!' as u8,
    ensures
        WordCategory::of(bytes) is None,
{
    assert(WordCategory::Done.token()[0] == '!' as u8);
    assert(WordCategory::Reply.token()[0] == '!' as u8);
    assert(WordCategory::Trap.token()[0] == '!' as u8);
    assert(WordCategory::Fatal.token()[0] == '!' as u8);
    assert(WordCategory::Empty.token()[0] == '!' as u8);
}

/// The word `=key=value` is split into that key and that value, if the key
/// holds no `=`.
pub proof fn lemma_attribute_word_splits(key: Seq<u8>, value: Seq<u8>)
    requires
        !key.contains(separator()),
    ensures
        split_attribute(seq![separator()] + key + seq![separator()] + value) == (key, Some(value)),
{
    let word = seq![separator()] + key + seq![separator()] + value;
    let body = word.drop_first();
    assert(body =~= key + seq![separator()] + value);
    assert(body[key.len() as int] == separator());
    assert(body.contains(separator()));
    body.index_of_first_ensures(separator());
    let at = body.index_of_first(separator())->0;
    assert(at == key.len()) by {
        if at < key.len() {
            assert(key[at] == body[at]);
            assert(key.contains(separator()));
        }
    }
    assert(body.take(at) =~= key);
    assert(body.skip(at + 1) =~= value);
}

/// The word `=key=value` is read as the attribute with that key and value,
/// if the key is valid UTF-8 and holds no `=`.
pub proof fn lemma_attribute_word_reads_back(key: Seq<u8>, value: Seq<u8>)
    requires
        valid_utf8(key),
        !key.contains(separator()),
    ensures
        classify(seq![separator()] + key + seq![separator()] + value) == Ok::<
            WordView,
            WordError,
        >(WordView::Attribute { key, value: Some(value) }),
{
    let word = seq![separator()] + key + seq![separator()] + value;
    assert(word.len() > 0 && word[0] == separator());
    lemma_not_a_token(word);
    lemma_not_a_tag(word);
    lemma_attribute_word_splits(key, value);
}

/// Bytes that do not start with `.` are no tag word.
pub proof fn lemma_not_a_tag(bytes: Seq<u8>)
    requires
        bytes.len() == 0 || bytes[0] != '.' as u8,
    ensures
        !tag_prefix().is_prefix_of(bytes),
{
    if tag_prefix().is_prefix_of(bytes) {
        assert(bytes.subrange(0, 5)[0] == tag_prefix()[0]);
    }
}

impl<'a> WordAttribute<'a> {
    /// The text view of the value agrees with its bytes: it is there exactly
    /// when the bytes are there and are valid UTF-8, and then holds the same
    /// bytes.
    pub open spec fn wf(&self) -> bool {
        match self.value_raw {
            Some(raw) => match self.value {
                Some(text) => valid_utf8(raw@) && text.spec_bytes() == raw@,
                None => !valid_utf8(raw@),
            },
            None => self.value is None,
        }
    }

    /// The attribute with this key and this text value.
    pub fn new(key: &'a str, value: Option<&'a str>) -> (r: WordAttribute<'a>)
        ensures
            r.wf(),
            r.key == key,
            r.value == value,
            match value {
                Some(v) => r.value_raw is Some && r.value_raw->0@ == v.spec_bytes(),
                None => r.value_raw is None,
            },
    {
        let value_raw = match value {
            Some(v) => {
                proof {
                    encode_utf8_valid_utf8(v@);
                }
                Some(v.as_bytes())
            },
            None => None,
        };
        WordAttribute { key, value, value_raw }
    }

    /// Splits an attribute word into key and value.
    ///
    /// Fails with [`WordError::Attribute`] if the word does not start with
    /// `=`, and with [`WordError::AttributeKeyNotUtf8`] if the key is not
    /// valid UTF-8.
    pub fn try_from(word: &'a [u8]) -> (r: Result<WordAttribute<'a>, WordError>)
        ensures
            word@.len() == 0 || word@[0] != separator() ==> r == Err::<
                WordAttribute<'a>,
                WordError,
            >(WordError::Attribute),
            word@.len() > 0 && word@[0] == separator() ==> ({
                let (key, value) = split_attribute(word@);
                if valid_utf8(key) {
                    &&& r is Ok
                    &&& r->Ok_0.wf()
                    &&& r->Ok_0.key.spec_bytes() == key
                    &&& match value {
                        Some(v) => r->Ok_0.value_raw is Some && r->Ok_0.value_raw->0@ == v,
                        None => r->Ok_0.value_raw is None,
                    }
                } else {
                    r == Err::<WordAttribute<'a>, WordError>(WordError::AttributeKeyNotUtf8)
                }
            }),
    {
        let n: usize = word.len();
        if n == 0 || word[0] != '=' as u8 {
            return Err(WordError::Attribute);
        }
        let body = slice_subrange(word, 1, n);
        let at = find_byte(body, '=' as u8);
        proof {
            body@.index_of_first_ensures(separator());
            assert(body@ == word@.drop_first());
        }
        let (key_bytes, value_raw) = match at {
            Some(i) => {
                (slice_subrange(body, 0, i), Some(slice_subrange(body, i + 1, body.len())))
            },
            None => (body, None),
        };
        let key = match utf8_text(key_bytes) {
            Some(key) => key,
            None => {
                return Err(WordError::AttributeKeyNotUtf8);
            },
        };
        let value = match value_raw {
            Some(raw) => utf8_text(raw),
            None => None,
        };
        Ok(WordAttribute { key, value, value_raw })
    }
}

impl<'a> View for Word<'a> {
    type V = WordView;

    open spec fn view(&self) -> WordView {
        match self {
            Word::Category(c) => WordView::Category(*c),
            Word::Tag(t) => WordView::Tag(*t),
            Word::Attribute(a) => WordView::Attribute {
                key: a.key.spec_bytes(),
                value: match a.value_raw {
                    Some(raw) => Some(raw@),
                    None => None,
                },
            },
            Word::Message(m) => WordView::Message(m.spec_bytes()),
        }
    }
}

impl<'a> Word<'a> {
    /// An attribute word holds a well-formed attribute.
    pub open spec fn wf(&self) -> bool {
        match self {
            Word::Attribute(a) => a.wf(),
            _ => true,
        }
    }

    /// The word as it is shown: a category by its token, a tag as
    /// `.tag=<n>`, an attribute as `=key=value` with its text value (and
    /// with nothing behind the second `=` where it has none), a message as it
    /// is.
    pub open spec fn shown(&self) -> Seq<u8> {
        match self {
            Word::Category(c) => c.token(),
            Word::Tag(t) => tag_prefix() + decimal_text(*t as nat),
            Word::Attribute(a) => seq![separator()] + a.key.spec_bytes() + seq![separator()] + (
            match a.value {
                Some(v) => v.spec_bytes(),
                None => Seq::empty(),
            }),
            Word::Message(m) => m.spec_bytes(),
        }
    }

    /// Shows the word as text.
    pub fn to_string(&self) -> (r: String)
        ensures
            encode_utf8(r@) == self.shown(),
    {
        match self {
            Word::Category(c) => c.to_string(),
            Word::Tag(t) => {
                let mut out: Vec<u8> = vec!['.' as u8, 't' as u8, 'a' as u8, 'g' as u8, '=' as u8];
                let mut digits = decimal_digits(*t);
                proof {
                    lemma_decimal_text(*t as nat);
                    assert(out@ =~= tag_prefix());
                }
                out.append(&mut digits);
                proof {
                    lemma_ascii_is_utf8(out@);
                }
                known_text(out.as_slice())
            },
            Word::Attribute(a) => {
                let mut out: Vec<u8> = vec!['=' as u8];
                out.extend_from_slice(a.key.as_bytes());
                out.push('=' as u8);
                match a.value {
                    Some(v) => {
                        out.extend_from_slice(v.as_bytes());
                    },
                    None => {},
                }
                proof {
                    let eq = seq![separator()];
                    let value = match a.value {
                        Some(v) => v.spec_bytes(),
                        None => Seq::<u8>::empty(),
                    };
                    assert(out@ =~= eq + a.key.spec_bytes() + eq + value);
                    lemma_ascii_is_utf8(eq);
                    encode_utf8_valid_utf8(a.key@);
                    if let Some(v) = a.value {
                        encode_utf8_valid_utf8(v@);
                    }
                    valid_utf8_concat(eq, a.key.spec_bytes());
                    valid_utf8_concat(eq + a.key.spec_bytes(), eq);
                    valid_utf8_concat(eq + a.key.spec_bytes() + eq, value);
                }
                known_text(out.as_slice())
            },
            Word::Message(m) => {
                proof {
                    encode_utf8_valid_utf8(m@);
                }
                known_text(m.as_bytes())
            },
        }
    }

    /// Classifies the bytes of one word.
    pub fn try_from(value: &'a [u8]) -> (r: Result<Word<'a>, WordError>)
        ensures
            match classify(value@) {
                Ok(w) => r is Ok && r->Ok_0@ == w && r->Ok_0.wf(),
                Err(e) => r == Err::<Word<'a>, WordError>(e),
            },
    {
        if let Some(category) = WordCategory::from_bytes(value) {
            return Ok(Word::Category(category));
        }
        let n: usize = value.len();
        let text = utf8_text(value);
        if n >= 5 && value[0] == '.' as u8 && value[1] == 't' as u8 && value[2] == 'a' as u8
            && value[3] == 'g' as u8 && value[4] == '=' as u8 {
            assert(value@.subrange(0, 5) =~= tag_prefix());
            if text.is_none() {
                return Err(WordError::Utf8);
            }
            return match read_decimal(slice_subrange(value, 5, n), 0xFFFF) {
                Ok(tag) => Ok(Word::Tag(tag)),
                Err(e) => Err(WordError::Tag(e)),
            };
        }
        proof {
            if tag_prefix().is_prefix_of(value@) {
                let p = value@.subrange(0, 5);
                assert(p[0] == '.' as u8 && p[1] == 't' as u8 && p[2] == 'a' as u8);
                assert(p[3] == 'g' as u8 && p[4] == '=' as u8);
            }
        }
        if n > 0 && value[0] == '=' as u8 {
            return match WordAttribute::try_from(value) {
                Ok(attribute) => Ok(Word::Attribute(attribute)),
                Err(e) => Err(e),
            };
        }
        match text {
            Some(message) => Ok(Word::Message(message)),
            None => Err(WordError::Utf8),
        }
    }

    /// Returns the category of the word, if it is a category word.
    pub fn category(&self) -> (r: Option<&WordCategory>)
        ensures
            match self@ {
                WordView::Category(c) => r == Some(&c),
                _ => r is None,
            },
    {
        match self {
            Word::Category(category) => Some(category),
            _ => None,
        }
    }

    /// Returns the tag of the word, if it is a tag word.
    pub fn tag(&self) -> (r: Option<u16>)
        ensures
            match self@ {
                WordView::Tag(t) => r == Some(t),
                _ => r is None,
            },
    {
        match self {
            Word::Tag(tag) => Some(*tag),
            _ => None,
        }
    }

    /// Returns key and text value of the word, if it is an attribute word.
    pub fn attribute(&self) -> (r: Option<(&str, Option<&str>)>)
        ensures
            match *self {
                Word::Attribute(a) => r == Some((a.key, a.value)),
                _ => r is None,
            },
    {
        match self {
            Word::Attribute(a) => Some((a.key, a.value)),
            _ => None,
        }
    }

    /// Returns the text of the word, if it is a free-form message.
    pub fn generic(&self) -> (r: Option<&str>)
        ensures
            match *self {
                Word::Message(m) => r == Some(m),
                _ => r is None,
            },
    {
        match self {
            Word::Message(generic) => Some(generic),
            _ => None,
        }
    }

    /// Returns the kind of the word.
    pub fn word_type(&self) -> (r: WordType)
        ensures
            r == word_type_of(self@),
    {
        match self {
            Word::Category(_) => WordType::Category,
            Word::Tag(_) => WordType::Tag,
            Word::Attribute(_) => WordType::Attribute,
            Word::Message(_) => WordType::Message,
        }
    }
}

/// The kind of a word.
pub open spec fn word_type_of(word: WordView) -> WordType {
    match word {
        WordView::Category(_) => WordType::Category,
        WordView::Tag(_) => WordType::Tag,
        WordView::Attribute { .. } => WordType::Attribute,
        WordView::Message(_) => WordType::Message,
    }
}

/// Index of the first `needle` in `haystack`.
fn find_byte(haystack: &[u8], needle: u8) -> (r: Option<usize>)
    ensures
        match r {
            Some(i) => i < haystack@.len() && haystack@[i as int] == needle && forall|j: int|
                0 <= j < i ==> haystack@[j] != needle,
            None => forall|j: int| 0 <= j < haystack@.len() ==> haystack@[j] != needle,
        },
{
    let mut i: usize = 0;
    while i < haystack.len()
        invariant
            i <= haystack@.len(),
            forall|j: int| 0 <= j < i ==> haystack@[j] != needle,
        decreases haystack@.len() - i,
    {
        if haystack[i] == needle {
            return Some(i);
        }
        i += 1;
    }
    None
}

// ---------------------------------------------------------------------------
// Decimal numbers
// ---------------------------------------------------------------------------
/// `b` is one of the ASCII digits `0` to `9`.
pub open spec fn is_digit(b: u8) -> bool {
    ('0' as u8) <= b <= '9' as u8
}

/// Every byte of `s` is an ASCII digit.
pub open spec fn all_digits(s: Seq<u8>) -> bool {
    forall|i: int| 0 <= i < s.len() ==> is_digit(#[trigger] s[i])
}

/// The number that the digits stand for, read in base ten.
pub open spec fn decimal_value(digits: Seq<u8>) -> nat
    decreases digits.len(),
{
    if digits.len() == 0 {
        0
    } else {
        decimal_value(digits.drop_last()) * 10 + (digits.last() - '0' as u8) as nat
    }
}

/// Some run of leading digits of `digits` already stands for more than `max`.
pub open spec fn digits_overflow(digits: Seq<u8>, max: nat) -> bool {
    exists|k: int|
        0 <= k <= digits.len() && all_digits(#[trigger] digits.take(k)) && decimal_value(
            digits.take(k),
        ) > max
}

/// Reads `text` as a decimal number no larger than `max`: an optional `+`,
/// then one or more digits. Reading from the left, the first thing that goes
/// wrong decides the error: a run of digits that exceeds `max` is an
/// overflow even if a stray byte follows it.
pub open spec fn parse_decimal(text: Seq<u8>, max: nat) -> Result<nat, DecimalError> {
    if text.len() == 0 {
        Err(DecimalError::Empty)
    } else {
        let digits = if text[0] == '+' as u8 {
            text.drop_first()
        } else {
            text
        };
        if digits.len() == 0 {
            Err(DecimalError::InvalidDigit)
        } else if digits_overflow(digits, max) {
            Err(DecimalError::Overflow)
        } else if !all_digits(digits) {
            Err(DecimalError::InvalidDigit)
        } else {
            Ok(decimal_value(digits))
        }
    }
}

/// The decimal notation of `n`, without sign or leading zeros.
pub open spec fn decimal_text(n: nat) -> Seq<u8>
    decreases n,
{
    if n < 10 {
        seq![('0' as u8 + n) as u8]
    } else {
        decimal_text(n / 10).push(('0' as u8 + n % 10) as u8)
    }
}

/// The notation of a number consists of digits that stand for that number.
pub proof fn lemma_decimal_text(n: nat)
    ensures
        decimal_text(n).len() > 0,
        all_digits(decimal_text(n)),
        decimal_value(decimal_text(n)) == n,
    decreases n,
{
    let text = decimal_text(n);
    if n >= 10 {
        lemma_decimal_text(n / 10);
        assert(text.drop_last() =~= decimal_text(n / 10));
    } else {
        assert(text.drop_last() =~= Seq::<u8>::empty());
        assert(decimal_value(text.drop_last()) == 0);
    }
}

/// The digits at the head of a run of digits stand for no more than the
/// whole run.
pub proof fn lemma_decimal_value_monotonic(digits: Seq<u8>, k: int)
    requires
        all_digits(digits),
        0 <= k <= digits.len(),
    ensures
        decimal_value(digits.take(k)) <= decimal_value(digits),
    decreases digits.len() - k,
{
    if k < digits.len() {
        let longer = digits.take(k + 1);
        assert(longer.drop_last() =~= digits.take(k));
        assert(is_digit(longer.last()));
        lemma_decimal_value_monotonic(digits, k + 1);
    } else {
        assert(digits.take(k) =~= digits);
    }
}

/// Reading the notation of a number gives the number back.
pub proof fn lemma_decimal_round_trip(n: nat, max: nat)
    requires
        n <= max,
    ensures
        parse_decimal(decimal_text(n), max) == Ok::<nat, DecimalError>(n),
{
    let text = decimal_text(n);
    lemma_decimal_text(n);
    assert(is_digit(text[0]));
    assert forall|k: int| 0 <= k <= text.len() && all_digits(#[trigger] text.take(k)) implies !(
    decimal_value(text.take(k)) > max) by {
        lemma_decimal_value_monotonic(text, k);
    }
}

/// Writes `n` in decimal notation.
pub fn decimal_digits(n: u16) -> (r: Vec<u8>)
    ensures
        r@ == decimal_text(n as nat),
{
    let mut out: Vec<u8> = Vec::new();
    if n >= 10000 {
        out.push('0' as u8 + (n / 10000) as u8);
    }
    if n >= 1000 {
        out.push('0' as u8 + (n / 1000 % 10) as u8);
    }
    if n >= 100 {
        out.push('0' as u8 + (n / 100 % 10) as u8);
    }
    if n >= 10 {
        out.push('0' as u8 + (n / 10 % 10) as u8);
    }
    out.push('0' as u8 + (n % 10) as u8);
    proof {
        reveal_with_fuel(decimal_text, 5);
        assert(out@ =~= decimal_text(n as nat));
    }
    out
}

/// Reads the digits from place `i` on, where the digits before it stand for
/// `acc`: the first byte that is no digit, or with which the number exceeds
/// `max`, ends the reading.
pub open spec fn read_digits(digits: Seq<u8>, i: int, acc: nat, max: nat) -> Result<
    nat,
    DecimalError,
>
    decreases digits.len() - i,
{
    if i < 0 || i >= digits.len() {
        Ok(acc)
    } else if !is_digit(digits[i]) {
        Err(DecimalError::InvalidDigit)
    } else {
        let next = acc * 10 + (digits[i] - '0' as u8) as nat;
        if next > max {
            Err(DecimalError::Overflow)
        } else {
            read_digits(digits, i + 1, next, max)
        }
    }
}

/// What a run of digits stands for, or what is wrong with it.
pub open spec fn digits_meaning(digits: Seq<u8>, max: nat) -> Result<nat, DecimalError> {
    if digits_overflow(digits, max) {
        Err(DecimalError::Overflow)
    } else if !all_digits(digits) {
        Err(DecimalError::InvalidDigit)
    } else {
        Ok(decimal_value(digits))
    }
}

/// One digit more at the end of a run of digits.
proof fn lemma_take_one_more(digits: Seq<u8>, i: int)
    requires
        0 <= i < digits.len(),
        all_digits(digits.take(i)),
        is_digit(digits[i]),
    ensures
        all_digits(digits.take(i + 1)),
        decimal_value(digits.take(i + 1)) == decimal_value(digits.take(i)) * 10 + (digits[i]
            - '0' as u8),
{
    let longer = digits.take(i + 1);
    assert(longer.drop_last() =~= digits.take(i));
    assert(longer.last() == digits[i]);
    assert forall|j: int| 0 <= j < longer.len() implies is_digit(#[trigger] longer[j]) by {
        if j < i {
            assert(digits.take(i)[j] == digits[j]);
        }
    }
}

/// Reading digit by digit gives what the digits mean.
proof fn lemma_read_digits(digits: Seq<u8>, i: int, acc: nat, max: nat)
    requires
        0 <= i <= digits.len(),
        all_digits(digits.take(i)),
        acc == decimal_value(digits.take(i)),
        forall|k: int| 0 <= k <= i ==> decimal_value(#[trigger] digits.take(k)) <= max,
    ensures
        read_digits(digits, i, acc, max) == digits_meaning(digits, max),
    decreases digits.len() - i,
{
    if i == digits.len() {
        assert(digits.take(i) =~= digits);
    } else if !is_digit(digits[i]) {
        assert forall|k: int|
            0 <= k <= digits.len() && all_digits(#[trigger] digits.take(k)) implies k <= i by {
            if k > i {
                assert(digits.take(k)[i] == digits[i]);
            }
        }
        assert(!all_digits(digits));
    } else {
        lemma_take_one_more(digits, i);
        let next = acc * 10 + (digits[i] - '0' as u8) as nat;
        if next <= max {
            assert forall|k: int| 0 <= k <= i + 1 implies decimal_value(
                #[trigger] digits.take(k),
            ) <= max by {}
            lemma_read_digits(digits, i + 1, next, max);
        }
    }
}

/// Reads `text` as a decimal number no larger than `max`.
pub fn read_decimal(text: &[u8], max: u16) -> (r: Result<u16, DecimalError>)
    ensures
        match parse_decimal(text@, max as nat) {
            Ok(v) => v <= max && r == Ok::<u16, DecimalError>(v as u16),
            Err(e) => r == Err::<u16, DecimalError>(e),
        },
{
    let n: usize = text.len();
    if n == 0 {
        return Err(DecimalError::Empty);
    }
    let start: usize = if text[0] == '+' as u8 {
        1
    } else {
        0
    };
    if start == n {
        return Err(DecimalError::InvalidDigit);
    }
    let ghost digits = text@.skip(start as int);
    proof {
        assert(text@.drop_first() =~= text@.skip(1));
        assert(text@ =~= text@.skip(0));
        assert(digits.take(0) =~= Seq::<u8>::empty());
        lemma_read_digits(digits, 0, 0, max as nat);
        assert(parse_decimal(text@, max as nat) == digits_meaning(digits, max as nat));
    }
    let mut acc: u32 = 0;
    let mut i: usize = start;
    while i < n
        invariant
            start <= i <= n,
            n == text@.len(),
            digits == text@.skip(start as int),
            acc <= max,
            read_digits(digits, i - start, acc as nat, max as nat) == parse_decimal(
                text@,
                max as nat,
            ),
        decreases n - i,
    {
        let b: u8 = text[i];
        assert(digits[i - start] == b);
        if b < '0' as u8 || b > '9' as u8 {
            return Err(DecimalError::InvalidDigit);
        }
        acc = acc * 10 + (b - '0' as u8) as u32;
        if acc > max as u32 {
            return Err(DecimalError::Overflow);
        }
        i += 1;
    }
    Ok(acc as u16)
}

/// The digits of a decimal number: `text` without the `+` that may open it.
pub open spec fn digits_of(text: Seq<u8>) -> Seq<u8> {
    if text.len() > 0 && text[0] == '+' as u8 {
        text.drop_first()
    } else {
        text
    }
}

/// Whether `text` is a decimal number: an optional `+`, then one or more
/// digits.
pub open spec fn is_decimal(text: Seq<u8>) -> bool {
    digits_of(text).len() > 0 && all_digits(digits_of(text))
}

/// The number that `text` stands for, whatever its size, or why `text` is no
/// decimal number.
pub open spec fn parse_number(text: Seq<u8>) -> Result<nat, DecimalError> {
    if text.len() == 0 {
        Err(DecimalError::Empty)
    } else if !is_decimal(text) {
        Err(DecimalError::InvalidDigit)
    } else {
        Ok(decimal_value(digits_of(text)))
    }
}

/// `n`, or the largest number of 64 bits where `n` is larger than that.
pub open spec fn capped(n: nat) -> u64 {
    if n <= u64::MAX {
        n as u64
    } else {
        u64::MAX
    }
}

/// Reads the digits from place `i` on, where the digits before it stand for
/// `acc`; the first byte that is no digit ends the reading.
pub open spec fn read_all_digits(digits: Seq<u8>, i: int, acc: nat) -> Result<nat, DecimalError>
    decreases digits.len() - i,
{
    if i < 0 || i >= digits.len() {
        Ok(acc)
    } else if !is_digit(digits[i]) {
        Err(DecimalError::InvalidDigit)
    } else {
        read_all_digits(digits, i + 1, acc * 10 + (digits[i] - '0' as u8) as nat)
    }
}

/// Reading digit by digit gives the number that the digits stand for, if
/// all of them are digits.
proof fn lemma_read_all_digits(digits: Seq<u8>, i: int, acc: nat)
    requires
        0 <= i <= digits.len(),
        all_digits(digits.take(i)),
        acc == decimal_value(digits.take(i)),
    ensures
        read_all_digits(digits, i, acc) == (if all_digits(digits) {
            Ok::<nat, DecimalError>(decimal_value(digits))
        } else {
            Err::<nat, DecimalError>(DecimalError::InvalidDigit)
        }),
    decreases digits.len() - i,
{
    if i == digits.len() {
        assert(digits.take(i) =~= digits);
    } else if is_digit(digits[i]) {
        lemma_take_one_more(digits, i);
        lemma_read_all_digits(digits, i + 1, acc * 10 + (digits[i] - '0' as u8) as nat);
    }
}

/// Reads `text` as a decimal number of any size; a number above the largest
/// of 64 bits is read as that largest number.
pub fn read_number(text: &[u8]) -> (r: Result<u64, DecimalError>)
    ensures
        match parse_number(text@) {
            Ok(v) => r == Ok::<u64, DecimalError>(capped(v)),
            Err(e) => r == Err::<u64, DecimalError>(e),
        },
{
    let n: usize = text.len();
    if n == 0 {
        return Err(DecimalError::Empty);
    }
    let start: usize = if text[0] == '+' as u8 {
        1
    } else {
        0
    };
    if start == n {
        return Err(DecimalError::InvalidDigit);
    }
    let ghost digits = text@.skip(start as int);
    proof {
        assert(text@.drop_first() =~= text@.skip(1));
        assert(text@ =~= text@.skip(0));
        assert(digits == digits_of(text@));
        assert(digits.take(0) =~= Seq::<u8>::empty());
        lemma_read_all_digits(digits, 0, 0);
    }
    let mut acc: u64 = 0;
    let ghost mut value: nat = 0;
    let mut i: usize = start;
    while i < n
        invariant
            start <= i <= n,
            n == text@.len(),
            digits == text@.skip(start as int),
            acc == capped(value),
            read_all_digits(digits, i - start, value) == parse_number(text@),
        decreases n - i,
    {
        let b: u8 = text[i];
        assert(digits[i - start] == b);
        if b < '0' as u8 || b > '9' as u8 {
            return Err(DecimalError::InvalidDigit);
        }
        let d: u64 = (b - '0' as u8) as u64;
        proof {
            value = value * 10 + d as nat;
        }
        if acc > (u64::MAX - d) / 10 {
            acc = u64::MAX;
        } else {
            acc = acc * 10 + d;
        }
        i += 1;
    }
    Ok(acc)
}

} // verus!
