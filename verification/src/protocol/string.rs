//! Byte strings that are meant to hold ASCII, and what can be written as a
//! word.

use vstd::pervasive::unreached;
use vstd::prelude::*;
use vstd::slice::slice_to_vec;
use vstd::std_specs::iter::IteratorSpec;
use vstd::string::StringSliceAdditionalSpecFns;
use vstd::utf8::{
    encode_utf8, is_ascii_chars, is_ascii_chars_encode_utf8, is_ascii_chars_nat_bound,
    partial_valid_utf8_extend_ascii_block, valid_utf8,
};
use super::word::{parse_decimal, read_decimal, DecimalError};

verus! {

/// A reference to a byte array, treated as an ASCII string.
#[derive(Debug, PartialEq, Eq, Clone, Copy, Hash, PartialOrd, Ord)]
pub struct AsciiStringRef<'a>(pub &'a [u8]);

/// A byte array used as a string with only ASCII characters.
#[derive(Debug, PartialEq, Eq, Clone, Hash, PartialOrd, Ord)]
pub struct AsciiString(pub Vec<u8>);

/// Why something cannot go into a word of a command.
#[derive(Debug, PartialEq, Eq, Clone, Copy)]
pub enum EncodingError {
    /// At least one character is not ASCII.
    NonAsciiCharacterFound {
        /// Position of the first such character: among the characters of a
        /// text, among the bytes of a byte string.
        pos: usize,
        /// The character itself; for a byte string, the character with the
        /// code of the byte.
        character: char,
    },
    /// The word is longer than a length prefix can say.
    WordTooLong,
}

/// Every byte of `bytes` is an ASCII character.
pub open spec fn is_ascii_bytes(bytes: Seq<u8>) -> bool {
    forall|i: int| 0 <= i < bytes.len() ==> #[trigger] bytes[i] < 0x80
}

/// Number of ASCII bytes at the head of `bytes`: the index of the first byte
/// that is no ASCII character, or the length if there is none.
pub open spec fn ascii_prefix_len(bytes: Seq<u8>) -> nat
    decreases bytes.len(),
{
    if bytes.len() == 0 || bytes[0] >= 0x80 {
        0
    } else {
        1 + ascii_prefix_len(bytes.drop_first())
    }
}

/// Accepts `bytes` if all of them are ASCII, and names the first that is not.
pub open spec fn check_ascii(bytes: Seq<u8>) -> Result<(), EncodingError> {
    let at = ascii_prefix_len(bytes);
    if at < bytes.len() {
        Err(
            EncodingError::NonAsciiCharacterFound {
                pos: at as usize,
                character: bytes[at as int] as char,
            },
        )
    } else {
        Ok(())
    }
}

/// `ascii_prefix_len` is the one index with only ASCII before it and none at
/// it.
pub proof fn lemma_ascii_prefix_len(bytes: Seq<u8>, at: int)
    requires
        0 <= at <= bytes.len(),
        forall|j: int| 0 <= j < at ==> #[trigger] bytes[j] < 0x80,
        at < bytes.len() ==> bytes[at] >= 0x80,
    ensures
        ascii_prefix_len(bytes) == at,
        at == bytes.len() <==> is_ascii_bytes(bytes),
    decreases bytes.len(),
{
    if at > 0 {
        let rest = bytes.drop_first();
        assert(bytes[0] < 0x80);
        assert forall|j: int| 0 <= j < at - 1 implies #[trigger] rest[j] < 0x80 by {
            assert(rest[j] == bytes[j + 1]);
        }
        lemma_ascii_prefix_len(rest, at - 1);
    }
}

/// Finds the first byte that is no ASCII character.
pub fn validate_ascii(bytes: &[u8]) -> (r: Result<(), EncodingError>)
    ensures
        r == check_ascii(bytes@),
        r is Ok <==> is_ascii_bytes(bytes@),
{
    let mut i: usize = 0;
    while i < bytes.len()
        invariant
            i <= bytes@.len(),
            forall|j: int| 0 <= j < i ==> #[trigger] bytes@[j] < 0x80,
        decreases bytes@.len() - i,
    {
        if bytes[i] >= 0x80 {
            proof {
                lemma_ascii_prefix_len(bytes@, i as int);
            }
            return Err(
                EncodingError::NonAsciiCharacterFound { pos: i, character: bytes[i] as char },
            );
        }
        i += 1;
    }
    proof {
        lemma_ascii_prefix_len(bytes@, i as int);
    }
    Ok(())
}

/// Bytes that are all ASCII are valid UTF-8.
pub proof fn lemma_ascii_is_utf8(bytes: Seq<u8>)
    requires
        is_ascii_bytes(bytes),
    ensures
        valid_utf8(bytes),
{
    assert(bytes.subrange(0, 0) =~= Seq::<u8>::empty());
    partial_valid_utf8_extend_ascii_block(bytes, 0, bytes.len() as int);
    assert(bytes.subrange(0, bytes.len() as int) =~= bytes);
}

/// `core::str::from_utf8`, which accepts exactly the byte slices that are
/// valid UTF-8 and hands back the same bytes as text.
#[verifier::external_body]
pub(crate) fn utf8_text<'a>(bytes: &'a [u8]) -> (r: Option<&'a str>)
    ensures
        r is Some <==> valid_utf8(bytes@),
        r is Some ==> r->0.spec_bytes() == bytes@,
{
    core::str::from_utf8(bytes).ok()
}

/// The text that the bytes stand for, if they are valid UTF-8.
pub fn text(bytes: &[u8]) -> (r: Option<String>)
    ensures
        match r {
            Some(t) => valid_utf8(bytes@) && encode_utf8(t@) == bytes@,
            None => !valid_utf8(bytes@),
        },
{
    match utf8_text(bytes) {
        Some(text) => Some(text.to_owned()),
        None => None,
    }
}

/// The text that bytes known to be valid UTF-8 stand for.
pub(crate) fn known_text(bytes: &[u8]) -> (r: String)
    requires
        valid_utf8(bytes@),
    ensures
        encode_utf8(r@) == bytes@,
{
    match utf8_text(bytes) {
        Some(text) => text.to_owned(),
        None => unreached(),
    }
}

/// The digit of `n` in base sixteen, in lower case.
pub open spec fn hex_digit(n: u8) -> u8
    recommends
        n < 16,
{
    if n < 10 {
        ('0' as u8 + n) as u8
    } else {
        ('a' as u8 - 10 + n) as u8
    }
}

/// How a byte is shown: an ASCII character as it is, any other byte as
/// `\x` and its two digits in base sixteen.
pub open spec fn shown(b: u8) -> Seq<u8> {
    if b < 0x80 {
        seq![b]
    } else {
        seq!['\\' as u8, 'x' as u8, hex_digit(b / 16), hex_digit(b % 16)]
    }
}

/// How a byte string is shown: byte by byte.
pub open spec fn escaped(bytes: Seq<u8>) -> Seq<u8>
    decreases bytes.len(),
{
    if bytes.len() == 0 {
        Seq::empty()
    } else {
        escaped(bytes.drop_last()) + shown(bytes.last())
    }
}

/// Shows a byte string: ASCII as it is, every other byte escaped.
pub fn format_mikrotik_bytes(bytes: &[u8]) -> (r: String)
    ensures
        encode_utf8(r@) == escaped(bytes@),
{
    let mut out: Vec<u8> = Vec::new();
    let mut i: usize = 0;
    while i < bytes.len()
        invariant
            i <= bytes@.len(),
            out@ == escaped(bytes@.take(i as int)),
            is_ascii_bytes(out@),
        decreases bytes@.len() - i,
    {
        let b: u8 = bytes[i];
        proof {
            assert(bytes@.take(i + 1).drop_last() =~= bytes@.take(i as int));
        }
        if b < 0x80 {
            out.push(b);
        } else {
            out.push('\\' as u8);
            out.push('x' as u8);
            out.push(hex(b / 16));
            out.push(hex(b % 16));
        }
        proof {
            assert(out@ =~= escaped(bytes@.take(i as int)) + shown(b));
        }
        i += 1;
    }
    proof {
        assert(bytes@.take(i as int) =~= bytes@);
        lemma_ascii_is_utf8(out@);
    }
    known_text(out.as_slice())
}

/// The digit of `n` in base sixteen, in lower case.
fn hex(n: u8) -> (r: u8)
    requires
        n < 16,
    ensures
        r == hex_digit(n),
        r < 0x80,
{
    if n < 10 {
        '0' as u8 + n
    } else {
        'a' as u8 - 10 + n
    }
}

impl<'a> View for AsciiStringRef<'a> {
    type V = Seq<u8>;

    open spec fn view(&self) -> Seq<u8> {
        self.0@
    }
}

impl View for AsciiString {
    type V = Seq<u8>;

    open spec fn view(&self) -> Seq<u8> {
        self.0@
    }
}

impl<'a> AsciiStringRef<'a> {
    /// Takes the bytes of `value` if all its characters are ASCII; names the
    /// first character that is not, and its place among the characters.
    pub fn try_from(value: &'a str) -> (r: Result<AsciiStringRef<'a>, EncodingError>)
        ensures
            match check_ascii_chars(value@) {
                Ok(()) => r is Ok && r->Ok_0@ == value.spec_bytes() && is_ascii_bytes(r->Ok_0@),
                Err(e) => r == Err::<AsciiStringRef<'a>, EncodingError>(e),
            },
    {
        match value.validate() {
            Ok(()) => Ok(AsciiStringRef(value.as_bytes())),
            Err(e) => Err(e),
        }
    }

    /// Reads the bytes as a decimal number of 16 bits.
    pub fn parse(&self) -> (r: Result<u16, DecimalError>)
        ensures
            match parse_decimal(self@, 0xFFFF) {
                Ok(v) => v <= 0xFFFF && r == Ok::<u16, DecimalError>(v as u16),
                Err(e) => r == Err::<u16, DecimalError>(e),
            },
    {
        read_decimal(self.0, 0xFFFF)
    }

    /// Copies the bytes into an [`AsciiString`].
    pub fn to_ascii_string(&self) -> (r: AsciiString)
        ensures
            r@ == self@,
    {
        AsciiString(slice_to_vec(self.0))
    }

    /// Shows the bytes: ASCII as it is, every other byte escaped.
    pub fn to_string(&self) -> (r: String)
        ensures
            encode_utf8(r@) == escaped(self@),
    {
        format_mikrotik_bytes(self.0)
    }
}

impl AsciiString {
    /// The bytes, borrowed.
    pub fn as_deref(&self) -> (r: AsciiStringRef<'_>)
        ensures
            r@ == self@,
    {
        AsciiStringRef(self.0.as_slice())
    }

    /// The text that the bytes stand for, if all of them are ASCII.
    pub fn into_string(self) -> (r: Result<String, EncodingError>)
        ensures
            match check_ascii(self@) {
                Ok(()) => r is Ok && encode_utf8(r->Ok_0@) == self@,
                Err(e) => r == Err::<String, EncodingError>(e),
            },
    {
        match validate_ascii(self.0.as_slice()) {
            Ok(()) => {
                proof {
                    lemma_ascii_is_utf8(self.0@);
                }
                Ok(known_text(self.0.as_slice()))
            },
            Err(e) => Err(e),
        }
    }

    /// Shows the bytes: ASCII as it is, every other byte escaped.
    pub fn to_string(&self) -> (r: String)
        ensures
            encode_utf8(r@) == escaped(self@),
    {
        format_mikrotik_bytes(self.0.as_slice())
    }
}

/// `c` is an ASCII character.
pub open spec fn is_ascii_char(c: char) -> bool {
    '\0' <= c <= '\u{7f}'
}

/// No character stands before the first one.
proof fn lemma_no_char_below_zero(c: char)
    ensures
        '\0' <= c,
{
}

/// Number of ASCII characters at the head of `chars`: the index of the first
/// character that is not ASCII, or the length if there is none.
pub open spec fn ascii_chars_len(chars: Seq<char>) -> nat
    decreases chars.len(),
{
    if chars.len() == 0 || !is_ascii_char(chars[0]) {
        0
    } else {
        1 + ascii_chars_len(chars.drop_first())
    }
}

/// Accepts text if all its characters are ASCII, and names the first that is
/// not, with its place among the characters.
pub open spec fn check_ascii_chars(chars: Seq<char>) -> Result<(), EncodingError> {
    let at = ascii_chars_len(chars);
    if at < chars.len() {
        Err(EncodingError::NonAsciiCharacterFound { pos: at as usize, character: chars[at as int] })
    } else {
        Ok(())
    }
}

/// `ascii_chars_len` is the one index with only ASCII before it and none at
/// it.
pub proof fn lemma_ascii_chars_len(chars: Seq<char>, at: int)
    requires
        0 <= at <= chars.len(),
        forall|j: int| 0 <= j < at ==> is_ascii_char(#[trigger] chars[j]),
        at < chars.len() ==> !is_ascii_char(chars[at]),
    ensures
        ascii_chars_len(chars) == at,
    decreases chars.len(),
{
    if at > 0 {
        let rest = chars.drop_first();
        assert(is_ascii_char(chars[0]));
        assert forall|j: int| 0 <= j < at - 1 implies is_ascii_char(#[trigger] rest[j]) by {
            assert(rest[j] == chars[j + 1]);
        }
        lemma_ascii_chars_len(rest, at - 1);
    }
}

/// Text takes at least one byte for each character.
pub proof fn lemma_encoded_len(chars: Seq<char>)
    ensures
        chars.len() <= encode_utf8(chars).len(),
    decreases chars.len(),
{
    if chars.len() > 0 {
        lemma_encoded_len(chars.drop_first());
    }
}

/// Text of ASCII characters only is written as ASCII bytes only.
pub proof fn lemma_ascii_text_bytes(chars: Seq<char>)
    requires
        forall|j: int| 0 <= j < chars.len() ==> is_ascii_char(#[trigger] chars[j]),
    ensures
        is_ascii_bytes(encode_utf8(chars)),
{
    assert(is_ascii_chars(chars)) by {
        assert forall|i: int| 0 <= i < chars.len() implies '\0' <= #[trigger] chars[i]
            <= '\u{7f}' by {
            assert(is_ascii_char(chars[i]));
        }
    }
    is_ascii_chars_encode_utf8(chars);
    is_ascii_chars_nat_bound(chars);
    let bytes = encode_utf8(chars);
    assert forall|i: int| 0 <= i < bytes.len() implies #[trigger] bytes[i] < 0x80 by {
        assert((chars[i] as nat) < 128);
        assert(chars[i] as u8 == bytes[i]);
    }
}

/// What can be written as a word, or as part of one.
pub trait WordContent {
    /// The bytes that are written.
    spec fn content(&self) -> Seq<u8>;

    /// Whether the content may stand in a command: `Ok` if all of it is
    /// ASCII; otherwise the first character that is not, and its place.
    spec fn verdict(&self) -> Result<(), EncodingError>;

    /// Looks for the first character that is not ASCII.
    fn validate(&self) -> (r: Result<(), EncodingError>)
        ensures
            r == self.verdict(),
            r is Ok ==> is_ascii_bytes(self.content()),
    ;

    /// Number of bytes to be written.
    fn byte_count(&self) -> (n: usize)
        ensures
            n == self.content().len(),
    ;

    /// Appends the bytes to `buffer`.
    fn write_to_buffer(&self, buffer: &mut Vec<u8>)
        ensures
            final(buffer)@ == old(buffer)@ + self.content(),
    ;
}

impl WordContent for [u8] {
    open spec fn content(&self) -> Seq<u8> {
        self@
    }

    /// Each byte is the character with the same code.
    open spec fn verdict(&self) -> Result<(), EncodingError> {
        check_ascii(self@)
    }

    fn validate(&self) -> (r: Result<(), EncodingError>) {
        validate_ascii(self)
    }

    fn byte_count(&self) -> (n: usize) {
        self.len()
    }

    fn write_to_buffer(&self, buffer: &mut Vec<u8>) {
        buffer.extend_from_slice(self);
        assert(buffer@ =~= old(buffer)@ + self@);
    }
}

impl<const N: usize> WordContent for [u8; N] {
    open spec fn content(&self) -> Seq<u8> {
        self@
    }

    /// Each byte is the character with the same code.
    open spec fn verdict(&self) -> Result<(), EncodingError> {
        check_ascii(self@)
    }

    fn validate(&self) -> (r: Result<(), EncodingError>) {
        validate_ascii(self.as_slice())
    }

    fn byte_count(&self) -> (n: usize) {
        N
    }

    fn write_to_buffer(&self, buffer: &mut Vec<u8>) {
        buffer.extend_from_slice(self.as_slice());
        assert(buffer@ =~= old(buffer)@ + self@);
    }
}

impl WordContent for str {
    open spec fn content(&self) -> Seq<u8> {
        self.spec_bytes()
    }

    /// The characters are those of the text.
    open spec fn verdict(&self) -> Result<(), EncodingError> {
        check_ascii_chars(self@)
    }

    fn validate(&self) -> (r: Result<(), EncodingError>) {
        broadcast use vstd::string::group_string_axioms;

        proof {
            lemma_encoded_len(self@);
        }
        let limit: usize = self.as_bytes().len();
        let mut chars = self.chars();
        let mut i: usize = 0;
        loop
            invariant
                i <= self@.len() <= limit,
                chars.remaining() == self@.skip(i as int),
                forall|j: int| 0 <= j < i ==> is_ascii_char(#[trigger] self@[j]),
            decreases self@.len() - i,
        {
            match chars.next() {
                None => {
                    proof {
                        lemma_ascii_chars_len(self@, i as int);
                        lemma_ascii_text_bytes(self@);
                    }
                    return Ok(());
                },
                Some(c) => {
                    assert(c == self@[i as int]);
                    if c > '\u{7f}' {
                        proof {
                            lemma_ascii_chars_len(self@, i as int);
                        }
                        return Err(EncodingError::NonAsciiCharacterFound { pos: i, character: c });
                    }
                    proof {
                        lemma_no_char_below_zero(c);
                    }
                    assert(is_ascii_char(self@[i as int]));
                    assert(self@.skip(i as int).drop_first() =~= self@.skip(i + 1));
                    i += 1;
                },
            }
        }
    }

    fn byte_count(&self) -> (n: usize) {
        self.as_bytes().len()
    }

    fn write_to_buffer(&self, buffer: &mut Vec<u8>) {
        buffer.extend_from_slice(self.as_bytes());
        assert(buffer@ =~= old(buffer)@ + self.spec_bytes());
    }
}

} // verus!
