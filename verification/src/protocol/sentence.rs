//! Sentences: runs of words closed by a zero-length word.

use vstd::prelude::*;
use vstd::slice::slice_subrange;
use vstd::string::StringExecFns;
use super::length::{
    decode_prefix, encode_length, lemma_length_round_trip, length_width, Prefix,
};
use super::word::{classify, Word, WordError, WordView};

verus! {

/// Errors met while reading the words of a sentence.
#[derive(Debug, PartialEq, Eq, Clone, Copy)]
pub enum SentenceError {
    /// The bytes of a word could not be parsed into a word.
    WordError(WordError),
    /// A length prefix is reserved or cut short, or it announces more bytes
    /// than the sentence holds.
    PrefixLength,
}

impl SentenceError {
    /// What went wrong, in words.
    pub open spec fn message(self) -> Seq<char> {
        match self {
            SentenceError::WordError(e) => "Word error: "@ + e.message(),
            SentenceError::PrefixLength => "Invalid prefix length"@,
        }
    }

    /// What went wrong, in words.
    pub fn to_string(&self) -> (r: String)
        ensures
            r@ == self.message(),
    {
        match self {
            SentenceError::WordError(e) => {
                let mut text = "Word error: ".to_owned();
                text.append(e.to_string().as_str());
                text
            },
            SentenceError::PrefixLength => "Invalid prefix length".to_owned(),
        }
    }
}

/// The shortest wire form of one word: its length, then its bytes.
pub open spec fn encode_word(word: Seq<u8>) -> Seq<u8>
    recommends
        word.len() <= u32::MAX,
{
    encode_length(word.len() as u32) + word
}

/// The wire forms of `words`, one after the other.
pub open spec fn encode_words(words: Seq<Seq<u8>>) -> Seq<u8>
    decreases words.len(),
{
    if words.len() == 0 {
        Seq::empty()
    } else {
        encode_word(words.first()) + encode_words(words.drop_first())
    }
}

/// The wire form of the sentence made of `words`: the words, then the
/// zero-length word.
pub open spec fn encode_sentence(words: Seq<Seq<u8>>) -> Seq<u8> {
    encode_words(words) + seq![0u8]
}

/// Every word can stand inside a sentence: none is empty, as an empty word
/// would end the sentence, and each length fits the prefix.
pub open spec fn wire_words(words: Seq<Seq<u8>>) -> bool {
    forall|i: int| 0 <= i < words.len() ==> 0 < (#[trigger] words[i]).len() <= u32::MAX
}

/// What stands at the head of the bytes of a sentence.
pub enum Head {
    /// The sentence ends here: no bytes are left, or a zero-length word.
    End,
    /// The length prefix is cut short or reserved, or it announces more
    /// bytes than there are.
    Broken,
    /// A word: its bytes, and how many bytes it takes with its prefix.
    Word { bytes: Seq<u8>, size: int },
}

/// Reads the head of `data`.
pub open spec fn head(data: Seq<u8>) -> Head {
    if data.len() == 0 {
        Head::End
    } else {
        match decode_prefix(data) {
            Prefix::Complete { len, width } => if len == 0 {
                Head::End
            } else if width + len > data.len() {
                Head::Broken
            } else {
                Head::Word { bytes: data.subrange(width, width + len), size: width + len }
            },
            _ => Head::Broken,
        }
    }
}

/// What reading one word of a sentence gives: the word, or why there is none.
pub type Item = Result<WordView, SentenceError>;

/// What reading the word with these bytes gives.
pub open spec fn item_of(bytes: Seq<u8>) -> Item {
    match classify(bytes) {
        Ok(word) => Ok(word),
        Err(e) => Err(SentenceError::WordError(e)),
    }
}

/// All that reading the words of `data` gives, in order. A broken head is
/// reported once and ends the reading.
pub open spec fn items(data: Seq<u8>) -> Seq<Item>
    decreases data.len(),
{
    match head(data) {
        Head::End => Seq::empty(),
        Head::Broken => seq![Err(SentenceError::PrefixLength)],
        Head::Word { bytes, size } => if 0 < size <= data.len() {
            seq![item_of(bytes)] + items(data.skip(size))
        } else {
            Seq::empty()
        },
    }
}

/// `r` is what reading `item` looks like to the caller.
pub open spec fn yields<'a>(r: Result<Word<'a>, SentenceError>, item: Item) -> bool {
    match item {
        Ok(word) => r is Ok && r->Ok_0@ == word && r->Ok_0.wf(),
        Err(e) => r == Err::<Word<'a>, SentenceError>(e),
    }
}

/// A cursor over the words of one sentence.
///
/// Each word is a length prefix followed by that many bytes; a zero-length
/// word ends the sentence, and whatever follows it is never looked at.
#[derive(Debug)]
pub struct Sentence<'a> {
    data: &'a [u8],
    position: usize,
}

impl<'a> Sentence<'a> {
    #[verifier::type_invariant]
    spec fn in_bounds(self) -> bool {
        self.position <= self.data@.len()
    }

    /// The bytes that the cursor reads.
    pub closed spec fn bytes(&self) -> Seq<u8> {
        self.data@
    }

    /// Where the next word starts.
    pub closed spec fn offset(&self) -> int {
        self.position as int
    }

    /// The bytes not yet read.
    pub open spec fn rest(&self) -> Seq<u8> {
        self.bytes().skip(self.offset())
    }

    /// What is still to be read.
    pub open spec fn remaining(&self) -> Seq<Item> {
        items(self.rest())
    }

    /// Creates a cursor at the start of `data`.
    pub fn new(data: &'a [u8]) -> (r: Self)
        ensures
            r.bytes() == data@,
            r.offset() == 0,
    {
        Self { data, position: 0 }
    }

    /// Reads the next word and moves past it.
    ///
    /// Returns `None` at the end of the sentence, and from then on. A broken
    /// length prefix is reported once; after it the sentence is at its end.
    pub fn next(&mut self) -> (r: Option<Result<Word<'a>, SentenceError>>)
        ensures
            final(self).bytes() == old(self).bytes(),
            0 <= old(self).offset() <= final(self).offset() <= old(self).bytes().len(),
            match head(old(self).rest()) {
                Head::End => {
                    &&& r is None
                    &&& final(self).offset() == old(self).offset()
                },
                Head::Broken => {
                    &&& r == Some(Err::<Word<'a>, SentenceError>(SentenceError::PrefixLength))
                    &&& final(self).offset() == old(self).bytes().len()
                    &&& final(self).offset() > old(self).offset()
                },
                Head::Word { bytes, size } => {
                    &&& r is Some
                    &&& yields(r->0, item_of(bytes))
                    &&& final(self).offset() == old(self).offset() + size
                    &&& size > 0
                },
            },
            r is None ==> old(self).remaining().len() == 0,
            r is Some ==> old(self).remaining().len() > 0 && yields(
                r->0,
                old(self).remaining().first(),
            ) && final(self).remaining() == old(self).remaining().drop_first(),
    {
        let n: usize = self.data.len();
        let start: usize = self.position;
        proof {
            use_type_invariant(&*self);
            lemma_items_unfold(self.data@.skip(start as int));
            lemma_items_unfold(self.data@.skip(n as int));
        }
        match read_head(slice_subrange(self.data, start, n)) {
            HeadOf::End => None,
            HeadOf::Broken => {
                self.position = n;
                Some(Err(SentenceError::PrefixLength))
            },
            HeadOf::Word { bytes, size } => {
                self.position = start + size;
                assert(self.data@.skip(start + size) =~= self.data@.skip(start as int).skip(
                    size as int,
                ));
                match Word::try_from(bytes) {
                    Ok(word) => Some(Ok(word)),
                    Err(e) => Some(Err(SentenceError::WordError(e))),
                }
            },
        }
    }
}

/// What stands at the head of the bytes of a sentence.
enum HeadOf<'a> {
    End,
    Broken,
    Word { bytes: &'a [u8], size: usize },
}

impl<'a> View for HeadOf<'a> {
    type V = Head;

    closed spec fn view(&self) -> Head {
        match self {
            HeadOf::End => Head::End,
            HeadOf::Broken => Head::Broken,
            HeadOf::Word { bytes, size } => Head::Word { bytes: bytes@, size: *size as int },
        }
    }
}

/// Reads what stands at the head of `rest`.
fn read_head<'a>(rest: &'a [u8]) -> (r: HeadOf<'a>)
    ensures
        r@ == head(rest@),
{
    let n: usize = rest.len();
    if n == 0 {
        return HeadOf::End;
    }
    match read_length(rest) {
        Ok((length, bytes_read)) => {
            // Last word is empty, so we are done.
            if length == 0 {
                return HeadOf::End;
            }
            let length: usize = length as usize;
            if bytes_read > n || length > n - bytes_read {
                return HeadOf::Broken;
            }
            HeadOf::Word {
                bytes: slice_subrange(rest, bytes_read, bytes_read + length),
                size: bytes_read + length,
            }
        },
        Err(_) => HeadOf::Broken,
    }
}

/// A word that was encoded is read back as it was, whatever follows it.
pub proof fn lemma_word_round_trip(word: Seq<u8>, rest: Seq<u8>)
    requires
        0 < word.len() <= u32::MAX,
    ensures
        head(encode_word(word) + rest) == (Head::Word {
            bytes: word,
            size: encode_word(word).len() as int,
        }),
        (encode_word(word) + rest).skip(encode_word(word).len() as int) == rest,
{
    let len = word.len() as u32;
    let data = encode_word(word) + rest;
    lemma_length_round_trip(len, word + rest);
    assert(data =~= encode_length(len) + (word + rest));
    let width = length_width(len);
    assert(data.subrange(width, width + len) =~= word);
    assert(data.skip(encode_word(word).len() as int) =~= rest);
}

/// What reading words with these bytes gives, one by one.
pub open spec fn read_words(words: Seq<Seq<u8>>) -> Seq<Item> {
    Seq::new(words.len(), |i: int| item_of(words[i]))
}

/// Reading an encoded sentence gives its words back, each classified, in
/// order; bytes behind the sentence are not read.
pub proof fn lemma_sentence_round_trip(words: Seq<Seq<u8>>, rest: Seq<u8>)
    requires
        wire_words(words),
    ensures
        items(encode_sentence(words) + rest) == read_words(words),
    decreases words.len(),
{
    let data = encode_sentence(words) + rest;
    if words.len() == 0 {
        assert(encode_words(words) =~= Seq::<u8>::empty());
        assert(data[0] == 0u8);
        assert(head(data) == Head::End);
        assert(items(data) =~= read_words(words));
    } else {
        let first = words.first();
        let later = words.drop_first();
        let tail = encode_sentence(later) + rest;
        let size = encode_word(first).len() as int;
        assert(data =~= encode_word(first) + tail);
        assert(head(data) == (Head::Word { bytes: first, size }) && data.skip(size) == tail) by {
            lemma_word_round_trip(first, tail);
        }
        assert(wire_words(later)) by {
            assert forall|i: int| 0 <= i < later.len() implies 0 < (#[trigger] later[i]).len()
                <= u32::MAX by {
                assert(later[i] == words[i + 1]);
            }
        }
        lemma_sentence_round_trip(later, rest);
        assert(items(tail) == read_words(later));
        assert(items(data) == seq![item_of(first)] + items(tail));
        assert(seq![item_of(first)] + read_words(later) =~= read_words(words)) by {
            assert forall|i: int| 0 <= i < words.len() implies (seq![item_of(first)] + read_words(
                later,
            ))[i] == read_words(words)[i] by {
                if i > 0 {
                    assert(later[i - 1] == words[i]);
                }
            }
        }
    }
}

/// What reading gives, by what stands at the head: nothing at the end, the
/// one error at a broken head, and the word with what follows it otherwise.
pub proof fn lemma_items_unfold(rest: Seq<u8>)
    ensures
        match head(rest) {
            Head::End => items(rest) == Seq::<Item>::empty(),
            Head::Broken => items(rest) == seq![
                Err::<WordView, SentenceError>(SentenceError::PrefixLength),
            ],
            Head::Word { bytes, size } => {
                &&& 0 < size <= rest.len()
                &&& items(rest).len() > 0
                &&& items(rest).first() == item_of(bytes)
                &&& items(rest).drop_first() == items(rest.skip(size))
            },
        },
{
    if let Head::Word { bytes, size } = head(rest) {
        assert(items(rest).drop_first() =~= items(rest.skip(size)));
    }
}

/// Decodes the length prefix at the head of `data`: the length and the number
/// of bytes the prefix occupies. Fails on an empty or truncated prefix and on
/// the reserved pattern, without reading past `data`.
pub fn read_length(data: &[u8]) -> (r: Result<(u32, usize), SentenceError>)
    ensures
        match decode_prefix(data@) {
            Prefix::Complete { len, width } => r == Ok::<(u32, usize), SentenceError>(
                (len, width as usize),
            ),
            _ => r == Err::<(u32, usize), SentenceError>(SentenceError::PrefixLength),
        },
{
    if data.len() == 0 {
        return Err(SentenceError::PrefixLength);
    }
    let first: u8 = data[0];
    let mut c: u32 = first as u32;
    proof {
        lemma_prefix_masks(first);
    }
    if c & 0x80 == 0x00 {
        Ok((c, 1))
    } else if c & 0xC0 == 0x80 {
        if data.len() < 2 {
            return Err(SentenceError::PrefixLength);
        }
        c &= !0xC0;
        c = shift_in(c, data[1]);
        Ok((c, 2))
    } else if c & 0xE0 == 0xC0 {
        if data.len() < 3 {
            return Err(SentenceError::PrefixLength);
        }
        c &= !0xE0;
        c = shift_in(c, data[1]);
        c = shift_in(c, data[2]);
        Ok((c, 3))
    } else if c & 0xF0 == 0xE0 {
        if data.len() < 4 {
            return Err(SentenceError::PrefixLength);
        }
        c &= !0xF0;
        c = shift_in(c, data[1]);
        c = shift_in(c, data[2]);
        c = shift_in(c, data[3]);
        Ok((c, 4))
    } else if c & 0xF8 == 0xF0 {
        if data.len() < 5 {
            return Err(SentenceError::PrefixLength);
        }
        c = data[1] as u32;
        c = shift_in(c, data[2]);
        c = shift_in(c, data[3]);
        c = shift_in(c, data[4]);
        Ok((c, 5))
    } else {
        Err(SentenceError::PrefixLength)
    }
}

/// Makes room for one more byte at the low end of `acc` and puts `byte` there.
fn shift_in(acc: u32, byte: u8) -> (r: u32)
    requires
        acc < 0x100_0000,
    ensures
        r == acc * 0x100 + byte,
{
    assert(acc << 8 == acc * 0x100) by (bit_vector)
        requires
            acc < 0x100_0000,
    ;
    (acc << 8) + byte as u32
}

/// How the mask tests on the first byte of a prefix read as ranges, and what
/// clearing the marker bits leaves.
proof fn lemma_prefix_masks(first: u8)
    ensures
        ({
            let c = first as u32;
            &&& c & 0x80 == 0 <==> first < 0x80
            &&& c & 0xC0 == 0x80 <==> 0x80 <= first < 0xC0
            &&& c & 0xE0 == 0xC0 <==> 0xC0 <= first < 0xE0
            &&& c & 0xF0 == 0xE0 <==> 0xE0 <= first < 0xF0
            &&& c & 0xF8 == 0xF0 <==> 0xF0 <= first < 0xF8
            &&& 0x80 <= first < 0xC0 ==> c & !0xC0u32 == c - 0x80
            &&& 0xC0 <= first < 0xE0 ==> c & !0xE0u32 == c - 0xC0
            &&& 0xE0 <= first < 0xF0 ==> c & !0xF0u32 == c - 0xE0
        }),
{
    let c = first as u32;
    assert(c & 0x80 == 0 <==> c < 0x80) by (bit_vector)
        requires
            c < 0x100,
    ;
    assert(c & 0xC0 == 0x80 <==> 0x80 <= c < 0xC0) by (bit_vector)
        requires
            c < 0x100,
    ;
    assert(c & 0xE0 == 0xC0 <==> 0xC0 <= c < 0xE0) by (bit_vector)
        requires
            c < 0x100,
    ;
    assert(c & 0xF0 == 0xE0 <==> 0xE0 <= c < 0xF0) by (bit_vector)
        requires
            c < 0x100,
    ;
    assert(c & 0xF8 == 0xF0 <==> 0xF0 <= c < 0xF8) by (bit_vector)
        requires
            c < 0x100,
    ;
    assert(0x80 <= c < 0xC0 ==> c & !0xC0u32 == c - 0x80) by (bit_vector);
    assert(0xC0 <= c < 0xE0 ==> c & !0xE0u32 == c - 0xC0) by (bit_vector);
    assert(0xE0 <= c < 0xF0 ==> c & !0xF0u32 == c - 0xE0) by (bit_vector);
}

} // verus!
