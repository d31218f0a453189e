//! Cutting a growing byte stream into sentences.
//!
//! A sentence ends at its zero-length word, which is found by walking the
//! length prefixes from the start: a zero byte inside a word or inside a
//! prefix ends nothing.

use vstd::prelude::*;
use vstd::slice::slice_subrange;
use super::length::{decode_prefix, Prefix};
use super::sentence::{
    encode_sentence, encode_word, encode_words, head, lemma_word_round_trip, read_length,
    wire_words, Head,
};

verus! {

/// What stands at the head of a buffer.
#[derive(Debug, PartialEq, Eq, Clone, Copy)]
pub enum Frame {
    /// A whole sentence of this many bytes, its closing zero included.
    Complete(usize),
    /// The start of a sentence; more bytes are needed.
    Incomplete,
    /// A word starts with a reserved length prefix: no sentence can be cut.
    Invalid,
}

/// What stands at the head of a byte sequence of any length.
pub enum Framing {
    /// A whole sentence of this many bytes, its closing zero included.
    Complete(int),
    /// The start of a sentence.
    Incomplete,
    /// A word starts with a reserved length prefix.
    Invalid,
}

impl View for Frame {
    type V = Framing;

    open spec fn view(&self) -> Framing {
        match self {
            Frame::Complete(n) => Framing::Complete(*n as int),
            Frame::Incomplete => Framing::Incomplete,
            Frame::Invalid => Framing::Invalid,
        }
    }
}

/// Moves a frame found `by` bytes into a buffer to the head of the buffer.
pub open spec fn shift(framing: Framing, by: int) -> Framing {
    match framing {
        Framing::Complete(n) => Framing::Complete(by + n),
        other => other,
    }
}

/// What stands at the head of `data`: walks the words up to the zero-length
/// word that ends the sentence.
pub open spec fn frame(data: Seq<u8>) -> Framing
    decreases data.len(),
{
    match decode_prefix(data) {
        Prefix::Truncated => Framing::Incomplete,
        Prefix::Reserved => Framing::Invalid,
        Prefix::Complete { len, width } => if len == 0 {
            Framing::Complete(1)
        } else if width + len > data.len() {
            Framing::Incomplete
        } else {
            shift(frame(data.skip(width + len)), width + len)
        },
    }
}

/// `data` is exactly one sentence.
pub open spec fn is_sentence(data: Seq<u8>) -> bool {
    frame(data) == Framing::Complete(data.len() as int)
}

/// The complete sentences at the head of `stream`, in order.
pub open spec fn sentences_of(stream: Seq<u8>) -> Seq<Seq<u8>>
    decreases stream.len(),
{
    match frame(stream) {
        Framing::Complete(n) => if 0 < n <= stream.len() {
            seq![stream.take(n)] + sentences_of(stream.skip(n))
        } else {
            Seq::empty()
        },
        _ => Seq::empty(),
    }
}

/// What is left of `stream` behind its complete sentences.
pub open spec fn remainder_of(stream: Seq<u8>) -> Seq<u8>
    decreases stream.len(),
{
    match frame(stream) {
        Framing::Complete(n) => if 0 < n <= stream.len() {
            remainder_of(stream.skip(n))
        } else {
            stream
        },
        _ => stream,
    }
}

/// A complete frame lies inside the data.
pub proof fn lemma_frame_bounds(data: Seq<u8>)
    ensures
        frame(data) matches Framing::Complete(n) ==> 0 < n <= data.len(),
    decreases data.len(),
{
    if let Prefix::Complete { len, width } = decode_prefix(data) {
        if len != 0 && width + len <= data.len() {
            lemma_frame_bounds(data.skip(width + len));
        }
    }
}

/// Once a buffer starts with a whole sentence, or with bytes that no sentence
/// starts with, bytes that arrive later change nothing about it.
pub proof fn lemma_frame_stable(data: Seq<u8>, later: Seq<u8>)
    requires
        frame(data) != Framing::Incomplete,
    ensures
        frame(data + later) == frame(data),
    decreases data.len(),
{
    let grown = data + later;
    match decode_prefix(data) {
        Prefix::Complete { len, width } => {
            assert(forall|i: int| 0 <= i < width ==> grown[i] == data[i]);
            assert(decode_prefix(grown) == decode_prefix(data));
            if len != 0 {
                assert(grown.skip(width + len) =~= data.skip(width + len) + later);
                lemma_frame_stable(data.skip(width + len), later);
            }
        },
        _ => {
            assert(grown[0] == data[0]);
        },
    }
}

/// Any strict prefix of a sentence is incomplete: the splitter waits for the
/// rest and cuts nothing.
pub proof fn lemma_strict_prefix_incomplete(sentence: Seq<u8>, k: int)
    requires
        is_sentence(sentence),
        0 <= k < sentence.len(),
    ensures
        frame(sentence.take(k)) == Framing::Incomplete,
    decreases sentence.len(),
{
    let cut = sentence.take(k);
    if let Prefix::Complete { len, width } = decode_prefix(sentence) {
        if k > 0 {
            assert(cut[0] == sentence[0]);
            if k >= width {
                assert(forall|i: int| 0 <= i < width ==> cut[i] == sentence[i]);
                assert(decode_prefix(cut) == decode_prefix(sentence));
                if len != 0 && k >= width + len {
                    let rest = sentence.skip(width + len);
                    lemma_frame_bounds(rest);
                    assert(cut.skip(width + len) =~= rest.take(k - width - len));
                    lemma_strict_prefix_incomplete(rest, k - width - len);
                }
            }
        }
    }
}

/// A stream made of whole sentences is cut into exactly those sentences, in
/// order, and nothing is left over.
pub proof fn lemma_split_concatenation(sentences: Seq<Seq<u8>>)
    requires
        forall|i: int| 0 <= i < sentences.len() ==> is_sentence(#[trigger] sentences[i]),
    ensures
        sentences_of(sentences.flatten()) == sentences,
        remainder_of(sentences.flatten()) == Seq::<u8>::empty(),
    decreases sentences.len(),
{
    if sentences.len() == 0 {
        assert(sentences_of(sentences.flatten()) =~= sentences);
    } else {
        let first = sentences.first();
        let later = sentences.drop_first();
        let stream = sentences.flatten();
        assert(stream == first + later.flatten());
        lemma_frame_bounds(first);
        lemma_frame_stable(first, later.flatten());
        assert(stream.take(first.len() as int) =~= first);
        assert(stream.skip(first.len() as int) =~= later.flatten());
        assert forall|i: int| 0 <= i < later.len() implies is_sentence(#[trigger] later[i]) by {
            assert(later[i] == sentences[i + 1]);
        }
        lemma_split_concatenation(later);
        assert(sentences_of(stream) =~= sentences);
    }
}

/// Cutting a stream that grew by `later` gives what cutting the stream gave,
/// followed by what cutting its remainder together with `later` gives.
pub proof fn lemma_split_append(stream: Seq<u8>, later: Seq<u8>)
    ensures
        sentences_of(stream + later) == sentences_of(stream) + sentences_of(
            remainder_of(stream) + later,
        ),
        remainder_of(stream + later) == remainder_of(remainder_of(stream) + later),
        frame(remainder_of(stream)) !is Complete,
    decreases stream.len(),
{
    lemma_frame_bounds(stream);
    if let Framing::Complete(n) = frame(stream) {
        let grown = stream + later;
        lemma_frame_stable(stream, later);
        assert(grown.take(n) =~= stream.take(n));
        assert(grown.skip(n) =~= stream.skip(n) + later);
        lemma_split_append(stream.skip(n), later);
        assert(sentences_of(grown) =~= sentences_of(stream) + sentences_of(
            remainder_of(stream) + later,
        ));
    } else {
        assert(sentences_of(stream) + sentences_of(stream + later) =~= sentences_of(
            stream + later,
        ));
    }
}

/// What a splitter that starts with `buffer` emits when `chunks` arrive one
/// by one, and what it then holds: after each chunk it cuts every complete
/// sentence and keeps the remainder for the next.
pub open spec fn feed(buffer: Seq<u8>, chunks: Seq<Seq<u8>>) -> (Seq<Seq<u8>>, Seq<u8>)
    decreases chunks.len(),
{
    if chunks.len() == 0 {
        (Seq::empty(), buffer)
    } else {
        let grown = buffer + chunks.first();
        let (later, left) = feed(remainder_of(grown), chunks.drop_first());
        (sentences_of(grown) + later, left)
    }
}

/// A splitter that holds no complete sentence emits, for chunks that arrive
/// one by one, what it would emit for all their bytes at once.
pub proof fn lemma_feed(buffer: Seq<u8>, chunks: Seq<Seq<u8>>)
    requires
        frame(buffer) !is Complete,
    ensures
        feed(buffer, chunks) == (
            sentences_of(buffer + chunks.flatten()),
            remainder_of(buffer + chunks.flatten()),
        ),
    decreases chunks.len(),
{
    if chunks.len() == 0 {
        assert(buffer + chunks.flatten() =~= buffer);
    } else {
        let grown = buffer + chunks.first();
        let rest = chunks.drop_first();
        lemma_split_append(grown, rest.flatten());
        lemma_feed(remainder_of(grown), rest);
        assert(buffer + chunks.flatten() =~= grown + rest.flatten());
    }
}

/// However a stream is cut into chunks, the splitter emits the same
/// sentences and keeps the same remainder as for the whole stream at once.
pub proof fn lemma_fragmentation(chunks: Seq<Seq<u8>>)
    ensures
        feed(Seq::empty(), chunks) == (
            sentences_of(chunks.flatten()),
            remainder_of(chunks.flatten()),
        ),
{
    lemma_feed(Seq::empty(), chunks);
    assert(Seq::<u8>::empty() + chunks.flatten() =~= chunks.flatten());
}

/// The wire form of a sentence is one sentence to the splitter: it is cut
/// at its last byte, and nowhere before.
pub proof fn lemma_encoded_sentence_is_sentence(words: Seq<Seq<u8>>)
    requires
        wire_words(words),
    ensures
        is_sentence(encode_sentence(words)),
    decreases words.len(),
{
    let data = encode_sentence(words);
    if words.len() == 0 {
        assert(data =~= seq![0u8]);
    } else {
        let first = words.first();
        let later = words.drop_first();
        let tail = encode_sentence(later);
        assert(data =~= encode_word(first) + tail);
        lemma_word_round_trip(first, tail);
        assert forall|i: int| 0 <= i < later.len() implies 0 < (#[trigger] later[i]).len()
            <= u32::MAX by {
            assert(later[i] == words[i + 1]);
        }
        lemma_encoded_sentence_is_sentence(later);
    }
}

/// A word that was encoded and closed by the zero-length word is cut as one
/// sentence, whose one word is read back as it was.
pub proof fn lemma_encode_word_round_trip(word: Seq<u8>)
    requires
        0 < word.len() <= u32::MAX,
    ensures
        is_sentence(encode_word(word) + seq![0u8]),
        head(encode_word(word) + seq![0u8]) == (Head::Word {
            bytes: word,
            size: encode_word(word).len() as int,
        }),
        head((encode_word(word) + seq![0u8]).skip(encode_word(word).len() as int)) == Head::End,
{
    let words = seq![word];
    assert(words.drop_first() =~= Seq::<Seq<u8>>::empty());
    assert(encode_words(words.drop_first()) =~= Seq::<u8>::empty());
    assert(encode_sentence(words) =~= encode_word(word) + seq![0u8]);
    lemma_encoded_sentence_is_sentence(words);
    lemma_word_round_trip(word, seq![0u8]);
    assert(seq![0u8][0] == 0u8);
}

/// Finds the end of the sentence at the head of `buffer`, reading no byte
/// behind it.
pub fn split_sentence(buffer: &[u8]) -> (r: Frame)
    ensures
        r@ == frame(buffer@),
        r matches Frame::Complete(n) ==> 0 < n <= buffer@.len(),
{
    let n: usize = buffer.len();
    let mut pos: usize = 0;
    proof {
        assert(buffer@.skip(0) =~= buffer@);
        lemma_frame_bounds(buffer@);
    }
    while pos < n
        invariant
            pos <= n,
            n == buffer@.len(),
            frame(buffer@) == shift(frame(buffer@.skip(pos as int)), pos as int),
        decreases n - pos,
    {
        let ghost rest = buffer@.skip(pos as int);
        proof {
            lemma_frame_bounds(rest);
        }
        match read_length(slice_subrange(buffer, pos, n)) {
            Ok((length, width)) => {
                if length == 0 {
                    return Frame::Complete(pos + 1);
                }
                let length: usize = length as usize;
                if width > n - pos || length > n - pos - width {
                    return Frame::Incomplete;
                }
                proof {
                    assert(buffer@.skip(pos + width + length) =~= rest.skip(width + length));
                    lemma_frame_bounds(rest.skip(width + length));
                }
                pos = pos + width + length;
            },
            Err(_) => {
                return if buffer[pos] >= 0xF8 {
                    Frame::Invalid
                } else {
                    Frame::Incomplete
                };
            },
        }
    }
    Frame::Incomplete
}

/// The bytes of each sentence.
pub open spec fn views(sentences: Seq<Vec<u8>>) -> Seq<Seq<u8>> {
    sentences.map_values(|v: Vec<u8>| v@)
}

/// The bytes read from a connection and not yet cut into sentences.
///
/// Bytes go in as they arrive, in chunks of any size; sentences come out one
/// by one, each as soon as its last byte is there. What is left behind the
/// last complete sentence waits for the bytes to come.
pub struct SentenceSplitter {
    buffer: Vec<u8>,
}

impl SentenceSplitter {
    /// The bytes that wait.
    pub closed spec fn buffered(&self) -> Seq<u8> {
        self.buffer@
    }

    /// A splitter with no bytes.
    pub fn new() -> (r: Self)
        ensures
            r.buffered() == Seq::<u8>::empty(),
    {
        SentenceSplitter { buffer: Vec::new() }
    }

    /// Number of bytes that wait.
    pub fn len(&self) -> (n: usize)
        ensures
            n == self.buffered().len(),
    {
        self.buffer.len()
    }

    /// Takes in bytes that have arrived.
    pub fn push(&mut self, bytes: &[u8])
        ensures
            final(self).buffered() == old(self).buffered() + bytes@,
    {
        self.buffer.extend_from_slice(bytes);
        assert(self.buffer@ =~= old(self).buffer@ + bytes@);
    }

    /// Throws away the bytes that wait.
    pub fn clear(&mut self)
        ensures
            final(self).buffered() == Seq::<u8>::empty(),
    {
        self.buffer.clear();
    }

    /// What stands at the head of the bytes that wait.
    pub fn peek(&self) -> (r: Frame)
        ensures
            r@ == frame(self.buffered()),
            r matches Frame::Complete(n) ==> 0 < n <= self.buffered().len(),
    {
        split_sentence(self.buffer.as_slice())
    }

    /// Cuts the sentence at the head of the bytes that wait.
    ///
    /// Gives `None`, and changes nothing, where no complete sentence stands
    /// there: the start of a sentence stays where it is.
    pub fn next_sentence(&mut self) -> (r: Option<Vec<u8>>)
        ensures
            match frame(old(self).buffered()) {
                Framing::Complete(n) => {
                    &&& r is Some
                    &&& r->0@ == old(self).buffered().take(n)
                    &&& final(self).buffered() == old(self).buffered().skip(n)
                },
                _ => r is None && final(self).buffered() == old(self).buffered(),
            },
    {
        match split_sentence(self.buffer.as_slice()) {
            Frame::Complete(n) => {
                let mut sentence = self.buffer.split_off(n);
                core::mem::swap(&mut self.buffer, &mut sentence);
                Some(sentence)
            },
            _ => None,
        }
    }

    /// Cuts every complete sentence from the bytes that wait: the sentences
    /// come out in the order in which they stand, and what is behind the last
    /// of them stays.
    pub fn sentences(&mut self) -> (r: Vec<Vec<u8>>)
        ensures
            views(r@) == sentences_of(old(self).buffered()),
            final(self).buffered() == remainder_of(old(self).buffered()),
    {
        let mut out: Vec<Vec<u8>> = Vec::new();
        proof {
            assert(views(out@) =~= Seq::<Seq<u8>>::empty());
            assert(views(out@) + sentences_of(self.buffered()) =~= sentences_of(self.buffered()));
        }
        loop
            invariant
                views(out@) + sentences_of(self.buffered()) == sentences_of(old(self).buffered()),
                remainder_of(self.buffered()) == remainder_of(old(self).buffered()),
            decreases self.buffered().len(),
        {
            let ghost before = self.buffered();
            let ghost found = out@;
            proof {
                lemma_frame_bounds(before);
            }
            match self.next_sentence() {
                Some(sentence) => {
                    out.push(sentence);
                    proof {
                        assert(views(out@) =~= views(found).push(sentence@));
                        assert(views(out@) + sentences_of(self.buffered()) =~= views(found)
                            + sentences_of(before));
                    }
                },
                None => {
                    proof {
                        assert(sentences_of(before) =~= Seq::<Seq<u8>>::empty());
                        assert(views(out@) + sentences_of(before) =~= views(out@));
                    }
                    return out;
                },
            }
        }
    }
}

} // verus!
