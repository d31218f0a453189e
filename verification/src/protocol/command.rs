//! Building the byte sequence of a tagged command.
//!
//! A command is one sentence: the command path, the tag word `.tag=<n>`,
//! then attribute words (`=key=value`, or `=key=` for a flag) and query
//! words (`?name`, `?-name`, `?name=value`, `?>name=value`, `?<name=value`,
//! `?#<operators>`), closed by the zero-length word.

use vstd::pervasive::unreached;
use vstd::prelude::*;
use core::marker::PhantomData;
use super::length::encode_length;
use super::sentence::{
    encode_sentence, encode_word, encode_words, item_of, items, lemma_sentence_round_trip,
    read_words, wire_words, SentenceError,
};
use super::splitter::{is_sentence, lemma_encoded_sentence_is_sentence};
use super::string::{
    check_ascii, is_ascii_bytes, lemma_ascii_is_utf8, lemma_ascii_prefix_len, EncodingError,
    WordContent,
};
use super::word::{
    classify, decimal_digits, decimal_text, lemma_attribute_word_reads_back, lemma_decimal_text,
    lemma_tag_word_reads_back, separator, tag_prefix, tag_word, WordError, WordView,
};

verus! {

/// Marks a [`CommandBuilder`] that has no command word yet.
pub struct NoCmd;

/// Marks a [`CommandBuilder`] that holds its command word and tag, so that
/// attributes and queries can follow and the command can be built.
#[derive(Clone)]
pub struct Cmd;

/// A finished command: the tag under which its responses come back, and the
/// bytes to send.
#[derive(Debug)]
pub struct Command {
    /// The tag of the command.
    pub tag: u16,
    /// The sentence to send, its closing zero-length word included.
    pub data: Vec<u8>,
}

/// Why no command could be started.
#[derive(Debug, PartialEq, Eq, Clone, Copy)]
pub enum CommandError {
    /// The system's random source gave no tag.
    RandomSource,
    /// A word was refused.
    Encoding(EncodingError),
}

/// An operator that combines the results of earlier query words.
#[derive(Debug, Copy, Clone, Eq, PartialEq, Hash)]
pub enum QueryOperator {
    /// Represents the `!` operator.
    Not,
    /// Represents the `&` operator.
    And,
    /// Represents the `|` operator.
    Or,
    /// Represents the `.` operator.
    Dot,
}

impl QueryOperator {
    /// The byte that stands for the operator in a `?#` word.
    pub open spec fn code_byte(self) -> u8 {
        match self {
            QueryOperator::Not => '!' as u8,
            QueryOperator::And => '&' as u8,
            QueryOperator::Or => '|' as u8,
            QueryOperator::Dot => '.' as u8,
        }
    }

    /// The operator as text.
    pub fn to_string(&self) -> (r: String)
        ensures
            vstd::utf8::encode_utf8(r@) == seq![self.code_byte()],
    {
        let code: [u8; 1] = [self.code() as u8];
        proof {
            assert(code@ =~= seq![self.code_byte()]);
            crate::protocol::string::lemma_ascii_is_utf8(code@);
        }
        crate::protocol::string::known_text(code.as_slice())
    }

    /// The character that stands for the operator in a `?#` word.
    #[inline]
    pub fn code(self) -> (c: char)
        ensures
            c as u8 == self.code_byte(),
            c == match self {
                QueryOperator::Not => '!',
                QueryOperator::And => '&',
                QueryOperator::Or => '|',
                QueryOperator::Dot => '.',
            },
    {
        match self {
            QueryOperator::Not => '!',
            QueryOperator::And => '&',
            QueryOperator::Or => '|',
            QueryOperator::Dot => '.',
        }
    }
}

/// The bytes of a command under construction.
pub struct CommandBuffer(pub Vec<u8>);

impl Clone for CommandBuffer {
    fn clone(&self) -> (r: Self)
        ensures
            r@ == self@,
    {
        let bytes = self.0.clone();
        assert(bytes@ =~= self.0@);
        CommandBuffer(bytes)
    }
}

impl Default for CommandBuffer {
    fn default() -> (r: Self)
        ensures
            r@ == Seq::<u8>::empty(),
    {
        CommandBuffer(Vec::new())
    }
}

impl View for CommandBuffer {
    type V = Seq<u8>;

    open spec fn view(&self) -> Seq<u8> {
        self.0@
    }
}

impl CommandBuffer {
    /// Appends `str_buff` as it is.
    pub fn write_str(&mut self, str_buff: &[u8])
        ensures
            final(self)@ == old(self)@ + str_buff@,
    {
        self.0.extend_from_slice(str_buff);
        assert(self.0@ =~= old(self)@ + str_buff@);
    }

    /// Appends the shortest length prefix that encodes `len`.
    pub fn write_len(&mut self, len: u32)
        ensures
            final(self)@ == old(self)@ + encode_length(len),
    {
        if len < 0x80 {
            self.0.push(len as u8);
        } else if len < 0x4000 {
            let l: u32 = len | 0x8000;
            assert(((len | 0x8000) >> 8) & 0xFF == 0x80 + len / 0x100 && (len | 0x8000) & 0xFF
                == len % 0x100) by (bit_vector)
                requires
                    0x80 <= len < 0x4000,
            ;
            self.0.push(((l >> 8) & 0xFF) as u8);
            self.0.push((l & 0xFF) as u8);
        } else if len < 0x20_0000 {
            let l: u32 = len | 0xC0_0000;
            assert(((len | 0xC0_0000) >> 16) & 0xFF == 0xC0 + len / 0x1_0000 && ((len | 0xC0_0000)
                >> 8) & 0xFF == len / 0x100 % 0x100 && (len | 0xC0_0000) & 0xFF == len % 0x100)
                by (bit_vector)
                requires
                    0x4000 <= len < 0x20_0000,
            ;
            self.0.push(((l >> 16) & 0xFF) as u8);
            self.0.push(((l >> 8) & 0xFF) as u8);
            self.0.push((l & 0xFF) as u8);
        } else if len < 0x1000_0000 {
            let l: u32 = len | 0xE000_0000;
            assert(((len | 0xE000_0000) >> 24) & 0xFF == 0xE0 + len / 0x100_0000 && ((len
                | 0xE000_0000) >> 16) & 0xFF == len / 0x1_0000 % 0x100 && ((len | 0xE000_0000)
                >> 8) & 0xFF == len / 0x100 % 0x100 && (len | 0xE000_0000) & 0xFF == len % 0x100)
                by (bit_vector)
                requires
                    0x20_0000 <= len < 0x1000_0000,
            ;
            self.0.push(((l >> 24) & 0xFF) as u8);
            self.0.push(((l >> 16) & 0xFF) as u8);
            self.0.push(((l >> 8) & 0xFF) as u8);
            self.0.push((l & 0xFF) as u8);
        } else {
            assert((len >> 24) & 0xFF == len / 0x100_0000 && (len >> 16) & 0xFF == len / 0x1_0000
                % 0x100 && (len >> 8) & 0xFF == len / 0x100 % 0x100 && len & 0xFF == len % 0x100)
                by (bit_vector);
            self.0.push(0xF0u8);
            self.0.push(((len >> 24) & 0xFF) as u8);
            self.0.push(((len >> 16) & 0xFF) as u8);
            self.0.push(((len >> 8) & 0xFF) as u8);
            self.0.push((len & 0xFF) as u8);
        }
        assert(self.0@ =~= old(self)@ + encode_length(len));
    }

    /// Appends `w` as one word: its length, then its bytes.
    ///
    /// The length must fit the prefix, which holds 32 bits.
    pub fn write_word<W: WordContent + ?Sized>(&mut self, w: &W)
        requires
            w.content().len() <= u32::MAX,
        ensures
            final(self)@ == old(self)@ + encode_word(w.content()),
    {
        self.write_len(w.byte_count() as u32);
        w.write_to_buffer(&mut self.0);
        assert(self.0@ =~= old(self)@ + encode_word(w.content()));
    }
}

/// What may follow the name in a composed word.
enum Tail<'a, V: ?Sized> {
    /// Nothing: the word ends with the name.
    Nothing,
    /// The separator `=` alone.
    Separator,
    /// The separator `=` and a value.
    Value(&'a V),
}

/// What may follow the name in a composed word, in bytes.
pub enum TailView {
    Nothing,
    Separator,
    Value(Seq<u8>),
}

impl<'a, V: WordContent + ?Sized> View for Tail<'a, V> {
    type V = TailView;

    closed spec fn view(&self) -> TailView {
        match self {
            Tail::Nothing => TailView::Nothing,
            Tail::Separator => TailView::Separator,
            Tail::Value(v) => TailView::Value(v.content()),
        }
    }
}

impl TailView {
    /// The bytes that the tail adds to the word.
    pub open spec fn bytes(self) -> Seq<u8> {
        match self {
            TailView::Nothing => Seq::empty(),
            TailView::Separator => seq!['=' as u8],
            TailView::Value(v) => seq!['=' as u8] + v,
        }
    }
}

/// A word made of fixed leading bytes, a name and a tail.
pub open spec fn compose(lead: Seq<u8>, name: Seq<u8>, tail: TailView) -> Seq<u8> {
    lead + name + tail.bytes()
}

/// What the checks of name and value have found; where a word has no value,
/// nothing is wrong with it.
pub struct Verdicts {
    pub name: Result<(), EncodingError>,
    pub value: Result<(), EncodingError>,
}

/// What the checks of `name` and `value` find.
pub open spec fn verdicts<N: WordContent + ?Sized, V: WordContent + ?Sized>(
    name: &N,
    value: Option<&V>,
) -> Verdicts {
    Verdicts {
        name: name.verdict(),
        value: match value {
            Some(v) => v.verdict(),
            None => Ok(()),
        },
    }
}

/// What the check of `name` finds, for a word without a value.
pub open spec fn verdict_of<N: WordContent + ?Sized>(name: &N) -> Verdicts {
    Verdicts { name: name.verdict(), value: Ok(()) }
}

/// Nothing is wrong with name or value.
pub open spec fn clean() -> Verdicts {
    Verdicts { name: Ok(()), value: Ok(()) }
}

/// Decides whether the word composed of these parts may be written: it must
/// fit a length prefix, and name and value must be ASCII. The length is
/// looked at first, then the name, then the value.
pub open spec fn checked_word(
    lead: Seq<u8>,
    name: Seq<u8>,
    tail: TailView,
    found: Verdicts,
) -> Result<Seq<u8>, EncodingError> {
    let word = compose(lead, name, tail);
    if word.len() > u32::MAX {
        Err(EncodingError::WordTooLong)
    } else if found.name is Err {
        Err(found.name->Err_0)
    } else if found.value is Err {
        Err(found.value->Err_0)
    } else {
        Ok(word)
    }
}

/// The word `=key=value`, or `=key=` where there is no value.
pub open spec fn attribute_word(key: Seq<u8>, value: Option<Seq<u8>>) -> Seq<u8> {
    compose(
        seq!['=' as u8],
        key,
        match value {
            Some(v) => TailView::Value(v),
            None => TailView::Separator,
        },
    )
}

/// Appending a word to a run of words appends its wire form.
pub proof fn lemma_encode_words_push(words: Seq<Seq<u8>>, word: Seq<u8>)
    ensures
        encode_words(words.push(word)) == encode_words(words) + encode_word(word),
    decreases words.len(),
{
    let longer = words.push(word);
    if words.len() == 0 {
        assert(longer.first() == word);
        assert(longer.drop_first() =~= Seq::<Seq<u8>>::empty());
        assert(encode_words(longer.drop_first()) =~= Seq::<u8>::empty());
        assert(encode_words(longer) =~= encode_word(word));
        assert(encode_words(words) + encode_word(word) =~= encode_word(word));
    } else {
        assert(longer.first() == words.first());
        assert(longer.drop_first() =~= words.drop_first().push(word));
        lemma_encode_words_push(words.drop_first(), word);
        assert(encode_words(longer) =~= encode_words(words) + encode_word(word));
    }
}

/// The length of the word composed of `lead`, `name` and `tail`, if it fits
/// a length prefix.
fn composed_len<N: WordContent + ?Sized, V: WordContent + ?Sized>(
    lead: &[u8],
    name: &N,
    tail: &Tail<'_, V>,
) -> (r: Option<u32>)
    requires
        lead@.len() <= 8,
    ensures
        match r {
            Some(len) => len == compose(lead@, name.content(), tail@).len(),
            None => compose(lead@, name.content(), tail@).len() > u32::MAX,
        },
{
    let limit: usize = 0xFFFF_FFFF;
    let name_len: usize = name.byte_count();
    if name_len > limit {
        return None;
    }
    let tail_len: u64 = match tail {
        Tail::Nothing => 0,
        Tail::Separator => 1,
        Tail::Value(v) => {
            let n: usize = v.byte_count();
            if n > limit {
                return None;
            }
            n as u64 + 1
        },
    };
    let total: u64 = lead.len() as u64 + name_len as u64 + tail_len;
    if total > 0xFFFF_FFFF {
        None
    } else {
        Some(total as u32)
    }
}

/// What the checks of the name and of the value of `tail` find.
spec fn found_in<N: WordContent + ?Sized, V: WordContent + ?Sized>(
    name: &N,
    tail: Tail<'_, V>,
) -> Verdicts {
    Verdicts {
        name: name.verdict(),
        value: match tail {
            Tail::Value(v) => v.verdict(),
            _ => Ok(()),
        },
    }
}

/// Writes the word composed of `lead`, `name` and `tail`, if it passes the
/// checks; nothing is written if it does not.
fn write_composed<N: WordContent + ?Sized, V: WordContent + ?Sized>(
    cmd: &mut CommandBuffer,
    lead: &[u8],
    name: &N,
    tail: Tail<'_, V>,
) -> (r: Result<(), EncodingError>)
    requires
        lead@.len() <= 8,
    ensures
        match checked_word(lead@, name.content(), tail@, found_in(name, tail)) {
            Ok(word) => r is Ok && final(cmd)@ == old(cmd)@ + encode_word(word),
            Err(e) => r == Err::<(), EncodingError>(e) && final(cmd)@ == old(cmd)@,
        },
{
    let total: u32 = match composed_len(lead, name, &tail) {
        Some(total) => total,
        None => {
            return Err(EncodingError::WordTooLong);
        },
    };
    match name.validate() {
        Ok(()) => {},
        Err(e) => {
            return Err(e);
        },
    }
    if let Tail::Value(v) = tail {
        match v.validate() {
            Ok(()) => {},
            Err(e) => {
                return Err(e);
            },
        }
    }
    cmd.write_len(total);
    cmd.write_str(lead);
    name.write_to_buffer(&mut cmd.0);
    match tail {
        Tail::Nothing => {},
        Tail::Separator => {
            cmd.0.push('=' as u8);
        },
        Tail::Value(v) => {
            cmd.0.push('=' as u8);
            v.write_to_buffer(&mut cmd.0);
        },
    }
    assert(cmd.0@ =~= old(cmd)@ + encode_word(compose(lead@, name.content(), tail@)));
    Ok(())
}

/// `getrandom::getrandom`, asked for two bytes: hands them back, or the
/// error of the random source. Nothing is claimed of the bytes.
#[verifier::external_body]
fn random_bytes() -> (r: Result<[u8; 2], getrandom::Error>) {
    let mut dest = [0u8; 2];
    match getrandom::getrandom(&mut dest) {
        Ok(()) => Ok(dest),
        Err(e) => Err(e),
    }
}

/// The error of the system's random source.
#[verifier::external_type_specification]
#[verifier::external_body]
pub struct ExRandomError(getrandom::Error);

/// Builds a command word by word.
///
/// The state parameter makes sure that the command path and the tag come
/// first and that only a builder that holds them can be built.
pub struct CommandBuilder<State> {
    tag: u16,
    cmd: CommandBuffer,
    words: Ghost<Seq<Seq<u8>>>,
    state: PhantomData<State>,
}

impl<State> Clone for CommandBuilder<State> {
    fn clone(&self) -> (r: Self)
        ensures
            r.spec_tag() == self.spec_tag(),
            r.words() == self.words(),
    {
        proof {
            use_type_invariant(self);
        }
        CommandBuilder {
            tag: self.tag,
            cmd: self.cmd.clone(),
            words: self.words,
            state: PhantomData,
        }
    }
}

impl<State> CommandBuilder<State> {
    /// `r` is what appending the word made of `lead`, `name` and `tail` to
    /// this builder gives: the builder that holds one word more, or the
    /// reason for which the word is refused.
    pub open spec fn appended(
        self,
        r: Result<Self, EncodingError>,
        lead: Seq<u8>,
        name: Seq<u8>,
        tail: TailView,
        found: Verdicts,
    ) -> bool {
        match checked_word(lead, name, tail, found) {
            Ok(word) => {
                &&& r is Ok
                &&& r->Ok_0.spec_tag() == self.spec_tag()
                &&& r->Ok_0.words() == self.words().push(word)
            },
            Err(e) => r == Err::<Self, EncodingError>(e),
        }
    }

    #[verifier::type_invariant]
    spec fn holds_words(self) -> bool {
        self.cmd@ == encode_words(self.words@)
    }

    /// The tag that the command will carry.
    pub closed spec fn spec_tag(&self) -> u16 {
        self.tag
    }

    /// The words written so far.
    pub closed spec fn words(&self) -> Seq<Seq<u8>> {
        self.words@
    }

    /// The tag that the command will carry.
    pub fn tag(&self) -> (r: u16)
        ensures
            r == self.spec_tag(),
    {
        self.tag
    }

    /// The bytes written so far: the wire form of the words.
    pub fn data(&self) -> (r: &[u8])
        ensures
            r@ == encode_words(self.words()),
    {
        proof {
            use_type_invariant(self);
        }
        self.cmd.0.as_slice()
    }
}

impl CommandBuilder<NoCmd> {
    /// Begin building a new [`Command`] with a randomly generated tag.
    ///
    /// Fails only if the system's random source does.
    pub fn new() -> (r: Result<Self, CommandError>)
        ensures
            r matches Ok(b) ==> b.words() == Seq::<Seq<u8>>::empty(),
            r matches Err(e) ==> e == CommandError::RandomSource,
    {
        match random_bytes() {
            Ok(bytes) => Ok(Self::with_tag(tag_from_bytes(bytes))),
            Err(_) => Err(CommandError::RandomSource),
        }
    }

    /// Begin building a new [`Command`] with a specified tag.
    ///
    /// The tag correlates the command with its responses and must be unique
    /// among the commands that are under way on one connection.
    pub fn with_tag(tag: u16) -> (r: Self)
        ensures
            r.spec_tag() == tag,
            r.words() == Seq::<Seq<u8>>::empty(),
    {
        Self { tag, cmd: CommandBuffer::default(), words: Ghost(Seq::empty()), state: PhantomData }
    }

    /// Builds the command that logs `username` in, under a random tag.
    ///
    /// Without a password the command carries the flag `=password=`.
    pub fn login<U: WordContent + ?Sized, P: WordContent + ?Sized>(
        username: &U,
        password: Option<&P>,
    ) -> (r: Result<Command, CommandError>)
        ensures
            match r {
                Ok(command) => checked_login(
                    command.tag,
                    username.content(),
                    option_content(password),
                    verdicts(username, password),
                ) == Ok::<Seq<u8>, EncodingError>(command.data@),
                Err(CommandError::Encoding(e)) => checked_login(
                    0,
                    username.content(),
                    option_content(password),
                    verdicts(username, password),
                ) == Err::<Seq<u8>, EncodingError>(e),
                Err(CommandError::RandomSource) => true,
            },
    {
        match random_bytes() {
            Ok(bytes) => {
                let tag: u16 = tag_from_bytes(bytes);
                match Self::login_with_tag(tag, username, password) {
                    Ok(command) => Ok(command),
                    Err(e) => Err(CommandError::Encoding(e)),
                }
            },
            Err(_) => Err(CommandError::RandomSource),
        }
    }

    /// Builds the command that logs `username` in, under the given tag.
    pub fn login_with_tag<U: WordContent + ?Sized, P: WordContent + ?Sized>(
        tag: u16,
        username: &U,
        password: Option<&P>,
    ) -> (r: Result<Command, EncodingError>)
        ensures
            match checked_login(
                tag,
                username.content(),
                option_content(password),
                verdicts(username, password),
            ) {
                Ok(data) => r is Ok && r->Ok_0.tag == tag && r->Ok_0.data@ == data,
                Err(e) => r == Err::<Command, EncodingError>(e),
            },
    {
        let login: [u8; 6] = ['/' as u8, 'l' as u8, 'o' as u8, 'g' as u8, 'i' as u8, 'n' as u8];
        let name: [u8; 4] = ['n' as u8, 'a' as u8, 'm' as u8, 'e' as u8];
        let pass: [u8; 8] = [
            'p' as u8, 'a' as u8, 's' as u8, 's' as u8, 'w' as u8, 'o' as u8, 'r' as u8, 'd' as u8,
        ];
        proof {
            assert(login@ =~= login_path());
            assert(name@ =~= name_key());
            assert(pass@ =~= password_key());
            lemma_fixed_words_pass();
            assert(compose(Seq::empty(), login_path(), TailView::Nothing) =~= login_path());
        }
        let builder = match Self::with_tag(tag).command(&login) {
            Ok(builder) => builder,
            Err(_) => unreached(),
        };
        let builder = match builder.attribute(&name, Some(username)) {
            Ok(builder) => builder,
            Err(e) => {
                return Err(e);
            },
        };
        let builder = match builder.attribute(&pass, password) {
            Ok(builder) => builder,
            Err(e) => {
                return Err(e);
            },
        };
        let ghost name_word = attribute_word(name_key(), Some(username.content()));
        let ghost pass_word = attribute_word(password_key(), option_content(password));
        assert(builder.words() =~= seq![login_path(), tag_word(tag), name_word, pass_word]);
        Ok(builder.build())
    }

    /// Builds the command that cancels the command running under `tag`. It
    /// carries the same tag, so that the router's answer closes that command.
    pub fn cancel(tag: u16) -> (r: Command)
        ensures
            r.tag == tag,
            r.data@ == cancel_bytes(tag),
    {
        let cancel: [u8; 7] = [
            '/' as u8, 'c' as u8, 'a' as u8, 'n' as u8, 'c' as u8, 'e' as u8, 'l' as u8,
        ];
        let key: [u8; 3] = ['t' as u8, 'a' as u8, 'g' as u8];
        assert(cancel@ =~= cancel_path());
        assert(key@ =~= tag_key());
        let digits = decimal_digits(tag);
        proof {
            lemma_fixed_words_pass();
            lemma_decimal_text(tag as nat);
            lemma_decimal_text_short(tag);
            lemma_ascii_prefix_len(digits@, digits@.len() as int);
            assert(compose(Seq::empty(), cancel_path(), TailView::Nothing) =~= cancel_path());
        }
        let builder = match Self::with_tag(tag).command(&cancel) {
            Ok(builder) => builder,
            Err(_) => unreached(),
        };
        let builder = match builder.attribute(&key, Some(digits.as_slice())) {
            Ok(builder) => builder,
            Err(_) => unreached(),
        };
        assert(builder.words() =~= seq![
            cancel_path(),
            tag_word(tag),
            attribute_word(tag_key(), Some(decimal_text(tag as nat))),
        ]);
        builder.build()
    }

    /// Specify the command to be executed, such as `/interface/print`. The
    /// command word and the tag word are written at once.
    ///
    /// Fails, and writes nothing, if `command` holds a byte that is no ASCII
    /// character or is too long for one word.
    pub fn command<W: WordContent + ?Sized>(self, command: &W) -> (r: Result<
        CommandBuilder<Cmd>,
        EncodingError,
    >)
        ensures
            match checked_word(
                Seq::empty(),
                command.content(),
                TailView::Nothing,
                verdict_of(command),
            ) {
                Ok(word) => {
                    &&& r is Ok
                    &&& r->Ok_0.spec_tag() == self.spec_tag()
                    &&& r->Ok_0.words() == self.words().push(word).push(tag_word(self.spec_tag()))
                },
                Err(e) => r == Err::<CommandBuilder<Cmd>, EncodingError>(e),
            },
    {
        proof {
            use_type_invariant(&self);
        }
        let Self { tag, mut cmd, words, .. } = self;
        let none: [u8; 0] = [];
        assert(none@ =~= Seq::<u8>::empty());
        match write_composed::<W, [u8]>(&mut cmd, none.as_slice(), command, Tail::Nothing) {
            Ok(()) => {},
            Err(e) => {
                return Err(e);
            },
        }
        let lead: [u8; 5] = ['.' as u8, 't' as u8, 'a' as u8, 'g' as u8, '=' as u8];
        let digits = decimal_digits(tag);
        let ghost word = compose(Seq::empty(), command.content(), TailView::Nothing);
        proof {
            assert(lead@ =~= tag_prefix());
            lemma_decimal_text(tag as nat);
            lemma_decimal_text_short(tag);
            lemma_ascii_prefix_len(digits@, digits@.len() as int);
            assert(compose(lead@, digits@, TailView::Nothing) =~= tag_word(tag));
            lemma_encode_words_push(words@, word);
            lemma_encode_words_push(words@.push(word), tag_word(tag));
        }
        match write_composed::<[u8], [u8]>(
            &mut cmd,
            lead.as_slice(),
            digits.as_slice(),
            Tail::Nothing,
        ) {
            Ok(()) => {},
            Err(_) => unreached(),
        }
        Ok(
            CommandBuilder {
                tag,
                cmd,
                words: Ghost(words@.push(word).push(tag_word(tag))),
                state: PhantomData,
            },
        )
    }

}

/// The tag that two random bytes stand for, the first byte being the high
/// one.
pub fn tag_from_bytes(bytes: [u8; 2]) -> (tag: u16)
    ensures
        tag == bytes@[0] * 0x100 + bytes@[1],
{
    bytes[0] as u16 * 0x100 + bytes[1] as u16
}

/// The content handed in, if any.
pub open spec fn option_content<W: WordContent + ?Sized>(value: Option<&W>) -> Option<Seq<u8>> {
    match value {
        Some(v) => Some(v.content()),
        None => None,
    }
}

/// The tail of an attribute word.
pub open spec fn attribute_tail(value: Option<Seq<u8>>) -> TailView {
    match value {
        Some(v) => TailView::Value(v),
        None => TailView::Separator,
    }
}

/// The command path `/login`.
pub open spec fn login_path() -> Seq<u8> {
    seq!['/' as u8, 'l' as u8, 'o' as u8, 'g' as u8, 'i' as u8, 'n' as u8]
}

/// The command path `/cancel`.
pub open spec fn cancel_path() -> Seq<u8> {
    seq!['/' as u8, 'c' as u8, 'a' as u8, 'n' as u8, 'c' as u8, 'e' as u8, 'l' as u8]
}

/// The attribute key `name`.
pub open spec fn name_key() -> Seq<u8> {
    seq!['n' as u8, 'a' as u8, 'm' as u8, 'e' as u8]
}

/// The attribute key `password`.
pub open spec fn password_key() -> Seq<u8> {
    seq!['p' as u8, 'a' as u8, 's' as u8, 's' as u8, 'w' as u8, 'o' as u8, 'r' as u8, 'd' as u8]
}

/// The attribute key `tag`.
pub open spec fn tag_key() -> Seq<u8> {
    seq!['t' as u8, 'a' as u8, 'g' as u8]
}

/// The bytes of the login command for these inputs, or why there is none:
/// the user name is checked before the password.
pub open spec fn checked_login(
    tag: u16,
    username: Seq<u8>,
    password: Option<Seq<u8>>,
    found: Verdicts,
) -> Result<Seq<u8>, EncodingError> {
    match checked_word(
        seq!['=' as u8],
        name_key(),
        TailView::Value(username),
        Verdicts { name: Ok(()), value: found.name },
    ) {
        Err(e) => Err(e),
        Ok(name) => match checked_word(
            seq!['=' as u8],
            password_key(),
            attribute_tail(password),
            Verdicts { name: Ok(()), value: found.value },
        ) {
            Err(e) => Err(e),
            Ok(pass) => Ok(encode_sentence(seq![login_path(), tag_word(tag), name, pass])),
        },
    }
}

/// The bytes of the command that cancels the command under `tag`: the
/// sentence made of `/cancel`, the tag word and the attribute `=tag=<tag>`.
pub open spec fn cancel_bytes(tag: u16) -> Seq<u8> {
    encode_sentence(
        seq![
            cancel_path(),
            tag_word(tag),
            attribute_word(tag_key(), Some(decimal_text(tag as nat))),
        ],
    )
}

/// Read as a sentence, the command that cancels the command under `tag` is
/// the word `/cancel`, the tag itself, so that the answer comes back under
/// it, and the attribute `tag` that names the command to cancel.
pub proof fn lemma_cancel_reads_back(tag: u16)
    ensures
        is_sentence(cancel_bytes(tag)),
        items(cancel_bytes(tag)) == seq![
            Ok::<WordView, SentenceError>(WordView::Message(cancel_path())),
            Ok::<WordView, SentenceError>(WordView::Tag(tag)),
            Ok::<WordView, SentenceError>(
                WordView::Attribute {
                    key: tag_key(),
                    value: Some(decimal_text(tag as nat)),
                },
            ),
        ],
{
    let path = cancel_path();
    let key = tag_key();
    let digits = decimal_text(tag as nat);
    let attribute = attribute_word(key, Some(digits));
    let words = seq![path, tag_word(tag), attribute];
    lemma_tag_word_reads_back(tag);
    lemma_decimal_text(tag as nat);
    assert(classify(path) == Ok::<WordView, WordError>(WordView::Message(path))) by {
        assert(is_ascii_bytes(path));
        lemma_ascii_is_utf8(path);
        if tag_prefix().is_prefix_of(path) {
            assert(path.subrange(0, 5)[0] == tag_prefix()[0]);
        }
    }
    assert(classify(attribute) == Ok::<WordView, WordError>(
        WordView::Attribute { key, value: Some(digits) },
    )) by {
        let eq = seq![separator()];
        assert(attribute =~= eq + key + eq + digits);
        assert(is_ascii_bytes(key));
        lemma_ascii_is_utf8(key);
        lemma_attribute_word_reads_back(key, digits);
    }
    assert(wire_words(words)) by {
        lemma_decimal_text_short(tag);
    }
    lemma_sentence_round_trip(words, Seq::empty());
    assert(cancel_bytes(tag) + Seq::<u8>::empty() =~= cancel_bytes(tag));
    assert(read_words(words) =~= seq![item_of(path), item_of(tag_word(tag)), item_of(attribute)]);
    lemma_encoded_sentence_is_sentence(words);
}

/// The fixed paths and keys of the library are ASCII.
proof fn lemma_fixed_words_pass()
    ensures
        check_ascii(login_path()) is Ok,
        check_ascii(cancel_path()) is Ok,
        check_ascii(name_key()) is Ok,
        check_ascii(password_key()) is Ok,
        check_ascii(tag_key()) is Ok,
{
    lemma_ascii_prefix_len(login_path(), 6);
    lemma_ascii_prefix_len(cancel_path(), 7);
    lemma_ascii_prefix_len(name_key(), 4);
    lemma_ascii_prefix_len(password_key(), 8);
    lemma_ascii_prefix_len(tag_key(), 3);
}

/// A 16-bit tag takes at most five digits.
proof fn lemma_decimal_text_short(tag: u16)
    ensures
        decimal_text(tag as nat).len() <= 5,
{
    reveal_with_fuel(decimal_text, 5);
}

impl CommandBuilder<Cmd> {
    /// Adds the attribute `=key=value`, or the flag `=key=` where `value` is
    /// `None`.
    ///
    /// Fails if key or value hold a byte that is no ASCII character, or if
    /// the word is too long.
    pub fn attribute<K: WordContent + ?Sized, V: WordContent + ?Sized>(
        self,
        key: &K,
        value: Option<&V>,
    ) -> (r: Result<Self, EncodingError>)
        ensures
            self.appended(
                r,
                seq!['=' as u8],
                key.content(),
                attribute_tail(option_content(value)),
                verdicts(key, value),
            ),
            r is Ok ==> r->Ok_0.words().last() == attribute_word(
                key.content(),
                option_content(value),
            ),
    {
        let tail = match value {
            Some(v) => Tail::Value(v),
            None => Tail::Separator,
        };
        let lead: [u8; 1] = ['=' as u8];
        assert(lead@ =~= seq!['=' as u8]);
        self.word(lead.as_slice(), key, tail)
    }

    /// Adds the flag `=key=`.
    pub fn flag_attribute<K: WordContent + ?Sized>(self, key: &K) -> (r: Result<
        Self,
        EncodingError,
    >)
        ensures
            self.appended(r, seq!['=' as u8], key.content(), TailView::Separator, verdict_of(key)),
    {
        let lead: [u8; 1] = ['=' as u8];
        assert(lead@ =~= seq!['=' as u8]);
        self.word::<K, [u8]>(lead.as_slice(), key, Tail::Separator)
    }

    /// Adds the query `?name`: true for items that have the property.
    pub fn query_is_present<N: WordContent + ?Sized>(self, name: &N) -> (r: Result<
        Self,
        EncodingError,
    >)
        ensures
            self.appended(r, seq!['?' as u8], name.content(), TailView::Nothing, verdict_of(name)),
    {
        let lead: [u8; 1] = ['?' as u8];
        assert(lead@ =~= seq!['?' as u8]);
        self.word::<N, [u8]>(lead.as_slice(), name, Tail::Nothing)
    }

    /// Adds the query `?-name`: true for items that lack the property.
    pub fn query_not_present<N: WordContent + ?Sized>(self, name: &N) -> (r: Result<
        Self,
        EncodingError,
    >)
        ensures
            self.appended(
                r,
                seq!['?' as u8, '-' as u8],
                name.content(),
                TailView::Nothing,
                verdict_of(name),
            ),
    {
        let lead: [u8; 2] = ['?' as u8, '-' as u8];
        assert(lead@ =~= seq!['?' as u8, '-' as u8]);
        self.word::<N, [u8]>(lead.as_slice(), name, Tail::Nothing)
    }

    /// Adds the query `?name=value`: true where the property equals the
    /// value.
    pub fn query_equal<N: WordContent + ?Sized, V: WordContent + ?Sized>(
        self,
        name: &N,
        value: &V,
    ) -> (r: Result<Self, EncodingError>)
        ensures
            self.appended(
                r,
                seq!['?' as u8],
                name.content(),
                TailView::Value(value.content()),
                verdicts(name, Some(value)),
            ),
    {
        let lead: [u8; 1] = ['?' as u8];
        assert(lead@ =~= seq!['?' as u8]);
        self.word(lead.as_slice(), name, Tail::Value(value))
    }

    /// Adds the query `?>name=value`: true where the property is greater
    /// than the value.
    pub fn query_gt<N: WordContent + ?Sized, V: WordContent + ?Sized>(
        self,
        key: &N,
        value: &V,
    ) -> (r: Result<Self, EncodingError>)
        ensures
            self.appended(
                r,
                seq!['?' as u8, '>' as u8],
                key.content(),
                TailView::Value(value.content()),
                verdicts(key, Some(value)),
            ),
    {
        let lead: [u8; 2] = ['?' as u8, '>' as u8];
        assert(lead@ =~= seq!['?' as u8, '>' as u8]);
        self.word(lead.as_slice(), key, Tail::Value(value))
    }

    /// Adds the query `?<name=value`: true where the property is less than
    /// the value.
    pub fn query_lt<N: WordContent + ?Sized, V: WordContent + ?Sized>(
        self,
        key: &N,
        value: &V,
    ) -> (r: Result<Self, EncodingError>)
        ensures
            self.appended(
                r,
                seq!['?' as u8, '<' as u8],
                key.content(),
                TailView::Value(value.content()),
                verdicts(key, Some(value)),
            ),
    {
        let lead: [u8; 2] = ['?' as u8, '<' as u8];
        assert(lead@ =~= seq!['?' as u8, '<' as u8]);
        self.word(lead.as_slice(), key, Tail::Value(value))
    }

    /// Adds the query `?#` followed by the operators, which combine the
    /// results of the queries before it.
    ///
    /// Fails only if there are too many operators for one word.
    pub fn query_operations(self, operations: &[QueryOperator]) -> (r: Result<Self, EncodingError>)
        ensures
            self.appended(
                r,
                seq!['?' as u8, '#' as u8],
                operator_codes(operations@),
                TailView::Nothing,
                clean(),
            ),
            operations@.len() + 2 <= u32::MAX ==> r is Ok,
    {
        let mut codes: Vec<u8> = Vec::new();
        let mut i: usize = 0;
        while i < operations.len()
            invariant
                i <= operations@.len(),
                codes@ == operator_codes(operations@.take(i as int)),
            decreases operations@.len() - i,
        {
            proof {
                assert(operations@.take(i + 1).drop_last() =~= operations@.take(i as int));
            }
            codes.push(operations[i].code() as u8);
            i += 1;
        }
        proof {
            assert(operations@.take(i as int) =~= operations@);
            lemma_operator_codes(operations@);
            lemma_ascii_prefix_len(codes@, codes@.len() as int);
        }
        let lead: [u8; 2] = ['?' as u8, '#' as u8];
        assert(lead@ =~= seq!['?' as u8, '#' as u8]);
        self.word::<[u8], [u8]>(lead.as_slice(), codes.as_slice(), Tail::Nothing)
    }

    /// Finalizes the command: closes the sentence with the zero-length word.
    ///
    /// Unless a word is empty, which only the command word can be, the bytes
    /// are one sentence, which reads back as the words that were written.
    pub fn build(self) -> (r: Command)
        ensures
            r.tag == self.spec_tag(),
            r.data@ == encode_sentence(self.words()),
            wire_words(self.words()) ==> is_sentence(r.data@) && items(r.data@) == read_words(
                self.words(),
            ),
    {
        proof {
            use_type_invariant(&self);
            if wire_words(self.words@) {
                lemma_encoded_sentence_is_sentence(self.words@);
                lemma_sentence_round_trip(self.words@, Seq::empty());
                assert(encode_sentence(self.words@) + Seq::<u8>::empty() =~= encode_sentence(
                    self.words@,
                ));
            }
        }
        let Self { tag, mut cmd, .. } = self;
        // Terminate the command
        cmd.write_len(0);
        Command { tag, data: cmd.0 }
    }

    /// Appends one composed word.
    fn word<N: WordContent + ?Sized, V: WordContent + ?Sized>(
        self,
        lead: &[u8],
        name: &N,
        tail: Tail<'_, V>,
    ) -> (r: Result<Self, EncodingError>)
        requires
            lead@.len() <= 8,
        ensures
            self.appended(r, lead@, name.content(), tail@, found_in(name, tail)),
    {
        proof {
            use_type_invariant(&self);
        }
        let Self { tag, mut cmd, words, .. } = self;
        match write_composed(&mut cmd, lead, name, tail) {
            Ok(()) => {},
            Err(e) => {
                return Err(e);
            },
        }
        let ghost word = compose(lead@, name.content(), tail@);
        proof {
            lemma_encode_words_push(words@, word);
        }
        Ok(CommandBuilder { tag, cmd, words: Ghost(words@.push(word)), state: PhantomData })
    }
}

/// The bytes that stand for the operators, in order.
pub open spec fn operator_codes(operations: Seq<QueryOperator>) -> Seq<u8>
    decreases operations.len(),
{
    if operations.len() == 0 {
        Seq::empty()
    } else {
        operator_codes(operations.drop_last()).push(operations.last().code_byte())
    }
}

/// There is one code for each operator, and each is an ASCII character.
pub proof fn lemma_operator_codes(operations: Seq<QueryOperator>)
    ensures
        operator_codes(operations).len() == operations.len(),
        forall|i: int|
            0 <= i < operations.len() ==> #[trigger] operator_codes(operations)[i]
                == operations[i].code_byte(),
        is_ascii_bytes(operator_codes(operations)),
    decreases operations.len(),
{
    if operations.len() > 0 {
        lemma_operator_codes(operations.drop_last());
    }
}

} // verus!
