//! Responses, and how a sentence is read as one.
//!
//! The first word of a response is its category. `!done` and `!empty` are
//! followed by the tag. `!re` and `!trap` carry the tag and attributes in any
//! order; a `!trap` takes only `message`, which it must have, and `category`,
//! a number from 0 to 7. `!fatal` is followed by the reason and has no tag.

use vstd::prelude::*;
use vstd::slice::slice_to_vec;
use vstd::string::StringSliceAdditionalSpecFns;
use vstd::utf8::{encode_utf8, valid_utf8};
use super::error::{
    MissingWord, ProtocolError, ProtocolErrorView, TrapCategoryError, TrapCategoryErrorView,
    WordType,
};
use super::sentence::{
    encode_sentence, items, lemma_sentence_round_trip, read_words, wire_words, Item, Sentence,
    SentenceError,
};
use super::word::{
    capped, decimal_value, digits_of, is_decimal, lemma_attribute_word_reads_back,
    lemma_tag_word_reads_back, parse_number, read_number, separator, tag_word, word_type_of,
    DecimalError, Word, WordCategory, WordView,
};

verus! {

/// The reason that a `!fatal` gives.
pub type FatalResponse = String;

/// The nature of a trap.
#[derive(Debug, Clone, Copy, PartialEq, Eq)]
pub enum TrapCategory {
    /// 0 - missing item or command
    MissingItemOrCommand,
    /// 1 - argument value failure
    ArgumentValueFailure,
    /// 2 - execution of command interrupted
    CommandExecutionInterrupted,
    /// 3 - scripting related failure
    ScriptingFailure,
    /// 4 - general failure
    GeneralFailure,
    /// 5 - API related failure
    APIFailure,
    /// 6 - TTY related failure
    TTYFailure,
    /// 7 - value generated with :return command
    ReturnValue,
}

impl TrapCategory {
    /// The number that stands for the category on the wire.
    pub open spec fn code(self) -> u8 {
        match self {
            TrapCategory::MissingItemOrCommand => 0,
            TrapCategory::ArgumentValueFailure => 1,
            TrapCategory::CommandExecutionInterrupted => 2,
            TrapCategory::ScriptingFailure => 3,
            TrapCategory::GeneralFailure => 4,
            TrapCategory::APIFailure => 5,
            TrapCategory::TTYFailure => 6,
            TrapCategory::ReturnValue => 7,
        }
    }

    /// What the category means, in words.
    pub open spec fn meaning(self) -> Seq<char> {
        match self {
            TrapCategory::MissingItemOrCommand => "Missing item or command"@,
            TrapCategory::ArgumentValueFailure => "Argument value failure"@,
            TrapCategory::CommandExecutionInterrupted => "Command execution interrupted"@,
            TrapCategory::ScriptingFailure => "Scripting failure"@,
            TrapCategory::GeneralFailure => "General failure"@,
            TrapCategory::APIFailure => "API failure"@,
            TrapCategory::TTYFailure => "TTY failure"@,
            TrapCategory::ReturnValue => "Return value"@,
        }
    }

    /// What the category means, in words.
    pub fn description(&self) -> (r: &'static str)
        ensures
            r@ == self.meaning(),
    {
        match self {
            TrapCategory::MissingItemOrCommand => "Missing item or command",
            TrapCategory::ArgumentValueFailure => "Argument value failure",
            TrapCategory::CommandExecutionInterrupted => "Command execution interrupted",
            TrapCategory::ScriptingFailure => "Scripting failure",
            TrapCategory::GeneralFailure => "General failure",
            TrapCategory::APIFailure => "API failure",
            TrapCategory::TTYFailure => "TTY failure",
            TrapCategory::ReturnValue => "Return value",
        }
    }

    /// The category that `n` stands for; there is one for each of 0 to 7.
    pub fn try_from(n: u8) -> (r: Result<TrapCategory, TrapCategoryError>)
        ensures
            n <= 7 ==> r is Ok && r->Ok_0.code() == n,
            n > 7 ==> r == Err::<TrapCategory, TrapCategoryError>(
                TrapCategoryError::OutOfRange(n as u64),
            ),
    {
        match n {
            0 => Ok(TrapCategory::MissingItemOrCommand),
            1 => Ok(TrapCategory::ArgumentValueFailure),
            2 => Ok(TrapCategory::CommandExecutionInterrupted),
            3 => Ok(TrapCategory::ScriptingFailure),
            4 => Ok(TrapCategory::GeneralFailure),
            5 => Ok(TrapCategory::APIFailure),
            6 => Ok(TrapCategory::TTYFailure),
            7 => Ok(TrapCategory::ReturnValue),
            n => Err(TrapCategoryError::OutOfRange(n as u64)),
        }
    }

    /// The number that stands for the category on the wire.
    pub fn to_u8(&self) -> (n: u8)
        ensures
            n == self.code(),
    {
        match self {
            TrapCategory::MissingItemOrCommand => 0,
            TrapCategory::ArgumentValueFailure => 1,
            TrapCategory::CommandExecutionInterrupted => 2,
            TrapCategory::ScriptingFailure => 3,
            TrapCategory::GeneralFailure => 4,
            TrapCategory::APIFailure => 5,
            TrapCategory::TTYFailure => 6,
            TrapCategory::ReturnValue => 7,
        }
    }

    /// Reads the value of a `category` attribute: a decimal number from 0 to
    /// 7. Any larger number is out of range; text that is no decimal number
    /// is invalid.
    pub fn parse(text: &[u8]) -> (r: Result<TrapCategory, TrapCategoryError>)
        ensures
            match category_of_text(text@) {
                Ok(c) => r == Ok::<TrapCategory, TrapCategoryError>(c),
                Err(e) => r is Err && r->Err_0@ == e,
            },
    {
        match read_number(text) {
            Ok(n) => if n <= 7 {
                TrapCategory::try_from(n as u8)
            } else {
                Err(TrapCategoryError::OutOfRange(n))
            },
            Err(e) => Err(TrapCategoryError::Invalid(e)),
        }
    }
}

/// The category whose code is `n`.
pub open spec fn category_with_code(n: u8) -> TrapCategory
    recommends
        n <= 7,
{
    if n == 0 {
        TrapCategory::MissingItemOrCommand
    } else if n == 1 {
        TrapCategory::ArgumentValueFailure
    } else if n == 2 {
        TrapCategory::CommandExecutionInterrupted
    } else if n == 3 {
        TrapCategory::ScriptingFailure
    } else if n == 4 {
        TrapCategory::GeneralFailure
    } else if n == 5 {
        TrapCategory::APIFailure
    } else if n == 6 {
        TrapCategory::TTYFailure
    } else {
        TrapCategory::ReturnValue
    }
}

/// What the value of a `category` attribute stands for: the category, if
/// the value is a decimal number from 0 to 7. A decimal number above 7 is
/// out of range, however large it is; only a value that is no decimal number
/// is invalid.
pub open spec fn category_of_text(text: Seq<u8>) -> Result<TrapCategory, TrapCategoryErrorView> {
    match parse_number(text) {
        Err(e) => Err(TrapCategoryErrorView::Invalid(e)),
        Ok(n) => if n > 7 {
            Err(TrapCategoryErrorView::OutOfRange(capped(n)))
        } else {
            Ok(category_with_code(n as u8))
        },
    }
}

/// A `category` that is a decimal number above 7 is out of range, whatever
/// its size.
pub proof fn lemma_category_out_of_range(text: Seq<u8>)
    requires
        is_decimal(text),
        decimal_value(digits_of(text)) > 7,
    ensures
        category_of_text(text) == Err::<TrapCategory, TrapCategoryErrorView>(
            TrapCategoryErrorView::OutOfRange(capped(decimal_value(digits_of(text)))),
        ),
{
    assert(text.len() > 0);
}

/// One attribute of a reply.
#[derive(Debug, Clone, PartialEq, Eq)]
pub struct ReplyAttribute {
    /// The key.
    pub key: String,
    /// The value, byte for byte; `None` where the word has no second `=`.
    pub value: Option<Vec<u8>>,
}

impl ReplyAttribute {
    /// The value as text, where it is there and is valid UTF-8.
    pub fn text(&self) -> (r: Option<&str>)
        ensures
            match text_of(self.value_bytes()) {
                Some(bytes) => r is Some && r->0.spec_bytes() == bytes,
                None => r is None,
            },
    {
        match &self.value {
            Some(v) => crate::protocol::string::utf8_text(v.as_slice()),
            None => None,
        }
    }

    /// The key, in bytes.
    pub open spec fn key_bytes(&self) -> Seq<u8> {
        encode_utf8(self.key@)
    }

    /// The value, in bytes.
    pub open spec fn value_bytes(&self) -> Option<Seq<u8>> {
        match self.value {
            Some(v) => Some(v@),
            None => None,
        }
    }
}

/// The keys of `entries`, in order.
pub open spec fn keys_of(entries: Seq<ReplyAttribute>) -> Seq<Seq<u8>> {
    entries.map_values(|e: ReplyAttribute| e.key_bytes())
}

/// The attributes of a reply: a mapping from keys to optional values, in
/// which no key occurs twice.
#[derive(Debug, PartialEq, Eq)]
pub struct AttributeMap {
    entries: Vec<ReplyAttribute>,
}

impl Clone for AttributeMap {
    fn clone(&self) -> (r: Self)
        ensures
            r@ == self@,
            keys_of(r.spec_entries()) == keys_of(self.spec_entries()),
    {
        proof {
            use_type_invariant(self);
        }
        let mut entries: Vec<ReplyAttribute> = Vec::new();
        let mut i: usize = 0;
        while i < self.entries.len()
            invariant
                i <= self.entries@.len(),
                entries@.len() == i,
                forall|j: int|
                    0 <= j < i ==> (#[trigger] entries@[j]).key_bytes()
                        == self.entries@[j].key_bytes() && entries@[j].value_bytes()
                        == self.entries@[j].value_bytes(),
            decreases self.entries@.len() - i,
        {
            let entry = &self.entries[i];
            let value = match &entry.value {
                Some(v) => Some(slice_to_vec(v.as_slice())),
                None => None,
            };
            entries.push(ReplyAttribute { key: entry.key.clone(), value });
            i += 1;
        }
        proof {
            assert(keys_of(entries@) =~= keys_of(self.entries@));
            lemma_map_of_same(entries@, self.entries@);
        }
        AttributeMap { entries }
    }
}

/// Entries with the same keys and values stand for the same mapping.
proof fn lemma_map_of_same(a: Seq<ReplyAttribute>, b: Seq<ReplyAttribute>)
    requires
        a.len() == b.len(),
        forall|j: int|
            0 <= j < a.len() ==> (#[trigger] a[j]).key_bytes() == b[j].key_bytes()
                && a[j].value_bytes() == b[j].value_bytes(),
    ensures
        map_of(a) == map_of(b),
    decreases a.len(),
{
    if a.len() > 0 {
        assert(a.last().key_bytes() == b.last().key_bytes());
        lemma_map_of_same(a.drop_last(), b.drop_last());
    }
}

impl AttributeMap {
    #[verifier::type_invariant]
    spec fn distinct_keys(self) -> bool {
        keys_of(self.entries@).no_duplicates()
    }

    /// The entries, in the order in which their keys first came.
    pub closed spec fn spec_entries(&self) -> Seq<ReplyAttribute> {
        self.entries@
    }

    /// A mapping without entries.
    pub fn new() -> (r: Self)
        ensures
            r@ == Map::<Seq<u8>, Option<Seq<u8>>>::empty(),
            r.spec_entries().len() == 0,
    {
        AttributeMap { entries: Vec::new() }
    }

    /// Number of entries, which is the number of distinct keys.
    pub fn len(&self) -> (n: usize)
        ensures
            n == self@.len(),
            n == self.spec_entries().len(),
            self@.dom().finite(),
    {
        proof {
            use_type_invariant(self);
            lemma_map_of(self.entries@);
        }
        self.entries.len()
    }

    /// The entries, in the order in which their keys first came: no key
    /// occurs twice, and together they make up the mapping.
    pub fn entries(&self) -> (r: &[ReplyAttribute])
        ensures
            r@ == self.spec_entries(),
            keys_of(r@).no_duplicates(),
            map_of(r@) == self@,
    {
        proof {
            use_type_invariant(self);
        }
        self.entries.as_slice()
    }

    /// Where the entry for `key` stands.
    fn position(&self, key: &str) -> (r: Option<usize>)
        ensures
            match r {
                Some(i) => i < self.entries@.len() && self.entries@[i as int].key_bytes()
                    == key.spec_bytes(),
                None => forall|j: int|
                    0 <= j < self.entries@.len() ==> (#[trigger] self.entries@[j]).key_bytes()
                        != key.spec_bytes(),
            },
    {
        let mut i: usize = 0;
        while i < self.entries.len()
            invariant
                i <= self.entries@.len(),
                forall|j: int|
                    0 <= j < i ==> (#[trigger] self.entries@[j]).key_bytes() != key.spec_bytes(),
            decreases self.entries@.len() - i,
        {
            if bytes_eq(self.entries[i].key.as_str().as_bytes(), key.as_bytes()) {
                return Some(i);
            }
            i += 1;
        }
        None
    }

    /// The entry for `key`, if there is one.
    pub fn get(&self, key: &str) -> (r: Option<&ReplyAttribute>)
        ensures
            match r {
                Some(entry) => {
                    &&& self@.contains_key(key.spec_bytes())
                    &&& entry.key_bytes() == key.spec_bytes()
                    &&& entry.value_bytes() == self@[key.spec_bytes()]
                },
                None => !self@.contains_key(key.spec_bytes()),
            },
    {
        proof {
            use_type_invariant(self);
            lemma_map_of(self.entries@);
        }
        match self.position(key) {
            Some(i) => Some(&self.entries[i]),
            None => None,
        }
    }

    /// Sets the value for `key`; a value that was there before is replaced.
    /// A key that is new comes behind the keys that are there; a key that is
    /// there keeps its place.
    pub fn insert(&mut self, key: String, value: Option<Vec<u8>>)
        ensures
            final(self)@ == old(self)@.insert(
                encode_utf8(key@),
                match value {
                    Some(v) => Some(v@),
                    None => None,
                },
            ),
            keys_of(final(self).spec_entries()) == (if old(self)@.contains_key(encode_utf8(key@)) {
                keys_of(old(self).spec_entries())
            } else {
                keys_of(old(self).spec_entries()).push(encode_utf8(key@))
            }),
    {
        proof {
            use_type_invariant(&*self);
            lemma_map_of(self.entries@);
        }
        let ghost before = self.entries@;
        let entry = ReplyAttribute { key, value };
        let found = self.position(entry.key.as_str());
        let mut entries: Vec<ReplyAttribute> = Vec::new();
        proof {
            assert(keys_of(entries@) =~= Seq::<Seq<u8>>::empty());
        }
        core::mem::swap(&mut self.entries, &mut entries);
        match found {
            Some(i) => {
                entries.set(i, entry);
                proof {
                    let after = entries@;
                    assert(keys_of(after) =~= keys_of(before));
                    assert(map_of(before).contains_key(before[i as int].key_bytes()));
                    lemma_map_of(after);
                    assert(map_of(after) =~= map_of(before).insert(
                        entry.key_bytes(),
                        entry.value_bytes(),
                    )) by {
                        assert forall|k: Seq<u8>|
                            map_of(after).contains_key(k) <==> map_of(before).insert(
                                entry.key_bytes(),
                                entry.value_bytes(),
                            ).contains_key(k) by {
                            if map_of(after).contains_key(k) {
                                let j = choose|j: int|
                                    0 <= j < after.len() && #[trigger] after[j].key_bytes() == k;
                                assert(keys_of(after)[j] == keys_of(before)[j]);
                                assert(before[j].key_bytes() == k);
                            }
                            if map_of(before).contains_key(k) {
                                let j = choose|j: int|
                                    0 <= j < before.len() && #[trigger] before[j].key_bytes() == k;
                                assert(keys_of(after)[j] == keys_of(before)[j]);
                                assert(after[j].key_bytes() == k);
                            }
                            if k == entry.key_bytes() {
                                assert(after[i as int].key_bytes() == k);
                            }
                        }
                        let wanted = map_of(before).insert(entry.key_bytes(), entry.value_bytes());
                        assert forall|k: Seq<u8>| map_of(after).contains_key(k) implies map_of(
                            after,
                        )[k] == wanted[k] by {
                            let j = choose|j: int|
                                0 <= j < after.len() && #[trigger] after[j].key_bytes() == k;
                            assert(keys_of(after)[j] == keys_of(before)[j]);
                            if j != i {
                                assert(before[j] == after[j]);
                                assert(keys_of(before)[i as int] == before[i as int].key_bytes());
                                assert(keys_of(before)[j] == before[j].key_bytes());
                            }
                        }
                    }
                }
            },
            None => {
                entries.push(entry);
                proof {
                    let after = entries@;
                    assert(after.drop_last() =~= before);
                    assert(keys_of(after) =~= keys_of(before).push(entry.key_bytes()));
                    assert(!map_of(before).contains_key(entry.key_bytes())) by {
                        if map_of(before).contains_key(entry.key_bytes()) {
                            let j = choose|j: int|
                                0 <= j < before.len() && #[trigger] before[j].key_bytes()
                                    == entry.key_bytes();
                            assert(before[j].key_bytes() == entry.key_bytes());
                        }
                    }
                    assert forall|a: int, b: int|
                        0 <= a < after.len() && 0 <= b < after.len() && a != b implies keys_of(
                        after,
                    )[a] != keys_of(after)[b] by {
                        if a < before.len() {
                            assert(keys_of(before)[a] == before[a].key_bytes());
                        }
                        if b < before.len() {
                            assert(keys_of(before)[b] == before[b].key_bytes());
                        }
                    }
                }
            },
        }
        core::mem::swap(&mut self.entries, &mut entries);
    }
}

/// Whether two byte slices hold the same bytes.
pub fn bytes_eq(a: &[u8], b: &[u8]) -> (r: bool)
    ensures
        r == (a@ == b@),
{
    if a.len() != b.len() {
        return false;
    }
    let mut i: usize = 0;
    while i < a.len()
        invariant
            a@.len() == b@.len(),
            i <= a@.len(),
            forall|j: int| 0 <= j < i ==> a@[j] == b@[j],
        decreases a@.len() - i,
    {
        if a[i] != b[i] {
            return false;
        }
        i += 1;
    }
    assert(a@ =~= b@);
    true
}

impl View for AttributeMap {
    type V = Map<Seq<u8>, Option<Seq<u8>>>;

    closed spec fn view(&self) -> Map<Seq<u8>, Option<Seq<u8>>> {
        map_of(self.entries@)
    }
}

/// The mapping that `entries` stand for; a later entry replaces an earlier one
/// with the same key.
pub open spec fn map_of(entries: Seq<ReplyAttribute>) -> Map<Seq<u8>, Option<Seq<u8>>>
    decreases entries.len(),
{
    if entries.len() == 0 {
        Map::empty()
    } else {
        map_of(entries.drop_last()).insert(entries.last().key_bytes(), entries.last().value_bytes())
    }
}

/// What `map_of` holds, entry by entry.
pub proof fn lemma_map_of(entries: Seq<ReplyAttribute>)
    requires
        keys_of(entries).no_duplicates(),
    ensures
        forall|i: int|
            0 <= i < entries.len() ==> map_of(entries).contains_key(
                #[trigger] entries[i].key_bytes(),
            ) && map_of(entries)[entries[i].key_bytes()] == entries[i].value_bytes(),
        forall|k: Seq<u8>| #[trigger]
            map_of(entries).contains_key(k) ==> exists|i: int|
                0 <= i < entries.len() && #[trigger] entries[i].key_bytes() == k,
        map_of(entries).dom().finite(),
        map_of(entries).len() == entries.len(),
    decreases entries.len(),
{
    if entries.len() > 0 {
        let front = entries.drop_last();
        let last = entries.last();
        assert forall|i: int, j: int|
            0 <= i < front.len() && 0 <= j < front.len() && i != j implies keys_of(front)[i]
            != keys_of(front)[j] by {
            assert(keys_of(entries)[i] == keys_of(front)[i]);
            assert(keys_of(entries)[j] == keys_of(front)[j]);
        }
        lemma_map_of(front);
        assert forall|i: int| 0 <= i < entries.len() implies map_of(entries).contains_key(
            #[trigger] entries[i].key_bytes(),
        ) && map_of(entries)[entries[i].key_bytes()] == entries[i].value_bytes() by {
            if i < front.len() {
                assert(front[i] == entries[i]);
                assert(keys_of(entries)[i] == entries[i].key_bytes());
                assert(keys_of(entries)[entries.len() - 1] == last.key_bytes());
            }
        }
        assert forall|k: Seq<u8>| #[trigger] map_of(entries).contains_key(k) implies exists|i: int|
            0 <= i < entries.len() && #[trigger] entries[i].key_bytes() == k by {
            if k == last.key_bytes() {
                assert(entries[entries.len() - 1].key_bytes() == k);
            } else {
                let i = choose|i: int| 0 <= i < front.len() && #[trigger] front[i].key_bytes() == k;
                assert(entries[i].key_bytes() == k);
            }
        }
        if map_of(front).contains_key(last.key_bytes()) {
            let i = choose|i: int|
                0 <= i < front.len() && #[trigger] front[i].key_bytes() == last.key_bytes();
            assert(keys_of(entries)[i] == front[i].key_bytes());
            assert(keys_of(entries)[entries.len() - 1] == last.key_bytes());
        }
    }
}

/// A command has finished.
#[derive(Debug, Clone, PartialEq, Eq)]
pub struct DoneResponse {
    /// The tag associated with the command.
    pub tag: u16,
}

/// A command has finished and had nothing to reply.
#[derive(Debug, Clone, PartialEq, Eq)]
pub struct EmptyResponse {
    /// The tag associated with the command.
    pub tag: u16,
}

/// One reply to a command; more may follow.
#[derive(Debug, Clone, PartialEq, Eq)]
pub struct ReplyResponse {
    /// The tag associated with the command.
    pub tag: u16,
    /// The attributes of the reply.
    pub attributes: AttributeMap,
}

/// A command has failed; nothing more follows for it.
#[derive(Debug, Clone, PartialEq, Eq)]
pub struct TrapResponse {
    /// The tag associated with the command.
    pub tag: u16,
    /// The category of the trap.
    pub category: Option<TrapCategory>,
    /// The message associated with the trap.
    pub message: String,
}

/// What the router answers to a command.
#[derive(Debug, Clone, PartialEq, Eq)]
pub enum CommandResponse {
    /// The command has finished.
    Done(DoneResponse),
    /// One reply to the command.
    Reply(ReplyResponse),
    /// The command has failed.
    Trap(TrapResponse),
    /// The connection has failed; this ends every command.
    Fatal(FatalResponse),
    /// The command has finished without a reply.
    Empty(EmptyResponse),
}

/// [`CommandResponse`], with bytes in place of text.
pub enum ResponseView {
    Done { tag: u16 },
    Reply { tag: u16, attributes: Map<Seq<u8>, Option<Seq<u8>>> },
    Trap { tag: u16, category: Option<TrapCategory>, message: Seq<u8> },
    Fatal { reason: Seq<u8> },
    Empty { tag: u16 },
}

impl ResponseView {
    /// The tag of the command that the response belongs to; a `!fatal` has
    /// none.
    pub open spec fn tag(self) -> Option<u16> {
        match self {
            ResponseView::Done { tag } => Some(tag),
            ResponseView::Reply { tag, .. } => Some(tag),
            ResponseView::Trap { tag, .. } => Some(tag),
            ResponseView::Fatal { .. } => None,
            ResponseView::Empty { tag } => Some(tag),
        }
    }

    /// The response is the last one for its command.
    pub open spec fn is_terminal(self) -> bool {
        !(self is Reply)
    }
}

impl View for CommandResponse {
    type V = ResponseView;

    open spec fn view(&self) -> ResponseView {
        match self {
            CommandResponse::Done(d) => ResponseView::Done { tag: d.tag },
            CommandResponse::Reply(r) => ResponseView::Reply {
                tag: r.tag,
                attributes: r.attributes@,
            },
            CommandResponse::Trap(t) => ResponseView::Trap {
                tag: t.tag,
                category: t.category,
                message: encode_utf8(t.message@),
            },
            CommandResponse::Fatal(reason) => ResponseView::Fatal { reason: encode_utf8(reason@) },
            CommandResponse::Empty(e) => ResponseView::Empty { tag: e.tag },
        }
    }
}

/// What the words behind `!re` or `!trap` have given so far.
pub struct Fields {
    pub tag: Option<u16>,
    pub attributes: Map<Seq<u8>, Option<Seq<u8>>>,
    pub category: Option<TrapCategory>,
    pub message: Option<Seq<u8>>,
}

/// The text view of an attribute value: the value itself where it is there
/// and is valid UTF-8.
pub open spec fn text_of(value: Option<Seq<u8>>) -> Option<Seq<u8>> {
    match value {
        Some(v) => if valid_utf8(v) {
            Some(v)
        } else {
            None
        },
        None => None,
    }
}

/// The key `category`.
pub open spec fn category_key() -> Seq<u8> {
    seq!['c' as u8, 'a' as u8, 't' as u8, 'e' as u8, 'g' as u8, 'o' as u8, 'r' as u8, 'y' as u8]
}

/// The key `message`.
pub open spec fn message_key() -> Seq<u8> {
    seq!['m' as u8, 'e' as u8, 's' as u8, 's' as u8, 'a' as u8, 'g' as u8, 'e' as u8]
}

/// The kinds of word that may follow `!re` and `!trap`.
pub open spec fn tag_or_attribute() -> Seq<WordType> {
    seq![WordType::Tag, WordType::Attribute]
}

/// Takes one more word behind `!re` (or behind `!trap`, where `trap` is set).
///
/// A tag replaces the tag. Behind `!re` an attribute is put into the mapping.
/// Behind `!trap` the attribute `category` sets the category from its text
/// value, or clears it where there is none; `message` sets the message
/// likewise; any other key is refused.
pub open spec fn scan_step(trap: bool, fields: Fields, item: Item) -> Result<
    Fields,
    ProtocolErrorView,
> {
    match item {
        Err(e) => Err(ProtocolErrorView::Sentence(e)),
        Ok(WordView::Tag(tag)) => Ok(Fields { tag: Some(tag), ..fields }),
        Ok(WordView::Attribute { key, value }) => if !trap {
            Ok(Fields { attributes: fields.attributes.insert(key, value), ..fields })
        } else if key == category_key() {
            match text_of(value) {
                None => Ok(Fields { category: None, ..fields }),
                Some(text) => match category_of_text(text) {
                    Ok(category) => Ok(Fields { category: Some(category), ..fields }),
                    Err(e) => Err(ProtocolErrorView::TrapCategory(e)),
                },
            }
        } else if key == message_key() {
            Ok(Fields { message: text_of(value), ..fields })
        } else {
            Err(
                ProtocolErrorView::TrapCategory(
                    TrapCategoryErrorView::InvalidAttribute { key, value: text_of(value) },
                ),
            )
        },
        Ok(word) => Err(
            ProtocolErrorView::WordSequence {
                word: word_type_of(word),
                expected: tag_or_attribute(),
            },
        ),
    }
}

/// Nothing found yet.
pub open spec fn no_fields() -> Fields {
    Fields { tag: None, attributes: Map::empty(), category: None, message: None }
}

/// Takes the words behind `!re` or `!trap` one by one; the first that is
/// refused decides the error.
pub open spec fn scan(trap: bool, items: Seq<Item>) -> Result<Fields, ProtocolErrorView>
    decreases items.len(),
{
    if items.len() == 0 {
        Ok(no_fields())
    } else {
        match scan(trap, items.drop_last()) {
            Err(e) => Err(e),
            Ok(fields) => scan_step(trap, fields, items.last()),
        }
    }
}

/// The first of the words behind the category, where there must be one:
/// `which` is reported if it is not there.
pub open spec fn first_word(rest: Seq<Item>, which: MissingWord) -> Result<
    WordView,
    ProtocolErrorView,
> {
    if rest.len() == 0 {
        Err(ProtocolErrorView::Incomplete(which))
    } else {
        match rest[0] {
            Err(e) => Err(ProtocolErrorView::Sentence(e)),
            Ok(word) => Ok(word),
        }
    }
}

/// The tag that follows `!done` or `!empty`; words behind it are not read.
pub open spec fn single_tag(rest: Seq<Item>) -> Result<u16, ProtocolErrorView> {
    match first_word(rest, MissingWord::Tag) {
        Err(e) => Err(e),
        Ok(WordView::Tag(tag)) => Ok(tag),
        Ok(word) => Err(
            ProtocolErrorView::WordSequence {
                word: word_type_of(word),
                expected: seq![WordType::Tag],
            },
        ),
    }
}

/// The reply that the words behind `!re` make up: they must hold a tag.
pub open spec fn reply_of(rest: Seq<Item>) -> Result<ResponseView, ProtocolErrorView> {
    match scan(false, rest) {
        Err(e) => Err(e),
        Ok(fields) => match fields.tag {
            None => Err(ProtocolErrorView::Incomplete(MissingWord::Tag)),
            Some(tag) => Ok(ResponseView::Reply { tag, attributes: fields.attributes }),
        },
    }
}

/// The trap that the words behind `!trap` make up: they must hold a tag
/// and a message; a missing tag is reported first.
pub open spec fn trap_of(rest: Seq<Item>) -> Result<ResponseView, ProtocolErrorView> {
    match scan(true, rest) {
        Err(e) => Err(e),
        Ok(fields) => match fields.tag {
            None => Err(ProtocolErrorView::Incomplete(MissingWord::Tag)),
            Some(tag) => match fields.message {
                None => Err(
                    ProtocolErrorView::TrapCategory(TrapCategoryErrorView::MissingMessageAttribute),
                ),
                Some(message) => Ok(ResponseView::Trap { tag, category: fields.category, message }),
            },
        },
    }
}

/// The fatal response that the words behind `!fatal` make up: the first must
/// be the reason; words behind it are not read.
pub open spec fn fatal_of(rest: Seq<Item>) -> Result<ResponseView, ProtocolErrorView> {
    match first_word(rest, MissingWord::Message) {
        Err(e) => Err(e),
        Ok(WordView::Message(reason)) => Ok(ResponseView::Fatal { reason }),
        Ok(word) => Err(
            ProtocolErrorView::WordSequence {
                word: word_type_of(word),
                expected: seq![WordType::Message],
            },
        ),
    }
}

/// The response of the given category that the words behind the category
/// make up.
pub open spec fn response_of(category: WordCategory, rest: Seq<Item>) -> Result<
    ResponseView,
    ProtocolErrorView,
> {
    match category {
        WordCategory::Done => match single_tag(rest) {
            Ok(tag) => Ok(ResponseView::Done { tag }),
            Err(e) => Err(e),
        },
        WordCategory::Empty => match single_tag(rest) {
            Ok(tag) => Ok(ResponseView::Empty { tag }),
            Err(e) => Err(e),
        },
        WordCategory::Reply => reply_of(rest),
        WordCategory::Trap => trap_of(rest),
        WordCategory::Fatal => fatal_of(rest),
    }
}

/// The response that the words of a sentence make up, or why they make up
/// none: the first word must be a category.
pub open spec fn parse_response(items: Seq<Item>) -> Result<ResponseView, ProtocolErrorView> {
    if items.len() == 0 {
        Err(ProtocolErrorView::Incomplete(MissingWord::Category))
    } else {
        match items[0] {
            Err(e) => Err(ProtocolErrorView::Sentence(e)),
            Ok(WordView::Category(category)) => response_of(category, items.drop_first()),
            Ok(word) => Err(
                ProtocolErrorView::WordSequence {
                    word: word_type_of(word),
                    expected: seq![WordType::Category],
                },
            ),
        }
    }
}

/// Once a word has been refused, the words behind it change nothing.
pub proof fn lemma_scan_error_stable(trap: bool, items: Seq<Item>, more: Seq<Item>)
    requires
        scan(trap, items) is Err,
    ensures
        scan(trap, items + more) == scan(trap, items),
    decreases more.len(),
{
    if more.len() == 0 {
        assert(items + more =~= items);
    } else {
        lemma_scan_error_stable(trap, items, more.drop_last());
        assert((items + more).drop_last() =~= items + more.drop_last());
    }
}

/// A sentence whose first word can be read and is no category is refused for
/// that reason, whatever follows.
pub proof fn lemma_category_comes_first(items: Seq<Item>)
    requires
        items.len() > 0,
        items[0] is Ok,
        !(items[0]->Ok_0 is Category),
    ensures
        parse_response(items) == Err::<ResponseView, ProtocolErrorView>(
            ProtocolErrorView::WordSequence {
                word: word_type_of(items[0]->Ok_0),
                expected: seq![WordType::Category],
            },
        ),
{
}

/// A `!trap` whose words can all be taken, and which holds a tag but gives no
/// message, is refused for the missing message.
pub proof fn lemma_trap_needs_message(items: Seq<Item>)
    requires
        items.len() > 0,
        items[0] == Ok::<WordView, SentenceError>(WordView::Category(WordCategory::Trap)),
        scan(true, items.drop_first()) matches Ok(fields) && fields.tag is Some && fields.message
            is None,
    ensures
        parse_response(items) == Err::<ResponseView, ProtocolErrorView>(
            ProtocolErrorView::TrapCategory(TrapCategoryErrorView::MissingMessageAttribute),
        ),
{
}

/// The item that reading the attribute word `=key=value` gives.
pub open spec fn attribute_item(key: Seq<u8>, value: Option<Seq<u8>>) -> Item {
    Ok(WordView::Attribute { key, value })
}

/// Whether reading gave an attribute word.
pub open spec fn is_attribute(item: Item) -> bool {
    item is Ok && item->Ok_0 is Attribute
}

/// The key of the attribute word at place `i`.
pub open spec fn key_at(rest: Seq<Item>, i: int) -> Seq<u8> {
    rest[i]->Ok_0->key
}

/// The value of the attribute word at place `i`.
pub open spec fn value_at(rest: Seq<Item>, i: int) -> Option<Seq<u8>> {
    rest[i]->Ok_0->value
}

/// The words behind a `!re`: the tag at place `at`, an attribute at every
/// other place, and no key twice.
pub open spec fn reply_words(rest: Seq<Item>, at: int, tag: u16) -> bool {
    &&& 0 <= at < rest.len()
    &&& rest[at] == Ok::<WordView, SentenceError>(WordView::Tag(tag))
    &&& forall|i: int| 0 <= i < rest.len() && i != at ==> is_attribute(#[trigger] rest[i])
    &&& forall|i: int, j: int|
        0 <= i < j < rest.len() && i != at && j != at ==> #[trigger] key_at(rest, i)
            != #[trigger] key_at(rest, j)
}

/// The mapping that the attribute words among the first `n` words make up.
pub open spec fn collected(rest: Seq<Item>, at: int, n: int) -> Map<Seq<u8>, Option<Seq<u8>>>
    decreases n,
{
    if n <= 0 {
        Map::empty()
    } else if n - 1 == at {
        collected(rest, at, n - 1)
    } else {
        collected(rest, at, n - 1).insert(key_at(rest, n - 1), value_at(rest, n - 1))
    }
}

/// What the first `n` words behind a `!re` give: the tag, once it has come,
/// and the attributes so far.
proof fn lemma_scan_collects(rest: Seq<Item>, at: int, tag: u16, n: int)
    requires
        0 <= at < rest.len(),
        rest[at] == Ok::<WordView, SentenceError>(WordView::Tag(tag)),
        forall|i: int| 0 <= i < rest.len() && i != at ==> is_attribute(#[trigger] rest[i]),
        0 <= n <= rest.len(),
    ensures
        scan(false, rest.take(n)) == Ok::<Fields, ProtocolErrorView>(
            Fields {
                tag: if at < n {
                    Some(tag)
                } else {
                    None
                },
                attributes: collected(rest, at, n),
                category: None,
                message: None,
            },
        ),
    decreases n,
{
    if n > 0 {
        lemma_scan_collects(rest, at, tag, n - 1);
        let longer = rest.take(n);
        assert(longer.drop_last() =~= rest.take(n - 1));
        assert(longer.last() == rest[n - 1]);
        if n - 1 != at {
            assert(is_attribute(rest[n - 1]));
        }
    }
}

/// The attributes that were collected are those of the attribute words, one
/// entry for each.
proof fn lemma_collected(rest: Seq<Item>, at: int, tag: u16, n: int)
    requires
        reply_words(rest, at, tag),
        0 <= n <= rest.len(),
    ensures
        collected(rest, at, n).dom().finite(),
        collected(rest, at, n).len() == (if at < n {
            n - 1
        } else {
            n
        }),
        forall|i: int|
            0 <= i < n && i != at ==> collected(rest, at, n).contains_key(
                #[trigger] key_at(rest, i),
            ) && collected(rest, at, n)[key_at(rest, i)] == value_at(rest, i),
        forall|k: Seq<u8>| #[trigger]
            collected(rest, at, n).contains_key(k) ==> exists|i: int|
                0 <= i < n && i != at && #[trigger] key_at(rest, i) == k,
    decreases n,
{
    if n > 0 {
        lemma_collected(rest, at, tag, n - 1);
        if n - 1 != at {
            let before = collected(rest, at, n - 1);
            let after = collected(rest, at, n);
            let key = key_at(rest, n - 1);
            assert(!before.contains_key(key)) by {
                if before.contains_key(key) {
                    let i = choose|i: int|
                        0 <= i < n - 1 && i != at && #[trigger] key_at(rest, i) == key;
                    assert(key_at(rest, i) != key_at(rest, n - 1));
                }
            }
            assert forall|k: Seq<u8>| #[trigger] after.contains_key(k) implies exists|i: int|
                0 <= i < n && i != at && #[trigger] key_at(rest, i) == k by {
                if k == key {
                    assert(key_at(rest, n - 1) == k);
                } else {
                    let i = choose|i: int|
                        0 <= i < n - 1 && i != at && #[trigger] key_at(rest, i) == k;
                    assert(key_at(rest, i) == k);
                }
            }
            assert forall|i: int| 0 <= i < n && i != at implies after.contains_key(
                #[trigger] key_at(rest, i),
            ) && after[key_at(rest, i)] == value_at(rest, i) by {
                if i < n - 1 {
                    assert(key_at(rest, i) != key_at(rest, n - 1));
                }
            }
        }
    }
}

/// A `!re` with one tag and attributes under distinct keys, in any order, is
/// read as the reply with that tag and with exactly those attributes: one
/// entry for each attribute word, which holds its value, and no other.
pub proof fn lemma_reply_holds_its_attributes(rest: Seq<Item>, at: int, tag: u16)
    requires
        reply_words(rest, at, tag),
    ensures
        parse_response(
            seq![Ok::<WordView, SentenceError>(WordView::Category(WordCategory::Reply))] + rest,
        ) == Ok::<ResponseView, ProtocolErrorView>(
            ResponseView::Reply { tag, attributes: collected(rest, at, rest.len() as int) },
        ),
        collected(rest, at, rest.len() as int).dom().finite(),
        collected(rest, at, rest.len() as int).len() == rest.len() - 1,
        forall|i: int|
            0 <= i < rest.len() && i != at ==> collected(
                rest,
                at,
                rest.len() as int,
            ).contains_key(#[trigger] key_at(rest, i)) && collected(
                rest,
                at,
                rest.len() as int,
            )[key_at(rest, i)] == value_at(rest, i),
{
    let first = Ok::<WordView, SentenceError>(WordView::Category(WordCategory::Reply));
    let whole = seq![first] + rest;
    assert(parse_response(whole) == reply_of(rest)) by {
        assert(whole[0] == first);
        assert(whole.drop_first() =~= rest);
    }
    assert(reply_of(rest) == Ok::<ResponseView, ProtocolErrorView>(
        ResponseView::Reply { tag, attributes: collected(rest, at, rest.len() as int) },
    )) by {
        assert(rest.take(rest.len() as int) =~= rest);
        lemma_scan_collects(rest, at, tag, rest.len() as int);
    }
    lemma_collected(rest, at, tag, rest.len() as int);
}

/// The words of a reply on the wire: `!re`, the tag word, and one word
/// `=key=value` for each attribute.
pub open spec fn reply_sentence(tag: u16, attributes: Seq<(Seq<u8>, Seq<u8>)>) -> Seq<Seq<u8>> {
    seq![WordCategory::Reply.token(), tag_word(tag)] + Seq::new(
        attributes.len(),
        |i: int| seq![separator()] + attributes[i].0 + seq![separator()] + attributes[i].1,
    )
}

/// Keys that can stand in an attribute word and be found again: each is
/// valid UTF-8 and holds no `=`, no two are the same, and each word fits a
/// length prefix.
pub open spec fn sound_attributes(attributes: Seq<(Seq<u8>, Seq<u8>)>) -> bool {
    &&& forall|i: int|
        0 <= i < attributes.len() ==> valid_utf8((#[trigger] attributes[i]).0)
            && !attributes[i].0.contains(separator()) && attributes[i].0.len()
            + attributes[i].1.len() + 2 <= u32::MAX
    &&& forall|i: int, j: int|
        0 <= i < j < attributes.len() ==> (#[trigger] attributes[i]).0 != (
        #[trigger] attributes[j]).0
}

/// What reading the words of a reply gives: the category, the tag, and the
/// attributes in their order.
proof fn lemma_reply_sentence_items(tag: u16, attributes: Seq<(Seq<u8>, Seq<u8>)>)
    requires
        sound_attributes(attributes),
    ensures
        items(encode_sentence(reply_sentence(tag, attributes))) == seq![
            Ok::<WordView, SentenceError>(WordView::Category(WordCategory::Reply)),
            Ok::<WordView, SentenceError>(WordView::Tag(tag)),
        ] + Seq::new(
            attributes.len(),
            |i: int| attribute_item(attributes[i].0, Some(attributes[i].1)),
        ),
{
    let words = reply_sentence(tag, attributes);
    let expected = seq![
        Ok::<WordView, SentenceError>(WordView::Category(WordCategory::Reply)),
        Ok::<WordView, SentenceError>(WordView::Tag(tag)),
    ] + Seq::new(attributes.len(), |i: int| attribute_item(attributes[i].0, Some(attributes[i].1)));
    lemma_tag_word_reads_back(tag);
    assert(wire_words(words)) by {
        assert forall|i: int| 0 <= i < words.len() implies 0 < (#[trigger] words[i]).len()
            <= u32::MAX by {
            if i >= 2 {
                assert(attributes[i - 2].0.len() + attributes[i - 2].1.len() + 2 <= u32::MAX);
            }
        }
    }
    lemma_sentence_round_trip(words, Seq::empty());
    assert(encode_sentence(words) + Seq::<u8>::empty() =~= encode_sentence(words));
    assert(read_words(words) =~= expected) by {
        assert forall|i: int| 0 <= i < words.len() implies read_words(words)[i] == expected[i] by {
            if i >= 2 {
                assert(valid_utf8(attributes[i - 2].0));
                lemma_attribute_word_reads_back(attributes[i - 2].0, attributes[i - 2].1);
            }
        }
    }
}

/// The bytes of a reply with a tag and attributes under distinct keys are
/// read as the reply with that tag and with exactly those attributes.
pub proof fn lemma_encoded_reply_reads_back(tag: u16, attributes: Seq<(Seq<u8>, Seq<u8>)>)
    requires
        sound_attributes(attributes),
    ensures
        parse_response(items(encode_sentence(reply_sentence(tag, attributes)))) matches Ok(
            ResponseView::Reply { tag: found, attributes: read },
        ) && {
            &&& found == tag
            &&& read.dom().finite()
            &&& read.len() == attributes.len()
            &&& forall|i: int|
                0 <= i < attributes.len() ==> read.contains_key((#[trigger] attributes[i]).0)
                    && read[attributes[i].0] == Some(attributes[i].1)
        },
{
    let rest = seq![Ok::<WordView, SentenceError>(WordView::Tag(tag))] + Seq::new(
        attributes.len(),
        |i: int| attribute_item(attributes[i].0, Some(attributes[i].1)),
    );
    let read = seq![Ok::<WordView, SentenceError>(WordView::Category(WordCategory::Reply))] + rest;
    assert(items(encode_sentence(reply_sentence(tag, attributes))) =~= read) by {
        lemma_reply_sentence_items(tag, attributes);
    }
    assert(reply_words(rest, 0, tag)) by {
        assert forall|i: int, j: int|
            0 <= i < j < rest.len() && i != 0 && j != 0 implies #[trigger] key_at(rest, i)
            != #[trigger] key_at(rest, j) by {
            assert(attributes[i - 1].0 != attributes[j - 1].0);
        }
    }
    lemma_reply_holds_its_attributes(rest, 0, tag);
    let found = collected(rest, 0, rest.len() as int);
    assert forall|i: int| 0 <= i < attributes.len() implies found.contains_key(
        (#[trigger] attributes[i]).0,
    ) && found[attributes[i].0] == Some(attributes[i].1) by {
        assert(key_at(rest, i + 1) == attributes[i].0);
        assert(value_at(rest, i + 1) == Some(attributes[i].1));
    }
}

/// What the words behind `!re` or `!trap` have given so far.
struct Found {
    tag: Option<u16>,
    attributes: AttributeMap,
    category: Option<TrapCategory>,
    message: Option<String>,
}

impl View for Found {
    type V = Fields;

    closed spec fn view(&self) -> Fields {
        Fields {
            tag: self.tag,
            attributes: self.attributes@,
            category: self.category,
            message: match self.message {
                Some(m) => Some(encode_utf8(m@)),
                None => None,
            },
        }
    }
}

/// `r` reports the outcome `expected`.
pub open spec fn reports<T: View, E: View>(r: Result<T, E>, expected: Result<T::V, E::V>) -> bool {
    match expected {
        Ok(v) => r is Ok && r->Ok_0@ == v,
        Err(e) => r is Err && r->Err_0@ == e,
    }
}

/// The text of an attribute value as an owned string.
fn owned_text(value: Option<&str>) -> (r: Option<String>)
    ensures
        match value {
            Some(text) => r is Some && encode_utf8(r->0@) == text.spec_bytes(),
            None => r is None,
        },
{
    match value {
        Some(text) => Some(text.to_owned()),
        None => None,
    }
}

/// Takes one more word behind `!re` or `!trap`.
fn take_word<'a>(found: Found, word: Word<'a>, trap: bool) -> (r: Result<Found, ProtocolError>)
    requires
        word.wf(),
    ensures
        reports(r, scan_step(trap, found@, Ok(word@))),
{
    let mut found = found;
    match word {
        Word::Tag(t) => {
            found.tag = Some(t);
            Ok(found)
        },
        Word::Attribute(attribute) => {
            if !trap {
                let value = match attribute.value_raw {
                    Some(raw) => Some(slice_to_vec(raw)),
                    None => None,
                };
                found.attributes.insert(attribute.key.to_owned(), value);
                return Ok(found);
            }
            let category_key: [u8; 8] = [
                'c' as u8, 'a' as u8, 't' as u8, 'e' as u8, 'g' as u8, 'o' as u8, 'r' as u8,
                'y' as u8,
            ];
            let message_key: [u8; 7] = [
                'm' as u8, 'e' as u8, 's' as u8, 's' as u8, 'a' as u8, 'g' as u8, 'e' as u8,
            ];
            proof {
                assert(category_key@ =~= self::category_key());
                assert(message_key@ =~= self::message_key());
            }
            if bytes_eq(attribute.key.as_bytes(), category_key.as_slice()) {
                match attribute.value {
                    None => {
                        found.category = None;
                        Ok(found)
                    },
                    Some(text) => match TrapCategory::parse(text.as_bytes()) {
                        Ok(category) => {
                            found.category = Some(category);
                            Ok(found)
                        },
                        Err(e) => Err(ProtocolError::TrapCategory(e)),
                    },
                }
            } else if bytes_eq(attribute.key.as_bytes(), message_key.as_slice()) {
                found.message = owned_text(attribute.value);
                Ok(found)
            } else {
                Err(
                    ProtocolError::TrapCategory(
                        TrapCategoryError::InvalidAttribute {
                            key: attribute.key.to_owned(),
                            value: owned_text(attribute.value),
                        },
                    ),
                )
            }
        },
        word => {
            let expected = vec![WordType::Tag, WordType::Attribute];
            assert(expected@ =~= tag_or_attribute());
            Err(ProtocolError::WordSequence { word: word.word_type(), expected })
        },
    }
}

/// Reads the words behind `!re` or `!trap` up to the end of the sentence.
fn collect<'a>(sentence: &mut Sentence<'a>, trap: bool) -> (r: Result<Found, ProtocolError>)
    ensures
        reports(r, scan(trap, old(sentence).remaining())),
{
    let ghost all = sentence.remaining();
    let ghost seen = Seq::<Item>::empty();
    let mut found = Found {
        tag: None,
        attributes: AttributeMap::new(),
        category: None,
        message: None,
    };
    proof {
        assert(seen + sentence.remaining() =~= all);
    }
    loop
        invariant
            all == old(sentence).remaining(),
            all == seen + sentence.remaining(),
            scan(trap, seen) == Ok::<Fields, ProtocolErrorView>(found@),
        decreases sentence.bytes().len() - sentence.offset(),
    {
        let ghost before = sentence.remaining();
        let word = match sentence.next() {
            None => {
                proof {
                    assert(before =~= Seq::<Item>::empty());
                    assert(seen + before =~= seen);
                }
                return Ok(found);
            },
            Some(word) => word,
        };
        let ghost item = before.first();
        proof {
            assert(seen.push(item) + sentence.remaining() =~= all);
            assert(seen.push(item).drop_last() =~= seen);
            assert(seen.push(item).last() == item);
            if scan(trap, seen.push(item)) is Err {
                lemma_scan_error_stable(trap, seen.push(item), sentence.remaining());
            }
            seen = seen.push(item);
        }
        let word = match word {
            Ok(word) => word,
            Err(e) => {
                return Err(ProtocolError::Sentence(e));
            },
        };
        found = match take_word(found, word, trap) {
            Ok(found) => found,
            Err(e) => {
                return Err(e);
            },
        };
    }
}

impl CommandResponse {
    /// Returns the tag associated with the response, if available.
    ///
    /// Returns [`None`] for [`CommandResponse::Fatal`] responses as they do
    /// not contain tags.
    pub fn tag(&self) -> (r: Option<u16>)
        ensures
            r == self@.tag(),
    {
        match &self {
            Self::Done(d) => Some(d.tag),
            Self::Reply(r) => Some(r.tag),
            Self::Trap(t) => Some(t.tag),
            Self::Fatal(_) => None,
            Self::Empty(e) => Some(e.tag),
        }
    }

    /// Reads the words of `sentence_iter` as a response.
    pub fn try_from(sentence_iter: Sentence<'_>) -> (r: Result<CommandResponse, ProtocolError>)
        ensures
            reports(r, parse_response(sentence_iter.remaining())),
    {
        let mut sentence_iter = sentence_iter;
        let word = match sentence_iter.next() {
            None => {
                return Err(ProtocolError::Incomplete(MissingWord::Category));
            },
            Some(Err(e)) => {
                return Err(ProtocolError::Sentence(e));
            },
            Some(Ok(word)) => word,
        };
        match word.category() {
            Some(category) => read_response(*category, &mut sentence_iter),
            None => {
                let expected = vec![WordType::Category];
                assert(expected@ =~= seq![WordType::Category]);
                Err(ProtocolError::WordSequence { word: word.word_type(), expected })
            },
        }
    }
}

/// Reads the words behind the category.
fn read_response(category: WordCategory, sentence: &mut Sentence<'_>) -> (r: Result<
    CommandResponse,
    ProtocolError,
>)
    ensures
        reports(r, response_of(category, old(sentence).remaining())),
{
    match category {
        WordCategory::Done => match read_tag(sentence) {
            Ok(tag) => Ok(CommandResponse::Done(DoneResponse { tag })),
            Err(e) => Err(e),
        },
        WordCategory::Empty => match read_tag(sentence) {
            Ok(tag) => Ok(CommandResponse::Empty(EmptyResponse { tag })),
            Err(e) => Err(e),
        },
        WordCategory::Reply => read_reply(sentence),
        WordCategory::Trap => read_trap(sentence),
        WordCategory::Fatal => read_fatal(sentence),
    }
}

/// Reads the words behind `!re`: a tag and attributes, in any order.
fn read_reply(sentence: &mut Sentence<'_>) -> (r: Result<CommandResponse, ProtocolError>)
    ensures
        reports(r, reply_of(old(sentence).remaining())),
{
    let found = match collect(sentence, false) {
        Ok(found) => found,
        Err(e) => {
            return Err(e);
        },
    };
    match found.tag {
        Some(tag) => Ok(
            CommandResponse::Reply(ReplyResponse { tag, attributes: found.attributes }),
        ),
        None => Err(ProtocolError::Incomplete(MissingWord::Tag)),
    }
}

/// Reads the words behind `!trap`: a tag, a message and perhaps a category,
/// in any order.
fn read_trap(sentence: &mut Sentence<'_>) -> (r: Result<CommandResponse, ProtocolError>)
    ensures
        reports(r, trap_of(old(sentence).remaining())),
{
    let found = match collect(sentence, true) {
        Ok(found) => found,
        Err(e) => {
            return Err(e);
        },
    };
    let tag = match found.tag {
        Some(tag) => tag,
        None => {
            return Err(ProtocolError::Incomplete(MissingWord::Tag));
        },
    };
    match found.message {
        Some(message) => Ok(
            CommandResponse::Trap(TrapResponse { tag, category: found.category, message }),
        ),
        None => Err(ProtocolError::TrapCategory(TrapCategoryError::MissingMessageAttribute)),
    }
}

/// Reads the reason behind `!fatal`.
fn read_fatal(sentence: &mut Sentence<'_>) -> (r: Result<CommandResponse, ProtocolError>)
    ensures
        reports(r, fatal_of(old(sentence).remaining())),
{
    let word = match sentence.next() {
        None => {
            return Err(ProtocolError::Incomplete(MissingWord::Message));
        },
        Some(Err(e)) => {
            return Err(ProtocolError::Sentence(e));
        },
        Some(Ok(word)) => word,
    };
    match word.generic() {
        Some(reason) => Ok(CommandResponse::Fatal(reason.to_owned())),
        None => {
            let expected = vec![WordType::Message];
            assert(expected@ =~= seq![WordType::Message]);
            Err(ProtocolError::WordSequence { word: word.word_type(), expected })
        },
    }
}

/// Reads the tag that follows `!done` or `!empty`.
fn read_tag(sentence: &mut Sentence<'_>) -> (r: Result<u16, ProtocolError>)
    ensures
        match single_tag(old(sentence).remaining()) {
            Ok(tag) => r == Ok::<u16, ProtocolError>(tag),
            Err(e) => r is Err && r->Err_0@ == e,
        },
{
    let word = match sentence.next() {
        None => {
            return Err(ProtocolError::Incomplete(MissingWord::Tag));
        },
        Some(Err(e)) => {
            return Err(ProtocolError::Sentence(e));
        },
        Some(Ok(word)) => word,
    };
    match word.tag() {
        Some(tag) => Ok(tag),
        None => {
            let expected = vec![WordType::Tag];
            assert(expected@ =~= seq![WordType::Tag]);
            Err(ProtocolError::WordSequence { word: word.word_type(), expected })
        },
    }
}

} // verus!
