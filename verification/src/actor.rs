//! The state machine of the worker that owns a connection.
//!
//! The worker reads and writes the socket and moves messages through its
//! channels; what to do with what it reads is decided here. It hands every
//! event to [`DeviceConnectionActor`] and carries out the [`Step`] it gets
//! back:
//!
//! - a command was written: [`DeviceConnectionActor::command_sent`];
//! - bytes were read: [`DeviceConnectionActor::data_received`], then
//!   [`DeviceConnectionActor::next_step`] until it returns [`Step::Idle`];
//! - a reply could not be delivered because its receiver is gone:
//!   [`DeviceConnectionActor::receiver_gone`], which gives the `/cancel` to
//!   write;
//! - the peer closed the connection, or reading or writing failed:
//!   [`DeviceConnectionActor::peer_closed`],
//!   [`DeviceConnectionActor::connection_failed`];
//! - every handle is gone: [`DeviceConnectionActor::handles_dropped`].
//!
//! A sink is whatever the worker delivers responses into. The table of
//! pending commands owns the sinks; a sink leaves the table together with the
//! last message for it, so that nothing can be delivered after that.

use std::collections::HashMap;
use vstd::pervasive::unreached;
use vstd::prelude::*;
use vstd::std_specs::hash::*;
use crate::error::{DeviceError, DeviceErrorView, IoErrorKind};
use crate::protocol::command::{cancel_bytes, Command, CommandBuilder};
use crate::protocol::error::{ProtocolError, ProtocolErrorView};
use crate::protocol::response::{parse_response, CommandResponse, ResponseView};
use crate::protocol::sentence::{items, Item, Sentence, SentenceError};
use crate::protocol::splitter::{frame, Frame, Framing, SentenceSplitter};
use crate::protocol::word::{Word, WordCategory, WordView};

verus! {

broadcast use vstd::std_specs::hash::group_hash_axioms;

/// A command on its way to the worker: the bytes to write, and where the
/// responses for its tag are to go.
#[derive(Debug)]
pub struct ReadActorMessage<S> {
    /// The tag of the command.
    pub tag: u16,
    /// The bytes of the command.
    pub data: Vec<u8>,
    /// The sink for the responses.
    pub respond_to: S,
}

/// The pending commands with a tag below `below`, in ascending order of
/// their tags.
pub open spec fn in_order<S>(pending: Map<u16, S>, below: int) -> Seq<(u16, S)>
    decreases below,
{
    if below <= 0 {
        Seq::empty()
    } else {
        let tag = (below - 1) as u16;
        if pending.contains_key(tag) {
            in_order(pending, below - 1).push((tag, pending[tag]))
        } else {
            in_order(pending, below - 1)
        }
    }
}

/// All pending commands, in ascending order of their tags.
pub open spec fn all_in_order<S>(pending: Map<u16, S>) -> Seq<(u16, S)> {
    in_order(pending, 0x1_0000)
}

/// Tags at or above `from` that are not pending add nothing.
proof fn lemma_in_order_rest<S>(pending: Map<u16, S>, from: int, below: int)
    requires
        0 <= from <= below <= 0x1_0000,
        forall|t: u16| from <= t ==> !(#[trigger] pending.contains_key(t)),
    ensures
        in_order(pending, below) == in_order(pending, from),
    decreases below - from,
{
    if from < below {
        lemma_in_order_rest(pending, from, below - 1);
    }
}

/// `in_order` holds each pending command below the bound once, and nothing
/// else.
pub proof fn lemma_in_order<S>(pending: Map<u16, S>, below: int)
    requires
        0 <= below <= 0x1_0000,
    ensures
        forall|i: int|
            0 <= i < in_order(pending, below).len() ==> {
                let (tag, sink) = #[trigger] in_order(pending, below)[i];
                tag < below && pending.contains_key(tag) && pending[tag] == sink
            },
        forall|i: int, j: int|
            0 <= i < j < in_order(pending, below).len() ==> in_order(pending, below)[i].0
                < in_order(pending, below)[j].0,
        forall|tag: u16|
            tag < below && pending.contains_key(tag) ==> exists|i: int|
                0 <= i < in_order(pending, below).len() && #[trigger] in_order(pending, below)[i]
                    == (tag, pending[tag]),
    decreases below,
{
    if below > 0 {
        lemma_in_order(pending, below - 1);
        let last = (below - 1) as u16;
        let shorter = in_order(pending, below - 1);
        let whole = in_order(pending, below);
        assert forall|tag: u16| tag < below && pending.contains_key(tag) implies exists|i: int|
            0 <= i < whole.len() && #[trigger] whole[i] == (tag, pending[tag]) by {
            if tag == last {
                assert(whole[whole.len() - 1] == (tag, pending[tag]));
            } else {
                let i = choose|i: int|
                    0 <= i < shorter.len() && #[trigger] shorter[i] == (tag, pending[tag]);
                assert(whole[i] == (tag, pending[tag]));
            }
        }
    }
}

/// Takes every entry out of `table`, in ascending order of the tags.
fn drain<S>(table: &mut HashMap<u16, S>) -> (out: Vec<(u16, S)>)
    ensures
        out@ == all_in_order(old(table)@),
        final(table)@ == Map::<u16, S>::empty(),
{
    let mut out: Vec<(u16, S)> = Vec::new();
    let mut next: u32 = 0;
    while next < 0x1_0000 && !table.is_empty()
        invariant
            next <= 0x1_0000,
            out@ == in_order(old(table)@, next as int),
            forall|t: u16| t < next ==> !(#[trigger] table@.contains_key(t)),
            forall|t: u16|
                #![trigger table@.contains_key(t)]
                #![trigger old(table)@.contains_key(t)]
                next <= t ==> (table@.contains_key(t) <==> old(table)@.contains_key(t)) && (
                table@.contains_key(t) ==> table@[t] == old(table)@[t]),
        decreases 0x1_0000 - next,
    {
        let tag: u16 = next as u16;
        match table.remove(&tag) {
            Some(sink) => {
                out.push((tag, sink));
            },
            None => {},
        }
        next += 1;
    }
    proof {
        if next < 0x1_0000 {
            assert forall|t: u16| next <= t implies !old(table)@.contains_key(t) by {
                if old(table)@.contains_key(t) {
                    assert(table@.contains_key(t));
                }
            }
            lemma_in_order_rest(old(table)@, next as int, 0x1_0000);
        }
        assert(table@ =~= Map::<u16, S>::empty());
    }
    out
}

/// What a sink is handed: a response, or the error that ends the command.
pub type Message = Result<CommandResponse, DeviceError>;

/// [`Message`], with bytes in place of text.
pub type MessageView = Result<ResponseView, DeviceErrorView>;

/// The view of a message.
pub open spec fn message_view(message: Message) -> MessageView {
    match message {
        Ok(response) => Ok(response@),
        Err(e) => Err(e@),
    }
}

/// What the worker has to do next.
#[derive(Debug)]
pub enum Step<S> {
    /// Nothing: the buffer holds no complete sentence. Read more.
    Idle,
    /// Nothing: a sentence was taken from the buffer, but no pending command
    /// waits for what it says.
    Unclaimed,
    /// Deliver the reply to the sink that is pending under `tag`; the command
    /// goes on. If the receiver is gone, say so with
    /// [`DeviceConnectionActor::receiver_gone`].
    Offer { tag: u16, message: Message },
    /// Deliver the message to `sink` and close it: the command that was
    /// pending under `tag` is over.
    Finish { tag: u16, sink: S, message: Message },
    /// Deliver the message to each of the sinks and close them: every
    /// command that was pending is over.
    Broadcast { sinks: Vec<(u16, S)>, message: Message },
}

/// [`Step`], with bytes in place of text.
pub enum StepView<S> {
    Idle,
    Unclaimed,
    Offer { tag: u16, message: MessageView },
    Finish { tag: u16, sink: S, message: MessageView },
    Broadcast { sinks: Seq<(u16, S)>, message: MessageView },
}

impl<S> View for Step<S> {
    type V = StepView<S>;

    open spec fn view(&self) -> StepView<S> {
        match *self {
            Step::Idle => StepView::Idle,
            Step::Unclaimed => StepView::Unclaimed,
            Step::Offer { tag, message } => StepView::Offer { tag, message: message_view(message) },
            Step::Finish { tag, sink, message } => StepView::Finish {
                tag,
                sink,
                message: message_view(message),
            },
            Step::Broadcast { sinks, message } => StepView::Broadcast {
                sinks: sinks@,
                message: message_view(message),
            },
        }
    }
}

/// What one sentence from the router says: the response, or why it is none,
/// and in that case the first tag that could be read from it.
pub struct Outcome {
    pub result: Result<ResponseView, ProtocolErrorView>,
    pub hint: Option<u16>,
}

/// The first tag word among `items`; words that cannot be read are passed
/// over.
pub open spec fn tag_in(items: Seq<Item>) -> Option<u16>
    decreases items.len(),
{
    if items.len() == 0 {
        None
    } else {
        match items.first() {
            Ok(WordView::Tag(tag)) => Some(tag),
            _ => tag_in(items.drop_first()),
        }
    }
}

/// What the sentence with these bytes says.
pub open spec fn outcome_of(sentence: Seq<u8>) -> Outcome {
    Outcome { result: parse_response(items(sentence)), hint: tag_in(items(sentence)) }
}

/// Whom an outcome is for.
pub enum Address {
    /// The command that is pending under this tag.
    To(u16),
    /// Every pending command.
    Everyone,
}

impl Outcome {
    /// Whom the outcome is for: a response is for the command of its tag, a
    /// `!fatal` for every command; a sentence that is no response is for the
    /// command whose tag could be read from it, and for every command if
    /// none could.
    pub open spec fn address(self) -> Address {
        match self.result {
            Ok(response) => match response.tag() {
                Some(tag) => Address::To(tag),
                None => Address::Everyone,
            },
            Err(_) => match self.hint {
                Some(tag) => Address::To(tag),
                None => Address::Everyone,
            },
        }
    }

    /// Whether the outcome is for the command under `tag`.
    pub open spec fn concerns(self, tag: u16) -> bool {
        match self.address() {
            Address::To(t) => t == tag,
            Address::Everyone => true,
        }
    }

    /// The message that the outcome is delivered as.
    pub open spec fn message(self) -> MessageView {
        match self.result {
            Ok(response) => Ok(response),
            Err(e) => Err(DeviceErrorView::Protocol(e)),
        }
    }

    /// Whether the outcome ends the commands that it is for: everything but
    /// a reply does.
    pub open spec fn is_terminal(self) -> bool {
        !(self.result matches Ok(ResponseView::Reply { .. }))
    }

    /// Whether the outcome ends the connection: a `!fatal` does.
    pub open spec fn is_fatal(self) -> bool {
        self.result matches Ok(ResponseView::Fatal { .. })
    }
}

/// Routes one outcome: the pending commands afterwards, and what the worker
/// has to do.
pub open spec fn route<S>(pending: Map<u16, S>, outcome: Outcome) -> (Map<u16, S>, StepView<S>) {
    match outcome.address() {
        Address::To(tag) => if !pending.contains_key(tag) {
            (pending, StepView::Unclaimed)
        } else if outcome.is_terminal() {
            (
                pending.remove(tag),
                StepView::Finish { tag, sink: pending[tag], message: outcome.message() },
            )
        } else {
            (pending, StepView::Offer { tag, message: outcome.message() })
        },
        Address::Everyone => (
            Map::empty(),
            StepView::Broadcast { sinks: all_in_order(pending), message: outcome.message() },
        ),
    }
}

/// The state of the worker of one connection: the commands that wait for
/// responses, the bytes read and not yet used, and whether the connection is
/// over.
pub struct DeviceConnectionActor<S> {
    running_commands: HashMap<u16, S>,
    packet_buf: SentenceSplitter,
    shutdown: bool,
}

impl<S> DeviceConnectionActor<S> {
    /// The sinks of the pending commands, by tag.
    pub closed spec fn pending(&self) -> Map<u16, S> {
        self.running_commands@
    }

    /// The bytes read and not yet used.
    pub closed spec fn buffered(&self) -> Seq<u8> {
        self.packet_buf.buffered()
    }

    /// Whether the worker has to stop.
    pub closed spec fn stopped(&self) -> bool {
        self.shutdown
    }

    /// A worker with nothing pending and nothing read.
    pub fn new() -> (r: Self)
        ensures
            r.pending() == Map::<u16, S>::empty(),
            r.buffered() == Seq::<u8>::empty(),
            !r.stopped(),
    {
        DeviceConnectionActor {
            running_commands: HashMap::new(),
            packet_buf: SentenceSplitter::new(),
            shutdown: false,
        }
    }

    /// Whether the worker has to stop: after a `!fatal`, after the connection
    /// is lost or a `/cancel` could not be written, and after the last handle
    /// is gone.
    pub fn is_shutdown(&self) -> (r: bool)
        ensures
            r == self.stopped(),
    {
        self.shutdown
    }

    /// Number of pending commands.
    pub fn pending_count(&self) -> (n: usize)
        ensures
            n == self.pending().len(),
    {
        self.running_commands.len()
    }

    /// Whether a command is pending under `tag`.
    pub fn is_pending(&self, tag: u16) -> (r: bool)
        ensures
            r == self.pending().contains_key(tag),
    {
        self.running_commands.contains_key(&tag)
    }

    /// The sink of the command that is pending under `tag`.
    pub fn sink(&self, tag: u16) -> (r: Option<&S>)
        ensures
            match r {
                Some(sink) => self.pending().contains_key(tag) && self.pending()[tag] == *sink,
                None => !self.pending().contains_key(tag),
            },
    {
        self.running_commands.get(&tag)
    }

    /// A command was written to the router: from now on the responses for
    /// `tag` go to `respond_to`.
    ///
    /// If a command is pending under the same tag already, the new sink
    /// takes its place and the old one is handed back.
    pub fn command_sent(&mut self, tag: u16, respond_to: S) -> (displaced: Option<S>)
        ensures
            final(self).pending() == old(self).pending().insert(tag, respond_to),
            final(self).buffered() == old(self).buffered(),
            final(self).stopped() == old(self).stopped(),
            match displaced {
                Some(sink) => old(self).pending().contains_key(tag) && old(self).pending()[tag]
                    == sink,
                None => !old(self).pending().contains_key(tag),
            },
    {
        self.running_commands.insert(tag, respond_to)
    }

    /// Bytes were read from the router: they are kept behind those read
    /// before.
    pub fn data_received(&mut self, bytes: &[u8])
        ensures
            final(self).buffered() == old(self).buffered() + bytes@,
            final(self).pending() == old(self).pending(),
            final(self).stopped() == old(self).stopped(),
    {
        self.packet_buf.push(bytes);
    }

    /// A reply could not be delivered because the receiver for `tag` is
    /// gone: the command is pending no longer, and the router is to be told
    /// to cancel it.
    ///
    /// Returns the `/cancel` command to write, or `None` if nothing was
    /// pending under `tag`.
    pub fn receiver_gone(&mut self, tag: u16) -> (cancel: Option<Command>)
        ensures
            final(self).pending() == old(self).pending().remove(tag),
            final(self).buffered() == old(self).buffered(),
            final(self).stopped() == old(self).stopped(),
            cancel is Some <==> old(self).pending().contains_key(tag),
            cancel matches Some(command) ==> command.tag == tag && command.data@
                == cancel_bytes(tag),
    {
        match self.running_commands.remove(&tag) {
            Some(_) => Some(CommandBuilder::cancel(tag)),
            None => None,
        }
    }

    /// The `/cancel` for a receiver that is gone could not be written: the
    /// connection is of no use, and the worker has to stop.
    pub fn cancel_failed(&mut self)
        ensures
            final(self).stopped(),
            final(self).pending() == old(self).pending(),
            final(self).buffered() == old(self).buffered(),
    {
        self.shutdown = true;
    }

    /// The router closed the connection: every pending command ends with the
    /// error [`IoErrorKind::ConnectionAborted`], and the worker has to stop.
    pub fn peer_closed(&mut self) -> (step: Step<S>)
        ensures
            step@ == (StepView::Broadcast {
                sinks: all_in_order(old(self).pending()),
                message: Err(DeviceErrorView::Connection(IoErrorKind::ConnectionAborted)),
            }),
            final(self).pending() == Map::<u16, S>::empty(),
            final(self).buffered() == old(self).buffered(),
            final(self).stopped(),
    {
        self.connection_failed(IoErrorKind::ConnectionAborted)
    }

    /// Reading from the router or writing to it failed: every pending
    /// command ends with the error of that kind, and the worker has to stop.
    pub fn connection_failed(&mut self, kind: IoErrorKind) -> (step: Step<S>)
        ensures
            step@ == (StepView::Broadcast {
                sinks: all_in_order(old(self).pending()),
                message: Err(DeviceErrorView::Connection(kind)),
            }),
            final(self).pending() == Map::<u16, S>::empty(),
            final(self).buffered() == old(self).buffered(),
            final(self).stopped(),
    {
        let sinks = drain(&mut self.running_commands);
        self.shutdown = true;
        Step::Broadcast { sinks, message: Err(DeviceError::Connection(kind)) }
    }

    /// The last handle is gone, so that no command can come any more: every
    /// pending command is given up, and the worker has to stop.
    ///
    /// Returns, in ascending order of the tags, the `/cancel` commands to
    /// write as far as the connection still takes them, each with the sink
    /// that is to be closed.
    pub fn handles_dropped(&mut self) -> (cancels: Vec<(Command, S)>)
        ensures
            final(self).pending() == Map::<u16, S>::empty(),
            final(self).buffered() == old(self).buffered(),
            final(self).stopped(),
            cancels@.len() == all_in_order(old(self).pending()).len(),
            forall|i: int|
                0 <= i < cancels@.len() ==> {
                    let (command, sink) = #[trigger] cancels@[i];
                    let (tag, pending_sink) = all_in_order(old(self).pending())[i];
                    command.tag == tag && command.data@ == cancel_bytes(tag) && sink
                        == pending_sink
                },
    {
        let mut sinks = drain(&mut self.running_commands);
        self.shutdown = true;
        let ghost given_up = sinks@;
        let mut cancels: Vec<(Command, S)> = Vec::new();
        // The sinks are taken from the back, so the commands come out in
        // descending order and are turned round at the end.
        while sinks.len() > 0
            invariant
                sinks@.len() + cancels@.len() == given_up.len(),
                sinks@ == given_up.take(sinks@.len() as int),
                forall|i: int|
                    0 <= i < cancels@.len() ==> {
                        let (command, sink) = #[trigger] cancels@[i];
                        let (tag, pending_sink) = given_up[given_up.len() - 1 - i];
                        command.tag == tag && command.data@ == cancel_bytes(tag) && sink
                            == pending_sink
                    },
            decreases sinks@.len(),
        {
            let ghost n = sinks@.len();
            match sinks.pop() {
                Some((tag, sink)) => {
                    cancels.push((CommandBuilder::cancel(tag), sink));
                    assert(sinks@ =~= given_up.take(n - 1));
                },
                None => {},
            }
        }
        reverse(&mut cancels);
        cancels
    }
}

impl<S> DeviceConnectionActor<S> {
    /// Takes the next sentence from the bytes read, and says what to do
    /// with it.
    ///
    /// - Where the bytes hold no complete sentence, nothing changes and the
    ///   step is [`Step::Idle`].
    /// - Where they start with a reserved length prefix, no sentence can be
    ///   cut from them any more: the bytes are thrown away, and every pending
    ///   command ends with the error [`SentenceError::PrefixLength`].
    /// - Otherwise the sentence leaves the buffer and is routed, see
    ///   [`route`]; after a `!fatal` the worker has to stop.
    pub fn next_step(&mut self) -> (step: Step<S>)
        ensures
            match frame(old(self).buffered()) {
                Framing::Incomplete => {
                    &&& step@ == StepView::<S>::Idle
                    &&& final(self).pending() == old(self).pending()
                    &&& final(self).buffered() == old(self).buffered()
                    &&& final(self).stopped() == old(self).stopped()
                },
                Framing::Invalid => {
                    &&& step@ == (StepView::Broadcast {
                        sinks: all_in_order(old(self).pending()),
                        message: Err(
                            DeviceErrorView::Protocol(
                                ProtocolErrorView::Sentence(SentenceError::PrefixLength),
                            ),
                        ),
                    })
                    &&& final(self).pending() == Map::<u16, S>::empty()
                    &&& final(self).buffered() == Seq::<u8>::empty()
                    &&& final(self).stopped() == old(self).stopped()
                },
                Framing::Complete(n) => {
                    let outcome = outcome_of(old(self).buffered().take(n));
                    &&& (final(self).pending(), step@) == route(old(self).pending(), outcome)
                    &&& final(self).buffered() == old(self).buffered().skip(n)
                    &&& final(self).stopped() == (old(self).stopped() || outcome.is_fatal())
                },
            },
    {
        match self.packet_buf.peek() {
            Frame::Incomplete => Step::Idle,
            Frame::Invalid => {
                self.packet_buf.clear();
                let sinks = drain(&mut self.running_commands);
                Step::Broadcast {
                    sinks,
                    message: Err(
                        DeviceError::Protocol(ProtocolError::Sentence(SentenceError::PrefixLength)),
                    ),
                }
            },
            Frame::Complete(_) => {
                let sentence = match self.packet_buf.next_sentence() {
                    Some(sentence) => sentence,
                    None => unreached(),
                };
                let parsed = CommandResponse::try_from(Sentence::new(sentence.as_slice()));
                proof {
                    assert(sentence@.skip(0) =~= sentence@);
                }
                match parsed {
                    Ok(response) => self.deliver(response),
                    Err(e) => {
                        let hint = find_tag(sentence.as_slice());
                        self.report(e, hint)
                    },
                }
            },
        }
    }

    /// Routes a response.
    fn deliver(&mut self, response: CommandResponse) -> (step: Step<S>)
        ensures
            (final(self).pending(), step@) == route(
                old(self).pending(),
                Outcome { result: Ok(response@), hint: None },
            ),
            final(self).buffered() == old(self).buffered(),
            final(self).stopped() == (old(self).stopped() || response@ is Fatal),
    {
        match response.tag() {
            None => {
                let sinks = drain(&mut self.running_commands);
                self.shutdown = true;
                Step::Broadcast { sinks, message: Ok(response) }
            },
            Some(tag) => {
                if let CommandResponse::Reply(_) = response {
                    if self.running_commands.contains_key(&tag) {
                        Step::Offer { tag, message: Ok(response) }
                    } else {
                        Step::Unclaimed
                    }
                } else {
                    match self.running_commands.remove(&tag) {
                        Some(sink) => Step::Finish { tag, sink, message: Ok(response) },
                        None => {
                            assert(self.running_commands@ =~= old(self).running_commands@);
                            Step::Unclaimed
                        },
                    }
                }
            },
        }
    }

    /// Routes the error of a sentence that is no response.
    fn report(&mut self, error: ProtocolError, hint: Option<u16>) -> (step: Step<S>)
        ensures
            (final(self).pending(), step@) == route(
                old(self).pending(),
                Outcome { result: Err(error@), hint },
            ),
            final(self).buffered() == old(self).buffered(),
            final(self).stopped() == old(self).stopped(),
    {
        match hint {
            Some(tag) => match self.running_commands.remove(&tag) {
                Some(sink) => Step::Finish {
                    tag,
                    sink,
                    message: Err(DeviceError::Protocol(error)),
                },
                None => {
                    assert(self.running_commands@ =~= old(self).running_commands@);
                    Step::Unclaimed
                },
            },
            None => {
                let sinks = drain(&mut self.running_commands);
                Step::Broadcast { sinks, message: Err(DeviceError::Protocol(error)) }
            },
        }
    }
}

/// Looks for the first tag word of a sentence; words that cannot be read are
/// passed over.
pub fn find_tag(sentence: &[u8]) -> (r: Option<u16>)
    ensures
        r == tag_in(items(sentence@)),
{
    let mut words = Sentence::new(sentence);
    proof {
        assert(sentence@.skip(0) =~= sentence@);
    }
    loop
        invariant
            tag_in(items(sentence@)) == tag_in(words.remaining()),
        decreases words.bytes().len() - words.offset(),
    {
        match words.next() {
            None => {
                return None;
            },
            Some(Ok(Word::Tag(tag))) => {
                return Some(tag);
            },
            Some(_) => {},
        }
    }
}

/// Decides what the answer to the login means: `!done` lets the user in, a
/// `!trap` is a refusal, anything else may not come at this point. An error
/// in place of the answer is handed on, and no answer at all means that the
/// worker is gone.
pub fn login_outcome(answer: Option<Message>) -> (r: Result<(), DeviceError>)
    ensures
        match answer {
            None => r == Err::<(), DeviceError>(
                DeviceError::Actor(crate::error::ActorError::LoginResponseLost),
            ),
            Some(Err(e)) => r == Err::<(), DeviceError>(e),
            Some(Ok(CommandResponse::Done(_))) => r is Ok,
            Some(Ok(CommandResponse::Trap(trap))) => r == Err::<(), DeviceError>(
                DeviceError::Authentication { response: trap },
            ),
            Some(Ok(other)) => r matches Err(DeviceError::ResponseSequence { received, expected })
                && received == other && expected@ == seq![WordCategory::Done, WordCategory::Trap],
        },
{
    match answer {
        None => Err(DeviceError::Actor(crate::error::ActorError::LoginResponseLost)),
        Some(Err(e)) => Err(e),
        Some(Ok(CommandResponse::Done(_))) => Ok(()),
        Some(Ok(CommandResponse::Trap(trap))) => Err(
            DeviceError::Authentication { response: trap },
        ),
        Some(Ok(other)) => {
            let expected = vec![WordCategory::Done, WordCategory::Trap];
            assert(expected@ =~= seq![WordCategory::Done, WordCategory::Trap]);
            Err(DeviceError::ResponseSequence { received: other, expected })
        },
    }
}

/// Whether the sink of the command under `tag` is among `sinks`.
pub open spec fn reaches<S>(sinks: Seq<(u16, S)>, tag: u16) -> bool {
    exists|i: int| 0 <= i < sinks.len() && (#[trigger] sinks[i]).0 == tag
}

/// The message that the command under `tag` gets by this step, if any.
pub open spec fn hears<S>(step: StepView<S>, tag: u16) -> Option<MessageView> {
    match step {
        StepView::Offer { tag: to, message } => if to == tag {
            Some(message)
        } else {
            None
        },
        StepView::Finish { tag: to, message, .. } => if to == tag {
            Some(message)
        } else {
            None
        },
        StepView::Broadcast { sinks, message } => if reaches(sinks, tag) {
            Some(message)
        } else {
            None
        },
        _ => None,
    }
}

/// The messages that the command under `tag` gets, in order, when the
/// outcomes are routed one after the other.
pub open spec fn heard<S>(pending: Map<u16, S>, outcomes: Seq<Outcome>, tag: u16) -> Seq<
    MessageView,
>
    decreases outcomes.len(),
{
    if outcomes.len() == 0 {
        Seq::empty()
    } else {
        let (next, step) = route(pending, outcomes.first());
        let rest = heard(next, outcomes.drop_first(), tag);
        match hears(step, tag) {
            Some(message) => seq![message] + rest,
            None => rest,
        }
    }
}

/// The messages that are due to the command under `tag`: those of the
/// outcomes that concern it, in order, up to the first that ends it.
pub open spec fn due(outcomes: Seq<Outcome>, tag: u16) -> Seq<MessageView>
    decreases outcomes.len(),
{
    if outcomes.len() == 0 {
        Seq::empty()
    } else {
        let first = outcomes.first();
        if !first.concerns(tag) {
            due(outcomes.drop_first(), tag)
        } else if first.is_terminal() {
            seq![first.message()]
        } else {
            seq![first.message()] + due(outcomes.drop_first(), tag)
        }
    }
}

/// A message that ends a command: anything but a reply.
pub open spec fn ends_command(message: MessageView) -> bool {
    !(message matches Ok(ResponseView::Reply { .. }))
}

/// A broadcast reaches each pending command once, and nobody else.
pub proof fn lemma_broadcast_reaches_each_once<S>(pending: Map<u16, S>)
    ensures
        forall|i: int|
            0 <= i < all_in_order(pending).len() ==> {
                let (tag, sink) = #[trigger] all_in_order(pending)[i];
                pending.contains_key(tag) && pending[tag] == sink
            },
        forall|i: int, j: int|
            0 <= i < j < all_in_order(pending).len() ==> all_in_order(pending)[i].0
                != all_in_order(pending)[j].0,
        forall|tag: u16|
            pending.contains_key(tag) ==> exists|i: int|
                0 <= i < all_in_order(pending).len() && #[trigger] all_in_order(pending)[i] == (
                    tag,
                    pending[tag],
                ),
{
    lemma_in_order(pending, 0x1_0000);
    let all = all_in_order(pending);
    assert forall|tag: u16| pending.contains_key(tag) implies exists|i: int|
        0 <= i < all.len() && #[trigger] all[i] == (tag, pending[tag]) by {
        assert(tag < 0x1_0000);
    }
}

/// A pending command is among those that a broadcast reaches.
proof fn lemma_broadcast_reaches<S>(pending: Map<u16, S>, tag: u16)
    ensures
        pending.contains_key(tag) <==> reaches(all_in_order(pending), tag),
{
    lemma_broadcast_reaches_each_once(pending);
    let all = all_in_order(pending);
    if pending.contains_key(tag) {
        let i = choose|i: int| 0 <= i < all.len() && #[trigger] all[i] == (tag, pending[tag]);
        assert(all[i].0 == tag);
    }
}

/// Whether the step hands the sink of the command under `tag` over to the
/// worker, to be closed after the message.
pub open spec fn hands_over<S>(step: StepView<S>, tag: u16, sink: S) -> bool {
    match step {
        StepView::Finish { tag: to, sink: handed, .. } => to == tag && handed == sink,
        StepView::Broadcast { sinks, .. } => exists|i: int|
            0 <= i < sinks.len() && #[trigger] sinks[i] == (tag, sink),
        _ => false,
    }
}

/// Routing loses no sink and makes none up: a command that is pending either
/// stays pending with its sink, or its sink is handed over with the message
/// that ends the command; and no command is pending afterwards that was not
/// pending before.
pub proof fn lemma_no_sink_is_lost<S>(pending: Map<u16, S>, outcome: Outcome, tag: u16)
    ensures
        pending.contains_key(tag) ==> {
            let (next, step) = route(pending, outcome);
            if next.contains_key(tag) {
                next[tag] == pending[tag] && !hands_over(step, tag, pending[tag])
            } else {
                hands_over(step, tag, pending[tag]) && hears(step, tag) == Some(
                    outcome.message(),
                ) && outcome.is_terminal()
            }
        },
        route(pending, outcome).0.contains_key(tag) ==> pending.contains_key(tag),
{
    lemma_broadcast_reaches_each_once(pending);
    lemma_broadcast_reaches(pending, tag);
    let (next, step) = route(pending, outcome);
    if pending.contains_key(tag) && !next.contains_key(tag) {
        match outcome.address() {
            Address::To(to) => {
                assert(to == tag);
            },
            Address::Everyone => {
                let all = all_in_order(pending);
                let i = choose|i: int|
                    0 <= i < all.len() && #[trigger] all[i] == (tag, pending[tag]);
                assert(all[i] == (tag, pending[tag]));
            },
        }
    }
}

/// A command that is not pending gets nothing.
pub proof fn lemma_stranger_hears_nothing<S>(pending: Map<u16, S>, outcomes: Seq<Outcome>, tag: u16)
    requires
        !pending.contains_key(tag),
    ensures
        heard(pending, outcomes, tag) == Seq::<MessageView>::empty(),
    decreases outcomes.len(),
{
    if outcomes.len() > 0 {
        let (next, step) = route(pending, outcomes.first());
        lemma_broadcast_reaches(pending, tag);
        lemma_stranger_hears_nothing(next, outcomes.drop_first(), tag);
    }
}

/// A pending command gets the messages that concern its tag, in the order in
/// which the router sent them, up to the first that ends it, and nothing
/// after that.
pub proof fn lemma_sink_hears_its_responses<S>(
    pending: Map<u16, S>,
    outcomes: Seq<Outcome>,
    tag: u16,
)
    requires
        pending.contains_key(tag),
    ensures
        heard(pending, outcomes, tag) == due(outcomes, tag),
    decreases outcomes.len(),
{
    if outcomes.len() > 0 {
        let first = outcomes.first();
        let (next, step) = route(pending, first);
        lemma_broadcast_reaches(pending, tag);
        if !first.concerns(tag) {
            lemma_sink_hears_its_responses(next, outcomes.drop_first(), tag);
        } else if first.is_terminal() {
            lemma_stranger_hears_nothing(next, outcomes.drop_first(), tag);
            match first.address() {
                Address::To(to) => {
                    assert(to == tag);
                    assert(step == StepView::Finish {
                        tag,
                        sink: pending[tag],
                        message: first.message(),
                    });
                    assert(hears(step, tag) == Some(first.message()));
                },
                Address::Everyone => {
                    let all = all_in_order(pending);
                    assert(step == StepView::Broadcast { sinks: all, message: first.message() });
                    assert(reaches(all, tag));
                    assert(hears(step, tag) == Some(first.message()));
                },
            }
            assert(heard(pending, outcomes, tag) =~= seq![first.message()]);
        } else {
            lemma_sink_hears_its_responses(next, outcomes.drop_first(), tag);
        }
    }
}

/// Of the messages due to a command only the last can be one that ends it:
/// there is at most one such message, and nothing comes behind it.
pub proof fn lemma_due_ends_once(outcomes: Seq<Outcome>, tag: u16)
    ensures
        forall|i: int|
            0 <= i < due(outcomes, tag).len() - 1 ==> !ends_command(
                #[trigger] due(outcomes, tag)[i],
            ),
    decreases outcomes.len(),
{
    if outcomes.len() > 0 {
        lemma_due_ends_once(outcomes.drop_first(), tag);
        let first = outcomes.first();
        if first.concerns(tag) && !first.is_terminal() {
            let rest = due(outcomes.drop_first(), tag);
            assert(due(outcomes, tag) == seq![first.message()] + rest);
            assert forall|i: int| 0 <= i < due(outcomes, tag).len() - 1 implies !ends_command(
                #[trigger] due(outcomes, tag)[i],
            ) by {
                if i > 0 {
                    assert(due(outcomes, tag)[i] == rest[i - 1]);
                } else {
                    assert(due(outcomes, tag)[0] == first.message());
                }
            }
        }
    }
}

/// After a `!fatal` nothing is pending, so that no `/cancel` is written any
/// more: not for a receiver that is gone, and not when the handles are
/// dropped.
pub proof fn lemma_fatal_ends_everything<S>(pending: Map<u16, S>, outcome: Outcome)
    requires
        outcome.is_fatal(),
    ensures
        route(pending, outcome) == (
            Map::<u16, S>::empty(),
            StepView::Broadcast { sinks: all_in_order(pending), message: outcome.message() },
        ),
        all_in_order(route(pending, outcome).0) == Seq::<(u16, S)>::empty(),
{
    lemma_in_order_rest(Map::<u16, S>::empty(), 0, 0x1_0000);
}

/// Turns the order of `v` round.
fn reverse<T>(v: &mut Vec<T>)
    ensures
        final(v)@.len() == old(v)@.len(),
        forall|i: int| 0 <= i < old(v)@.len() ==> final(v)@[i] == old(v)@[old(v)@.len() - 1 - i],
{
    let mut out: Vec<T> = Vec::new();
    let ghost all = v@;
    while v.len() > 0
        invariant
            v@.len() + out@.len() == all.len(),
            v@ == all.take(v@.len() as int),
            forall|i: int| 0 <= i < out@.len() ==> out@[i] == all[all.len() - 1 - i],
        decreases v@.len(),
    {
        let ghost n = v@.len();
        match v.pop() {
            Some(x) => {
                out.push(x);
                assert(v@ =~= all.take(n - 1));
            },
            None => {},
        }
    }
    core::mem::swap(v, &mut out);
}

} // verus!
