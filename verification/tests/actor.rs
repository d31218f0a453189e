use mikrotik_rs::actor::{
    find_tag, login_outcome, DeviceConnectionActor, Message, ReadActorMessage, Step,
};
use mikrotik_rs::error::{ActorError, DeviceError, IoErrorKind};
use mikrotik_rs::protocol::command::{Command, CommandBuffer, CommandBuilder, NoCmd};
use mikrotik_rs::protocol::error::{MissingWord, ProtocolError};
use mikrotik_rs::protocol::response::{CommandResponse, DoneResponse};
use mikrotik_rs::protocol::sentence::SentenceError;
use mikrotik_rs::protocol::word::{WordCategory, WordError};
use std::collections::{HashMap, HashSet};

/// The wire form of the sentence made of these words.
fn sentence(words: &[&[u8]]) -> Vec<u8> {
    let mut buffer = CommandBuffer::default();
    for word in words {
        buffer.write_word(*word);
    }
    buffer.write_len(0);
    buffer.0
}

fn tag_word(tag: u16) -> Vec<u8> {
    format!(".tag={}", tag).into_bytes()
}

/// A worker without a socket: sinks are numbers, what each sink got is
/// written down, and what would go to the socket is kept.
struct Worker {
    actor: DeviceConnectionActor<usize>,
    got: HashMap<usize, Vec<Message>>,
    closed: Vec<usize>,
    receiver_gone: HashSet<usize>,
    written: Vec<Vec<u8>>,
    next_sink: usize,
}

impl Worker {
    fn new() -> Self {
        Worker {
            actor: DeviceConnectionActor::new(),
            got: HashMap::new(),
            closed: Vec::new(),
            receiver_gone: HashSet::new(),
            written: Vec::new(),
            next_sink: 0,
        }
    }

    fn submit(&mut self, command: Command) -> usize {
        let sink = self.next_sink;
        self.next_sink += 1;
        let message = ReadActorMessage {
            tag: command.tag,
            data: command.data,
            respond_to: sink,
        };
        self.written.push(message.data);
        if let Some(old) = self.actor.command_sent(message.tag, message.respond_to) {
            self.closed.push(old);
        }
        sink
    }

    fn deliver(&mut self, sink: usize, message: Message) -> bool {
        if self.receiver_gone.contains(&sink) {
            return false;
        }
        self.got.entry(sink).or_default().push(message);
        true
    }

    fn carry_out(&mut self, step: Step<usize>) {
        match step {
            Step::Idle | Step::Unclaimed => {}
            Step::Offer { tag, message } => {
                let sink = *self.actor.sink(tag).unwrap();
                if !self.deliver(sink, message) {
                    let cancel = self.actor.receiver_gone(tag).unwrap();
                    self.written.push(cancel.data);
                    self.closed.push(sink);
                }
            }
            Step::Finish { sink, message, .. } => {
                self.deliver(sink, message);
                self.closed.push(sink);
            }
            Step::Broadcast { sinks, message } => {
                for (_, sink) in sinks {
                    self.deliver(sink, message.clone());
                    self.closed.push(sink);
                }
            }
        }
    }

    fn read(&mut self, bytes: &[u8]) {
        self.actor.data_received(bytes);
        loop {
            match self.actor.next_step() {
                Step::Idle => break,
                step => self.carry_out(step),
            }
        }
    }

    fn got(&self, sink: usize) -> Vec<Message> {
        self.got.get(&sink).cloned().unwrap_or_default()
    }
}

fn kinds(messages: &[Message]) -> Vec<&'static str> {
    messages
        .iter()
        .map(|m| match m {
            Ok(CommandResponse::Done(_)) => "done",
            Ok(CommandResponse::Reply(_)) => "reply",
            Ok(CommandResponse::Trap(_)) => "trap",
            Ok(CommandResponse::Fatal(_)) => "fatal",
            Ok(CommandResponse::Empty(_)) => "empty",
            Err(DeviceError::Connection(_)) => "connection",
            Err(DeviceError::Protocol(_)) => "protocol",
            Err(_) => "error",
        })
        .collect()
}

#[test]
fn login_happy_path() {
    let login = CommandBuilder::<NoCmd>::login_with_tag(4711, "admin", Some("admin")).unwrap();
    assert_eq!(
        login.data,
        b"\x06/login\x09.tag=4711\x0B=name=admin\x0F=password=admin\x00"
    );
    let mut worker = Worker::new();
    let sink = worker.submit(login);
    assert!(worker.actor.is_pending(4711));
    worker.read(&sentence(&[b"!done", b".tag=4711"]));
    let mut got = worker.got(sink);
    assert_eq!(got.len(), 1);
    assert_eq!(login_outcome(got.pop()), Ok(()));
    assert_eq!(worker.closed, [sink]);
    assert!(!worker.actor.is_pending(4711));
    assert!(!worker.actor.is_shutdown());
}

#[test]
fn login_rejected() {
    let login = CommandBuilder::<NoCmd>::login_with_tag(12, "admin", None::<&str>).unwrap();
    let mut worker = Worker::new();
    let sink = worker.submit(login);
    worker.read(&sentence(&[
        b"!trap",
        b".tag=12",
        b"=message=invalid user name or password",
    ]));
    let mut got = worker.got(sink);
    assert_eq!(got.len(), 1);
    match login_outcome(got.pop()) {
        Err(DeviceError::Authentication { response }) => {
            assert_eq!(response.tag, 12);
            assert_eq!(response.category, None);
            assert_eq!(response.message, "invalid user name or password");
        }
        other => panic!("{:?}", other),
    }
    assert_eq!(worker.closed, [sink]);
}

#[test]
fn login_answers_of_other_kinds() {
    assert_eq!(
        login_outcome(None),
        Err(DeviceError::Actor(ActorError::LoginResponseLost))
    );
    assert_eq!(
        login_outcome(Some(Err(DeviceError::Connection(
            IoErrorKind::ConnectionReset
        )))),
        Err(DeviceError::Connection(IoErrorKind::ConnectionReset))
    );
    let fatal = CommandResponse::Fatal("too many sessions".to_string());
    assert_eq!(
        login_outcome(Some(Ok(fatal.clone()))),
        Err(DeviceError::ResponseSequence {
            received: fatal,
            expected: vec![WordCategory::Done, WordCategory::Trap],
        })
    );
    let mut worker = Worker::new();
    let sink = worker.submit(CommandBuilder::<NoCmd>::login_with_tag(1, "a", Some("b")).unwrap());
    worker.read(&sentence(&[b"!re", b".tag=1", b"=ret=abc"]));
    let reply = worker.got(sink).pop().unwrap().unwrap();
    assert!(matches!(
        login_outcome(Some(Ok(reply.clone()))),
        Err(DeviceError::ResponseSequence { received, .. }) if received == reply
    ));
    assert_eq!(
        login_outcome(Some(Ok(CommandResponse::Done(DoneResponse { tag: 1 })))),
        Ok(())
    );
}

#[test]
fn streaming_monitor_with_cancel() {
    let tag = 300;
    let command = CommandBuilder::<NoCmd>::with_tag(tag)
        .command("/interface/monitor-traffic")
        .unwrap()
        .attribute("interface", Some("ether1"))
        .unwrap()
        .build();
    let mut worker = Worker::new();
    let sink = worker.submit(command);
    let reply = sentence(&[
        b"!re",
        b".tag=300",
        b"=rx-bits-per-second=1024",
        b"=tx-bits-per-second=2048",
    ]);
    for _ in 0..3 {
        worker.read(&reply);
    }
    assert_eq!(kinds(&worker.got(sink)), ["reply", "reply", "reply"]);
    for message in worker.got(sink) {
        match message {
            Ok(CommandResponse::Reply(reply)) => {
                assert_eq!(reply.tag, tag);
                assert_eq!(reply.attributes.len(), 2);
                assert_eq!(
                    reply.attributes.get("rx-bits-per-second").unwrap().value,
                    Some(b"1024".to_vec())
                );
                assert_eq!(
                    reply.attributes.get("tx-bits-per-second").unwrap().value,
                    Some(b"2048".to_vec())
                );
            }
            other => panic!("{:?}", other),
        }
    }
    assert_eq!(worker.written.len(), 1);

    // The receiver goes away; the next reply cannot be delivered.
    worker.receiver_gone.insert(sink);
    worker.read(&reply);
    assert_eq!(worker.written.len(), 2);
    assert_eq!(
        worker.written[1],
        b"\x07/cancel\x08.tag=300\x08=tag=300\x00"
    );
    assert_eq!(worker.written[1], CommandBuilder::<NoCmd>::cancel(tag).data);
    assert!(!worker.actor.is_pending(tag));
    assert_eq!(worker.closed, [sink]);

    // What the router still sends for the tag goes nowhere.
    worker.read(&reply);
    worker.read(&sentence(&[
        b"!trap",
        b".tag=300",
        b"=category=2",
        b"=message=interrupted",
    ]));
    worker.read(&sentence(&[b"!done", b".tag=300"]));
    assert_eq!(worker.got(sink).len(), 3);
    assert_eq!(worker.written.len(), 2);
    assert!(!worker.actor.is_pending(tag));
    assert_eq!(worker.actor.pending_count(), 0);
    assert!(!worker.actor.is_shutdown());
}

#[test]
fn multiplex_two_commands() {
    let mut worker = Worker::new();
    let a = worker.submit(
        CommandBuilder::<NoCmd>::with_tag(10)
            .command("/system/resource/print")
            .unwrap()
            .build(),
    );
    let b = worker.submit(
        CommandBuilder::<NoCmd>::with_tag(20)
            .command("/user/active/print")
            .unwrap()
            .build(),
    );
    let wire: Vec<u8> = [
        sentence(&[b"!re", b".tag=10", b"=uptime=1d"]),
        sentence(&[b"!re", b".tag=20", b"=name=admin"]),
        sentence(&[b"!done", b".tag=10"]),
        sentence(&[b"!re", b".tag=20", b"=name=guest"]),
        sentence(&[b"!done", b".tag=20"]),
    ]
    .concat();
    worker.read(&wire);
    assert_eq!(kinds(&worker.got(a)), ["reply", "done"]);
    assert_eq!(kinds(&worker.got(b)), ["reply", "reply", "done"]);
    match &worker.got(b)[1] {
        Ok(CommandResponse::Reply(reply)) => {
            assert_eq!(
                reply.attributes.get("name").unwrap().value,
                Some(b"guest".to_vec())
            )
        }
        other => panic!("{:?}", other),
    }
    assert_eq!(worker.closed, [a, b]);
    assert_eq!(worker.actor.pending_count(), 0);
}

#[test]
fn the_same_wire_in_any_chunks() {
    let wire: Vec<u8> = [
        sentence(&[b"!re", b".tag=10", b"=uptime=1d"]),
        sentence(&[b"!re", b".tag=20", b"=name=admin"]),
        sentence(&[b"!trap", b".tag=10", b"=message=failure"]),
        sentence(&[b"!re", b".tag=10", b"=late=1"]),
        sentence(&[b"!empty", b".tag=20"]),
    ]
    .concat();
    for size in 1..=wire.len() {
        let mut worker = Worker::new();
        let a = worker.submit(CommandBuilder::<NoCmd>::cancel(10));
        let b = worker.submit(CommandBuilder::<NoCmd>::cancel(20));
        for chunk in wire.chunks(size) {
            worker.read(chunk);
        }
        assert_eq!(kinds(&worker.got(a)), ["reply", "trap"], "{}", size);
        assert_eq!(kinds(&worker.got(b)), ["reply", "empty"], "{}", size);
        assert_eq!(worker.closed, [a, b]);
    }
}

#[test]
fn peer_disconnect_mid_flight() {
    let mut worker = Worker::new();
    let a = worker.submit(CommandBuilder::<NoCmd>::cancel(1));
    let b = worker.submit(CommandBuilder::<NoCmd>::cancel(2));
    worker.read(&sentence(&[b"!re", b".tag=1"]));
    worker.read(b"\x03!re");
    let step = worker.actor.peer_closed();
    worker.carry_out(step);
    assert_eq!(
        worker.got(a).last(),
        Some(&Err(DeviceError::Connection(
            IoErrorKind::ConnectionAborted
        )))
    );
    assert_eq!(
        worker.got(b),
        [Err(DeviceError::Connection(IoErrorKind::ConnectionAborted))]
    );
    assert_eq!(kinds(&worker.got(a)), ["reply", "connection"]);
    assert_eq!(worker.closed, [a, b]);
    assert!(worker.actor.is_shutdown());
    assert_eq!(worker.actor.pending_count(), 0);
}

#[test]
fn io_error_reaches_every_command_once() {
    let mut worker = Worker::new();
    let sinks: Vec<usize> = [500u16, 3, 65535, 0]
        .iter()
        .map(|tag| worker.submit(CommandBuilder::<NoCmd>::cancel(*tag)))
        .collect();
    let step = worker.actor.connection_failed(IoErrorKind::BrokenPipe);
    match &step {
        Step::Broadcast { sinks, message } => {
            // In ascending order of the tags.
            let tags: Vec<u16> = sinks.iter().map(|(tag, _)| *tag).collect();
            assert_eq!(tags, [0, 3, 500, 65535]);
            assert_eq!(
                message,
                &Err(DeviceError::Connection(IoErrorKind::BrokenPipe))
            );
        }
        _ => panic!(),
    }
    worker.carry_out(step);
    for sink in sinks {
        assert_eq!(
            worker.got(sink),
            [Err(DeviceError::Connection(IoErrorKind::BrokenPipe))]
        );
    }
    assert!(worker.actor.is_shutdown());
    // Nothing is left to tell.
    let step = worker.actor.connection_failed(IoErrorKind::BrokenPipe);
    assert!(matches!(step, Step::Broadcast { sinks, .. } if sinks.is_empty()));
}

#[test]
fn fatal_ends_every_command_and_the_connection() {
    let mut worker = Worker::new();
    let a = worker.submit(CommandBuilder::<NoCmd>::cancel(1));
    let b = worker.submit(CommandBuilder::<NoCmd>::cancel(2));
    let wire: Vec<u8> = [
        sentence(&[b"!re", b".tag=2"]),
        sentence(&[b"!fatal", b"session terminated on request"]),
    ]
    .concat();
    worker.read(&wire);
    let fatal = Ok(CommandResponse::Fatal(
        "session terminated on request".to_string(),
    ));
    assert_eq!(worker.got(a), [fatal.clone()]);
    assert_eq!(worker.got(b).len(), 2);
    assert_eq!(worker.got(b)[1], fatal);
    assert_eq!(worker.closed, [a, b]);
    assert!(worker.actor.is_shutdown());
    assert_eq!(worker.actor.pending_count(), 0);
    // No write follows: nothing is pending that could be cancelled.
    assert_eq!(worker.written.len(), 2);
    assert!(worker.actor.receiver_gone(1).is_none());
    assert!(worker.actor.handles_dropped().is_empty());
}

#[test]
fn a_response_for_nobody_changes_nothing() {
    let mut worker = Worker::new();
    let a = worker.submit(CommandBuilder::<NoCmd>::cancel(1));
    worker.actor.data_received(&sentence(&[b"!done", b".tag=9"]));
    assert!(matches!(worker.actor.next_step(), Step::Unclaimed));
    worker.actor.data_received(&sentence(&[b"!re", b".tag=9"]));
    assert!(matches!(worker.actor.next_step(), Step::Unclaimed));
    assert!(matches!(worker.actor.next_step(), Step::Idle));
    assert!(worker.actor.is_pending(1));
    assert!(worker.got(a).is_empty());
}

#[test]
fn a_sentence_that_is_no_response_goes_to_its_tag() {
    let mut worker = Worker::new();
    let a = worker.submit(CommandBuilder::<NoCmd>::cancel(1));
    let b = worker.submit(CommandBuilder::<NoCmd>::cancel(2));
    worker.read(&sentence(&[b"!trap", b".tag=2"]));
    assert_eq!(
        worker.got(b),
        [Err(DeviceError::Protocol(ProtocolError::TrapCategory(
            mikrotik_rs::protocol::error::TrapCategoryError::MissingMessageAttribute
        )))]
    );
    assert!(worker.got(a).is_empty());
    assert_eq!(worker.closed, [b]);
    assert!(worker.actor.is_pending(1));
    assert!(!worker.actor.is_pending(2));
    assert!(!worker.actor.is_shutdown());
    // The tag of nobody: the error goes nowhere.
    worker.actor.data_received(&sentence(&[b"!trap", b".tag=77"]));
    assert!(matches!(worker.actor.next_step(), Step::Unclaimed));
    assert!(worker.actor.is_pending(1));
}

#[test]
fn a_sentence_without_a_tag_that_is_no_response_goes_to_everyone() {
    let mut worker = Worker::new();
    let a = worker.submit(CommandBuilder::<NoCmd>::cancel(1));
    let b = worker.submit(CommandBuilder::<NoCmd>::cancel(2));
    worker.read(&sentence(&[b"!done"]));
    let error = Err(DeviceError::Protocol(ProtocolError::Incomplete(
        MissingWord::Tag,
    )));
    assert_eq!(worker.got(a), [error.clone()]);
    assert_eq!(worker.got(b), [error]);
    assert_eq!(worker.actor.pending_count(), 0);
    assert!(!worker.actor.is_shutdown());
}

#[test]
fn a_reserved_prefix_ends_every_command_and_empties_the_buffer() {
    let mut worker = Worker::new();
    let a = worker.submit(CommandBuilder::<NoCmd>::cancel(1));
    let mut wire = sentence(&[b"!re", b".tag=1"]);
    wire.extend_from_slice(b"\x03!re\xF8\x00\x05!done\x06.tag=1\x00");
    worker.read(&wire);
    assert_eq!(
        worker.got(a)[1],
        Err(DeviceError::Protocol(ProtocolError::Sentence(
            SentenceError::PrefixLength
        )))
    );
    assert_eq!(kinds(&worker.got(a)), ["reply", "protocol"]);
    assert!(!worker.actor.is_shutdown());
    assert!(matches!(worker.actor.next_step(), Step::Idle));
    // The connection goes on with what comes next.
    let b = worker.submit(CommandBuilder::<NoCmd>::cancel(2));
    worker.read(&sentence(&[b"!done", b".tag=2"]));
    assert_eq!(kinds(&worker.got(b)), ["done"]);
}

#[test]
fn last_writer_wins() {
    let mut actor: DeviceConnectionActor<&'static str> = DeviceConnectionActor::new();
    assert_eq!(actor.command_sent(5, "first"), None);
    assert_eq!(actor.command_sent(5, "second"), Some("first"));
    assert_eq!(actor.pending_count(), 1);
    assert_eq!(actor.sink(5), Some(&"second"));
    assert_eq!(actor.sink(6), None);
    actor.data_received(&sentence(&[b"!done", b".tag=5"]));
    match actor.next_step() {
        Step::Finish { tag, sink, message } => {
            assert_eq!(tag, 5);
            assert_eq!(sink, "second");
            assert_eq!(message, Ok(CommandResponse::Done(DoneResponse { tag: 5 })));
        }
        _ => panic!(),
    }
    assert_eq!(actor.pending_count(), 0);
}

#[test]
fn dropped_handles_cancel_what_is_pending() {
    let mut actor: DeviceConnectionActor<char> = DeviceConnectionActor::new();
    actor.command_sent(40, 'a');
    actor.command_sent(7, 'b');
    actor.command_sent(1000, 'c');
    let cancels = actor.handles_dropped();
    let seen: Vec<(u16, Vec<u8>, char)> = cancels
        .into_iter()
        .map(|(command, sink)| (command.tag, command.data, sink))
        .collect();
    assert_eq!(
        seen,
        [
            (7, CommandBuilder::<NoCmd>::cancel(7).data, 'b'),
            (40, CommandBuilder::<NoCmd>::cancel(40).data, 'a'),
            (1000, CommandBuilder::<NoCmd>::cancel(1000).data, 'c'),
        ]
    );
    assert!(actor.is_shutdown());
    assert_eq!(actor.pending_count(), 0);
}

#[test]
fn a_failed_cancel_stops_the_worker() {
    let mut actor: DeviceConnectionActor<u8> = DeviceConnectionActor::new();
    actor.command_sent(1, 0);
    assert!(actor.receiver_gone(2).is_none());
    let cancel = actor.receiver_gone(1).unwrap();
    assert_eq!(cancel.tag, 1);
    assert!(!actor.is_shutdown());
    actor.cancel_failed();
    assert!(actor.is_shutdown());
}

#[test]
fn the_first_tag_of_a_sentence() {
    assert_eq!(find_tag(&sentence(&[b"!re", b"=a=b", b".tag=5", b".tag=6"])), Some(5));
    assert_eq!(find_tag(&sentence(&[b"\xFF", b".tag=x", b".tag=9"])), Some(9));
    assert_eq!(find_tag(&sentence(&[b"!done"])), None);
    assert_eq!(find_tag(&[]), None);
    // Nothing is read behind the end of the sentence or a broken prefix.
    assert_eq!(find_tag(b"\x00\x06.tag=1\x00"), None);
    assert_eq!(find_tag(b"\xF8\x06.tag=1\x00"), None);
    assert_eq!(
        find_tag(&sentence(&[b"!trap", b".tag=3", b"=category=9"])),
        Some(3)
    );
    let _ = WordError::Utf8;
}
