//! Errors that reach the user of a connection.

use vstd::prelude::*;
use crate::protocol::error::{ProtocolError, ProtocolErrorView};
use crate::protocol::response::{CommandResponse, ResponseView, TrapResponse};
use crate::protocol::word::WordCategory;

verus! {

/// How the transport failed.
#[derive(Debug, Clone, Copy, PartialEq, Eq)]
pub enum IoErrorKind {
    /// The connection was ended by the peer; also what a read of no bytes
    /// means.
    ConnectionAborted,
    /// The connection was reset by the peer.
    ConnectionReset,
    /// The connection was refused by the peer.
    ConnectionRefused,
    /// The operation needs a connection and there is none.
    NotConnected,
    /// The pipe was closed.
    BrokenPipe,
    /// The operation took too long.
    TimedOut,
    /// The data ended too early.
    UnexpectedEof,
    /// Nothing could be written.
    WriteZero,
    /// Any other failure.
    Other,
}

/// The worker that owns the connection is gone.
#[derive(Debug, Clone, Copy, PartialEq, Eq)]
pub enum ActorError {
    /// The command could not be handed to the worker: it has shut down.
    CommandSendFailed,
    /// The worker shut down before it answered the login.
    LoginResponseLost,
}

/// What can go wrong with a connection and the commands on it.
#[derive(Debug, Clone, PartialEq, Eq)]
pub enum DeviceError {
    /// The transport failed.
    Connection(IoErrorKind),
    /// The router refused the login.
    Authentication {
        /// The trap that the router answered with.
        response: TrapResponse,
    },
    /// The worker that owns the connection is gone.
    Actor(ActorError),
    /// A response of a kind that may not come at this point.
    ResponseSequence {
        /// The response that came.
        received: CommandResponse,
        /// The kinds that may come.
        expected: Vec<WordCategory>,
    },
    /// A sentence could not be read as a response.
    Protocol(ProtocolError),
}

/// [`DeviceError`], with bytes in place of text.
pub enum DeviceErrorView {
    Connection(IoErrorKind),
    Authentication { response: ResponseView },
    Actor(ActorError),
    ResponseSequence { received: ResponseView, expected: Seq<WordCategory> },
    Protocol(ProtocolErrorView),
}

impl View for DeviceError {
    type V = DeviceErrorView;

    open spec fn view(&self) -> DeviceErrorView {
        match self {
            DeviceError::Connection(kind) => DeviceErrorView::Connection(*kind),
            DeviceError::Authentication { response } => DeviceErrorView::Authentication {
                response: CommandResponse::Trap(*response)@,
            },
            DeviceError::Actor(e) => DeviceErrorView::Actor(*e),
            DeviceError::ResponseSequence { received, expected } => {
                DeviceErrorView::ResponseSequence { received: received@, expected: expected@ }
            },
            DeviceError::Protocol(e) => DeviceErrorView::Protocol(e@),
        }
    }
}

/// What a command's receiver is handed: a response, or the error that ends
/// the command.
pub type DeviceResult<T> = Result<T, DeviceError>;

} // verus!
