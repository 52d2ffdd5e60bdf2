//! A local command-execution service: the daemon's state and the rules by
//! which it answers each request, and the wire format between client and
//! daemon.
pub mod clock;
pub mod codec;
pub mod commands;
pub mod logging;
pub mod processing;
pub mod text;

use crate::commands::{Command, CommandView};
use vstd::prelude::*;

verus! {

/// A request as the client builds it: one command and the moment it was
/// issued, in milliseconds since the Unix epoch (UTC).
pub struct Request {
    pub command: Command,
    pub time: i64,
}

/// The mathematical value of a request.
pub struct RequestView {
    pub command: CommandView,
    pub time: i64,
}

impl View for Request {
    type V = RequestView;

    open spec fn view(&self) -> RequestView {
        RequestView { command: self.command@, time: self.time }
    }
}

/// What the daemon tells the client: one message.
pub struct Response {
    pub msg: String,
}

impl View for Response {
    type V = Seq<char>;

    open spec fn view(&self) -> Seq<char> {
        self.msg@
    }
}

} // verus!
