use vstd::prelude::*;
use crate::line::{frames, no_newline, split_lines, views};

verus! {

/// The kind of a lifecycle event of one connection.
#[derive(Clone, Copy, Debug, PartialEq, Eq, Structural)]
pub enum ActionType {
    ClientConnect,
    ClientDisconnect,
}

/// A lifecycle event that a handler reports to the control loop: which
/// connection, and whether it attached or detached.
#[derive(Clone, Copy, Debug, PartialEq, Eq, Structural)]
pub struct Action {
    pub client: u64,
    pub action_type: ActionType,
}

/// Where a handler stands in the life of its connection.
#[derive(Clone, Copy, Debug, PartialEq, Eq, Structural)]
pub enum Phase {
    Starting,
    Connected,
    Disconnected,
}

/// What happened on a handler's connection, as the code that owns the socket
/// reports it.
pub enum HandlerEvent {
    /// The handler begins to serve its connection.
    Start,
    /// One read returned these bytes; no bytes means end of stream.
    Data(Vec<u8>),
    /// One read found the end of the stream.
    EndOfStream,
    /// A read failed with a hard error.
    ReadFailed,
    /// Writing or flushing an echo failed.
    WriteFailed,
}

/// The content of a `HandlerEvent`.
pub ghost enum EventModel {
    Start,
    Data(Seq<u8>),
    EndOfStream,
    ReadFailed,
    WriteFailed,
}

impl View for HandlerEvent {
    type V = EventModel;

    open spec fn view(&self) -> EventModel {
        match self {
            HandlerEvent::Start => EventModel::Start,
            HandlerEvent::Data(d) => EventModel::Data(d@),
            HandlerEvent::EndOfStream => EventModel::EndOfStream,
            HandlerEvent::ReadFailed => EventModel::ReadFailed,
            HandlerEvent::WriteFailed => EventModel::WriteFailed,
        }
    }
}

/// What a handler does in answer to an event: the lines to write back to its
/// connection, in order, each flushed, and the lifecycle action to send to
/// the control loop, if any.
pub struct Reaction {
    pub echo: Vec<Vec<u8>>,
    pub action: Option<Action>,
}

/// The content of a `Reaction`: the echoed lines as byte sequences.
pub ghost struct ReactionModel {
    pub echo: Seq<Seq<u8>>,
    pub action: Option<Action>,
}

impl View for Reaction {
    type V = ReactionModel;

    open spec fn view(&self) -> ReactionModel {
        ReactionModel { echo: views(self.echo@), action: self.action }
    }
}

/// The state of a handler: its connection, its phase, and the bytes read
/// after the last complete line.
pub ghost struct HandlerModel {
    pub client: u64,
    pub phase: Phase,
    pub pending: Seq<u8>,
}

/// The action that reports that `client` attached.
pub open spec fn connect_of(client: u64) -> Action {
    Action { client, action_type: ActionType::ClientConnect }
}

/// The action that reports that `client` detached.
pub open spec fn disconnect_of(client: u64) -> Action {
    Action { client, action_type: ActionType::ClientDisconnect }
}

/// A handler that has not started yet.
pub open spec fn fresh(client: u64) -> HandlerModel {
    HandlerModel { client, phase: Phase::Starting, pending: Seq::empty() }
}

/// Only a connected handler holds unterminated bytes, and they hold no
/// terminator.
pub open spec fn model_wf(s: HandlerModel) -> bool {
    &&& no_newline(s.pending)
    &&& s.phase != Phase::Connected ==> s.pending.len() == 0
}

/// No echo and no action.
pub open spec fn quiet() -> ReactionModel {
    ReactionModel { echo: Seq::empty(), action: None }
}

/// The handler leaves the connected phase: what is left of a line is echoed
/// where the stream ended normally, and the disconnection is reported once.
pub open spec fn closes(s: HandlerModel, t: HandlerModel, r: ReactionModel, echo_rest: bool) -> bool {
    &&& t == HandlerModel { client: s.client, phase: Phase::Disconnected, pending: Seq::empty() }
    &&& r.action == Some(disconnect_of(s.client))
    &&& r.echo == if echo_rest && s.pending.len() > 0 {
        seq![s.pending]
    } else {
        Seq::empty()
    }
}

/// One step of the handler protocol: from state `s`, on event `e`, the handler
/// moves to `t` and reacts with `r`.
pub open spec fn step_ok(s: HandlerModel, e: EventModel, t: HandlerModel, r: ReactionModel) -> bool {
    match s.phase {
        Phase::Starting => match e {
            EventModel::Start => t == HandlerModel { phase: Phase::Connected, ..s } && r
                == ReactionModel { echo: Seq::empty(), action: Some(connect_of(s.client)) },
            _ => t == s && r == quiet(),
        },
        Phase::Connected => match e {
            EventModel::Start => t == s && r == quiet(),
            EventModel::Data(d) => if d.len() > 0 {
                &&& t.client == s.client
                &&& t.phase == Phase::Connected
                &&& frames(s.pending + d, r.echo, t.pending)
                &&& r.action is None
            } else {
                closes(s, t, r, true)
            },
            EventModel::EndOfStream => closes(s, t, r, true),
            _ => closes(s, t, r, false),
        },
        Phase::Disconnected => t == s && r == quiet(),
    }
}

/// The handler of one connection: it reports the connection on start, echoes
/// each complete line it reads, and reports the disconnection once, when the
/// stream ends or fails.
pub struct ConnectionHandler {
    client: u64,
    phase: Phase,
    pending: Vec<u8>,
}

impl View for ConnectionHandler {
    type V = HandlerModel;

    closed spec fn view(&self) -> HandlerModel {
        HandlerModel { client: self.client, phase: self.phase, pending: self.pending@ }
    }
}

impl ConnectionHandler {
    /// A handler for the connection `client` that has not started yet.
    pub fn new(client: u64) -> (r: ConnectionHandler)
        ensures
            r@ == fresh(client),
    {
        ConnectionHandler { client, phase: Phase::Starting, pending: Vec::new() }
    }

    /// The connection this handler serves.
    pub fn client(&self) -> (r: u64)
        ensures
            r == self@.client,
    {
        self.client
    }

    /// The phase this handler is in.
    pub fn phase(&self) -> (r: Phase)
        ensures
            r == self@.phase,
    {
        self.phase
    }

    fn close(&mut self, echo_rest: bool) -> (r: Reaction)
        requires
            old(self)@.phase == Phase::Connected,
            model_wf(old(self)@),
        ensures
            closes(old(self)@, final(self)@, r@, echo_rest),
    {
        let mut rest: Vec<u8> = Vec::new();
        std::mem::swap(&mut self.pending, &mut rest);
        self.phase = Phase::Disconnected;
        let mut echo: Vec<Vec<u8>> = Vec::new();
        if echo_rest && rest.len() > 0 {
            let ghost line = rest@;
            echo.push(rest);
            assert(views(echo@) =~= seq![line]);
        } else {
            assert(views(echo@) =~= Seq::<Seq<u8>>::empty());
        }
        let action = Action { client: self.client, action_type: ActionType::ClientDisconnect };
        Reaction { echo, action: Some(action) }
    }

    /// Takes one step of the protocol on `event`.
    pub fn handle(&mut self, event: HandlerEvent) -> (r: Reaction)
        requires
            model_wf(old(self)@),
        ensures
            model_wf(final(self)@),
            step_ok(old(self)@, event@, final(self)@, r@),
    {
        let ghost quiet_echo = Seq::<Seq<u8>>::empty();
        let none = Reaction { echo: Vec::new(), action: None };
        assert(views(none.echo@) =~= quiet_echo);
        match self.phase {
            Phase::Starting => match event {
                HandlerEvent::Start => {
                    self.phase = Phase::Connected;
                    let action = Action { client: self.client, action_type: ActionType::ClientConnect };
                    Reaction { echo: none.echo, action: Some(action) }
                },
                _ => none,
            },
            Phase::Connected => match event {
                HandlerEvent::Start => none,
                HandlerEvent::Data(d) => {
                    if d.len() > 0 {
                        let lines = split_lines(&mut self.pending, &d);
                        Reaction { echo: lines, action: None }
                    } else {
                        self.close(true)
                    }
                },
                HandlerEvent::EndOfStream => self.close(true),
                HandlerEvent::ReadFailed => self.close(false),
                HandlerEvent::WriteFailed => self.close(false),
            },
            Phase::Disconnected => none,
        }
    }
}

} // verus!
