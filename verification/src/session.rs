//! One connection's turn: from the bytes of a read to what to do next.

use crate::clock::Clock;
use crate::cmd::{bytes_of, parse_command, text, Command, CommandView};
use crate::resp::{read_step, DataType, ReadOutcome, ReadStep, RespListener};
use crate::store::{store_get, store_set, Store, StoreState};
use crate::wire::{encode, ParseError, Value};
use vstd::prelude::*;

verus! {

/// The store after a command and the value that answers it.
pub open spec fn respond(cmd: CommandView, store: StoreState, now: u64) -> (StoreState, Value) {
    match cmd {
        CommandView::Ping => (store, Value::SimpleString(text("PONG"))),
        CommandView::Echo(arg) => (store, Value::BulkString(arg)),
        CommandView::Get(key) => {
            let (after, found) = store_get(store, key, now);
            match found {
                Some(value) => (after, Value::BulkString(value)),
                None => (after, Value::Null),
            }
        },
        CommandView::SetKey(key, value, ttl_ms) => (
            store_set(store, key, value, ttl_ms, now),
            Value::SimpleString(text("OK")),
        ),
        CommandView::Info(_) => (store, Value::Error(text("INFO is not supported"))),
        CommandView::Unknown(reason) => (store, Value::Error(reason)),
    }
}

/// Carries out a command on the store at time `now`, in milliseconds, and
/// gives the value that answers it.
pub fn execute(cmd: Command, store: &mut Store, now: u64) -> (reply: DataType)
    ensures
        (final(store)@, reply@) == respond(cmd@, old(store)@, now),
{
    match cmd {
        Command::Ping => DataType::SimpleString(bytes_of("PONG")),
        Command::Echo(arg) => DataType::BulkString(arg),
        Command::Get(key) => match store.get(key.as_slice(), now) {
            Some(value) => DataType::BulkString(value),
            None => DataType::Null,
        },
        Command::SetKey(key, value, ttl_ms) => {
            store.set(key, value, ttl_ms, now);
            DataType::SimpleString(bytes_of("OK"))
        },
        Command::Info(_) => DataType::Error(bytes_of("INFO is not supported")),
        Command::Unknown(reason) => DataType::Error(reason),
    }
}

/// What the connection's task does after a read.
#[derive(Debug, PartialEq, Eq)]
pub enum Action {
    /// The peer closed: end the task.
    Close,
    /// No whole request yet: read again.
    ReadMore,
    /// Send these bytes, then read again.
    Reply(Vec<u8>),
    /// The bytes received are no request: end the task and send nothing.
    Abort(ParseError),
}

/// The mathematical model of an action.
pub enum ActionView {
    Close,
    ReadMore,
    Reply(Seq<u8>),
    Abort(ParseError),
}

impl View for Action {
    type V = ActionView;

    open spec fn view(&self) -> ActionView {
        match self {
            Action::Close => ActionView::Close,
            Action::ReadMore => ActionView::ReadMore,
            Action::Reply(bytes) => ActionView::Reply(bytes@),
            Action::Abort(e) => ActionView::Abort(*e),
        }
    }
}

/// One turn of a connection: the receive buffer, the store and the action
/// after a read that returned `incoming` at time `now`. A whole request is
/// decoded, read as a command and carried out, and its answer is encoded.
pub open spec fn turn(buffer: Seq<u8>, store: StoreState, incoming: Seq<u8>, now: u64) -> (
    Seq<u8>,
    StoreState,
    ActionView,
) {
    let (left, step) = read_step(buffer, incoming);
    match step {
        ReadStep::PeerClosed => (left, store, ActionView::Close),
        ReadStep::NeedMoreData => (left, store, ActionView::ReadMore),
        ReadStep::Malformed(e) => (left, store, ActionView::Abort(e)),
        ReadStep::Frame(request) => {
            let (after, reply) = respond(parse_command(request), store, now);
            (left, after, ActionView::Reply(encode(reply)))
        },
    }
}

/// Takes the bytes that one read on the connection returned at time `now`,
/// in milliseconds, serves the request that they complete, if any, and says
/// what the connection's task does next.
pub fn process(listener: &mut RespListener, store: &mut Store, incoming: &[u8], now: u64) -> (action:
    Action)
    requires
        old(listener)@.len() + incoming@.len() <= usize::MAX,
    ensures
        (final(listener)@, final(store)@, action@) == turn(
            old(listener)@,
            old(store)@,
            incoming@,
            now,
        ),
{
    match listener.read(incoming) {
        Ok(ReadOutcome::PeerClosed) => Action::Close,
        Ok(ReadOutcome::NeedMoreData) => Action::ReadMore,
        Ok(ReadOutcome::Frame(request)) => {
            let reply = execute(Command::parse(request), store, now);
            Action::Reply(reply.serialize())
        },
        Err(e) => Action::Abort(e),
    }
}

/// Reads the clock and takes one turn at the time it shows: `process`, at a
/// time that is known only once the clock has been read.
pub fn serve(listener: &mut RespListener, store: &mut Store, clock: &Clock, incoming: &[u8]) -> (action:
    Action)
    requires
        old(listener)@.len() + incoming@.len() <= usize::MAX,
    ensures
        exists|now: u64|
            (final(listener)@, final(store)@, action@) == #[trigger] turn(
                old(listener)@,
                old(store)@,
                incoming@,
                now,
            ),
{
    let now = clock.now();
    process(listener, store, incoming, now)
}

} // verus!
