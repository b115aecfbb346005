//! The sidecar's side of the client connection: what to do with each line the
//! client sends, and which sequence number a delivered batch waits on.
//!
//! Delivery is ack-gated: the sidecar sends a batch and waits for the
//! client's `checkpoint` carrying the batch's last sequence number; that
//! acknowledged sequence number is what gets persisted.

use crate::protocol::{ClientMessage, ClientMessageView};
use crate::source::PolledChange;
use vstd::prelude::*;

verus! {

/// What the reader got from the client's stream.
pub enum ClientInput {
    /// The stream ended or failed: the client is gone.
    Closed,
    /// A line with nothing but whitespace.
    Blank,
    /// A line that is not a protocol message.
    Malformed,
    /// A protocol message.
    Message(ClientMessage),
}

/// What the reader does about it.
#[derive(Debug)]
pub enum ReaderAction {
    /// Read the next line.
    KeepReading,
    /// Hand `seq` to the delivery waiting on `shard`, then read on.
    Acknowledge { shard: String, seq: String },
    /// Signal stop to the fleet and stop reading.
    Stop,
}

pub enum ReaderActionView {
    KeepReading,
    Acknowledge { shard: Seq<char>, seq: Seq<char> },
    Stop,
}

impl View for ReaderAction {
    type V = ReaderActionView;

    open spec fn view(&self) -> ReaderActionView {
        match self {
            ReaderAction::KeepReading => ReaderActionView::KeepReading,
            ReaderAction::Acknowledge { shard, seq } => ReaderActionView::Acknowledge {
                shard: shard@,
                seq: seq@,
            },
            ReaderAction::Stop => ReaderActionView::Stop,
        }
    }
}

/// The reader's rule: a checkpoint ack is routed to its shard; `stop` or a
/// closed stream stops the fleet; a handshake, a blank line or a malformed
/// line is passed over.
pub open spec fn reader_rule(input: ClientInput) -> ReaderActionView {
    match input {
        ClientInput::Closed => ReaderActionView::Stop,
        ClientInput::Blank => ReaderActionView::KeepReading,
        ClientInput::Malformed => ReaderActionView::KeepReading,
        ClientInput::Message(m) => match m@ {
            ClientMessageView::Ready => ReaderActionView::KeepReading,
            ClientMessageView::Checkpoint { shard, seq } => ReaderActionView::Acknowledge {
                shard,
                seq,
            },
            ClientMessageView::Stop => ReaderActionView::Stop,
        },
    }
}

/// Decide what to do with one input from the client.
pub fn on_client_input(input: ClientInput) -> (action: ReaderAction)
    ensures
        action@ == reader_rule(input),
{
    match input {
        ClientInput::Closed => ReaderAction::Stop,
        ClientInput::Blank => ReaderAction::KeepReading,
        ClientInput::Malformed => ReaderAction::KeepReading,
        ClientInput::Message(m) => match m {
            ClientMessage::Ready => ReaderAction::KeepReading,
            ClientMessage::Checkpoint { shard, seq } => ReaderAction::Acknowledge { shard, seq },
            ClientMessage::Stop => ReaderAction::Stop,
        },
    }
}

/// The reader stops only when the client asks to stop or its stream closes;
/// a malformed line never stops it.
pub proof fn lemma_reader_stops_only_on_stop_or_close(input: ClientInput)
    ensures
        (reader_rule(input) == ReaderActionView::Stop) <==> (input is Closed || (input matches ClientInput::Message(m)
            && m@ == ClientMessageView::Stop)),
        input is Malformed ==> reader_rule(input) == ReaderActionView::KeepReading,
{
}

/// The sequence number that a delivered batch waits on: that of its last
/// change. An empty batch waits on nothing and is not sent.
pub fn ack_token(changes: &Vec<PolledChange>) -> (token: Option<String>)
    ensures
        changes.len() == 0 ==> token is None,
        changes.len() > 0 ==> (token matches Some(t) && t@ == changes@.last().seq@),
{
    if changes.len() == 0 {
        None
    } else {
        Some(changes[changes.len() - 1].seq.clone())
    }
}

} // verus!
