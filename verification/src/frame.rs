//! The kinds of WebSocket message that broker and client tell apart, and
//! what a client makes of each.
use crate::protocol::{parse_message, spec_parse_message, Message, MessageView, ProtocolResult};
use vstd::prelude::*;

verus! {

/// A WebSocket message as the broker and its clients see it: only binary
/// messages carry broker messages; a close message ends the connection.
#[derive(Debug)]
pub enum Frame {
    Text(String),
    Binary(Vec<u8>),
    Ping(Vec<u8>),
    Pong(Vec<u8>),
    Close,
}

/// What a client receives from a WebSocket message: the broker message of a
/// binary message (or the error met decoding it), nothing for any other.
pub open spec fn spec_incoming_message(frame: Frame) -> Result<Option<MessageView>, Seq<char>> {
    match frame {
        Frame::Binary(data) => match spec_parse_message(data@) {
            Ok(m) => Ok(Some(m)),
            Err(e) => Err(e),
        },
        _ => Ok(None),
    }
}

/// Decodes the broker message that a client received in a WebSocket message.
pub fn incoming_message(frame: Frame) -> (res: ProtocolResult<Option<Message>>)
    requires
        frame matches Frame::Binary(data) ==> data@.len() >= 2,
    ensures
        match res {
            Ok(Some(msg)) => spec_incoming_message(frame) == Ok::<Option<MessageView>, Seq<char>>(
                Some(msg@),
            ),
            Ok(None) => spec_incoming_message(frame) == Ok::<Option<MessageView>, Seq<char>>(None),
            Err(e) => spec_incoming_message(frame) == Err::<Option<MessageView>, Seq<char>>(e@),
        },
        frame matches Frame::Binary(data) ==> match spec_parse_message(data@) {
            Ok(m) => res matches Ok(Some(msg)) && msg@ == m,
            Err(text) => res matches Err(e) && e@ == text,
        },
        !(frame is Binary) ==> res matches Ok(None),
{
    match frame {
        Frame::Binary(data) => match parse_message(data.as_slice()) {
            Ok(msg) => Ok(Some(msg)),
            Err(e) => Err(e),
        },
        _ => Ok(None),
    }
}

/// A client receives every broker message that a binary WebSocket message
/// decodes to, of every kind and unchanged, and the decoding error where it
/// does not decode; any other kind of WebSocket message gives it nothing.
pub proof fn lemma_client_receives_decoded(frame: Frame)
    ensures
        frame matches Frame::Binary(data) ==> match spec_parse_message(data@) {
            Ok(m) => spec_incoming_message(frame) == Ok::<Option<MessageView>, Seq<char>>(Some(m)),
            Err(text) => spec_incoming_message(frame) == Err::<Option<MessageView>, Seq<char>>(text),
        },
        !(frame is Binary) ==> spec_incoming_message(frame) == Ok::<Option<MessageView>, Seq<char>>(
            None,
        ),
{
}

} // verus!
