use vstd::prelude::*;

use crate::decode::{frames_from, Error, Parser};
use crate::frame::{encode_all, wire_all};
use crate::process::{replies, Process};

verus! {

/// The bytes written back for one buffer of requests, or why it could not
/// be decoded.
pub open spec fn response(input: Seq<u8>) -> Result<Seq<u8>, Error> {
    match frames_from(input, 0) {
        Ok(fs) => Ok(wire_all(replies(fs))),
        Err(err) => Err(err),
    }
}

/// Decodes a buffer of requests, answers them and encodes the replies.
pub fn respond(input: &[u8]) -> (r: Result<Vec<u8>, Error>)
    ensures
        match (r, response(input@)) {
            (Ok(out), Ok(bytes)) => out@ == bytes,
            (Err(e1), Err(e2)) => e1 == e2,
            _ => false,
        },
{
    match Parser::new(input) {
        Err(err) => Err(err),
        Ok(parser) => {
            let replies = parser.process();
            Ok(encode_all(&replies))
        },
    }
}

/// What one attempt to read from a connection produced.
#[derive(Debug, PartialEq, Eq)]
pub enum ReadOutcome {
    /// The bytes read; none means that the peer closed the connection.
    Read(Vec<u8>),
    /// Nothing was ready yet.
    WouldBlock,
    /// Reading failed.
    Failed,
}

/// What a connection does after a read.
#[derive(Debug, PartialEq, Eq)]
pub enum Action {
    /// Write these bytes back, then wait for more input.
    Send(Vec<u8>),
    /// Wait for the connection to become readable again.
    Retry,
    /// End the connection without error.
    Finish,
    /// End the connection with the read error.
    Fail,
    /// End the connection because its input could not be decoded.
    Reject(Error),
}

/// Decides what a connection does after one read.
pub fn step(event: ReadOutcome) -> (r: Action)
    ensures
        match event {
            ReadOutcome::Read(bytes) => if bytes@.len() == 0 {
                r is Finish
            } else {
                match response(bytes@) {
                    Ok(out) => r matches Action::Send(o) && o@ == out,
                    Err(err) => r == Action::Reject(err),
                }
            },
            ReadOutcome::WouldBlock => r is Retry,
            ReadOutcome::Failed => r is Fail,
        },
{
    match event {
        ReadOutcome::Read(bytes) => {
            if bytes.len() == 0 {
                Action::Finish
            } else {
                match respond(bytes.as_slice()) {
                    Ok(out) => Action::Send(out),
                    Err(err) => Action::Reject(err),
                }
            }
        },
        ReadOutcome::WouldBlock => Action::Retry,
        ReadOutcome::Failed => Action::Fail,
    }
}

} // verus!
