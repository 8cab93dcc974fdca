//! Per-connection protocol steps. The I/O layer runs the read loop; each
//! chunk it reads is handed to `handle_chunk`, which parses it, applies the
//! one registration transaction to the shared registry, and says which
//! response line to write and whether a "joined" event fires. When the stream
//! closes or a read fails, `handle_disconnect` removes the connection's
//! record and says whether a "left" event fires, and with which nickname.

use vstd::prelude::*;

use crate::protocol::{parse_model, valid_utf8, Command, CommandModel, ErrorCode, Response};
use crate::protocol::{is_valid_utf8, parse_command};
use crate::registry::{
    clone_bytes, nicknames_unique, register_result, register_state, Registry, RegistrationError,
};

verus! {

/// What one read chunk leads to: the response line owed to the client, and
/// the nickname of a "joined" lifecycle event if the chunk registered one.
pub struct ChunkOutcome {
    pub response: Response,
    pub joined: Option<Vec<u8>>,
}

/// What the session loop does with one read chunk.
pub enum ChunkStep {
    /// The chunk decoded as text: exactly one response line is owed.
    Respond(ChunkOutcome),
    /// The chunk was not well-formed text: fatal to this read. No response
    /// is written; the connection is torn down as on a read error.
    Malformed,
}

/// The response one chunk earns against registry state `m`: an empty,
/// unknown or argument-less command its protocol error, a `REG` the outcome
/// of its registration attempt.
pub open spec fn chunk_response(m: Map<u64, Seq<u8>>, identity: u64, chunk: Seq<u8>) -> Response {
    match parse_model(chunk) {
        CommandModel::Empty => Response::Rejected(ErrorCode::NilCmd),
        CommandModel::Unknown => Response::Rejected(ErrorCode::UnkCmd),
        CommandModel::MissingNick => Response::Rejected(ErrorCode::NilNick),
        CommandModel::Reg(nick) => match register_result(m, identity, nick) {
            Ok(_) => Response::Accepted,
            Err(RegistrationError::AlreadyRegistered) => Response::Rejected(ErrorCode::AlrReg),
            Err(RegistrationError::NicknameTaken) => Response::Rejected(ErrorCode::Tkn),
        },
    }
}

/// The registry state after one chunk: only an accepted `REG` changes it.
pub open spec fn chunk_state(m: Map<u64, Seq<u8>>, identity: u64, chunk: Seq<u8>) -> Map<
    u64,
    Seq<u8>,
> {
    match parse_model(chunk) {
        CommandModel::Reg(nick) => register_state(m, identity, nick),
        _ => m,
    }
}

/// Processes one read chunk for the connection `identity`: decodes it,
/// parses it, performs the registration transaction if it is a `REG`, and
/// returns exactly one response, with the "joined" event exactly on
/// acceptance. A chunk that is not well-formed text gets no response and
/// leaves the registry untouched.
pub fn handle_chunk(registry: &mut Registry, identity: u64, chunk: &[u8]) -> (out: ChunkStep)
    ensures
        match out {
            ChunkStep::Respond(o) => valid_utf8(chunk@) && o.response == chunk_response(
                old(registry)@,
                identity,
                chunk@,
            ) && final(registry)@ == chunk_state(old(registry)@, identity, chunk@) && (
            o.joined is Some <==> o.response == Response::Accepted) && (o.joined matches Some(n)
                ==> parse_model(chunk@) == CommandModel::Reg(n@)) && (nicknames_unique(
                final(registry)@,
            ) || final(registry)@ == old(registry)@),
            ChunkStep::Malformed => !valid_utf8(chunk@) && final(registry)@ == old(registry)@,
        },
{
    if !is_valid_utf8(chunk) {
        return ChunkStep::Malformed;
    }
    ChunkStep::Respond(match parse_command(chunk) {
        Command::Empty => ChunkOutcome {
            response: Response::Rejected(ErrorCode::NilCmd),
            joined: None,
        },
        Command::Unknown => ChunkOutcome {
            response: Response::Rejected(ErrorCode::UnkCmd),
            joined: None,
        },
        Command::MissingNick => ChunkOutcome {
            response: Response::Rejected(ErrorCode::NilNick),
            joined: None,
        },
        Command::Reg(nickname) => {
            let announced = clone_bytes(nickname.as_slice());
            match registry.try_register(identity, nickname) {
                Ok(()) => ChunkOutcome {
                    response: Response::Accepted,
                    joined: Some(announced),
                },
                Err(RegistrationError::AlreadyRegistered) => ChunkOutcome {
                    response: Response::Rejected(ErrorCode::AlrReg),
                    joined: None,
                },
                Err(RegistrationError::NicknameTaken) => ChunkOutcome {
                    response: Response::Rejected(ErrorCode::Tkn),
                    joined: None,
                },
            }
        }
    })
}

/// Tears one connection out of the registry when its stream closes or a read
/// fails: afterwards the identity is absent, and the "left" event fires with
/// the registered nickname exactly when the connection had registered.
pub fn handle_disconnect(registry: &mut Registry, identity: u64) -> (left: Option<Vec<u8>>)
    ensures
        final(registry)@ == old(registry)@.remove(identity),
        !final(registry)@.dom().contains(identity),
        match left {
            Some(n) => old(registry)@.dom().contains(identity) && n@ == old(registry)@[identity],
            None => !old(registry)@.dom().contains(identity),
        },
{
    match registry.remove(identity) {
        Some(c) => Some(c.nickname),
        None => None,
    }
}

} // verus!
