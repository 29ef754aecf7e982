//! The pure part of one connection's request/response step: the bytes of one
//! read are decoded, interpreted, and answered, or the step reports why this
//! connection's loop must end. All I/O stays with the caller; each connection
//! hands in only its own buffer, so no step can observe another connection.

use vstd::prelude::*;
use vstd::utf8::encode_utf8;
use crate::parser::{RedisParser, DecodeError, DecodeKind, spec_parse_value};
use crate::commands::{RedisCommands, CommandError, CommandModel, CommandErrorModel, spec_interpret};

verus! {

broadcast use vstd::seq::group_seq_axioms;

/// Why one request/response step ended this connection's loop.
#[derive(PartialEq, Debug)]
pub enum RequestError {
    /// The read held no bytes: end of this connection's stream.
    Empty,
    /// The bytes do not decode as one value.
    Decode(DecodeError),
    /// The decoded value is not a recognized command.
    Command(CommandError),
}

/// The mathematical model of a request failure.
pub enum RequestErrorModel {
    Empty,
    Decode(DecodeKind, int),
    Command(CommandErrorModel),
}

impl RequestError {
    /// The mathematical model of this failure.
    pub open spec fn model(self) -> RequestErrorModel {
        match self {
            RequestError::Empty => RequestErrorModel::Empty,
            RequestError::Decode(e) => RequestErrorModel::Decode(e.kind, e.offset as int),
            RequestError::Command(e) => RequestErrorModel::Command(e.model()),
        }
    }
}

/// The response owed to one recognized command: a fixed pong line for `ping`,
/// the stored payload verbatim for `echo`.
pub open spec fn spec_response(c: CommandModel) -> Seq<u8> {
    match c {
        CommandModel::Ping => seq![43u8, 80u8, 79u8, 78u8, 71u8, 13u8, 10u8],  // "+PONG\r\n"
        CommandModel::Echo(t) => encode_utf8(t),
    }
}

/// One request/response step on the bytes of one read: decode exactly one
/// value from the front of the buffer, interpret it as a command, and answer
/// it; empty reads, malformed bytes, and unrecognized commands each end the
/// step with their exact cause.
pub open spec fn spec_handle_request(input: Seq<u8>) -> Result<Seq<u8>, RequestErrorModel> {
    if input.len() == 0 {
        Err(RequestErrorModel::Empty)
    } else {
        match spec_parse_value(input, 0) {
            Err((k, off)) => Err(RequestErrorModel::Decode(k, off)),
            Ok((m, p)) => match spec_interpret(m) {
                Err(e) => Err(RequestErrorModel::Command(e)),
                Ok(c) => Ok(spec_response(c)),
            },
        }
    }
}

/// One request/response step on the bytes one read produced.
pub fn handle_request(buffer: &[u8]) -> (r: Result<Vec<u8>, RequestError>)
    ensures
        match r {
            Ok(resp) => spec_handle_request(buffer@) == Ok::<Seq<u8>, RequestErrorModel>(resp@),
            Err(e) => spec_handle_request(buffer@) == Err::<Seq<u8>, RequestErrorModel>(e.model()),
        },
{
    let mut parser = RedisParser::new(buffer);
    let decoded = match parser.next() {
        None => {
            return Err(RequestError::Empty);
        },
        Some(Ok(v)) => v,
        Some(Err(e)) => {
            return Err(RequestError::Decode(e));
        },
    };
    let command = match RedisCommands::try_from(decoded) {
        Ok(c) => c,
        Err(e) => {
            return Err(RequestError::Command(e));
        },
    };
    match command {
        RedisCommands::Ping => {
            let mut resp: Vec<u8> = Vec::new();
            resp.push(43);
            resp.push(80);
            resp.push(79);
            resp.push(78);
            resp.push(71);
            resp.push(13);
            resp.push(10);
            proof {
                assert(resp@ =~= seq![43u8, 80u8, 79u8, 78u8, 71u8, 13u8, 10u8]);
            }
            Ok(resp)
        },
        RedisCommands::Echo(x) => {
            let bytes = vstd::slice::slice_to_vec(x.as_str().as_bytes());
            Ok(bytes)
        },
    }
}

} // verus!
