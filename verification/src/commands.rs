//! The command interpreter: one fully decoded array value is recognized,
//! case-insensitively, as one of the closed set of commands, or rejected.

use vstd::prelude::*;
use crate::value::{Value, ValueModel, spec_encode_string, lemma_models_upto};

verus! {

/// The available commands for the client.
#[derive(PartialEq, Debug, Clone)]
pub enum RedisCommands {
    Ping,
    /// Carries the wire-encoded form of its argument, not the raw text: the
    /// argument is re-encoded, so consumers receive the bulk-string bytes.
    Echo(String),
}

/// The mathematical model of a command.
pub enum CommandModel {
    Ping,
    Echo(Seq<char>),
}

impl RedisCommands {
    /// The mathematical model of this command.
    pub open spec fn model(self) -> CommandModel {
        match self {
            RedisCommands::Ping => CommandModel::Ping,
            RedisCommands::Echo(s) => CommandModel::Echo(s@),
        }
    }
}

/// Why a decoded value was not understood as a command.
#[derive(PartialEq, Debug, Clone)]
pub enum CommandError {
    /// The decoded value is not an array.
    IncorrectCommand,
    /// The array is empty, or its first element is not textual.
    NotACommand,
    /// An `echo` whose argument is missing or cannot be encoded.
    MissingEchoArgument,
    /// A textual first element that names no recognized command; carries the
    /// lowercased name.
    UnknownCommand(String),
}

/// The mathematical model of a command-interpretation failure.
pub enum CommandErrorModel {
    IncorrectCommand,
    NotACommand,
    MissingEchoArgument,
    UnknownCommand(Seq<char>),
}

impl CommandError {
    /// The mathematical model of this failure.
    pub open spec fn model(self) -> CommandErrorModel {
        match self {
            CommandError::IncorrectCommand => CommandErrorModel::IncorrectCommand,
            CommandError::NotACommand => CommandErrorModel::NotACommand,
            CommandError::MissingEchoArgument => CommandErrorModel::MissingEchoArgument,
            CommandError::UnknownCommand(s) => CommandErrorModel::UnknownCommand(s@),
        }
    }
}

/// The text a value contributes as a command word: the payload of a string
/// or an error value.
pub open spec fn text_of(m: ValueModel) -> Option<Seq<char>> {
    match m {
        ValueModel::VStr(t) => Some(t),
        ValueModel::VErr(t) => Some(t),
        _ => None,
    }
}

/// The lowercase form of a character sequence, as `str::to_lowercase`
/// computes it.
pub uninterp spec fn lower_of(s: Seq<char>) -> Seq<char>;

/// Relies on `str::to_lowercase`: the result depends on the characters alone.
#[verifier::external_body]
fn to_lowercase(s: &String) -> (r: String)
    ensures
        r@ == lower_of(s@),
{
    s.to_lowercase()
}

/// What interpreting one decoded value yields: the recognized command, or
/// exactly why the value is no command.
pub open spec fn spec_interpret(m: ValueModel) -> Result<CommandModel, CommandErrorModel> {
    match m {
        ValueModel::VArr(ms) => {
            if ms.len() == 0 {
                Err(CommandErrorModel::NotACommand)
            } else {
                match text_of(ms[0]) {
                    None => Err(CommandErrorModel::NotACommand),
                    Some(t) => {
                        let low = lower_of(t);
                        if low == "ping"@ {
                            Ok(CommandModel::Ping)
                        } else if low == "echo"@ {
                            if ms.len() >= 2 {
                                match ms[1] {
                                    ValueModel::VStr(p) => Ok(
                                        CommandModel::Echo(spec_encode_string(p)),
                                    ),
                                    _ => Err(CommandErrorModel::MissingEchoArgument),
                                }
                            } else {
                                Err(CommandErrorModel::MissingEchoArgument)
                            }
                        } else {
                            Err(CommandErrorModel::UnknownCommand(low))
                        }
                    },
                }
            }
        },
        _ => Err(CommandErrorModel::IncorrectCommand),
    }
}

impl RedisCommands {
    /// Interpret one decoded value as a command: the value must be an array
    /// whose first element is textual and, lowercased, names a recognized
    /// command; `echo` moreover needs an encodable (string) second element,
    /// whose wire-encoded form becomes the stored payload.
    pub fn try_from(value: Value) -> (r: Result<RedisCommands, CommandError>)
        ensures
            match r {
                Ok(c) => spec_interpret(value.model()) == Ok::<
                    CommandModel,
                    CommandErrorModel,
                >(c.model()),
                Err(e) => spec_interpret(value.model()) == Err::<
                    CommandModel,
                    CommandErrorModel,
                >(e.model()),
            },
    {
        let values = match value {
            Value::Array(values) => values,
            _ => {
                return Err(CommandError::IncorrectCommand);
            },
        };
        proof {
            lemma_models_upto(values@, values@.len() as int);
        }
        if values.len() == 0 {
            return Err(CommandError::NotACommand);
        }
        let cmd = match values[0].to_string() {
            None => {
                return Err(CommandError::NotACommand);
            },
            Some(s) => s,
        };
        let low = to_lowercase(&cmd);
        if low == "ping".to_owned() {
            Ok(RedisCommands::Ping)
        } else if low == "echo".to_owned() {
            if values.len() < 2 {
                return Err(CommandError::MissingEchoArgument);
            }
            match values[1].encode() {
                Ok(payload) => Ok(RedisCommands::Echo(payload)),
                Err(_) => Err(CommandError::MissingEchoArgument),
            }
        } else {
            Err(CommandError::UnknownCommand(low))
        }
    }
}

} // verus!
