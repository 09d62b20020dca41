//! Commands and their payloads. A payload is the JSON text that `serde_json`
//! writes for the pair of the key and the optional value: a value for a
//! command that sets the key, `null` for a tombstone.

use vstd::prelude::*;

use crate::checksum::{checksum, crc32};
use crate::error::KvError;
use crate::json::{from_json, json_fields, json_text, to_json};
use crate::record::MAX_PAYLOAD;

verus! {

/// A logical operation as the log records it.
#[derive(Debug)]
pub enum Command {
    /// Binds `key` to `value`.
    Put { key: String, value: String },
    /// Unbinds `key`: a tombstone.
    Remove { key: String },
}

/// A command as contracts see it: keys and values as sequences of characters.
pub enum CommandView {
    Put { key: Seq<char>, value: Seq<char> },
    Remove { key: Seq<char> },
}

impl CommandView {
    /// The key that the command is about.
    pub open spec fn key(self) -> Seq<char> {
        match self {
            CommandView::Put { key, .. } => key,
            CommandView::Remove { key } => key,
        }
    }

    /// The value that the command binds, if it binds one.
    pub open spec fn value(self) -> Option<Seq<char>> {
        match self {
            CommandView::Put { value, .. } => Some(value),
            CommandView::Remove { .. } => None,
        }
    }

    /// The command with the given key and optional value.
    pub open spec fn of(key: Seq<char>, value: Option<Seq<char>>) -> CommandView {
        match value {
            Some(v) => CommandView::Put { key, value: v },
            None => CommandView::Remove { key },
        }
    }
}

impl View for Command {
    type V = CommandView;

    open spec fn view(&self) -> CommandView {
        match self {
            Command::Put { key, value } => CommandView::Put { key: key@, value: value@ },
            Command::Remove { key } => CommandView::Remove { key: key@ },
        }
    }
}

/// The payload that stands for a command, where there is one.
pub open spec fn encoding(command: CommandView) -> Option<Seq<u8>> {
    json_text(command.key(), command.value())
}

/// The command that a payload stands for, where it stands for one.
pub open spec fn decoding(payload: Seq<u8>) -> Option<CommandView> {
    match json_fields(payload) {
        Some((key, value)) => Some(CommandView::of(key, value)),
        None => None,
    }
}

/// A payload that may go into the log for `command`: it is the command's
/// encoding, it is read back as the same command, and it is within the cap.
pub open spec fn carries(payload: Seq<u8>, command: CommandView) -> bool {
    &&& encoding(command) == Some(payload)
    &&& decoding(payload) == Some(command)
    &&& payload.len() <= MAX_PAYLOAD
}

/// The payload that goes into the log for a command: its encoding, if that
/// is within the cap and is read back as the same command.
pub open spec fn written(command: CommandView) -> Option<Seq<u8>> {
    match encoding(command) {
        Some(payload) => if carries(payload, command) {
            Some(payload)
        } else {
            None
        },
        None => None,
    }
}

impl Command {
    /// The key that the command is about.
    pub fn key(&self) -> (key: &String)
        ensures
            key@ == self@.key(),
    {
        match self {
            Command::Put { key, .. } => key,
            Command::Remove { key } => key,
        }
    }

    /// The command with the given key that binds `value`, or unbinds the key
    /// where there is no value.
    pub fn from_fields(key: String, value: Option<String>) -> (command: Command)
        ensures
            command@ == CommandView::of(
                key@,
                match value {
                    Some(v) => Some(v@),
                    None => None,
                },
            ),
    {
        match value {
            Some(v) => Command::Put { key, value: v },
            None => Command::Remove { key },
        }
    }

    /// Tells whether two commands are the same operation on the same strings.
    pub fn same(&self, other: &Command) -> (eq: bool)
        ensures
            eq == (self@ == other@),
    {
        match (self, other) {
            (Command::Put { key: k1, value: v1 }, Command::Put { key: k2, value: v2 }) => {
                *k1 == *k2 && *v1 == *v2
            },
            (Command::Remove { key: k1 }, Command::Remove { key: k2 }) => *k1 == *k2,
            _ => false,
        }
    }

    /// Serializes the command.
    pub fn serialize(&self) -> (r: Result<Vec<u8>, KvError>)
        ensures
            match r {
                Ok(payload) => encoding(self@) == Some(payload@),
                Err(e) => e == KvError::Codec && encoding(self@) is None,
            },
    {
        let written = match self {
            Command::Put { key, value } => to_json(key, Some(value)),
            Command::Remove { key } => to_json(key, None),
        };
        match written {
            Ok(payload) => Ok(payload),
            Err(_) => Err(KvError::Codec),
        }
    }

    /// Reads a command back from a payload.
    pub fn decode(payload: &[u8]) -> (r: Result<Command, KvError>)
        ensures
            match r {
                Ok(command) => decoding(payload@) == Some(command@),
                Err(e) => e == KvError::Codec && decoding(payload@) is None,
            },
    {
        match from_json(payload) {
            Ok((key, value)) => Ok(Command::from_fields(key, value)),
            Err(_) => Err(KvError::Codec),
        }
    }

    /// Serializes the command for the log, and hands the payload out only if
    /// it is within the cap and is read back as the same command.
    pub fn to_payload(&self) -> (r: Result<Vec<u8>, KvError>)
        ensures
            match r {
                Ok(payload) => carries(payload@, self@),
                Err(e) => e == KvError::Codec && !(encoding(self@) is Some && carries(
                    encoding(self@).unwrap(),
                    self@,
                )),
            },
    {
        let payload: Vec<u8> = self.serialize()?;
        if payload.len() as u64 > MAX_PAYLOAD {
            return Err(KvError::Codec);
        }
        match Command::decode(payload.as_slice()) {
            Ok(back) => {
                if back.same(self) {
                    Ok(payload)
                } else {
                    Err(KvError::Codec)
                }
            },
            Err(e) => Err(e),
        }
    }
}

/// Encodes a command for the log: its payload, the payload's checksum, and
/// the payload's length.
pub fn encode(command: &Command) -> (r: Result<(Vec<u8>, u32, u64), KvError>)
    ensures
        match r {
            Ok((payload, crc, len)) => written(command@) == Some(payload@) && crc == crc32(
                payload@,
            ) && len == payload@.len(),
            Err(e) => e == KvError::Codec && written(command@) is None,
        },
{
    let payload: Vec<u8> = command.to_payload()?;
    let crc: u32 = checksum(payload.as_slice());
    let len: u64 = payload.len() as u64;
    Ok((payload, crc, len))
}

} // verus!
