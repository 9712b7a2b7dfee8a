//! Recognizing commands framed as arrays of bulk strings, the binary wire
//! form: `["GET", key]`, `["SET", key, value]` and so on, verbs uppercase
//! and case-sensitive.

use vstd::prelude::*;

use crate::command::{Command, CommandView, SubCommand};
use crate::protocol::resp2::{parse_data, spec_parse_data, Data, DataView, Parsed, SpecParsed};
use crate::bytes::bytes_eq;
use vstd::utf8::encode_utf8;

verus! {

/// The payload of a bulk string, if the value is one.
pub open spec fn as_bulk(d: DataView) -> Option<Seq<u8>> {
    match d {
        DataView::BulkString { length: _, data } => Some(data),
        _ => None,
    }
}

/// The command a framed value denotes: an array of bulk strings whose verb
/// and arity match the table, or nothing.
pub open spec fn spec_command_of(d: DataView) -> Option<CommandView> {
    match d {
        DataView::Array(items) => {
            if items.len() == 1 && as_bulk(items[0]) is Some {
                let b0 = as_bulk(items[0])->Some_0;
                if b0 == encode_utf8("DBSIZE"@) {
                    Some(CommandView::DbSize)
                } else if b0 == encode_utf8("KEYS"@) {
                    Some(CommandView::Keys(None))
                } else if b0 == encode_utf8("PING"@) {
                    Some(CommandView::Ping)
                } else if b0 == encode_utf8("QUIT"@) {
                    Some(CommandView::Quit)
                } else {
                    None
                }
            } else if items.len() == 2 && as_bulk(items[0]) is Some && as_bulk(items[1]) is Some {
                let b0 = as_bulk(items[0])->Some_0;
                let b1 = as_bulk(items[1])->Some_0;
                if b0 == encode_utf8("COMMAND"@) && b1 == encode_utf8("DOCS"@) {
                    Some(CommandView::Command(SubCommand::Docs))
                } else if b0 == encode_utf8("ECHO"@) {
                    Some(CommandView::Echo(b1))
                } else if b0 == encode_utf8("GET"@) {
                    Some(CommandView::Get(b1))
                } else if b0 == encode_utf8("KEYS"@) {
                    Some(CommandView::Keys(Some(b1)))
                } else {
                    None
                }
            } else if items.len() == 3 && as_bulk(items[0]) is Some && as_bulk(items[1]) is Some
                && as_bulk(items[2]) is Some {
                let b0 = as_bulk(items[0])->Some_0;
                if b0 == encode_utf8("SET"@) {
                    Some(CommandView::Put(as_bulk(items[1])->Some_0, as_bulk(items[2])->Some_0))
                } else {
                    None
                }
            } else {
                None
            }
        },
        _ => None,
    }
}

/// Parsing a command from framed bytes: parse one framed value, then
/// recognize it; a whole value that is no command is malformed.
pub open spec fn spec_parse_command(s: Seq<u8>) -> SpecParsed<CommandView> {
    match spec_parse_data(s) {
        SpecParsed::Value { value, used } => match spec_command_of(value) {
            Some(c) => SpecParsed::Value { value: c, used },
            None => SpecParsed::Malformed,
        },
        SpecParsed::Incomplete => SpecParsed::Incomplete,
        SpecParsed::Malformed => SpecParsed::Malformed,
    }
}

/// The view of an exec command-parse outcome.
pub open spec fn command_parsed_view(r: Parsed<Command>) -> SpecParsed<CommandView> {
    match r {
        Parsed::Value { value, used } => SpecParsed::Value { value: value@, used: used as int },
        Parsed::Incomplete => SpecParsed::Incomplete,
        Parsed::Malformed => SpecParsed::Malformed,
    }
}

/// Whether the payload bytes equal the bytes of a (short, ASCII) verb.
fn is_verb(data: &Vec<u8>, verb: &str) -> (r: bool)
    ensures
        r <==> data@ == encode_utf8(verb@),
{
    bytes_eq(data.as_slice(), verb.as_bytes())
}

/// Recognize a parsed frame as a command.
fn command_from_data(d: Data) -> (r: Option<Command>)
    ensures
        match r {
            Some(c) => spec_command_of(d@) == Some(c@),
            None => spec_command_of(d@) is None,
        },
{
    match d {
        Data::Array(mut items) => {
            let ghost items0 = items@;
            proof {
                crate::protocol::resp2::lemma_data_seq_view(items0);
                assert(d@ == DataView::Array(crate::protocol::resp2::data_seq_view(items0)));
            }
            if items.len() == 1 {
                let a0 = items.remove(0);
                proof {
                    assert(a0 == items0[0]);
                    assert(crate::protocol::resp2::data_seq_view(items0)[0] == items0[0]@);
                }
                match a0 {
                    Data::BulkString { length: _, data } => {
                        if is_verb(&data, "DBSIZE") {
                            Some(Command::DbSize)
                        } else if is_verb(&data, "KEYS") {
                            Some(Command::Keys(None))
                        } else if is_verb(&data, "PING") {
                            Some(Command::Ping)
                        } else if is_verb(&data, "QUIT") {
                            Some(Command::Quit)
                        } else {
                            None
                        }
                    },
                    _ => None,
                }
            } else if items.len() == 2 {
                let a1 = items.remove(1);
                let a0 = items.remove(0);
                proof {
                    assert(a1 == items0[1]);
                    assert(a0 == items0.remove(1)[0]);
                    assert(items0.remove(1)[0] == items0[0]);
                    assert(crate::protocol::resp2::data_seq_view(items0)[0] == items0[0]@);
                    assert(crate::protocol::resp2::data_seq_view(items0)[1] == items0[1]@);
                }
                match (a0, a1) {
                    (
                        Data::BulkString { length: _, data: d0 },
                        Data::BulkString { length: _, data: d1 },
                    ) => {
                        if is_verb(&d0, "COMMAND") && is_verb(&d1, "DOCS") {
                            Some(Command::Command(SubCommand::Docs))
                        } else if is_verb(&d0, "ECHO") {
                            Some(Command::Echo(d1))
                        } else if is_verb(&d0, "GET") {
                            Some(Command::Get(d1))
                        } else if is_verb(&d0, "KEYS") {
                            Some(Command::Keys(Some(d1)))
                        } else {
                            None
                        }
                    },
                    _ => None,
                }
            } else if items.len() == 3 {
                let a2 = items.remove(2);
                let a1 = items.remove(1);
                let a0 = items.remove(0);
                proof {
                    assert(a2 == items0[2]);
                    assert(a1 == items0.remove(2)[1]);
                    assert(items0.remove(2)[1] == items0[1]);
                    assert(a0 == items0.remove(2).remove(1)[0]);
                    assert(items0.remove(2).remove(1)[0] == items0[0]);
                    assert(crate::protocol::resp2::data_seq_view(items0)[0] == items0[0]@);
                    assert(crate::protocol::resp2::data_seq_view(items0)[1] == items0[1]@);
                    assert(crate::protocol::resp2::data_seq_view(items0)[2] == items0[2]@);
                }
                match (a0, a1, a2) {
                    (
                        Data::BulkString { length: _, data: d0 },
                        Data::BulkString { length: _, data: d1 },
                        Data::BulkString { length: _, data: d2 },
                    ) => {
                        if is_verb(&d0, "SET") {
                            Some(Command::Put(d1, d2))
                        } else {
                            None
                        }
                    },
                    _ => None,
                }
            } else {
                None
            }
        },
        _ => None,
    }
}

/// Parse one command from the front of the buffer. A buffer whose first
/// frame is whole but is not a recognized command is malformed.
pub fn parse_command(input: &[u8]) -> (r: Parsed<Command>)
    ensures
        command_parsed_view(r) == spec_parse_command(input@),
        r matches Parsed::Value { value: _, used } ==> 1 <= used <= input@.len(),
{
    match parse_data(input) {
        Parsed::Value { value, used } => {
            match command_from_data(value) {
                Some(c) => Parsed::Value { value: c, used },
                None => Parsed::Malformed,
            }
        },
        Parsed::Incomplete => Parsed::Incomplete,
        Parsed::Malformed => Parsed::Malformed,
    }
}

/// Parse a command, keeping only the command itself.
pub fn try_parse_command(input: &[u8]) -> (r: Option<Command>)
    ensures
        match r {
            Some(c) => spec_parse_command(input@) matches SpecParsed::Value { value, used: _ }
                && value == c@,
            None => !(spec_parse_command(input@) is Value),
        },
{
    match parse_command(input) {
        Parsed::Value { value, used: _ } => Some(value),
        _ => None,
    }
}

} // verus!
