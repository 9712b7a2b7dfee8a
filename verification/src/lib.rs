//! A small persistent key-value store speaking a Redis-compatible line
//! protocol: an append-only log with an in-memory key directory, a
//! streaming parser for the framed wire format with a plaintext fallback,
//! and a per-connection command loop.

use vstd::prelude::*;

pub mod bitcask;
pub mod command;
pub mod config;
pub mod protocol;
pub mod resp2;
pub mod simple;
pub mod bytes;
pub mod entry;
pub mod server;

use crate::command::{Command, CommandView};
use crate::protocol::resp2::{Parsed, SpecParsed};
use crate::resp2::command_parsed_view;

verus! {

/// Parse a command from a buffer: the plaintext form is tried first, then
/// the binary framing. A buffer that ends inside a plaintext verb is
/// incomplete without the framing being tried, as a framed buffer never
/// begins with a verb letter.
pub open spec fn spec_parse_command(s: Seq<u8>) -> SpecParsed<CommandView> {
    match crate::simple::spec_parse_simple(s) {
        SpecParsed::Value { value, used } => SpecParsed::Value { value, used },
        SpecParsed::Incomplete => SpecParsed::Incomplete,
        SpecParsed::Malformed => crate::resp2::spec_parse_command(s),
    }
}

/// Parse a command from a buffer. Attempt the plaintext form first, then
/// fall back to the binary framing.
pub fn parse_command(input: &[u8]) -> (r: Parsed<Command>)
    ensures
        command_parsed_view(r) == spec_parse_command(input@),
        r matches Parsed::Value { value: _, used } ==> 1 <= used <= input@.len(),
{
    match crate::simple::parse_command(input) {
        Parsed::Value { value, used } => Parsed::Value { value, used },
        Parsed::Incomplete => Parsed::Incomplete,
        Parsed::Malformed => crate::resp2::parse_command(input),
    }
}

/// Parse a command, keeping only the command itself.
pub fn try_parse_command(input: &[u8]) -> (r: Option<Command>)
    ensures
        match r {
            Some(c) => spec_parse_command(input@) matches SpecParsed::Value { value, used: _ }
                && value == c@,
            None => !(spec_parse_command(input@) is Value),
        },
{
    match parse_command(input) {
        Parsed::Value { value, used: _ } => Some(value),
        _ => None,
    }
}

/// Idempotent incomplete parse: a buffer holding any strict prefix of a
/// framed command is reported incomplete, so the caller keeps the bytes,
/// reads more and retries; nothing is carried over between the calls.
pub proof fn lemma_command_prefix_incomplete(s: Seq<u8>, j: int)
    requires
        s.len() > 0,
        s[0] == 42,
        crate::resp2::spec_parse_command(s) matches SpecParsed::Value { value: _, used } && 0 <= j
            < used,
    ensures
        spec_parse_command(s.take(j)) is Incomplete,
{
    let t = s.take(j);
    crate::protocol::resp2::lemma_parse_bounds(s);
    assert(j < s.len());
    if j == 0 {
        assert(t.len() == 0);
        assert(crate::simple::spec_parse_simple(t) is Incomplete);
    } else {
        assert(t[0] == 42);
        assert(crate::simple::lower(42) == 42);
        assert(crate::simple::spec_parse_simple(t) is Malformed);
        match crate::protocol::resp2::spec_parse_data(s) {
            SpecParsed::Value { value, used } => {
                crate::protocol::resp2::lemma_prefix_incomplete(s, j);
            },
            _ => {
                assert(false);
            },
        }
        assert(crate::protocol::resp2::spec_parse_data(t) is Incomplete);
        assert(crate::resp2::spec_parse_command(t) is Incomplete);
    }
}

} // verus!
