//! The plaintext fallback protocol: `VERB [arg1 [arg2]]` with a
//! case-insensitive verb, alphanumeric arguments separated by single
//! spaces, terminated by one or more CRLF or LF line endings.
//!
//! The outcome `Malformed` here means only that the buffer is not a
//! plaintext command: the caller then tries the binary framing.

use vstd::prelude::*;

use crate::command::{Command, CommandView};
use crate::protocol::resp2::{Parsed, SpecParsed};
use crate::resp2::command_parsed_view;
use vstd::slice::{slice_subrange, slice_to_vec};
use vstd::utf8::encode_utf8;

verus! {

/// An ASCII letter or digit.
pub open spec fn is_alnum(b: u8) -> bool {
    (48 <= b <= 57) || (65 <= b <= 90) || (97 <= b <= 122)
}

/// ASCII lower-casing of one byte.
pub open spec fn lower(b: u8) -> u8 {
    if 65 <= b <= 90 {
        (b + 32) as u8
    } else {
        b
    }
}

/// The whole (lower-cased) verb stands at `p`.
pub open spec fn matches_verb(s: Seq<u8>, p: int, verb: Seq<u8>) -> bool {
    p + verb.len() <= s.len() && forall|i: int|
        0 <= i < verb.len() ==> lower(s[p + i]) == #[trigger] verb[i]
}

/// The buffer ends in the middle of the verb.
pub open spec fn prefix_of_verb(s: Seq<u8>, p: int, verb: Seq<u8>) -> bool {
    s.len() - p < verb.len() && forall|i: int|
        0 <= i < s.len() - p ==> lower(s[p + i]) == #[trigger] verb[i]
}

/// The first position at or after `p` that ends a run of alphanumerics.
pub open spec fn token_end(s: Seq<u8>, p: int) -> int
    decreases s.len() - p,
{
    if p < 0 || p >= s.len() || !is_alnum(s[p]) {
        p
    } else {
        token_end(s, p + 1)
    }
}

/// The position after the maximal run of complete line endings at `p`.
pub open spec fn terms_end(s: Seq<u8>, p: int) -> int
    decreases s.len() - p,
{
    if 0 <= p < s.len() && s[p] == 10 {
        terms_end(s, p + 1)
    } else if 0 <= p && p + 1 < s.len() && s[p] == 13 && s[p + 1] == 10 {
        terms_end(s, p + 2)
    } else {
        p
    }
}

/// Outcome of reading one space-separated argument.
pub enum ArgParse {
    Arg { token: Seq<u8>, end: int },
    Incomplete,
    Malformed,
}

/// Read a single space, then a nonempty alphanumeric token that is known to
/// have ended. A token running to the end of the buffer may continue, so it
/// is incomplete.
pub open spec fn spec_arg(s: Seq<u8>, p: int) -> ArgParse {
    if p >= s.len() {
        ArgParse::Incomplete
    } else if s[p] != 32 {
        ArgParse::Malformed
    } else {
        let q = p + 1;
        let e = token_end(s, q);
        if e == q {
            if q >= s.len() {
                ArgParse::Incomplete
            } else {
                ArgParse::Malformed
            }
        } else if e >= s.len() {
            ArgParse::Incomplete
        } else {
            ArgParse::Arg { token: s.subrange(q, e), end: e }
        }
    }
}

/// Outcome of reading the line endings that close a command.
pub enum TermParse {
    Term { end: int },
    Incomplete,
    Malformed,
}

/// Read one or more complete CRLF or LF line endings.
pub open spec fn spec_terms(s: Seq<u8>, p: int) -> TermParse {
    let q = terms_end(s, p);
    if q > p {
        TermParse::Term { end: q }
    } else if p >= s.len() {
        TermParse::Incomplete
    } else if s[p] == 13 && p + 1 >= s.len() {
        TermParse::Incomplete
    } else {
        TermParse::Malformed
    }
}

/// A command with no arguments: the verb, then line endings.
pub open spec fn spec_simple_0(s: Seq<u8>, verb: Seq<u8>, c: CommandView) -> SpecParsed<
    CommandView,
> {
    if prefix_of_verb(s, 0, verb) {
        SpecParsed::Incomplete
    } else if !matches_verb(s, 0, verb) {
        SpecParsed::Malformed
    } else {
        match spec_terms(s, verb.len() as int) {
            TermParse::Term { end } => SpecParsed::Value { value: c, used: end },
            TermParse::Incomplete => SpecParsed::Incomplete,
            TermParse::Malformed => SpecParsed::Malformed,
        }
    }
}

/// A command with one argument: the verb, a space, the argument, then line
/// endings.
pub open spec fn spec_simple_1(s: Seq<u8>, verb: Seq<u8>) -> SpecParsed<Seq<u8>> {
    if prefix_of_verb(s, 0, verb) {
        SpecParsed::Incomplete
    } else if !matches_verb(s, 0, verb) {
        SpecParsed::Malformed
    } else {
        match spec_arg(s, verb.len() as int) {
            ArgParse::Arg { token, end } => match spec_terms(s, end) {
                TermParse::Term { end: e2 } => SpecParsed::Value { value: token, used: e2 },
                TermParse::Incomplete => SpecParsed::Incomplete,
                TermParse::Malformed => SpecParsed::Malformed,
            },
            ArgParse::Incomplete => SpecParsed::Incomplete,
            ArgParse::Malformed => SpecParsed::Malformed,
        }
    }
}

/// A command with two arguments.
pub open spec fn spec_simple_2(s: Seq<u8>, verb: Seq<u8>) -> SpecParsed<(Seq<u8>, Seq<u8>)> {
    if prefix_of_verb(s, 0, verb) {
        SpecParsed::Incomplete
    } else if !matches_verb(s, 0, verb) {
        SpecParsed::Malformed
    } else {
        match spec_arg(s, verb.len() as int) {
            ArgParse::Arg { token: t1, end: e1 } => match spec_arg(s, e1) {
                ArgParse::Arg { token: t2, end: e2 } => match spec_terms(s, e2) {
                    TermParse::Term { end: e3 } => SpecParsed::Value {
                        value: (t1, t2),
                        used: e3,
                    },
                    TermParse::Incomplete => SpecParsed::Incomplete,
                    TermParse::Malformed => SpecParsed::Malformed,
                },
                ArgParse::Incomplete => SpecParsed::Incomplete,
                ArgParse::Malformed => SpecParsed::Malformed,
            },
            ArgParse::Incomplete => SpecParsed::Incomplete,
            ArgParse::Malformed => SpecParsed::Malformed,
        }
    }
}

/// Parse a plaintext command. Verbs have distinct initials, so the first
/// byte picks the only candidate.
pub open spec fn spec_parse_simple(s: Seq<u8>) -> SpecParsed<CommandView> {
    if s.len() == 0 {
        SpecParsed::Incomplete
    } else {
        let v0 = lower(s[0]);
        if v0 == 100 {
            spec_simple_0(s, encode_utf8("dbsize"@), CommandView::DbSize)
        } else if v0 == 112 {
            spec_simple_0(s, encode_utf8("ping"@), CommandView::Ping)
        } else if v0 == 113 {
            spec_simple_0(s, encode_utf8("quit"@), CommandView::Quit)
        } else if v0 == 103 {
            match spec_simple_1(s, encode_utf8("get"@)) {
                SpecParsed::Value { value, used } => SpecParsed::Value {
                    value: CommandView::Get(value),
                    used,
                },
                SpecParsed::Incomplete => SpecParsed::Incomplete,
                SpecParsed::Malformed => SpecParsed::Malformed,
            }
        } else if v0 == 101 {
            match spec_simple_1(s, encode_utf8("echo"@)) {
                SpecParsed::Value { value, used } => SpecParsed::Value {
                    value: CommandView::Echo(value),
                    used,
                },
                SpecParsed::Incomplete => SpecParsed::Incomplete,
                SpecParsed::Malformed => SpecParsed::Malformed,
            }
        } else if v0 == 107 {
            match spec_simple_1(s, encode_utf8("keys"@)) {
                SpecParsed::Value { value, used } => SpecParsed::Value {
                    value: CommandView::Keys(Some(value)),
                    used,
                },
                SpecParsed::Incomplete => SpecParsed::Incomplete,
                SpecParsed::Malformed => SpecParsed::Malformed,
            }
        } else if v0 == 115 {
            match spec_simple_2(s, encode_utf8("set"@)) {
                SpecParsed::Value { value, used } => SpecParsed::Value {
                    value: CommandView::Put(value.0, value.1),
                    used,
                },
                SpecParsed::Incomplete => SpecParsed::Incomplete,
                SpecParsed::Malformed => SpecParsed::Malformed,
            }
        } else {
            SpecParsed::Malformed
        }
    }
}

/// ASCII lower-casing of one byte.
fn lower_byte(b: u8) -> (r: u8)
    ensures
        r == lower(b),
{
    if 65 <= b && b <= 90 {
        b + 32
    } else {
        b
    }
}

/// Outcome of matching a verb at the front of the buffer.
enum VerbScan {
    Matched,
    Prefix,
    NoMatch,
}

/// Match the verb, case-insensitively, at the front of the buffer.
fn scan_verb(input: &[u8], verb: &str) -> (r: VerbScan)
    ensures
        match r {
            VerbScan::Matched => matches_verb(input@, 0, encode_utf8(verb@)),
            VerbScan::Prefix => prefix_of_verb(input@, 0, encode_utf8(verb@)),
            VerbScan::NoMatch => !matches_verb(input@, 0, encode_utf8(verb@)) && !prefix_of_verb(
                input@,
                0,
                encode_utf8(verb@),
            ),
        },
{
    let vb = verb.as_bytes();
    let ghost v = encode_utf8(verb@);
    proof {
        assert(vb@ == v);
    }
    let mut i: usize = 0;
    while i < vb.len()
        invariant
            i <= vb@.len(),
            i <= input@.len(),
            vb@ == v,
            v == encode_utf8(verb@),
            forall|j: int| 0 <= j < i ==> lower(input@[j]) == #[trigger] v[j],
        decreases vb@.len() - i,
    {
        if i >= input.len() {
            proof {
                assert(i == input@.len());
                assert(input@.len() < v.len());
                assert(prefix_of_verb(input@, 0, v));
            }
            return VerbScan::Prefix;
        }
        if lower_byte(input[i]) != vb[i] {
            proof {
                if matches_verb(input@, 0, v) {
                    assert(lower(input@[i as int]) == v[i as int]);
                }
                if prefix_of_verb(input@, 0, v) {
                    assert(lower(input@[i as int]) == v[i as int]);
                }
                assert(!matches_verb(input@, 0, v));
                assert(!prefix_of_verb(input@, 0, v));
            }
            return VerbScan::NoMatch;
        }
        i += 1;
    }
    VerbScan::Matched
}

/// Outcome of scanning one argument.
enum ArgScan {
    Arg { start: usize, end: usize },
    Incomplete,
    Malformed,
}

/// Scan a space and a completed alphanumeric token starting at `p`.
fn scan_arg(input: &[u8], p: usize) -> (r: ArgScan)
    requires
        p <= input@.len(),
    ensures
        match r {
            ArgScan::Arg { start, end } => p < start <= end && end < input@.len() && spec_arg(
                input@,
                p as int,
            ) == (ArgParse::Arg { token: input@.subrange(start as int, end as int), end: end as int }),
            ArgScan::Incomplete => spec_arg(input@, p as int) is Incomplete,
            ArgScan::Malformed => spec_arg(input@, p as int) is Malformed,
        },
{
    if p == input.len() {
        return ArgScan::Incomplete;
    }
    if input[p] != 32 {
        return ArgScan::Malformed;
    }
    let q = p + 1;
    let mut i: usize = q;
    loop
        invariant
            q <= i <= input@.len(),
            token_end(input@, q as int) == token_end(input@, i as int),
        ensures
            q <= i <= input@.len(),
            token_end(input@, q as int) == i,
        decreases input@.len() - i,
    {
        if i == input.len() {
            break ;
        }
        let b = input[i];
        if !((48 <= b && b <= 57) || (65 <= b && b <= 90) || (97 <= b && b <= 122)) {
            proof {
                assert(token_end(input@, i as int) == i);
            }
            break ;
        }
        i += 1;
    }
    if i == q {
        if q == input.len() {
            ArgScan::Incomplete
        } else {
            ArgScan::Malformed
        }
    } else if i == input.len() {
        ArgScan::Incomplete
    } else {
        ArgScan::Arg { start: q, end: i }
    }
}

/// Outcome of scanning the closing line endings.
enum TermScan {
    Term { end: usize },
    Incomplete,
    Malformed,
}

/// Scan the maximal run of complete line endings at `p`; at least one must
/// be present.
fn scan_terms(input: &[u8], p: usize) -> (r: TermScan)
    requires
        p <= input@.len(),
    ensures
        match r {
            TermScan::Term { end } => p < end <= input@.len() && spec_terms(input@, p as int)
                == (TermParse::Term { end: end as int }),
            TermScan::Incomplete => spec_terms(input@, p as int) is Incomplete,
            TermScan::Malformed => spec_terms(input@, p as int) is Malformed,
        },
{
    let mut i: usize = p;
    loop
        invariant
            p <= i <= input@.len(),
            terms_end(input@, p as int) == terms_end(input@, i as int),
        ensures
            p <= i <= input@.len(),
            terms_end(input@, p as int) == i,
        decreases input@.len() - i,
    {
        if i < input.len() && input[i] == 10 {
            i += 1;
        } else if i < input.len() && input[i] == 13 && i + 1 < input.len() && input[i + 1] == 10 {
            i += 2;
        } else {
            proof {
                assert(terms_end(input@, i as int) == i);
            }
            break ;
        }
    }
    if i > p {
        TermScan::Term { end: i }
    } else if p == input.len() {
        TermScan::Incomplete
    } else if input[p] == 13 && p + 1 == input.len() {
        TermScan::Incomplete
    } else {
        TermScan::Malformed
    }
}

/// Parse a command with no arguments.
fn parse_0(input: &[u8], verb: &str, c: Command) -> (r: Parsed<Command>)
    ensures
        command_parsed_view(r) == spec_simple_0(input@, encode_utf8(verb@), c@),
        r matches Parsed::Value { value: _, used } ==> 1 <= used <= input@.len(),
{
    match scan_verb(input, verb) {
        VerbScan::Prefix => Parsed::Incomplete,
        VerbScan::NoMatch => Parsed::Malformed,
        VerbScan::Matched => {
            let vl = verb.as_bytes().len();
            match scan_terms(input, vl) {
                TermScan::Term { end } => Parsed::Value { value: c, used: end },
                TermScan::Incomplete => Parsed::Incomplete,
                TermScan::Malformed => Parsed::Malformed,
            }
        },
    }
}

/// Parse a command with one argument, handing the argument to `wrap`.
fn parse_1_token(input: &[u8], verb: &str) -> (r: Parsed<Vec<u8>>)
    ensures
        ({
            let sp = spec_simple_1(input@, encode_utf8(verb@));
            match r {
                Parsed::Value { value, used } => sp == (SpecParsed::Value {
                    value: value@,
                    used: used as int,
                }) && 1 <= used <= input@.len(),
                Parsed::Incomplete => sp is Incomplete,
                Parsed::Malformed => sp is Malformed,
            }
        }),
{
    match scan_verb(input, verb) {
        VerbScan::Prefix => Parsed::Incomplete,
        VerbScan::NoMatch => Parsed::Malformed,
        VerbScan::Matched => {
            let vl = verb.as_bytes().len();
            match scan_arg(input, vl) {
                ArgScan::Arg { start, end } => {
                    match scan_terms(input, end) {
                        TermScan::Term { end: e2 } => {
                            let token = slice_to_vec(slice_subrange(input, start, end));
                            Parsed::Value { value: token, used: e2 }
                        },
                        TermScan::Incomplete => Parsed::Incomplete,
                        TermScan::Malformed => Parsed::Malformed,
                    }
                },
                ArgScan::Incomplete => Parsed::Incomplete,
                ArgScan::Malformed => Parsed::Malformed,
            }
        },
    }
}

/// Parse the `dbsize` form.
fn parse_db_size(input: &[u8]) -> (r: Parsed<Command>)
    ensures
        command_parsed_view(r) == spec_simple_0(input@, encode_utf8("dbsize"@), CommandView::DbSize),
        r matches Parsed::Value { value: _, used } ==> 1 <= used <= input@.len(),
{
    parse_0(input, "dbsize", Command::DbSize)
}

/// Parse the `ping` form.
fn parse_ping(input: &[u8]) -> (r: Parsed<Command>)
    ensures
        command_parsed_view(r) == spec_simple_0(input@, encode_utf8("ping"@), CommandView::Ping),
        r matches Parsed::Value { value: _, used } ==> 1 <= used <= input@.len(),
{
    parse_0(input, "ping", Command::Ping)
}

/// Parse the `quit` form.
fn parse_quit(input: &[u8]) -> (r: Parsed<Command>)
    ensures
        command_parsed_view(r) == spec_simple_0(input@, encode_utf8("quit"@), CommandView::Quit),
        r matches Parsed::Value { value: _, used } ==> 1 <= used <= input@.len(),
{
    parse_0(input, "quit", Command::Quit)
}

/// Parse the `get key` form.
fn parse_get(input: &[u8]) -> (r: Parsed<Command>)
    ensures
        ({
            let sp = spec_simple_1(input@, encode_utf8("get"@));
            match r {
                Parsed::Value { value, used } => value@ matches CommandView::Get(k) && sp
                    == (SpecParsed::Value { value: k, used: used as int }) && 1 <= used
                    <= input@.len(),
                Parsed::Incomplete => sp is Incomplete,
                Parsed::Malformed => sp is Malformed,
            }
        }),
{
    match parse_1_token(input, "get") {
        Parsed::Value { value, used } => Parsed::Value { value: Command::Get(value), used },
        Parsed::Incomplete => Parsed::Incomplete,
        Parsed::Malformed => Parsed::Malformed,
    }
}

/// Parse the `echo message` form.
fn parse_echo(input: &[u8]) -> (r: Parsed<Command>)
    ensures
        ({
            let sp = spec_simple_1(input@, encode_utf8("echo"@));
            match r {
                Parsed::Value { value, used } => value@ matches CommandView::Echo(m) && sp
                    == (SpecParsed::Value { value: m, used: used as int }) && 1 <= used
                    <= input@.len(),
                Parsed::Incomplete => sp is Incomplete,
                Parsed::Malformed => sp is Malformed,
            }
        }),
{
    match parse_1_token(input, "echo") {
        Parsed::Value { value, used } => Parsed::Value { value: Command::Echo(value), used },
        Parsed::Incomplete => Parsed::Incomplete,
        Parsed::Malformed => Parsed::Malformed,
    }
}

/// Parse the `keys pattern` form.
fn parse_keys(input: &[u8]) -> (r: Parsed<Command>)
    ensures
        ({
            let sp = spec_simple_1(input@, encode_utf8("keys"@));
            match r {
                Parsed::Value { value, used } => value@ matches CommandView::Keys(Some(q)) && sp
                    == (SpecParsed::Value { value: q, used: used as int }) && 1 <= used
                    <= input@.len(),
                Parsed::Incomplete => sp is Incomplete,
                Parsed::Malformed => sp is Malformed,
            }
        }),
{
    match parse_1_token(input, "keys") {
        Parsed::Value { value, used } => Parsed::Value {
            value: Command::Keys(Some(value)),
            used,
        },
        Parsed::Incomplete => Parsed::Incomplete,
        Parsed::Malformed => Parsed::Malformed,
    }
}

/// Parse the `set key value` form.
fn parse_set(input: &[u8]) -> (r: Parsed<Command>)
    ensures
        ({
            let sp = spec_simple_2(input@, encode_utf8("set"@));
            match r {
                Parsed::Value { value, used } => value@ matches CommandView::Put(k, v) && sp
                    == (SpecParsed::Value { value: (k, v), used: used as int }) && 1 <= used
                    <= input@.len(),
                Parsed::Incomplete => sp is Incomplete,
                Parsed::Malformed => sp is Malformed,
            }
        }),
{
    match scan_verb(input, "set") {
        VerbScan::Prefix => Parsed::Incomplete,
        VerbScan::NoMatch => Parsed::Malformed,
        VerbScan::Matched => {
            let vl = "set".as_bytes().len();
            match scan_arg(input, vl) {
                ArgScan::Arg { start, end } => {
                    match scan_arg(input, end) {
                        ArgScan::Arg { start: s2, end: e2 } => {
                            match scan_terms(input, e2) {
                                TermScan::Term { end: e3 } => {
                                    let key = slice_to_vec(slice_subrange(input, start, end));
                                    let value = slice_to_vec(slice_subrange(input, s2, e2));
                                    Parsed::Value { value: Command::Put(key, value), used: e3 }
                                },
                                TermScan::Incomplete => Parsed::Incomplete,
                                TermScan::Malformed => Parsed::Malformed,
                            }
                        },
                        ArgScan::Incomplete => Parsed::Incomplete,
                        ArgScan::Malformed => Parsed::Malformed,
                    }
                },
                ArgScan::Incomplete => Parsed::Incomplete,
                ArgScan::Malformed => Parsed::Malformed,
            }
        },
    }
}

/// Parse one plaintext command from the front of the buffer. `Malformed`
/// means only that no plaintext form fits: the caller then tries the binary
/// framing.
pub fn parse_command(input: &[u8]) -> (r: Parsed<Command>)
    ensures
        command_parsed_view(r) == spec_parse_simple(input@),
        r matches Parsed::Value { value: _, used } ==> 1 <= used <= input@.len(),
{
    if input.len() == 0 {
        return Parsed::Incomplete;
    }
    let v0 = lower_byte(input[0]);
    if v0 == 100 {
        parse_db_size(input)
    } else if v0 == 112 {
        parse_ping(input)
    } else if v0 == 113 {
        parse_quit(input)
    } else if v0 == 103 {
        parse_get(input)
    } else if v0 == 101 {
        parse_echo(input)
    } else if v0 == 107 {
        parse_keys(input)
    } else if v0 == 115 {
        parse_set(input)
    } else {
        Parsed::Malformed
    }
}

/// Parse a plaintext command, keeping only the command itself.
pub fn try_parse_command(input: &[u8]) -> (r: Option<Command>)
    ensures
        match r {
            Some(c) => spec_parse_simple(input@) matches SpecParsed::Value { value, used: _ }
                && value == c@,
            None => !(spec_parse_simple(input@) is Value),
        },
{
    match parse_command(input) {
        Parsed::Value { value, used: _ } => Some(value),
        _ => None,
    }
}

} // verus!
