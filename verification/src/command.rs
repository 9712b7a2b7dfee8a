//! The recognized command set, and the documentation table that the command
//! listing reply is built from.

use vstd::prelude::*;

use vstd::slice::slice_to_vec;
use vstd::utf8::encode_utf8;

verus! {

/// A recognized client command. Keys, values, messages and patterns are raw
/// bytes as they arrived on the wire.
#[derive(Debug, PartialEq)]
pub enum Command {
    DbSize,
    Command(SubCommand),
    Echo(Vec<u8>),
    Get(Vec<u8>),
    Keys(Option<Vec<u8>>),
    Put(Vec<u8>, Vec<u8>),
    Ping,
    Quit,
}

/// Subcommands of `COMMAND`.
#[derive(Clone, Copy, Debug, PartialEq, Eq, Structural)]
pub enum SubCommand {
    Docs,
}

/// The mathematical shape of a command.
pub enum CommandView {
    DbSize,
    Command(SubCommand),
    Echo(Seq<u8>),
    Get(Seq<u8>),
    Keys(Option<Seq<u8>>),
    Put(Seq<u8>, Seq<u8>),
    Ping,
    Quit,
}

impl View for Command {
    type V = CommandView;

    open spec fn view(&self) -> CommandView {
        match self {
            Command::DbSize => CommandView::DbSize,
            Command::Command(sc) => CommandView::Command(*sc),
            Command::Echo(m) => CommandView::Echo(m@),
            Command::Get(k) => CommandView::Get(k@),
            Command::Keys(p) => CommandView::Keys(
                match p {
                    Some(q) => Some(q@),
                    None => None,
                },
            ),
            Command::Put(k, v) => CommandView::Put(k@, v@),
            Command::Ping => CommandView::Ping,
            Command::Quit => CommandView::Quit,
        }
    }
}

/// The documentation table: each command name beside its description lines.
pub open spec fn spec_all_commands() -> Seq<(Seq<u8>, Seq<Seq<u8>>)> {
    seq![
        (
            encode_utf8("DBSIZE"@),
            seq![encode_utf8("Return the number of keys in the database."@)],
        ),
        (
            encode_utf8("COMMAND DOCS"@),
            seq![encode_utf8("Return documentary information about commands."@)],
        ),
        (encode_utf8("ECHO"@), seq![encode_utf8("Returns message."@)]),
        (encode_utf8("GET"@), seq![encode_utf8("Get the value of key."@)]),
        (encode_utf8("KEYS"@), seq![encode_utf8("Get all keys matching pattern."@)]),
        (encode_utf8("SET"@), seq![encode_utf8("Set the value of key."@)]),
        (encode_utf8("PING"@), seq![encode_utf8("Pong."@)]),
        (encode_utf8("QUIT"@), seq![encode_utf8("Ask the server to close the connection."@)]),
    ]
}

/// One documentation pair, as bytes.
fn doc_pair(name: &str, doc: &str) -> (r: (Vec<u8>, Vec<Vec<u8>>))
    ensures
        r.0@ == encode_utf8(name@),
        r.1@.map_values(|d: Vec<u8>| d@) == seq![encode_utf8(doc@)],
{
    let name_bytes = slice_to_vec(name.as_bytes());
    let mut docs: Vec<Vec<u8>> = Vec::new();
    docs.push(slice_to_vec(doc.as_bytes()));
    proof {
        assert(docs@.map_values(|d: Vec<u8>| d@) =~= seq![encode_utf8(doc@)]);
    }
    (name_bytes, docs)
}

impl Command {
    /// Every command name with its documentation lines.
    pub fn all_commands() -> (r: Vec<(Vec<u8>, Vec<Vec<u8>>)>)
        ensures
            r@.len() == spec_all_commands().len(),
            forall|i: int|
                0 <= i < r@.len() ==> (#[trigger] r@[i]).0@ == spec_all_commands()[i].0 && r@[
                    i].1@.map_values(|d: Vec<u8>| d@) == spec_all_commands()[i].1,
    {
        let mut r: Vec<(Vec<u8>, Vec<Vec<u8>>)> = Vec::new();
        r.push(doc_pair("DBSIZE", "Return the number of keys in the database."));
        r.push(doc_pair("COMMAND DOCS", "Return documentary information about commands."));
        r.push(doc_pair("ECHO", "Returns message."));
        r.push(doc_pair("GET", "Get the value of key."));
        r.push(doc_pair("KEYS", "Get all keys matching pattern."));
        r.push(doc_pair("SET", "Set the value of key."));
        r.push(doc_pair("PING", "Pong."));
        r.push(doc_pair("QUIT", "Ask the server to close the connection."));
        r
    }
}

} // verus!
