use knowsql::command::{Command, SubCommand};
use knowsql::config::Config;
use knowsql::protocol::resp2::Parsed;
use knowsql::{parse_command, try_parse_command};

#[test]
fn framed_commands_are_recognized() {
    assert_eq!(
        parse_command(b"*1\r\n$4\r\nPING\r\n"),
        Parsed::Value { value: Command::Ping, used: 14 }
    );
    assert_eq!(
        parse_command(b"*1\r\n$6\r\nDBSIZE\r\n"),
        Parsed::Value { value: Command::DbSize, used: 16 }
    );
    assert_eq!(
        parse_command(b"*2\r\n$3\r\nGET\r\n$5\r\nhello\r\n"),
        Parsed::Value { value: Command::Get(b"hello".to_vec()), used: 24 }
    );
    assert_eq!(
        parse_command(b"*3\r\n$3\r\nSET\r\n$1\r\nk\r\n$1\r\nv\r\n"),
        Parsed::Value { value: Command::Put(b"k".to_vec(), b"v".to_vec()), used: 27 }
    );
    assert_eq!(
        parse_command(b"*1\r\n$4\r\nKEYS\r\n"),
        Parsed::Value { value: Command::Keys(None), used: 14 }
    );
    assert_eq!(
        parse_command(b"*2\r\n$4\r\nKEYS\r\n$2\r\n^a\r\n"),
        Parsed::Value { value: Command::Keys(Some(b"^a".to_vec())), used: 22 }
    );
    assert_eq!(
        parse_command(b"*2\r\n$7\r\nCOMMAND\r\n$4\r\nDOCS\r\n"),
        Parsed::Value { value: Command::Command(SubCommand::Docs), used: 27 }
    );
    assert_eq!(
        parse_command(b"*2\r\n$4\r\nECHO\r\n$2\r\nhi\r\n"),
        Parsed::Value { value: Command::Echo(b"hi".to_vec()), used: 22 }
    );
    assert_eq!(
        parse_command(b"*1\r\n$4\r\nQUIT\r\n"),
        Parsed::Value { value: Command::Quit, used: 14 }
    );
}

#[test]
fn plaintext_commands_are_recognized() {
    assert_eq!(
        parse_command(b"ping\r\n"),
        Parsed::Value { value: Command::Ping, used: 6 }
    );
    assert_eq!(
        parse_command(b"PING\r\n"),
        Parsed::Value { value: Command::Ping, used: 6 }
    );
    assert_eq!(
        parse_command(b"get hello\r\n"),
        Parsed::Value { value: Command::Get(b"hello".to_vec()), used: 11 }
    );
    assert_eq!(
        parse_command(b"SeT key value\r\n"),
        Parsed::Value { value: Command::Put(b"key".to_vec(), b"value".to_vec()), used: 15 }
    );
    assert_eq!(
        parse_command(b"dbsize\n"),
        Parsed::Value { value: Command::DbSize, used: 7 }
    );
    assert_eq!(
        parse_command(b"echo hi\r\n"),
        Parsed::Value { value: Command::Echo(b"hi".to_vec()), used: 9 }
    );
    assert_eq!(
        parse_command(b"keys abc\r\n"),
        Parsed::Value { value: Command::Keys(Some(b"abc".to_vec())), used: 10 }
    );
    assert_eq!(
        parse_command(b"quit\r\n"),
        Parsed::Value { value: Command::Quit, used: 6 }
    );
}

#[test]
fn plaintext_consumes_all_trailing_line_endings() {
    assert_eq!(
        parse_command(b"ping\r\n\r\nX"),
        Parsed::Value { value: Command::Ping, used: 8 }
    );
}

#[test]
fn plaintext_prefixes_are_incomplete() {
    assert_eq!(parse_command(b""), Parsed::Incomplete);
    assert_eq!(parse_command(b"pi"), Parsed::Incomplete);
    assert_eq!(parse_command(b"ping"), Parsed::Incomplete);
    assert_eq!(parse_command(b"ping\r"), Parsed::Incomplete);
    assert_eq!(parse_command(b"get "), Parsed::Incomplete);
    assert_eq!(parse_command(b"get hel"), Parsed::Incomplete);
    assert_eq!(parse_command(b"set a "), Parsed::Incomplete);
}

#[test]
fn junk_is_malformed() {
    assert_eq!(parse_command(b"!?\r\n"), Parsed::Malformed);
    assert_eq!(parse_command(b"pong\r\n"), Parsed::Malformed);
    assert_eq!(parse_command(b"get \r\n"), Parsed::Malformed);
}

#[test]
fn try_parse_returns_the_command_only() {
    assert_eq!(try_parse_command(b"ping\r\n"), Some(Command::Ping));
    assert_eq!(
        try_parse_command(b"*2\r\n$3\r\nGET\r\n$1\r\nk\r\n"),
        Some(Command::Get(b"k".to_vec()))
    );
    assert_eq!(try_parse_command(b"pi"), None);
    assert_eq!(try_parse_command(b"!?\r\n"), None);
}

#[test]
fn module_parsers_agree_with_their_protocols() {
    assert_eq!(
        knowsql::resp2::parse_command(b"*1\r\n$4\r\nPING\r\n"),
        Parsed::Value { value: Command::Ping, used: 14 }
    );
    assert_eq!(
        knowsql::resp2::try_parse_command(b"*1\r\n$4\r\nPING\r\n"),
        Some(Command::Ping)
    );
    assert_eq!(knowsql::resp2::parse_command(b"ping\r\n"), Parsed::Malformed);
    assert_eq!(
        knowsql::simple::parse_command(b"ping\r\n"),
        Parsed::Value { value: Command::Ping, used: 6 }
    );
    assert_eq!(
        knowsql::simple::try_parse_command(b"ping\r\n"),
        Some(Command::Ping)
    );
    assert_eq!(knowsql::simple::parse_command(b"*1\r\n"), Parsed::Malformed);
}

#[test]
fn all_commands_documents_the_whole_set() {
    let table = Command::all_commands();
    assert_eq!(table.len(), 8);
    assert_eq!(table[0].0, b"DBSIZE".to_vec());
    assert_eq!(
        table[0].1,
        vec![b"Return the number of keys in the database.".to_vec()]
    );
    assert_eq!(table[1].0, b"COMMAND DOCS".to_vec());
    assert_eq!(table[7].0, b"QUIT".to_vec());
    assert_eq!(
        table[7].1,
        vec![b"Ask the server to close the connection.".to_vec()]
    );
}

#[test]
fn default_config() {
    let c = Config::default();
    assert_eq!(c.data_dir, "./data");
    assert_eq!(c.port, 2288);
}
