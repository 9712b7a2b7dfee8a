//! The per-connection command loop's decision core: execute one parsed
//! command against the shared store and render the reply, and consume
//! commands from a read buffer one at a time.
//!
//! The caller owns the socket: it reads bytes into a buffer, hands the
//! buffer here, writes the reply bytes back, persists the appended record
//! bytes, and compacts the buffer by the number of bytes consumed.

use vstd::prelude::*;

use crate::bitcask::BitCask;
use crate::command::{spec_all_commands, Command, CommandView, SubCommand};
use crate::entry::spec_record;
use crate::protocol::resp2::{
    data_seq_view, lemma_data_seq_view, spec_encode, Data, DataView, Parsed, SpecParsed,
};
use vstd::slice::slice_to_vec;
use vstd::utf8::encode_utf8;

verus! {

/// Whether a compiled pattern exists for these bytes: they are valid UTF-8
/// and a valid regular expression.
pub uninterp spec fn regex_ok(pattern: Seq<u8>) -> bool;

/// Whether the pattern matches anywhere inside the haystack.
pub uninterp spec fn regex_match(pattern: Seq<u8>, hay: Seq<u8>) -> bool;

/// Relies on regex::bytes::Regex::new for which patterns compile, and on
/// Regex::is_match for whether the pattern matches any substring of the
/// haystack; str::from_utf8 only converts the pattern bytes, and a pattern
/// that is not UTF-8 counts as invalid.
#[verifier::external_body]
fn regex_is_match(pattern: &[u8], haystack: &[u8]) -> (r: Option<bool>)
    ensures
        r is Some <==> regex_ok(pattern@),
        match r {
            Some(b) => b == regex_match(pattern@, haystack@),
            None => !regex_ok(pattern@),
        },
{
    match std::str::from_utf8(pattern) {
        Ok(p) => match regex::bytes::Regex::new(p) {
            Ok(re) => Some(re.is_match(haystack)),
            Err(_) => None,
        },
        Err(_) => None,
    }
}

/// The byte vector of a (short, ASCII) reply literal.
fn reply_bytes(s: &str) -> (r: Vec<u8>)
    ensures
        r@ == encode_utf8(s@),
{
    slice_to_vec(s.as_bytes())
}

/// A key list rendered as an array of bulk strings.
pub open spec fn bulk_array(keys: Seq<Seq<u8>>) -> DataView {
    DataView::Array(
        keys.map_values(|k: Seq<u8>| DataView::BulkString { length: k.len(), data: k }),
    )
}

/// The documentation table rendered as pairs of name and description lines,
/// flattened, from index `i` on.
pub open spec fn spec_docs_items(t: Seq<(Seq<u8>, Seq<Seq<u8>>)>, i: int) -> Seq<DataView>
    decreases t.len() - i,
{
    if i < 0 || i >= t.len() {
        Seq::empty()
    } else {
        seq![
            DataView::BulkString { length: t[i].0.len(), data: t[i].0 },
            DataView::Array(
                t[i].1.map_values(|d: Seq<u8>| DataView::BulkString { length: d.len(), data: d }),
            ),
        ] + spec_docs_items(t, i + 1)
    }
}

/// A put is accepted when the sizes fit the record header and the segment.
pub open spec fn put_ok(k: Seq<u8>, v: Seq<u8>, seg_len: int) -> bool {
    k.len() <= u32::MAX && v.len() <= u32::MAX && seg_len + 16 + k.len() + v.len() <= usize::MAX
}

/// The reply to one command, given the live keys in order, the store
/// contents and the segment length.
pub open spec fn spec_response(
    keys: Seq<Seq<u8>>,
    m: Map<Seq<u8>, Seq<u8>>,
    seg_len: int,
    c: CommandView,
) -> Seq<u8> {
    match c {
        CommandView::Ping => encode_utf8("+PONG\r\n"@),
        CommandView::Quit => encode_utf8("+OK\r\n"@),
        CommandView::DbSize => seq![58u8] + crate::bytes::spec_dec_digits(keys.len()) + seq![
            13u8,
            10u8,
        ],
        CommandView::Echo(msg) => seq![43u8] + msg + seq![13u8, 10u8],
        CommandView::Get(k) => if m.contains_key(k) {
            seq![43u8] + m[k] + seq![13u8, 10u8]
        } else {
            encode_utf8("$-1\r\n"@)
        },
        CommandView::Keys(None) => spec_encode(bulk_array(keys)),
        CommandView::Keys(Some(p)) => if regex_ok(p) {
            spec_encode(bulk_array(keys.filter(|k: Seq<u8>| regex_match(p, k))))
        } else {
            encode_utf8("-invalid regex pattern\r\n"@)
        },
        CommandView::Command(SubCommand::Docs) => spec_encode(
            DataView::Array(spec_docs_items(spec_all_commands(), 0)),
        ),
        CommandView::Put(k, v) => if put_ok(k, v, seg_len) {
            encode_utf8("+OK\r\n"@)
        } else {
            encode_utf8("-failed to set key value pair\r\n"@)
        },
    }
}

/// The key list after one command: only an accepted put of a new key
/// changes it.
pub open spec fn spec_new_keys(
    keys: Seq<Seq<u8>>,
    m: Map<Seq<u8>, Seq<u8>>,
    seg_len: int,
    c: CommandView,
) -> Seq<Seq<u8>> {
    match c {
        CommandView::Put(k, v) => if put_ok(k, v, seg_len) {
            if m.contains_key(k) {
                keys
            } else {
                keys.push(k)
            }
        } else {
            keys
        },
        _ => keys,
    }
}

/// The store contents after one command: only an accepted put changes them.
pub open spec fn spec_new_map(
    m: Map<Seq<u8>, Seq<u8>>,
    seg_len: int,
    c: CommandView,
) -> Map<Seq<u8>, Seq<u8>> {
    match c {
        CommandView::Put(k, v) => if put_ok(k, v, seg_len) {
            m.insert(k, v)
        } else {
            m
        },
        _ => m,
    }
}

/// The segment length after one command.
pub open spec fn spec_new_len(seg_len: int, c: CommandView) -> int {
    match c {
        CommandView::Put(k, v) => if put_ok(k, v, seg_len) {
            seg_len + 16 + k.len() + v.len()
        } else {
            seg_len
        },
        _ => seg_len,
    }
}

/// Build the bulk-string array reply for a list of keys.
fn keys_reply(keys: Vec<Vec<u8>>) -> (r: Vec<u8>)
    ensures
        r@ == spec_encode(bulk_array(keys@.map_values(|k: Vec<u8>| k@))),
{
    let ghost kv = keys@.map_values(|k: Vec<u8>| k@);
    let mut items: Vec<Data> = Vec::new();
    let mut i: usize = 0;
    while i < keys.len()
        invariant
            i <= keys@.len(),
            kv == keys@.map_values(|k: Vec<u8>| k@),
            items@.len() == i,
            forall|j: int|
                0 <= j < i ==> (#[trigger] items@[j])@ == (DataView::BulkString {
                    length: kv[j].len(),
                    data: kv[j],
                }),
        decreases keys@.len() - i,
    {
        let k = slice_to_vec(keys[i].as_slice());
        let n = k.len();
        items.push(Data::BulkString { length: n, data: k });
        i += 1;
    }
    let arr = Data::Array(items);
    let r = arr.encode();
    proof {
        lemma_data_seq_view(items@);
        assert forall|j: int| 0 <= j < kv.len() implies #[trigger] data_seq_view(items@)[j]
            == (DataView::BulkString { length: kv[j].len(), data: kv[j] }) by {
            assert(data_seq_view(items@)[j] == items@[j]@);
        }
        assert(data_seq_view(items@) =~= kv.map_values(
            |k: Seq<u8>| DataView::BulkString { length: k.len(), data: k },
        ));
    }
    r
}

/// Execute one command against the store. Returns the reply bytes, the
/// record bytes the store appended (empty unless an accepted put), and
/// whether the connection should close.
pub fn dispatch(cask: &mut BitCask, cmd: Command) -> (r: (Vec<u8>, Vec<u8>, bool))
    requires
        old(cask).wf(),
    ensures
        final(cask).wf(),
        r.0@ == spec_response(
            old(cask).key_seq(),
            old(cask)@,
            old(cask).segment_bytes().len() as int,
            cmd@,
        ),
        r.2 == (cmd@ is Quit),
        final(cask)@ == spec_new_map(old(cask)@, old(cask).segment_bytes().len() as int, cmd@),
        final(cask).key_seq() == spec_new_keys(
            old(cask).key_seq(),
            old(cask)@,
            old(cask).segment_bytes().len() as int,
            cmd@,
        ),
        final(cask).segment_bytes() == old(cask).segment_bytes() + r.1@,
        final(cask).segment_bytes().len() == spec_new_len(
            old(cask).segment_bytes().len() as int,
            cmd@,
        ),
        (match cmd@ {
            CommandView::Put(k, v) => put_ok(k, v, old(cask).segment_bytes().len() as int)
                ==> exists|ts: i64| r.1@ == spec_record(ts, k, v),
            _ => true,
        }),
        !(cmd@ matches CommandView::Put(k, v) && put_ok(
            k,
            v,
            old(cask).segment_bytes().len() as int,
        )) ==> r.1@ == Seq::<u8>::empty(),
        old(cask).in_sync() ==> final(cask).in_sync(),
        final(cask).data_dir_chars() == old(cask).data_dir_chars(),
{
    match cmd {
        Command::Ping => (reply_bytes("+PONG\r\n"), Vec::new(), false),
        Command::Quit => (reply_bytes("+OK\r\n"), Vec::new(), true),
        Command::DbSize => {
            let count = cask.keys().len();
            let mut resp: Vec<u8> = Vec::new();
            resp.push(58);
            crate::bytes::push_dec_u64(&mut resp, count as u64);
            resp.push(13);
            resp.push(10);
            proof {
                assert(resp@ =~= seq![58u8] + crate::bytes::spec_dec_digits(
                    cask.key_seq().len(),
                ) + seq![13u8, 10u8]);
            }
            (resp, Vec::new(), false)
        },
        Command::Echo(msg) => {
            let mut resp: Vec<u8> = Vec::new();
            resp.push(43);
            resp.extend_from_slice(msg.as_slice());
            resp.push(13);
            resp.push(10);
            proof {
                assert(resp@ =~= seq![43u8] + msg@ + seq![13u8, 10u8]);
            }
            (resp, Vec::new(), false)
        },
        Command::Get(key) => {
            match cask.get(key.as_slice()) {
                Some(v) => {
                    let mut resp: Vec<u8> = Vec::new();
                    resp.push(43);
                    resp.extend_from_slice(v.as_slice());
                    resp.push(13);
                    resp.push(10);
                    proof {
                        assert(resp@ =~= seq![43u8] + cask@[key@] + seq![13u8, 10u8]);
                    }
                    (resp, Vec::new(), false)
                },
                None => (reply_bytes("$-1\r\n"), Vec::new(), false),
            }
        },
        Command::Keys(None) => {
            let ks = cask.keys();
            (keys_reply(ks), Vec::new(), false)
        },
        Command::Keys(Some(pattern)) => {
            let probe: Vec<u8> = Vec::new();
            match regex_is_match(pattern.as_slice(), probe.as_slice()) {
                None => (reply_bytes("-invalid regex pattern\r\n"), Vec::new(), false),
                Some(_) => {
                    let ghost pred = |k: Seq<u8>| regex_match(pattern@, k);
                    let ks = cask.keys();
                    let ghost kv = ks@.map_values(|k: Vec<u8>| k@);
                    proof {
                        assert(kv == cask.key_seq());
                        assert(kv.take(0) =~= Seq::<Seq<u8>>::empty());
                        assert(kv.take(0).filter(pred) =~= Seq::<Seq<u8>>::empty()) by {
                            reveal(Seq::filter);
                        }
                    }
                    let mut kept: Vec<Vec<u8>> = Vec::new();
                    let mut i: usize = 0;
                    while i < ks.len()
                        invariant
                            i <= ks@.len(),
                            kv == ks@.map_values(|k: Vec<u8>| k@),
                            pred == (|k: Seq<u8>| regex_match(pattern@, k)),
                            regex_ok(pattern@),
                            kept@.map_values(|k: Vec<u8>| k@) == kv.take(i as int).filter(pred),
                        decreases ks@.len() - i,
                    {
                        let ghost kept0 = kept@;
                        let keep = match regex_is_match(pattern.as_slice(), ks[i].as_slice()) {
                            Some(b) => b,
                            None => {
                                proof {
                                    assert(false);
                                }
                                false
                            },
                        };
                        if keep {
                            kept.push(slice_to_vec(ks[i].as_slice()));
                        }
                        proof {
                            reveal(Seq::filter);
                            assert(kv.take(i + 1).drop_last() =~= kv.take(i as int));
                            assert(kv.take(i + 1).last() == kv[i as int]);
                            assert(kv[i as int] == ks@[i as int]@);
                            if keep {
                                assert(kept@.map_values(|k: Vec<u8>| k@) =~= kept0.map_values(
                                    |k: Vec<u8>| k@,
                                ).push(kv[i as int]));
                            }
                        }
                        i += 1;
                    }
                    proof {
                        assert(kv.take(kv.len() as int) =~= kv);
                    }
                    (keys_reply(kept), Vec::new(), false)
                },
            }
        },
        Command::Command(SubCommand::Docs) => {
            let table = Command::all_commands();
            let ghost t = spec_all_commands();
            let mut items: Vec<Data> = Vec::new();
            let mut i: usize = 0;
            while i < table.len()
                invariant
                    i <= table@.len(),
                    t == spec_all_commands(),
                    table@.len() == t.len(),
                    forall|j: int|
                        0 <= j < t.len() ==> (#[trigger] table@[j]).0@ == t[j].0 && table@[
                            j].1@.map_values(|d: Vec<u8>| d@) == t[j].1,
                    data_seq_view(items@) == spec_docs_items(t, 0).take(2 * i),
                    items@.len() == 2 * i,
                decreases table@.len() - i,
            {
                let ghost items0 = items@;
                let name = slice_to_vec(table[i].0.as_slice());
                let nlen = name.len();
                let mut docs: Vec<Data> = Vec::new();
                let mut j: usize = 0;
                while j < table[i].1.len()
                    invariant
                        0 <= i < table@.len(),
                        j <= table@[i as int].1@.len(),
                        docs@.len() == j,
                        t == spec_all_commands(),
                        table@[i as int].1@.map_values(|d: Vec<u8>| d@) == t[i as int].1,
                        forall|x: int|
                            0 <= x < j ==> (#[trigger] docs@[x])@ == (DataView::BulkString {
                                length: t[i as int].1[x].len(),
                                data: t[i as int].1[x],
                            }),
                    decreases table@[i as int].1@.len() - j,
                {
                    let d = slice_to_vec(table[i].1[j].as_slice());
                    let dlen = d.len();
                    docs.push(Data::BulkString { length: dlen, data: d });
                    j += 1;
                }
                proof {
                    lemma_data_seq_view(docs@);
                    assert(data_seq_view(docs@) =~= t[i as int].1.map_values(
                        |d: Seq<u8>| DataView::BulkString { length: d.len(), data: d },
                    )) by {
                        assert(table@[i as int].1@.map_values(|d: Vec<u8>| d@) == t[i as int].1);
                    }
                }
                items.push(Data::BulkString { length: nlen, data: name });
                items.push(Data::Array(docs));
                proof {
                    lemma_data_seq_view(items0);
                    lemma_data_seq_view(items@);
                    assert forall|x: int|
                        0 <= x < items@.len() implies #[trigger] data_seq_view(items@)[x]
                        == spec_docs_items(t, 0).take(2 * (i + 1))[x] by {
                        lemma_docs_items_index(t, x);
                        assert(data_seq_view(items@)[x] == items@[x]@);
                        if x < 2 * i {
                            assert(items@[x] == items0[x]);
                            assert(data_seq_view(items0)[x] == items0[x]@);
                            assert(data_seq_view(items0)[x] == spec_docs_items(t, 0).take(
                                2 * i,
                            )[x]);
                        }
                    }
                    assert(data_seq_view(items@) =~= spec_docs_items(t, 0).take(2 * (i + 1)))
                        by {
                        lemma_docs_items_len(t);
                    }
                }
                i += 1;
            }
            proof {
                lemma_docs_items_len(t);
                assert(spec_docs_items(t, 0).take(2 * t.len() as int) =~= spec_docs_items(t, 0));
            }
            let arr = Data::Array(items);
            let r = arr.encode();
            (r, Vec::new(), false)
        },
        Command::Put(key, value) => {
            let seg = cask.segment_len();
            let fits = (key.len() as u128 <= u32::MAX as u128) && (value.len() as u128
                <= u32::MAX as u128) && ((seg as u128) + 16 + (key.len() as u128) + (value.len()
                as u128) <= usize::MAX as u128);
            if fits {
                let rec = cask.put(key.as_slice(), value.as_slice());
                (reply_bytes("+OK\r\n"), rec, false)
            } else {
                (reply_bytes("-failed to set key value pair\r\n"), Vec::new(), false)
            }
        },
    }
}

/// Every index of the flattened documentation table holds the name or the
/// description array of the pair it belongs to.
proof fn lemma_docs_items_len(t: Seq<(Seq<u8>, Seq<Seq<u8>>)>)
    ensures
        forall|i: int| 0 <= i <= t.len() ==> #[trigger] spec_docs_items(t, i).len() == 2 * (t.len()
            - i),
    decreases t.len(),
{
    assert forall|i: int| 0 <= i <= t.len() implies #[trigger] spec_docs_items(t, i).len() == 2 * (
    t.len() - i) by {
        lemma_docs_items_len_at(t, i);
    }
}

/// The length of the flattened table from one index on.
proof fn lemma_docs_items_len_at(t: Seq<(Seq<u8>, Seq<Seq<u8>>)>, i: int)
    requires
        0 <= i <= t.len(),
    ensures
        spec_docs_items(t, i).len() == 2 * (t.len() - i),
    decreases t.len() - i,
{
    if i < t.len() {
        lemma_docs_items_len_at(t, i + 1);
    }
}

/// The elements of the flattened table, by index.
proof fn lemma_docs_items_index(t: Seq<(Seq<u8>, Seq<Seq<u8>>)>, x: int)
    ensures
        0 <= x < 2 * t.len() ==> spec_docs_items(t, 0).len() == 2 * t.len() && spec_docs_items(
            t,
            0,
        )[x] == (if x % 2 == 0 {
            DataView::BulkString { length: t[x / 2].0.len(), data: t[x / 2].0 }
        } else {
            DataView::Array(
                t[x / 2].1.map_values(
                    |d: Seq<u8>| DataView::BulkString { length: d.len(), data: d },
                ),
            )
        }),
{
    if 0 <= x < 2 * t.len() {
        lemma_docs_items_len_at(t, 0);
        lemma_docs_items_index_at(t, 0, x);
    }
}

/// The elements of the flattened table from one index on, by index.
proof fn lemma_docs_items_index_at(t: Seq<(Seq<u8>, Seq<Seq<u8>>)>, i: int, x: int)
    requires
        0 <= i <= t.len(),
        2 * i <= x < 2 * t.len(),
    ensures
        spec_docs_items(t, i)[x - 2 * i] == (if x % 2 == 0 {
            DataView::BulkString { length: t[x / 2].0.len(), data: t[x / 2].0 }
        } else {
            DataView::Array(
                t[x / 2].1.map_values(
                    |d: Seq<u8>| DataView::BulkString { length: d.len(), data: d },
                ),
            )
        }),
    decreases t.len() - i,
{
    lemma_docs_items_len_at(t, i);
    if x < 2 * i + 2 {
        if x == 2 * i {
            assert(x % 2 == 0 && x / 2 == i);
        } else {
            assert(x == 2 * i + 1);
            assert(x % 2 == 1 && x / 2 == i);
        }
    } else {
        lemma_docs_items_index_at(t, i + 1, x);
    }
}

/// Outcome of one step of the connection loop.
pub enum StepResult {
    /// One whole command was read and executed: write `resp` to the client,
    /// persist `appended`, drop `used` bytes from the front of the buffer,
    /// and close the connection after replying when `quit` is set.
    Reply { resp: Vec<u8>, appended: Vec<u8>, used: usize, quit: bool },
    /// The buffer holds no whole command yet: keep it and read more.
    Incomplete,
    /// The buffer can never parse: close the connection.
    Malformed,
}

/// Parse one command from the front of the buffer and execute it. The
/// store is untouched unless a whole command was read.
pub fn step(cask: &mut BitCask, input: &[u8]) -> (r: StepResult)
    requires
        old(cask).wf(),
    ensures
        final(cask).wf(),
        old(cask).in_sync() ==> final(cask).in_sync(),
        final(cask).data_dir_chars() == old(cask).data_dir_chars(),
        (match crate::spec_parse_command(input@) {
            SpecParsed::Value { value: c, used: u } => {
                &&& r matches StepResult::Reply { resp, appended, used, quit }
                &&& resp@ == spec_response(
                    old(cask).key_seq(),
                    old(cask)@,
                    old(cask).segment_bytes().len() as int,
                    c,
                )
                &&& used as int == u
                &&& quit == (c is Quit)
                &&& final(cask)@ == spec_new_map(
                    old(cask)@,
                    old(cask).segment_bytes().len() as int,
                    c,
                )
                &&& final(cask).key_seq() == spec_new_keys(
                    old(cask).key_seq(),
                    old(cask)@,
                    old(cask).segment_bytes().len() as int,
                    c,
                )
                &&& final(cask).segment_bytes() == old(cask).segment_bytes() + appended@
                &&& final(cask).segment_bytes().len() == spec_new_len(
                    old(cask).segment_bytes().len() as int,
                    c,
                )
            },
            SpecParsed::Incomplete => r is Incomplete && final(cask)@ == old(cask)@
                && final(cask).key_seq() == old(cask).key_seq()
                && final(cask).segment_bytes() == old(cask).segment_bytes(),
            SpecParsed::Malformed => r is Malformed && final(cask)@ == old(cask)@
                && final(cask).key_seq() == old(cask).key_seq()
                && final(cask).segment_bytes() == old(cask).segment_bytes(),
        }),
{
    match crate::parse_command(input) {
        Parsed::Value { value, used } => {
            let (resp, appended, quit) = dispatch(cask, value);
            StepResult::Reply { resp, appended, used, quit }
        },
        Parsed::Incomplete => StepResult::Incomplete,
        Parsed::Malformed => StepResult::Malformed,
    }
}

/// The concatenation of a sequence of byte buffers.
pub open spec fn concat_bytes(chunks: Seq<Seq<u8>>) -> Seq<u8>
    decreases chunks.len(),
{
    if chunks.len() == 0 {
        Seq::empty()
    } else {
        chunks[0] + concat_bytes(chunks.skip(1))
    }
}

/// The replies to a sequence of commands, run in order against the
/// evolving store state.
pub open spec fn spec_responses(
    keys: Seq<Seq<u8>>,
    m: Map<Seq<u8>, Seq<u8>>,
    seg_len: int,
    cmds: Seq<CommandView>,
) -> Seq<u8>
    decreases cmds.len(),
{
    if cmds.len() == 0 {
        Seq::empty()
    } else {
        spec_response(keys, m, seg_len, cmds[0]) + spec_responses(
            spec_new_keys(keys, m, seg_len, cmds[0]),
            spec_new_map(m, seg_len, cmds[0]),
            spec_new_len(seg_len, cmds[0]),
            cmds.skip(1),
        )
    }
}

/// What the connection loop replies: commands are drained from the front
/// of the buffer one at a time until it is exhausted, incomplete or
/// malformed, or the client quits.
pub open spec fn spec_drain(
    keys: Seq<Seq<u8>>,
    m: Map<Seq<u8>, Seq<u8>>,
    seg_len: int,
    input: Seq<u8>,
) -> Seq<u8>
    decreases input.len(),
{
    match crate::spec_parse_command(input) {
        SpecParsed::Value { value: c, used: u } => {
            let resp = spec_response(keys, m, seg_len, c);
            if c is Quit {
                resp
            } else if 1 <= u <= input.len() {
                resp + spec_drain(
                    spec_new_keys(keys, m, seg_len, c),
                    spec_new_map(m, seg_len, c),
                    spec_new_len(seg_len, c),
                    input.skip(u),
                )
            } else {
                // never reached: a parsed command uses at least one byte
                resp
            }
        },
        SpecParsed::Incomplete => Seq::empty(),
        SpecParsed::Malformed => Seq::empty(),
    }
}

/// Pipelining: a buffer holding the back-to-back framed encodings of a
/// sequence of commands, none of them a quit, is answered by the replies
/// to exactly those commands, in order, each one against the store as the
/// commands before it left it.
pub proof fn lemma_pipelining(
    keys: Seq<Seq<u8>>,
    m: Map<Seq<u8>, Seq<u8>>,
    seg_len: int,
    chunks: Seq<Seq<u8>>,
    cmds: Seq<CommandView>,
)
    requires
        chunks.len() == cmds.len(),
        forall|i: int|
            0 <= i < chunks.len() ==> (#[trigger] chunks[i]).len() > 0 && chunks[i][0] == 42,
        forall|i: int|
            0 <= i < chunks.len() ==> #[trigger] crate::resp2::spec_parse_command(chunks[i])
                == (SpecParsed::Value { value: cmds[i], used: chunks[i].len() as int }),
        forall|i: int| 0 <= i < cmds.len() ==> !((#[trigger] cmds[i]) is Quit),
    ensures
        spec_drain(keys, m, seg_len, concat_bytes(chunks)) == spec_responses(
            keys,
            m,
            seg_len,
            cmds,
        ),
    decreases chunks.len(),
{
    if chunks.len() == 0 {
        let input = concat_bytes(chunks);
        assert(input.len() == 0);
        assert(crate::simple::spec_parse_simple(input) is Incomplete);
    } else {
        let c0 = chunks[0];
        let rest = concat_bytes(chunks.skip(1));
        let input = concat_bytes(chunks);
        assert(input == c0 + rest);
        assert(c0.len() > 0 && c0[0] == 42);
        assert(input.len() > 0 && input[0] == 42);
        assert(crate::simple::lower(42) == 42);
        assert(crate::simple::spec_parse_simple(input) is Malformed);
        assert(crate::resp2::spec_parse_command(c0) == (SpecParsed::Value {
            value: cmds[0],
            used: c0.len() as int,
        }));
        match crate::protocol::resp2::spec_parse_data(c0) {
            SpecParsed::Value { value: d, used: u } => {
                assert(u == c0.len());
                crate::protocol::resp2::lemma_parse_extend(c0, rest);
                assert(crate::protocol::resp2::spec_parse_data(input) == (SpecParsed::Value {
                    value: d,
                    used: u,
                }));
                assert(crate::resp2::spec_parse_command(input) == (SpecParsed::Value {
                    value: cmds[0],
                    used: u,
                }));
            },
            _ => {
                assert(false);
            },
        }
        assert(crate::spec_parse_command(input) == (SpecParsed::Value {
            value: cmds[0],
            used: c0.len() as int,
        }));
        assert(!(cmds[0] is Quit));
        assert(input.skip(c0.len() as int) =~= rest);
        assert(forall|i: int|
            0 <= i < chunks.skip(1).len() ==> #[trigger] chunks.skip(1)[i] == chunks[i + 1]);
        assert(forall|i: int|
            0 <= i < cmds.skip(1).len() ==> #[trigger] cmds.skip(1)[i] == cmds[i + 1]);
        lemma_pipelining(
            spec_new_keys(keys, m, seg_len, cmds[0]),
            spec_new_map(m, seg_len, cmds[0]),
            spec_new_len(seg_len, cmds[0]),
            chunks.skip(1),
            cmds.skip(1),
        );
    }
}

} // verus!
