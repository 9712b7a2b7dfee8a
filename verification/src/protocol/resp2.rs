//! The framed wire format: five value shapes — simple string, simple error,
//! integer, bulk string and array — each rendered with CRLF line endings.
//!
//! The parser is streaming: fed a byte buffer it either yields a value and
//! the number of bytes consumed, or reports that the buffer holds a valid
//! but incomplete prefix, or that it is malformed. Callers keep the bytes
//! and read more on `Incomplete`; they close the connection on `Malformed`.

use vstd::prelude::*;

verus! {

/// One framed value. Payloads are raw bytes: only the bulk string may carry
/// CRLF or arbitrary binary data and still re-parse.
#[derive(Debug, PartialEq)]
pub enum Data {
    /// `+<text>\r\n`
    String(Vec<u8>),
    /// `-<text>\r\n`
    Error(Vec<u8>),
    /// `:<digits>\r\n`, optionally signed
    Integer(i64),
    /// `$<n>\r\n<n bytes>\r\n`
    BulkString { length: usize, data: Vec<u8> },
    /// `*<n>\r\n<n framed values>`
    Array(Vec<Data>),
}

/// The mathematical shape of a framed value.
pub enum DataView {
    String(Seq<u8>),
    Error(Seq<u8>),
    Integer(i64),
    BulkString { length: nat, data: Seq<u8> },
    Array(Seq<DataView>),
}

/// The views of a sequence of framed values, elementwise.
pub open spec fn data_seq_view(v: Seq<Data>) -> Seq<DataView>
    decreases v, 0int,
{
    if v.len() == 0 {
        Seq::empty()
    } else {
        seq![v[0]@] + data_seq_view(v.subrange(1, v.len() as int))
    }
}

impl View for Data {
    type V = DataView;

    open spec fn view(&self) -> DataView
        decreases self, 1int,
    {
        match self {
            Data::String(s) => DataView::String(s@),
            Data::Error(s) => DataView::Error(s@),
            Data::Integer(i) => DataView::Integer(*i),
            Data::BulkString { length, data } => DataView::BulkString {
                length: *length as nat,
                data: data@,
            },
            Data::Array(items) => DataView::Array(data_seq_view(items@)),
        }
    }
}

/// `data_seq_view` is the elementwise view.
pub proof fn lemma_data_seq_view(v: Seq<Data>)
    ensures
        data_seq_view(v).len() == v.len(),
        forall|i: int| 0 <= i < v.len() ==> data_seq_view(v)[i] == #[trigger] v[i]@,
    decreases v.len(),
{
    if v.len() > 0 {
        let tail = v.subrange(1, v.len() as int);
        lemma_data_seq_view(tail);
        assert(data_seq_view(v) == seq![v[0]@] + data_seq_view(tail));
        assert(data_seq_view(v).len() == v.len());
        assert forall|i: int| 0 <= i < v.len() implies data_seq_view(v)[i] == #[trigger] v[i]@ by {
            if i > 0 {
                assert(data_seq_view(v)[i] == data_seq_view(tail)[i - 1]);
                assert(tail[i - 1] == v[i]);
            }
        }
    }
}

/// Outcome of a parse attempt.
#[derive(Debug, PartialEq)]
pub enum Parsed<T> {
    /// A whole value was read from the front of the buffer, using this many
    /// bytes.
    Value { value: T, used: usize },
    /// The buffer is a valid prefix: read more bytes and retry.
    Incomplete,
    /// The buffer can never grow into a valid frame.
    Malformed,
}

/// Outcome of a parse attempt, in specification form.
pub enum SpecParsed<T> {
    Value { value: T, used: int },
    Incomplete,
    Malformed,
}

/// The view of an exec parse outcome.
pub open spec fn parsed_view(r: Parsed<Data>) -> SpecParsed<DataView> {
    match r {
        Parsed::Value { value, used } => SpecParsed::Value { value: value@, used: used as int },
        Parsed::Incomplete => SpecParsed::Incomplete,
        Parsed::Malformed => SpecParsed::Malformed,
    }
}

/// Outcome of reading one CRLF-terminated line.
pub enum LineParse {
    /// `content` holds the bytes before the CRLF; `used` counts them plus
    /// the CRLF.
    Line { content: Seq<u8>, used: int },
    Incomplete,
    Malformed,
}

/// Read bytes up to a CRLF. A lone LF, or a CR followed by anything but LF,
/// is malformed; running out of bytes first is incomplete.
pub open spec fn spec_parse_line(s: Seq<u8>) -> LineParse
    decreases s.len(),
{
    if s.len() == 0 {
        LineParse::Incomplete
    } else if s[0] == 13 {
        if s.len() == 1 {
            LineParse::Incomplete
        } else if s[1] == 10 {
            LineParse::Line { content: Seq::empty(), used: 2 }
        } else {
            LineParse::Malformed
        }
    } else if s[0] == 10 {
        LineParse::Malformed
    } else {
        match spec_parse_line(s.skip(1)) {
            LineParse::Line { content, used } => LineParse::Line {
                content: seq![s[0]] + content,
                used: used + 1,
            },
            LineParse::Incomplete => LineParse::Incomplete,
            LineParse::Malformed => LineParse::Malformed,
        }
    }
}

/// An ASCII decimal digit.
pub open spec fn is_digit(b: u8) -> bool {
    48 <= b <= 57
}

/// Every byte is an ASCII decimal digit.
pub open spec fn all_digits(s: Seq<u8>) -> bool {
    forall|i: int| 0 <= i < s.len() ==> is_digit(#[trigger] s[i])
}

/// The number the digit string denotes.
pub open spec fn dec_val(s: Seq<u8>) -> int
    decreases s.len(),
{
    if s.len() == 0 {
        0
    } else {
        dec_val(s.drop_last()) * 10 + (s.last() - 48)
    }
}

/// A line of an integer frame: optional minus sign, then digits, value in
/// the signed 64-bit range.
pub open spec fn int_content_ok(c: Seq<u8>) -> bool {
    if c.len() > 0 && c[0] == 45 {
        c.len() > 1 && all_digits(c.skip(1)) && dec_val(c.skip(1)) <= 0x8000_0000_0000_0000
    } else {
        c.len() > 0 && all_digits(c) && dec_val(c) <= 0x7fff_ffff_ffff_ffff
    }
}

/// The value an integer frame's line denotes.
pub open spec fn int_content_val(c: Seq<u8>) -> int {
    if c.len() > 0 && c[0] == 45 {
        -dec_val(c.skip(1))
    } else {
        dec_val(c)
    }
}

/// A length field: one or more digits, no sign, fitting a `usize`.
pub open spec fn len_content_ok(c: Seq<u8>) -> bool {
    c.len() > 0 && all_digits(c) && dec_val(c) <= usize::MAX
}

/// Parse `n` consecutive framed values from the front of `s`.
pub open spec fn spec_parse_items(s: Seq<u8>, n: int) -> SpecParsed<Seq<DataView>>
    decreases s.len(), 1int,
{
    if n <= 0 {
        SpecParsed::Value { value: Seq::empty(), used: 0 }
    } else {
        match spec_parse_data(s) {
            SpecParsed::Value { value, used } => {
                if 1 <= used <= s.len() {
                    match spec_parse_items(s.skip(used), n - 1) {
                        SpecParsed::Value { value: rest, used: used2 } => SpecParsed::Value {
                            value: seq![value] + rest,
                            used: used + used2,
                        },
                        SpecParsed::Incomplete => SpecParsed::Incomplete,
                        SpecParsed::Malformed => SpecParsed::Malformed,
                    }
                } else {
                    // never reached: a parsed value uses at least one byte
                    SpecParsed::Malformed
                }
            },
            SpecParsed::Incomplete => SpecParsed::Incomplete,
            SpecParsed::Malformed => SpecParsed::Malformed,
        }
    }
}

/// Parse one framed value from the front of `s`.
pub open spec fn spec_parse_data(s: Seq<u8>) -> SpecParsed<DataView>
    decreases s.len(), 0int,
{
    if s.len() == 0 {
        SpecParsed::Incomplete
    } else if s[0] == 43 || s[0] == 45 {
        match spec_parse_line(s.skip(1)) {
            LineParse::Line { content, used } => SpecParsed::Value {
                value: if s[0] == 43 {
                    DataView::String(content)
                } else {
                    DataView::Error(content)
                },
                used: 1 + used,
            },
            LineParse::Incomplete => SpecParsed::Incomplete,
            LineParse::Malformed => SpecParsed::Malformed,
        }
    } else if s[0] == 58 {
        match spec_parse_line(s.skip(1)) {
            LineParse::Line { content, used } => {
                if int_content_ok(content) {
                    SpecParsed::Value {
                        value: DataView::Integer(int_content_val(content) as i64),
                        used: 1 + used,
                    }
                } else {
                    SpecParsed::Malformed
                }
            },
            LineParse::Incomplete => SpecParsed::Incomplete,
            LineParse::Malformed => SpecParsed::Malformed,
        }
    } else if s[0] == 36 {
        match spec_parse_line(s.skip(1)) {
            LineParse::Line { content, used } => {
                if !len_content_ok(content) {
                    SpecParsed::Malformed
                } else {
                    let n = dec_val(content);
                    let rest = s.skip(1 + used);
                    if rest.len() < n {
                        SpecParsed::Incomplete
                    } else {
                        let data = rest.take(n);
                        let tail = rest.skip(n);
                        if tail.len() == 0 {
                            SpecParsed::Incomplete
                        } else if tail[0] != 13 {
                            SpecParsed::Malformed
                        } else if tail.len() == 1 {
                            SpecParsed::Incomplete
                        } else if tail[1] != 10 {
                            SpecParsed::Malformed
                        } else {
                            SpecParsed::Value {
                                value: DataView::BulkString { length: n as nat, data },
                                used: 1 + used + n + 2,
                            }
                        }
                    }
                }
            },
            LineParse::Incomplete => SpecParsed::Incomplete,
            LineParse::Malformed => SpecParsed::Malformed,
        }
    } else if s[0] == 42 {
        match spec_parse_line(s.skip(1)) {
            LineParse::Line { content, used } => {
                if !len_content_ok(content) {
                    SpecParsed::Malformed
                } else if !(1 <= 1 + used <= s.len()) {
                    // never reached: a line uses at least two bytes
                    SpecParsed::Malformed
                } else {
                    match spec_parse_items(s.skip(1 + used), dec_val(content)) {
                        SpecParsed::Value { value, used: used2 } => SpecParsed::Value {
                            value: DataView::Array(value),
                            used: 1 + used + used2,
                        },
                        SpecParsed::Incomplete => SpecParsed::Incomplete,
                        SpecParsed::Malformed => SpecParsed::Malformed,
                    }
                }
            },
            LineParse::Incomplete => SpecParsed::Incomplete,
            LineParse::Malformed => SpecParsed::Malformed,
        }
    } else {
        SpecParsed::Malformed
    }
}

/// The encoding of one framed value. Lengths are recomputed from the
/// payload, never taken from a stored field.
pub open spec fn spec_encode(d: DataView) -> Seq<u8>
    decreases d, 0int,
{
    match d {
        DataView::String(c) => seq![43u8] + c + seq![13u8, 10u8],
        DataView::Error(c) => seq![45u8] + c + seq![13u8, 10u8],
        DataView::Integer(i) => seq![58u8] + crate::bytes::spec_dec_i64(i as int) + seq![
            13u8,
            10u8,
        ],
        DataView::BulkString { length: _, data } => seq![36u8] + crate::bytes::spec_dec_digits(
            data.len(),
        ) + seq![13u8, 10u8] + data + seq![13u8, 10u8],
        DataView::Array(items) => seq![42u8] + crate::bytes::spec_dec_digits(items.len()) + seq![
            13u8,
            10u8,
        ] + spec_encode_items(items, 0),
    }
}

/// The concatenated encodings of the items from index `i` on.
pub open spec fn spec_encode_items(items: Seq<DataView>, i: int) -> Seq<u8>
    decreases items, items.len() - i,
{
    if i < 0 || i >= items.len() {
        Seq::empty()
    } else {
        spec_encode(items[i]) + spec_encode_items(items, i + 1)
    }
}

/// A digit string denotes a number that is not negative.
proof fn lemma_dec_val_nonneg(s: Seq<u8>)
    requires
        all_digits(s),
    ensures
        dec_val(s) >= 0,
    decreases s.len(),
{
    if s.len() > 0 {
        assert(all_digits(s.drop_last())) by {
            assert(forall|i: int| 0 <= i < s.len() - 1 ==> s.drop_last()[i] == s[i]);
        }
        lemma_dec_val_nonneg(s.drop_last());
    }
}

/// Reading one more digit multiplies the value by ten and adds the digit.
proof fn lemma_dec_val_step(s: Seq<u8>, j: int)
    requires
        0 <= j < s.len(),
    ensures
        dec_val(s.take(j + 1)) == dec_val(s.take(j)) * 10 + (s[j] - 48),
{
    assert(s.take(j + 1).drop_last() =~= s.take(j));
    assert(s.take(j + 1).last() == s[j]);
}

/// A digit string denotes at least what any of its prefixes denotes.
proof fn lemma_dec_val_mono(s: Seq<u8>, j: int)
    requires
        0 <= j <= s.len(),
        all_digits(s),
    ensures
        dec_val(s.take(j)) <= dec_val(s),
    decreases s.len() - j,
{
    if j < s.len() {
        lemma_dec_val_step(s, j);
        assert(all_digits(s.take(j))) by {
            assert(forall|i: int| 0 <= i < j ==> s.take(j)[i] == s[i]);
        }
        lemma_dec_val_nonneg(s.take(j));
        lemma_dec_val_mono(s, j + 1);
    } else {
        assert(s.take(j) =~= s);
    }
}

/// Skipping a CR/LF-free prefix shifts the line parse by that prefix.
proof fn lemma_line_shift(s: Seq<u8>, k: int)
    requires
        0 <= k <= s.len(),
        forall|j: int| 0 <= j < k ==> s[j] != 13 && s[j] != 10,
    ensures
        spec_parse_line(s) == match spec_parse_line(s.skip(k)) {
            LineParse::Line { content, used } => LineParse::Line {
                content: s.take(k) + content,
                used: k + used,
            },
            LineParse::Incomplete => LineParse::Incomplete,
            LineParse::Malformed => LineParse::Malformed,
        },
    decreases k,
{
    if k == 0 {
        assert(s.skip(0) =~= s);
        match spec_parse_line(s) {
            LineParse::Line { content, used } => {
                assert(s.take(0) + content =~= content);
            },
            _ => {},
        }
    } else {
        assert(s.len() > 0 && s[0] != 13 && s[0] != 10);
        let t = s.skip(1);
        assert(forall|j: int| 0 <= j < k - 1 ==> t[j] == s[j + 1]);
        lemma_line_shift(t, k - 1);
        assert(t.skip(k - 1) =~= s.skip(k));
        match spec_parse_line(s.skip(k)) {
            LineParse::Line { content, used } => {
                assert(seq![s[0]] + (t.take(k - 1) + content) =~= s.take(k) + content);
            },
            _ => {},
        }
    }
}

/// Outcome of scanning for a CRLF.
enum LineScan {
    Line { used: usize },
    Incomplete,
    Malformed,
}

/// Scan for the CRLF that ends the line starting at `pos`.
fn scan_line(input: &[u8], pos: usize) -> (r: LineScan)
    requires
        pos <= input@.len(),
    ensures
        match r {
            LineScan::Line { used } => 2 <= used && pos + used <= input@.len() && spec_parse_line(
                input@.skip(pos as int),
            ) == (LineParse::Line {
                content: input@.subrange(pos as int, pos + used - 2),
                used: used as int,
            }),
            LineScan::Incomplete => spec_parse_line(input@.skip(pos as int)) is Incomplete,
            LineScan::Malformed => spec_parse_line(input@.skip(pos as int)) is Malformed,
        },
{
    let ghost s = input@.skip(pos as int);
    let mut i: usize = pos;
    while i < input.len()
        invariant
            pos <= i <= input@.len(),
            s == input@.skip(pos as int),
            forall|j: int| 0 <= j < i - pos ==> s[j] != 13 && s[j] != 10,
        decreases input@.len() - i,
    {
        let b = input[i];
        proof {
            assert(s[i - pos] == input@[i as int]);
        }
        if b == 13 {
            proof {
                lemma_line_shift(s, i - pos);
            }
            if i + 1 < input.len() {
                if input[i + 1] == 10 {
                    proof {
                        let rest = s.skip(i - pos);
                        assert(rest[0] == 13 && rest[1] == 10);
                        assert(rest.len() >= 2);
                        assert(s.take(i - pos) + Seq::<u8>::empty() =~= s.take(i - pos));
                        assert(s.take(i - pos) =~= input@.subrange(pos as int, i as int));
                    }
                    return LineScan::Line { used: i + 2 - pos };
                } else {
                    proof {
                        let rest = s.skip(i - pos);
                        assert(rest[0] == 13 && rest.len() >= 2 && rest[1] != 10);
                    }
                    return LineScan::Malformed;
                }
            } else {
                proof {
                    let rest = s.skip(i - pos);
                    assert(rest[0] == 13 && rest.len() == 1);
                }
                return LineScan::Incomplete;
            }
        } else if b == 10 {
            proof {
                lemma_line_shift(s, i - pos);
                let rest = s.skip(i - pos);
                assert(rest[0] == 10);
            }
            return LineScan::Malformed;
        }
        i += 1;
    }
    proof {
        lemma_line_shift(s, i - pos);
        let rest = s.skip(i - pos);
        assert(rest.len() == 0);
    }
    LineScan::Incomplete
}

/// Parse the line of an integer frame: optional sign, then digits, within
/// the signed 64-bit range.
fn parse_int_content(input: &[u8], a: usize, b: usize) -> (r: Option<i64>)
    requires
        a <= b <= input@.len(),
    ensures
        ({
            let c = input@.subrange(a as int, b as int);
            match r {
                Some(v) => int_content_ok(c) && v as int == int_content_val(c),
                None => !int_content_ok(c),
            }
        }),
{
    let ghost c = input@.subrange(a as int, b as int);
    if a == b {
        return None;
    }
    let neg = input[a] == 45;
    let start = if neg {
        a + 1
    } else {
        a
    };
    if start == b {
        proof {
            assert(neg);
            assert(c.len() == 1 && c[0] == 45);
        }
        return None;
    }
    let ghost d = input@.subrange(start as int, b as int);
    proof {
        if neg {
            assert(d =~= c.skip(1));
        } else {
            assert(d =~= c);
        }
    }
    let bound: u64 = if neg {
        0x8000_0000_0000_0000
    } else {
        0x7fff_ffff_ffff_ffff
    };
    let mut val: u64 = 0;
    let mut i = start;
    while i < b
        invariant
            start <= i <= b <= input@.len(),
            start < b,
            d == input@.subrange(start as int, b as int),
            c == input@.subrange(a as int, b as int),
            a <= start,
            neg ==> start == a + 1 && c.len() > 0 && c[0] == 45 && d == c.skip(1),
            !neg ==> start == a && d == c && !(c.len() > 0 && c[0] == 45),
            bound == if neg {
                0x8000_0000_0000_0000u64
            } else {
                0x7fff_ffff_ffff_ffffu64
            },
            all_digits(d.take(i - start)),
            val == dec_val(d.take(i - start)),
            val <= bound,
        decreases b - i,
    {
        let byte = input[i];
        proof {
            assert(d[i - start] == input@[i as int]);
        }
        if byte < 48 || byte > 57 {
            proof {
                assert(!is_digit(d[i - start]));
                assert(!all_digits(d));
            }
            return None;
        }
        let dv = (byte - 48) as u64;
        if val > (bound - dv) / 10 {
            proof {
                assert(10 * val + dv > bound) by (nonlinear_arith)
                    requires
                        val > (bound - dv) / 10,
                        dv <= 9,
                        bound >= dv,
                ;
                lemma_dec_val_step(d, i - start);
                assert(dec_val(d.take(i - start + 1)) > bound);
                if all_digits(d) {
                    lemma_dec_val_mono(d, i - start + 1);
                    assert(dec_val(d) > bound);
                }
            }
            return None;
        }
        proof {
            assert(10 * val + dv <= bound) by (nonlinear_arith)
                requires
                    val <= (bound - dv) / 10,
                    dv <= 9,
                    bound >= dv,
            ;
            lemma_dec_val_step(d, i - start);
        }
        val = val * 10 + dv;
        i += 1;
    }
    proof {
        assert(d.take(b - start) =~= d);
        assert(all_digits(d) && val == dec_val(d) && val <= bound);
    }
    if neg {
        if val == 0x8000_0000_0000_0000 {
            Some(i64::MIN)
        } else {
            Some(-(val as i64))
        }
    } else {
        Some(val as i64)
    }
}

/// Parse a length line: one or more digits fitting a `usize`.
fn parse_len_content(input: &[u8], a: usize, b: usize) -> (r: Option<usize>)
    requires
        a <= b <= input@.len(),
    ensures
        ({
            let c = input@.subrange(a as int, b as int);
            match r {
                Some(v) => len_content_ok(c) && v as int == dec_val(c),
                None => !len_content_ok(c),
            }
        }),
{
    let ghost c = input@.subrange(a as int, b as int);
    if a == b {
        return None;
    }
    let mut val: usize = 0;
    let mut i = a;
    while i < b
        invariant
            a <= i <= b <= input@.len(),
            c == input@.subrange(a as int, b as int),
            all_digits(c.take(i - a)),
            val == dec_val(c.take(i - a)),
        decreases b - i,
    {
        let byte = input[i];
        proof {
            assert(c[i - a] == input@[i as int]);
        }
        if byte < 48 || byte > 57 {
            proof {
                assert(!is_digit(c[i - a]));
            }
            return None;
        }
        let dv = (byte - 48) as usize;
        if val > (usize::MAX - dv) / 10 {
            proof {
                assert(10 * val + dv > usize::MAX) by (nonlinear_arith)
                    requires
                        val > (usize::MAX - dv) / 10,
                        dv <= 9,
                ;
                lemma_dec_val_step(c, i - a);
                assert(dec_val(c.take(i - a + 1)) > usize::MAX);
                if all_digits(c) {
                    lemma_dec_val_mono(c, i - a + 1);
                }
            }
            return None;
        }
        proof {
            assert(10 * val + dv <= usize::MAX) by (nonlinear_arith)
                requires
                    val <= (usize::MAX - dv) / 10,
                    dv <= 9,
            ;
            lemma_dec_val_step(c, i - a);
        }
        val = val * 10 + dv;
        i += 1;
    }
    proof {
        assert(c.take(b - a) =~= c);
        lemma_dec_val_nonneg(c);
    }
    Some(val)
}

/// The exec result is the spec parse of `s`, and a parsed value used at
/// least one byte and no more than the buffer holds.
pub open spec fn result_matches(r: Parsed<Data>, s: Seq<u8>) -> bool {
    &&& parsed_view(r) == spec_parse_data(s)
    &&& match r {
        Parsed::Value { value: _, used } => 1 <= used <= s.len(),
        _ => true,
    }
}

/// Glue a parsed prefix of an item list onto the parse of the remainder.
pub open spec fn items_cont(
    prefix: Seq<DataView>,
    consumed: int,
    r: SpecParsed<Seq<DataView>>,
) -> SpecParsed<Seq<DataView>> {
    match r {
        SpecParsed::Value { value, used } => SpecParsed::Value {
            value: prefix + value,
            used: consumed + used,
        },
        SpecParsed::Incomplete => SpecParsed::Incomplete,
        SpecParsed::Malformed => SpecParsed::Malformed,
    }
}

/// Parse a simple string frame: `+<text>\r\n`.
fn parse_string(input: &[u8], pos: usize) -> (r: Parsed<Data>)
    requires
        pos < input@.len(),
        input@[pos as int] == 43,
    ensures
        result_matches(r, input@.skip(pos as int)),
    decreases input@.len() - pos, 0int,
{
    let input_len: usize = input.len();
    let ghost s = input@.skip(pos as int);
    proof {
        assert(input@.len() == input_len);
        assert(s[0] == 43);
        assert(s.skip(1) =~= input@.skip(pos + 1));
    }
    match scan_line(input, pos + 1) {
        LineScan::Line { used } => {
            let content = vstd::slice::slice_to_vec(
                vstd::slice::slice_subrange(input, pos + 1, pos + 1 + used - 2),
            );
            Parsed::Value { value: Data::String(content), used: 1 + used }
        },
        LineScan::Incomplete => Parsed::Incomplete,
        LineScan::Malformed => Parsed::Malformed,
    }
}

/// Parse a simple error frame: `-<text>\r\n`.
fn parse_error(input: &[u8], pos: usize) -> (r: Parsed<Data>)
    requires
        pos < input@.len(),
        input@[pos as int] == 45,
    ensures
        result_matches(r, input@.skip(pos as int)),
    decreases input@.len() - pos, 0int,
{
    let input_len: usize = input.len();
    let ghost s = input@.skip(pos as int);
    proof {
        assert(input@.len() == input_len);
        assert(s[0] == 45);
        assert(s.skip(1) =~= input@.skip(pos + 1));
    }
    match scan_line(input, pos + 1) {
        LineScan::Line { used } => {
            let content = vstd::slice::slice_to_vec(
                vstd::slice::slice_subrange(input, pos + 1, pos + 1 + used - 2),
            );
            Parsed::Value { value: Data::Error(content), used: 1 + used }
        },
        LineScan::Incomplete => Parsed::Incomplete,
        LineScan::Malformed => Parsed::Malformed,
    }
}

/// Parse an integer frame: `:<digits>\r\n`, with an optional leading minus.
fn parse_integer(input: &[u8], pos: usize) -> (r: Parsed<Data>)
    requires
        pos < input@.len(),
        input@[pos as int] == 58,
    ensures
        result_matches(r, input@.skip(pos as int)),
    decreases input@.len() - pos, 0int,
{
    let input_len: usize = input.len();
    let ghost s = input@.skip(pos as int);
    proof {
        assert(input@.len() == input_len);
        assert(s[0] == 58);
        assert(s.skip(1) =~= input@.skip(pos + 1));
    }
    match scan_line(input, pos + 1) {
        LineScan::Line { used } => {
            match parse_int_content(input, pos + 1, pos + 1 + used - 2) {
                Some(v) => {
                    proof {
                        let c = input@.subrange(pos + 1, pos + 1 + used - 2);
                        assert(int_content_ok(c));
                        assert(v as int == int_content_val(c));
                        assert(int_content_val(c) as i64 == v);
                    }
                    Parsed::Value { value: Data::Integer(v), used: 1 + used }
                },
                None => Parsed::Malformed,
            }
        },
        LineScan::Incomplete => Parsed::Incomplete,
        LineScan::Malformed => Parsed::Malformed,
    }
}

/// Parse a bulk string frame: `$<n>\r\n<n bytes>\r\n`.
fn parse_bulk_string(input: &[u8], pos: usize) -> (r: Parsed<Data>)
    requires
        pos < input@.len(),
        input@[pos as int] == 36,
    ensures
        result_matches(r, input@.skip(pos as int)),
    decreases input@.len() - pos, 0int,
{
    let input_len: usize = input.len();
    let ghost s = input@.skip(pos as int);
    proof {
        assert(input@.len() == input_len);
        assert(s[0] == 36);
        assert(s.skip(1) =~= input@.skip(pos + 1));
    }
    match scan_line(input, pos + 1) {
        LineScan::Line { used } => {
            match parse_len_content(input, pos + 1, pos + 1 + used - 2) {
                Some(n) => {
                    let after_line = pos + 1 + used;
                    let ghost rest = s.skip(1 + used);
                    proof {
                        assert(rest =~= input@.skip(after_line as int));
                    }
                    if input.len() - after_line < n {
                        proof {
                            assert(rest.len() < n);
                        }
                        Parsed::Incomplete
                    } else {
                        let data_end = after_line + n;
                        proof {
                            assert(rest.len() >= n);
                            assert(rest.skip(n as int) =~= input@.skip(data_end as int));
                        }
                        if data_end == input.len() {
                            Parsed::Incomplete
                        } else if input[data_end] != 13 {
                            proof {
                                assert(rest.skip(n as int)[0] == input@[data_end as int]);
                            }
                            Parsed::Malformed
                        } else if data_end + 1 == input.len() {
                            proof {
                                assert(rest.skip(n as int)[0] == input@[data_end as int]);
                            }
                            Parsed::Incomplete
                        } else if input[data_end + 1] != 10 {
                            proof {
                                assert(rest.skip(n as int)[0] == input@[data_end as int]);
                                assert(rest.skip(n as int)[1] == input@[data_end + 1]);
                            }
                            Parsed::Malformed
                        } else {
                            let data = vstd::slice::slice_to_vec(
                                vstd::slice::slice_subrange(input, after_line, data_end),
                            );
                            proof {
                                assert(rest.skip(n as int)[0] == input@[data_end as int]);
                                assert(rest.skip(n as int)[1] == input@[data_end + 1]);
                                assert(data@ =~= rest.take(n as int));
                            }
                            Parsed::Value {
                                value: Data::BulkString { length: n, data },
                                used: data_end + 2 - pos,
                            }
                        }
                    }
                },
                None => Parsed::Malformed,
            }
        },
        LineScan::Incomplete => Parsed::Incomplete,
        LineScan::Malformed => Parsed::Malformed,
    }
}

/// Parse an array frame: `*<n>\r\n` followed by `n` framed values.
#[verifier::loop_isolation(false)]
fn parse_array(input: &[u8], pos: usize) -> (r: Parsed<Data>)
    requires
        pos < input@.len(),
        input@[pos as int] == 42,
    ensures
        result_matches(r, input@.skip(pos as int)),
    decreases input@.len() - pos, 0int,
{
    let input_len: usize = input.len();
    let ghost s = input@.skip(pos as int);
    proof {
        assert(input@.len() == input_len);
        assert(s[0] == 42);
        assert(s.skip(1) =~= input@.skip(pos + 1));
    }
    match scan_line(input, pos + 1) {
        LineScan::Line { used } => {
            match parse_len_content(input, pos + 1, pos + 1 + used - 2) {
                Some(n) => {
                    let p0 = pos + 1 + used;
                    let ghost nn = n as int;
                    proof {
                        assert(1 <= 1 + used <= s.len());
                        assert(s.skip(1 + used) =~= input@.skip(p0 as int));
                    }
                    let mut items: Vec<Data> = Vec::new();
                    let mut cur = p0;
                    let mut i: usize = 0;
                    proof {
                        lemma_data_seq_view(items@);
                        assert(data_seq_view(items@) + Seq::<DataView>::empty()
                            =~= data_seq_view(items@));
                    }
                    while i < n
                        invariant
                            pos < p0 <= cur <= input@.len(),
                            i <= n,
                            nn == n as int,
                            items@.len() == i,
                            spec_parse_items(input@.skip(p0 as int), nn) == items_cont(
                                data_seq_view(items@),
                                cur - p0,
                                spec_parse_items(input@.skip(cur as int), nn - i),
                            ),
                        decreases n - i,
                    {
                        let ghost items0 = items@;
                        let ghost cur0 = cur;
                        let r = parse_data_at(input, cur);
                        match r {
                            Parsed::Value { value, used: u2 } => {
                                proof {
                                    let sc = input@.skip(cur as int);
                                    assert(1 <= u2 <= sc.len());
                                    assert(cur + u2 <= input_len);
                                    assert(sc.skip(u2 as int) =~= input@.skip(cur + u2));
                                    assert(spec_parse_items(sc, nn - i) == items_cont(
                                        seq![value@],
                                        u2 as int,
                                        spec_parse_items(input@.skip(cur + u2), nn - i - 1),
                                    )) by {
                                        assert(spec_parse_data(sc) == (SpecParsed::Value {
                                            value: value@,
                                            used: u2 as int,
                                        }));
                                        match spec_parse_items(input@.skip(cur + u2), nn - i - 1) {
                                            SpecParsed::Value { value: rest, used: used2 } => {
                                                assert(seq![value@] + rest =~= seq![value@] + rest);
                                            },
                                            _ => {},
                                        }
                                    }
                                }
                                items.push(value);
                                cur = cur + u2;
                                i = i + 1;
                                proof {
                                    assert(items@ == items0.push(value));
                                    lemma_data_seq_view(items0);
                                    lemma_data_seq_view(items@);
                                    assert forall|j: int|
                                        0 <= j < items@.len() implies #[trigger] data_seq_view(
                                        items@,
                                    )[j] == (data_seq_view(items0) + seq![value@])[j] by {
                                        assert(data_seq_view(items@)[j] == items@[j]@);
                                        if j < items0.len() {
                                            assert(items@[j] == items0[j]);
                                            assert(data_seq_view(items0)[j] == items0[j]@);
                                        } else {
                                            assert(items@[j] == value);
                                        }
                                    }
                                    assert(data_seq_view(items@) =~= data_seq_view(items0)
                                        + seq![value@]);
                                    match spec_parse_items(input@.skip(cur as int), nn - i) {
                                        SpecParsed::Value { value: rest, used: used2 } => {
                                            assert((data_seq_view(items0) + seq![value@]) + rest
                                                =~= data_seq_view(items0) + (seq![value@] + rest));
                                        },
                                        _ => {},
                                    }
                                }
                            },
                            Parsed::Incomplete => {
                                proof {
                                    assert(spec_parse_items(input@.skip(cur as int), nn - i)
                                        is Incomplete);
                                    assert(spec_parse_items(input@.skip(p0 as int), nn)
                                        is Incomplete);
                                }
                                return Parsed::Incomplete;
                            },
                            Parsed::Malformed => {
                                proof {
                                    assert(spec_parse_items(input@.skip(cur as int), nn - i)
                                        is Malformed);
                                    assert(spec_parse_items(input@.skip(p0 as int), nn)
                                        is Malformed);
                                }
                                return Parsed::Malformed;
                            },
                        }
                    }
                    proof {
                        assert(spec_parse_items(input@.skip(cur as int), 0) == (SpecParsed::Value {
                            value: Seq::<DataView>::empty(),
                            used: 0int,
                        }));
                        assert(data_seq_view(items@) + Seq::<DataView>::empty()
                            =~= data_seq_view(items@));
                        assert(spec_parse_items(input@.skip(p0 as int), nn) == (SpecParsed::Value {
                            value: data_seq_view(items@),
                            used: cur - p0,
                        }));
                    }
                    Parsed::Value { value: Data::Array(items), used: cur - pos }
                },
                None => Parsed::Malformed,
            }
        },
        LineScan::Incomplete => Parsed::Incomplete,
        LineScan::Malformed => Parsed::Malformed,
    }
}

/// Relies on String::from_utf8: it succeeds exactly on valid UTF-8 input and
/// returns the string those bytes encode.
#[verifier::external_body]
fn string_from_utf8(bytes: Vec<u8>) -> (r: Option<String>)
    ensures
        match r {
            Some(s) => vstd::utf8::valid_utf8(bytes@) && vstd::utf8::encode_utf8(s@) == bytes@,
            None => !vstd::utf8::valid_utf8(bytes@),
        },
{
    String::from_utf8(bytes).ok()
}

impl Data {
    /// Render the value in wire form. Lengths are recomputed from the
    /// payloads, never copied from a stored field.
    #[verifier::loop_isolation(false)]
    pub fn encode(&self) -> (r: Vec<u8>)
        ensures
            r@ == spec_encode(self@),
        decreases self,
    {
        let mut b: Vec<u8> = Vec::new();
        match self {
            Data::String(c) => {
                b.push(43);
                b.extend_from_slice(c.as_slice());
                b.push(13);
                b.push(10);
                proof {
                    assert(b@ =~= spec_encode(self@));
                }
            },
            Data::Error(c) => {
                b.push(45);
                b.extend_from_slice(c.as_slice());
                b.push(13);
                b.push(10);
                proof {
                    assert(b@ =~= spec_encode(self@));
                }
            },
            Data::Integer(i) => {
                b.push(58);
                crate::bytes::push_dec_i64(&mut b, *i);
                b.push(13);
                b.push(10);
                proof {
                    assert(b@ =~= spec_encode(self@));
                }
            },
            Data::BulkString { length: _, data } => {
                b.push(36);
                crate::bytes::push_dec_u64(&mut b, data.len() as u64);
                b.push(13);
                b.push(10);
                b.extend_from_slice(data.as_slice());
                b.push(13);
                b.push(10);
                proof {
                    assert(b@ =~= spec_encode(self@));
                }
            },
            Data::Array(items) => {
                let ghost v = data_seq_view(items@);
                proof {
                    lemma_data_seq_view(items@);
                }
                b.push(42);
                crate::bytes::push_dec_u64(&mut b, items.len() as u64);
                b.push(13);
                b.push(10);
                let ghost head = b@;
                let mut j: usize = 0;
                while j < items.len()
                    invariant
                        j <= items@.len(),
                        b@ + spec_encode_items(v, j as int) == head + spec_encode_items(v, 0),
                    decreases items@.len() - j,
                {
                    let ghost b0 = b@;
                    let e = items[j].encode();
                    b.extend_from_slice(e.as_slice());
                    proof {
                        assert(e@ == spec_encode(items@[j as int]@));
                        assert(items@[j as int]@ == v[j as int]);
                        assert(spec_encode_items(v, j as int) == spec_encode(v[j as int])
                            + spec_encode_items(v, j + 1));
                        assert(b@ + spec_encode_items(v, j + 1) =~= b0 + spec_encode_items(
                            v,
                            j as int,
                        ));
                    }
                    j += 1;
                }
                proof {
                    assert(spec_encode_items(v, items@.len() as int) == Seq::<u8>::empty());
                    assert(b@ =~= b@ + spec_encode_items(v, items@.len() as int));
                    assert(head + spec_encode_items(v, 0) =~= spec_encode(self@));
                }
            },
        }
        b
    }

    /// Render the value as text, when its wire form is valid UTF-8.
    pub fn as_str(&self) -> (r: Option<String>)
        ensures
            match r {
                Some(s) => vstd::utf8::valid_utf8(spec_encode(self@)) && vstd::utf8::encode_utf8(
                    s@,
                ) == spec_encode(self@),
                None => !vstd::utf8::valid_utf8(spec_encode(self@)),
            },
    {
        string_from_utf8(self.encode())
    }
}

/// Parse one framed value starting at `pos`.
fn parse_data_at(input: &[u8], pos: usize) -> (r: Parsed<Data>)
    requires
        pos <= input@.len(),
    ensures
        result_matches(r, input@.skip(pos as int)),
    decreases input@.len() - pos, 1int,
{
    if pos == input.len() {
        return Parsed::Incomplete;
    }
    let tag = input[pos];
    proof {
        assert(input@.skip(pos as int)[0] == input@[pos as int]);
    }
    if tag == 43 {
        parse_string(input, pos)
    } else if tag == 45 {
        parse_error(input, pos)
    } else if tag == 58 {
        parse_integer(input, pos)
    } else if tag == 36 {
        parse_bulk_string(input, pos)
    } else if tag == 42 {
        parse_array(input, pos)
    } else {
        Parsed::Malformed
    }
}

/// Parse one framed value from the front of the buffer: either the value and
/// the bytes it used, or `Incomplete` when more bytes are needed, or
/// `Malformed` when the buffer can never become a valid frame.
pub fn parse_data(input: &[u8]) -> (r: Parsed<Data>)
    ensures
        result_matches(r, input@),
{
    proof {
        assert(input@.skip(0) =~= input@);
    }
    parse_data_at(input, 0)
}

/// A value whose encoding parses back: simple strings and errors carry no CR
/// or LF, stored bulk lengths agree with the payload, and payload and array
/// sizes fit a machine word.
pub open spec fn wf_data(d: DataView) -> bool
    decreases d, 0int,
{
    match d {
        DataView::String(c) => forall|i: int| 0 <= i < c.len() ==> c[i] != 13 && (#[trigger] c[i])
            != 10,
        DataView::Error(c) => forall|i: int| 0 <= i < c.len() ==> c[i] != 13 && (#[trigger] c[i])
            != 10,
        DataView::Integer(_) => true,
        DataView::BulkString { length, data } => length == data.len() && data.len() <= usize::MAX,
        DataView::Array(items) => items.len() <= usize::MAX && wf_items(items, 0),
    }
}

/// Every item from index `i` on is well formed.
pub open spec fn wf_items(items: Seq<DataView>, i: int) -> bool
    decreases items, items.len() - i,
{
    if i < 0 || i >= items.len() {
        true
    } else {
        wf_data(items[i]) && wf_items(items, i + 1)
    }
}

/// The decimal digits of a number: nonempty, all digits, denoting it.
proof fn lemma_dec_digits(n: nat)
    ensures
        crate::bytes::spec_dec_digits(n).len() >= 1,
        all_digits(crate::bytes::spec_dec_digits(n)),
        dec_val(crate::bytes::spec_dec_digits(n)) == n,
    decreases n,
{
    let dd = crate::bytes::spec_dec_digits(n);
    if n < 10 {
        assert(dd == seq![(48 + n) as u8]);
        assert(dd.drop_last() =~= Seq::<u8>::empty());
        assert(dec_val(Seq::<u8>::empty()) == 0);
        assert(dd.last() == (48 + n) as u8);
        assert(dec_val(dd) == n);
    } else {
        lemma_dec_digits(n / 10);
        let head = crate::bytes::spec_dec_digits(n / 10);
        assert(dd == head.push((48 + n % 10) as u8));
        assert(dd.drop_last() =~= head);
        assert(dd.last() == (48 + n % 10) as u8);
        assert(dec_val(dd) == dec_val(head) * 10 + n % 10);
        assert((n / 10) * 10 + n % 10 == n) by (nonlinear_arith);
        assert(forall|i: int| 0 <= i < dd.len() ==> is_digit(#[trigger] dd[i])) by {
            assert(forall|i: int| 0 <= i < head.len() ==> dd[i] == #[trigger] head[i]);
        }
    }
}

/// An encoding always begins with its tag byte.
proof fn lemma_encode_len(d: DataView)
    ensures
        spec_encode(d).len() >= 1,
{
}

/// A CR/LF-free line followed by a CRLF parses back to itself, whatever
/// follows.
proof fn lemma_line_round_trip(c: Seq<u8>, tail: Seq<u8>)
    requires
        forall|i: int| 0 <= i < c.len() ==> c[i] != 13 && (#[trigger] c[i]) != 10,
    ensures
        spec_parse_line(c + seq![13u8, 10u8] + tail) == (LineParse::Line {
            content: c,
            used: c.len() + 2int,
        }),
    decreases c.len(),
{
    let s = c + seq![13u8, 10u8] + tail;
    if c.len() == 0 {
        assert(s[0] == 13 && s[1] == 10);
        assert(s.len() >= 2);
        assert(c =~= Seq::<u8>::empty());
    } else {
        assert(s[0] == c[0]);
        assert(s[0] != 13 && s[0] != 10);
        lemma_line_round_trip(c.skip(1), tail);
        assert(c.skip(1) + seq![13u8, 10u8] + tail =~= s.skip(1));
        assert(spec_parse_line(s.skip(1)) == (LineParse::Line {
            content: c.skip(1),
            used: c.len() - 1 + 2,
        }));
        assert(seq![s[0]] + c.skip(1) =~= c);
    }
}

/// A parsed line used at least its CRLF and no more than the buffer.
proof fn lemma_line_bounds(s: Seq<u8>)
    ensures
        spec_parse_line(s) matches LineParse::Line { content, used } ==> 2 <= used <= s.len()
            && content.len() == used - 2,
    decreases s.len(),
{
    if s.len() > 0 && s[0] != 13 && s[0] != 10 {
        lemma_line_bounds(s.skip(1));
    }
}

/// A parsed value used at least one byte and no more than the buffer holds.
pub proof fn lemma_parse_bounds(s: Seq<u8>)
    ensures
        spec_parse_data(s) matches SpecParsed::Value { value: _, used } ==> 1 <= used <= s.len(),
    decreases s.len(), 0int,
{
    if s.len() == 0 {
        return ;
    }
    lemma_line_bounds(s.skip(1));
    if s[0] == 36 {
        match spec_parse_line(s.skip(1)) {
            LineParse::Line { content, used } => {
                if len_content_ok(content) {
                    lemma_dec_val_nonneg(content);
                    let n = dec_val(content);
                    let rest = s.skip(1 + used);
                    assert(rest.len() == s.len() - 1 - used);
                    if rest.len() >= n {
                        let tail = rest.skip(n);
                        if tail.len() >= 2 && tail[0] == 13 && tail[1] == 10 {
                            assert(1 + used + n + 2 <= s.len());
                        }
                    }
                }
            },
            _ => {},
        }
    } else if s[0] == 42 {
        match spec_parse_line(s.skip(1)) {
            LineParse::Line { content, used } => {
                if len_content_ok(content) && 1 <= 1 + used <= s.len() {
                    lemma_items_bounds(s.skip(1 + used), dec_val(content));
                }
            },
            _ => {},
        }
    }
}

/// Parsed item lists use no more bytes than the buffer holds.
proof fn lemma_items_bounds(s: Seq<u8>, n: int)
    ensures
        spec_parse_items(s, n) matches SpecParsed::Value { value: _, used } ==> 0 <= used
            <= s.len(),
    decreases s.len(), 1int,
{
    if n > 0 {
        lemma_parse_bounds(s);
        match spec_parse_data(s) {
            SpecParsed::Value { value: _, used } => {
                if 1 <= used <= s.len() {
                    lemma_items_bounds(s.skip(used), n - 1);
                }
            },
            _ => {},
        }
    }
}

/// Reading more bytes can only settle a parse: a complete line stays the
/// same and a malformed line stays malformed.
proof fn lemma_line_extend(t: Seq<u8>, ext: Seq<u8>)
    ensures
        spec_parse_line(t) matches LineParse::Line { content, used } ==> spec_parse_line(t + ext)
            == (LineParse::Line { content, used }),
        spec_parse_line(t) is Malformed ==> spec_parse_line(t + ext) is Malformed,
    decreases t.len(),
{
    let s2 = t + ext;
    if t.len() == 0 {
    } else if t[0] == 13 {
        if t.len() >= 2 {
            assert(s2[0] == 13 && s2[1] == t[1] && s2.len() >= 2);
        }
    } else if t[0] == 10 {
        assert(s2[0] == 10);
    } else {
        assert(s2[0] == t[0]);
        lemma_line_extend(t.skip(1), ext);
        assert(t.skip(1) + ext =~= s2.skip(1));
        match spec_parse_line(t.skip(1)) {
            LineParse::Line { content, used } => {
                assert(seq![s2[0]] + content =~= seq![t[0]] + content);
            },
            _ => {},
        }
    }
}

/// Reading more bytes can only settle a parse: a complete value stays the
/// same and a malformed buffer stays malformed.
pub proof fn lemma_parse_extend(t: Seq<u8>, ext: Seq<u8>)
    ensures
        spec_parse_data(t) matches SpecParsed::Value { value, used } ==> spec_parse_data(t + ext)
            == (SpecParsed::Value { value, used }),
        spec_parse_data(t) is Malformed ==> spec_parse_data(t + ext) is Malformed,
    decreases t.len(), 0int,
{
    let s2 = t + ext;
    if t.len() == 0 {
        return ;
    }
    assert(s2[0] == t[0]);
    lemma_line_extend(t.skip(1), ext);
    lemma_line_bounds(t.skip(1));
    assert(t.skip(1) + ext =~= s2.skip(1));
    if t[0] == 36 {
        match spec_parse_line(t.skip(1)) {
            LineParse::Line { content, used } => {
                if len_content_ok(content) {
                    lemma_dec_val_nonneg(content);
                    let n = dec_val(content);
                    assert(2 <= used <= t.skip(1).len());
                    let rest_t = t.skip(1 + used);
                    let rest_s = s2.skip(1 + used);
                    assert(rest_t + ext =~= rest_s);
                    if rest_t.len() >= n {
                        assert(rest_s.take(n) =~= rest_t.take(n));
                        assert(rest_t.skip(n) + ext =~= rest_s.skip(n));
                        let tail_t = rest_t.skip(n);
                        let tail_s = rest_s.skip(n);
                        if tail_t.len() >= 1 {
                            assert(tail_s[0] == tail_t[0]);
                            if tail_t[0] == 13 && tail_t.len() >= 2 {
                                assert(tail_s[1] == tail_t[1]);
                            }
                        }
                    }
                }
            },
            _ => {},
        }
    } else if t[0] == 42 {
        match spec_parse_line(t.skip(1)) {
            LineParse::Line { content, used } => {
                if len_content_ok(content) {
                    assert(2 <= used <= t.skip(1).len());
                    assert(1 <= 1 + used <= t.len());
                    assert(1 <= 1 + used <= s2.len());
                    lemma_items_extend(t.skip(1 + used), ext, dec_val(content));
                    assert(t.skip(1 + used) + ext =~= s2.skip(1 + used));
                }
            },
            _ => {},
        }
    }
}

/// Reading more bytes can only settle the parse of an item list.
proof fn lemma_items_extend(t: Seq<u8>, ext: Seq<u8>, n: int)
    ensures
        spec_parse_items(t, n) matches SpecParsed::Value { value, used } ==> spec_parse_items(
            t + ext,
            n,
        ) == (SpecParsed::Value { value, used }),
        spec_parse_items(t, n) is Malformed ==> spec_parse_items(t + ext, n) is Malformed,
    decreases t.len(), 1int,
{
    if n <= 0 {
        return ;
    }
    lemma_parse_bounds(t);
    lemma_parse_extend(t, ext);
    match spec_parse_data(t) {
        SpecParsed::Value { value: _, used } => {
            assert(1 <= used <= t.len());
            assert(used <= (t + ext).len());
            lemma_items_extend(t.skip(used), ext, n - 1);
            assert(t.skip(used) + ext =~= (t + ext).skip(used));
        },
        _ => {},
    }
}

/// Framing symmetry: the encoding of a well-formed value, with anything at
/// all appended, parses back to exactly that value, consuming exactly the
/// encoding.
pub proof fn lemma_encode_parse(d: DataView, tail: Seq<u8>)
    requires
        wf_data(d),
    ensures
        spec_parse_data(spec_encode(d) + tail) == (SpecParsed::Value {
            value: d,
            used: spec_encode(d).len() as int,
        }),
    decreases d, 0int,
{
    let s = spec_encode(d) + tail;
    match d {
        DataView::String(c) => {
            assert(s[0] == 43);
            lemma_line_round_trip(c, tail);
            assert(c + seq![13u8, 10u8] + tail =~= s.skip(1));
        },
        DataView::Error(c) => {
            assert(s[0] == 45);
            lemma_line_round_trip(c, tail);
            assert(c + seq![13u8, 10u8] + tail =~= s.skip(1));
        },
        DataView::Integer(i) => {
            assert(s[0] == 58);
            let c = crate::bytes::spec_dec_i64(i as int);
            if i < 0 {
                lemma_dec_digits((-(i as int)) as nat);
                let dd = crate::bytes::spec_dec_digits((-(i as int)) as nat);
                assert(c == seq![45u8] + dd);
                assert(forall|j: int| 0 <= j < c.len() ==> c[j] != 13 && (#[trigger] c[j]) != 10)
                    by {
                    assert(c[0] == 45);
                    assert(forall|j: int| 0 <= j < dd.len() ==> is_digit(#[trigger] dd[j]));
                    assert(forall|j: int| 1 <= j < c.len() ==> c[j] == #[trigger] dd[j - 1]);
                }
                lemma_line_round_trip(c, tail);
                assert(c + seq![13u8, 10u8] + tail =~= s.skip(1));
                assert(c[0] == 45);
                assert(c.skip(1) =~= dd);
                assert(int_content_ok(c));
                assert(int_content_val(c) == i as int);
                assert(int_content_val(c) as i64 == i);
            } else {
                lemma_dec_digits(i as nat);
                let dd = crate::bytes::spec_dec_digits(i as nat);
                assert(c == dd);
                assert(forall|j: int| 0 <= j < c.len() ==> c[j] != 13 && (#[trigger] c[j]) != 10)
                    by {
                    assert(forall|j: int| 0 <= j < dd.len() ==> is_digit(#[trigger] dd[j]));
                }
                lemma_line_round_trip(c, tail);
                assert(c + seq![13u8, 10u8] + tail =~= s.skip(1));
                assert(c[0] != 45) by {
                    assert(is_digit(dd[0]));
                }
                assert(int_content_ok(c));
                assert(int_content_val(c) == i as int);
                assert(int_content_val(c) as i64 == i);
            }
        },
        DataView::BulkString { length, data } => {
            assert(s[0] == 36);
            let dd = crate::bytes::spec_dec_digits(data.len());
            lemma_dec_digits(data.len());
            assert(forall|j: int| 0 <= j < dd.len() ==> dd[j] != 13 && (#[trigger] dd[j]) != 10)
                by {
                assert(forall|j: int| 0 <= j < dd.len() ==> is_digit(#[trigger] dd[j]));
            }
            lemma_line_round_trip(dd, data + seq![13u8, 10u8] + tail);
            assert(dd + seq![13u8, 10u8] + (data + seq![13u8, 10u8] + tail) =~= s.skip(1));
            assert(spec_parse_line(s.skip(1)) == (LineParse::Line {
                content: dd,
                used: dd.len() + 2int,
            }));
            assert(len_content_ok(dd));
            let n = dec_val(dd);
            assert(n == data.len());
            let rest = s.skip(1 + dd.len() as int + 2);
            assert(rest =~= data + seq![13u8, 10u8] + tail);
            assert(rest.len() >= n);
            assert(rest.take(n) =~= data);
            let t2 = rest.skip(n);
            assert(t2 =~= seq![13u8, 10u8] + tail);
            assert(t2[0] == 13 && t2[1] == 10 && t2.len() >= 2);
            assert(spec_encode(d).len() == 1 + dd.len() + 2 + n + 2);
        },
        DataView::Array(items) => {
            assert(s[0] == 42);
            let dd = crate::bytes::spec_dec_digits(items.len());
            lemma_dec_digits(items.len());
            assert(forall|j: int| 0 <= j < dd.len() ==> dd[j] != 13 && (#[trigger] dd[j]) != 10)
                by {
                assert(forall|j: int| 0 <= j < dd.len() ==> is_digit(#[trigger] dd[j]));
            }
            lemma_line_round_trip(dd, spec_encode_items(items, 0) + tail);
            assert(dd + seq![13u8, 10u8] + (spec_encode_items(items, 0) + tail) =~= s.skip(1));
            assert(spec_parse_line(s.skip(1)) == (LineParse::Line {
                content: dd,
                used: dd.len() + 2int,
            }));
            assert(len_content_ok(dd));
            let n = dec_val(dd);
            assert(n == items.len());
            assert(1 <= 1 + dd.len() + 2 <= s.len());
            lemma_encode_parse_items(items, 0, tail);
            assert(s.skip(1 + dd.len() as int + 2) =~= spec_encode_items(items, 0) + tail);
            assert(items.skip(0) =~= items);
            assert(spec_encode(d).len() == 1 + dd.len() + 2 + spec_encode_items(items, 0).len());
        },
    }
}

/// The encodings of the items from `i` on, with anything appended, parse
/// back to exactly those items.
proof fn lemma_encode_parse_items(items: Seq<DataView>, i: int, tail: Seq<u8>)
    requires
        0 <= i <= items.len(),
        wf_items(items, i),
    ensures
        spec_parse_items(spec_encode_items(items, i) + tail, items.len() - i) == (SpecParsed::Value {
            value: items.skip(i),
            used: spec_encode_items(items, i).len() as int,
        }),
    decreases items, items.len() - i,
{
    let s = spec_encode_items(items, i) + tail;
    if i == items.len() {
        assert(spec_encode_items(items, i) == Seq::<u8>::empty());
        assert(items.skip(i) =~= Seq::<DataView>::empty());
        assert(spec_parse_items(s, 0) == (SpecParsed::Value {
            value: Seq::<DataView>::empty(),
            used: 0int,
        }));
    } else {
        let e0 = spec_encode(items[i]);
        let rest = spec_encode_items(items, i + 1);
        assert(spec_encode_items(items, i) == e0 + rest);
        lemma_encode_parse(items[i], rest + tail);
        assert(e0 + (rest + tail) =~= s);
        assert(spec_parse_data(s) == (SpecParsed::Value { value: items[i], used: e0.len() as int }));
        lemma_encode_len(items[i]);
        assert(1 <= e0.len() <= s.len());
        lemma_encode_parse_items(items, i + 1, tail);
        assert(s.skip(e0.len() as int) =~= rest + tail);
        assert(seq![items[i]] + items.skip(i + 1) =~= items.skip(i));
    }
}

/// Idempotent incomplete parse: every strict prefix of a buffer that parses
/// to a whole value is reported incomplete, so a caller that reads more
/// bytes and retries loses nothing.
pub proof fn lemma_prefix_incomplete(s: Seq<u8>, j: int)
    requires
        spec_parse_data(s) matches SpecParsed::Value { value: _, used } && 0 <= j < used,
    ensures
        spec_parse_data(s.take(j)) is Incomplete,
{
    let t = s.take(j);
    let ext = s.skip(j);
    lemma_parse_bounds(s);
    assert(t + ext =~= s);
    lemma_parse_bounds(t);
    lemma_parse_extend(t, ext);
    match spec_parse_data(t) {
        SpecParsed::Value { value: v2, used: u2 } => {
            assert(spec_parse_data(s) == (SpecParsed::Value { value: v2, used: u2 }));
            assert(u2 <= t.len() == j);
            assert(false);
        },
        SpecParsed::Malformed => {
            assert(spec_parse_data(s) is Malformed);
            assert(false);
        },
        SpecParsed::Incomplete => {},
    }
}

} // verus!
