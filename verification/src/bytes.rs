//! Big-endian encoding and decoding of the fixed-width header fields used by
//! the on-disk record format.

use vstd::prelude::*;

verus! {

/// Big-endian bytes of a 32-bit word, most significant byte first.
pub open spec fn spec_u32_be(x: u32) -> Seq<u8> {
    seq![
        ((x >> 24) & 0xff) as u8,
        ((x >> 16) & 0xff) as u8,
        ((x >> 8) & 0xff) as u8,
        (x & 0xff) as u8,
    ]
}

/// Big-endian bytes of a 64-bit word, most significant byte first.
pub open spec fn spec_u64_be(x: u64) -> Seq<u8> {
    seq![
        ((x >> 56) & 0xff) as u8,
        ((x >> 48) & 0xff) as u8,
        ((x >> 40) & 0xff) as u8,
        ((x >> 32) & 0xff) as u8,
        ((x >> 24) & 0xff) as u8,
        ((x >> 16) & 0xff) as u8,
        ((x >> 8) & 0xff) as u8,
        (x & 0xff) as u8,
    ]
}

/// The unsigned word whose two's-complement bit pattern equals that of `x`.
pub open spec fn spec_i64_as_u64(x: i64) -> u64 {
    if x >= 0 {
        x as u64
    } else {
        (x + 0x1_0000_0000_0000_0000) as u64
    }
}

/// Big-endian bytes of a signed 64-bit word (two's complement).
pub open spec fn spec_i64_be(x: i64) -> Seq<u8> {
    spec_u64_be(spec_i64_as_u64(x))
}

/// The 32-bit word read big-endian from a 4-byte sequence.
pub open spec fn spec_be_u32(s: Seq<u8>) -> u32
    recommends
        s.len() == 4,
{
    ((s[0] as u32) << 24 | (s[1] as u32) << 16 | (s[2] as u32) << 8 | (s[3] as u32)) as u32
}

/// The 64-bit word read big-endian from an 8-byte sequence.
pub open spec fn spec_be_u64(s: Seq<u8>) -> u64
    recommends
        s.len() == 8,
{
    ((s[0] as u64) << 56 | (s[1] as u64) << 48 | (s[2] as u64) << 40 | (s[3] as u64) << 32
        | (s[4] as u64) << 24 | (s[5] as u64) << 16 | (s[6] as u64) << 8 | (s[7] as u64)) as u64
}

/// The signed word whose two's-complement bit pattern equals that of `u`.
pub open spec fn spec_u64_as_i64(u: u64) -> i64 {
    if u < 0x8000_0000_0000_0000 {
        u as i64
    } else {
        (u - 0x1_0000_0000_0000_0000) as i64
    }
}

/// The signed 64-bit word read big-endian from an 8-byte sequence.
pub open spec fn spec_be_i64(s: Seq<u8>) -> i64
    recommends
        s.len() == 8,
{
    spec_u64_as_i64(spec_be_u64(s))
}

/// Decoding inverts encoding for 32-bit words.
pub proof fn lemma_u32_be_round_trip(x: u32)
    ensures
        spec_be_u32(spec_u32_be(x)) == x,
{
    assert(((((x >> 24) & 0xff) as u8) as u32) << 24 | ((((x >> 16) & 0xff) as u8) as u32) << 16
        | ((((x >> 8) & 0xff) as u8) as u32) << 8 | (((x & 0xff) as u8) as u32) == x)
        by (bit_vector);
}

/// Decoding inverts encoding for 64-bit words.
pub proof fn lemma_u64_be_round_trip(x: u64)
    ensures
        spec_be_u64(spec_u64_be(x)) == x,
{
    assert(((((x >> 56) & 0xff) as u8) as u64) << 56 | ((((x >> 48) & 0xff) as u8) as u64) << 48
        | ((((x >> 40) & 0xff) as u8) as u64) << 40 | ((((x >> 32) & 0xff) as u8) as u64) << 32
        | ((((x >> 24) & 0xff) as u8) as u64) << 24 | ((((x >> 16) & 0xff) as u8) as u64) << 16
        | ((((x >> 8) & 0xff) as u8) as u64) << 8 | (((x & 0xff) as u8) as u64) == x)
        by (bit_vector);
}

/// Decoding inverts encoding for signed 64-bit words.
pub proof fn lemma_i64_be_round_trip(x: i64)
    ensures
        spec_be_i64(spec_i64_be(x)) == x,
{
    lemma_u64_be_round_trip(spec_i64_as_u64(x));
}

/// Append the big-endian bytes of `x` to `buf`.
pub fn push_u32_be(buf: &mut Vec<u8>, x: u32)
    ensures
        final(buf)@ == old(buf)@ + spec_u32_be(x),
{
    buf.push(((x >> 24) & 0xff) as u8);
    buf.push(((x >> 16) & 0xff) as u8);
    buf.push(((x >> 8) & 0xff) as u8);
    buf.push((x & 0xff) as u8);
    proof {
        assert(buf@ =~= old(buf)@ + spec_u32_be(x));
    }
}

/// Append the big-endian bytes of `x` to `buf`.
pub fn push_u64_be(buf: &mut Vec<u8>, x: u64)
    ensures
        final(buf)@ == old(buf)@ + spec_u64_be(x),
{
    buf.push(((x >> 56) & 0xff) as u8);
    buf.push(((x >> 48) & 0xff) as u8);
    buf.push(((x >> 40) & 0xff) as u8);
    buf.push(((x >> 32) & 0xff) as u8);
    buf.push(((x >> 24) & 0xff) as u8);
    buf.push(((x >> 16) & 0xff) as u8);
    buf.push(((x >> 8) & 0xff) as u8);
    buf.push((x & 0xff) as u8);
    proof {
        assert(buf@ =~= old(buf)@ + spec_u64_be(x));
    }
}

/// Append the big-endian two's-complement bytes of `x` to `buf`.
pub fn push_i64_be(buf: &mut Vec<u8>, x: i64)
    ensures
        final(buf)@ == old(buf)@ + spec_i64_be(x),
{
    let u: u64 = if x >= 0 {
        x as u64
    } else {
        let m: u64 = (-(x + 1)) as u64;
        u64::MAX - m
    };
    proof {
        assert(u == spec_i64_as_u64(x));
    }
    push_u64_be(buf, u);
}

/// Read a 32-bit word big-endian from `s` at offset `off`.
pub fn read_u32_be(s: &[u8], off: usize) -> (r: u32)
    requires
        off + 4 <= s@.len(),
    ensures
        r == spec_be_u32(s@.subrange(off as int, off as int + 4)),
{
    let b0 = s[off];
    let b1 = s[off + 1];
    let b2 = s[off + 2];
    let b3 = s[off + 3];
    let r = (b0 as u32) << 24 | (b1 as u32) << 16 | (b2 as u32) << 8 | (b3 as u32);
    proof {
        let t = s@.subrange(off as int, off as int + 4);
        assert(t[0] == b0 && t[1] == b1 && t[2] == b2 && t[3] == b3);
    }
    r
}

/// Read a 64-bit word big-endian from `s` at offset `off`.
pub fn read_u64_be(s: &[u8], off: usize) -> (r: u64)
    requires
        off + 8 <= s@.len(),
    ensures
        r == spec_be_u64(s@.subrange(off as int, off as int + 8)),
{
    let b0 = s[off];
    let b1 = s[off + 1];
    let b2 = s[off + 2];
    let b3 = s[off + 3];
    let b4 = s[off + 4];
    let b5 = s[off + 5];
    let b6 = s[off + 6];
    let b7 = s[off + 7];
    let r = (b0 as u64) << 56 | (b1 as u64) << 48 | (b2 as u64) << 40 | (b3 as u64) << 32
        | (b4 as u64) << 24 | (b5 as u64) << 16 | (b6 as u64) << 8 | (b7 as u64);
    proof {
        let t = s@.subrange(off as int, off as int + 8);
        assert(t[0] == b0 && t[1] == b1 && t[2] == b2 && t[3] == b3);
        assert(t[4] == b4 && t[5] == b5 && t[6] == b6 && t[7] == b7);
    }
    r
}

/// The ASCII decimal digits of `n`, most significant first, no leading zeros.
pub open spec fn spec_dec_digits(n: nat) -> Seq<u8>
    decreases n,
{
    if n < 10 {
        seq![(48 + n) as u8]
    } else {
        spec_dec_digits(n / 10).push((48 + n % 10) as u8)
    }
}

/// The ASCII decimal rendering of a signed number: a minus sign for negative
/// values, then the digits of the magnitude.
pub open spec fn spec_dec_i64(i: int) -> Seq<u8> {
    if i < 0 {
        seq![45u8] + spec_dec_digits((-i) as nat)
    } else {
        spec_dec_digits(i as nat)
    }
}

/// Append the ASCII decimal digits of `x` to `buf`.
pub fn push_dec_u64(buf: &mut Vec<u8>, x: u64)
    ensures
        final(buf)@ == old(buf)@ + spec_dec_digits(x as nat),
    decreases x,
{
    if x < 10 {
        buf.push(48 + (x as u8));
    } else {
        push_dec_u64(buf, x / 10);
        buf.push(48 + ((x % 10) as u8));
    }
    proof {
        assert(buf@ =~= old(buf)@ + spec_dec_digits(x as nat));
    }
}

/// Append the ASCII decimal rendering of `x` to `buf`.
pub fn push_dec_i64(buf: &mut Vec<u8>, x: i64)
    ensures
        final(buf)@ == old(buf)@ + spec_dec_i64(x as int),
{
    if x < 0 {
        let m: u64 = ((-(x + 1)) as u64) + 1;
        proof {
            assert(m == -(x as int));
        }
        buf.push(45);
        push_dec_u64(buf, m);
        proof {
            assert(buf@ =~= old(buf)@ + spec_dec_i64(x as int));
        }
    } else {
        push_dec_u64(buf, x as u64);
    }
}

/// Whether two byte strings hold the same bytes.
pub fn bytes_eq(a: &[u8], b: &[u8]) -> (r: bool)
    ensures
        r <==> a@ == b@,
{
    if a.len() != b.len() {
        proof {
            assert(a@ != b@);
        }
        return false;
    }
    let mut i: usize = 0;
    while i < a.len()
        invariant
            i <= a@.len(),
            a@.len() == b@.len(),
            forall|j: int| 0 <= j < i ==> a@[j] == b@[j],
        decreases a@.len() - i,
    {
        if a[i] != b[i] {
            return false;
        }
        i += 1;
    }
    proof {
        assert(a@ =~= b@);
    }
    true
}

/// Read a signed 64-bit word big-endian from `s` at offset `off`.
pub fn read_i64_be(s: &[u8], off: usize) -> (r: i64)
    requires
        off + 8 <= s@.len(),
    ensures
        r == spec_be_i64(s@.subrange(off as int, off as int + 8)),
{
    let u = read_u64_be(s, off);
    if u < 0x8000_0000_0000_0000 {
        u as i64
    } else {
        let m: u64 = u64::MAX - u;
        -(m as i64) - 1
    }
}

} // verus!
