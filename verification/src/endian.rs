//! Big-endian byte strings: the byte order of every camera-profile record.
use vstd::prelude::*;

verus! {

/// The two bytes of `x`, most significant first.
pub open spec fn be16(x: u16) -> Seq<u8> {
    seq![(x / 256) as u8, (x % 256) as u8]
}

/// The four bytes of `x`, most significant first.
pub open spec fn be32(x: u32) -> Seq<u8> {
    seq![
        (x / 0x100_0000) as u8,
        (x / 0x1_0000 % 256) as u8,
        (x / 256 % 256) as u8,
        (x % 256) as u8,
    ]
}

/// The number that two bytes stand for, most significant first.
#[verifier::opaque]
pub open spec fn from_be16(b: Seq<u8>) -> u16 {
    (b[0] * 256 + b[1]) as u16
}

/// The number that four bytes stand for, most significant first.
#[verifier::opaque]
pub open spec fn from_be32(b: Seq<u8>) -> u32 {
    (b[0] * 0x100_0000 + b[1] * 0x1_0000 + b[2] * 256 + b[3]) as u32
}

/// The two's complement pattern of a signed 32-bit number.
pub open spec fn pattern32(n: i32) -> u32 {
    if n >= 0 {
        n as u32
    } else {
        (n + 0x1_0000_0000) as u32
    }
}

/// The low 32 bits of a size: what a 32-bit offset or count field can hold of it.
pub open spec fn low32(n: nat) -> u32 {
    (n % 0x1_0000_0000) as u32
}

/// The bytes of each of `values` in turn, most significant first.
pub open spec fn be32_all(values: Seq<u32>) -> Seq<u8> {
    Seq::new(values.len() * 4, |i: int| be32(values[i / 4])[i % 4])
}

/// `s` with a zero byte appended where its length is odd.
pub open spec fn padded(s: Seq<u8>) -> Seq<u8> {
    if s.len() % 2 == 0 {
        s
    } else {
        s.push(0)
    }
}

/// Two bytes read back as the number that was written.
pub broadcast proof fn lemma_be16_round_trip(x: u16)
    ensures
        #[trigger] from_be16(be16(x)) == x,
{
    reveal(from_be16);
}

/// Four bytes read back as the number that was written.
pub broadcast proof fn lemma_be32_round_trip(x: u32)
    ensures
        #[trigger] from_be32(be32(x)) == x,
{
    reveal(from_be32);
    lemma_bytes_make_up(x);
    assert(be32(x)[0] == x / 0x100_0000);
    assert(be32(x)[1] == x / 0x1_0000 % 256);
    assert(be32(x)[2] == x / 256 % 256);
    assert(be32(x)[3] == x % 256);
}

/// The digits of a number in base 256.
proof fn lemma_bytes_make_up(x: u32)
    ensures
        x / 0x100_0000 < 256,
        (x / 0x100_0000) * 0x100_0000 + (x / 0x1_0000 % 256) * 0x1_0000 + (x / 256 % 256) * 0x100 + x
            % 256 == x,
{
    assert(x / 256 / 256 == x / 0x1_0000);
    assert(x / 0x1_0000 / 256 == x / 0x100_0000);
}

/// The bytes of a number, most significant first, make the number up in base 256.
pub proof fn law_most_significant_byte_first(x: u16, y: u32)
    ensures
        be16(x).len() == 2,
        be16(x)[0] * 256 + be16(x)[1] == x,
        be32(y).len() == 4,
        be32(y)[0] * 0x100_0000 + be32(y)[1] * 0x1_0000 + be32(y)[2] * 0x100 + be32(y)[3] == y,
        from_be16(be16(x)) == x,
        from_be32(be32(y)) == y,
{
    lemma_be16_round_trip(x);
    lemma_be32_round_trip(y);
    lemma_bytes_make_up(y);
}

/// Padding makes a length even by at most one byte, which is zero, and keeps what is there.
pub proof fn law_padding_is_one_zero_at_most(s: Seq<u8>)
    ensures
        padded(s).len() % 2 == 0,
        s.len() <= padded(s).len() <= s.len() + 1,
        padded(s).take(s.len() as int) == s,
        padded(s).len() > s.len() ==> padded(s).last() == 0,
        padded(padded(s)) == padded(s),
{
    assert(padded(s).take(s.len() as int) =~= s);
}

/// Writing one more number appends its four bytes.
pub proof fn lemma_be32_all_push(values: Seq<u32>, v: u32)
    ensures
        be32_all(values.push(v)) == be32_all(values) + be32(v),
{
    assert(be32_all(values.push(v)) =~= be32_all(values) + be32(v));
}

pub(crate) fn low32_of(n: usize) -> (r: u32)
    ensures
        r == low32(n as nat),
{
    let wide: u64 = n as u64;
    assert(wide as u32 as u64 == wide % 0x1_0000_0000u64) by (bit_vector);
    wide as u32
}

pub(crate) fn be16_of(x: u16) -> (r: [u8; 2])
    ensures
        r@ == be16(x),
{
    [(x / 256) as u8, (x % 256) as u8]
}

pub(crate) fn be32_of(x: u32) -> (r: [u8; 4])
    ensures
        r@ == be32(x),
{
    [
        (x / 0x100_0000) as u8,
        (x / 0x1_0000 % 256) as u8,
        (x / 256 % 256) as u8,
        (x % 256) as u8,
    ]
}

pub(crate) fn pattern32_of(n: i32) -> (r: u32)
    ensures
        r == pattern32(n),
{
    assert(n >= 0 ==> (n as u32) as i64 == n as i64) by (bit_vector);
    assert(n < 0 ==> (n as u32) as i64 == (n as i64) + 0x1_0000_0000i64) by (bit_vector);
    n as u32
}

pub(crate) fn push_bytes(out: &mut Vec<u8>, bytes: &[u8])
    ensures
        final(out)@ == old(out)@ + bytes@,
{
    out.extend_from_slice(bytes);
    assert(out@ =~= old(out)@ + bytes@);
}

pub(crate) fn push_be16(out: &mut Vec<u8>, x: u16)
    ensures
        final(out)@ == old(out)@ + be16(x),
{
    let bytes = be16_of(x);
    push_bytes(out, bytes.as_slice());
}

pub(crate) fn push_be32(out: &mut Vec<u8>, x: u32)
    ensures
        final(out)@ == old(out)@ + be32(x),
{
    let bytes = be32_of(x);
    push_bytes(out, bytes.as_slice());
}

pub(crate) fn push_be32_all(out: &mut Vec<u8>, values: &[u32])
    ensures
        final(out)@ == old(out)@ + be32_all(values@),
{
    let mut i: usize = 0;
    assert(out@ =~= old(out)@ + be32_all(values@.take(0)));
    while i < values.len()
        invariant
            i <= values@.len(),
            out@ == old(out)@ + be32_all(values@.take(i as int)),
        decreases values@.len() - i,
    {
        push_be32(out, values[i]);
        proof {
            lemma_be32_all_push(values@.take(i as int), values@[i as int]);
            assert(values@.take(i as int).push(values@[i as int]) =~= values@.take(i + 1));
            assert(out@ =~= old(out)@ + be32_all(values@.take(i + 1)));
        }
        i = i + 1;
    }
    assert(values@.take(values@.len() as int) =~= values@);
}

pub(crate) fn pad2(out: &mut Vec<u8>)
    ensures
        final(out)@ == padded(old(out)@),
{
    if out.len() % 2 != 0 {
        out.push(0);
    }
}

} // verus!
