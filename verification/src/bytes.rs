//! Numbers and names in byte buffers.

use byteorder::{BigEndian, ByteOrder, LittleEndian};
use vstd::prelude::*;

verus! {

/// The little-endian 32-bit number at a place of a buffer.
pub open spec fn le32(s: Seq<u8>, at: int) -> u32 {
    (s[at] + 0x100 * s[at + 1] + 0x1_0000 * s[at + 2] + 0x100_0000 * s[at + 3]) as u32
}

/// The little-endian 64-bit number at a place of a buffer.
pub open spec fn le64(s: Seq<u8>, at: int) -> u64 {
    (le32(s, at) + 0x1_0000_0000 * le32(s, at + 4)) as u64
}

/// The big-endian 32-bit number at a place of a buffer.
pub open spec fn be32(s: Seq<u8>, at: int) -> u32 {
    (s[at + 3] + 0x100 * s[at + 2] + 0x1_0000 * s[at + 1] + 0x100_0000 * s[at]) as u32
}

/// The big-endian 64-bit number at a place of a buffer.
pub open spec fn be64(s: Seq<u8>, at: int) -> u64 {
    (be32(s, at + 4) + 0x1_0000_0000 * be32(s, at)) as u64
}

/// `byteorder`'s `LittleEndian::read_u32` on the four bytes at `at`: the first byte is the least
/// significant.
#[verifier::external_body]
pub(crate) fn read_le32(buf: &[u8], at: usize) -> (r: u32)
    requires
        at + 4 <= buf.len(),
    ensures
        r == le32(buf@, at as int),
{
    LittleEndian::read_u32(&buf[at..at + 4])
}

/// `byteorder`'s `LittleEndian::read_u64` on the eight bytes at `at`: the first byte is the least
/// significant.
#[verifier::external_body]
pub(crate) fn read_le64(buf: &[u8], at: usize) -> (r: u64)
    requires
        at + 8 <= buf.len(),
    ensures
        r == le64(buf@, at as int),
{
    LittleEndian::read_u64(&buf[at..at + 8])
}

/// `byteorder`'s `BigEndian::read_u32` on the four bytes at `at`: the first byte is the most
/// significant.
#[verifier::external_body]
pub(crate) fn read_be32(buf: &[u8], at: usize) -> (r: u32)
    requires
        at + 4 <= buf.len(),
    ensures
        r == be32(buf@, at as int),
{
    BigEndian::read_u32(&buf[at..at + 4])
}

/// `byteorder`'s `BigEndian::read_u64` on the eight bytes at `at`: the first byte is the most
/// significant.
#[verifier::external_body]
pub(crate) fn read_be64(buf: &[u8], at: usize) -> (r: u64)
    requires
        at + 8 <= buf.len(),
    ensures
        r == be64(buf@, at as int),
{
    BigEndian::read_u64(&buf[at..at + 8])
}

/// The text that `String::from_utf8_lossy` makes of some bytes.
pub uninterp spec fn utf8_lossy(bytes: Seq<u8>) -> Seq<char>;

/// `String::from_utf8_lossy`: well-formed UTF-8 is decoded as it stands; what is put in place of
/// ill-formed bytes is left unsaid.
#[verifier::external_body]
pub(crate) fn lossy_text(bytes: &[u8]) -> (r: String)
    ensures
        r@ == utf8_lossy(bytes@),
        vstd::utf8::valid_utf8(bytes@) ==> r@ == vstd::utf8::decode_utf8(bytes@),
{
    String::from_utf8_lossy(bytes).to_string()
}

/// A part of a buffer.
pub fn part(buf: &[u8], from: usize, to: usize) -> (r: &[u8])
    requires
        from <= to <= buf.len(),
    ensures
        r@ == buf@.subrange(from as int, to as int),
{
    vstd::slice::slice_subrange(buf, from, to)
}

/// Byte `n` of a number, the least significant first.
pub open spec fn byte_at(x: int, n: int) -> u8
    decreases n,
{
    if n <= 0 {
        (x % 256) as u8
    } else {
        byte_at(x / 256, n - 1)
    }
}

/// Numbers as little-endian bytes, `width` bytes each.
pub open spec fn encoded(s: Seq<u64>, width: int) -> Seq<u8> {
    Seq::new((s.len() * width) as nat, |k: int| byte_at(s[k / width] as int, k % width))
}

/// Appends a number as little-endian bytes.
pub fn push_le(out: &mut Vec<u8>, x: u64, width: usize)
    requires
        width <= 8,
    ensures
        final(out)@ == old(out)@ + Seq::new(width as nat, |n: int| byte_at(x as int, n)),
{
    let ghost before = out@;
    let mut rest: u64 = x;
    let mut n: usize = 0;
    while n < width
        invariant
            n <= width,
            before == old(out)@,
            out.len() == before.len() + n,
            forall|k: int| 0 <= k < before.len() ==> out@[k] == before[k],
            forall|k: int| 0 <= k < n ==> #[trigger] out@[before.len() + k] == byte_at(x as int, k),
            forall|k: int| n <= k ==> #[trigger] byte_at(x as int, k) == byte_at(rest as int, k - n),
        decreases width - n,
    {
        assert(byte_at(x as int, n as int) == byte_at(rest as int, 0));
        out.push((rest % 256) as u8);
        proof {
            assert forall|k: int| n + 1 <= k implies #[trigger] byte_at(x as int, k) == byte_at(
                (rest / 256) as int,
                k - (n + 1),
            ) by {
                assert(byte_at(x as int, k) == byte_at(rest as int, k - n));
            }
        }
        rest = rest / 256;
        n = n + 1;
    }
    proof {
        let want = before + Seq::new(width as nat, |n: int| byte_at(x as int, n));
        assert forall|i: int| 0 <= i < want.len() implies out@[i] == want[i] by {
            if i >= before.len() {
                assert(out@[before.len() + (i - before.len())] == byte_at(x as int, i - before.len()));
            }
        }
        assert(out@ =~= want);
    }
}

/// One number more is so many bytes more.
pub proof fn lemma_encoded_push(s: Seq<u64>, x: u64, width: int)
    requires
        1 <= width <= 8,
    ensures
        encoded(s.push(x), width) == encoded(s, width) + Seq::new(width as nat, |n: int| byte_at(x as int, n)),
{
    let (a, b) = (encoded(s.push(x), width), encoded(s, width) + Seq::new(width as nat, |n: int| byte_at(x as int, n)));
    let len = s.len() as int;
    assert((len + 1) * width == len * width + width) by (nonlinear_arith);
    assert forall|k: int| 0 <= k < a.len() implies a[k] == b[k] by {
        vstd::arithmetic::div_mod::lemma_fundamental_div_mod(k, width);
        let (q, r) = (k / width, k % width);
        if k < len * width {
            assert(q < len) by (nonlinear_arith)
                requires
                    width * q <= k,
                    k < len * width,
                    width > 0,
            ;
            vstd::arithmetic::div_mod::lemma_div_pos_is_pos(k, width);
        } else {
            assert(len * width == width * len) by (nonlinear_arith);
            vstd::arithmetic::div_mod::lemma_fundamental_div_mod_converse(k, width, len, k - len * width);
        }
    }
    assert(a =~= b);
}

/// Bytes of joined numbers are joined bytes.
pub proof fn lemma_encoded_joins(s: Seq<u64>, t: Seq<u64>, width: int)
    requires
        1 <= width <= 8,
    ensures
        encoded(s + t, width) == encoded(s, width) + encoded(t, width),
    decreases t.len(),
{
    if t.len() == 0 {
        assert(s + t =~= s);
        assert(encoded(t, width).len() == 0) by (nonlinear_arith)
            requires
                encoded(t, width).len() == (t.len() * width) as nat,
                t.len() == 0,
        ;
        assert(encoded(s, width) + encoded(t, width) =~= encoded(s, width));
    } else {
        let (u, x) = (t.drop_last(), t.last());
        assert(u.push(x) =~= t);
        assert((s + u).push(x) =~= s + t);
        lemma_encoded_joins(s, u, width);
        lemma_encoded_push(s + u, x, width);
        lemma_encoded_push(u, x, width);
        let tail = Seq::new(width as nat, |n: int| byte_at(x as int, n));
        assert(encoded(s, width) + encoded(u, width) + tail =~= encoded(s, width) + (encoded(u, width) + tail));
    }
}

/// Where the bytes of a number stand among those of all numbers.
proof fn lemma_byte_place(s: Seq<u64>, width: int, k: int, n: int)
    requires
        1 <= width <= 8,
        0 <= k < s.len(),
        0 <= n < width,
    ensures
        0 <= width * k + n < encoded(s, width).len(),
        encoded(s, width)[width * k + n] == byte_at(s[k] as int, n),
{
    let len = s.len() as int;
    assert(width * k + width <= len * width) by (nonlinear_arith)
        requires
            k + 1 <= len,
            width > 0,
    ;
    assert(width * k >= 0) by (nonlinear_arith)
        requires
            k >= 0,
            width > 0,
    ;
    vstd::arithmetic::div_mod::lemma_fundamental_div_mod_converse(width * k + n, width, k, n);
}

/// Doubles are read back from the bytes of a chunk.
pub proof fn law_doubles_read_back(s: Seq<u64>, k: int)
    requires
        0 <= k < s.len(),
    ensures
        le64(encoded(s, 8), 8 * k) == s[k],
{
    let x = s[k] as int;
    lemma_byte_place(s, 8, k, 0);
    lemma_byte_place(s, 8, k, 1);
    lemma_byte_place(s, 8, k, 2);
    lemma_byte_place(s, 8, k, 3);
    lemma_byte_place(s, 8, k, 4);
    lemma_byte_place(s, 8, k, 5);
    lemma_byte_place(s, 8, k, 6);
    lemma_byte_place(s, 8, k, 7);
    lemma_four_bytes(x);
    lemma_four_bytes(x / 0x1_0000_0000);
    lemma_high_bytes(x, 0);
    lemma_high_bytes(x, 1);
    lemma_high_bytes(x, 2);
    lemma_high_bytes(x, 3);
    let e = encoded(s, 8);
    assert(le32(e, 8 * k) == x % 0x1_0000_0000);
    assert(le32(e, 8 * k + 4) == x / 0x1_0000_0000 % 0x1_0000_0000);
}

/// The high bytes of a number are the low bytes of its high part.
proof fn lemma_high_bytes(x: int, n: int)
    requires
        x >= 0,
        n >= 0,
    ensures
        byte_at(x, n + 4) == byte_at(x / 0x1_0000_0000, n),
{
    assert(byte_at(x, n + 4) == byte_at(x / 256, n + 3));
    assert(byte_at(x / 256, n + 3) == byte_at(x / 256 / 256, n + 2));
    assert(byte_at(x / 256 / 256, n + 2) == byte_at(x / 256 / 256 / 256, n + 1));
    assert(byte_at(x / 256 / 256 / 256, n + 1) == byte_at(x / 256 / 256 / 256 / 256, n));
    vstd::arithmetic::div_mod::lemma_div_denominator(x, 256, 256);
    vstd::arithmetic::div_mod::lemma_div_denominator(x, 0x1_0000, 256);
    vstd::arithmetic::div_mod::lemma_div_denominator(x, 0x100_0000, 256);
}

/// The four low bytes of a number.
pub proof fn lemma_four_bytes(x: int)
    requires
        x >= 0,
    ensures
        byte_at(x, 0) + 0x100 * byte_at(x, 1) + 0x1_0000 * byte_at(x, 2) + 0x100_0000 * byte_at(x, 3) == x % 0x1_0000_0000,
{
    let (a, b, c, d) = (x / 256, x / 256 / 256, x / 256 / 256 / 256, x / 256 / 256 / 256 / 256);
    let (r0, r1, r2, r3) = (x % 256, a % 256, b % 256, c % 256);
    assert(byte_at(x, 0) == r0);
    assert(byte_at(x, 1) == byte_at(a, 0) && byte_at(a, 0) == r1);
    assert(byte_at(x, 2) == byte_at(a, 1) && byte_at(a, 1) == byte_at(b, 0) && byte_at(b, 0) == r2);
    assert(byte_at(x, 3) == byte_at(a, 2) && byte_at(a, 2) == byte_at(b, 1) && byte_at(b, 1) == byte_at(c, 0));
    assert(byte_at(c, 0) == r3);
    let low = r0 + 0x100 * r1 + 0x1_0000 * r2 + 0x100_0000 * r3;
    assert(x == 256 * a + r0 && a == 256 * b + r1 && b == 256 * c + r2 && c == 256 * d + r3);
    assert(x == 0x1_0000_0000 * d + low);
    vstd::arithmetic::div_mod::lemma_fundamental_div_mod_converse(x, 0x1_0000_0000, d, low);
}

/// Singles are read back from the bytes of a chunk.
pub proof fn law_singles_read_back(s: Seq<u64>, k: int)
    requires
        0 <= k < s.len(),
        s[k] < 0x1_0000_0000,
    ensures
        le32(encoded(s, 4), 4 * k) == s[k],
{
    lemma_byte_place(s, 4, k, 0);
    lemma_byte_place(s, 4, k, 1);
    lemma_byte_place(s, 4, k, 2);
    lemma_byte_place(s, 4, k, 3);
    lemma_four_bytes(s[k] as int);
}

} // verus!
