//! Fixed-width integers on the wire: little-endian in packets, big-endian
//! where byte order has to follow numeric order.

use vstd::prelude::*;

verus! {

/// Why a byte string is not the encoding of a value.
#[derive(Clone, Copy, Debug, PartialEq, Eq, Structural)]
pub enum DecodeError {
    /// The input ends before the value does.
    Truncated,
    /// A tag byte names no variant.
    UnknownDiscriminant,
    /// A length prefix announces more elements than the input holds.
    LengthExceedsBuffer,
    /// A payload announces more bytes than a fragment can carry.
    FragmentTooLong,
    /// The input goes on after the value has ended.
    TrailingBytes,
}

/// The two bytes of `x`, low byte first.
pub open spec fn u16_le(x: u16) -> Seq<u8> {
    seq![(x % 0x100) as u8, (x / 0x100) as u8]
}

/// The number that two bytes write, low byte first.
pub open spec fn u16_of_le(b: Seq<u8>) -> u16
    recommends
        b.len() == 2,
{
    (b[0] as int + 0x100 * b[1] as int) as u16
}

/// The four bytes of `x`, low byte first.
pub open spec fn u32_le(x: u32) -> Seq<u8> {
    let x1 = x / 0x100;
    let x2 = x1 / 0x100;
    let x3 = x2 / 0x100;
    seq![(x % 0x100) as u8, (x1 % 0x100) as u8, (x2 % 0x100) as u8, (x3 % 0x100) as u8]
}

/// The number that four bytes write, low byte first.
pub open spec fn u32_of_le(b: Seq<u8>) -> u32
    recommends
        b.len() == 4,
{
    (b[0] as int + 0x100 * (b[1] as int + 0x100 * (b[2] as int + 0x100 * b[3] as int))) as u32
}

/// The eight bytes of `x`, low byte first.
pub open spec fn u64_le(x: u64) -> Seq<u8> {
    let x1 = x / 0x100;
    let x2 = x1 / 0x100;
    let x3 = x2 / 0x100;
    let x4 = x3 / 0x100;
    let x5 = x4 / 0x100;
    let x6 = x5 / 0x100;
    let x7 = x6 / 0x100;
    seq![
        (x % 0x100) as u8,
        (x1 % 0x100) as u8,
        (x2 % 0x100) as u8,
        (x3 % 0x100) as u8,
        (x4 % 0x100) as u8,
        (x5 % 0x100) as u8,
        (x6 % 0x100) as u8,
        (x7 % 0x100) as u8,
    ]
}

/// The eight bytes of `x`, high byte first.
pub open spec fn u64_be(x: u64) -> Seq<u8> {
    u64_le(x).reverse()
}

/// The number that eight bytes write, low byte first.
pub open spec fn u64_of_le(b: Seq<u8>) -> u64
    recommends
        b.len() == 8,
{
    (b[0] as int + 0x100 * (b[1] as int + 0x100 * (b[2] as int + 0x100 * (b[3] as int + 0x100 * (
    b[4] as int + 0x100 * (b[5] as int + 0x100 * (b[6] as int + 0x100 * b[7] as int))))))) as u64
}

/// Two bytes read back give the number that wrote them, and the other way
/// round.
pub proof fn lemma_u16_le_inverse(x: u16, b: Seq<u8>)
    ensures
        u16_le(x).len() == 2,
        u16_of_le(u16_le(x)) == x,
        b.len() == 2 ==> u16_le(u16_of_le(b)) == b,
{
    if b.len() == 2 {
        assert(u16_le(u16_of_le(b)) =~= b);
    }
}

/// Four bytes read back give the number that wrote them, and the other way
/// round.
pub proof fn lemma_u32_le_inverse(x: u32, b: Seq<u8>)
    ensures
        u32_le(x).len() == 4,
        u32_of_le(u32_le(x)) == x,
        b.len() == 4 ==> u32_le(u32_of_le(b)) == b,
{
    if b.len() == 4 {
        assert(u32_le(u32_of_le(b)) =~= b);
    }
}

/// Eight bytes read back give the number that wrote them, and the other way
/// round.
pub proof fn lemma_u64_le_inverse(x: u64, b: Seq<u8>)
    ensures
        u64_le(x).len() == 8,
        u64_of_le(u64_le(x)) == x,
        b.len() == 8 ==> u64_le(u64_of_le(b)) == b,
{
    lemma_u64_read_back(x);
    if b.len() == 8 {
        lemma_u64_write_back(b);
    }
}

proof fn lemma_u64_read_back(x: u64)
    ensures
        u64_of_le(u64_le(x)) == x,
{
    let x1 = x / 0x100;
    let x2 = x1 / 0x100;
    let x3 = x2 / 0x100;
    let x4 = x3 / 0x100;
    let x5 = x4 / 0x100;
    let x6 = x5 / 0x100;
    let x7 = x6 / 0x100;
    assert(x1 < 0x100_0000_0000_0000);
    assert(x2 < 0x1_0000_0000_0000);
    assert(x3 < 0x100_0000_0000);
    assert(x4 < 0x1_0000_0000);
    assert(x5 < 0x100_0000);
    assert(x6 < 0x1_0000);
    assert(x7 < 0x100);
    let b = u64_le(x);
    assert(b[7] == x7);
    assert(b[6] as int + 0x100 * b[7] as int == x6);
    assert(b[5] as int + 0x100 * x6 == x5);
    assert(b[4] as int + 0x100 * x5 == x4);
    assert(b[3] as int + 0x100 * x4 == x3);
    assert(b[2] as int + 0x100 * x3 == x2);
    assert(b[1] as int + 0x100 * x2 == x1);
    assert(b[0] as int + 0x100 * x1 == x);
}

proof fn lemma_u64_write_back(b: Seq<u8>)
    requires
        b.len() == 8,
    ensures
        u64_le(u64_of_le(b)) == b,
{
    let r7 = b[7] as int;
    let r6 = b[6] as int + 0x100 * r7;
    let r5 = b[5] as int + 0x100 * r6;
    let r4 = b[4] as int + 0x100 * r5;
    let r3 = b[3] as int + 0x100 * r4;
    let r2 = b[2] as int + 0x100 * r3;
    let r1 = b[1] as int + 0x100 * r2;
    let r0 = b[0] as int + 0x100 * r1;
    assert(r6 < 0x1_0000);
    assert(r5 < 0x100_0000);
    assert(r4 < 0x1_0000_0000);
    assert(r3 < 0x100_0000_0000);
    assert(r2 < 0x1_0000_0000_0000);
    assert(r1 < 0x100_0000_0000_0000);
    assert(r0 < 0x1_0000_0000_0000_0000);
    let x = u64_of_le(b);
    assert(x == r0);
    assert(x / 0x100 == r1 && x % 0x100 == b[0]);
    assert(r1 / 0x100 == r2 && r1 % 0x100 == b[1]);
    assert(r2 / 0x100 == r3 && r2 % 0x100 == b[2]);
    assert(r3 / 0x100 == r4 && r3 % 0x100 == b[3]);
    assert(r4 / 0x100 == r5 && r4 % 0x100 == b[4]);
    assert(r5 / 0x100 == r6 && r5 % 0x100 == b[5]);
    assert(r6 / 0x100 == r7 && r6 % 0x100 == b[6]);
    assert(u64_le(x) =~= b);
}

/// Two numbers with the same bytes are the same number.
pub proof fn lemma_le_unique_u16(x: u16, y: u16)
    requires
        u16_le(x) == u16_le(y),
    ensures
        x == y,
{
    lemma_u16_le_inverse(x, seq![]);
    lemma_u16_le_inverse(y, seq![]);
}

/// Two numbers with the same bytes are the same number.
pub proof fn lemma_le_unique_u64(x: u64, y: u64)
    requires
        u64_le(x) == u64_le(y),
    ensures
        x == y,
{
    lemma_u64_le_inverse(x, seq![]);
    lemma_u64_le_inverse(y, seq![]);
}

/// Appends the two bytes of `x`.
pub fn put_u16(out: &mut Vec<u8>, x: u16)
    ensures
        final(out)@ == old(out)@ + u16_le(x),
{
    out.push((x % 0x100) as u8);
    out.push((x / 0x100) as u8);
    assert(out@ =~= old(out)@ + u16_le(x));
}

/// Appends the four bytes of `x`.
pub fn put_u32(out: &mut Vec<u8>, x: u32)
    ensures
        final(out)@ == old(out)@ + u32_le(x),
{
    let x1: u32 = x / 0x100;
    let x2: u32 = x1 / 0x100;
    let x3: u32 = x2 / 0x100;
    out.push((x % 0x100) as u8);
    out.push((x1 % 0x100) as u8);
    out.push((x2 % 0x100) as u8);
    out.push((x3 % 0x100) as u8);
    assert(out@ =~= old(out)@ + u32_le(x));
}

/// The eight bytes of `x`, low byte first.
fn bytes_of_u64(x: u64) -> (b: [u8; 8])
    ensures
        b@ == u64_le(x),
{
    let x1: u64 = x / 0x100;
    let x2: u64 = x1 / 0x100;
    let x3: u64 = x2 / 0x100;
    let x4: u64 = x3 / 0x100;
    let x5: u64 = x4 / 0x100;
    let x6: u64 = x5 / 0x100;
    let x7: u64 = x6 / 0x100;
    let b: [u8; 8] = [
        (x % 0x100) as u8,
        (x1 % 0x100) as u8,
        (x2 % 0x100) as u8,
        (x3 % 0x100) as u8,
        (x4 % 0x100) as u8,
        (x5 % 0x100) as u8,
        (x6 % 0x100) as u8,
        (x7 % 0x100) as u8,
    ];
    assert(b@ =~= u64_le(x));
    b
}

/// Appends the eight bytes of `x`, low byte first.
pub fn put_u64(out: &mut Vec<u8>, x: u64)
    ensures
        final(out)@ == old(out)@ + u64_le(x),
{
    let b = bytes_of_u64(x);
    let mut i: usize = 0;
    while i < 8
        invariant
            0 <= i <= 8,
            b@ == u64_le(x),
            out@ == old(out)@ + b@.take(i as int),
        decreases 8 - i,
    {
        out.push(b[i]);
        assert(out@ =~= old(out)@ + b@.take(i + 1));
        i = i + 1;
    }
    assert(b@.take(8) =~= b@);
}

/// Appends the eight bytes of `x`, high byte first.
pub fn put_u64_be(out: &mut Vec<u8>, x: u64)
    ensures
        final(out)@ == old(out)@ + u64_be(x),
{
    let b = bytes_of_u64(x);
    let mut i: usize = 0;
    while i < 8
        invariant
            0 <= i <= 8,
            b@ == u64_le(x),
            out@ == old(out)@ + u64_be(x).take(i as int),
        decreases 8 - i,
    {
        out.push(b[7 - i]);
        assert(out@ =~= old(out)@ + u64_be(x).take(i + 1));
        i = i + 1;
    }
    assert(u64_be(x).take(8) =~= u64_be(x));
}

/// Appends every byte of `bytes`.
pub fn put_bytes(out: &mut Vec<u8>, bytes: &[u8])
    ensures
        final(out)@ == old(out)@ + bytes@,
{
    let mut i: usize = 0;
    while i < bytes.len()
        invariant
            0 <= i <= bytes@.len(),
            out@ == old(out)@ + bytes@.take(i as int),
        decreases bytes@.len() - i,
    {
        out.push(bytes[i]);
        assert(out@ =~= old(out)@ + bytes@.take(i + 1));
        i = i + 1;
    }
    assert(bytes@.take(i as int) =~= bytes@);
}

/// Reads the two bytes at `at` as a number.
pub fn take_u16(bytes: &[u8], at: usize) -> (x: u16)
    requires
        at + 2 <= bytes@.len(),
    ensures
        u16_le(x) == bytes@.subrange(at as int, at + 2),
        x == u16_of_le(bytes@.subrange(at as int, at + 2)),
{
    let x: u16 = bytes[at] as u16 + 0x100 * (bytes[at + 1] as u16);
    assert(u16_le(x) =~= bytes@.subrange(at as int, at + 2));
    x
}

/// Reads the four bytes at `at` as a number.
pub fn take_u32(bytes: &[u8], at: usize) -> (x: u32)
    requires
        at + 4 <= bytes@.len(),
    ensures
        u32_le(x) == bytes@.subrange(at as int, at + 4),
        x == u32_of_le(bytes@.subrange(at as int, at + 4)),
{
    let len: usize = bytes.len();
    let mut x: u32 = bytes[at + 3] as u32;
    x = bytes[at + 2] as u32 + 0x100 * x;
    x = bytes[at + 1] as u32 + 0x100 * x;
    x = bytes[at] as u32 + 0x100 * x;
    proof {
        let b = bytes@.subrange(at as int, at + 4);
        assert(x == u32_of_le(b));
        lemma_u32_le_inverse(0, b);
    }
    x
}

/// Reads the eight bytes at `at` as a number, low byte first.
pub fn take_u64(bytes: &[u8], at: usize) -> (x: u64)
    requires
        at + 8 <= bytes@.len(),
    ensures
        u64_le(x) == bytes@.subrange(at as int, at + 8),
        x == u64_of_le(bytes@.subrange(at as int, at + 8)),
{
    let len: usize = bytes.len();
    let mut x: u64 = bytes[at + 7] as u64;
    x = bytes[at + 6] as u64 + 0x100 * x;
    x = bytes[at + 5] as u64 + 0x100 * x;
    x = bytes[at + 4] as u64 + 0x100 * x;
    x = bytes[at + 3] as u64 + 0x100 * x;
    x = bytes[at + 2] as u64 + 0x100 * x;
    x = bytes[at + 1] as u64 + 0x100 * x;
    x = bytes[at] as u64 + 0x100 * x;
    proof {
        let b = bytes@.subrange(at as int, at + 8);
        assert(x == u64_of_le(b));
        lemma_u64_le_inverse(0, b);
    }
    x
}

/// Whether `a` comes before `b` in the order of a dictionary: at the first
/// place where they differ `a` has the smaller byte, or `a` ends there and
/// `b` goes on.
pub open spec fn lex_less(a: Seq<u8>, b: Seq<u8>) -> bool {
    exists|i: int| #[trigger] differ_at(a, b, i) && (i == a.len() || a[i] < b[i])
}

/// Whether `i` is the first place where `a` and `b` differ: they agree
/// before it, and at `i` at most one of them has ended.
pub open spec fn differ_at(a: Seq<u8>, b: Seq<u8>, i: int) -> bool {
    &&& 0 <= i <= a.len()
    &&& i < b.len()
    &&& forall|j: int| 0 <= j < i ==> a[j] == b[j]
    &&& i < a.len() ==> a[i] != b[i]
}

/// The number that `s` writes, high byte first.
pub open spec fn be_value(s: Seq<u8>) -> nat
    decreases s.len(),
{
    if s.len() == 0 {
        0
    } else {
        256 * be_value(s.drop_last()) + s.last() as nat
    }
}

/// Among byte strings of one length, the order of the dictionary is the
/// order of the numbers that they write high byte first.
pub proof fn lemma_be_order(a: Seq<u8>, b: Seq<u8>)
    requires
        a.len() == b.len(),
    ensures
        lex_less(a, b) <==> be_value(a) < be_value(b),
        a == b <==> be_value(a) == be_value(b),
    decreases a.len(),
{
    if a.len() == 0 {
        assert(a =~= b);
        assert forall|i: int| !(#[trigger] differ_at(a, b, i)) by {}
    } else {
        let n = a.len() - 1;
        let fa = a.drop_last();
        let fb = b.drop_last();
        lemma_be_order(fa, fb);
        if fa == fb {
            assert forall|j: int| 0 <= j < n implies a[j] == b[j] by {
                assert(fa[j] == a[j] && fb[j] == b[j]);
            }
            if a[n] == b[n] {
                assert(a =~= b);
                assert forall|i: int| !(#[trigger] differ_at(a, b, i)) by {}
            } else {
                assert(differ_at(a, b, n));
                assert forall|i: int| #[trigger] differ_at(a, b, i) implies i == n by {}
            }
        } else {
            if lex_less(fa, fb) {
                let i = choose|i: int| #[trigger] differ_at(fa, fb, i) && (i == fa.len() || fa[i]
                    < fb[i]);
                assert(fa[i] == a[i] && fb[i] == b[i]);
                assert forall|j: int| 0 <= j < i implies a[j] == b[j] by {
                    assert(fa[j] == a[j] && fb[j] == b[j]);
                }
                assert(differ_at(a, b, i));
            }
            if lex_less(a, b) {
                let i = choose|i: int| #[trigger] differ_at(a, b, i) && (i == a.len() || a[i] < b[i]);
                if i == n {
                    assert forall|j: int| 0 <= j < n implies fa[j] == fb[j] by {
                        assert(fa[j] == a[j] && fb[j] == b[j]);
                    }
                    assert(fa =~= fb);
                }
                assert(fa[i] == a[i] && fb[i] == b[i]);
                assert forall|j: int| 0 <= j < i implies fa[j] == fb[j] by {
                    assert(fa[j] == a[j] && fb[j] == b[j]);
                }
                assert(differ_at(fa, fb, i));
            }
        }
    }
}

/// The eight bytes of a number, high byte first, write that number.
pub proof fn lemma_u64_be_value(x: u64)
    ensures
        u64_be(x).len() == 8,
        be_value(u64_be(x)) == x,
{
    let s = u64_be(x);
    let l = u64_le(x);
    lemma_u64_le_inverse(x, seq![]);
    assert(s.len() == 8);
    assert forall|i: int| 0 <= i < 8 implies s[i] == l[7 - i] by {}
    let s7 = s.drop_last();
    let s6 = s7.drop_last();
    let s5 = s6.drop_last();
    let s4 = s5.drop_last();
    let s3 = s4.drop_last();
    let s2 = s3.drop_last();
    let s1 = s2.drop_last();
    let s0 = s1.drop_last();
    assert(be_value(s0) == 0);
    assert(be_value(s1) == l[7]);
    assert(be_value(s2) == 256 * be_value(s1) + l[6]);
    assert(be_value(s3) == 256 * be_value(s2) + l[5]);
    assert(be_value(s4) == 256 * be_value(s3) + l[4]);
    assert(be_value(s5) == 256 * be_value(s4) + l[3]);
    assert(be_value(s6) == 256 * be_value(s5) + l[2]);
    assert(be_value(s7) == 256 * be_value(s6) + l[1]);
    assert(be_value(s) == 256 * be_value(s7) + l[0]);
}

/// A shared front does not change the order of what follows it.
pub proof fn lemma_lex_less_after_prefix(prefix: Seq<u8>, a: Seq<u8>, b: Seq<u8>)
    ensures
        lex_less(prefix + a, prefix + b) <==> lex_less(a, b),
{
    let n = prefix.len() as int;
    let pa = prefix + a;
    let pb = prefix + b;
    if lex_less(a, b) {
        let i = choose|i: int| #[trigger] differ_at(a, b, i) && (i == a.len() || a[i] < b[i]);
        assert forall|j: int| 0 <= j < n + i implies pa[j] == pb[j] by {
            if j >= n {
                assert(pa[j] == a[j - n] && pb[j] == b[j - n]);
            }
        }
        assert(pb[n + i] == b[i]);
        if i < a.len() {
            assert(pa[n + i] == a[i]);
        }
        assert(differ_at(pa, pb, n + i));
    }
    if lex_less(pa, pb) {
        let k = choose|k: int| #[trigger] differ_at(pa, pb, k) && (k == pa.len() || pa[k] < pb[k]);
        if k < n {
            assert(pa[k] == prefix[k] && pb[k] == prefix[k]);
        }
        let i = k - n;
        assert forall|j: int| 0 <= j < i implies a[j] == b[j] by {
            assert(pa[n + j] == a[j] && pb[n + j] == b[j]);
        }
        assert(pb[n + i] == b[i]);
        if i < a.len() {
            assert(pa[n + i] == a[i]);
        }
        assert(differ_at(a, b, i));
    }
}

} // verus!
