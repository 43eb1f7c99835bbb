//! Content identifiers: the bloom filter index of a string, and the
//! hierarchical index that names one chunk of one publisher's object.

use crate::constants::BLOOM_FILTER_LENGTH;
use crate::hash::sha3_512;
use crate::hash::sha3_512_digest;
use crate::hex::all_hex_digits;
use crate::hex::encode_hex;
use crate::hex::hex_encode;
use crate::hex::hex_number;
use crate::hex::lemma_hex_encode_digits;
use crate::hex::lemma_hex_number_of_text;
use crate::hex::parse_hex;
use crate::wire::be_value;
use crate::wire::lemma_le_unique_u16;
use crate::wire::lemma_le_unique_u64;
use crate::wire::put_u16;
use crate::wire::put_u64;
use crate::wire::take_u16;
use crate::wire::take_u64;
use crate::wire::u16_le;
use crate::wire::u64_le;
use crate::wire::DecodeError;
use vstd::prelude::*;
use vstd::string::StringSliceAdditionalSpecFns;
use vstd::utf8::encode_utf8;

verus! {

/// A bloom filter index: four 16-bit coordinates derived from a string.
pub type BFI = [u16; 4];

/// The text that seeds coordinate `slot`: the hexadecimal text of `digest`
/// followed by the decimal digit of the slot.
pub open spec fn salted_text(digest: Seq<u8>, slot: nat) -> Seq<u8>
    recommends
        slot < 10,
{
    hex_encode(digest) + seq![(48 + slot) as u8]
}

/// The running sum, reduced after each addition, of the first `chunks`
/// sixteen-digit numbers of `text`.
pub open spec fn chunk_sum(text: Seq<u8>, chunks: nat) -> nat
    decreases chunks,
{
    if chunks == 0 {
        0
    } else {
        let k = chunks - 1;
        (chunk_sum(text, k as nat) + hex_number(text.subrange(16 * k, 16 * k + 16))) % (
        BLOOM_FILTER_LENGTH as nat)
    }
}

/// Coordinate `slot` of the index seeded by `digest`: the digest's text is
/// salted with the slot and hashed again, and the eight sixteen-digit numbers
/// of that second digest's text are summed modulo `BLOOM_FILTER_LENGTH`.
pub open spec fn bfi_coordinate(digest: Seq<u8>, slot: nat) -> nat {
    chunk_sum(hex_encode(sha3_512(salted_text(digest, slot))), 8)
}

/// The bloom filter index of a byte string.
pub open spec fn spec_bloom_filter_index(s: Seq<u8>) -> Seq<u16> {
    Seq::new(4, |slot: int| bfi_coordinate(sha3_512(s), slot as nat) as u16)
}

/// Every coordinate lies below `BLOOM_FILTER_LENGTH`, so the narrowing to 16
/// bits loses nothing.
pub proof fn lemma_chunk_sum_bound(text: Seq<u8>, chunks: nat)
    ensures
        chunk_sum(text, chunks) < BLOOM_FILTER_LENGTH,
    decreases chunks,
{
    if chunks > 0 {
        lemma_chunk_sum_bound(text, (chunks - 1) as nat);
    }
}

/// Each sixteen-digit number of the text of a byte string is one of its
/// 64-bit words, high byte first: a coordinate is the sum of the eight
/// words of the second digest, reduced modulo `BLOOM_FILTER_LENGTH`.
pub proof fn lemma_chunk_is_word(bytes: Seq<u8>, k: int)
    requires
        0 <= k,
        8 * k + 8 <= bytes.len(),
    ensures
        hex_number(hex_encode(bytes).subrange(16 * k, 16 * k + 16)) == be_value(
            bytes.subrange(8 * k, 8 * k + 8),
        ),
{
    let word = bytes.subrange(8 * k, 8 * k + 8);
    let chunk = hex_encode(bytes).subrange(16 * k, 16 * k + 16);
    assert forall|i: int| 0 <= i < 16 implies chunk[i] == hex_encode(word)[i] by {
        assert(word[i / 2] == bytes[(16 * k + i) / 2]);
    }
    assert(chunk =~= hex_encode(word));
    lemma_hex_number_of_text(word);
}

/// Sums the sixteen-digit numbers of the text of a digest.
fn sum_chunks(text: &Vec<u8>) -> (index: u16)
    requires
        text@.len() == 128,
        all_hex_digits(text@),
    ensures
        index == chunk_sum(text@, 8),
{
    let mut index: u64 = 0;
    let mut k: usize = 0;
    while k < 8
        invariant
            0 <= k <= 8,
            text@.len() == 128,
            all_hex_digits(text@),
            index == chunk_sum(text@, k as nat),
            index < BLOOM_FILTER_LENGTH,
        decreases 8 - k,
    {
        let chunk = vstd::slice::slice_subrange(text.as_slice(), 16 * k, 16 * k + 16);
        assert(chunk@ == text@.subrange(16 * k, 16 * k + 16));
        assert forall|i: int| 0 <= i < chunk@.len() implies crate::hex::is_hex_digit(
            #[trigger] chunk@[i],
        ) by {
            assert(chunk@[i] == text@[16 * k + i]);
        }
        let number: u64 = parse_hex(chunk).unwrap();
        index = (index + number % BLOOM_FILTER_LENGTH) % BLOOM_FILTER_LENGTH;
        proof {
            vstd::arithmetic::div_mod::lemma_add_mod_noop_right(
                chunk_sum(text@, k as nat) as int,
                number as int,
                BLOOM_FILTER_LENGTH as int,
            );
        }
        k = k + 1;
    }
    index as u16
}

/// The bloom filter index of `s`: SHA3-512 of the string, then one salted
/// second digest per coordinate. Total on every string.
pub fn bloom_filter_index(s: &str) -> (index: BFI)
    ensures
        index@ == spec_bloom_filter_index(s.spec_bytes()),
{
    let digest = sha3_512_digest(s.as_bytes());
    let seed = encode_hex(digest.as_slice());
    let mut index: BFI = [0, 0, 0, 0];
    let mut slot: usize = 0;
    while slot < 4
        invariant
            0 <= slot <= 4,
            digest@ == sha3_512(s.spec_bytes()),
            seed@ == hex_encode(digest@),
            forall|n: int| 0 <= n < slot ==> index@[n] == bfi_coordinate(digest@, n as nat) as u16,
        decreases 4 - slot,
    {
        let mut salted = seed.clone();
        salted.push(48 + slot as u8);
        assert(salted@ == salted_text(digest@, slot as nat));
        let second = sha3_512_digest(salted.as_slice());
        let text = encode_hex(second.as_slice());
        proof {
            lemma_hex_encode_digits(second@);
        }
        let coordinate = sum_chunks(&text);
        index[slot] = coordinate;
        slot = slot + 1;
    }
    assert(index@ =~= spec_bloom_filter_index(s.spec_bytes()));
    index
}

/// The encoding of an index: its four coordinates, two bytes each, low byte
/// first.
pub open spec fn bfi_wire(index: BFI) -> Seq<u8> {
    u16_le(index[0]) + u16_le(index[1]) + u16_le(index[2]) + u16_le(index[3])
}

/// Two indices with the same encoding are the same index.
pub proof fn lemma_bfi_unique(a: BFI, b: BFI)
    requires
        bfi_wire(a) == bfi_wire(b),
    ensures
        a == b,
{
    let wa = bfi_wire(a);
    let wb = bfi_wire(b);
    assert forall|i: int| 0 <= i < 4 implies a[i] == b[i] by {
        assert(u16_le(a[i]) =~= wa.subrange(2 * i, 2 * i + 2));
        assert(u16_le(b[i]) =~= wb.subrange(2 * i, 2 * i + 2));
        lemma_le_unique_u16(a[i], b[i]);
    }
    assert(a =~= b);
}

/// Appends the encoding of an index.
pub fn put_bfi(out: &mut Vec<u8>, index: &BFI)
    ensures
        final(out)@ == old(out)@ + bfi_wire(*index),
{
    put_u16(out, index[0]);
    put_u16(out, index[1]);
    put_u16(out, index[2]);
    put_u16(out, index[3]);
    assert(out@ =~= old(out)@ + bfi_wire(*index));
}

/// Reads the index encoded in the eight bytes at `at`.
pub fn take_bfi(bytes: &[u8], at: usize) -> (index: BFI)
    requires
        at + 8 <= bytes@.len(),
    ensures
        bfi_wire(index) == bytes@.subrange(at as int, at + 8),
{
    let len: usize = bytes.len();
    let index: BFI = [
        take_u16(bytes, at),
        take_u16(bytes, at + 2),
        take_u16(bytes, at + 4),
        take_u16(bytes, at + 6),
    ];
    assert(bfi_wire(index) =~= bytes@.subrange(at as int, at + 2) + bytes@.subrange(
        at + 2,
        at + 4,
    ) + bytes@.subrange(at + 4, at + 6) + bytes@.subrange(at + 6, at + 8));
    assert(bfi_wire(index) =~= bytes@.subrange(at as int, at + 8));
    index
}

/// The four coordinates of an index in one 64-bit word, the first lowest.
pub open spec fn bfi_word(index: BFI) -> u64 {
    (index[0] as int + 0x1_0000 * (index[1] as int + 0x1_0000 * (index[2] as int + 0x1_0000
        * index[3] as int))) as u64
}

/// Two indices with the same word are the same index.
pub proof fn lemma_bfi_word_unique(a: BFI, b: BFI)
    requires
        bfi_word(a) == bfi_word(b),
    ensures
        a == b,
{
    let a2 = a[2] as int + 0x1_0000 * a[3] as int;
    let b2 = b[2] as int + 0x1_0000 * b[3] as int;
    let a1 = a[1] as int + 0x1_0000 * a2;
    let b1 = b[1] as int + 0x1_0000 * b2;
    assert(a2 < 0x1_0000_0000 && b2 < 0x1_0000_0000);
    assert(a1 < 0x1_0000_0000_0000 && b1 < 0x1_0000_0000_0000);
    assert(a[0] as int + 0x1_0000 * a1 == b[0] as int + 0x1_0000 * b1);
    assert(a1 == b1 && a[0] == b[0]);
    assert(a2 == b2 && a[1] == b[1]);
    assert(a[2] == b[2] && a[3] == b[3]);
    assert(a =~= b);
}

/// The four coordinates of an index in one 64-bit word.
pub fn word_of_bfi(index: &BFI) -> (word: u64)
    ensures
        word == bfi_word(*index),
{
    let mut word: u64 = index[3] as u64;
    word = index[2] as u64 + 0x1_0000 * word;
    word = index[1] as u64 + 0x1_0000 * word;
    word = index[0] as u64 + 0x1_0000 * word;
    word
}

/// Length in bytes of an encoded `HBFI`.
pub const HBFI_SIZE: usize = 24;

/// A hierarchical bloom filter index: the name `h1` under the publisher
/// `id`, and the chunk `os` of the named object.
#[derive(Clone, Copy, Debug, PartialEq, Eq, Hash)]
pub struct HBFI {
    /// Index of the name, the finest level of the hierarchy.
    pub h1: BFI,
    /// Index of the publisher.
    pub id: BFI,
    /// Chunk offset into the named object.
    pub os: u64,
}

impl HBFI {
    /// Whether this is the identifier of the first chunk of the name `h1`
    /// as published by `id`.
    pub open spec fn names(self, h1: Seq<char>, id: Seq<char>) -> bool {
        &&& self.h1@ == spec_bloom_filter_index(encode_utf8(h1))
        &&& self.id@ == spec_bloom_filter_index(encode_utf8(id))
        &&& self.os == 0
    }

    /// The identifier of the first chunk of the name `h1` as published by
    /// `id`.
    pub open spec fn spec_new(h1: Seq<char>, id: Seq<char>) -> HBFI {
        choose|hbfi: HBFI| hbfi.names(h1, id)
    }

    /// The identifier of the first chunk of `h1` as published by `id`.
    pub fn new(h1: &str, id: &str) -> (hbfi: HBFI)
        ensures
            hbfi.names(h1@, id@),
            hbfi == HBFI::spec_new(h1@, id@),
    {
        let hbfi = HBFI { h1: bloom_filter_index(h1), id: bloom_filter_index(id), os: 0 };
        proof {
            let chosen = HBFI::spec_new(h1@, id@);
            assert(hbfi.names(h1@, id@));
            assert(chosen.names(h1@, id@));
            assert(chosen.h1 =~= hbfi.h1);
            assert(chosen.id =~= hbfi.id);
        }
        hbfi
    }

    /// The identifier as three 64-bit words: the name's index, the
    /// publisher's index and the offset. Different identifiers give
    /// different words.
    pub open spec fn spec_key(self) -> (u64, u64, u64) {
        (bfi_word(self.h1), bfi_word(self.id), self.os)
    }

    /// The identifier as three 64-bit words.
    pub fn key(&self) -> (words: (u64, u64, u64))
        ensures
            words == self.spec_key(),
    {
        (word_of_bfi(&self.h1), word_of_bfi(&self.id), self.os)
    }

    /// An identifier made of the given parts.
    pub fn new_test(h1: BFI, id: BFI, os: u64) -> (hbfi: HBFI)
        ensures
            hbfi == (HBFI { h1, id, os }),
    {
        HBFI { h1, id, os }
    }

    /// The publisher's index and then the name's: the prefix under which a
    /// store keeps every chunk of the object.
    pub fn to_vec(&self) -> (parts: Vec<BFI>)
        ensures
            parts@ == seq![self.id, self.h1],
    {
        let mut parts: Vec<BFI> = Vec::new();
        parts.push(self.id);
        parts.push(self.h1);
        assert(parts@ =~= seq![self.id, self.h1]);
        parts
    }

    /// The same object at chunk `os`.
    pub fn offset(self, os: u64) -> (hbfi: HBFI)
        ensures
            hbfi == (HBFI { os, ..self }),
    {
        HBFI { h1: self.h1, id: self.id, os }
    }

    /// The encoding: the name's index, the publisher's index, and the
    /// offset in eight bytes, low byte first.
    pub open spec fn wire(self) -> Seq<u8> {
        bfi_wire(self.h1) + bfi_wire(self.id) + u64_le(self.os)
    }

    /// Appends the encoding.
    pub fn encode_into(&self, out: &mut Vec<u8>)
        ensures
            final(out)@ == old(out)@ + self.wire(),
            self.wire().len() == HBFI_SIZE,
    {
        put_bfi(out, &self.h1);
        put_bfi(out, &self.id);
        put_u64(out, self.os);
        assert(out@ =~= old(out)@ + self.wire());
    }

    /// The encoding, 24 bytes long.
    pub fn encode(&self) -> (bytes: Vec<u8>)
        ensures
            bytes@ == self.wire(),
            bytes@.len() == HBFI_SIZE,
    {
        let mut bytes: Vec<u8> = Vec::new();
        self.encode_into(&mut bytes);
        assert(bytes@ =~= self.wire());
        bytes
    }

    /// Reads the identifier encoded in the 24 bytes at `at`.
    pub fn decode_at(bytes: &[u8], at: usize) -> (hbfi: HBFI)
        requires
            at + HBFI_SIZE <= bytes@.len(),
        ensures
            hbfi.wire() == bytes@.subrange(at as int, at + HBFI_SIZE),
    {
        let len: usize = bytes.len();
        let hbfi = HBFI {
            h1: take_bfi(bytes, at),
            id: take_bfi(bytes, at + 8),
            os: take_u64(bytes, at + 16),
        };
        assert(hbfi.wire() =~= bytes@.subrange(at as int, at + 8) + bytes@.subrange(
            at + 8,
            at + 16,
        ) + bytes@.subrange(at + 16, at + 24));
        assert(hbfi.wire() =~= bytes@.subrange(at as int, at + 24));
        hbfi
    }

    /// Reads an identifier from exactly its encoding. A shorter input is
    /// `Truncated`, a longer one has `TrailingBytes`.
    pub fn decode(bytes: &[u8]) -> (r: Result<HBFI, DecodeError>)
        ensures
            match r {
                Ok(hbfi) => hbfi.wire() == bytes@,
                Err(e) => e == if bytes@.len() < HBFI_SIZE {
                    DecodeError::Truncated
                } else {
                    DecodeError::TrailingBytes
                } && bytes@.len() != HBFI_SIZE,
            },
            forall|h: HBFI| h.wire() == bytes@ ==> r == Ok::<HBFI, DecodeError>(h),
    {
        if bytes.len() < HBFI_SIZE {
            Err(DecodeError::Truncated)
        } else if bytes.len() > HBFI_SIZE {
            Err(DecodeError::TrailingBytes)
        } else {
            let hbfi = HBFI::decode_at(bytes, 0);
            assert(bytes@.subrange(0, 24) =~= bytes@);
            assert forall|h: HBFI| h.wire() == bytes@ implies h == hbfi by {
                lemma_hbfi_unique(h, hbfi);
            }
            Ok(hbfi)
        }
    }

    /// Structural equality.
    pub fn equals(&self, other: &HBFI) -> (same: bool)
        ensures
            same == (*self == *other),
    {
        let same = self.os == other.os && self.h1[0] == other.h1[0] && self.h1[1] == other.h1[1]
            && self.h1[2] == other.h1[2] && self.h1[3] == other.h1[3] && self.id[0] == other.id[0]
            && self.id[1] == other.id[1] && self.id[2] == other.id[2] && self.id[3] == other.id[3];
        proof {
            if same {
                assert(self.h1 =~= other.h1);
                assert(self.id =~= other.id);
            }
        }
        same
    }
}

/// Two identifiers with the same three words are the same identifier.
pub proof fn lemma_key_unique(a: HBFI, b: HBFI)
    requires
        a.spec_key() == b.spec_key(),
    ensures
        a == b,
{
    lemma_bfi_word_unique(a.h1, b.h1);
    lemma_bfi_word_unique(a.id, b.id);
}

/// Two identifiers with the same encoding are the same identifier.
pub proof fn lemma_hbfi_unique(a: HBFI, b: HBFI)
    requires
        a.wire() == b.wire(),
    ensures
        a == b,
{
    let wa = a.wire();
    let wb = b.wire();
    assert(bfi_wire(a.h1) =~= wa.subrange(0, 8));
    assert(bfi_wire(b.h1) =~= wb.subrange(0, 8));
    assert(bfi_wire(a.id) =~= wa.subrange(8, 16));
    assert(bfi_wire(b.id) =~= wb.subrange(8, 16));
    assert(u64_le(a.os) =~= wa.subrange(16, 24));
    assert(u64_le(b.os) =~= wb.subrange(16, 24));
    lemma_bfi_unique(a.h1, b.h1);
    lemma_bfi_unique(a.id, b.id);
    lemma_le_unique_u64(a.os, b.os);
}

} // verus!
