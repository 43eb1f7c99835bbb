//! Packets addressed by name: an interest in a name, and data published
//! under a name, each carrying the index derived from the name; and their
//! encoding, in which every sequence of variable length follows its length.

use crate::hbfi::bloom_filter_index;
use crate::hbfi::spec_bloom_filter_index;
use crate::wire::lemma_le_unique_u16;
use crate::wire::lemma_u32_le_inverse;
use crate::wire::put_bytes;
use crate::wire::put_u16;
use crate::wire::put_u32;
use crate::wire::take_u16;
use crate::wire::take_u32;
use crate::wire::u16_le;
use crate::wire::u32_le;
use crate::wire::u32_of_le;
use crate::wire::DecodeError;
use vstd::prelude::*;
use vstd::utf8::encode_utf8;

verus! {

/// A packet addressed by the index of a name.
#[derive(Debug, Clone, PartialEq)]
pub enum Packet {
    /// Asks for what was published under the name.
    Interest { sdri: Vec<Vec<u16>> },
    /// Carries what was published under the name.
    Data { sdri: Vec<Vec<u16>>, data: Vec<u8> },
}

/// What a packet addressed by name holds.
pub enum PacketView {
    /// An interest, with the rows of its index.
    Interest { sdri: Seq<Seq<u16>> },
    /// Data, with the rows of its index and the bytes carried.
    Data { sdri: Seq<Seq<u16>>, data: Seq<u8> },
}

/// The rows of an index.
pub open spec fn rows_of(sdri: Vec<Vec<u16>>) -> Seq<Seq<u16>> {
    Seq::new(sdri@.len(), |i: int| sdri@[i]@)
}

impl View for Packet {
    type V = PacketView;

    open spec fn view(&self) -> PacketView {
        match *self {
            Packet::Interest { sdri } => PacketView::Interest { sdri: rows_of(sdri) },
            Packet::Data { sdri, data } => PacketView::Data { sdri: rows_of(sdri), data: data@ },
        }
    }
}

/// The index of a name: one row for each level of the hierarchy. There is
/// one level, and its row is the bloom filter index of the name.
pub open spec fn spec_sdr_index(name: Seq<char>) -> Seq<Seq<u16>> {
    seq![spec_bloom_filter_index(encode_utf8(name))]
}

/// The index of `name`.
pub fn generate_sdr_index(name: String) -> (sdri: Vec<Vec<u16>>)
    ensures
        rows_of(sdri) == spec_sdr_index(name@),
{
    let index = bloom_filter_index(name.as_str());
    let mut row: Vec<u16> = Vec::new();
    let mut i: usize = 0;
    while i < 4
        invariant
            0 <= i <= 4,
            row@ == index@.take(i as int),
        decreases 4 - i,
    {
        row.push(index[i]);
        assert(row@ =~= index@.take(i + 1));
        i = i + 1;
    }
    assert(index@.take(4) =~= index@);
    let mut sdri: Vec<Vec<u16>> = Vec::new();
    sdri.push(row);
    assert(rows_of(sdri) =~= spec_sdr_index(name@));
    sdri
}

/// An interest in `name`.
pub fn mk_interest(name: String) -> (packet: Packet)
    ensures
        packet@ == (PacketView::Interest { sdri: spec_sdr_index(name@) }),
{
    Packet::Interest { sdri: generate_sdr_index(name) }
}

/// The packet that publishes `data` under `name`.
pub fn mk_data(name: String, data: Vec<u8>) -> (packet: Packet)
    ensures
        packet@ == (PacketView::Data { sdri: spec_sdr_index(name@), data: data@ }),
{
    Packet::Data { sdri: generate_sdr_index(name), data }
}

/// The encoding of the elements of a row: two bytes each, low byte first.
pub open spec fn words_wire(words: Seq<u16>) -> Seq<u8> {
    Seq::new(2 * words.len(), |i: int| u16_le(words[i / 2])[i % 2])
}

/// The encoding of a row: the number of its elements in four bytes, then
/// the elements.
pub open spec fn row_wire(row: Seq<u16>) -> Seq<u8> {
    u32_le(row.len() as u32) + words_wire(row)
}

/// The encoding of rows, one after the other.
pub open spec fn rows_wire(rows: Seq<Seq<u16>>) -> Seq<u8>
    decreases rows.len(),
{
    if rows.len() == 0 {
        Seq::empty()
    } else {
        row_wire(rows.first()) + rows_wire(rows.drop_first())
    }
}

/// The encoding of an index: the number of its rows in four bytes, then
/// the rows.
pub open spec fn sdri_wire(rows: Seq<Seq<u16>>) -> Seq<u8> {
    u32_le(rows.len() as u32) + rows_wire(rows)
}

/// The encoding of a byte string: its length in four bytes, then the bytes.
pub open spec fn blob_wire(data: Seq<u8>) -> Seq<u8> {
    u32_le(data.len() as u32) + data
}

/// Whether the number of rows, and of elements in each row, fits 32 bits.
pub open spec fn sdri_fits(rows: Seq<Seq<u16>>) -> bool {
    &&& rows.len() <= u32::MAX
    &&& forall|i: int| 0 <= i < rows.len() ==> (#[trigger] rows[i]).len() <= u32::MAX
}

impl PacketView {
    /// The rows of the index.
    pub open spec fn sdri(self) -> Seq<Seq<u16>> {
        match self {
            PacketView::Interest { sdri } => sdri,
            PacketView::Data { sdri, .. } => sdri,
        }
    }

    /// Whether every length fits the 32 bits that the encoding gives it.
    pub open spec fn wf(self) -> bool {
        &&& sdri_fits(self.sdri())
        &&& self matches PacketView::Data { data, .. } ==> data.len() <= u32::MAX
    }

    /// The encoding: one tag byte, then the fields in the order of their
    /// declaration.
    pub open spec fn wire(self) -> Seq<u8> {
        match self {
            PacketView::Interest { sdri } => seq![0u8] + sdri_wire(sdri),
            PacketView::Data { sdri, data } => seq![1u8] + sdri_wire(sdri) + blob_wire(data),
        }
    }
}

/// The length of the row encoding that `b` starts with, or why `b` starts
/// with none.
pub open spec fn row_span(b: Seq<u8>) -> Result<nat, DecodeError> {
    if b.len() < 4 {
        Err(DecodeError::Truncated)
    } else if 2 * u32_of_le(b.take(4)) > b.len() - 4 {
        Err(DecodeError::LengthExceedsBuffer)
    } else {
        Ok((4 + 2 * u32_of_le(b.take(4))) as nat)
    }
}

/// The length of the encoding of `count` rows that `b` starts with, or why
/// `b` starts with none.
pub open spec fn rows_span(b: Seq<u8>, count: nat) -> Result<nat, DecodeError>
    decreases count,
{
    if count == 0 {
        Ok(0)
    } else {
        match row_span(b) {
            Err(e) => Err(e),
            Ok(n) => after(n, rows_span(b.skip(n as int), (count - 1) as nat)),
        }
    }
}

/// The span `rest` found after `n` bytes, counted from before them.
pub open spec fn after(n: nat, rest: Result<nat, DecodeError>) -> Result<nat, DecodeError> {
    match rest {
        Err(e) => Err(e),
        Ok(m) => Ok(n + m),
    }
}

/// The length of the index encoding that `b` starts with, or why `b` starts
/// with none. A count of rows that the input cannot hold, at four bytes
/// a row, is refused before any row is read.
pub open spec fn sdri_span(b: Seq<u8>) -> Result<nat, DecodeError> {
    if b.len() < 4 {
        Err(DecodeError::Truncated)
    } else if 4 * u32_of_le(b.take(4)) > b.len() - 4 {
        Err(DecodeError::LengthExceedsBuffer)
    } else {
        after(4, rows_span(b.skip(4), u32_of_le(b.take(4)) as nat))
    }
}

/// The length of the byte string encoding that `b` starts with, or why `b`
/// starts with none.
pub open spec fn blob_span(b: Seq<u8>) -> Result<nat, DecodeError> {
    if b.len() < 4 {
        Err(DecodeError::Truncated)
    } else if u32_of_le(b.take(4)) > b.len() - 4 {
        Err(DecodeError::LengthExceedsBuffer)
    } else {
        Ok((4 + u32_of_le(b.take(4))) as nat)
    }
}

/// The length of the packet encoding that `b` starts with, or why `b`
/// starts with none.
pub open spec fn named_span(b: Seq<u8>) -> Result<nat, DecodeError> {
    if b.len() < 1 {
        Err(DecodeError::Truncated)
    } else if b[0] == 0 {
        after(1, sdri_span(b.skip(1)))
    } else if b[0] == 1 {
        match sdri_span(b.skip(1)) {
            Err(e) => Err(e),
            Ok(n) => after(1 + n, blob_span(b.skip(1 + n as int))),
        }
    } else {
        Err(DecodeError::UnknownDiscriminant)
    }
}

/// Why `b` is not the encoding of a packet addressed by name, if it is
/// not: the first fault met when reading it from the front, then looking
/// for the end of the input.
pub open spec fn named_fault(b: Seq<u8>) -> Option<DecodeError> {
    match named_span(b) {
        Err(e) => Some(e),
        Ok(n) => if b.len() > n {
            Some(DecodeError::TrailingBytes)
        } else {
            None
        },
    }
}

/// The encoding of a row with one more element.
proof fn lemma_words_push(words: Seq<u16>, word: u16)
    ensures
        words_wire(words.push(word)) == words_wire(words) + u16_le(word),
        words_wire(words).len() == 2 * words.len(),
{
    let longer = words.push(word);
    assert forall|i: int| 0 <= i < 2 * longer.len() implies words_wire(longer)[i] == (words_wire(
        words,
    ) + u16_le(word))[i] by {
        if i < 2 * words.len() {
            assert(longer[i / 2] == words[i / 2]);
        } else {
            assert(longer[i / 2] == word);
        }
    }
    assert(words_wire(longer) =~= words_wire(words) + u16_le(word));
}

/// The encoding of rows with one more row.
proof fn lemma_rows_push(rows: Seq<Seq<u16>>, row: Seq<u16>)
    ensures
        rows_wire(rows.push(row)) == rows_wire(rows) + row_wire(row),
    decreases rows.len(),
{
    let longer = rows.push(row);
    if rows.len() == 0 {
        assert(longer.drop_first() =~= Seq::<Seq<u16>>::empty());
        assert(rows_wire(longer) =~= row_wire(row) + rows_wire(Seq::<Seq<u16>>::empty()));
        assert(rows_wire(longer) =~= rows_wire(rows) + row_wire(row));
    } else {
        assert(longer.first() == rows.first());
        assert(longer.drop_first() =~= rows.drop_first().push(row));
        lemma_rows_push(rows.drop_first(), row);
        assert(rows_wire(longer) =~= rows_wire(rows) + row_wire(row));
    }
}

/// An encoded row is found again at the front of whatever follows it.
proof fn lemma_row_span(row: Seq<u16>, rest: Seq<u8>)
    requires
        row.len() <= u32::MAX,
    ensures
        row_span(row_wire(row) + rest) == Ok::<nat, DecodeError>(row_wire(row).len()),
        row_wire(row).len() == 4 + 2 * row.len(),
{
    let b = row_wire(row) + rest;
    lemma_u32_le_inverse(row.len() as u32, seq![]);
    assert(b.take(4) =~= u32_le(row.len() as u32));
}

/// Encoded rows are found again at the front of whatever follows them, and
/// each of them takes four bytes at least.
proof fn lemma_rows_span(rows: Seq<Seq<u16>>, rest: Seq<u8>)
    requires
        sdri_fits(rows),
    ensures
        rows_span(rows_wire(rows) + rest, rows.len()) == Ok::<nat, DecodeError>(
            rows_wire(rows).len(),
        ),
        rows_wire(rows).len() >= 4 * rows.len(),
    decreases rows.len(),
{
    if rows.len() > 0 {
        let first = rows.first();
        let others = rows.drop_first();
        assert(first == rows[0]);
        assert forall|i: int| 0 <= i < others.len() implies (#[trigger] others[i]).len()
            <= u32::MAX by {
            assert(others[i] == rows[i + 1]);
        }
        let b = rows_wire(rows) + rest;
        assert(b =~= row_wire(first) + (rows_wire(others) + rest));
        lemma_row_span(first, rows_wire(others) + rest);
        lemma_rows_span(others, rest);
        assert(b.skip(row_wire(first).len() as int) =~= rows_wire(others) + rest);
    }
}

/// The encoding of a well-formed packet is read without fault.
pub proof fn lemma_named_round_trip(packet: PacketView)
    requires
        packet.wf(),
    ensures
        named_fault(packet.wire()) is None,
{
    let b = packet.wire();
    let rows = packet.sdri();
    lemma_u32_le_inverse(rows.len() as u32, seq![]);
    match packet {
        PacketView::Interest { sdri } => {
            let s = b.skip(1);
            assert(s =~= sdri_wire(sdri));
            assert(s.take(4) =~= u32_le(rows.len() as u32));
            assert(s.skip(4) =~= rows_wire(rows) + Seq::<u8>::empty());
            lemma_rows_span(rows, Seq::empty());
        },
        PacketView::Data { sdri, data } => {
            let s = b.skip(1);
            assert(s =~= sdri_wire(sdri) + blob_wire(data));
            assert(s.take(4) =~= u32_le(rows.len() as u32));
            assert(s.skip(4) =~= rows_wire(rows) + blob_wire(data));
            lemma_rows_span(rows, blob_wire(data));
            let n = 4 + rows_wire(rows).len();
            let t = b.skip(1 + n as int);
            assert(t =~= blob_wire(data));
            lemma_u32_le_inverse(data.len() as u32, seq![]);
            assert(t.take(4) =~= u32_le(data.len() as u32));
        },
    }
}

/// Two rows of one length with the same encoding are the same row.
proof fn lemma_words_unique(a: Seq<u16>, b: Seq<u16>)
    requires
        a.len() == b.len(),
        words_wire(a) == words_wire(b),
    ensures
        a == b,
{
    assert forall|i: int| 0 <= i < a.len() implies a[i] == b[i] by {
        let wa = words_wire(a);
        let wb = words_wire(b);
        assert(wa[2 * i] == u16_le(a[i])[0] && wa[2 * i + 1] == u16_le(a[i])[1]);
        assert(wb[2 * i] == u16_le(b[i])[0] && wb[2 * i + 1] == u16_le(b[i])[1]);
        assert(u16_le(a[i]) =~= u16_le(b[i]));
        lemma_le_unique_u16(a[i], b[i]);
    }
    assert(a =~= b);
}

/// Equally many rows whose encodings start the same byte string are the
/// same rows, and what follows them is the same.
proof fn lemma_rows_unique(a: Seq<Seq<u16>>, x: Seq<u8>, b: Seq<Seq<u16>>, y: Seq<u8>)
    requires
        sdri_fits(a),
        sdri_fits(b),
        a.len() == b.len(),
        rows_wire(a) + x == rows_wire(b) + y,
    ensures
        a == b,
        x == y,
    decreases a.len(),
{
    if a.len() == 0 {
        assert(a =~= b);
        assert(x =~= rows_wire(a) + x);
        assert(y =~= rows_wire(b) + y);
    } else {
        let ra = a.first();
        let rb = b.first();
        let ta = a.drop_first();
        let tb = b.drop_first();
        assert(ra == a[0] && rb == b[0]);
        assert forall|i: int| 0 <= i < ta.len() implies (#[trigger] ta[i]).len() <= u32::MAX by {
            assert(ta[i] == a[i + 1]);
        }
        assert forall|i: int| 0 <= i < tb.len() implies (#[trigger] tb[i]).len() <= u32::MAX by {
            assert(tb[i] == b[i + 1]);
        }
        let whole = rows_wire(a) + x;
        assert(whole =~= row_wire(ra) + (rows_wire(ta) + x));
        assert(whole =~= row_wire(rb) + (rows_wire(tb) + y));
        lemma_row_span(ra, rows_wire(ta) + x);
        lemma_row_span(rb, rows_wire(tb) + y);
        let n = row_wire(ra).len() as int;
        assert(ra.len() == rb.len());
        assert(words_wire(ra) =~= whole.subrange(4, n));
        assert(words_wire(rb) =~= whole.subrange(4, n));
        lemma_words_unique(ra, rb);
        assert(rows_wire(ta) + x =~= whole.skip(n));
        assert(rows_wire(tb) + y =~= whole.skip(n));
        lemma_rows_unique(ta, x, tb, y);
        assert(a =~= seq![ra] + ta);
        assert(b =~= seq![rb] + tb);
    }
}

/// Two well-formed packets with the same encoding hold the same.
pub proof fn lemma_named_unique(a: PacketView, b: PacketView)
    requires
        a.wf(),
        b.wf(),
        a.wire() == b.wire(),
    ensures
        a == b,
{
    let w = a.wire();
    assert(a.wire()[0] == b.wire()[0]);
    let ra = a.sdri();
    let rb = b.sdri();
    lemma_u32_le_inverse(ra.len() as u32, seq![]);
    lemma_u32_le_inverse(rb.len() as u32, seq![]);
    assert(u32_le(ra.len() as u32) =~= a.wire().subrange(1, 5));
    assert(u32_le(rb.len() as u32) =~= b.wire().subrange(1, 5));
    assert(ra.len() == rb.len());
    match (a, b) {
        (PacketView::Interest { sdri: _ }, PacketView::Interest { sdri: _ }) => {
            assert(rows_wire(ra) + Seq::<u8>::empty() =~= w.skip(5));
            assert(rows_wire(rb) + Seq::<u8>::empty() =~= w.skip(5));
            lemma_rows_unique(ra, Seq::empty(), rb, Seq::empty());
        },
        (PacketView::Data { sdri: _, data: da }, PacketView::Data { sdri: _, data: db }) => {
            assert(rows_wire(ra) + blob_wire(da) =~= w.skip(5));
            assert(rows_wire(rb) + blob_wire(db) =~= w.skip(5));
            lemma_rows_unique(ra, blob_wire(da), rb, blob_wire(db));
            assert(da =~= blob_wire(da).skip(4));
            assert(db =~= blob_wire(db).skip(4));
        },
        _ => {},
    }
}

/// Whether a length fits the four bytes that the encoding gives it.
fn fits_u32(len: usize) -> (fits: bool)
    ensures
        fits == (len <= u32::MAX),
{
    len as u64 <= 0xffff_ffff
}

/// Appends the encoding of an index, if its lengths fit.
fn put_sdri(out: &mut Vec<u8>, sdri: &Vec<Vec<u16>>) -> (done: bool)
    ensures
        done == sdri_fits(rows_of(*sdri)),
        done ==> final(out)@ == old(out)@ + sdri_wire(rows_of(*sdri)),
{
    let ghost rows = rows_of(*sdri);
    if !fits_u32(sdri.len()) {
        return false;
    }
    put_u32(out, sdri.len() as u32);
    let ghost base = out@;
    let mut i: usize = 0;
    assert(rows.take(0) =~= Seq::<Seq<u16>>::empty());
    while i < sdri.len()
        invariant
            0 <= i <= sdri@.len(),
            rows == rows_of(*sdri),
            rows.len() == sdri@.len(),
            base == old(out)@ + u32_le(rows.len() as u32),
            forall|k: int| 0 <= k < i ==> (#[trigger] rows[k]).len() <= u32::MAX,
            out@ == base + rows_wire(rows.take(i as int)),
        decreases sdri@.len() - i,
    {
        let row = &sdri[i];
        assert(row@ == rows[i as int]);
        if !fits_u32(row.len()) {
            return false;
        }
        put_u32(out, row.len() as u32);
        let ghost row_base = out@;
        let mut j: usize = 0;
        assert(row@.take(0) =~= Seq::<u16>::empty());
        assert(words_wire(Seq::<u16>::empty()) =~= Seq::<u8>::empty());
        while j < row.len()
            invariant
                0 <= j <= row@.len(),
                out@ == row_base + words_wire(row@.take(j as int)),
            decreases row@.len() - j,
        {
            put_u16(out, row[j]);
            proof {
                lemma_words_push(row@.take(j as int), row@[j as int]);
                assert(row@.take(j + 1) =~= row@.take(j as int).push(row@[j as int]));
            }
            j = j + 1;
        }
        proof {
            assert(row@.take(j as int) =~= row@);
            lemma_rows_push(rows.take(i as int), row@);
            assert(rows.take(i + 1) =~= rows.take(i as int).push(row@));
            assert(out@ =~= base + rows_wire(rows.take(i + 1)));
        }
        i = i + 1;
    }
    assert(rows.take(i as int) =~= rows);
    assert(out@ =~= old(out)@ + sdri_wire(rows));
    true
}

/// Reads the row that `bytes` hold at `at`, and says where it ends.
fn take_row(bytes: &[u8], at: usize) -> (r: Result<(Vec<u16>, usize), DecodeError>)
    requires
        at <= bytes@.len(),
    ensures
        match r {
            Ok((row, end)) => row_span(bytes@.skip(at as int)) == Ok::<nat, DecodeError>(
                (end - at) as nat,
            ) && at <= end <= bytes@.len() && row@.len() <= u32::MAX && row_wire(row@)
                == bytes@.subrange(at as int, end as int),
            Err(e) => row_span(bytes@.skip(at as int)) == Err::<nat, DecodeError>(e),
        },
{
    let len: usize = bytes.len();
    let ghost here = bytes@.skip(at as int);
    if len - at < 4 {
        return Err(DecodeError::Truncated);
    }
    let n = take_u32(bytes, at);
    assert(here.take(4) =~= bytes@.subrange(at as int, at + 4));
    if n as u64 * 2 > (len - at - 4) as u64 {
        return Err(DecodeError::LengthExceedsBuffer);
    }
    let words_at: usize = at + 4;
    let mut row: Vec<u16> = Vec::new();
    let mut j: u32 = 0;
    assert(words_wire(row@) =~= bytes@.subrange(words_at as int, words_at as int));
    while j < n
        invariant
            0 <= j <= n,
            words_at + 2 * n <= len,
            len == bytes@.len(),
            row@.len() == j,
            words_wire(row@) == bytes@.subrange(words_at as int, words_at + 2 * j),
        decreases n - j,
    {
        let word = take_u16(bytes, words_at + 2 * (j as usize));
        let ghost before = row@;
        row.push(word);
        proof {
            lemma_words_push(before, word);
            assert(words_wire(row@) =~= bytes@.subrange(words_at as int, words_at + 2 * (j + 1)));
        }
        j = j + 1;
    }
    let end: usize = words_at + 2 * (n as usize);
    assert(row_wire(row@) =~= bytes@.subrange(at as int, end as int));
    Ok((row, end))
}

/// Reads the byte string that `bytes` hold at `at`, and says where it ends.
fn take_blob(bytes: &[u8], at: usize) -> (r: Result<(Vec<u8>, usize), DecodeError>)
    requires
        at <= bytes@.len(),
    ensures
        match r {
            Ok((data, end)) => blob_span(bytes@.skip(at as int)) == Ok::<nat, DecodeError>(
                (end - at) as nat,
            ) && at <= end <= bytes@.len() && data@.len() <= u32::MAX && blob_wire(data@)
                == bytes@.subrange(at as int, end as int),
            Err(e) => blob_span(bytes@.skip(at as int)) == Err::<nat, DecodeError>(e),
        },
{
    let len: usize = bytes.len();
    let ghost here = bytes@.skip(at as int);
    if len - at < 4 {
        return Err(DecodeError::Truncated);
    }
    let n = take_u32(bytes, at);
    assert(here.take(4) =~= bytes@.subrange(at as int, at + 4));
    if n as u64 > (len - at - 4) as u64 {
        return Err(DecodeError::LengthExceedsBuffer);
    }
    let end: usize = at + 4 + n as usize;
    let mut data: Vec<u8> = Vec::new();
    put_bytes(&mut data, vstd::slice::slice_subrange(bytes, at + 4, end));
    assert(data@ =~= bytes@.subrange(at + 4, end as int));
    assert(blob_wire(data@) =~= bytes@.subrange(at as int, end as int));
    Ok((data, end))
}

/// Reads the index that `bytes` hold at `at`, and says where it ends.
fn take_sdri(bytes: &[u8], at: usize) -> (r: Result<(Vec<Vec<u16>>, usize), DecodeError>)
    requires
        at <= bytes@.len(),
    ensures
        match r {
            Ok((sdri, end)) => sdri_span(bytes@.skip(at as int)) == Ok::<nat, DecodeError>(
                (end - at) as nat,
            ) && at <= end <= bytes@.len() && sdri_fits(rows_of(sdri)) && sdri_wire(rows_of(sdri))
                == bytes@.subrange(at as int, end as int),
            Err(e) => sdri_span(bytes@.skip(at as int)) == Err::<nat, DecodeError>(e),
        },
{
    let len: usize = bytes.len();
    let ghost b = bytes@.skip(at as int);
    if len - at < 4 {
        return Err(DecodeError::Truncated);
    }
    let count = take_u32(bytes, at);
    assert(b.take(4) =~= bytes@.subrange(at as int, at + 4));
    if count as u64 * 4 > (len - at - 4) as u64 {
        return Err(DecodeError::LengthExceedsBuffer);
    }
    let start: usize = at + 4;
    let mut pos: usize = start;
    let mut sdri: Vec<Vec<u16>> = Vec::new();
    let mut i: u32 = 0;
    let ghost whole = rows_span(bytes@.skip(start as int), count as nat);
    assert(bytes@.skip(start as int) =~= b.skip(4));
    assert(sdri_span(b) == after(4, whole));
    assert(rows_of(sdri) =~= Seq::<Seq<u16>>::empty());
    assert(bytes@.subrange(start as int, pos as int) =~= Seq::<u8>::empty());
    while i < count
        invariant
            0 <= i <= count,
            start == at + 4,
            start <= pos <= len,
            len == bytes@.len(),
            sdri@.len() == i,
            sdri_fits(rows_of(sdri)),
            u32_le(count) == bytes@.subrange(at as int, start as int),
            rows_wire(rows_of(sdri)) == bytes@.subrange(start as int, pos as int),
            whole == after(
                (pos - start) as nat,
                rows_span(bytes@.skip(pos as int), (count - i) as nat),
            ),
            sdri_span(bytes@.skip(at as int)) == after(4, whole),
        decreases count - i,
    {
        let ghost here = bytes@.skip(pos as int);
        let ghost rows_before = rows_of(sdri);
        match take_row(bytes, pos) {
            Err(e) => {
                return Err(e);
            },
            Ok((row, next)) => {
                let ghost row_view = row@;
                sdri.push(row);
                proof {
                    assert(rows_of(sdri) =~= rows_before.push(row_view));
                    lemma_rows_push(rows_before, row_view);
                    assert(rows_wire(rows_of(sdri)) =~= bytes@.subrange(start as int, next as int));
                    assert(here.skip(next - pos) =~= bytes@.skip(next as int));
                    assert(rows_span(here, (count - i) as nat) == after(
                        (next - pos) as nat,
                        rows_span(bytes@.skip(next as int), (count - i - 1) as nat),
                    ));
                }
                pos = next;
                i = i + 1;
            },
        }
    }
    proof {
        assert(sdri@.len() == count);
        assert(sdri_wire(rows_of(sdri)) =~= bytes@.subrange(at as int, pos as int));
    }
    Ok((sdri, pos))
}

impl Packet {
    /// The encoding; `None` when a length does not fit 32 bits.
    pub fn encode(&self) -> (r: Option<Vec<u8>>)
        ensures
            r is Some <==> self@.wf(),
            r matches Some(bytes) ==> bytes@ == self@.wire(),
    {
        let mut out: Vec<u8> = Vec::new();
        match self {
            Packet::Interest { sdri } => {
                out.push(0);
                if !put_sdri(&mut out, sdri) {
                    return None;
                }
                assert(out@ =~= self@.wire());
                Some(out)
            },
            Packet::Data { sdri, data } => {
                out.push(1);
                if !put_sdri(&mut out, sdri) {
                    return None;
                }
                if !fits_u32(data.len()) {
                    return None;
                }
                put_u32(&mut out, data.len() as u32);
                put_bytes(&mut out, data.as_slice());
                assert(out@ =~= self@.wire());
                Some(out)
            },
        }
    }

    /// Reads a packet from exactly its encoding.
    ///
    /// Succeeds on the encodings of the packets whose lengths fit 32 bits
    /// and on nothing else; a failure names the first fault met.
    pub fn decode(bytes: &[u8]) -> (r: Result<Packet, DecodeError>)
        ensures
            match r {
                Ok(packet) => packet@.wf() && packet@.wire() == bytes@,
                Err(e) => named_fault(bytes@) == Some(e),
            },
            forall|p: PacketView|
                p.wf() && p.wire() == bytes@ ==> (r matches Ok(packet) && packet@ == p),
    {
        let r = Packet::decode_exact(bytes);
        proof {
            assert forall|p: PacketView| p.wf() && p.wire() == bytes@ implies (r matches Ok(packet)
                && packet@ == p) by {
                lemma_named_round_trip(p);
                match r {
                    Ok(packet) => {
                        lemma_named_unique(p, packet@);
                    },
                    Err(_) => {},
                }
            }
        }
        r
    }

    fn decode_exact(bytes: &[u8]) -> (r: Result<Packet, DecodeError>)
        ensures
            match r {
                Ok(packet) => packet@.wf() && packet@.wire() == bytes@,
                Err(e) => named_fault(bytes@) == Some(e),
            },
    {
        let len: usize = bytes.len();
        if len < 1 {
            return Err(DecodeError::Truncated);
        }
        let tag: u8 = bytes[0];
        if tag > 1 {
            return Err(DecodeError::UnknownDiscriminant);
        }
        let (sdri, end) = match take_sdri(bytes, 1) {
            Ok(found) => found,
            Err(e) => {
                return Err(e);
            },
        };
        if tag == 0 {
            if len > end {
                return Err(DecodeError::TrailingBytes);
            }
            let packet = Packet::Interest { sdri };
            assert(packet@.wire() =~= seq![0u8] + bytes@.subrange(1, end as int));
            assert(packet@.wire() =~= bytes@);
            Ok(packet)
        } else {
            assert(bytes@.skip(1).len() >= end - 1);
            let (data, stop) = match take_blob(bytes, end) {
                Ok(found) => found,
                Err(e) => {
                    return Err(e);
                },
            };
            if len > stop {
                return Err(DecodeError::TrailingBytes);
            }
            let packet = Packet::Data { sdri, data };
            proof {
                assert(packet@.wire() =~= seq![1u8] + bytes@.subrange(1, end as int)
                    + bytes@.subrange(end as int, stop as int));
                assert(packet@.wire() =~= bytes@);
            }
            Ok(packet)
        }
    }
}

} // verus!
