//! The content store: the responses that a node has seen, by identifier,
//! and the key under which a persistent store files each of them.

use crate::hbfi::bfi_wire;
use crate::hbfi::lemma_bfi_unique;
use crate::hbfi::put_bfi;
use crate::hbfi::BFI;
use crate::hbfi::HBFI;
use crate::packets::NarrowWaistPacket;
use crate::table::Table;
use crate::wire::lemma_be_order;
use crate::wire::lemma_lex_less_after_prefix;
use crate::wire::lemma_u64_be_value;
use crate::wire::lemma_u64_le_inverse;
use crate::wire::lex_less;
use crate::wire::put_u64_be;
use crate::wire::u64_be;
use crate::wire::u64_le;
use vstd::prelude::*;

verus! {

/// Length in bytes of a store key.
pub const STORE_KEY_SIZE: usize = 24;

/// Length in bytes of the part of a store key that names the object.
pub const STORE_PREFIX_SIZE: usize = 16;

/// The key of a chunk in a persistent store: the publisher's index, the
/// name's index, and the offset with its high byte first, so that the chunks
/// of one object lie together and in the order of their offsets.
pub open spec fn spec_store_key(hbfi: HBFI) -> Seq<u8> {
    bfi_wire(hbfi.id) + bfi_wire(hbfi.h1) + u64_be(hbfi.os)
}

/// The front that the keys of all chunks of one object share.
pub open spec fn spec_store_prefix(id: BFI, h1: BFI) -> Seq<u8> {
    bfi_wire(id) + bfi_wire(h1)
}

/// The store key of `hbfi`.
pub fn store_key(hbfi: &HBFI) -> (key: Vec<u8>)
    ensures
        key@ == spec_store_key(*hbfi),
        key@.len() == STORE_KEY_SIZE,
{
    let mut key: Vec<u8> = Vec::new();
    put_bfi(&mut key, &hbfi.id);
    put_bfi(&mut key, &hbfi.h1);
    put_u64_be(&mut key, hbfi.os);
    assert(key@ =~= spec_store_key(*hbfi));
    key
}

/// The front of the store keys of every chunk of the object of `hbfi`.
pub fn store_prefix(hbfi: &HBFI) -> (prefix: Vec<u8>)
    ensures
        prefix@ == spec_store_prefix(hbfi.id, hbfi.h1),
        prefix@.len() == STORE_PREFIX_SIZE,
{
    let mut prefix: Vec<u8> = Vec::new();
    put_bfi(&mut prefix, &hbfi.id);
    put_bfi(&mut prefix, &hbfi.h1);
    assert(prefix@ =~= spec_store_prefix(hbfi.id, hbfi.h1));
    prefix
}

/// Two identifiers with the same store key are the same identifier.
pub proof fn lemma_store_key_unique(a: HBFI, b: HBFI)
    requires
        spec_store_key(a) == spec_store_key(b),
    ensures
        a == b,
{
    let ka = spec_store_key(a);
    let kb = spec_store_key(b);
    assert(bfi_wire(a.id) =~= ka.subrange(0, 8));
    assert(bfi_wire(b.id) =~= kb.subrange(0, 8));
    assert(bfi_wire(a.h1) =~= ka.subrange(8, 16));
    assert(bfi_wire(b.h1) =~= kb.subrange(8, 16));
    assert(u64_be(a.os) =~= ka.subrange(16, 24));
    assert(u64_be(b.os) =~= kb.subrange(16, 24));
    lemma_bfi_unique(a.id, b.id);
    lemma_bfi_unique(a.h1, b.h1);
    assert(u64_le(a.os) =~= u64_be(a.os).reverse());
    assert(u64_le(b.os) =~= u64_be(b.os).reverse());
    lemma_u64_le_inverse(a.os, seq![]);
    lemma_u64_le_inverse(b.os, seq![]);
}

/// A store key starts with the prefix of its object, and two keys share
/// their first sixteen bytes exactly when they name chunks of one object.
pub proof fn lemma_store_key_prefix(a: HBFI, b: HBFI)
    ensures
        spec_store_key(a).take(STORE_PREFIX_SIZE as int) == spec_store_prefix(a.id, a.h1),
        spec_store_key(a).take(STORE_PREFIX_SIZE as int) == spec_store_key(b).take(
            STORE_PREFIX_SIZE as int,
        ) <==> a.id == b.id && a.h1 == b.h1,
{
    let pa = spec_store_prefix(a.id, a.h1);
    let pb = spec_store_prefix(b.id, b.h1);
    assert(spec_store_key(a).take(16) =~= pa);
    assert(spec_store_key(b).take(16) =~= pb);
    if pa == pb {
        assert(bfi_wire(a.id) =~= pa.subrange(0, 8));
        assert(bfi_wire(b.id) =~= pb.subrange(0, 8));
        assert(bfi_wire(a.h1) =~= pa.subrange(8, 16));
        assert(bfi_wire(b.h1) =~= pb.subrange(8, 16));
        lemma_bfi_unique(a.id, b.id);
        lemma_bfi_unique(a.h1, b.h1);
    }
}

/// The keys of the chunks of one object sort as their offsets do.
pub proof fn lemma_store_key_order(a: HBFI, b: HBFI)
    requires
        a.id == b.id,
        a.h1 == b.h1,
    ensures
        lex_less(spec_store_key(a), spec_store_key(b)) <==> a.os < b.os,
{
    let prefix = spec_store_prefix(a.id, a.h1);
    assert(spec_store_key(a) =~= prefix + u64_be(a.os));
    assert(spec_store_key(b) =~= prefix + u64_be(b.os));
    lemma_lex_less_after_prefix(prefix, u64_be(a.os), u64_be(b.os));
    lemma_u64_be_value(a.os);
    lemma_u64_be_value(b.os);
    lemma_be_order(u64_be(a.os), u64_be(b.os));
}

/// What a store holds after `packet` was put into it: a response takes the
/// place of whatever its identifier named; any other packet changes nothing.
pub open spec fn stored(
    held: Map<HBFI, NarrowWaistPacket>,
    packet: NarrowWaistPacket,
) -> Map<HBFI, NarrowWaistPacket> {
    if packet is Response {
        held.insert(packet.spec_hbfi(), packet)
    } else {
        held
    }
}

/// Putting the same packet twice is putting it once.
pub proof fn lemma_put_idempotent(held: Map<HBFI, NarrowWaistPacket>, packet: NarrowWaistPacket)
    ensures
        stored(stored(held, packet), packet) == stored(held, packet),
{
    assert(stored(stored(held, packet), packet) =~= stored(held, packet));
}

/// Of two responses put under one identifier, the later one stays.
pub proof fn lemma_put_last_writer_wins(
    held: Map<HBFI, NarrowWaistPacket>,
    first: NarrowWaistPacket,
    second: NarrowWaistPacket,
)
    requires
        first is Response,
        second is Response,
        first.spec_hbfi() == second.spec_hbfi(),
    ensures
        stored(stored(held, first), second) == stored(held, second),
        stored(stored(held, first), second)[second.spec_hbfi()] == second,
{
    assert(stored(stored(held, first), second) =~= stored(held, second));
}

/// A content store held in memory.
pub struct Fs {
    responses: Table<NarrowWaistPacket>,
}

impl Fs {
    /// The responses held, by identifier.
    pub closed spec fn view(&self) -> Map<HBFI, NarrowWaistPacket> {
        self.responses@
    }

    /// Every packet held is a response and is filed under its own
    /// identifier.
    pub closed spec fn wf(&self) -> bool {
        &&& self.responses.wf()
        &&& forall|k: HBFI| #[trigger]
            self.responses@.contains_key(k) ==> self.responses@[k] is Response
                && self.responses@[k].spec_hbfi() == k
    }

    /// What `wf` says of the responses held.
    pub proof fn lemma_wf(&self)
        requires
            self.wf(),
        ensures
            self@.dom().finite(),
            forall|k: HBFI| #[trigger]
                self@.contains_key(k) ==> self@[k] is Response && self@[k].spec_hbfi() == k,
    {
        self.responses.lemma_domain();
    }

    /// An empty store.
    pub fn new() -> (store: Box<Fs>)
        ensures
            store.wf(),
            store@ == Map::<HBFI, NarrowWaistPacket>::empty(),
    {
        Box::new(Fs { responses: Table::new() })
    }

    /// Number of responses held.
    pub fn len(&self) -> (n: usize)
        requires
            self.wf(),
        ensures
            n == self@.dom().len(),
    {
        self.responses.len()
    }

    /// The response held for `hbfi`, if there is one.
    pub fn has_data(&self, hbfi: &HBFI) -> (r: Option<NarrowWaistPacket>)
        requires
            self.wf(),
        ensures
            r == if self@.contains_key(*hbfi) {
                Some(self@[*hbfi])
            } else {
                None
            },
            r matches Some(p) ==> p is Response && p.spec_hbfi() == *hbfi,
    {
        match self.responses.get(hbfi) {
            Some(packet) => Some(*packet),
            None => None,
        }
    }

    /// Files a response under its identifier, in place of the one held
    /// there, if any. A request is not kept.
    pub fn put_data(&mut self, data: NarrowWaistPacket)
        requires
            old(self).wf(),
        ensures
            final(self).wf(),
            final(self)@ == stored(old(self)@, data),
    {
        match data {
            NarrowWaistPacket::Response { hbfi, .. } => {
                self.responses.insert(hbfi, data);
            },
            NarrowWaistPacket::Request { .. } => {},
        }
    }
}

} // verus!
