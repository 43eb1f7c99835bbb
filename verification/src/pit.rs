//! The pending interest table: which requests are in flight, and on which
//! links each of them was asked for.

use crate::hbfi::HBFI;
use crate::link::LinkId;
use crate::table::Table;
use vstd::prelude::*;

verus! {

/// What the table says of a request that was just recorded.
#[derive(Clone, Copy, Debug, PartialEq, Eq, Structural)]
pub enum PitOutcome {
    /// Nobody had asked before: the request has to be forwarded.
    FirstHop,
    /// The request is in flight already: nothing is to be sent.
    Duplicate,
}

/// An entry of the table as the table keeps it.
pub struct Pending {
    /// The links that asked, in the order in which they did.
    pub links: Vec<LinkId>,
    /// When the first of them asked.
    pub since: u64,
}

/// An entry of the table.
pub struct Interest {
    /// The links that asked, each once, in the order in which they did.
    pub links: Seq<LinkId>,
    /// When the first of them asked.
    pub since: u64,
}

/// The table after `from` asked for `hbfi` at `now`: a new entry with
/// `from` alone when nobody had asked, otherwise the old entry, with
/// `from` added unless it is there.
pub open spec fn recorded(
    table: Map<HBFI, Interest>,
    hbfi: HBFI,
    from: LinkId,
    now: u64,
) -> Map<HBFI, Interest> {
    if !table.contains_key(hbfi) {
        table.insert(hbfi, Interest { links: seq![from], since: now })
    } else if table[hbfi].links.contains(from) {
        table
    } else {
        table.insert(
            hbfi,
            Interest { links: table[hbfi].links.push(from), since: table[hbfi].since },
        )
    }
}

/// What recording a request for `hbfi` answers.
pub open spec fn record_outcome(table: Map<HBFI, Interest>, hbfi: HBFI) -> PitOutcome {
    if table.contains_key(hbfi) {
        PitOutcome::Duplicate
    } else {
        PitOutcome::FirstHop
    }
}

/// Whether an entry made at `since` is older than `ttl` at `now`.
pub open spec fn is_expired(since: u64, ttl: u64, now: u64) -> bool {
    now - since > ttl
}

/// The table without the entries that are older than `ttl` at `now`.
pub open spec fn unexpired(table: Map<HBFI, Interest>, ttl: u64, now: u64) -> Map<HBFI, Interest> {
    Map::new(
        |k: HBFI| table.contains_key(k) && !is_expired(table[k].since, ttl, now),
        |k: HBFI| table[k],
    )
}

/// Every entry names at least one link, and no link twice.
pub open spec fn sound(table: Map<HBFI, Interest>) -> bool {
    forall|k: HBFI| #[trigger]
        table.contains_key(k) ==> table[k].links.len() > 0 && table[k].links.no_duplicates()
}

/// Recording keeps the table sound, leaves `hbfi` pending with `from` among
/// the links that asked, and touches no other entry.
pub proof fn lemma_recorded(table: Map<HBFI, Interest>, hbfi: HBFI, from: LinkId, now: u64)
    requires
        sound(table),
    ensures
        sound(recorded(table, hbfi, from, now)),
        recorded(table, hbfi, from, now).contains_key(hbfi),
        recorded(table, hbfi, from, now)[hbfi].links.contains(from),
        forall|k: HBFI|
            k != hbfi ==> recorded(table, hbfi, from, now).contains_key(k) == table.contains_key(k)
                && (table.contains_key(k) ==> recorded(table, hbfi, from, now)[k] == table[k]),
{
    let after = recorded(table, hbfi, from, now);
    if !table.contains_key(hbfi) {
        assert(seq![from][0] == from);
    } else if !table[hbfi].links.contains(from) {
        let links = table[hbfi].links;
        assert(links.push(from)[links.len() as int] == from);
        assert(table.contains_key(hbfi));
    }
    assert forall|k: HBFI| #[trigger] after.contains_key(k) implies after[k].links.len() > 0
        && after[k].links.no_duplicates() by {
        if k != hbfi {
            assert(table.contains_key(k));
        } else {
            assert(table.contains_key(hbfi) ==> table[hbfi].links.no_duplicates());
        }
    }
}

/// Whether `link` is among `links`.
pub fn has_link(links: &Vec<LinkId>, link: &LinkId) -> (found: bool)
    ensures
        found == links@.contains(*link),
{
    let mut i: usize = 0;
    while i < links.len()
        invariant
            0 <= i <= links@.len(),
            forall|j: int| 0 <= j < i ==> links@[j] != *link,
        decreases links@.len() - i,
    {
        if links[i].equals(link) {
            return true;
        }
        i = i + 1;
    }
    false
}

/// The pending interest table of one broker.
pub struct PendingInterestTable {
    table: Table<Pending>,
    ttl: u64,
}

impl PendingInterestTable {
    /// The entries, by identifier.
    pub closed spec fn view(&self) -> Map<HBFI, Interest> {
        Map::new(
            |k: HBFI| self.table@.contains_key(k),
            |k: HBFI| Interest { links: self.table@[k].links@, since: self.table@[k].since },
        )
    }

    /// How old an entry may get.
    pub closed spec fn ttl(&self) -> u64 {
        self.ttl
    }

    /// The table is well-formed: its entries are `sound`.
    pub closed spec fn wf(&self) -> bool {
        &&& self.table.wf()
        &&& sound(self@)
    }

    /// What `wf` says of the entries.
    pub proof fn lemma_wf(&self)
        requires
            self.wf(),
        ensures
            sound(self@),
            self@.dom().finite(),
    {
        self.table.lemma_domain();
        assert(self@.dom() =~= self.table@.dom());
    }

    /// An empty table whose entries may get `ttl` old.
    pub fn new(ttl: u64) -> (pit: PendingInterestTable)
        ensures
            pit.wf(),
            pit.ttl() == ttl,
            pit@ == Map::<HBFI, Interest>::empty(),
    {
        let pit = PendingInterestTable { table: Table::new(), ttl };
        assert(pit@ =~= Map::<HBFI, Interest>::empty());
        pit
    }

    /// Number of requests in flight.
    pub fn len(&self) -> (n: usize)
        requires
            self.wf(),
        ensures
            n == self@.dom().len(),
    {
        assert(self@.dom() =~= self.table@.dom());
        self.table.len()
    }

    /// Whether a request for `hbfi` is in flight.
    pub fn is_pending(&self, hbfi: &HBFI) -> (pending: bool)
        requires
            self.wf(),
        ensures
            pending == self@.contains_key(*hbfi),
    {
        self.table.position(hbfi).is_some()
    }

    /// Notes that `from` asked for `hbfi` at `now`.
    ///
    /// `FirstHop` when nobody had asked: the entry is made with `from`
    /// alone. `Duplicate` otherwise: `from` joins the entry unless it is
    /// there already.
    pub fn record(&mut self, hbfi: HBFI, from: LinkId, now: u64) -> (outcome: PitOutcome)
        requires
            old(self).wf(),
        ensures
            final(self).wf(),
            final(self).ttl() == old(self).ttl(),
            final(self)@ == recorded(old(self)@, hbfi, from, now),
            outcome == record_outcome(old(self)@, hbfi),
    {
        proof {
            lemma_recorded(self@, hbfi, from, now);
        }
        match self.table.position(&hbfi) {
            None => {
                let mut links: Vec<LinkId> = Vec::new();
                links.push(from);
                assert(links@ =~= seq![from]);
                self.table.insert(hbfi, Pending { links, since: now });
                assert(self@ =~= recorded(old(self)@, hbfi, from, now));
                PitOutcome::FirstHop
            },
            Some(i) => {
                let known = has_link(&self.table.value_at(i).links, &from);
                if !known {
                    let entry = self.table.remove_at(i);
                    let mut pending = entry.1;
                    pending.links.push(from);
                    self.table.insert(entry.0, pending);
                    assert(self@ =~= recorded(old(self)@, hbfi, from, now));
                } else {
                    assert(self@ =~= recorded(old(self)@, hbfi, from, now));
                }
                PitOutcome::Duplicate
            },
        }
    }

    /// Takes out the entry of `hbfi` and hands back the links that asked,
    /// if any did.
    pub fn resolve(&mut self, hbfi: &HBFI) -> (r: Option<Vec<LinkId>>)
        requires
            old(self).wf(),
        ensures
            final(self).wf(),
            final(self).ttl() == old(self).ttl(),
            final(self)@ == old(self)@.remove(*hbfi),
            r is Some <==> old(self)@.contains_key(*hbfi),
            r matches Some(links) ==> links@ == old(self)@[*hbfi].links && links@.len() > 0
                && links@.no_duplicates(),
    {
        let taken = self.table.remove(hbfi);
        proof {
            assert(self@ =~= old(self)@.remove(*hbfi));
            assert forall|k: HBFI| #[trigger] self@.contains_key(k) implies self@[k].links.len() > 0
                && self@[k].links.no_duplicates() by {
                assert(old(self)@.contains_key(k));
            }
            if old(self)@.contains_key(*hbfi) {
                assert(old(self)@[*hbfi].links.len() > 0);
            }
        }
        match taken {
            Some(pending) => Some(pending.links),
            None => None,
        }
    }

    /// Drops the entries that are older than the table's `ttl` at `now`.
    pub fn expire(&mut self, now: u64)
        requires
            old(self).wf(),
        ensures
            final(self).wf(),
            final(self).ttl() == old(self).ttl(),
            final(self)@ == unexpired(old(self)@, old(self).ttl(), now),
    {
        let ttl: u64 = self.ttl;
        let mut i: usize = 0;
        while i < self.table.len()
            invariant
                self.table.wf(),
                self.ttl == ttl,
                ttl == old(self).ttl,
                0 <= i <= self.table.keys().len(),
                forall|k: HBFI| #[trigger]
                    self.table@.contains_key(k) ==> old(self).table@.contains_key(k)
                        && self.table@[k] == old(self).table@[k],
                forall|k: HBFI| #[trigger]
                    old(self).table@.contains_key(k) && !is_expired(
                        old(self).table@[k].since,
                        ttl,
                        now,
                    ) ==> self.table@.contains_key(k),
                forall|j: int|
                    0 <= j < i ==> !is_expired((#[trigger] self.table.values()[j]).since, ttl, now),
            decreases self.table.keys().len() - i,
        {
            let since: u64 = self.table.value_at(i).since;
            if now > since && now - since > ttl {
                let ghost before = self.table;
                proof {
                    before.lemma_entry(i as int);
                }
                let _ = self.table.remove_at(i);
                assert forall|j: int| 0 <= j < i implies !is_expired(
                    (#[trigger] self.table.values()[j]).since,
                    ttl,
                    now,
                ) by {
                    assert(self.table.values()[j] == before.values()[j]);
                }
            } else {
                i = i + 1;
            }
        }
        proof {
            let target = unexpired(old(self)@, ttl, now);
            assert forall|k: HBFI| self@.contains_key(k) implies target.contains_key(k) by {
                assert(self.table.keys().contains(k));
                let j = self.table.keys().index_of(k);
                assert(0 <= j < self.table.keys().len() && self.table.keys()[j] == k);
                self.table.lemma_entry(j);
                assert(self.table.values()[j] == self.table@[k]);
                assert(old(self).table@.contains_key(k));
            }
            assert forall|k: HBFI| target.contains_key(k) implies self@.contains_key(k) by {
                assert(old(self).table@.contains_key(k));
            }
            assert forall|k: HBFI| self@.contains_key(k) implies #[trigger] self@[k]
                == target[k] by {
                assert(self.table@.contains_key(k));
            }
            assert(self@ =~= target);
            assert forall|k: HBFI| #[trigger] self@.contains_key(k) implies self@[k].links.len() > 0
                && self@[k].links.no_duplicates() by {
                assert(old(self)@.contains_key(k));
            }
        }
    }
}

} // verus!
