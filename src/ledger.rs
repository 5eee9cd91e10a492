use vstd::prelude::*;
use crate::cid::{ContentId, IdModel};

verus! {

/// Which way a want runs between the local node and a peer.
#[derive(Debug, PartialEq, Eq, Structural, Clone, Copy)]
pub enum Direction {
    /// The peer wants the block from us.
    PeerWants,
    /// We asked this peer for the block.
    LocalWant,
}

/// One want relationship between the local node and a peer.
#[derive(Debug)]
pub struct LedgerEntry {
    pub peer: u64,
    pub dir: Direction,
    pub id: ContentId,
}

/// Mathematical value of a ledger entry.
pub type EntryModel = (u64, Direction, IdModel);

impl View for LedgerEntry {
    type V = EntryModel;

    open spec fn view(&self) -> EntryModel {
        (self.peer, self.dir, self.id@)
    }
}

/// Per-peer bookkeeping of outstanding wants in both directions. A peer with
/// no entry has an empty record.
pub struct PeerLedger {
    entries: Vec<LedgerEntry>,
}

/// Whether some entry of `s` has the value `t`.
pub open spec fn holds_entry(s: Seq<LedgerEntry>, t: EntryModel) -> bool {
    exists|i: int| 0 <= i < s.len() && #[trigger] s[i]@ == t
}

/// The identifiers that `peer` wants from us in ledger `m`.
pub open spec fn peer_wants(m: Set<EntryModel>, peer: u64) -> Set<IdModel> {
    Set::new(|id: IdModel| m.contains((peer, Direction::PeerWants, id)))
}

/// The identifiers that we asked `peer` for in ledger `m`.
pub open spec fn local_wants(m: Set<EntryModel>, peer: u64) -> Set<IdModel> {
    Set::new(|id: IdModel| m.contains((peer, Direction::LocalWant, id)))
}

/// Ledger `m` without any entry of `peer`.
pub open spec fn without_peer(m: Set<EntryModel>, peer: u64) -> Set<EntryModel> {
    m.filter(|t: EntryModel| t.0 != peer)
}

impl View for PeerLedger {
    type V = Set<EntryModel>;

    closed spec fn view(&self) -> Set<EntryModel> {
        Set::new(|t: EntryModel| holds_entry(self.entries@, t))
    }
}

impl PeerLedger {
    pub fn new() -> (r: PeerLedger)
        ensures
            r@ == Set::<EntryModel>::empty(),
    {
        let r = PeerLedger { entries: Vec::new() };
        assert(r@ =~= Set::<EntryModel>::empty());
        r
    }

    /// Whether the ledger holds the entry (peer, dir, id).
    pub fn contains(&self, peer: u64, dir: Direction, id: &ContentId) -> (r: bool)
        ensures
            r == self@.contains((peer, dir, id@)),
    {
        let mut i: usize = 0;
        while i < self.entries.len()
            invariant
                i <= self.entries@.len(),
                forall|j: int| 0 <= j < i ==> #[trigger] self.entries@[j]@ != (peer, dir, id@),
            decreases self.entries@.len() - i,
        {
            let e = &self.entries[i];
            if e.peer == peer && e.dir == dir && e.id.equals(id) {
                assert(self.entries@[i as int]@ == (peer, dir, id@));
                assert(holds_entry(self.entries@, (peer, dir, id@)));
                return true;
            }
            i = i + 1;
        }
        false
    }

    fn record(&mut self, peer: u64, dir: Direction, id: &ContentId)
        ensures
            final(self)@ == old(self)@.insert((peer, dir, id@)),
    {
        if !self.contains(peer, dir, id) {
            self.entries.push(LedgerEntry { peer, dir, id: id.duplicate() });
            let ghost n = old(self).entries@.len() as int;
            assert forall|t: EntryModel| #[trigger] holds_entry(self.entries@, t) == old(self)@.insert(
                (peer, dir, id@),
            ).contains(t) by {
                if holds_entry(self.entries@, t) && t != (peer, dir, id@) {
                    let j = choose|j: int| 0 <= j < self.entries@.len() && #[trigger] self.entries@[j]@ == t;
                    assert(j != n);
                    assert(old(self).entries@[j]@ == t);
                }
                if old(self)@.contains(t) {
                    let j = choose|j: int| 0 <= j < old(self).entries@.len() && #[trigger] old(self).entries@[j]@ == t;
                    assert(self.entries@[j]@ == t);
                }
                if t == (peer, dir, id@) {
                    assert(self.entries@[n]@ == t);
                }
            }
        }
        assert(self@ =~= old(self)@.insert((peer, dir, id@)));
    }

    /// Drops every entry of `peer`, or, given `only`, the one entry of `peer`
    /// with that direction and identifier.
    fn retain_where(&mut self, peer: u64, only: Option<(Direction, &ContentId)>)
        ensures
            final(self)@ == old(self)@.filter(|t: EntryModel| !drops(t, peer, opt_model(only))),
    {
        let ghost sel = opt_model(only);
        let ghost o = self.entries@;
        let mut kept: Vec<LedgerEntry> = Vec::new();
        let mut i: usize = 0;
        while i < self.entries.len()
            invariant
                i <= self.entries@.len(),
                self.entries@ == o,
                self@ == old(self)@,
                sel == opt_model(only),
                forall|t: EntryModel| #[trigger] holds_entry(kept@, t) <==> (exists|j: int|
                    0 <= j < i && #[trigger] o[j]@ == t) && !drops(t, peer, sel),
            decreases self.entries@.len() - i,
        {
            let e = &self.entries[i];
            let dropped = match only {
                None => e.peer == peer,
                Some((d, id)) => e.peer == peer && e.dir == d && e.id.equals(id),
            };
            let ghost pre = kept@;
            if !dropped {
                kept.push(LedgerEntry { peer: e.peer, dir: e.dir, id: e.id.duplicate() });
            }
            proof {
                assert forall|t: EntryModel| #[trigger] holds_entry(kept@, t) <==> (exists|j: int|
                    0 <= j < i + 1 && #[trigger] o[j]@ == t) && !drops(t, peer, sel) by {
                    if holds_entry(kept@, t) {
                        let k = choose|k: int| 0 <= k < kept@.len() && #[trigger] kept@[k]@ == t;
                        if k < pre.len() {
                            assert(pre[k]@ == t);
                            assert(holds_entry(pre, t));
                        } else {
                            assert(o[i as int]@ == t);
                        }
                    }
                    if (exists|j: int| 0 <= j < i + 1 && #[trigger] o[j]@ == t) && !drops(t, peer, sel) {
                        let j = choose|j: int| 0 <= j < i + 1 && #[trigger] o[j]@ == t;
                        if j < i {
                            assert(holds_entry(pre, t));
                            let k = choose|k: int| 0 <= k < pre.len() && #[trigger] pre[k]@ == t;
                            assert(kept@[k]@ == t);
                        } else {
                            assert(kept@[pre.len() as int]@ == t);
                        }
                    }
                }
            }
            i = i + 1;
        }
        self.entries = kept;
        assert(self@ =~= old(self)@.filter(|t: EntryModel| !drops(t, peer, opt_model(only)))) by {
            assert forall|t: EntryModel| self@.contains(t) == old(self)@.filter(
                |t: EntryModel| !drops(t, peer, opt_model(only)),
            ).contains(t) by {
                if (exists|j: int| 0 <= j < o.len() && #[trigger] o[j]@ == t) {
                    assert(holds_entry(o, t));
                }
                if holds_entry(o, t) {
                    let j = choose|j: int| 0 <= j < o.len() && #[trigger] o[j]@ == t;
                    assert(o[j]@ == t);
                }
            }
        }
    }

    /// Records that `peer` wants `id` from us.
    pub fn record_peer_want(&mut self, peer: u64, id: &ContentId)
        ensures
            final(self)@ == old(self)@.insert((peer, Direction::PeerWants, id@)),
    {
        self.record(peer, Direction::PeerWants, id)
    }

    /// Forgets that `peer` wants `id` from us.
    pub fn clear_peer_want(&mut self, peer: u64, id: &ContentId)
        ensures
            final(self)@ == old(self)@.remove((peer, Direction::PeerWants, id@)),
    {
        self.retain_where(peer, Some((Direction::PeerWants, id)));
        assert(self@ =~= old(self)@.remove((peer, Direction::PeerWants, id@)));
    }

    /// Records that we asked `peer` for `id`.
    pub fn record_local_want(&mut self, peer: u64, id: &ContentId)
        ensures
            final(self)@ == old(self)@.insert((peer, Direction::LocalWant, id@)),
    {
        self.record(peer, Direction::LocalWant, id)
    }

    /// Forgets that we asked `peer` for `id`.
    pub fn clear_local_want(&mut self, peer: u64, id: &ContentId)
        ensures
            final(self)@ == old(self)@.remove((peer, Direction::LocalWant, id@)),
    {
        self.retain_where(peer, Some((Direction::LocalWant, id)));
        assert(self@ =~= old(self)@.remove((peer, Direction::LocalWant, id@)));
    }

    /// Drops every record of `peer`.
    pub fn remove_peer(&mut self, peer: u64)
        ensures
            final(self)@ == without_peer(old(self)@, peer),
    {
        self.retain_where(peer, None);
        assert(self@ =~= without_peer(old(self)@, peer));
    }
}

/// The selector of `retain_where` as a value.
pub open spec fn opt_model(only: Option<(Direction, &ContentId)>) -> Option<(Direction, IdModel)> {
    match only {
        None => None,
        Some((d, id)) => Some((d, id@)),
    }
}

/// Whether entry `t` is one that the selector drops.
pub open spec fn drops(t: EntryModel, peer: u64, sel: Option<(Direction, IdModel)>) -> bool {
    match sel {
        None => t.0 == peer,
        Some((d, id)) => t == (peer, d, id),
    }
}

} // verus!
