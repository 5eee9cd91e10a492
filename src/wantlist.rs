use vstd::prelude::*;
use crate::cid::{ContentId, IdModel};

verus! {

/// What a want asks for: the block itself, or only whether the peer has it.
#[derive(Debug, PartialEq, Eq, Structural, Clone, Copy)]
pub enum WantType {
    FullBlock,
    PresenceOnly,
}

/// One outstanding want of the local node.
#[derive(Debug)]
pub struct WantRecord {
    pub id: ContentId,
    pub priority: i32,
    pub want_type: WantType,
}

impl WantRecord {
    pub open spec fn entry(&self) -> (i32, WantType) {
        (self.priority, self.want_type)
    }

    /// An independent copy of the record.
    pub fn duplicate(&self) -> (r: WantRecord)
        ensures
            r.id@ == self.id@,
            r.priority == self.priority,
            r.want_type == self.want_type,
    {
        WantRecord { id: self.id.duplicate(), priority: self.priority, want_type: self.want_type }
    }
}

/// The local node's outstanding wants, at most one per identifier.
pub struct WantList {
    entries: Vec<WantRecord>,
    model: Ghost<Map<IdModel, (i32, WantType)>>,
}

impl View for WantList {
    type V = Map<IdModel, (i32, WantType)>;

    closed spec fn view(&self) -> Map<IdModel, (i32, WantType)> {
        self.model@
    }
}

impl WantList {
    /// Identifiers are unique among the records, and the records are the map.
    pub closed spec fn wf(&self) -> bool {
        &&& forall|i: int, j: int|
            0 <= i < j < self.entries@.len() ==> self.entries@[i].id@ != self.entries@[j].id@
        &&& forall|i: int|
            0 <= i < self.entries@.len() ==> #[trigger] self.model@.contains_key(
                self.entries@[i].id@,
            ) && self.model@[self.entries@[i].id@] == self.entries@[i].entry()
        &&& forall|k: IdModel|
            #[trigger] self.model@.contains_key(k) ==> exists|i: int|
                0 <= i < self.entries@.len() && self.entries@[i].id@ == k
    }

    pub fn new() -> (r: WantList)
        ensures
            r.wf(),
            r@ == Map::<IdModel, (i32, WantType)>::empty(),
    {
        WantList { entries: Vec::new(), model: Ghost(Map::empty()) }
    }

    /// Position of the record for `id`, if there is one.
    fn find(&self, id: &ContentId) -> (r: Option<usize>)
        requires
            self.wf(),
        ensures
            r is None <==> !self@.contains_key(id@),
            r matches Some(i) ==> i < self.entries@.len() && self.entries@[i as int].id@ == id@,
    {
        let mut i: usize = 0;
        while i < self.entries.len()
            invariant
                self.wf(),
                i <= self.entries@.len(),
                forall|j: int| 0 <= j < i ==> self.entries@[j].id@ != id@,
            decreases self.entries@.len() - i,
        {
            if self.entries[i].id.equals(id) {
                return Some(i);
            }
            i = i + 1;
        }
        None
    }

    /// Whether `id` is wanted.
    pub fn contains(&self, id: &ContentId) -> (r: bool)
        requires
            self.wf(),
        ensures
            r == self@.contains_key(id@),
    {
        self.find(id).is_some()
    }

    /// The record of `id`, as (priority, want type), if it is wanted.
    pub fn get(&self, id: &ContentId) -> (r: Option<(i32, WantType)>)
        requires
            self.wf(),
        ensures
            r is None <==> !self@.contains_key(id@),
            r matches Some(e) ==> self@[id@] == e,
    {
        match self.find(id) {
            Some(i) => Some((self.entries[i].priority, self.entries[i].want_type)),
            None => None,
        }
    }

    /// Number of outstanding wants.
    pub fn len(&self) -> (r: usize)
        requires
            self.wf(),
        ensures
            r == self@.len(),
    {
        proof { self.lemma_len(); }
        self.entries.len()
    }

    /// A well-formed want list is a finite map.
    pub proof fn lemma_finite(&self)
        requires
            self.wf(),
        ensures
            self@.dom().finite(),
    {
        self.lemma_len();
    }

    proof fn lemma_len(&self)
        requires
            self.wf(),
        ensures
            self@.len() == self.entries@.len(),
            self@.dom().finite(),
    {
        let ids = self.entries@.map_values(|e: WantRecord| e.id@);
        assert(ids.no_duplicates()) by {
            assert forall|i: int, j: int| 0 <= i < ids.len() && 0 <= j < ids.len() && i != j
                implies ids[i] != ids[j] by {
                if i < j {
                } else {
                }
            }
        }
        assert(self@.dom() =~= ids.to_set()) by {
            assert forall|k: IdModel| self@.dom().contains(k) implies ids.to_set().contains(k) by {
                let i = choose|i: int| 0 <= i < self.entries@.len() && self.entries@[i].id@ == k;
                assert(ids[i] == k);
            }
            assert forall|k: IdModel| ids.to_set().contains(k) implies self@.dom().contains(k) by {
                let i = choose|i: int| 0 <= i < ids.len() && ids[i] == k;
                assert(self.model@.contains_key(self.entries@[i].id@));
            }
        }
        ids.unique_seq_to_set();
    }

    /// A copy of the records, highest priority first.
    pub fn snapshot(&self) -> (r: Vec<WantRecord>)
        requires
            self.wf(),
        ensures
            r@.len() == self@.len(),
            forall|i: int| #![trigger r@[i]]
                0 <= i < r@.len() ==> self@.contains_key(r@[i].id@) && self@[r@[i].id@] == r@[i].entry(),
            forall|i: int, j: int| 0 <= i < j < r@.len() ==> r@[i].id@ != r@[j].id@,
            forall|i: int, j: int| 0 <= i < j < r@.len() ==> r@[i].priority >= r@[j].priority,
    {
        proof { self.lemma_len(); }
        let mut out: Vec<WantRecord> = Vec::new();
        let mut i: usize = 0;
        while i < self.entries.len()
            invariant
                self.wf(),
                i <= self.entries@.len(),
                out@.len() == i,
                forall|k: int| #![trigger out@[k]]
                    0 <= k < out@.len() ==> exists|j: int|
                        0 <= j < i && out@[k].id@ == self.entries@[j].id@ && out@[k].entry()
                            == self.entries@[j].entry(),
                forall|a: int, b: int| 0 <= a < b < out@.len() ==> out@[a].id@ != out@[b].id@,
                forall|a: int, b: int| 0 <= a < b < out@.len() ==> out@[a].priority >= out@[b].priority,
            decreases self.entries@.len() - i,
        {
            let rec = self.entries[i].duplicate();
            let mut pos: usize = 0;
            while pos < out.len() && out[pos].priority >= rec.priority
                invariant
                    pos <= out@.len(),
                    forall|k: int| 0 <= k < pos ==> out@[k].priority >= rec.priority,
                decreases out@.len() - pos,
            {
                pos = pos + 1;
            }
            let ghost o = out@;
            let ghost e = self.entries@;
            out.insert(pos, rec);
            proof {
                let n = out@;
                assert forall|k: int| 0 <= k < n.len() implies n[k] == (if k < pos {
                    o[k]
                } else if k == pos {
                    n[pos as int]
                } else {
                    o[k - 1]
                }) by {}
                assert(n[pos as int].id@ == e[i as int].id@ && n[pos as int].entry() == e[i as int].entry());
                assert forall|k: int| #![trigger n[k]] 0 <= k < n.len() implies exists|j: int|
                    0 <= j < i + 1 && n[k].id@ == e[j].id@ && n[k].entry() == e[j].entry() by {
                    if k < pos {
                        assert(o[k] == n[k]);
                    } else if k > pos {
                        assert(o[k - 1] == n[k]);
                    } else {
                        assert(n[k].id@ == e[i as int].id@);
                    }
                }
                assert forall|k: int| 0 <= k < o.len() implies o[k].id@ != e[i as int].id@ by {
                    assert(exists|j: int| 0 <= j < i && o[k].id@ == e[j].id@ && o[k].entry() == e[j].entry());
                }
                assert forall|a: int, b: int| 0 <= a < b < n.len() implies n[a].id@ != n[b].id@ by {
                    if a < pos && b > pos {
                        assert(o[a].id@ != o[b - 1].id@);
                    } else if a > pos {
                        assert(o[a - 1].id@ != o[b - 1].id@);
                    } else if b < pos {
                        assert(o[a].id@ != o[b].id@);
                    } else if a == pos {
                        assert(o[b - 1].id@ != e[i as int].id@);
                    } else {
                        assert(o[a].id@ != e[i as int].id@);
                    }
                }
                assert forall|a: int, b: int| 0 <= a < b < n.len() implies n[a].priority >= n[b].priority by {
                    if pos < o.len() {
                        assert(o[pos as int].priority < n[pos as int].priority);
                    }
                    if a < pos && b > pos {
                        assert(o[a].priority >= o[b - 1].priority);
                    } else if a > pos {
                        assert(o[a - 1].priority >= o[b - 1].priority);
                    } else if b < pos {
                        assert(o[a].priority >= o[b].priority);
                    } else if a == pos {
                        if b - 1 > pos {
                            assert(o[pos as int].priority >= o[b - 1].priority);
                        }
                    } else {
                    }
                }
            }
            i = i + 1;
        }
        proof {
            assert forall|k: int| #![trigger out@[k]] 0 <= k < out@.len() implies self@.contains_key(out@[k].id@)
                && self@[out@[k].id@] == out@[k].entry() by {
                let j = choose|j: int|
                    0 <= j < self.entries@.len() && out@[k].id@ == self.entries@[j].id@ && out@[k].entry()
                        == self.entries@[j].entry();
                assert(self.model@.contains_key(self.entries@[j].id@));
            }
        }
        out
    }

    /// Records a want; a second want of the same identifier replaces its
    /// priority and type. Returns whether the identifier was not wanted before.
    pub fn insert(&mut self, id: ContentId, priority: i32, want_type: WantType) -> (r: bool)
        requires
            old(self).wf(),
        ensures
            final(self).wf(),
            final(self)@ == old(self)@.insert(id@, (priority, want_type)),
            final(self)@.len() == old(self)@.len() + if old(self)@.contains_key(id@) {
                0int
            } else {
                1int
            },
            r == !old(self)@.contains_key(id@),
    {
        proof { old(self).lemma_len(); }
        let key = Ghost(id@);
        match self.find(&id) {
            Some(i) => {
                let rec = WantRecord { id, priority, want_type };
                self.entries.set(i, rec);
                self.model = Ghost(self.model@.insert(key@, (priority, want_type)));
                proof {
                    let o = old(self).entries@;
                    let e = self.entries@;
                    assert forall|j: int| 0 <= j < e.len() implies e[j].id@ == o[j].id@ by {}
                    assert forall|j: int| 0 <= j < e.len() implies #[trigger] self.model@.contains_key(e[j].id@)
                        && self.model@[e[j].id@] == e[j].entry() by {
                        if j != i {
                            assert(o[j].id@ != o[i as int].id@);
                            assert(old(self).model@.contains_key(o[j].id@));
                        }
                    }
                    assert forall|k: IdModel| #[trigger] self.model@.contains_key(k) implies exists|j: int|
                        0 <= j < self.entries@.len() && self.entries@[j].id@ == k by {
                        if k != key@ {
                            let j = choose|j: int| 0 <= j < old(self).entries@.len() && old(self).entries@[j].id@ == k;
                            assert(self.entries@[j].id@ == k);
                        } else {
                            assert(self.entries@[i as int].id@ == k);
                        }
                    }
                    assert forall|a: int, b: int| 0 <= a < b < e.len() implies e[a].id@ != e[b].id@ by {
                        assert(o[a].id@ != o[b].id@);
                    }
                    assert(self.wf());
                    self.lemma_len();
                }
                false
            },
            None => {
                let rec = WantRecord { id, priority, want_type };
                self.entries.push(rec);
                self.model = Ghost(self.model@.insert(key@, (priority, want_type)));
                proof {
                    let n = old(self).entries@.len() as int;
                    let o = old(self).entries@;
                    let e = self.entries@;
                    assert forall|j: int| 0 <= j < e.len() implies #[trigger] self.model@.contains_key(e[j].id@)
                        && self.model@[e[j].id@] == e[j].entry() by {
                        if j < n {
                            assert(e[j] == o[j]);
                            assert(old(self).model@.contains_key(o[j].id@));
                        }
                    }
                    assert forall|k: IdModel| #[trigger] self.model@.contains_key(k) implies exists|j: int|
                        0 <= j < self.entries@.len() && self.entries@[j].id@ == k by {
                        if k != key@ {
                            let j = choose|j: int| 0 <= j < old(self).entries@.len() && old(self).entries@[j].id@ == k;
                            assert(self.entries@[j].id@ == k);
                        } else {
                            assert(self.entries@[n].id@ == k);
                        }
                    }
                    assert forall|a: int, b: int| 0 <= a < b < self.entries@.len() implies
                        self.entries@[a].id@ != self.entries@[b].id@ by {
                        if b == n {
                            assert(old(self).model@.contains_key(old(self).entries@[a].id@));
                        }
                    }
                    assert(self.wf());
                    self.lemma_len();
                }
                true
            },
        }
    }

    /// Drops the want of `id`; returns whether there was one.
    pub fn remove(&mut self, id: &ContentId) -> (r: bool)
        requires
            old(self).wf(),
        ensures
            final(self).wf(),
            final(self)@ == old(self)@.remove(id@),
            r == old(self)@.contains_key(id@),
    {
        match self.find(id) {
            Some(i) => {
                let ghost key = id@;
                let _gone = self.entries.remove(i);
                self.model = Ghost(self.model@.remove(key));
                proof {
                    let o = old(self).entries@;
                    let e = self.entries@;
                    assert forall|j: int| 0 <= j < e.len() implies e[j] == o[if j < i { j } else { j + 1 }] by {}
                    assert forall|a: int, b: int| 0 <= a < b < e.len() implies e[a].id@ != e[b].id@ by {
                        let oa = if a < i { a } else { a + 1 };
                        let ob = if b < i { b } else { b + 1 };
                        assert(o[oa].id@ != o[ob].id@);
                    }
                    assert forall|j: int| 0 <= j < e.len() implies #[trigger] self.model@.contains_key(e[j].id@)
                        && self.model@[e[j].id@] == e[j].entry() by {
                        let oj = if j < i { j } else { j + 1 };
                        assert(o[oj].id@ != o[i as int].id@);
                        assert(old(self).model@.contains_key(o[oj].id@));
                    }
                    assert forall|k: IdModel| #[trigger] self.model@.contains_key(k) implies exists|j: int|
                        0 <= j < e.len() && e[j].id@ == k by {
                        let oj = choose|j: int| 0 <= j < o.len() && o[j].id@ == k;
                        assert(oj != i);
                        if oj < i {
                            assert(e[oj].id@ == k);
                        } else {
                            assert(e[oj - 1].id@ == k);
                        }
                    }
                }
                true
            },
            None => {
                proof {
                    assert(self@ =~= old(self)@.remove(id@));
                }
                false
            },
        }
    }
}


/// Wanting an identifier twice leaves one record for it, with the later
/// priority and type.
pub proof fn lemma_rewant_replaces(
    m: Map<IdModel, (i32, WantType)>,
    id: IdModel,
    p1: i32,
    t1: WantType,
    p2: i32,
    t2: WantType,
)
    ensures
        m.insert(id, (p1, t1)).insert(id, (p2, t2)) == m.insert(id, (p2, t2)),
        m.insert(id, (p1, t1)).insert(id, (p2, t2))[id] == (p2, t2),
        m.insert(id, (p1, t1)).insert(id, (p2, t2)).dom() == m.dom().insert(id),
        m.dom().finite() ==> m.insert(id, (p1, t1)).insert(id, (p2, t2)).len() == m.remove(id).len() + 1,
        m.dom().finite() ==> m.insert(id, (p1, t1)).insert(id, (p2, t2)).len() == m.len() + if m.contains_key(
            id,
        ) {
            0int
        } else {
            1int
        },
{
    assert(m.insert(id, (p1, t1)).insert(id, (p2, t2)) =~= m.insert(id, (p2, t2)));
    assert(m.insert(id, (p2, t2)).dom() =~= m.dom().insert(id));
    if m.dom().finite() {
        assert(m.insert(id, (p2, t2)) =~= m.remove(id).insert(id, (p2, t2)));
    }
}

} // verus!
