use vstd::prelude::*;
use crate::block::IntegrityError;
use crate::cid::{ContentId, IdModel, verifies, copy_bytes};
use crate::ledger::{Direction, EntryModel, PeerLedger};
use crate::wantlist::{WantList, WantType};

verus! {

/// An outbound instruction for the transport or the block store.
#[derive(Debug)]
pub enum Action {
    SendWant { peer: u64, id: ContentId, priority: i32, want_type: WantType },
    SendBlock { peer: u64, id: ContentId, payload: Vec<u8> },
    SendCancel { peer: u64, id: ContentId },
    StoreBlock { id: ContentId, payload: Vec<u8> },
}

/// Mathematical value of an action.
pub enum ActionModel {
    SendWant(u64, IdModel, i32, WantType),
    SendBlock(u64, IdModel, Seq<u8>),
    SendCancel(u64, IdModel),
    StoreBlock(IdModel, Seq<u8>),
}

impl View for Action {
    type V = ActionModel;

    open spec fn view(&self) -> ActionModel {
        match self {
            Action::SendWant { peer, id, priority, want_type } => ActionModel::SendWant(
                *peer,
                id@,
                *priority,
                *want_type,
            ),
            Action::SendBlock { peer, id, payload } => ActionModel::SendBlock(*peer, id@, payload@),
            Action::SendCancel { peer, id } => ActionModel::SendCancel(*peer, id@),
            Action::StoreBlock { id, payload } => ActionModel::StoreBlock(id@, payload@),
        }
    }
}

/// What the engine tells the application.
#[derive(Debug)]
pub enum Event {
    BlockReceived { peer: u64, id: ContentId, payload: Vec<u8> },
    WantReceived { peer: u64, id: ContentId, priority: i32 },
    CancelReceived { peer: u64, id: ContentId },
    /// The transport could not deliver this action.
    SendFailure { action: Action },
}

/// Mathematical value of an event.
pub enum EventModel {
    BlockReceived(u64, IdModel, Seq<u8>),
    WantReceived(u64, IdModel, i32),
    CancelReceived(u64, IdModel),
    SendFailure(ActionModel),
}

impl View for Event {
    type V = EventModel;

    open spec fn view(&self) -> EventModel {
        match self {
            Event::BlockReceived { peer, id, payload } => EventModel::BlockReceived(*peer, id@, payload@),
            Event::WantReceived { peer, id, priority } => EventModel::WantReceived(*peer, id@, *priority),
            Event::CancelReceived { peer, id } => EventModel::CancelReceived(*peer, id@),
            Event::SendFailure { action } => EventModel::SendFailure(action@),
        }
    }
}

/// The outcome of handling one inbound message.
#[derive(Debug)]
pub struct Step {
    pub actions: Vec<Action>,
    pub events: Vec<Event>,
}

pub open spec fn actions_model(a: Seq<Action>) -> Seq<ActionModel> {
    a.map_values(|x: Action| x@)
}

pub open spec fn events_model(e: Seq<Event>) -> Seq<EventModel> {
    e.map_values(|x: Event| x@)
}

/// The engine's state as values: wanted identifiers, the ledger, connected peers.
pub struct EngineModel {
    pub wants: Map<IdModel, (i32, WantType)>,
    pub ledger: Set<EntryModel>,
    pub peers: Seq<u64>,
}

/// `s` with `peer` among the connected peers.
pub open spec fn with_peer(s: EngineModel, peer: u64) -> EngineModel {
    if s.peers.contains(peer) {
        s
    } else {
        EngineModel { peers: s.peers.push(peer), ..s }
    }
}

/// Whether a want call changes what is wanted, and so is sent out.
pub open spec fn changes_want(s: EngineModel, id: IdModel, priority: i32, want_type: WantType) -> bool {
    !s.wants.contains_key(id) || s.wants[id] != (priority, want_type)
}

/// The connected peers whose ledger holds (peer, dir, id), but for `skip`, in
/// order of connection.
pub open spec fn fan_targets(s: EngineModel, dir: Direction, id: IdModel, skip: Option<u64>) -> Seq<u64> {
    targets_in(s.peers, s.ledger, dir, id, skip)
}

/// The peers of `peers` whose ledger holds (peer, dir, id), but for `skip`.
pub open spec fn targets_in(
    peers: Seq<u64>,
    ledger: Set<EntryModel>,
    dir: Direction,
    id: IdModel,
    skip: Option<u64>,
) -> Seq<u64> {
    peers.filter(|p: u64| ledger.contains((p, dir, id)) && skip != Some(p))
}

/// The settling messages toward each of `targets`.
pub open spec fn settle_msgs(targets: Seq<u64>, dir: Direction, id: IdModel, payload: Seq<u8>) -> Seq<ActionModel> {
    targets.map_values(|p: u64| settle_action(dir, p, id, payload))
}

/// Wants of `id` toward each of `peers`.
pub open spec fn want_msgs(peers: Seq<u64>, id: IdModel, priority: i32, want_type: WantType) -> Seq<ActionModel> {
    peers.map_values(|p: u64| ActionModel::SendWant(p, id, priority, want_type))
}

/// Local wants of `id` toward each of `peers`.
pub open spec fn local_wants_toward(peers: Seq<u64>, id: IdModel) -> Set<EntryModel> {
    Set::new(|t: EntryModel| t.1 == Direction::LocalWant && t.2 == id && peers.contains(t.0))
}

/// `peers` without `peer`.
pub open spec fn others(peers: Seq<u64>, peer: u64) -> Seq<u64> {
    peers.filter(other_than(peer))
}

/// Holds of every peer but `peer`.
pub open spec fn other_than(peer: u64) -> spec_fn(u64) -> bool {
    |q: u64| q != peer
}

/// The message that settles a want of direction `dir` with `peer`.
pub open spec fn settle_action(dir: Direction, peer: u64, id: IdModel, payload: Seq<u8>) -> ActionModel {
    match dir {
        Direction::LocalWant => ActionModel::SendCancel(peer, id),
        Direction::PeerWants => ActionModel::SendBlock(peer, id, payload),
    }
}

pub open spec fn settle_actions(
    s: EngineModel,
    dir: Direction,
    id: IdModel,
    skip: Option<u64>,
    payload: Seq<u8>,
) -> Seq<ActionModel> {
    settle_msgs(fan_targets(s, dir, id, skip), dir, id, payload)
}

/// Ledger `l` without any entry of direction `dir` for `id`.
pub open spec fn cleared(l: Set<EntryModel>, dir: Direction, id: IdModel) -> Set<EntryModel> {
    l.filter(|t: EntryModel| !(t.1 == dir && t.2 == id))
}

/// State after the application wants `id`.
pub open spec fn after_want(s: EngineModel, id: IdModel, priority: i32, want_type: WantType) -> EngineModel {
    EngineModel {
        wants: s.wants.insert(id, (priority, want_type)),
        ledger: if changes_want(s, id, priority, want_type) {
            s.ledger.union(local_wants_toward(s.peers, id))
        } else {
            s.ledger
        },
        peers: s.peers,
    }
}

/// Messages sent when the application wants `id`.
pub open spec fn want_actions(s: EngineModel, id: IdModel, priority: i32, want_type: WantType) -> Seq<ActionModel> {
    if changes_want(s, id, priority, want_type) {
        want_msgs(s.peers, id, priority, want_type)
    } else {
        Seq::empty()
    }
}

/// State after the application cancels `id`.
pub open spec fn after_cancel(s: EngineModel, id: IdModel) -> EngineModel {
    EngineModel { wants: s.wants.remove(id), ledger: cleared(s.ledger, Direction::LocalWant, id), peers: s.peers }
}

/// State after `peer` wants `id`; `served` tells whether the store had it.
pub open spec fn after_peer_want(s: EngineModel, peer: u64, id: IdModel, served: bool) -> EngineModel {
    let c = with_peer(s, peer);
    EngineModel {
        ledger: if served {
            c.ledger.remove((peer, Direction::PeerWants, id))
        } else {
            c.ledger.insert((peer, Direction::PeerWants, id))
        },
        ..c
    }
}

/// The value of an optional payload.
pub open spec fn opt_bytes(b: Option<Vec<u8>>) -> Option<Seq<u8>> {
    match b {
        Some(v) => Some(v@),
        None => None,
    }
}

/// The answer to a want of `id` from `peer`, given what the block store holds.
pub open spec fn want_reply(peer: u64, id: IdModel, stored: Option<Seq<u8>>) -> Seq<ActionModel> {
    match stored {
        Some(b) => seq![ActionModel::SendBlock(peer, id, b)],
        None => Seq::empty(),
    }
}

/// A state that an engine can be in: each peer is connected once, and the
/// ledger names connected peers only.
pub open spec fn consistent(s: EngineModel) -> bool {
    &&& s.peers.no_duplicates()
    &&& forall|t: EntryModel| #[trigger] s.ledger.contains(t) ==> s.peers.contains(t.0)
}

/// State after the transport reports that `failed` could not be delivered:
/// a want that did not reach its peer is no longer counted as sent to it.
pub open spec fn after_send_failed(s: EngineModel, failed: ActionModel) -> EngineModel {
    match failed {
        ActionModel::SendWant(peer, id, _, _) => EngineModel {
            ledger: s.ledger.remove((peer, Direction::LocalWant, id)),
            ..s
        },
        _ => s,
    }
}

/// State after `peer` cancels its want of `id`.
pub open spec fn after_peer_cancel(s: EngineModel, peer: u64, id: IdModel) -> EngineModel {
    let c = with_peer(s, peer);
    EngineModel { ledger: c.ledger.remove((peer, Direction::PeerWants, id)), ..c }
}

/// State after a verified block for `id` arrives from `peer`.
pub open spec fn after_block(s: EngineModel, peer: u64, id: IdModel) -> EngineModel {
    let c = with_peer(s, peer);
    if c.wants.contains_key(id) {
        EngineModel { wants: c.wants.remove(id), ledger: cleared(c.ledger, Direction::LocalWant, id), peers: c.peers }
    } else {
        c
    }
}

/// Messages sent when a verified block for `id` arrives from `peer`.
pub open spec fn block_actions(s: EngineModel, peer: u64, id: IdModel, payload: Seq<u8>) -> Seq<ActionModel> {
    let c = with_peer(s, peer);
    if c.wants.contains_key(id) {
        seq![ActionModel::StoreBlock(id, payload)] + settle_actions(c, Direction::LocalWant, id, Some(peer), payload)
    } else {
        Seq::empty()
    }
}

/// What the application hears when a verified block for `id` arrives from `peer`.
pub open spec fn block_events(s: EngineModel, peer: u64, id: IdModel, payload: Seq<u8>) -> Seq<EventModel> {
    if s.wants.contains_key(id) {
        seq![EventModel::BlockReceived(peer, id, payload)]
    } else {
        Seq::empty()
    }
}

/// State after `peer` disconnects.
pub open spec fn after_disconnect(s: EngineModel, peer: u64) -> EngineModel {
    EngineModel {
        wants: s.wants,
        ledger: crate::ledger::without_peer(s.ledger, peer),
        peers: others(s.peers, peer),
    }
}

/// The protocol engine of one local node.
pub struct ExchangeEngine {
    wants: WantList,
    ledger: PeerLedger,
    peers: Vec<u64>,
}

impl View for ExchangeEngine {
    type V = EngineModel;

    closed spec fn view(&self) -> EngineModel {
        EngineModel { wants: self.wants@, ledger: self.ledger@, peers: self.peers@ }
    }
}

proof fn lemma_filter_no_duplicates(s: Seq<u64>, pred: spec_fn(u64) -> bool)
    requires
        s.no_duplicates(),
    ensures
        s.filter(pred).no_duplicates(),
        forall|x: u64| s.filter(pred).contains(x) <==> s.contains(x) && pred(x),
    decreases s.len(),
{
    reveal(Seq::filter);
    broadcast use Seq::lemma_filter_contains_rev, Seq::lemma_filter_contains;
    if s.len() > 0 {
        let d = s.drop_last();
        assert(d.no_duplicates()) by {
            assert forall|i: int, j: int| 0 <= i < d.len() && 0 <= j < d.len() && i != j implies d[i] != d[j] by {
                assert(d[i] == s[i] && d[j] == s[j]);
            }
        }
        lemma_filter_no_duplicates(d, pred);
        assert(!d.contains(s.last())) by {
            if d.contains(s.last()) {
                let k = choose|k: int| 0 <= k < d.len() && d[k] == s.last();
                assert(s[k] == s[s.len() - 1]);
            }
        }
        assert(s =~= d.push(s.last()));
        let f = d.filter(pred);
        if pred(s.last()) {
            let g = f.push(s.last());
            assert forall|i: int, j: int| 0 <= i < g.len() && 0 <= j < g.len() && i != j implies g[i] != g[j] by {
                if i == f.len() as int {
                    assert(f.contains(f[j]) || j == f.len() as int);
                } else if j == f.len() as int {
                    assert(f.contains(f[i]));
                }
            }
        }
        assert forall|x: u64| s.filter(pred).contains(x) <==> s.contains(x) && pred(x) by {
            if s.contains(x) && x != s.last() {
                let k = choose|k: int| 0 <= k < s.len() && s[k] == x;
                assert(d[k] == x);
            }
            if d.contains(x) {
                let k = choose|k: int| 0 <= k < d.len() && d[k] == x;
                assert(s[k] == x);
            }
            if pred(s.last()) {
                assert(f.push(s.last())[f.len() as int] == s.last());
                if f.contains(x) {
                    let k = choose|k: int| 0 <= k < f.len() && f[k] == x;
                    assert(f.push(s.last())[k] == x);
                }
            }
            assert(s[s.len() - 1] == s.last());
        }
    }
}

proof fn lemma_others(peers: Seq<u64>, peer: u64)
    requires
        peers.no_duplicates(),
    ensures
        others(peers, peer).no_duplicates(),
        forall|x: u64| #[trigger] others(peers, peer).contains(x) <==> peers.contains(x) && x != peer,
{
    lemma_filter_no_duplicates(peers, other_than(peer));
}

impl ExchangeEngine {
    /// The engine is consistent: the want list is well formed, each peer is
    /// connected once, and the ledger names connected peers only.
    pub closed spec fn wf(&self) -> bool {
        &&& self.wants.wf()
        &&& self.peers@.no_duplicates()
        &&& forall|t: EntryModel| #[trigger] self.ledger@.contains(t) ==> self.peers@.contains(t.0)
    }

    /// An engine with no wants, no peers and an empty ledger.
    pub fn new() -> (r: ExchangeEngine)
        ensures
            r.wf(),
            r@.wants == Map::<IdModel, (i32, WantType)>::empty(),
            r@.ledger == Set::<EntryModel>::empty(),
            r@.peers == Seq::<u64>::empty(),
    {
        ExchangeEngine { wants: WantList::new(), ledger: PeerLedger::new(), peers: Vec::new() }
    }

    fn is_connected(&self, peer: u64) -> (r: bool)
        ensures
            r == self.peers@.contains(peer),
    {
        let mut i: usize = 0;
        while i < self.peers.len()
            invariant
                i <= self.peers@.len(),
                forall|j: int| 0 <= j < i ==> self.peers@[j] != peer,
            decreases self.peers@.len() - i,
        {
            if self.peers[i] == peer {
                return true;
            }
            i = i + 1;
        }
        false
    }

    /// Registers a connection to `peer`; nothing is sent.
    pub fn peer_connected(&mut self, peer: u64)
        requires
            old(self).wf(),
        ensures
            final(self).wf(),
            final(self)@ == with_peer(old(self)@, peer),
    {
        if !self.is_connected(peer) {
            self.peers.push(peer);
            proof {
                let o = old(self).peers@;
                let n = self.peers@;
                assert forall|i: int, j: int| 0 <= i < n.len() && 0 <= j < n.len() && i != j implies n[i] != n[j] by {
                    if i == o.len() as int {
                        assert(o.contains(n[j]) || j == o.len() as int);
                    } else if j == o.len() as int {
                        assert(o.contains(n[i]));
                    }
                }
                assert forall|t: EntryModel| #[trigger] self.ledger@.contains(t) implies self.peers@.contains(t.0) by {
                    let k = choose|k: int| 0 <= k < o.len() && o[k] == t.0;
                    assert(n[k] == t.0);
                }
            }
        }
        proof {
            if old(self).peers@.contains(peer) {
                assert(self@ == old(self)@);
            }
        }
    }

    /// Whether the application still wants `id`.
    pub fn is_wanted(&self, id: &ContentId) -> (r: bool)
        requires
            self.wf(),
        ensures
            r == self@.wants.contains_key(id@),
    {
        self.wants.contains(id)
    }

    /// Number of identifiers the application still wants.
    pub fn want_count(&self) -> (r: usize)
        requires
            self.wf(),
        ensures
            r == self@.wants.len(),
    {
        self.wants.len()
    }

    /// Whether the ledger holds (peer, dir, id).
    pub fn ledger_holds(&self, peer: u64, dir: Direction, id: &ContentId) -> (r: bool)
        ensures
            r == self@.ledger.contains((peer, dir, id@)),
    {
        self.ledger.contains(peer, dir, id)
    }

    /// Settles every connected peer's want of direction `dir` for `id`: each
    /// entry is cleared, and each peer but `skip` gets the settling message.
    fn settle(&mut self, dir: Direction, id: &ContentId, skip: Option<u64>, payload: &[u8]) -> (acts: Vec<Action>)
        requires
            old(self).wf(),
        ensures
            final(self).wf(),
            final(self)@ == (EngineModel { ledger: cleared(old(self)@.ledger, dir, id@), ..old(self)@ }),
            actions_model(acts@) == settle_actions(old(self)@, dir, id@, skip, payload@),
    {
        let ghost s = self@;
        let mut acts: Vec<Action> = Vec::new();
        let mut i: usize = 0;
        while i < self.peers.len()
            invariant
                self.wants.wf(),
                self.wants@ == s.wants,
                self.peers@ == s.peers,
                s.peers.no_duplicates(),
                forall|t: EntryModel| #[trigger] s.ledger.contains(t) ==> s.peers.contains(t.0),
                i <= s.peers.len(),
                self.ledger@ == s.ledger.filter(
                    |t: EntryModel| !(t.1 == dir && t.2 == id@ && s.peers.subrange(0, i as int).contains(t.0)),
                ),
                actions_model(acts@) == settle_msgs(
                    targets_in(s.peers.subrange(0, i as int), s.ledger, dir, id@, skip),
                    dir,
                    id@,
                    payload@,
                ),
            decreases s.peers.len() - i,
        {
            let p = self.peers[i];
            let ghost pre = s.peers.subrange(0, i as int);
            let ghost post = s.peers.subrange(0, i + 1);
            let ghost acts0 = acts@;
            proof {
                assert(post.drop_last() =~= pre);
                assert(post.last() == p);
                assert(!pre.contains(p)) by {
                    if pre.contains(p) {
                        let k = choose|k: int| 0 <= k < pre.len() && pre[k] == p;
                        assert(s.peers[k] == s.peers[i as int]);
                    }
                }
            }
            let send = match skip {
                Some(q) => q != p,
                None => true,
            };
            let held = self.ledger.contains(p, dir, id);
            proof {
                assert(held == s.ledger.contains((p, dir, id@)));
            }
            if held {
                match dir {
                    Direction::LocalWant => self.ledger.clear_local_want(p, id),
                    Direction::PeerWants => self.ledger.clear_peer_want(p, id),
                }
                if send {
                    let a = match dir {
                        Direction::LocalWant => Action::SendCancel { peer: p, id: id.duplicate() },
                        Direction::PeerWants => Action::SendBlock {
                            peer: p,
                            id: id.duplicate(),
                            payload: copy_bytes(payload),
                        },
                    };
                    acts.push(a);
                }
            }
            proof {
                reveal(Seq::filter);
                let tpre = targets_in(pre, s.ledger, dir, id@, skip);
                let tpost = targets_in(post, s.ledger, dir, id@, skip);
                if held && send {
                    assert(tpost =~= tpre.push(p));
                    assert(actions_model(acts@) =~= actions_model(acts0).push(settle_action(dir, p, id@, payload@)));
                    assert(settle_msgs(tpost, dir, id@, payload@) =~= settle_msgs(tpre, dir, id@, payload@).push(
                        settle_action(dir, p, id@, payload@),
                    ));
                } else {
                    assert(tpost =~= tpre);
                }
                assert forall|u: u64| #[trigger] post.contains(u) <==> pre.contains(u) || u == p by {
                    if pre.contains(u) {
                        let k = choose|k: int| 0 <= k < pre.len() && pre[k] == u;
                        assert(post[k] == u);
                    }
                    if post.contains(u) && u != p {
                        let k = choose|k: int| 0 <= k < post.len() && post[k] == u;
                        assert(pre[k] == u);
                    }
                    assert(post[i as int] == p);
                }
                assert(self.ledger@ =~= s.ledger.filter(
                    |t: EntryModel| !(t.1 == dir && t.2 == id@ && post.contains(t.0)),
                ));
            }
            i = i + 1;
        }
        proof {
            assert(s.peers.subrange(0, s.peers.len() as int) =~= s.peers);
            assert(self.ledger@ =~= cleared(s.ledger, dir, id@));
        }
        acts
    }

    /// The application wants `id`. A new want, or a change of its priority or
    /// type, is sent to every connected peer and recorded against each.
    pub fn want(&mut self, id: ContentId, priority: i32, want_type: WantType) -> (acts: Vec<Action>)
        requires
            old(self).wf(),
        ensures
            final(self).wf(),
            final(self)@ == after_want(old(self)@, id@, priority, want_type),
            actions_model(acts@) == want_actions(old(self)@, id@, priority, want_type),
    {
        let changed = match self.wants.get(&id) {
            Some(e) => e.0 != priority || e.1 != want_type,
            None => true,
        };
        let ghost s = self@;
        let mut acts: Vec<Action> = Vec::new();
        if changed {
            let mut i: usize = 0;
            while i < self.peers.len()
                invariant
                    self.wants.wf(),
                    self.wants@ == s.wants,
                    self.peers@ == s.peers,
                    s.peers.no_duplicates(),
                    forall|t: EntryModel| #[trigger] s.ledger.contains(t) ==> s.peers.contains(t.0),
                    i <= s.peers.len(),
                    self.ledger@ == s.ledger.union(local_wants_toward(s.peers.subrange(0, i as int), id@)),
                    actions_model(acts@) == want_msgs(s.peers.subrange(0, i as int), id@, priority, want_type),
                decreases s.peers.len() - i,
            {
                let p = self.peers[i];
                let ghost pre = s.peers.subrange(0, i as int);
                let ghost post = s.peers.subrange(0, i + 1);
                let ghost acts0 = acts@;
                self.ledger.record_local_want(p, &id);
                acts.push(Action::SendWant { peer: p, id: id.duplicate(), priority, want_type });
                proof {
                    assert(post =~= pre.push(p));
                    assert(actions_model(acts@) =~= actions_model(acts0).push(
                        ActionModel::SendWant(p, id@, priority, want_type),
                    ));
                    assert(want_msgs(post, id@, priority, want_type) =~= want_msgs(pre, id@, priority, want_type).push(
                        ActionModel::SendWant(p, id@, priority, want_type),
                    ));
                    assert forall|u: u64| #[trigger] post.contains(u) <==> pre.contains(u) || u == p by {
                        if pre.contains(u) {
                            let k = choose|k: int| 0 <= k < pre.len() && pre[k] == u;
                            assert(post[k] == u);
                        }
                        if post.contains(u) && u != p {
                            let k = choose|k: int| 0 <= k < post.len() && post[k] == u;
                            assert(pre[k] == u);
                        }
                        assert(post[i as int] == p);
                    }
                    assert(self.ledger@ =~= s.ledger.union(local_wants_toward(post, id@)));
                }
                i = i + 1;
            }
            proof {
                assert(s.peers.subrange(0, s.peers.len() as int) =~= s.peers);
            }
        } else {
            proof {
                assert(actions_model(acts@) =~= Seq::<ActionModel>::empty());
            }
        }
        self.wants.insert(id, priority, want_type);
        proof {
            assert forall|t: EntryModel| #[trigger] self.ledger@.contains(t) implies self.peers@.contains(t.0) by {
                if !s.ledger.contains(t) {
                    assert(local_wants_toward(s.peers, id@).contains(t));
                }
            }
            assert(self@ == after_want(s, id@, priority, want_type));
        }
        acts
    }

    /// The application withdraws its want of `id`: it leaves the want list and
    /// each peer that was asked for it gets a cancel.
    pub fn cancel(&mut self, id: &ContentId) -> (acts: Vec<Action>)
        requires
            old(self).wf(),
        ensures
            final(self).wf(),
            final(self)@ == after_cancel(old(self)@, id@),
            actions_model(acts@) == settle_actions(old(self)@, Direction::LocalWant, id@, None, Seq::empty()),
    {
        self.wants.remove(id);
        let none: Vec<u8> = Vec::new();
        self.settle(Direction::LocalWant, id, None, none.as_slice())
    }

    /// The node now holds `id`: each connected peer that wants it gets the
    /// block, and its want is settled.
    pub fn have_block(&mut self, id: &ContentId, payload: &[u8]) -> (acts: Vec<Action>)
        requires
            old(self).wf(),
        ensures
            final(self).wf(),
            final(self)@ == (EngineModel { ledger: cleared(old(self)@.ledger, Direction::PeerWants, id@), ..old(self)@ }),
            actions_model(acts@) == settle_actions(old(self)@, Direction::PeerWants, id@, None, payload@),
    {
        self.settle(Direction::PeerWants, id, None, payload)
    }

    /// `peer` wants `id`. `stored` is what the block store holds for `id`: when
    /// it holds the block, the block goes to `peer` at once and the want is
    /// settled; otherwise the want is recorded.
    pub fn on_want(&mut self, peer: u64, id: ContentId, priority: i32, stored: Option<Vec<u8>>) -> (r: Step)
        requires
            old(self).wf(),
        ensures
            final(self).wf(),
            final(self)@ == after_peer_want(old(self)@, peer, id@, stored is Some),
            actions_model(r.actions@) == want_reply(peer, id@, opt_bytes(stored)),
            events_model(r.events@) == seq![EventModel::WantReceived(peer, id@, priority)],
    {
        self.peer_connected(peer);
        let mut actions: Vec<Action> = Vec::new();
        match stored {
            Some(b) => {
                self.ledger.record_peer_want(peer, &id);
                self.ledger.clear_peer_want(peer, &id);
                actions.push(Action::SendBlock { peer, id: id.duplicate(), payload: b });
            },
            None => {
                self.ledger.record_peer_want(peer, &id);
            },
        }
        let mut events: Vec<Event> = Vec::new();
        events.push(Event::WantReceived { peer, id, priority });
        proof {
            let c = with_peer(old(self)@, peer);
            assert(c.peers.contains(peer)) by {
                if !old(self)@.peers.contains(peer) {
                    assert(c.peers[c.peers.len() - 1] == peer);
                }
            }
            assert(self.ledger@ =~= after_peer_want(old(self)@, peer, id@, stored is Some).ledger);
            assert(actions_model(actions@) =~= want_reply(peer, id@, opt_bytes(stored)));
            assert(events_model(events@) =~= seq![EventModel::WantReceived(peer, id@, priority)]);
        }
        Step { actions, events }
    }

    /// `peer` withdraws its want of `id`.
    pub fn on_cancel(&mut self, peer: u64, id: ContentId) -> (r: Step)
        requires
            old(self).wf(),
        ensures
            final(self).wf(),
            final(self)@ == after_peer_cancel(old(self)@, peer, id@),
            actions_model(r.actions@) == Seq::<ActionModel>::empty(),
            events_model(r.events@) == seq![EventModel::CancelReceived(peer, id@)],
    {
        self.peer_connected(peer);
        self.ledger.clear_peer_want(peer, &id);
        let actions: Vec<Action> = Vec::new();
        let mut events: Vec<Event> = Vec::new();
        events.push(Event::CancelReceived { peer, id });
        proof {
            assert(actions_model(actions@) =~= Seq::<ActionModel>::empty());
            assert(events_model(events@) =~= seq![EventModel::CancelReceived(peer, id@)]);
        }
        Step { actions, events }
    }

    /// A block for `id` arrived from `peer`, and `digest` is the digest of its
    /// payload under the hash function that `id` declares. A mismatch is rejected and changes nothing. A match is handed
    /// to the application and stored only while `id` is wanted; then the want
    /// ends and every other peer that was asked for `id` gets a cancel.
    pub fn on_block_digest(&mut self, peer: u64, id: ContentId, payload: Vec<u8>, digest: &[u8]) -> (r: Result<
        Step,
        IntegrityError,
    >)
        requires
            old(self).wf(),
        ensures
            final(self).wf(),
            r is Err <==> !crate::cid::digest_agrees(id@, digest@),
            r is Err ==> final(self)@ == old(self)@,
            r matches Ok(st) ==> final(self)@ == after_block(old(self)@, peer, id@) && actions_model(st.actions@)
                == block_actions(old(self)@, peer, id@, payload@) && events_model(st.events@) == block_events(
                old(self)@,
                peer,
                id@,
                payload@,
            ),
    {
        if !id.digest_matches(digest) {
            return Err(IntegrityError);
        }
        self.peer_connected(peer);
        let ghost c = self@;
        let ghost idm = id@;
        let ghost pm = payload@;
        let mut actions: Vec<Action> = Vec::new();
        let mut events: Vec<Event> = Vec::new();
        if self.wants.remove(&id) {
            actions.push(Action::StoreBlock { id: id.duplicate(), payload: copy_bytes(payload.as_slice()) });
            let mut cancels = self.settle(Direction::LocalWant, &id, Some(peer), payload.as_slice());
            let ghost a0 = actions@;
            let ghost cs = cancels@;
            actions.append(&mut cancels);
            events.push(Event::BlockReceived { peer, id, payload });
            proof {
                assert(actions@ =~= a0 + cs);
                assert(actions_model(actions@) =~= seq![ActionModel::StoreBlock(idm, pm)].add(
                    actions_model(cs),
                ));
            }
        } else {
            proof {
                assert(self@.wants =~= c.wants);
                assert(self@ == c);
            }
        }
        proof {
            assert(actions_model(actions@) =~= block_actions(old(self)@, peer, id@, payload@));
            assert(events_model(events@) =~= block_events(old(self)@, peer, id@, payload@));
        }
        Ok(Step { actions, events })
    }

    /// A block for `id` arrived from `peer`. Its payload is checked against
    /// `id` first; see `on_block_digest` for what follows.
    pub fn on_block(&mut self, peer: u64, id: ContentId, payload: Vec<u8>) -> (r: Result<Step, IntegrityError>)
        requires
            old(self).wf(),
        ensures
            final(self).wf(),
            r is Err <==> !verifies(payload@, id@),
            r is Err ==> final(self)@ == old(self)@,
            r matches Ok(st) ==> final(self)@ == after_block(old(self)@, peer, id@) && actions_model(st.actions@)
                == block_actions(old(self)@, peer, id@, payload@) && events_model(st.events@) == block_events(
                old(self)@,
                peer,
                id@,
                payload@,
            ),
    {
        let computed = match ContentId::hash_with(id.hash_code, payload.as_slice()) {
            Some(d) => d,
            None => Vec::new(),
        };
        self.on_block_digest(peer, id, payload, computed.as_slice())
    }

    /// The transport could not deliver `failed`. Nothing is retried and the
    /// want list is unchanged, so the application may send a want again; a
    /// want that failed no longer counts as sent to its peer. The failure is
    /// reported to the application.
    pub fn on_send_failed(&mut self, failed: Action) -> (r: Step)
        requires
            old(self).wf(),
        ensures
            final(self).wf(),
            final(self)@ == after_send_failed(old(self)@, failed@),
            actions_model(r.actions@) == Seq::<ActionModel>::empty(),
            events_model(r.events@) == seq![EventModel::SendFailure(failed@)],
    {
        match &failed {
            Action::SendWant { peer, id, .. } => {
                self.ledger.clear_local_want(*peer, id);
            },
            _ => {},
        }
        let ghost fm = failed@;
        let actions: Vec<Action> = Vec::new();
        let mut events: Vec<Event> = Vec::new();
        events.push(Event::SendFailure { action: failed });
        proof {
            assert(actions_model(actions@) =~= Seq::<ActionModel>::empty());
            assert(events_model(events@) =~= seq![EventModel::SendFailure(fm)]);
        }
        Step { actions, events }
    }

    /// A copy of the want list, highest priority first.
    pub fn want_snapshot(&self) -> (r: Vec<crate::wantlist::WantRecord>)
        requires
            self.wf(),
        ensures
            r@.len() == self@.wants.len(),
            forall|i: int| #![trigger r@[i]]
                0 <= i < r@.len() ==> self@.wants.contains_key(r@[i].id@) && self@.wants[r@[i].id@]
                    == r@[i].entry(),
            forall|i: int, j: int| 0 <= i < j < r@.len() ==> r@[i].id@ != r@[j].id@,
            forall|i: int, j: int| 0 <= i < j < r@.len() ==> r@[i].priority >= r@[j].priority,
    {
        self.wants.snapshot()
    }

    /// `peer` is gone: its connection and all its ledger entries are dropped.
    pub fn peer_disconnected(&mut self, peer: u64)
        requires
            old(self).wf(),
        ensures
            final(self).wf(),
            final(self)@ == after_disconnect(old(self)@, peer),
    {
        self.ledger.remove_peer(peer);
        let ghost s = old(self)@;
        let mut kept: Vec<u64> = Vec::new();
        let mut i: usize = 0;
        while i < self.peers.len()
            invariant
                self.peers@ == s.peers,
                i <= s.peers.len(),
                kept@ == others(s.peers.subrange(0, i as int), peer),
            decreases s.peers.len() - i,
        {
            let q = self.peers[i];
            if q != peer {
                kept.push(q);
            }
            proof {
                reveal(Seq::filter);
                assert(s.peers.subrange(0, i + 1).drop_last() =~= s.peers.subrange(0, i as int));
            }
            i = i + 1;
        }
        proof {
            assert(s.peers.subrange(0, s.peers.len() as int) =~= s.peers);
            lemma_others(s.peers, peer);
        }
        self.peers = kept;
        proof {
            assert forall|t: EntryModel| #[trigger] self.ledger@.contains(t) implies self.peers@.contains(t.0) by {
                assert(s.ledger.contains(t));
            }
        }
    }
}


impl ExchangeEngine {
    /// A well-formed engine is in a consistent state.
    pub proof fn lemma_consistent(&self)
        requires
            self.wf(),
        ensures
            consistent(self@),
    {
    }
}

/// Once the application has wanted and then cancelled `id`, a verified block
/// for `id` is not handed to the application and sends nothing.
pub proof fn lemma_cancel_is_effective(
    s: EngineModel,
    id: IdModel,
    priority: i32,
    want_type: WantType,
    peer: u64,
    payload: Seq<u8>,
)
    ensures
        block_events(after_cancel(after_want(s, id, priority, want_type), id), peer, id, payload)
            == Seq::<EventModel>::empty(),
        block_actions(after_cancel(after_want(s, id, priority, want_type), id), peer, id, payload)
            == Seq::<ActionModel>::empty(),
{
}

/// A want that the block store can answer is answered with exactly one block,
/// to the peer that asked, and leaves no want of that peer in the ledger.
pub proof fn lemma_served_want(s: EngineModel, peer: u64, id: IdModel, payload: Seq<u8>)
    ensures
        want_reply(peer, id, Some(payload)) == seq![ActionModel::SendBlock(peer, id, payload)],
        !after_peer_want(s, peer, id, true).ledger.contains((peer, Direction::PeerWants, id)),
{
}

/// When two peers deliver a verified block for a wanted identifier, the
/// application hears of it once, and the second peer, if it was asked for the
/// block, gets a cancel with the first delivery.
pub proof fn lemma_single_delivery(
    s: EngineModel,
    first: u64,
    second: u64,
    id: IdModel,
    b1: Seq<u8>,
    b2: Seq<u8>,
)
    requires
        consistent(s),
        s.wants.contains_key(id),
        first != second,
    ensures
        block_events(s, first, id, b1).len() == 1,
        block_events(after_block(s, first, id), second, id, b2).len() == 0,
        s.ledger.contains((second, Direction::LocalWant, id)) ==> block_actions(s, first, id, b1).contains(
            ActionModel::SendCancel(second, id),
        ),
{
    broadcast use Seq::lemma_filter_contains;
    let c = with_peer(s, first);
    if s.ledger.contains((second, Direction::LocalWant, id)) {
        assert(s.peers.contains(second));
        let k = choose|k: int| 0 <= k < s.peers.len() && s.peers[k] == second;
        assert(c.peers[k] == second);
        let t = targets_in(c.peers, c.ledger, Direction::LocalWant, id, Some(first));
        assert(t.contains(c.peers[k]));
        let j = choose|j: int| 0 <= j < t.len() && t[j] == second;
        let msgs = settle_msgs(t, Direction::LocalWant, id, b1);
        assert(msgs[j] == ActionModel::SendCancel(second, id));
        let all = block_actions(s, first, id, b1);
        assert(all[j + 1] == ActionModel::SendCancel(second, id));
    }
}

/// A disconnect drops every ledger entry of the peer, and a peer that connects
/// again under the same identity starts from an empty record.
pub proof fn lemma_disconnect_forgets(s: EngineModel, peer: u64)
    ensures
        forall|t: EntryModel| #[trigger] after_disconnect(s, peer).ledger.contains(t) ==> t.0 != peer,
        crate::ledger::peer_wants(with_peer(after_disconnect(s, peer), peer).ledger, peer) == Set::<IdModel>::empty(),
        crate::ledger::local_wants(with_peer(after_disconnect(s, peer), peer).ledger, peer) == Set::<IdModel>::empty(),
{
    let l = with_peer(after_disconnect(s, peer), peer).ledger;
    assert(crate::ledger::peer_wants(l, peer) =~= Set::<IdModel>::empty());
    assert(crate::ledger::local_wants(l, peer) =~= Set::<IdModel>::empty());
}

} // verus!
