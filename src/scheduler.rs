//! The piece scheduler: how many peers advertise each piece, which pieces
//! are requested from which peer, and which piece to ask a peer for next.

use vstd::prelude::*;
use std::collections::{HashMap, HashSet};

verus! {

broadcast use vstd::std_specs::hash::group_hash_axioms;

/// How the next piece is chosen.
#[derive(Debug, Clone, Copy, PartialEq, Eq, Structural)]
pub enum SelectionStrategy {
    /// Lowest index first.
    Sequential,
    /// Fewest advertising peers first, ties to the lowest index.
    RarestFirst,
    /// Uniformly at random.
    Random,
}

/// What a scheduler holds.
pub struct SchedulerView {
    pub strategy: SelectionStrategy,
    /// Outstanding requests, as (peer, piece) pairs.
    pub requests: Set<(u128, u32)>,
    /// Each known peer with the pieces it advertises, in the order peers
    /// were first heard of.
    pub advertised: Seq<(u128, Set<u32>)>,
}

/// Number of peers in `s` that advertise piece `p`.
pub open spec fn peers_having(s: Seq<(u128, Set<u32>)>, p: u32) -> nat
    decreases s.len(),
{
    if s.len() == 0 {
        0
    } else {
        peers_having(s.drop_last(), p) + if s.last().1.contains(p) {
            1nat
        } else {
            0nat
        }
    }
}

/// Whether peer `id` is known.
pub open spec fn knows_peer(s: Seq<(u128, Set<u32>)>, id: u128) -> bool {
    exists|i: int| 0 <= i < s.len() && (#[trigger] s[i]).0 == id
}

/// Position of peer `id`.
pub open spec fn peer_position(s: Seq<(u128, Set<u32>)>, id: u128) -> int
    recommends
        knows_peer(s, id),
{
    choose|i: int| 0 <= i < s.len() && (#[trigger] s[i]).0 == id
}

impl SchedulerView {
    /// Number of peers advertising piece `p`.
    pub open spec fn availability(self, p: u32) -> nat {
        peers_having(self.advertised, p)
    }
}

/// Whether `x` is a piece to ask for: the peer has it and we do not.
pub open spec fn is_candidate(peer: Seq<u32>, local: Seq<u32>, x: u32) -> bool {
    peer.contains(x) && !local.contains(x)
}

/// Whether `x` is rarer than `y`, ties broken by the lower index.
pub open spec fn rarer_or_equal(v: SchedulerView, x: u32, y: u32) -> bool {
    v.availability(x) < v.availability(y) || (v.availability(x) == v.availability(y) && x <= y)
}

/// The pieces one peer advertises, as a set for lookups and a list for walking.
#[derive(Debug)]
struct PeerPieces {
    peer_id: u128,
    set: HashSet<u32>,
    list: Vec<u32>,
}

spec fn entry_view(e: PeerPieces) -> (u128, Set<u32>) {
    (e.peer_id, e.list@.to_set())
}

spec fn entries_view(v: Seq<PeerPieces>) -> Seq<(u128, Set<u32>)> {
    v.map_values(|e: PeerPieces| entry_view(e))
}

spec fn entry_ok(e: PeerPieces) -> bool {
    e.list@.no_duplicates() && e.set@ == e.list@.to_set()
}

/// Count of peers advertising each piece; absent means zero.
spec fn count_of(m: Map<u32, u64>, p: u32) -> nat {
    if m.contains_key(p) {
        m[p] as nat
    } else {
        0
    }
}

/// Download scheduler.
#[derive(Debug)]
pub struct PieceScheduler {
    strategy: SelectionStrategy,
    requesting: Vec<(u128, u32)>,
    peers: Vec<PeerPieces>,
    piece_availability: HashMap<u32, u64>,
}

impl View for PieceScheduler {
    type V = SchedulerView;

    closed spec fn view(&self) -> SchedulerView {
        SchedulerView {
            strategy: self.strategy,
            requests: self.requesting@.to_set(),
            advertised: entries_view(self.peers@),
        }
    }
}

proof fn lemma_peers_having_bound(s: Seq<(u128, Set<u32>)>, p: u32, i: int)
    requires
        0 <= i < s.len(),
        !s[i].1.contains(p),
    ensures
        peers_having(s, p) < s.len(),
    decreases s.len(),
{
    if i < s.len() - 1 {
        lemma_peers_having_bound(s.drop_last(), p, i);
    } else {
        lemma_peers_having_le(s.drop_last(), p);
    }
}

proof fn lemma_peers_having_le(s: Seq<(u128, Set<u32>)>, p: u32)
    ensures
        peers_having(s, p) <= s.len(),
    decreases s.len(),
{
    if s.len() > 0 {
        lemma_peers_having_le(s.drop_last(), p);
    }
}

proof fn lemma_peers_having_update(s: Seq<(u128, Set<u32>)>, i: int, e: (u128, Set<u32>), q: u32)
    requires
        0 <= i < s.len(),
    ensures
        peers_having(s.update(i, e), q) + (if s[i].1.contains(q) { 1int } else { 0int })
            == peers_having(s, q) + (if e.1.contains(q) { 1int } else { 0int }),
    decreases s.len(),
{
    if i < s.len() - 1 {
        assert(s.update(i, e).drop_last() =~= s.drop_last().update(i, e));
        lemma_peers_having_update(s.drop_last(), i, e, q);
    } else {
        assert(s.update(i, e).drop_last() =~= s.drop_last());
    }
}

proof fn lemma_peers_having_remove(s: Seq<(u128, Set<u32>)>, i: int, q: u32)
    requires
        0 <= i < s.len(),
    ensures
        peers_having(s.remove(i), q) + (if s[i].1.contains(q) { 1int } else { 0int })
            == peers_having(s, q),
    decreases s.len(),
{
    if i < s.len() - 1 {
        assert(s.remove(i).drop_last() =~= s.drop_last().remove(i));
        assert(s.remove(i).last() == s.last());
        lemma_peers_having_remove(s.drop_last(), i, q);
    } else {
        assert(s.remove(i) =~= s.drop_last());
    }
}

/// Relies on `rand::seq::SliceRandom::choose` with the thread-local
/// generator: `None` exactly for an empty slice, else one of its elements.
#[verifier::external_body]
fn choose_random(candidates: &[u32]) -> (r: Option<u32>)
    ensures
        r is None <==> candidates@.len() == 0,
        r is Some ==> candidates@.contains(r->Some_0),
{
    <[u32] as rand::seq::SliceRandom>::choose(candidates, &mut rand::thread_rng()).copied()
}

proof fn lemma_take_one_more<T>(s: Seq<T>, j: int, x: T)
    requires
        0 <= j < s.len(),
    ensures
        s.take(j + 1).contains(x) <==> (s.take(j).contains(x) || x == s[j]),
{
    let t = s.take(j + 1);
    if t.contains(x) {
        let k = choose|k: int| 0 <= k < t.len() && #[trigger] t[k] == x;
        if k < j {
            assert(s.take(j)[k] == x);
        }
    }
    if s.take(j).contains(x) {
        let k = choose|k: int| 0 <= k < j && #[trigger] s.take(j)[k] == x;
        assert(t[k] == x);
    }
    if x == s[j] {
        assert(t[j] == x);
    }
}

proof fn lemma_push_no_duplicates<T>(s: Seq<T>, v: T)
    requires
        s.no_duplicates(),
        !s.contains(v),
    ensures
        s.push(v).no_duplicates(),
{
    let t = s.push(v);
    assert forall|i: int, j: int| 0 <= i < t.len() && 0 <= j < t.len() && i != j implies t[i] != t[j] by {
        if i == s.len() {
            assert(s[j] == t[j]);
        } else if j == s.len() {
            assert(s[i] == t[i]);
        }
    }
}

proof fn lemma_push_contains<T>(s: Seq<T>, v: T, x: T)
    ensures
        s.push(v).contains(x) <==> (s.contains(x) || x == v),
{
    let t = s.push(v);
    if t.contains(x) {
        let k = choose|k: int| 0 <= k < t.len() && #[trigger] t[k] == x;
        if k < s.len() {
            assert(s[k] == x);
        }
    }
    if s.contains(x) {
        let k = choose|k: int| 0 <= k < s.len() && #[trigger] s[k] == x;
        assert(t[k] == x);
    }
    if x == v {
        assert(t[s.len() as int] == x);
    }
}

impl PieceScheduler {
    /// Whether the state is consistent: no request recorded twice, one entry
    /// per peer, and each piece's count is the number of peers advertising it.
    pub closed spec fn wf(&self) -> bool {
        &&& self.requesting@.no_duplicates()
        &&& forall|i: int, j: int|
            0 <= i < self.peers@.len() && 0 <= j < self.peers@.len() && i != j ==> (
            #[trigger] self.peers@[i]).peer_id != (#[trigger] self.peers@[j]).peer_id
        &&& forall|i: int| 0 <= i < self.peers@.len() ==> entry_ok(#[trigger] self.peers@[i])
        &&& forall|q: u32|
            #[trigger] count_of(self.piece_availability@, q) == peers_having(
                entries_view(self.peers@),
                q,
            )
    }

    /// A scheduler with no requests and no known peers.
    pub fn new(strategy: SelectionStrategy) -> (r: Self)
        ensures
            r.wf(),
            r@.strategy == strategy,
            r@.requests == Set::<(u128, u32)>::empty(),
            r@.advertised == Seq::<(u128, Set<u32>)>::empty(),
    {
        let r = PieceScheduler {
            strategy,
            requesting: Vec::new(),
            peers: Vec::new(),
            piece_availability: HashMap::new(),
        };
        assert(r.requesting@.to_set() =~= Set::<(u128, u32)>::empty());
        assert(entries_view(r.peers@) =~= Seq::<(u128, Set<u32>)>::empty());
        r
    }

    /// The selection strategy.
    pub fn strategy(&self) -> (r: SelectionStrategy)
        ensures
            r == self@.strategy,
    {
        self.strategy
    }

    /// Number of peers advertising a piece.
    pub fn availability(&self, piece_index: u32) -> (r: u64)
        requires
            self.wf(),
        ensures
            r == self@.availability(piece_index),
    {
        proof {
            assert(count_of(self.piece_availability@, piece_index) == peers_having(
                entries_view(self.peers@),
                piece_index,
            ));
        }
        match self.piece_availability.get(&piece_index) {
            Some(c) => *c,
            None => 0,
        }
    }

    fn find_peer(&self, peer_id: u128) -> (r: Option<usize>)
        ensures
            r is Some <==> knows_peer(self@.advertised, peer_id),
            r is Some ==> r->Some_0 < self.peers@.len() && self.peers@[r->Some_0 as int].peer_id
                == peer_id,
    {
        let mut i: usize = 0;
        while i < self.peers.len()
            invariant
                0 <= i <= self.peers@.len(),
                forall|k: int| 0 <= k < i ==> (#[trigger] self.peers@[k]).peer_id != peer_id,
            decreases self.peers@.len() - i,
        {
            if self.peers[i].peer_id == peer_id {
                assert(self@.advertised[i as int].0 == peer_id);
                return Some(i);
            }
            i = i + 1;
        }
        assert forall|k: int| 0 <= k < self@.advertised.len() implies (
        #[trigger] self@.advertised[k]).0 != peer_id by {
            assert(self@.advertised[k].0 == self.peers@[k].peer_id);
        }
        None
    }

    /// Records the pieces a peer advertises, from its bitfield or from a have
    /// message. Each piece counts a peer once, however often it is announced.
    pub fn update_peer_pieces(&mut self, peer_id: u128, pieces: &[u32])
        requires
            old(self).wf(),
        ensures
            final(self).wf(),
            final(self)@.strategy == old(self)@.strategy,
            final(self)@.requests == old(self)@.requests,
            knows_peer(old(self)@.advertised, peer_id) ==> final(self)@.advertised == old(
                self,
            )@.advertised.update(
                peer_position(old(self)@.advertised, peer_id),
                (
                    peer_id,
                    old(self)@.advertised[peer_position(old(self)@.advertised, peer_id)].1
                        + pieces@.to_set(),
                ),
            ),
            !knows_peer(old(self)@.advertised, peer_id) ==> final(self)@.advertised == old(
                self,
            )@.advertised.push((peer_id, pieces@.to_set())),
    {
        let ghost old_adv = self@.advertised;
        let ghost is_new = !knows_peer(old_adv, peer_id);
        let i = match self.find_peer(peer_id) {
            Some(i) => {
                proof {
                    let p = peer_position(self@.advertised, peer_id);
                    assert(self@.advertised[p].0 == peer_id);
                    assert(self@.advertised[i as int].0 == peer_id);
                    assert(p == i as int);
                }
                i
            },
            None => {
                let ghost before = self.peers@;
                self.peers.push(PeerPieces { peer_id, set: HashSet::new(), list: Vec::new() });
                proof {
                    let e = self.peers@.last();
                    assert(e.list@.to_set() =~= Set::<u32>::empty());
                    assert(e.set@ =~= Set::<u32>::empty());
                    assert forall|a: int| 0 <= a < self.peers@.len() implies entry_ok(#[trigger] self.peers@[a]) by {
                        if a < before.len() {
                            assert(self.peers@[a] == before[a]);
                        }
                    }
                    assert(entries_view(self.peers@) =~= entries_view(before).push(
                        (peer_id, Set::<u32>::empty()),
                    ));
                    assert forall|q: u32| #[trigger]
                        count_of(self.piece_availability@, q) == peers_having(
                            entries_view(self.peers@),
                            q,
                        ) by {
                        assert(entries_view(self.peers@).drop_last() =~= entries_view(before));
                    }
                    assert forall|a: int, b: int|
                        0 <= a < self.peers@.len() && 0 <= b < self.peers@.len() && a != b implies (
                        #[trigger] self.peers@[a]).peer_id != (#[trigger] self.peers@[b]).peer_id by {
                        if a < before.len() && b < before.len() {
                            assert(self.peers@[a] == before[a] && self.peers@[b] == before[b]);
                        } else if a < before.len() {
                            assert(self.peers@[a] == before[a]);
                            assert(entries_view(before)[a].0 == before[a].peer_id);
                        } else {
                            assert(self.peers@[b] == before[b]);
                            assert(entries_view(before)[b].0 == before[b].peer_id);
                        }
                    }
                }
                self.peers.len() - 1
            },
        };
        assert(self.wf());
        let ghost base = self.peers@;
        let ghost sv = entries_view(base);
        let ghost start_set = base[i as int].list@.to_set();
        let n = self.peers.len();
        let mut entry = self.peers.remove(i);
        assert(sv[i as int] == (peer_id, start_set));
        assert(sv.update(i as int, (peer_id, entry.list@.to_set())) =~= sv);
        assert(entry_ok(base[i as int]));
        assert(pieces@.take(0).to_set() =~= Set::<u32>::empty());
        assert(start_set + Set::<u32>::empty() =~= start_set);
        let mut k: usize = 0;
        while k < pieces.len()
            invariant
                n == base.len(),
                0 <= i < base.len(),
                sv == entries_view(base),
                self.peers@ == base.remove(i as int),
                entry.peer_id == peer_id,
                base[i as int].peer_id == peer_id,
                entry_ok(entry),
                start_set == base[i as int].list@.to_set(),
                0 <= k <= pieces@.len(),
                entry.list@.to_set() == start_set + pieces@.take(k as int).to_set(),
                forall|q: u32|
                    #[trigger] count_of(self.piece_availability@, q) == peers_having(
                        sv.update(i as int, (peer_id, entry.list@.to_set())),
                        q,
                    ),
                self.strategy == old(self).strategy,
                self.requesting == old(self).requesting,
            decreases pieces@.len() - k,
        {
            let p = pieces[k];
            let ghost cur = sv.update(i as int, (peer_id, entry.list@.to_set()));
            if !entry.set.contains(&p) {
                let c = self.availability_count(p);
                proof {
                    assert(cur[i as int].1 == entry.list@.to_set());
                    assert(!entry.list@.to_set().contains(p));
                    lemma_peers_having_bound(cur, p, i as int);
                    assert(c < n);
                }
                let ghost old_list = entry.list@;
                let ghost old_map = self.piece_availability@;
                entry.set.insert(p);
                entry.list.push(p);
                self.piece_availability.insert(p, c + 1);
                proof {
                    assert(!old_list.contains(p));
                    crate::scheduler::lemma_push_no_duplicates(old_list, p);
                    assert(entry.list@.to_set() =~= old_list.to_set().insert(p)) by {
                        assert forall|x: u32| entry.list@.to_set().contains(x) <==> old_list.to_set().insert(p).contains(x) by {
                            lemma_push_contains(old_list, p, x);
                        }
                    }
                    let nxt = sv.update(i as int, (peer_id, entry.list@.to_set()));
                    assert(nxt =~= cur.update(i as int, (peer_id, entry.list@.to_set())));
                    assert forall|q: u32| #[trigger]
                        count_of(self.piece_availability@, q) == peers_having(nxt, q) by {
                        lemma_peers_having_update(cur, i as int, (peer_id, entry.list@.to_set()), q);
                        assert(count_of(old_map, q) == peers_having(cur, q));
                    }
                }
            }
            proof {
                assert forall|x: u32| #[trigger] pieces@.take(k + 1).contains(x) <==> (pieces@.take(k as int).contains(x) || x == p) by {
                    lemma_take_one_more(pieces@, k as int, x);
                }
                assert(entry.list@.to_set() =~= start_set + pieces@.take(k + 1).to_set());
            }
            k = k + 1;
        }
        self.peers.insert(i, entry);
        proof {
            assert(pieces@.take(pieces@.len() as int) =~= pieces@);
            assert(self.peers@ =~= base.update(i as int, entry));
            assert(entries_view(self.peers@) =~= sv.update(i as int, (peer_id, entry.list@.to_set())));
            assert forall|a: int, b: int|
                0 <= a < self.peers@.len() && 0 <= b < self.peers@.len() && a != b implies (
                #[trigger] self.peers@[a]).peer_id != (#[trigger] self.peers@[b]).peer_id by {
                assert(base[a].peer_id != base[b].peer_id);
            }
            assert forall|a: int| 0 <= a < self.peers@.len() implies entry_ok(#[trigger] self.peers@[a]) by {
                if a != i {
                    assert(self.peers@[a] == base[a]);
                }
            }
            if is_new {
                assert(start_set =~= Set::<u32>::empty());
                assert(start_set + pieces@.to_set() =~= pieces@.to_set());
                assert(entries_view(self.peers@) =~= old_adv.push((peer_id, pieces@.to_set())));
            } else {
                let pos = peer_position(old_adv, peer_id);
                assert(old_adv[pos].0 == peer_id);
                assert(sv =~= old_adv);
                assert(sv[i as int].0 == peer_id);
                assert(pos == i as int);
            }
        }
    }

    fn availability_count(&self, piece_index: u32) -> (r: u64)
        ensures
            r == count_of(self.piece_availability@, piece_index),
    {
        match self.piece_availability.get(&piece_index) {
            Some(c) => *c,
            None => 0,
        }
    }

    /// Forgets a peer that went away: each piece it advertised loses one
    /// advertising peer, and its outstanding requests are dropped so the
    /// pieces can be asked of others.
    pub fn peer_disconnected(&mut self, peer_id: u128)
        requires
            old(self).wf(),
        ensures
            final(self).wf(),
            final(self)@.strategy == old(self)@.strategy,
            final(self)@.requests == old(self)@.requests.filter(|q: (u128, u32)| q.0 != peer_id),
            knows_peer(old(self)@.advertised, peer_id) ==> final(self)@.advertised == old(
                self,
            )@.advertised.remove(peer_position(old(self)@.advertised, peer_id)),
            !knows_peer(old(self)@.advertised, peer_id) ==> final(self)@.advertised == old(
                self,
            )@.advertised,
    {
        match self.find_peer(peer_id) {
            Some(i) => {
                let ghost base = self.peers@;
                let ghost sv = entries_view(base);
                proof {
                    let p = peer_position(sv, peer_id);
                    assert(sv[p].0 == peer_id);
                    assert(sv[i as int].0 == peer_id);
                    assert(p == i as int);
                }
                let entry = self.peers.remove(i);
                let ghost rest = sv.remove(i as int);
                proof {
                    assert(entries_view(self.peers@) =~= rest);
                    assert forall|q: u32| #[trigger] count_of(self.piece_availability@, q) == peers_having(rest, q)
                        + (if entry.list@.skip(0).contains(q) { 1int } else { 0int }) by {
                        lemma_peers_having_remove(sv, i as int, q);
                        assert(entry.list@.skip(0) =~= entry.list@);
                    }
                }
                let mut k: usize = 0;
                while k < entry.list.len()
                    invariant
                        entry_ok(entry),
                        entries_view(self.peers@) == rest,
                        0 <= k <= entry.list@.len(),
                        forall|q: u32| #[trigger] count_of(self.piece_availability@, q) == peers_having(rest, q)
                            + (if entry.list@.skip(k as int).contains(q) { 1int } else { 0int }),
                        self.strategy == old(self).strategy,
                        self.requesting == old(self).requesting,
                        forall|a: int| 0 <= a < self.peers@.len() ==> entry_ok(#[trigger] self.peers@[a]),
                        forall|a: int, b: int|
                            0 <= a < self.peers@.len() && 0 <= b < self.peers@.len() && a != b ==> (
                            #[trigger] self.peers@[a]).peer_id != (#[trigger] self.peers@[b]).peer_id,
                    decreases entry.list@.len() - k,
                {
                    let p = entry.list[k];
                    let ghost l = entry.list@;
                    proof {
                        assert(l.skip(k as int)[0] == p);
                        assert(l.skip(k as int).contains(p));
                        assert(!l.skip(k + 1).contains(p)) by {
                            if l.skip(k + 1).contains(p) {
                                let j = choose|j: int| 0 <= j < l.skip(k + 1).len() && #[trigger] l.skip(k + 1)[j] == p;
                                assert(l[k + 1 + j] == l[k as int]);
                            }
                        }
                        assert forall|x: u32| x != p implies (#[trigger] l.skip(k as int).contains(x) <==> l.skip(k + 1).contains(x)) by {
                            if l.skip(k as int).contains(x) {
                                let j = choose|j: int| 0 <= j < l.skip(k as int).len() && #[trigger] l.skip(k as int)[j] == x;
                                assert(j > 0);
                                assert(l.skip(k + 1)[j - 1] == x);
                            }
                            if l.skip(k + 1).contains(x) {
                                let j = choose|j: int| 0 <= j < l.skip(k + 1).len() && #[trigger] l.skip(k + 1)[j] == x;
                                assert(l.skip(k as int)[j + 1] == x);
                            }
                        }
                    }
                    let c = self.availability_count(p);
                    let ghost old_map = self.piece_availability@;
                    self.piece_availability.insert(p, c - 1);
                    proof {
                        assert forall|q: u32| #[trigger] count_of(self.piece_availability@, q) == peers_having(rest, q)
                            + (if l.skip(k + 1).contains(q) { 1int } else { 0int }) by {
                            assert(count_of(old_map, q) == peers_having(rest, q)
                                + (if l.skip(k as int).contains(q) { 1int } else { 0int }));
                        }
                    }
                    k = k + 1;
                }
                proof {
                    assert forall|q: u32| #[trigger] count_of(self.piece_availability@, q) == peers_having(rest, q) by {
                        assert(!entry.list@.skip(entry.list@.len() as int).contains(q));
                    }
                }
            },
            None => {},
        }
        self.drop_requests_of(peer_id);
    }

    fn drop_requests_of(&mut self, peer_id: u128)
        requires
            old(self).wf(),
        ensures
            final(self).wf(),
            final(self)@.strategy == old(self)@.strategy,
            final(self)@.advertised == old(self)@.advertised,
            final(self)@.requests == old(self)@.requests.filter(|q: (u128, u32)| q.0 != peer_id),
    {
        let ghost before = self.requesting@;
        let mut kept: Vec<(u128, u32)> = Vec::new();
        let mut j: usize = 0;
        while j < self.requesting.len()
            invariant
                before == self.requesting@,
                before.no_duplicates(),
                0 <= j <= before.len(),
                kept@.no_duplicates(),
                forall|q: (u128, u32)| #[trigger] kept@.contains(q) <==> (before.take(j as int).contains(q) && q.0 != peer_id),
            decreases before.len() - j,
        {
            let q = self.requesting[j];
            proof {
                assert forall|x: (u128, u32)| #[trigger] before.take(j + 1).contains(x) <==> (before.take(j as int).contains(x) || x == q) by {
                    lemma_take_one_more(before, j as int, x);
                }
                assert(!before.take(j as int).contains(q)) by {
                    if before.take(j as int).contains(q) {
                        let k = choose|k: int| 0 <= k < j && #[trigger] before.take(j as int)[k] == q;
                        assert(before[k] == before[j as int]);
                    }
                }
            }
            if q.0 != peer_id {
                let ghost old_kept = kept@;
                proof {
                    lemma_push_no_duplicates(old_kept, q);
                }
                kept.push(q);
                assert forall|x: (u128, u32)| #[trigger] kept@.contains(x) <==> (old_kept.contains(x) || x == q) by {
                    lemma_push_contains(old_kept, q, x);
                }
            }
            j = j + 1;
        }
        assert(before.take(before.len() as int) =~= before);
        self.requesting = kept;
        assert(self@.requests =~= old(self)@.requests.filter(|q: (u128, u32)| q.0 != peer_id));
    }

    /// Picks the piece to request from a peer: one it advertises that is not
    /// among our verified pieces, or `None` when there is none. Sequential
    /// takes the lowest index, rarest-first the lowest advertising count with
    /// ties to the lowest index, random any candidate.
    pub fn select_piece(&self, peer_pieces: &[u32], local_pieces: &[u32]) -> (r: Option<u32>)
        requires
            self.wf(),
        ensures
            r is None <==> !(exists|x: u32| is_candidate(peer_pieces@, local_pieces@, x)),
            r is Some ==> is_candidate(peer_pieces@, local_pieces@, r->Some_0),
            r is Some && self@.strategy == SelectionStrategy::Sequential ==> forall|y: u32|
                is_candidate(peer_pieces@, local_pieces@, y) ==> r->Some_0 <= y,
            r is Some && self@.strategy == SelectionStrategy::RarestFirst ==> forall|y: u32|
                is_candidate(peer_pieces@, local_pieces@, y) ==> rarer_or_equal(
                    self@,
                    r->Some_0,
                    y,
                ),
    {
        let mut local: HashSet<u32> = HashSet::new();
        let mut i: usize = 0;
        while i < local_pieces.len()
            invariant
                0 <= i <= local_pieces@.len(),
                forall|x: u32| local@.contains(x) <==> local_pieces@.take(i as int).contains(x),
            decreases local_pieces@.len() - i,
        {
            local.insert(local_pieces[i]);
            proof {
                assert forall|x: u32| #[trigger] local_pieces@.take(i + 1).contains(x) <==> (local_pieces@.take(i as int).contains(x) || x == local_pieces@[i as int]) by {
                    lemma_take_one_more(local_pieces@, i as int, x);
                }
            }
            i = i + 1;
        }
        assert(local_pieces@.take(local_pieces@.len() as int) =~= local_pieces@);
        let mut candidates: Vec<u32> = Vec::new();
        let mut best: Option<u32> = None;
        let mut j: usize = 0;
        while j < peer_pieces.len()
            invariant
                self.wf(),
                0 <= j <= peer_pieces@.len(),
                forall|x: u32| local@.contains(x) <==> local_pieces@.contains(x),
                forall|x: u32| #[trigger] candidates@.contains(x) <==> (peer_pieces@.take(j as int).contains(x) && !local_pieces@.contains(x)),
                best is None <==> candidates@.len() == 0,
                best is Some ==> candidates@.contains(best->Some_0),
                best is Some && self@.strategy == SelectionStrategy::Sequential ==> forall|y: u32|
                    #[trigger] candidates@.contains(y) ==> best->Some_0 <= y,
                best is Some && self@.strategy == SelectionStrategy::RarestFirst ==> forall|y: u32|
                    #[trigger] candidates@.contains(y) ==> rarer_or_equal(self@, best->Some_0, y),
            decreases peer_pieces@.len() - j,
        {
            let x = peer_pieces[j];
            proof {
                assert forall|y: u32| #[trigger] peer_pieces@.take(j + 1).contains(y) <==> (peer_pieces@.take(j as int).contains(y) || y == x) by {
                    lemma_take_one_more(peer_pieces@, j as int, y);
                }
            }
            if !local.contains(&x) {
                let ghost old_c = candidates@;
                candidates.push(x);
                assert forall|y: u32| #[trigger] candidates@.contains(y) <==> (old_c.contains(y) || y == x) by {
                    lemma_push_contains(old_c, x, y);
                }
                best = match best {
                    None => Some(x),
                    Some(b) => {
                        let better = match self.strategy {
                            SelectionStrategy::Sequential => x < b,
                            SelectionStrategy::RarestFirst => {
                                let cx = self.availability(x);
                                let cb = self.availability(b);
                                cx < cb || (cx == cb && x < b)
                            },
                            SelectionStrategy::Random => false,
                        };
                        if better {
                            Some(x)
                        } else {
                            Some(b)
                        }
                    },
                };
            }
            j = j + 1;
        }
        assert(peer_pieces@.take(peer_pieces@.len() as int) =~= peer_pieces@);
        assert forall|y: u32| #[trigger] is_candidate(peer_pieces@, local_pieces@, y) <==> candidates@.contains(y) by {}
        if candidates.len() == 0 {
            assert forall|x: u32| !is_candidate(peer_pieces@, local_pieces@, x) by {
                if is_candidate(peer_pieces@, local_pieces@, x) {
                    assert(candidates@.contains(x));
                }
            }
            return None;
        }
        match self.strategy {
            SelectionStrategy::Random => {
                assert(candidates@.contains(candidates@[0]));
                assert(is_candidate(peer_pieces@, local_pieces@, candidates@[0]));
                assert(self@.strategy == SelectionStrategy::Random);
                let r = choose_random(candidates.as_slice());
                assert(candidates@.contains(r->Some_0));
                r
            },
            _ => {
                assert(candidates@.contains(best->Some_0));
                assert(is_candidate(peer_pieces@, local_pieces@, best->Some_0));
                best
            },
        }
    }

    /// Whether a piece is requested from a peer.
    pub fn is_requested(&self, peer_id: u128, piece_index: u32) -> (r: bool)
        ensures
            r == self@.requests.contains((peer_id, piece_index)),
    {
        let mut i: usize = 0;
        while i < self.requesting.len()
            invariant
                0 <= i <= self.requesting@.len(),
                forall|k: int| 0 <= k < i ==> self.requesting@[k] != (peer_id, piece_index),
            decreases self.requesting@.len() - i,
        {
            let q = self.requesting[i];
            if q.0 == peer_id && q.1 == piece_index {
                assert(self.requesting@.contains((peer_id, piece_index)));
                return true;
            }
            i = i + 1;
        }
        false
    }

    /// Records a request of a piece from a peer.
    pub fn request_piece(&mut self, peer_id: u128, piece_index: u32)
        requires
            old(self).wf(),
        ensures
            final(self).wf(),
            final(self)@.strategy == old(self)@.strategy,
            final(self)@.advertised == old(self)@.advertised,
            final(self)@.requests == old(self)@.requests.insert((peer_id, piece_index)),
    {
        if !self.is_requested(peer_id, piece_index) {
            let ghost before = self.requesting@;
            self.requesting.push((peer_id, piece_index));
            assert(self.requesting@.to_set() =~= before.to_set().insert((peer_id, piece_index))) by {
                assert forall|q: (u128, u32)| self.requesting@.contains(q) <==> (before.contains(q) || q == (peer_id, piece_index)) by {
                    lemma_push_contains(before, (peer_id, piece_index), q);
                }
            }
        } else {
            assert(self@.requests =~= old(self)@.requests.insert((peer_id, piece_index)));
        }
    }

    /// Drops the request of a piece from a peer, once it completed or failed.
    pub fn complete_piece(&mut self, peer_id: u128, piece_index: u32)
        requires
            old(self).wf(),
        ensures
            final(self).wf(),
            final(self)@.strategy == old(self)@.strategy,
            final(self)@.advertised == old(self)@.advertised,
            final(self)@.requests == old(self)@.requests.remove((peer_id, piece_index)),
    {
        let mut i: usize = 0;
        while i < self.requesting.len()
            invariant
                self.wf(),
                self@ == old(self)@,
                0 <= i <= self.requesting@.len(),
                forall|k: int| 0 <= k < i ==> self.requesting@[k] != (peer_id, piece_index),
            decreases self.requesting@.len() - i,
        {
            let q = self.requesting[i];
            if q.0 == peer_id && q.1 == piece_index {
                let ghost before = self.requesting@;
                self.requesting.remove(i);
                assert(self.requesting@ =~= before.remove(i as int));
                assert(self.requesting@.to_set() =~= before.to_set().remove((peer_id, piece_index))) by {
                    assert forall|x: (u128, u32)| self.requesting@.contains(x) <==> (before.contains(x) && x != (peer_id, piece_index)) by {
                        if self.requesting@.contains(x) {
                            let k = choose|k: int| 0 <= k < self.requesting@.len() && #[trigger] self.requesting@[k] == x;
                            if k < i {
                                assert(before[k] == x);
                            } else {
                                assert(before[k + 1] == x);
                                assert(before[k + 1] != before[i as int]);
                            }
                        }
                        if before.contains(x) && x != (peer_id, piece_index) {
                            let k = choose|k: int| 0 <= k < before.len() && #[trigger] before[k] == x;
                            if k < i {
                                assert(self.requesting@[k] == x);
                            } else {
                                assert(k != i);
                                assert(self.requesting@[k - 1] == x);
                            }
                        }
                    }
                }
                return;
            }
            i = i + 1;
        }
        assert(!self.requesting@.contains((peer_id, piece_index)));
        assert(self@.requests =~= old(self)@.requests.remove((peer_id, piece_index)));
    }
}

impl Default for PieceScheduler {
    fn default() -> (r: Self)
        ensures
            r.wf(),
            r@.strategy == SelectionStrategy::RarestFirst,
            r@.requests == Set::<(u128, u32)>::empty(),
            r@.advertised == Seq::<(u128, Set<u32>)>::empty(),
    {
        PieceScheduler::new(SelectionStrategy::RarestFirst)
    }
}

} // verus!
