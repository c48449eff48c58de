//! The peers that trackers have named and the peers that are connected.

use vstd::prelude::*;
use crate::helpers::CONN_LIMIT;

verus! {

/// A peer: its IPv4 address as a number and its port.
pub type Peer = (u32, u16);

/// The two collections of peers as values.
pub struct PoolView {
    /// The peers waiting to be connected to, first come first.
    pub pending: Seq<Peer>,
    /// The peers that are connected.
    pub connected: Seq<Peer>,
}

/// Whether no peer stands twice in `s`.
pub open spec fn no_repeats(s: Seq<Peer>) -> bool {
    forall|a: int, b: int| 0 <= a < b < s.len() ==> s[a] != s[b]
}

/// Whether a pool is consistent: no peer waits twice or is connected
/// twice, and no peer both waits and is connected.
pub open spec fn pool_ok(v: PoolView) -> bool {
    &&& no_repeats(v.pending)
    &&& no_repeats(v.connected)
    &&& forall|a: int, b: int|
        0 <= a < v.pending.len() && 0 <= b < v.connected.len() ==> v.pending[a] != v.connected[b]
}

/// The list after `peer` has joined it, unless it is there or in `other`.
pub open spec fn joined(list: Seq<Peer>, other: Seq<Peer>, peer: Peer) -> Seq<Peer> {
    if list.contains(peer) || other.contains(peer) {
        list
    } else {
        list.push(peer)
    }
}

/// The pending peers after the first `n` of `peers` have been named by a
/// tracker, one after the other.
pub open spec fn named(pending: Seq<Peer>, connected: Seq<Peer>, peers: Seq<Peer>, n: nat) -> Seq<
    Peer,
>
    decreases n,
{
    if n == 0 {
        pending
    } else {
        joined(named(pending, connected, peers, (n - 1) as nat), connected, peers[n - 1])
    }
}

/// The list without `peer`.
pub open spec fn left_out(list: Seq<Peer>, peer: Peer) -> Seq<Peer> {
    list.filter(|p: Peer| p != peer)
}

/// What the session spawner does next.
#[derive(Debug, Clone, Copy)]
pub enum SpawnStep {
    /// Every piece is there: end the loop.
    Stop,
    /// As many peers are connected as may be, or none is pending: look
    /// again later.
    Wait,
    /// Connect to this peer.
    Connect(Peer),
}

/// The peers that trackers have named and that wait to be connected to,
/// and the peers that are connected.
pub struct PeerPool {
    pending: Vec<Peer>,
    connected: Vec<Peer>,
}

impl View for PeerPool {
    type V = PoolView;

    closed spec fn view(&self) -> PoolView {
        PoolView { pending: self.pending@, connected: self.connected@ }
    }
}

fn position(list: &Vec<Peer>, peer: Peer) -> (at: Option<usize>)
    ensures
        match at {
            Some(i) => i < list@.len() && list@[i as int] == peer,
            None => !list@.contains(peer),
        },
{
    let mut i: usize = 0;
    while i < list.len()
        invariant
            i <= list@.len(),
            forall|k: int| 0 <= k < i ==> list@[k] != peer,
        decreases list@.len() - i,
    {
        if list[i].0 == peer.0 && list[i].1 == peer.1 {
            return Some(i);
        }
        i += 1;
    }
    None
}

proof fn lemma_remove_is_left_out(list: Seq<Peer>, i: int)
    requires
        no_repeats(list),
        0 <= i < list.len(),
    ensures
        list.remove(i) == left_out(list, list[i]),
        no_repeats(list.remove(i)),
    decreases list.len(),
{
    let peer = list[i];
    let keep = |p: Peer| p != peer;
    reveal(Seq::filter);
    if i == list.len() - 1 {
        lemma_left_out_absent(list.drop_last(), peer);
        assert(list.remove(i) =~= list.drop_last());
    } else {
        lemma_remove_is_left_out(list.drop_last(), i);
        assert(list.drop_last()[i] == peer);
        assert(list.remove(i) =~= list.drop_last().remove(i).push(list.last()));
    }
}

proof fn lemma_left_out_absent(list: Seq<Peer>, peer: Peer)
    requires
        !list.contains(peer),
    ensures
        left_out(list, peer) == list,
    decreases list.len(),
{
    reveal(Seq::filter);
    if list.len() > 0 {
        assert(forall|k: int| 0 <= k < list.drop_last().len() ==> list.drop_last()[k] == list[k]);
        lemma_left_out_absent(list.drop_last(), peer);
        assert(list.last() != peer);
        assert(list.drop_last().push(list.last()) =~= list);
    }
}

impl PeerPool {
    #[verifier::type_invariant]
    spec fn consistent(self) -> bool {
        pool_ok(self@)
    }

    /// A pool without peers.
    pub fn new() -> (pool: PeerPool)
        ensures
            pool@.pending.len() == 0,
            pool@.connected.len() == 0,
    {
        PeerPool { pending: Vec::new(), connected: Vec::new() }
    }

    /// Number of peers waiting to be connected to. Every pool is
    /// consistent.
    pub fn pending_len(&self) -> (n: usize)
        ensures
            n == self@.pending.len(),
            pool_ok(self@),
    {
        proof {
            use_type_invariant(self);
        }
        self.pending.len()
    }

    /// Number of peers that are connected.
    pub fn connected_len(&self) -> (n: usize)
        ensures
            n == self@.connected.len(),
    {
        self.connected.len()
    }

    /// Whether `peer` is connected.
    pub fn is_connected(&self, peer: Peer) -> (yes: bool)
        ensures
            yes == self@.connected.contains(peer),
    {
        position(&self.connected, peer).is_some()
    }

    /// Takes note of a peer that a tracker has named: it waits at the end
    /// of the queue, unless it waits already or is connected.
    pub fn enqueue(&mut self, peer: Peer)
        ensures
            final(self)@.pending == joined(old(self)@.pending, old(self)@.connected, peer),
            final(self)@.connected == old(self)@.connected,
    {
        proof {
            use_type_invariant(&*self);
        }
        if position(&self.pending, peer).is_none() && position(&self.connected, peer).is_none() {
            let mut pending: Vec<Peer> = Vec::new();
            core::mem::swap(&mut self.pending, &mut pending);
            pending.push(peer);
            core::mem::swap(&mut self.pending, &mut pending);
        }
    }

    /// Takes note of the peers that a tracker has named, one after the
    /// other.
    pub fn enqueue_all(&mut self, peers: &Vec<Peer>)
        ensures
            final(self)@.pending == named(
                old(self)@.pending,
                old(self)@.connected,
                peers@,
                peers@.len(),
            ),
            final(self)@.connected == old(self)@.connected,
    {
        let mut i: usize = 0;
        while i < peers.len()
            invariant
                i <= peers@.len(),
                self@.pending == named(old(self)@.pending, old(self)@.connected, peers@, i as nat),
                self@.connected == old(self)@.connected,
            decreases peers@.len() - i,
        {
            self.enqueue(peers[i]);
            i += 1;
        }
    }

    /// Says what the session spawner does next: it ends once no piece is
    /// left, waits while as many peers are connected as may be or none is
    /// pending, and otherwise takes the peer that has waited longest out of
    /// the queue to be connected to.
    pub fn next_peer(&mut self, pieces_left: usize) -> (step: SpawnStep)
        ensures
            final(self)@.connected == old(self)@.connected,
            step == (if pieces_left == 0 {
                SpawnStep::Stop
            } else if old(self)@.connected.len() >= CONN_LIMIT || old(self)@.pending.len() == 0 {
                SpawnStep::Wait
            } else {
                SpawnStep::Connect(old(self)@.pending[0])
            }),
            final(self)@.pending == (if step is Connect {
                old(self)@.pending.skip(1)
            } else {
                old(self)@.pending
            }),
    {
        proof {
            use_type_invariant(&*self);
        }
        if pieces_left == 0 {
            return SpawnStep::Stop;
        }
        if self.connected.len() >= CONN_LIMIT as usize || self.pending.len() == 0 {
            return SpawnStep::Wait;
        }
        let mut pending: Vec<Peer> = Vec::new();
        core::mem::swap(&mut self.pending, &mut pending);
        let peer = pending.remove(0);
        proof {
            assert(pending@ =~= old(self)@.pending.skip(1));
        }
        core::mem::swap(&mut self.pending, &mut pending);
        SpawnStep::Connect(peer)
    }

    /// Takes note that the handshake with `peer` has succeeded: the peer is
    /// connected and waits no longer. Returns false, and changes nothing,
    /// where the peer was connected already.
    pub fn connected(&mut self, peer: Peer) -> (fresh: bool)
        ensures
            fresh == !old(self)@.connected.contains(peer),
            final(self)@.connected == (if fresh {
                old(self)@.connected.push(peer)
            } else {
                old(self)@.connected
            }),
            final(self)@.pending == left_out(old(self)@.pending, peer),
    {
        proof {
            use_type_invariant(&*self);
        }
        if position(&self.connected, peer).is_some() {
            proof {
                lemma_left_out_absent(self.pending@, peer);
            }
            return false;
        }
        let mut pending: Vec<Peer> = Vec::new();
        core::mem::swap(&mut self.pending, &mut pending);
        match position(&pending, peer) {
            Some(i) => {
                proof {
                    lemma_remove_is_left_out(pending@, i as int);
                }
                pending.remove(i);
            },
            None => {
                proof {
                    lemma_left_out_absent(pending@, peer);
                }
            },
        }
        let mut connected: Vec<Peer> = Vec::new();
        core::mem::swap(&mut self.connected, &mut connected);
        connected.push(peer);
        proof {
            assert(!pending@.contains(peer)) by {
                reveal(Seq::filter);
                lemma_not_in_left_out(old(self)@.pending, peer);
            }
            assert forall|a: int, b: int|
                0 <= a < pending@.len() && 0 <= b < connected@.len() implies pending@[a]
                != connected@[b] by {
                lemma_left_out_subset(old(self)@.pending, peer, pending@[a]);
                if b < old(self)@.connected.len() {
                    let k = choose|k: int|
                        0 <= k < old(self)@.pending.len() && old(self)@.pending[k] == pending@[a];
                }
            }
        }
        core::mem::swap(&mut self.pending, &mut pending);
        core::mem::swap(&mut self.connected, &mut connected);
        true
    }

    /// Takes note that the session with `peer` has ended: the peer is no
    /// longer connected.
    pub fn disconnected(&mut self, peer: Peer)
        ensures
            final(self)@.connected == left_out(old(self)@.connected, peer),
            final(self)@.pending == old(self)@.pending,
    {
        proof {
            use_type_invariant(&*self);
        }
        let mut connected: Vec<Peer> = Vec::new();
        core::mem::swap(&mut self.connected, &mut connected);
        match position(&connected, peer) {
            Some(i) => {
                proof {
                    lemma_remove_is_left_out(connected@, i as int);
                }
                connected.remove(i);
                proof {
                    assert forall|a: int, b: int|
                        0 <= a < self.pending@.len() && 0 <= b < connected@.len() implies
                        self.pending@[a]
                        != connected@[b] by {
                        lemma_left_out_subset(old(self)@.connected, peer, connected@[b]);
                        let k = choose|k: int|
                            0 <= k < old(self)@.connected.len() && old(self)@.connected[k]
                                == connected@[b];
                    }
                }
            },
            None => {
                proof {
                    lemma_left_out_absent(connected@, peer);
                }
            },
        }
        core::mem::swap(&mut self.connected, &mut connected);
    }
}

proof fn lemma_not_in_left_out(list: Seq<Peer>, peer: Peer)
    ensures
        !left_out(list, peer).contains(peer),
    decreases list.len(),
{
    reveal(Seq::filter);
    if list.len() > 0 {
        lemma_not_in_left_out(list.drop_last(), peer);
        let front = left_out(list.drop_last(), peer);
        if left_out(list, peer).contains(peer) {
            let k = choose|k: int|
                0 <= k < left_out(list, peer).len() && left_out(list, peer)[k] == peer;
            if k < front.len() {
                assert(front[k] == peer);
            }
        }
    }
}

proof fn lemma_left_out_subset(list: Seq<Peer>, peer: Peer, x: Peer)
    requires
        left_out(list, peer).contains(x),
    ensures
        list.contains(x),
    decreases list.len(),
{
    reveal(Seq::filter);
    if list.len() > 0 {
        let front = left_out(list.drop_last(), peer);
        let k = choose|k: int| 0 <= k < left_out(list, peer).len() && left_out(list, peer)[k] == x;
        if k < front.len() {
            assert(front[k] == x);
            lemma_left_out_subset(list.drop_last(), peer, x);
            let j = choose|j: int| 0 <= j < list.drop_last().len() && list.drop_last()[j] == x;
            assert(list[j] == x);
        } else {
            assert(list[list.len() - 1] == x);
        }
    }
}

} // verus!
