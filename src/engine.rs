//! The dissemination engine for broadcast values: what a node sends to
//! which peer on each tick, under one of two strategies.
use vstd::prelude::*;
use crate::broadcast::SeenSet;
use crate::cluster::{ids_view, peers, peers_of};
use crate::outbox::{entries_of, Entry, Outbox, Pending};

verus! {

/// How updates reach the peers.
#[derive(Clone, Copy, Debug, PartialEq, Eq, Structural)]
pub enum Strategy {
    /// Every tick, send the whole set to every peer.
    FullState,
    /// Send each new value to every peer, again on every tick, until that
    /// peer acknowledges it.
    DeltaWithAck,
}

/// A gossip message a tick sends: to `dest`, the values `values`, numbered
/// `seq` where the peer is to acknowledge it.
#[derive(Clone, Debug)]
pub struct Outgoing {
    pub dest: String,
    pub seq: Option<u64>,
    pub values: Vec<u64>,
}

/// `out` sends the whole set `seen`, unnumbered, to each of `peers`, in
/// order.
pub open spec fn full_state_sends(out: Seq<Outgoing>, peers: Seq<Seq<char>>, seen: Set<u64>) -> bool {
    &&& out.len() == peers.len()
    &&& forall|k: int|
        0 <= k < out.len() ==> (#[trigger] out[k]).dest@ == peers[k] && out[k].seq is None
            && out[k].values@.to_set() == seen
}

/// `out` sends each update of `pending`, in order, to its peer with its
/// number.
pub open spec fn delta_sends(out: Seq<Outgoing>, pending: Seq<Entry>) -> bool {
    &&& out.len() == pending.len()
    &&& forall|k: int|
        0 <= k < out.len() ==> (#[trigger] out[k]).dest@ == pending[k].1 && out[k].seq == Some(
            pending[k].0,
        ) && out[k].values@ == seq![pending[k].2]
}

/// A broadcast node: the values it has seen and what it still owes its
/// peers.
pub struct BroadcastNode {
    strategy: Strategy,
    peers: Vec<String>,
    seen: SeenSet,
    outbox: Outbox,
}

impl BroadcastNode {
    pub closed spec fn strategy(&self) -> Strategy {
        self.strategy
    }

    pub closed spec fn peers(&self) -> Seq<Seq<char>> {
        ids_view(self.peers@)
    }

    /// The values seen.
    pub closed spec fn seen(&self) -> Set<u64> {
        self.seen@
    }

    /// The updates waiting for an acknowledgement.
    pub closed spec fn pending(&self) -> Seq<Entry> {
        self.outbox.entries()
    }

    /// The sequence number the next queued update gets.
    pub closed spec fn next_seq(&self) -> u64 {
        self.outbox.next_seq()
    }

    pub closed spec fn wf(&self) -> bool {
        &&& self.seen.wf()
        &&& self.outbox.wf()
        &&& self.strategy == Strategy::FullState ==> self.outbox.entries().len() == 0
    }

    /// Node `me` of the cluster `node_ids`, with nothing seen yet.
    pub fn new(me: &String, node_ids: &Vec<String>, strategy: Strategy) -> (r: BroadcastNode)
        ensures
            r.wf(),
            r.strategy() == strategy,
            r.peers() == peers_of(me@, ids_view(node_ids@)),
            r.seen() == Set::<u64>::empty(),
            r.pending() == Seq::<Entry>::empty(),
    {
        BroadcastNode {
            strategy,
            peers: peers(me, node_ids),
            seen: SeenSet::new(),
            outbox: Outbox::new(),
        }
    }

    /// A `broadcast` request: `v` is seen from now on. Under
    /// `DeltaWithAck` a value new to this node is queued for every peer,
    /// unless the sequence numbers ran out, which the result tells.
    pub fn broadcast(&mut self, v: u64) -> (r: bool)
        requires
            old(self).wf(),
        ensures
            final(self).wf(),
            final(self).seen() == old(self).seen().insert(v),
            final(self).strategy() == old(self).strategy(),
            final(self).peers() == old(self).peers(),
            old(self).strategy() == Strategy::FullState || old(self).seen().contains(v) ==> r
                && final(self).pending() == old(self).pending(),
            old(self).strategy() == Strategy::DeltaWithAck && !old(self).seen().contains(v) ==> (r
                == (old(self).next_seq() + old(self).peers().len() <= u64::MAX)),
            old(self).strategy() == Strategy::DeltaWithAck && !old(self).seen().contains(v) ==> (
            r ==> final(self).pending() == old(self).pending() + Seq::new(
                old(self).peers().len(),
                |k: int| ((old(self).next_seq() + k) as u64, old(self).peers()[k], v),
            )) && (!r ==> final(self).pending() == old(self).pending()),
    {
        let fresh = self.seen.insert(v);
        assert(self.peers().len() == self.peers@.len());
        if fresh && self.strategy == Strategy::DeltaWithAck {
            self.outbox.enqueue_all(&self.peers, v)
        } else {
            true
        }
    }

    /// A gossip message from a peer: its values are merged in.
    pub fn receive(&mut self, values: &Vec<u64>)
        requires
            old(self).wf(),
        ensures
            final(self).wf(),
            final(self).seen() == crate::broadcast::merged(old(self).seen(), values@),
            final(self).strategy() == old(self).strategy(),
            final(self).peers() == old(self).peers(),
            final(self).pending() == old(self).pending(),
    {
        self.seen.merge(values);
    }

    /// A peer acknowledged update `seq`.
    pub fn acknowledge(&mut self, seq: u64)
        requires
            old(self).wf(),
        ensures
            final(self).wf(),
            final(self).seen() == old(self).seen(),
            final(self).strategy() == old(self).strategy(),
            final(self).peers() == old(self).peers(),
            final(self).pending() == crate::outbox::without_seq(old(self).pending(), seq),
    {
        let _ = self.outbox.ack(seq);
        proof {
            if self.strategy == Strategy::FullState {
                assert(crate::outbox::without_seq(Seq::<Entry>::empty(), seq) =~= Seq::<
                    Entry,
                >::empty());
            }
        }
    }

    /// The answer to a `read` request: every value seen, once.
    pub fn read(&self) -> (r: Vec<u64>)
        requires
            self.wf(),
        ensures
            r@.to_set() == self.seen(),
            r@.no_duplicates(),
    {
        self.seen.snapshot()
    }

    /// What to send on this tick. `FullState`: the whole set, unnumbered,
    /// to each peer. `DeltaWithAck`: each pending update, to its peer,
    /// with its number.
    pub fn tick(&self) -> (r: Vec<Outgoing>)
        requires
            self.wf(),
        ensures
            self.strategy() == Strategy::FullState ==> full_state_sends(
                r@,
                self.peers(),
                self.seen(),
            ),
            self.strategy() == Strategy::DeltaWithAck ==> delta_sends(r@, self.pending()),
    {
        let mut r: Vec<Outgoing> = Vec::new();
        match self.strategy {
            Strategy::FullState => {
                let mut k: usize = 0;
                while k < self.peers.len()
                    invariant
                        self.wf(),
                        self.strategy == Strategy::FullState,
                        0 <= k <= self.peers@.len(),
                        full_state_sends(r@, self.peers().subrange(0, k as int), self.seen()),
                    decreases self.peers@.len() - k,
                {
                    let values = self.seen.snapshot();
                    assert(self.peers()[k as int] == self.peers@[k as int]@);
                    r.push(Outgoing { dest: self.peers[k].clone(), seq: None, values });
                    k = k + 1;
                }
                assert(self.peers().subrange(0, k as int) == self.peers());
            },
            Strategy::DeltaWithAck => {
                let due = self.outbox.due();
                let ghost es = self.pending();
                let mut k: usize = 0;
                while k < due.len()
                    invariant
                        self.strategy == Strategy::DeltaWithAck,
                        es == self.pending(),
                        entries_of(due@) == es,
                        0 <= k <= due@.len(),
                        delta_sends(r@, es.subrange(0, k as int)),
                    decreases due@.len() - k,
                {
                    let p: &Pending = &due[k];
                    assert(es[k as int] == (p.seq, p.dest@, p.value));
                    let mut values: Vec<u64> = Vec::new();
                    values.push(p.value);
                    assert(values@ =~= seq![p.value]);
                    r.push(Outgoing { dest: p.dest.clone(), seq: Some(p.seq), values });
                    k = k + 1;
                }
                assert(es.subrange(0, k as int) == es);
            },
        }
        r
    }
}

} // verus!
