//! The grow-only set of broadcast values that a node has seen, and the
//! union merge by which gossip makes the replicas agree.
use vstd::prelude::*;

verus! {

/// The set after merging a gossip payload into `seen`.
pub open spec fn merged(seen: Set<u64>, payload: Seq<u64>) -> Set<u64> {
    seen + payload.to_set()
}

/// The union of what a whole cluster holds, given each node's full-state
/// payload.
pub open spec fn union_all(payloads: Seq<Seq<u64>>) -> Set<u64>
    decreases payloads.len(),
{
    if payloads.len() == 0 {
        Set::empty()
    } else {
        union_all(payloads.drop_last()) + payloads.last().to_set()
    }
}

/// The set of a node after it merged, in order, each payload of `payloads`.
pub open spec fn merged_from_all(seen: Set<u64>, payloads: Seq<Seq<u64>>) -> Set<u64>
    decreases payloads.len(),
{
    if payloads.len() == 0 {
        seen
    } else {
        merged(merged_from_all(seen, payloads.drop_last()), payloads.last())
    }
}

/// Merging the same payload twice leaves the set as merging it once.
pub proof fn lemma_merge_idempotent(seen: Set<u64>, payload: Seq<u64>)
    ensures
        merged(merged(seen, payload), payload) == merged(seen, payload),
{
    assert(merged(merged(seen, payload), payload) =~= merged(seen, payload));
}

/// Two payloads merged in either order give the same set.
pub proof fn lemma_merge_commutes(seen: Set<u64>, p: Seq<u64>, q: Seq<u64>)
    ensures
        merged(merged(seen, p), q) == merged(merged(seen, q), p),
{
    assert(merged(merged(seen, p), q) =~= merged(merged(seen, q), p));
}

proof fn lemma_merged_from_all_is_union(seen: Set<u64>, payloads: Seq<Seq<u64>>)
    ensures
        merged_from_all(seen, payloads) == seen + union_all(payloads),
    decreases payloads.len(),
{
    if payloads.len() == 0 {
        assert(seen + Set::<u64>::empty() =~= seen);
    } else {
        lemma_merged_from_all_is_union(seen, payloads.drop_last());
        assert(merged_from_all(seen, payloads) =~= seen + union_all(payloads));
    }
}

proof fn lemma_payload_within_union(payloads: Seq<Seq<u64>>, i: int)
    requires
        0 <= i < payloads.len(),
    ensures
        payloads[i].to_set().subset_of(union_all(payloads)),
    decreases payloads.len(),
{
    if i < payloads.len() - 1 {
        lemma_payload_within_union(payloads.drop_last(), i);
    }
}

/// Once every node of a cluster has merged the full-state payload of every
/// node (its own included, which changes nothing), every node holds the
/// union of what all of them held: the replicas agree.
pub proof fn lemma_broadcast_converges(payloads: Seq<Seq<u64>>, i: int, j: int)
    requires
        0 <= i < payloads.len(),
        0 <= j < payloads.len(),
    ensures
        merged_from_all(payloads[i].to_set(), payloads) == union_all(payloads),
        merged_from_all(payloads[i].to_set(), payloads) == merged_from_all(
            payloads[j].to_set(),
            payloads,
        ),
{
    lemma_merged_from_all_is_union(payloads[i].to_set(), payloads);
    lemma_merged_from_all_is_union(payloads[j].to_set(), payloads);
    lemma_payload_within_union(payloads, i);
    lemma_payload_within_union(payloads, j);
    assert(payloads[i].to_set() + union_all(payloads) =~= union_all(payloads));
    assert(payloads[j].to_set() + union_all(payloads) =~= union_all(payloads));
}

/// Values seen by a node, each held once.
pub struct SeenSet {
    items: Vec<u64>,
}

impl View for SeenSet {
    type V = Set<u64>;

    closed spec fn view(&self) -> Set<u64> {
        self.items@.to_set()
    }
}

impl SeenSet {
    /// No value is held twice.
    pub closed spec fn wf(&self) -> bool {
        self.items@.no_duplicates()
    }

    pub fn new() -> (r: SeenSet)
        ensures
            r.wf(),
            r@ == Set::<u64>::empty(),
    {
        let r = SeenSet { items: Vec::new() };
        assert(r@ =~= Set::<u64>::empty());
        r
    }

    /// Whether `v` has been seen.
    pub fn contains(&self, v: u64) -> (r: bool)
        requires
            self.wf(),
        ensures
            r == self@.contains(v),
    {
        let mut i: usize = 0;
        while i < self.items.len()
            invariant
                0 <= i <= self.items.len(),
                forall|j: int| 0 <= j < i ==> self.items@[j] != v,
            decreases self.items.len() - i,
        {
            if self.items[i] == v {
                assert(self.items@.to_set().contains(self.items@[i as int]));
                return true;
            }
            i = i + 1;
        }
        proof {
            if self.items@.to_set().contains(v) {
                let k = choose|k: int| 0 <= k < self.items@.len() && self.items@[k] == v;
                assert(self.items@[k] == v);
            }
        }
        false
    }

    /// Records `v`; returns whether it was new.
    pub fn insert(&mut self, v: u64) -> (r: bool)
        requires
            old(self).wf(),
        ensures
            final(self).wf(),
            final(self)@ == old(self)@.insert(v),
            r == !old(self)@.contains(v),
    {
        if self.contains(v) {
            assert(self@.insert(v) =~= self@);
            false
        } else {
            let ghost before = self.items@;
            self.items.push(v);
            proof {
                assert(self.items@ == before.push(v));
                assert forall|i: int, j: int|
                    0 <= i < j < self.items@.len() implies self.items@[i] != self.items@[j] by {
                    if j == before.len() {
                        assert(before.contains(before[i]));
                    }
                }
                before.lemma_push_to_set_commute(v);
            }
            true
        }
    }

    /// Merges a gossip payload: the set becomes the union of both.
    pub fn merge(&mut self, payload: &Vec<u64>)
        requires
            old(self).wf(),
        ensures
            final(self).wf(),
            final(self)@ == merged(old(self)@, payload@),
    {
        let ghost start = self@;
        let mut i: usize = 0;
        while i < payload.len()
            invariant
                self.wf(),
                0 <= i <= payload.len(),
                self@ == merged(start, payload@.subrange(0, i as int)),
            decreases payload.len() - i,
        {
            let ghost before = self@;
            self.insert(payload[i]);
            proof {
                let p = payload@.subrange(0, i as int);
                assert(payload@.subrange(0, i + 1) == p.push(payload@[i as int]));
                p.lemma_push_to_set_commute(payload@[i as int]);
                assert(self@ =~= merged(start, payload@.subrange(0, i + 1)));
            }
            i = i + 1;
        }
        assert(payload@.subrange(0, payload@.len() as int) == payload@);
    }

    /// The full state, for a `read` reply or a gossip payload: every seen
    /// value once.
    pub fn snapshot(&self) -> (r: Vec<u64>)
        requires
            self.wf(),
        ensures
            r@.to_set() == self@,
            r@.no_duplicates(),
    {
        self.items.clone()
    }
}

} // verus!
