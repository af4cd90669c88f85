//! A grow-only counter replicated by gossip: each node counts what was added
//! at it, learns the cumulative count of every peer, and reads the sum.
use vstd::prelude::*;
use crate::cluster::{ids_view, peers, peers_of};

verus! {

/// The sum of a sequence of counts.
pub open spec fn sum(s: Seq<u64>) -> int
    decreases s.len(),
{
    if s.len() == 0 {
        0
    } else {
        sum(s.drop_last()) + s.last()
    }
}

/// The counts after `sender` reported the cumulative count `reported`:
/// each slot of that sender keeps the larger of the two values.
pub open spec fn merge_counts(
    peers: Seq<Seq<char>>,
    counts: Seq<u64>,
    sender: Seq<char>,
    reported: u64,
) -> Seq<u64> {
    Seq::new(
        counts.len(),
        |k: int|
            if k < peers.len() && peers[k] == sender && counts[k] < reported {
                reported
            } else {
                counts[k]
            },
    )
}

/// The counts after each peer `k` reported `reports[k]`, in order.
pub open spec fn merge_reports(peers: Seq<Seq<char>>, counts: Seq<u64>, reports: Seq<u64>) -> Seq<
    u64,
>
    decreases reports.len(),
{
    if reports.len() == 0 {
        counts
    } else {
        let k = reports.len() - 1;
        merge_counts(peers, merge_reports(peers, counts, reports.drop_last()), peers[k], reports[k])
    }
}

/// A node's share of a grow-only counter.
pub struct GCounter {
    node_id: String,
    local: u64,
    peers: Vec<String>,
    counts: Vec<u64>,
}

impl GCounter {
    /// This node's id.
    pub closed spec fn me(&self) -> Seq<char> {
        self.node_id@
    }

    /// The sum of the deltas added at this node.
    pub closed spec fn local(&self) -> u64 {
        self.local
    }

    /// The other nodes of the cluster, in a fixed order.
    pub closed spec fn peers(&self) -> Seq<Seq<char>> {
        self.peers@.map_values(|s: String| s@)
    }

    /// The latest cumulative count known of each peer, in the order of
    /// `peers()`.
    pub closed spec fn counts(&self) -> Seq<u64> {
        self.counts@
    }

    /// The counter's value as this node sees it.
    pub open spec fn total(&self) -> int {
        self.local() + sum(self.counts())
    }

    /// One count per peer, peers held once each, and this node not among
    /// them.
    pub open spec fn shaped(&self) -> bool {
        &&& self.counts().len() == self.peers().len()
        &&& self.peers().no_duplicates()
        &&& !self.peers().contains(self.me())
    }

    pub closed spec fn wf(&self) -> bool {
        &&& self.peers@.len() == self.counts@.len()
        &&& self.peers().no_duplicates()
        &&& !self.peers().contains(self.node_id@)
    }

    /// A counter at zero for node `node_id` of the cluster `node_ids`.
    pub fn new(node_id: String, node_ids: &Vec<String>) -> (r: GCounter)
        ensures
            r.wf(),
            r.shaped(),
            r.me() == node_id@,
            r.local() == 0,
            r.peers() == peers_of(node_id@, ids_view(node_ids@)),
            r.counts() == Seq::new(r.peers().len(), |k: int| 0u64),
    {
        let peers = peers(&node_id, node_ids);
        let mut counts: Vec<u64> = Vec::new();
        let mut i: usize = 0;
        while i < peers.len()
            invariant
                0 <= i <= peers@.len(),
                counts@ == Seq::new(i as nat, |k: int| 0u64),
            decreases peers@.len() - i,
        {
            counts.push(0);
            assert(counts@ =~= Seq::new((i + 1) as nat, |k: int| 0u64));
            i = i + 1;
        }
        assert(ids_view(peers@) == peers@.map_values(|s: String| s@));
        GCounter { node_id, local: 0, peers, counts }
    }

    /// What this node reports to its peers: its cumulative local count.
    pub fn contribution(&self) -> (r: u64)
        ensures
            r == self.local(),
    {
        self.local
    }

    /// Adds `delta` at this node.
    pub fn add(&mut self, delta: u64)
        requires
            old(self).local() + delta <= u64::MAX,
        ensures
            final(self).local() == old(self).local() + delta,
            final(self).me() == old(self).me(),
            final(self).peers() == old(self).peers(),
            final(self).counts() == old(self).counts(),
            old(self).wf() ==> final(self).wf(),
            old(self).shaped() ==> final(self).shaped(),
    {
        self.local = self.local + delta;
    }

    /// Takes in the cumulative count `reported` by `sender`; returns whether
    /// `sender` is a peer of this node. A report never lowers what is known.
    pub fn merge(&mut self, sender: &String, reported: u64) -> (r: bool)
        requires
            old(self).wf(),
        ensures
            final(self).wf(),
            final(self).shaped(),
            final(self).me() == old(self).me(),
            final(self).local() == old(self).local(),
            final(self).peers() == old(self).peers(),
            final(self).counts() == merge_counts(
                old(self).peers(),
                old(self).counts(),
                sender@,
                reported,
            ),
            r == old(self).peers().contains(sender@),
    {
        let ghost start = self.counts@;
        let ghost pv = self.peers();
        let mut found = false;
        let mut k: usize = 0;
        while k < self.peers.len()
            invariant
                0 <= k <= self.peers@.len(),
                self.peers@.len() == self.counts@.len(),
                pv == self.peers(),
                self.wf(),
                self.me() == old(self).me(),
                self.local() == old(self).local(),
                self.counts@.len() == start.len(),
                forall|m: int|
                    0 <= m < k ==> self.counts@[m] == merge_counts(pv, start, sender@, reported)[m],
                forall|m: int| k <= m < start.len() ==> self.counts@[m] == start[m],
                found == exists|m: int| 0 <= m < k && pv[m] == sender@,
            decreases self.peers@.len() - k,
        {
            assert(pv[k as int] == self.peers@[k as int]@);
            if self.peers[k] == *sender {
                found = true;
                if self.counts[k] < reported {
                    self.counts.set(k, reported);
                }
            }
            k = k + 1;
        }
        assert(self.counts@ =~= merge_counts(pv, start, sender@, reported));
        proof {
            if pv.contains(sender@) {
                let m = choose|m: int| 0 <= m < pv.len() && pv[m] == sender@;
                assert(pv[m] == sender@);
            }
        }
        found
    }

    /// The full-state gossip of one tick: this node's cumulative count, for
    /// each peer.
    pub fn gossip(&self) -> (r: Vec<(String, u64)>)
        requires
            self.wf(),
        ensures
            r@.len() == self.peers().len(),
            forall|k: int|
                0 <= k < r@.len() ==> r@[k].0@ == self.peers()[k] && r@[k].1 == self.local(),
    {
        let mut r: Vec<(String, u64)> = Vec::new();
        let mut k: usize = 0;
        while k < self.peers.len()
            invariant
                0 <= k <= self.peers@.len(),
                r@.len() == k,
                forall|m: int|
                    0 <= m < k ==> r@[m].0@ == self.peers()[m] && r@[m].1 == self.local(),
            decreases self.peers@.len() - k,
        {
            r.push((self.peers[k].clone(), self.local));
            k = k + 1;
        }
        r
    }

    /// The counter's value: this node's count plus every peer's latest
    /// count; `None` where that sum does not fit in a `u64`.
    pub fn read(&self) -> (r: Option<u64>)
        requires
            self.wf(),
        ensures
            r == (if self.total() <= u64::MAX {
                Some(self.total() as u64)
            } else {
                None
            }),
    {
        let mut acc: u64 = self.local;
        let mut k: usize = 0;
        while k < self.counts.len()
            invariant
                0 <= k <= self.counts@.len(),
                acc == self.local() + sum(self.counts@.subrange(0, k as int)),
            decreases self.counts@.len() - k,
        {
            proof {
                let s = self.counts@;
                assert(s.subrange(0, k + 1).drop_last() == s.subrange(0, k as int));
                lemma_sum_prefix_le(s, k + 1, s.len() as int);
                assert(s.subrange(0, s.len() as int) == s);
            }
            if acc > u64::MAX - self.counts[k] {
                return None;
            }
            acc = acc + self.counts[k];
            k = k + 1;
        }
        assert(self.counts@.subrange(0, self.counts@.len() as int) == self.counts@);
        Some(acc)
    }
}

proof fn lemma_sum_prefix_le(s: Seq<u64>, i: int, j: int)
    requires
        0 <= i <= j <= s.len(),
    ensures
        sum(s.subrange(0, i)) <= sum(s.subrange(0, j)),
    decreases j - i,
{
    if i < j {
        lemma_sum_prefix_le(s, i, j - 1);
        assert(s.subrange(0, j).drop_last() == s.subrange(0, j - 1));
    }
}


/// A report merged twice leaves the counts as merging it once.
pub proof fn lemma_counter_merge_idempotent(
    peers: Seq<Seq<char>>,
    counts: Seq<u64>,
    sender: Seq<char>,
    reported: u64,
)
    ensures
        merge_counts(peers, merge_counts(peers, counts, sender, reported), sender, reported)
            == merge_counts(peers, counts, sender, reported),
{
    assert(merge_counts(peers, merge_counts(peers, counts, sender, reported), sender, reported)
        =~= merge_counts(peers, counts, sender, reported));
}

/// Two reports merged in either order give the same counts.
pub proof fn lemma_counter_merge_commutes(
    peers: Seq<Seq<char>>,
    counts: Seq<u64>,
    a: Seq<char>,
    va: u64,
    b: Seq<char>,
    vb: u64,
)
    ensures
        merge_counts(peers, merge_counts(peers, counts, a, va), b, vb) == merge_counts(
            peers,
            merge_counts(peers, counts, b, vb),
            a,
            va,
        ),
{
    assert(merge_counts(peers, merge_counts(peers, counts, a, va), b, vb) =~= merge_counts(
        peers,
        merge_counts(peers, counts, b, vb),
        a,
        va,
    ));
}

proof fn lemma_peers_of_distinct(me: Seq<char>, ids: Seq<Seq<char>>)
    requires
        ids.no_duplicates(),
        !ids.contains(me),
    ensures
        peers_of(me, ids) == ids,
    decreases ids.len(),
{
    if ids.len() > 0 {
        let d = ids.drop_last();
        assert(d.no_duplicates());
        assert(!d.contains(me)) by {
            if d.contains(me) {
                let m = choose|m: int| 0 <= m < d.len() && d[m] == me;
                assert(ids[m] == me);
            }
        }
        lemma_peers_of_distinct(me, d);
        assert(ids.last() != me) by {
            assert(ids.contains(ids.last()));
        }
        assert(!d.contains(ids.last())) by {
            if d.contains(ids.last()) {
                let m = choose|m: int| 0 <= m < d.len() && d[m] == ids.last();
                assert(ids[m] == ids[ids.len() - 1]);
            }
        }
        assert(d.push(ids.last()) == ids);
    }
}

proof fn lemma_peers_of_member(ids: Seq<Seq<char>>, i: int)
    requires
        ids.no_duplicates(),
        0 <= i < ids.len(),
    ensures
        peers_of(ids[i], ids) == ids.remove(i),
    decreases ids.len(),
{
    let me = ids[i];
    let d = ids.drop_last();
    assert(d.no_duplicates());
    if i == ids.len() - 1 {
        assert(!d.contains(me)) by {
            if d.contains(me) {
                let m = choose|m: int| 0 <= m < d.len() && d[m] == me;
                assert(ids[m] == ids[i]);
            }
        }
        lemma_peers_of_distinct(me, d);
        assert(ids.remove(i) =~= d);
    } else {
        assert(d[i] == me);
        lemma_peers_of_member(d, i);
        let p = d.remove(i);
        assert(ids.last() != me);
        assert(!p.contains(ids.last())) by {
            if p.contains(ids.last()) {
                let m = choose|m: int| 0 <= m < p.len() && p[m] == ids.last();
                if m < i {
                    assert(ids[m] == ids[ids.len() - 1]);
                } else {
                    assert(ids[m + 1] == ids[ids.len() - 1]);
                }
            }
        }
        assert(p.push(ids.last()) =~= ids.remove(i));
    }
}

proof fn lemma_merge_reports_slots(peers: Seq<Seq<char>>, counts: Seq<u64>, reports: Seq<u64>)
    requires
        peers.no_duplicates(),
        counts.len() == peers.len(),
        reports.len() <= peers.len(),
        forall|m: int| 0 <= m < reports.len() ==> counts[m] <= reports[m],
    ensures
        merge_reports(peers, counts, reports).len() == counts.len(),
        forall|m: int| 0 <= m < reports.len() ==> merge_reports(peers, counts, reports)[m] == reports[m],
        forall|m: int|
            reports.len() <= m < counts.len() ==> merge_reports(peers, counts, reports)[m] == counts[m],
    decreases reports.len(),
{
    if reports.len() > 0 {
        let n = reports.len() - 1;
        lemma_merge_reports_slots(peers, counts, reports.drop_last());
        assert forall|m: int| 0 <= m < counts.len() && m != n implies peers[m] != peers[n] by {}
        let prev = merge_reports(peers, counts, reports.drop_last());
        let r = merge_reports(peers, counts, reports);
        assert(r == merge_counts(peers, prev, peers[n], reports[n]));
        assert forall|m: int| 0 <= m < reports.len() implies r[m] == reports[m] by {
            if m < n {
                assert(reports.drop_last()[m] == reports[m]);
            }
        }
    }
}

proof fn lemma_sum_remove(s: Seq<u64>, i: int)
    requires
        0 <= i < s.len(),
    ensures
        sum(s.remove(i)) + s[i] == sum(s),
    decreases s.len(),
{
    if i == s.len() - 1 {
        assert(s.remove(i) =~= s.drop_last());
    } else {
        lemma_sum_remove(s.drop_last(), i);
        assert(s.remove(i).drop_last() =~= s.drop_last().remove(i));
    }
}

/// Convergence of the counter. In a cluster of distinct ids `ids` where node
/// `k` has added `locals[k]` in all, node `i` has as peers every other node;
/// once each peer's cumulative count has reached it (and what it knew before
/// was no more than that), it knows exactly those counts and its value is the
/// sum over the whole cluster, the same at every node.
pub proof fn lemma_counter_converges(
    ids: Seq<Seq<char>>,
    locals: Seq<u64>,
    i: int,
    counts: Seq<u64>,
)
    requires
        ids.no_duplicates(),
        ids.len() == locals.len(),
        0 <= i < ids.len(),
        counts.len() + 1 == ids.len(),
        forall|m: int| 0 <= m < counts.len() ==> counts[m] <= locals.remove(i)[m],
    ensures
        peers_of(ids[i], ids) == ids.remove(i),
        merge_reports(peers_of(ids[i], ids), counts, locals.remove(i)) == locals.remove(i),
        locals[i] + sum(merge_reports(peers_of(ids[i], ids), counts, locals.remove(i))) == sum(
            locals,
        ),
{
    lemma_peers_of_member(ids, i);
    let peers = ids.remove(i);
    assert(peers.no_duplicates()) by {
        assert forall|a: int, b: int| 0 <= a < b < peers.len() implies peers[a] != peers[b] by {
            let a2 = if a < i { a } else { a + 1 };
            let b2 = if b < i { b } else { b + 1 };
            assert(peers[a] == ids[a2] && peers[b] == ids[b2]);
        }
    }
    lemma_merge_reports_slots(peers, counts, locals.remove(i));
    assert(merge_reports(peers, counts, locals.remove(i)) =~= locals.remove(i));
    lemma_sum_remove(locals, i);
}

} // verus!
