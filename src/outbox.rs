//! Retry-until-acknowledged propagation: each update for a peer gets a
//! sequence number and stays pending, redelivered on every tick, until that
//! peer acknowledges that number or a newer update to it supersedes it.
use vstd::prelude::*;

verus! {

/// One update waiting for its acknowledgement.
#[derive(Clone, Debug)]
pub struct Pending {
    pub seq: u64,
    pub dest: String,
    pub value: u64,
}

/// A pending update as a mathematical value: sequence number, destination,
/// value.
pub type Entry = (u64, Seq<char>, u64);

pub open spec fn entry_of(p: Pending) -> Entry {
    (p.seq, p.dest@, p.value)
}

pub open spec fn entries_of(ps: Seq<Pending>) -> Seq<Entry> {
    ps.map_values(|p: Pending| entry_of(p))
}

/// `entries` without the one numbered `seq`.
pub open spec fn without_seq(entries: Seq<Entry>, seq: u64) -> Seq<Entry>
    decreases entries.len(),
{
    if entries.len() == 0 {
        Seq::empty()
    } else {
        let r = without_seq(entries.drop_last(), seq);
        if entries.last().0 == seq {
            r
        } else {
            r.push(entries.last())
        }
    }
}

/// `entries` without those addressed to `dest`.
pub open spec fn without_dest(entries: Seq<Entry>, dest: Seq<char>) -> Seq<Entry>
    decreases entries.len(),
{
    if entries.len() == 0 {
        Seq::empty()
    } else {
        let r = without_dest(entries.drop_last(), dest);
        if entries.last().1 == dest {
            r
        } else {
            r.push(entries.last())
        }
    }
}

fn copy_pending(p: &Pending) -> (r: Pending)
    ensures
        r == *p,
{
    Pending { seq: p.seq, dest: p.dest.clone(), value: p.value }
}

/// The updates of a node that still wait for an acknowledgement.
pub struct Outbox {
    next_seq: u64,
    pending: Vec<Pending>,
}

impl Outbox {
    /// The pending updates, oldest first.
    pub closed spec fn entries(&self) -> Seq<Entry> {
        entries_of(self.pending@)
    }

    /// The sequence number the next update gets.
    pub closed spec fn next_seq(&self) -> u64 {
        self.next_seq
    }

    /// Sequence numbers are handed out in increasing order, so each pending
    /// one is below the next and no two are equal.
    pub closed spec fn wf(&self) -> bool {
        &&& forall|i: int|
            0 <= i < self.pending@.len() ==> #[trigger] self.pending@[i].seq < self.next_seq
        &&& forall|i: int, j: int|
            0 <= i < j < self.pending@.len() ==> self.pending@[i].seq < self.pending@[j].seq
    }

    pub fn new() -> (r: Outbox)
        ensures
            r.wf(),
            r.entries() == Seq::<Entry>::empty(),
            r.next_seq() == 0,
    {
        let r = Outbox { next_seq: 0, pending: Vec::new() };
        assert(r.entries() =~= Seq::<Entry>::empty());
        r
    }

    /// Queues `value` for `dest` under a fresh sequence number, which it
    /// returns; `None`, with nothing queued, once the numbers are used up.
    pub fn enqueue(&mut self, dest: &String, value: u64) -> (r: Option<u64>)
        requires
            old(self).wf(),
        ensures
            final(self).wf(),
            old(self).next_seq() < u64::MAX ==> r == Some(old(self).next_seq())
                && final(self).next_seq() == old(self).next_seq() + 1
                && final(self).entries() == old(self).entries().push(
                (old(self).next_seq(), dest@, value),
            ),
            old(self).next_seq() == u64::MAX ==> r is None && *final(self) == *old(self),
    {
        if self.next_seq == u64::MAX {
            return None;
        }
        let seq = self.next_seq;
        let ghost before = self.pending@;
        self.pending.push(Pending { seq, dest: dest.clone(), value });
        self.next_seq = seq + 1;
        assert(self.entries() =~= entries_of(before).push((seq, dest@, value)));
        Some(seq)
    }

    /// Queues `value` for each of `dests`, in order, under consecutive fresh
    /// sequence numbers; returns `false`, with nothing queued, where the
    /// numbers would run out.
    pub fn enqueue_all(&mut self, dests: &Vec<String>, value: u64) -> (r: bool)
        requires
            old(self).wf(),
        ensures
            final(self).wf(),
            r == (old(self).next_seq() + dests@.len() <= u64::MAX),
            r ==> final(self).next_seq() == old(self).next_seq() + dests@.len()
                && final(self).entries() == old(self).entries() + Seq::new(
                dests@.len(),
                |k: int| ((old(self).next_seq() + k) as u64, dests@[k]@, value),
            ),
            !r ==> *final(self) == *old(self),
    {
        if self.next_seq > u64::MAX - dests.len() as u64 {
            return false;
        }
        let ghost start = self.entries();
        let ghost first = self.next_seq;
        let mut i: usize = 0;
        while i < dests.len()
            invariant
                0 <= i <= dests@.len(),
                first + dests@.len() <= u64::MAX,
                self.wf(),
                self.next_seq() == first + i,
                self.entries() == start + Seq::new(
                    i as nat,
                    |k: int| ((first + k) as u64, dests@[k]@, value),
                ),
            decreases dests@.len() - i,
        {
            let got = self.enqueue(&dests[i], value);
            assert(self.entries() =~= start + Seq::new(
                (i + 1) as nat,
                |k: int| ((first + k) as u64, dests@[k]@, value),
            ));
            i = i + 1;
        }
        true
    }

    /// Queues `value` for `dest` in place of whatever was pending for it: for
    /// cumulative updates, where a newer one supersedes the older.
    pub fn enqueue_superseding(&mut self, dest: &String, value: u64) -> (r: Option<u64>)
        requires
            old(self).wf(),
        ensures
            final(self).wf(),
            old(self).next_seq() < u64::MAX ==> r == Some(old(self).next_seq())
                && final(self).next_seq() == old(self).next_seq() + 1
                && final(self).entries() == without_dest(old(self).entries(), dest@).push(
                (old(self).next_seq(), dest@, value),
            ),
            old(self).next_seq() == u64::MAX ==> r is None && *final(self) == *old(self),
    {
        if self.next_seq == u64::MAX {
            return None;
        }
        let ghost start = self.pending@;
        let mut kept: Vec<Pending> = Vec::new();
        let mut i: usize = 0;
        while i < self.pending.len()
            invariant
                0 <= i <= self.pending@.len(),
                self.pending@ == start,
                self.wf(),
                entries_of(kept@) == without_dest(entries_of(start.subrange(0, i as int)), dest@),
                forall|a: int| 0 <= a < kept@.len() ==> #[trigger] kept@[a].seq < self.next_seq,
                forall|a: int, b: int|
                    0 <= a < b < kept@.len() ==> kept@[a].seq < kept@[b].seq,
                forall|a: int|
                    0 <= a < kept@.len() ==> exists|m: int|
                        0 <= m < i && #[trigger] kept@[a].seq == start[m].seq,
            decreases self.pending@.len() - i,
        {
            let ghost es = entries_of(start.subrange(0, i + 1));
            assert(es.drop_last() == entries_of(start.subrange(0, i as int)));
            assert(es.last() == entry_of(start[i as int]));
            if self.pending[i].dest != *dest {
                let ghost kb = kept@;
                let p = copy_pending(&self.pending[i]);
                kept.push(p);
                assert(kept@ == kb.push(start[i as int]));
                proof {
                    assert(entries_of(kept@) =~= entries_of(kb).push(entry_of(start[i as int])));
                    assert forall|a: int, b: int|
                        0 <= a < b < kept@.len() implies kept@[a].seq < kept@[b].seq by {
                        if b == kept@.len() - 1 {
                            let m = choose|m: int| 0 <= m < i && kb[a].seq == start[m].seq;
                            assert(start[m].seq < start[i as int].seq);
                        }
                    }
                    assert forall|a: int|
                        0 <= a < kept@.len() implies exists|m: int|
                            0 <= m < i + 1 && #[trigger] kept@[a].seq == start[m].seq by {
                        if a < kb.len() {
                            let m = choose|m: int| 0 <= m < i && kb[a].seq == start[m].seq;
                            assert(kept@[a].seq == start[m].seq);
                        } else {
                            assert(kept@[a].seq == start[i as int].seq);
                        }
                    }
                }
            }
            i = i + 1;
        }
        assert(start.subrange(0, start.len() as int) == start);
        let seq = self.next_seq;
        let ghost kb = kept@;
        kept.push(Pending { seq, dest: dest.clone(), value });
        self.pending = kept;
        self.next_seq = seq + 1;
        assert(self.entries() =~= entries_of(kb).push((seq, dest@, value)));
        Some(seq)
    }

    /// Takes in the acknowledgement of update `seq`: it is no longer
    /// pending. Returns whether it was.
    pub fn ack(&mut self, seq: u64) -> (r: bool)
        requires
            old(self).wf(),
        ensures
            final(self).wf(),
            final(self).next_seq() == old(self).next_seq(),
            final(self).entries() == without_seq(old(self).entries(), seq),
            r == exists|i: int| 0 <= i < old(self).entries().len() && old(self).entries()[i].0 == seq,
    {
        let ghost start = self.pending@;
        let mut kept: Vec<Pending> = Vec::new();
        let mut found = false;
        let mut i: usize = 0;
        while i < self.pending.len()
            invariant
                0 <= i <= self.pending@.len(),
                self.pending@ == start,
                self.wf(),
                entries_of(kept@) == without_seq(entries_of(start.subrange(0, i as int)), seq),
                found == exists|m: int| 0 <= m < i && start[m].seq == seq,
                forall|a: int| 0 <= a < kept@.len() ==> #[trigger] kept@[a].seq < self.next_seq,
                forall|a: int, b: int|
                    0 <= a < b < kept@.len() ==> kept@[a].seq < kept@[b].seq,
                forall|a: int|
                    0 <= a < kept@.len() ==> exists|m: int|
                        0 <= m < i && #[trigger] kept@[a].seq == start[m].seq,
            decreases self.pending@.len() - i,
        {
            let ghost es = entries_of(start.subrange(0, i + 1));
            assert(es.drop_last() == entries_of(start.subrange(0, i as int)));
            assert(es.last() == entry_of(start[i as int]));
            if self.pending[i].seq == seq {
                found = true;
            } else {
                let ghost kb = kept@;
                let p = copy_pending(&self.pending[i]);
                kept.push(p);
                assert(kept@ == kb.push(start[i as int]));
                proof {
                    assert(entries_of(kept@) =~= entries_of(kb).push(entry_of(start[i as int])));
                    assert forall|a: int, b: int|
                        0 <= a < b < kept@.len() implies kept@[a].seq < kept@[b].seq by {
                        if b == kept@.len() - 1 {
                            let m = choose|m: int| 0 <= m < i && kb[a].seq == start[m].seq;
                            assert(start[m].seq < start[i as int].seq);
                        }
                    }
                    assert forall|a: int|
                        0 <= a < kept@.len() implies exists|m: int|
                            0 <= m < i + 1 && #[trigger] kept@[a].seq == start[m].seq by {
                        if a < kb.len() {
                            let m = choose|m: int| 0 <= m < i && kb[a].seq == start[m].seq;
                            assert(kept@[a].seq == start[m].seq);
                        } else {
                            assert(kept@[a].seq == start[i as int].seq);
                        }
                    }
                }
            }
            i = i + 1;
        }
        assert(start.subrange(0, start.len() as int) == start);
        proof {
            let es = entries_of(start);
            assert(old(self).entries() == es);
            assert(found == exists|m: int| 0 <= m < start.len() && start[m].seq == seq);
            if found {
                let m = choose|m: int| 0 <= m < start.len() && start[m].seq == seq;
                assert(es[m] == entry_of(start[m]));
                assert(es[m].0 == seq);
                assert(exists|i: int| 0 <= i < es.len() && es[i].0 == seq);
            }
            if exists|m: int| 0 <= m < es.len() && es[m].0 == seq {
                let m = choose|m: int| 0 <= m < es.len() && es[m].0 == seq;
                assert(es[m] == entry_of(start[m]));
                assert(start[m].seq == seq);
            }
        }
        self.pending = kept;
        found
    }

    /// The updates to send on this tick: every pending one, oldest first.
    pub fn due(&self) -> (r: Vec<Pending>)
        ensures
            entries_of(r@) == self.entries(),
    {
        let mut r: Vec<Pending> = Vec::new();
        let mut i: usize = 0;
        while i < self.pending.len()
            invariant
                0 <= i <= self.pending@.len(),
                r@ == self.pending@.subrange(0, i as int),
            decreases self.pending@.len() - i,
        {
            let ghost rb = r@;
            let p = copy_pending(&self.pending[i]);
            r.push(p);
            assert(r@ == rb.push(self.pending@[i as int]));
            assert(self.pending@.subrange(0, i + 1) == self.pending@.subrange(0, i as int).push(
                self.pending@[i as int],
            ));
            i = i + 1;
        }
        assert(self.pending@.subrange(0, self.pending@.len() as int) == self.pending@);
        r
    }
}

} // verus!
