//! A partitioned append-only log held by one node: per key, a dense,
//! zero-based sequence of values, and a committed offset that never
//! regresses.
use vstd::prelude::*;

verus! {

/// The most entries that one poll returns for one key.
pub const POLL_LIMIT: u64 = 100;

/// How many entries a poll of `log` from offset `from` returns.
pub open spec fn poll_len(log: Seq<u64>, from: u64) -> int {
    if from >= log.len() {
        0
    } else if log.len() - from > POLL_LIMIT {
        POLL_LIMIT as int
    } else {
        log.len() - from
    }
}

/// The `(offset, value)` pairs a poll of `log` from offset `from` returns,
/// in offset order.
pub open spec fn poll_spec(log: Seq<u64>, from: u64) -> Seq<(u64, u64)> {
    Seq::new(poll_len(log, from) as nat, |j: int| ((from + j) as u64, log[from + j]))
}

/// The committed offset after committing `offset` where `prev` was
/// committed: the larger of the two.
pub open spec fn commit_spec(prev: Option<u64>, offset: u64) -> u64 {
    match prev {
        Some(p) => if p < offset {
            offset
        } else {
            p
        },
        None => offset,
    }
}

/// The committed offset after committing `offset` where `prev` was
/// committed, if anything was: commits take the maximum and never regress.
pub fn committed_after(prev: Option<u64>, offset: u64) -> (r: u64)
    ensures
        r == commit_spec(prev, offset),
        r >= offset,
        prev matches Some(p) ==> r >= p,
{
    match prev {
        Some(p) => if p < offset {
            offset
        } else {
            p
        },
        None => offset,
    }
}

/// Committing a lower offset after a higher one leaves the higher one.
pub proof fn lemma_commit_monotone(prev: Option<u64>, o1: u64, o2: u64)
    requires
        o2 < o1,
        prev matches Some(p) ==> p <= o1,
    ensures
        commit_spec(Some(commit_spec(prev, o1)), o2) == o1,
{
}

/// The offset committed for key `k` after the commits `offsets` (pairs of
/// key and offset, in order) where `prev` was committed.
pub open spec fn committed_through(
    prev: Option<u64>,
    k: Seq<char>,
    offsets: Seq<(Seq<char>, u64)>,
) -> Option<u64>
    decreases offsets.len(),
{
    if offsets.len() == 0 {
        prev
    } else {
        let before = committed_through(prev, k, offsets.drop_last());
        if offsets.last().0 == k {
            Some(commit_spec(before, offsets.last().1))
        } else {
            before
        }
    }
}

/// Commits converge: after the commits `offsets`, received in whatever
/// order, key `k` has no committed offset if none of them was for `k`, and
/// otherwise the largest offset committed for `k`. The result depends only
/// on which commits arrived, so nodes that received the same ones agree.
pub proof fn lemma_commits_converge(k: Seq<char>, offsets: Seq<(Seq<char>, u64)>)
    ensures
        (forall|i: int| 0 <= i < offsets.len() ==> offsets[i].0 != k) ==> committed_through(
            None,
            k,
            offsets,
        ) is None,
        committed_through(None, k, offsets) matches Some(m) ==> (exists|i: int|
            0 <= i < offsets.len() && offsets[i] == (k, m)) && (forall|i: int|
            0 <= i < offsets.len() && offsets[i].0 == k ==> offsets[i].1 <= m),
        (exists|i: int| 0 <= i < offsets.len() && offsets[i].0 == k) ==> committed_through(
            None,
            k,
            offsets,
        ) is Some,
    decreases offsets.len(),
{
    if offsets.len() > 0 {
        let d = offsets.drop_last();
        lemma_commits_converge(k, d);
        assert forall|i: int| 0 <= i < d.len() implies d[i] == offsets[i] by {}
        let last = offsets.len() - 1;
        if (exists|i: int| 0 <= i < offsets.len() && offsets[i].0 == k) && offsets.last().0 != k {
            let i = choose|i: int| 0 <= i < offsets.len() && offsets[i].0 == k;
            assert(i != last);
            assert(d[i].0 == k);
        }
        match committed_through(None, k, d) {
            Some(m0) => {
                let i0 = choose|i: int| 0 <= i < d.len() && d[i] == (k, m0);
                assert(offsets[i0] == (k, m0));
            },
            None => {},
        }
    }
}

/// The views of a list of `(key, offset)` pairs.
pub open spec fn pairs_view(v: Seq<(String, u64)>) -> Seq<(Seq<char>, u64)> {
    v.map_values(|e: (String, u64)| (e.0@, e.1))
}

/// Receiving the same commit twice leaves what receiving it once does.
pub proof fn lemma_commit_idempotent(prev: Option<u64>, o: u64)
    ensures
        commit_spec(Some(commit_spec(prev, o)), o) == commit_spec(prev, o),
{
}

/// Two commits received in either order leave the same committed offset.
pub proof fn lemma_commit_commutes(prev: Option<u64>, a: u64, b: u64)
    ensures
        commit_spec(Some(commit_spec(prev, a)), b) == commit_spec(Some(commit_spec(prev, b)), a),
{
}

/// One key's log and its committed offset.
struct Partition {
    key: String,
    msgs: Vec<u64>,
    committed: Option<u64>,
}

/// The position of the last partition of `key` in `parts`, or -1.
spec fn position(parts: Seq<Partition>, key: Seq<char>) -> int
    decreases parts.len(),
{
    if parts.len() == 0 {
        -1
    } else if parts.last().key@ == key {
        parts.len() - 1
    } else {
        position(parts.drop_last(), key)
    }
}

proof fn lemma_position_bounds(parts: Seq<Partition>, key: Seq<char>)
    ensures
        -1 <= position(parts, key) < parts.len(),
        position(parts, key) >= 0 ==> parts[position(parts, key)].key@ == key,
        position(parts, key) < 0 ==> forall|i: int| 0 <= i < parts.len() ==> parts[i].key@ != key,
    decreases parts.len(),
{
    if parts.len() > 0 {
        lemma_position_bounds(parts.drop_last(), key);
        assert forall|i: int| 0 <= i < parts.len() - 1 implies parts[i] == parts.drop_last()[i] by {}
    }
}

proof fn lemma_position_update(parts: Seq<Partition>, i: int, p: Partition, key: Seq<char>)
    requires
        0 <= i < parts.len(),
        p.key@ == parts[i].key@,
    ensures
        position(parts.update(i, p), key) == position(parts, key),
    decreases parts.len(),
{
    if i < parts.len() - 1 {
        lemma_position_update(parts.drop_last(), i, p, key);
        assert(parts.update(i, p).drop_last() == parts.drop_last().update(i, p));
    } else {
        assert(parts.update(i, p).drop_last() == parts.drop_last());
    }
}

proof fn lemma_position_push(parts: Seq<Partition>, p: Partition, key: Seq<char>)
    ensures
        position(parts.push(p), key) == if p.key@ == key {
            parts.len() as int
        } else {
            position(parts, key)
        },
{
    assert(parts.push(p).drop_last() == parts);
}

/// The log of one node: each key's values in offset order, and each key's
/// committed offset.
pub struct LocalLog {
    parts: Vec<Partition>,
}

impl LocalLog {
    /// The values appended under `key`, in offset order.
    pub closed spec fn log_of(&self, key: Seq<char>) -> Seq<u64> {
        let i = position(self.parts@, key);
        if i < 0 {
            Seq::empty()
        } else {
            self.parts@[i].msgs@
        }
    }

    /// The offset committed for `key`, if any.
    pub closed spec fn committed_of(&self, key: Seq<char>) -> Option<u64> {
        let i = position(self.parts@, key);
        if i < 0 {
            None
        } else {
            self.parts@[i].committed
        }
    }

    /// The `(key, offset)` pairs that listing `keys` returns: each key that
    /// has a committed offset, in the order asked.
    pub open spec fn listing(&self, keys: Seq<Seq<char>>) -> Seq<(Seq<char>, u64)>
        decreases keys.len(),
    {
        if keys.len() == 0 {
            Seq::empty()
        } else {
            let l = self.listing(keys.drop_last());
            match self.committed_of(keys.last()) {
                Some(o) => l.push((keys.last(), o)),
                None => l,
            }
        }
    }

    /// An empty log.
    pub fn new() -> (r: LocalLog)
        ensures
            forall|k: Seq<char>| r.log_of(k) == Seq::<u64>::empty() && r.committed_of(k) is None,
    {
        LocalLog { parts: Vec::new() }
    }

    fn locate(&self, key: &String) -> (r: Option<usize>)
        ensures
            r matches Some(i) ==> i == position(self.parts@, key@) && i < self.parts@.len(),
            r is None ==> position(self.parts@, key@) == -1,
    {
        proof {
            lemma_position_bounds(self.parts@, key@);
            assert(self.parts@.subrange(0, self.parts@.len() as int) == self.parts@);
        }
        let mut i: usize = self.parts.len();
        while i > 0
            invariant
                0 <= i <= self.parts@.len(),
                position(self.parts@, key@) == position(self.parts@.subrange(0, i as int), key@),
            decreases i,
        {
            assert(self.parts@.subrange(0, i as int).drop_last() == self.parts@.subrange(
                0,
                i - 1,
            ));
            if self.parts[i - 1].key == *key {
                return Some(i - 1);
            }
            i = i - 1;
        }
        None
    }

    /// Appends `msg` under `key`; returns its offset, the number of values
    /// that key held before.
    pub fn send(&mut self, key: &String, msg: u64) -> (r: u64)
        ensures
            r == old(self).log_of(key@).len(),
            final(self).log_of(key@) == old(self).log_of(key@).push(msg),
            forall|k: Seq<char>| k != key@ ==> final(self).log_of(k) == old(self).log_of(k),
            forall|k: Seq<char>| final(self).committed_of(k) == old(self).committed_of(k),
    {
        proof {
            assert(self.parts@.subrange(0, self.parts@.len() as int) == self.parts@);
        }
        match self.locate(key) {
            Some(i) => {
                let ghost before = self.parts@;
                let mut p = self.parts.remove(i);
                let offset = p.msgs.len() as u64;
                p.msgs.push(msg);
                self.parts.insert(i, p);
                proof {
                    lemma_position_bounds(before, key@);
                    assert(self.parts@ == before.update(i as int, p));
                    assert forall|k: Seq<char>| k != key@ implies self.log_of(k) == old(self).log_of(k)
                        && self.committed_of(k) == old(self).committed_of(k) by {
                        lemma_position_update(before, i as int, p, k);
                        lemma_position_bounds(before, k);
                    }
                    lemma_position_update(before, i as int, p, key@);
                }
                offset
            },
            None => {
                let ghost before = self.parts@;
                let mut msgs: Vec<u64> = Vec::new();
                msgs.push(msg);
                let p = Partition { key: key.clone(), msgs, committed: None };
                self.parts.push(p);
                proof {
                    assert forall|k: Seq<char>| k != key@ implies self.log_of(k) == old(self).log_of(k)
                        && self.committed_of(k) == old(self).committed_of(k) by {
                        lemma_position_push(before, p, k);
                        lemma_position_bounds(before, k);
                    }
                    lemma_position_push(before, p, key@);
                    assert(msgs@ == Seq::<u64>::empty().push(msg));
                }
                0
            },
        }
    }

    /// The values of `key` from offset `from`, at most `POLL_LIMIT` of
    /// them, each with its offset.
    pub fn poll(&self, key: &String, from: u64) -> (r: Vec<(u64, u64)>)
        ensures
            r@ == poll_spec(self.log_of(key@), from),
    {
        proof {
            assert(self.parts@.subrange(0, self.parts@.len() as int) == self.parts@);
        }
        let mut r: Vec<(u64, u64)> = Vec::new();
        match self.locate(key) {
            None => {
                assert(r@ =~= poll_spec(self.log_of(key@), from));
                r
            },
            Some(i) => {
                let msgs = &self.parts[i].msgs;
                let ghost log = msgs@;
                assert(log == self.log_of(key@));
                if from as usize >= msgs.len() || from >= msgs.len() as u64 {
                    assert(r@ =~= poll_spec(log, from));
                    return r;
                }
                let mut j: usize = from as usize;
                while j < msgs.len() && (r.len() as u64) < POLL_LIMIT
                    invariant
                        from <= j <= msgs@.len(),
                        log == msgs@,
                        r@.len() == j - from,
                        r@.len() <= POLL_LIMIT,
                        forall|m: int|
                            0 <= m < r@.len() ==> r@[m] == ((from + m) as u64, log[from + m]),
                    decreases msgs@.len() - j,
                {
                    r.push((j as u64, msgs[j]));
                    j = j + 1;
                }
                assert(r@ =~= poll_spec(log, from));
                r
            },
        }
    }

    /// Commits `offset` for `key`: the committed offset becomes the larger of
    /// it and the one before.
    pub fn commit(&mut self, key: &String, offset: u64)
        ensures
            final(self).committed_of(key@) == Some(
                commit_spec(old(self).committed_of(key@), offset),
            ),
            forall|k: Seq<char>| k != key@ ==> final(self).committed_of(k) == old(self).committed_of(k),
            forall|k: Seq<char>| final(self).log_of(k) == old(self).log_of(k),
    {
        proof {
            assert(self.parts@.subrange(0, self.parts@.len() as int) == self.parts@);
        }
        match self.locate(key) {
            Some(i) => {
                let ghost before = self.parts@;
                let mut p = self.parts.remove(i);
                p.committed = Some(committed_after(p.committed, offset));
                self.parts.insert(i, p);
                proof {
                    lemma_position_bounds(before, key@);
                    assert(self.parts@ == before.update(i as int, p));
                    assert forall|k: Seq<char>| k != key@ implies self.log_of(k) == old(self).log_of(k)
                        && self.committed_of(k) == old(self).committed_of(k) by {
                        lemma_position_update(before, i as int, p, k);
                        lemma_position_bounds(before, k);
                    }
                    lemma_position_update(before, i as int, p, key@);
                }
            },
            None => {
                let ghost before = self.parts@;
                let p = Partition { key: key.clone(), msgs: Vec::new(), committed: Some(offset) };
                self.parts.push(p);
                proof {
                    assert forall|k: Seq<char>| k != key@ implies self.log_of(k) == old(self).log_of(k)
                        && self.committed_of(k) == old(self).committed_of(k) by {
                        lemma_position_push(before, p, k);
                        lemma_position_bounds(before, k);
                    }
                    lemma_position_push(before, p, key@);
                    assert(p.msgs@ == Seq::<u64>::empty());
                }
            },
        }
    }

    /// The offset committed for `key`, if any.
    pub fn committed(&self, key: &String) -> (r: Option<u64>)
        ensures
            r == self.committed_of(key@),
    {
        proof {
            assert(self.parts@.subrange(0, self.parts@.len() as int) == self.parts@);
        }
        match self.locate(key) {
            Some(i) => self.parts[i].committed,
            None => None,
        }
    }
    /// For each `(key, from)` asked, in order, the key and its poll from
    /// `from`.
    pub fn poll_many(&self, offsets: &Vec<(String, u64)>) -> (r: Vec<(String, Vec<(u64, u64)>)>)
        ensures
            r@.len() == offsets@.len(),
            forall|i: int|
                0 <= i < r@.len() ==> r@[i].0@ == offsets@[i].0@ && r@[i].1@ == poll_spec(
                    self.log_of(offsets@[i].0@),
                    offsets@[i].1,
                ),
    {
        let mut r: Vec<(String, Vec<(u64, u64)>)> = Vec::new();
        let mut i: usize = 0;
        while i < offsets.len()
            invariant
                0 <= i <= offsets@.len(),
                r@.len() == i,
                forall|m: int|
                    0 <= m < i ==> r@[m].0@ == offsets@[m].0@ && r@[m].1@ == poll_spec(
                        self.log_of(offsets@[m].0@),
                        offsets@[m].1,
                    ),
            decreases offsets@.len() - i,
        {
            let key = &offsets[i].0;
            let got = self.poll(key, offsets[i].1);
            r.push((key.clone(), got));
            i = i + 1;
        }
        r
    }

    /// Commits each `(key, offset)` in order.
    pub fn commit_many(&mut self, offsets: &Vec<(String, u64)>)
        ensures
            forall|k: Seq<char>|
                final(self).committed_of(k) == committed_through(
                    old(self).committed_of(k),
                    k,
                    pairs_view(offsets@),
                ),
            forall|k: Seq<char>| final(self).log_of(k) == old(self).log_of(k),
    {
        let mut i: usize = 0;
        while i < offsets.len()
            invariant
                0 <= i <= offsets@.len(),
                forall|k: Seq<char>|
                    self.committed_of(k) == committed_through(
                        old(self).committed_of(k),
                        k,
                        pairs_view(offsets@.subrange(0, i as int)),
                    ),
                forall|k: Seq<char>| self.log_of(k) == old(self).log_of(k),
            decreases offsets@.len() - i,
        {
            let ghost before = *self;
            self.commit(&offsets[i].0, offsets[i].1);
            proof {
                let pv = pairs_view(offsets@.subrange(0, i + 1));
                assert(pv.drop_last() == pairs_view(offsets@.subrange(0, i as int)));
                assert(pv.last() == (offsets@[i as int].0@, offsets@[i as int].1));
                assert forall|k: Seq<char>|
                    self.committed_of(k) == committed_through(old(self).committed_of(k), k, pv) by {
                    if k != offsets@[i as int].0@ {
                        assert(self.committed_of(k) == before.committed_of(k));
                    }
                }
            }
            i = i + 1;
        }
        assert(offsets@.subrange(0, offsets@.len() as int) == offsets@);
    }

    /// Each key of `keys` that has a committed offset, with that offset, in
    /// the order asked; keys without one are left out.
    pub fn list_committed(&self, keys: &Vec<String>) -> (r: Vec<(String, u64)>)
        ensures
            pairs_view(r@) == self.listing(keys@.map_values(|s: String| s@)),
    {
        let ghost kv = keys@.map_values(|s: String| s@);
        let mut r: Vec<(String, u64)> = Vec::new();
        let mut i: usize = 0;
        while i < keys.len()
            invariant
                0 <= i <= keys@.len(),
                kv == keys@.map_values(|s: String| s@),
                pairs_view(r@) == self.listing(kv.subrange(0, i as int)),
            decreases keys@.len() - i,
        {
            proof {
                assert(kv.subrange(0, i + 1).drop_last() == kv.subrange(0, i as int));
                assert(kv.subrange(0, i + 1).last() == keys@[i as int]@);
            }
            match self.committed(&keys[i]) {
                Some(o) => {
                    let ghost before = r@;
                    r.push((keys[i].clone(), o));
                    assert(pairs_view(r@) =~= pairs_view(before).push((keys@[i as int]@, o)));
                },
                None => {},
            }
            i = i + 1;
        }
        assert(kv.subrange(0, keys@.len() as int) == kv);
        r
    }
}

} // verus!
