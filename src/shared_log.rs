//! The log shared by several nodes through an external key-value store.
//! Offsets are won with compare-and-swap on a per-key marker that holds the
//! latest offset handed out; each value is then written under a name of its
//! own. The store is reached by the caller: this module decides what to ask
//! it and what its answers mean.
use vstd::prelude::*;
use crate::log::POLL_LIMIT;

verus! {

/// The decimal digit `d` (below ten) as a character.
pub open spec fn digit_char(d: nat) -> char {
    if d == 0 {
        '0'
    } else if d == 1 {
        '1'
    } else if d == 2 {
        '2'
    } else if d == 3 {
        '3'
    } else if d == 4 {
        '4'
    } else if d == 5 {
        '5'
    } else if d == 6 {
        '6'
    } else if d == 7 {
        '7'
    } else if d == 8 {
        '8'
    } else {
        '9'
    }
}

/// `n` in decimal, without sign or leading zeros.
pub open spec fn decimal(n: nat) -> Seq<char>
    decreases n,
{
    if n < 10 {
        seq![digit_char(n)]
    } else {
        decimal(n / 10).push(digit_char(n % 10))
    }
}

/// The decimal digit `d` as a one-character string.
fn digit_str(d: u64) -> (r: &'static str)
    requires
        d < 10,
    ensures
        r@ == seq![digit_char(d as nat)],
{
    if d == 0 {
        proof {
            reveal_strlit("0");
        }
        "0"
    } else if d == 1 {
        proof {
            reveal_strlit("1");
        }
        "1"
    } else if d == 2 {
        proof {
            reveal_strlit("2");
        }
        "2"
    } else if d == 3 {
        proof {
            reveal_strlit("3");
        }
        "3"
    } else if d == 4 {
        proof {
            reveal_strlit("4");
        }
        "4"
    } else if d == 5 {
        proof {
            reveal_strlit("5");
        }
        "5"
    } else if d == 6 {
        proof {
            reveal_strlit("6");
        }
        "6"
    } else if d == 7 {
        proof {
            reveal_strlit("7");
        }
        "7"
    } else if d == 8 {
        proof {
            reveal_strlit("8");
        }
        "8"
    } else {
        proof {
            reveal_strlit("9");
        }
        "9"
    }
}

/// Appends `n` in decimal to `out`.
fn append_decimal(n: u64, out: &mut String)
    ensures
        final(out)@ == old(out)@ + decimal(n as nat),
    decreases n,
{
    if n >= 10 {
        append_decimal(n / 10, out);
    }
    out.append(digit_str(n % 10));
    proof {
        if n >= 10 {
            assert(old(out)@ + decimal(n as nat) =~= old(out)@ + decimal((n / 10) as nat) + seq![
                digit_char((n % 10) as nat),
            ]);
        } else {
            assert(decimal(n as nat) == seq![digit_char(n as nat)]);
        }
    }
}

/// Name of the marker that holds the latest offset handed out for `key`.
pub open spec fn marker_name(key: Seq<char>) -> Seq<char> {
    "latest_offset_for_"@ + key
}

/// Name under which the value at `offset` of `key` is stored.
pub open spec fn value_name(key: Seq<char>, offset: u64) -> Seq<char> {
    "value_for_"@ + key + "_at_offset_"@ + decimal(offset as nat)
}

/// Name under which the committed offset of `key` is stored.
pub open spec fn commit_name(key: Seq<char>) -> Seq<char> {
    "committed_offset_for_key_"@ + key
}

pub fn marker_key(key: &String) -> (r: String)
    ensures
        r@ == marker_name(key@),
{
    let mut r = String::from_str("latest_offset_for_");
    r.append(key.as_str());
    r
}

pub fn value_key(key: &String, offset: u64) -> (r: String)
    ensures
        r@ == value_name(key@, offset),
{
    let mut r = String::from_str("value_for_");
    r.append(key.as_str());
    r.append("_at_offset_");
    append_decimal(offset, &mut r);
    r
}

pub fn commit_key(key: &String) -> (r: String)
    ensures
        r@ == commit_name(key@),
{
    let mut r = String::from_str("committed_offset_for_key_");
    r.append(key.as_str());
    r
}

/// The first offset an append tries, given the marker it read: the marker's
/// value, or 0 where there is no marker yet.
pub open spec fn start_spec(marker: Option<u64>) -> u64 {
    match marker {
        Some(m) => m,
        None => 0,
    }
}

/// The value the marker must hold for `candidate` to be won: the offset
/// before it. Offset 0 has none; it is won where the marker does not exist
/// yet (the swap creates it), and `u64::MAX`, which the marker cannot hold
/// before that many appends, stands in for "no offset".
pub open spec fn expected_spec(candidate: u64) -> u64 {
    if candidate == 0 {
        u64::MAX
    } else {
        (candidate - 1) as u64
    }
}

/// Whether a compare-and-swap of the marker from `expected` succeeds where
/// it holds `marker`; `create` asks the store to create an absent marker.
pub open spec fn cas_succeeds(marker: Option<u64>, expected: u64, create: bool) -> bool {
    match marker {
        Some(v) => v == expected,
        None => create,
    }
}

/// What an append does after a compare-and-swap for `candidate`.
#[derive(Clone, Copy, Debug, PartialEq, Eq, Structural)]
pub enum AllocStep {
    /// The offset is this append's.
    Won(u64),
    /// Another writer had it: try this offset next.
    Retry(u64),
    /// No offset is left to try.
    Exhausted,
}

pub open spec fn step_spec(candidate: u64, won: bool) -> AllocStep {
    if won {
        AllocStep::Won(candidate)
    } else if candidate < u64::MAX {
        AllocStep::Retry((candidate + 1) as u64)
    } else {
        AllocStep::Exhausted
    }
}

/// The first offset to try, from the marker read from the store.
pub fn first_candidate(marker: Option<u64>) -> (r: u64)
    ensures
        r == start_spec(marker),
{
    match marker {
        Some(m) => m,
        None => 0,
    }
}

/// The `from` value of the compare-and-swap that tries `candidate`.
pub fn cas_expected(candidate: u64) -> (r: u64)
    ensures
        r == expected_spec(candidate),
{
    if candidate == 0 {
        u64::MAX
    } else {
        candidate - 1
    }
}

/// The next step of an append that tried `candidate`: done where the swap
/// succeeded, else the next offset.
pub fn after_cas(candidate: u64, won: bool) -> (r: AllocStep)
    ensures
        r == step_spec(candidate, won),
{
    if won {
        AllocStep::Won(candidate)
    } else if candidate < u64::MAX {
        AllocStep::Retry(candidate + 1)
    } else {
        AllocStep::Exhausted
    }
}

/// A compare-and-swap register with the store's semantics, holding one
/// marker: what racing appends are checked against.
pub struct CasRegister {
    value: Option<u64>,
}

impl CasRegister {
    pub closed spec fn value(&self) -> Option<u64> {
        self.value
    }

    /// A register whose marker does not exist yet.
    pub fn new() -> (r: CasRegister)
        ensures
            r.value() is None,
    {
        CasRegister { value: None }
    }

    /// Reads the marker.
    pub fn get(&self) -> (r: Option<u64>)
        ensures
            r == self.value(),
    {
        self.value
    }

    /// Sets the marker to `new` if it holds `expected`, or if it does not
    /// exist and `create` is set; returns whether it did.
    pub fn cas(&mut self, expected: u64, new: u64, create: bool) -> (r: bool)
        ensures
            r == cas_succeeds(old(self).value(), expected, create),
            final(self).value() == if r {
                Some(new)
            } else {
                old(self).value()
            },
    {
        let ok = match self.value {
            Some(v) => v == expected,
            None => create,
        };
        if ok {
            self.value = Some(new);
        }
        ok
    }
}

/// The state of `n` appends racing on one marker: the marker, the offset
/// each append tries next, and the offsets won so far, in the order won.
pub struct RaceState {
    pub marker: Option<u64>,
    pub candidates: Seq<u64>,
    pub won: Seq<u64>,
}

/// One move of a race: append `who` either starts afresh (reads the marker
/// and takes its first offset from it) or makes its compare-and-swap.
pub open spec fn race_move(s: RaceState, who: int, restart: bool) -> RaceState {
    if !(0 <= who < s.candidates.len()) {
        s
    } else if restart {
        RaceState { candidates: s.candidates.update(who, start_spec(s.marker)), ..s }
    } else {
        let c = s.candidates[who];
        if cas_succeeds(s.marker, expected_spec(c), true) {
            RaceState {
                marker: Some(c),
                candidates: s.candidates.update(who, start_spec(Some(c))),
                won: s.won.push(c),
            }
        } else {
            match step_spec(c, false) {
                AllocStep::Retry(next) => RaceState {
                    candidates: s.candidates.update(who, next),
                    ..s
                },
                _ => s,
            }
        }
    }
}

/// The state after the moves of `schedule`, from a store without the
/// marker, where each of the `n` appends read that it did not exist.
pub open spec fn race(n: nat, schedule: Seq<(int, bool)>) -> RaceState
    decreases schedule.len(),
{
    if schedule.len() == 0 {
        RaceState { marker: None, candidates: Seq::new(n, |i: int| 0u64), won: Seq::empty() }
    } else {
        race_move(race(n, schedule.drop_last()), schedule.last().0, schedule.last().1)
    }
}

spec fn race_inv(s: RaceState, moves: nat) -> bool {
    &&& s.won.len() <= moves
    &&& forall|j: int| 0 <= j < s.won.len() ==> s.won[j] == j
    &&& s.marker == if s.won.len() == 0 {
        None
    } else {
        Some((s.won.len() - 1) as u64)
    }
    &&& forall|i: int| 0 <= i < s.candidates.len() ==> s.candidates[i] <= s.won.len()
}

proof fn lemma_race_inv(n: nat, schedule: Seq<(int, bool)>)
    requires
        schedule.len() < u64::MAX,
    ensures
        race_inv(race(n, schedule), schedule.len()),
        race(n, schedule).candidates.len() == n,
    decreases schedule.len(),
{
    if schedule.len() > 0 {
        lemma_race_inv(n, schedule.drop_last());
        let s = race(n, schedule.drop_last());
        let who = schedule.last().0;
        let t = race(n, schedule);
        assert(t == race_move(s, who, schedule.last().1));
        if 0 <= who < s.candidates.len() && !schedule.last().1 {
            let c = s.candidates[who];
            let k = s.won.len();
            if cas_succeeds(s.marker, expected_spec(c), true) {
                assert(c == k);
                assert(t.won == s.won.push(c));
                assert forall|j: int| 0 <= j < t.won.len() implies t.won[j] == j by {
                    if j < k {
                        assert(t.won[j] == s.won[j]);
                    }
                }
            } else {
                assert(c < k);
            }
        }
    }
}

/// Offsets of a shared log are unique and dense: however appends that follow
/// the protocol (read the marker, try offsets upward by compare-and-swap)
/// interleave, the offsets won are 0, 1, 2, ... in the order won, so no
/// offset is won twice and the offsets won form a range from 0.
pub proof fn lemma_offsets_unique_and_dense(n: nat, schedule: Seq<(int, bool)>)
    requires
        schedule.len() < u64::MAX,
    ensures
        forall|j: int| 0 <= j < race(n, schedule).won.len() ==> race(n, schedule).won[j] == j,
        race(n, schedule).won.no_duplicates(),
{
    lemma_race_inv(n, schedule);
}

/// The compare-and-swap that commits `offset` over the stored committed
/// offset `prev`, as `(from, to, create)`: none where `prev` is already at
/// least `offset`, since a commit never lowers the committed offset. Where
/// nothing is stored the swap creates the entry (`create`), and `from` is
/// `offset` itself, so that a racing writer that stored the same offset
/// first makes it succeed harmlessly.
pub open spec fn commit_cas_spec(prev: Option<u64>, offset: u64) -> Option<(u64, u64, bool)> {
    match prev {
        None => Some((offset, offset, true)),
        Some(p) => if p < offset {
            Some((p, offset, false))
        } else {
            None
        },
    }
}

pub fn commit_cas(prev: Option<u64>, offset: u64) -> (r: Option<(u64, u64, bool)>)
    ensures
        r == commit_cas_spec(prev, offset),
{
    match prev {
        None => Some((offset, offset, true)),
        Some(p) => if p < offset {
            Some((p, offset, false))
        } else {
            None
        },
    }
}

/// A committed offset kept by these swaps never goes down, and a swap made
/// on the value it read leaves the larger of that value and the offset, as
/// a commit to one node's log does: a swap that
/// succeeds on the value it read replaces it with one at least as large, and
/// after it the value is at least the offset committed.
pub proof fn lemma_commit_cas_raises(stored: Option<u64>, offset: u64)
    ensures
        commit_cas_spec(stored, offset) matches Some((from, to, create)) ==> to == offset && (
        stored matches Some(v) ==> (cas_succeeds(stored, from, create) ==> v < to)),
        commit_cas_spec(stored, offset) is None ==> (stored matches Some(v) && v >= offset),
        (match commit_cas_spec(stored, offset) {
            Some((from, to, create)) => if cas_succeeds(stored, from, create) {
                Some(to)
            } else {
                stored
            },
            None => stored,
        }) == Some(crate::log::commit_spec(stored, offset)),
{
}

/// How many offsets a poll from `from` fetches: `POLL_LIMIT`, or fewer where
/// the offsets would pass `u64::MAX`.
pub open spec fn window_spec(from: u64) -> u64 {
    if u64::MAX - from < POLL_LIMIT {
        (u64::MAX - from) as u64
    } else {
        POLL_LIMIT
    }
}

/// The `(offset, value)` pairs of the offsets from `from` whose value was
/// found (`fetched[j]` is what offset `from + j` holds), in offset order;
/// offsets without a value are skipped, not taken as the end of the log.
pub open spec fn present_pairs(from: u64, fetched: Seq<Option<u64>>) -> Seq<(u64, u64)>
    decreases fetched.len(),
{
    if fetched.len() == 0 {
        Seq::empty()
    } else {
        let p = present_pairs(from, fetched.drop_last());
        match fetched.last() {
            Some(v) => p.push(((from + fetched.len() - 1) as u64, v)),
            None => p,
        }
    }
}

/// The `(key, offset)` pairs of the keys whose committed offset was found
/// (`fetched[i]` is what `keys[i]` holds), in the order asked.
pub open spec fn present_commits(keys: Seq<Seq<char>>, fetched: Seq<Option<u64>>) -> Seq<
    (Seq<char>, u64),
>
    decreases fetched.len(),
{
    if fetched.len() == 0 || keys.len() < fetched.len() {
        Seq::empty()
    } else {
        let p = present_commits(keys, fetched.drop_last());
        match fetched.last() {
            Some(v) => p.push((keys[fetched.len() - 1], v)),
            None => p,
        }
    }
}

/// Once every write of the window is visible, a poll sees all of it: each
/// offset from `from`, with its value, in offset order, none left out.
pub proof fn lemma_poll_sees_every_visible_write(from: u64, fetched: Seq<Option<u64>>)
    requires
        from + fetched.len() <= u64::MAX,
        forall|j: int| 0 <= j < fetched.len() ==> fetched[j] is Some,
    ensures
        present_pairs(from, fetched) == Seq::new(
            fetched.len(),
            |j: int| ((from + j) as u64, fetched[j]->0),
        ),
    decreases fetched.len(),
{
    if fetched.len() > 0 {
        let d = fetched.drop_last();
        lemma_poll_sees_every_visible_write(from, d);
        assert(present_pairs(from, fetched) =~= Seq::new(
            fetched.len(),
            |j: int| ((from + j) as u64, fetched[j]->0),
        ));
    }
}

/// How many offsets a poll from `from` fetches.
pub fn poll_window(from: u64) -> (r: u64)
    ensures
        r == window_spec(from),
        from + r <= u64::MAX,
{
    if u64::MAX - from < POLL_LIMIT {
        u64::MAX - from
    } else {
        POLL_LIMIT
    }
}

/// The poll reply for one key from the values fetched at offsets `from`,
/// `from + 1`, ...: the offsets found, each with its value.
pub fn collect_present(from: u64, fetched: &Vec<Option<u64>>) -> (r: Vec<(u64, u64)>)
    requires
        from + fetched@.len() <= u64::MAX,
    ensures
        r@ == present_pairs(from, fetched@),
{
    let mut r: Vec<(u64, u64)> = Vec::new();
    let mut j: usize = 0;
    while j < fetched.len()
        invariant
            0 <= j <= fetched@.len(),
            from + fetched@.len() <= u64::MAX,
            r@ == present_pairs(from, fetched@.subrange(0, j as int)),
        decreases fetched@.len() - j,
    {
        assert(fetched@.subrange(0, j + 1).drop_last() == fetched@.subrange(0, j as int));
        match fetched[j] {
            Some(v) => {
                r.push((from + j as u64, v));
            },
            None => {},
        }
        j = j + 1;
    }
    assert(fetched@.subrange(0, fetched@.len() as int) == fetched@);
    r
}

/// The committed-offsets reply from the offsets fetched for `keys`: each key
/// whose offset was found, with it; keys without one are left out.
pub fn collect_commits(keys: &Vec<String>, fetched: &Vec<Option<u64>>) -> (r: Vec<(String, u64)>)
    requires
        fetched@.len() <= keys@.len(),
    ensures
        crate::log::pairs_view(r@) == present_commits(keys@.map_values(|s: String| s@), fetched@),
{
    let ghost kv = keys@.map_values(|s: String| s@);
    let mut r: Vec<(String, u64)> = Vec::new();
    let mut i: usize = 0;
    while i < fetched.len()
        invariant
            0 <= i <= fetched@.len(),
            fetched@.len() <= keys@.len(),
            kv == keys@.map_values(|s: String| s@),
            crate::log::pairs_view(r@) == present_commits(kv, fetched@.subrange(0, i as int)),
        decreases fetched@.len() - i,
    {
        assert(fetched@.subrange(0, i + 1).drop_last() == fetched@.subrange(0, i as int));
        match fetched[i] {
            Some(v) => {
                let ghost before = r@;
                r.push((keys[i].clone(), v));
                assert(crate::log::pairs_view(r@) =~= crate::log::pairs_view(before).push(
                    (kv[i as int], v),
                ));
            },
            None => {},
        }
        i = i + 1;
    }
    assert(fetched@.subrange(0, fetched@.len() as int) == fetched@);
    r
}

} // verus!
