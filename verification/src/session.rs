//! Per-run mutable state: signed rounds and the per-round signature store.
//!
//! The store keeps, for every round that this node has committed to by
//! signing, one slot per contributor index. A slot holds at most one partial
//! signature, so a duplicate `(round, contributor)` entry cannot exist by
//! construction.

use vstd::prelude::*;

verus! {

/// The store entry of one round.
pub struct RoundEntry {
    /// The round number.
    pub round: u64,
    /// One slot per contributor, in index order.
    pub parts: Vec<Option<Vec<u8>>>,
    /// Whether an aggregation event has been emitted for this round.
    pub done: bool,
}

/// Mutable session state, initialised empty for each run.
pub struct Session {
    /// Rounds for which this node has produced its own partial signature.
    pub signed: Vec<u64>,
    /// Per-round signature store, one entry per committed round.
    pub rounds: Vec<RoundEntry>,
}

/// The byte-string views of the slots of a round.
pub open spec fn parts_views(parts: Seq<Option<Vec<u8>>>) -> Seq<Option<Seq<u8>>> {
    Seq::new(parts.len(), |i: int| match parts[i] {
        Option::None => Option::None,
        Option::Some(v) => Option::Some(v@),
    })
}

/// Whether the node has signed round `r` in this session.
pub open spec fn signed_contains(s: Session, r: u64) -> bool {
    exists|i: int| 0 <= i < s.signed@.len() && s.signed@[i] == r
}

/// Whether the store has an entry for round `r`.
pub open spec fn has_round(s: Session, r: u64) -> bool {
    exists|i: int| 0 <= i < s.rounds@.len() && s.rounds@[i].round == r
}

/// The position of round `r` in the store (meaningful when `has_round`).
pub open spec fn round_at(s: Session, r: u64) -> int {
    choose|i: int| 0 <= i < s.rounds@.len() && s.rounds@[i].round == r
}

/// Number of filled slots.
pub open spec fn count_some(s: Seq<Option<Seq<u8>>>) -> int
    decreases s.len(),
{
    if s.len() == 0 {
        0
    } else {
        count_some(s.drop_last()) + if s.last() is Some {
            1int
        } else {
            0int
        }
    }
}

/// Structural invariant of the session state for a committee of `n`
/// contributors: no round is recorded twice, and every store entry has one
/// slot per contributor.
pub open spec fn session_inv(s: Session, n: int) -> bool {
    &&& forall|i: int, j: int|
        0 <= i < j < s.signed@.len() ==> s.signed@[i] != s.signed@[j]
    &&& forall|i: int, j: int|
        0 <= i < j < s.rounds@.len() ==> s.rounds@[i].round != s.rounds@[j].round
    &&& forall|i: int| 0 <= i < s.rounds@.len() ==> #[trigger] s.rounds@[i].parts@.len() == n
}

impl Session {
    /// Empty session state.
    pub fn new() -> (r: Session)
        ensures
            r.signed@.len() == 0,
            r.rounds@.len() == 0,
    {
        Session { signed: Vec::new(), rounds: Vec::new() }
    }
}

/// The count never exceeds the number of slots.
pub proof fn lemma_count_some_bounds(s: Seq<Option<Seq<u8>>>)
    ensures
        0 <= count_some(s) <= s.len(),
    decreases s.len(),
{
    if s.len() > 0 {
        lemma_count_some_bounds(s.drop_last());
    }
}

/// A full store has every slot filled.
pub proof fn lemma_count_some_full(s: Seq<Option<Seq<u8>>>)
    requires
        count_some(s) == s.len(),
    ensures
        forall|i: int| 0 <= i < s.len() ==> s[i] is Some,
    decreases s.len(),
{
    if s.len() > 0 {
        lemma_count_some_bounds(s.drop_last());
        lemma_count_some_full(s.drop_last());
        assert forall|i: int| 0 <= i < s.len() implies s[i] is Some by {
            if i < s.len() - 1 {
                assert(s.drop_last()[i] == s[i]);
            }
        }
    }
}

/// Counting slot by slot: the count of a prefix grows by one exactly at the
/// filled slots.
pub proof fn lemma_count_some_take_step(s: Seq<Option<Seq<u8>>>, k: int)
    requires
        0 <= k < s.len(),
    ensures
        count_some(s.take(k + 1)) == count_some(s.take(k)) + if s[k] is Some {
            1int
        } else {
            0int
        },
{
    assert(s.take(k + 1).drop_last() =~= s.take(k));
    assert(s.take(k + 1).last() == s[k]);
}

/// The whole sequence is its own full prefix.
pub proof fn lemma_count_some_take_all(s: Seq<Option<Seq<u8>>>)
    ensures
        count_some(s.take(s.len() as int)) == count_some(s),
{
    assert(s.take(s.len() as int) =~= s);
}

/// Looks a round up in the store.
pub fn find_round(s: &Session, r: u64) -> (o: Option<usize>)
    ensures
        match o {
            Option::Some(i) => i < s.rounds@.len() && s.rounds@[i as int].round == r,
            Option::None => !has_round(*s, r),
        },
{
    let mut i: usize = 0;
    while i < s.rounds.len()
        invariant
            i <= s.rounds@.len(),
            forall|j: int| 0 <= j < i ==> s.rounds@[j].round != r,
        decreases s.rounds@.len() - i,
    {
        if s.rounds[i].round == r {
            return Option::Some(i);
        }
        i += 1;
    }
    Option::None
}

/// Whether the node has already signed round `r`.
pub fn signed_lookup(s: &Session, r: u64) -> (b: bool)
    ensures
        b == signed_contains(*s, r),
{
    let mut i: usize = 0;
    while i < s.signed.len()
        invariant
            i <= s.signed@.len(),
            forall|j: int| 0 <= j < i ==> s.signed@[j] != r,
        decreases s.signed@.len() - i,
    {
        if s.signed[i] == r {
            return true;
        }
        i += 1;
    }
    false
}

/// In a well-formed store, a position holding round `r` is the position of
/// round `r`.
pub proof fn lemma_round_at_unique(s: Session, n: int, i: int)
    requires
        session_inv(s, n),
        0 <= i < s.rounds@.len(),
    ensures
        round_at(s, s.rounds@[i].round) == i,
{
    let r = s.rounds@[i].round;
    assert(has_round(s, r));
    let j = round_at(s, r);
    if i < j {
        assert(s.rounds@[i].round != s.rounds@[j].round);
    } else if j < i {
        assert(s.rounds@[j].round != s.rounds@[i].round);
    }
}

} // verus!
