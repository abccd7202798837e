//! Protocol laws, proved over the handler transition relations.
//!
//! `start_step` and `partial_step` are the exact postconditions of
//! `handle_start` and `handle_partial`. The lemmas here quantify over those
//! relations — and over whole traces of handler calls — and so hold of every
//! run that drives the handlers, whatever the transport delivers.

use vstd::prelude::*;

use crate::bytes_ord::{lex_lt, sorted_strict, views_of};
use crate::contributor::{
    aggregation_ok, g1_lookup, g1m, key_fold, member_index, partial_ready, partial_sig_bytes,
    partial_step, participants_upto, protocol_inv, sig_fold, sigs_upto, start_ready, start_step,
    threshold_of, Contributor, PartialOutcome, StartAggregation, StartOutcome,
};
use crate::crypto::{sig_of, verify_of};
use crate::session::{
    count_some, has_round, lemma_count_some_bounds, lemma_count_some_full, lemma_round_at_unique,
    parts_views, round_at, session_inv, signed_contains, Session,
};
use crate::wire::MessageView;

verus! {

/// One handler call, with everything that determined it.
pub enum Event {
    /// A `handle_start` call.
    Start { sender: Seq<u8>, m: MessageView, hash: Seq<u8>, out: StartOutcome },
    /// A `handle_partial` call.
    Partial { sender: Seq<u8>, m: MessageView, hash: Seq<u8>, out: PartialOutcome },
}

/// Whether the event is a valid transition from `s0` to `s1`.
pub open spec fn step_ok(c: Contributor, s0: Session, s1: Session, e: Event) -> bool {
    match e {
        Event::Start { sender, m, hash, out } => start_step(c, s0, s1, sender, m, hash, out),
        Event::Partial { sender, m, hash, out } => partial_step(c, s0, s1, sender, m, hash, out),
    }
}

/// Whether `states` and `events` form a run of the handlers: one state more
/// than events, consecutive states related by the events.
pub open spec fn trace_ok(c: Contributor, states: Seq<Session>, events: Seq<Event>) -> bool {
    &&& states.len() == events.len() + 1
    &&& forall|i: int|
        0 <= i < events.len() ==> step_ok(c, states[i], #[trigger] states[i + 1], events[i])
}

/// Whether the event broadcast this node's own partial for round `r`.
pub open spec fn broadcasts_round(e: Event, r: u64) -> bool {
    match e {
        Event::Start { m, out, .. } => m.round == r && out is Broadcast,
        Event::Partial { .. } => false,
    }
}

/// How many events of the trace broadcast this node's own partial for round
/// `r`.
pub open spec fn broadcast_count(events: Seq<Event>, r: u64) -> int
    decreases events.len(),
{
    if events.len() == 0 {
        0
    } else {
        broadcast_count(events.drop_last(), r) + if broadcasts_round(events.last(), r) {
            1int
        } else {
            0int
        }
    }
}

/// The broadcast count is a count.
proof fn lemma_broadcast_count_nonneg(events: Seq<Event>, r: u64)
    ensures
        broadcast_count(events, r) >= 0,
    decreases events.len(),
{
    if events.len() > 0 {
        lemma_broadcast_count_nonneg(events.drop_last(), r);
    }
}

/// No step forgets a signed round.
pub proof fn lemma_step_keeps_signed(c: Contributor, s0: Session, s1: Session, e: Event, r: u64)
    requires
        step_ok(c, s0, s1, e),
        signed_contains(s0, r),
    ensures
        signed_contains(s1, r),
{
    let i = choose|i: int| 0 <= i < s0.signed@.len() && s0.signed@[i] == r;
    match e {
        Event::Start { sender, m, hash, out } => {
            if start_ready(c, s0, sender, m) {
                match out {
                    StartOutcome::Broadcast(..) => {
                        assert(s1.signed@[i] == r);
                    },
                    _ => {
                        assert(s1 == s0);
                    },
                }
            } else {
                assert(s1 == s0);
            }
        },
        Event::Partial { sender, m, hash, out } => {
            if partial_ready(c, s0, sender, m) {
                if verify_of(sender, hash, crate::contributor::partial_sig_bytes(m)) {
                    assert(s1.signed@ == s0.signed@);
                    assert(s1.signed@[i] == r);
                } else {
                    assert(s1 == s0);
                }
            } else {
                assert(s1 == s0);
            }
        },
    }
}

/// At-most-once own signing per round: however long the run and whatever
/// the inputs, at most one broadcast of this node's own partial carries any
/// given round, and once one happened the round is marked signed.
pub proof fn lemma_at_most_once_signing(
    c: Contributor,
    states: Seq<Session>,
    events: Seq<Event>,
    r: u64,
)
    requires
        trace_ok(c, states, events),
    ensures
        broadcast_count(events, r) <= 1,
        broadcast_count(events, r) >= 1 ==> signed_contains(states.last(), r),
    decreases events.len(),
{
    if events.len() > 0 {
        let pre_states = states.drop_last();
        let pre_events = events.drop_last();
        assert(trace_ok(c, pre_states, pre_events)) by {
            assert forall|i: int| 0 <= i < pre_events.len() implies step_ok(
                c,
                pre_states[i],
                #[trigger] pre_states[i + 1],
                pre_events[i],
            ) by {
                assert(pre_states[i] == states[i]);
                assert(pre_states[i + 1] == states[i + 1]);
                assert(pre_events[i] == events[i]);
            }
        }
        lemma_at_most_once_signing(c, pre_states, pre_events, r);
        let k = events.len() - 1;
        let s_pre = states[k];
        let s_post = states[k + 1];
        let e = events.last();
        assert(pre_states.last() == s_pre);
        assert(step_ok(c, s_pre, s_post, e));
        assert(states.last() == s_post);
        if broadcasts_round(e, r) {
            // a broadcast happens only on an unsigned round, so none can
            // have happened before; and it marks the round signed
            match e {
                Event::Start { sender, m, hash, out } => {
                    assert(start_ready(c, s_pre, sender, m));
                    assert(!signed_contains(s_pre, r));
                    lemma_broadcast_count_nonneg(pre_events, r);
                    assert(broadcast_count(pre_events, r) == 0);
                    assert(s_post.signed@ == s_pre.signed@.push(r));
                    assert(s_post.signed@[s_post.signed@.len() - 1] == r);
                    assert(signed_contains(s_post, r));
                },
                Event::Partial { .. } => {},
            }
        } else {
            if broadcast_count(pre_events, r) >= 1 {
                lemma_step_keeps_signed(c, s_pre, s_post, e, r);
            }
        }
    }
}

/// Authenticated provenance, signing side: a `Start` whose sender is not
/// the orchestrator triggers nothing and changes nothing.
pub proof fn lemma_spoofed_start_ignored(
    c: Contributor,
    s0: Session,
    s1: Session,
    sender: Seq<u8>,
    m: MessageView,
    hash: Seq<u8>,
    out: StartOutcome,
)
    requires
        start_step(c, s0, s1, sender, m, hash, out),
        sender != c.orchestrator@,
    ensures
        out == StartOutcome::Ignored,
        s1 == s0,
{
}

/// Authenticated provenance, accumulation side: a partial from a sender
/// outside the committee is dropped and stores nothing.
pub proof fn lemma_unknown_sender_ignored(
    c: Contributor,
    s0: Session,
    s1: Session,
    sender: Seq<u8>,
    m: MessageView,
    hash: Seq<u8>,
    out: PartialOutcome,
)
    requires
        partial_step(c, s0, s1, sender, m, hash, out),
        !crate::contributor::is_member(c, sender),
    ensures
        out == PartialOutcome::Ignored,
        s1 == s0,
{
}

/// Duplicate rejection: a partial for a `(round, contributor)` slot that is
/// already filled is dropped and changes nothing. Together with the store's
/// shape — one slot per contributor index and one row per round — at most
/// one entry ever exists per `(round, contributor)`.
pub proof fn lemma_duplicate_ignored(
    c: Contributor,
    s0: Session,
    s1: Session,
    sender: Seq<u8>,
    m: MessageView,
    hash: Seq<u8>,
    out: PartialOutcome,
)
    requires
        partial_step(c, s0, s1, sender, m, hash, out),
        has_round(s0, m.round),
        parts_views(s0.rounds@[round_at(s0, m.round)].parts@)[member_index(c, sender)] is Some,
    ensures
        out == PartialOutcome::Ignored,
        s1 == s0,
{
}

/// A filled slot keeps the count at one or above.
proof fn lemma_count_some_pos(s: Seq<Option<Seq<u8>>>, i: int)
    requires
        0 <= i < s.len(),
        s[i] is Some,
    ensures
        count_some(s) >= 1,
    decreases s.len(),
{
    if i < s.len() - 1 {
        lemma_count_some_pos(s.drop_last(), i);
    } else {
        lemma_count_some_bounds(s.drop_last());
    }
}

/// Threshold exactness: an aggregation event is emitted exactly at the
/// first moment the stored count reaches the threshold and the combined
/// signature verifies; a stored partial emits nothing when the count is
/// still short or the round was already completed.
pub proof fn lemma_threshold_exactness(
    c: Contributor,
    s0: Session,
    s1: Session,
    sender: Seq<u8>,
    m: MessageView,
    hash: Seq<u8>,
    out: PartialOutcome,
)
    requires
        partial_step(c, s0, s1, sender, m, hash, out),
        partial_ready(c, s0, sender, m),
    ensures
        out matches PartialOutcome::Aggregated(ev) ==> {
            let j = round_at(s0, m.round);
            let new_pv = parts_views(s1.rounds@[j].parts@);
            &&& count_some(new_pv) >= threshold_of(c)
            &&& !s0.rounds@[j].done
            &&& s1.rounds@[j].done
            &&& verify_of(
                crate::contributor::key_fold(
                    participants_upto(views_of(c.contributors@), new_pv, c.contributors@.len() as int),
                ),
                hash,
                ev.signature@,
            )
        },
        out matches PartialOutcome::Accepted(cr) ==> {
            let j = round_at(s0, m.round);
            let new_pv = parts_views(s1.rounds@[j].parts@);
            &&& (count_some(new_pv) >= threshold_of(c) ==> s0.rounds@[j].done)
            &&& (!s0.rounds@[j].done ==> count_some(new_pv) < threshold_of(c))
        },
{
}

/// Whether `x` is the key of a member with a filled slot among the first
/// `k`.
pub open spec fn drawn_from(
    mem: Seq<Seq<u8>>,
    pv: Seq<Option<Seq<u8>>>,
    k: int,
    x: Seq<u8>,
) -> bool {
    exists|i: int| 0 <= i < k && #[trigger] pv[i] is Some && x =~= mem[i]
}

/// Threshold exactness, the firing direction: a stored partial that brings
/// the count of a round not yet complete to the threshold, with combinable
/// material whose aggregate verifies against the participants, emits the
/// aggregation event.
pub proof fn lemma_threshold_crossing_fires(
    c: Contributor,
    s0: Session,
    s1: Session,
    sender: Seq<u8>,
    m: MessageView,
    hash: Seq<u8>,
    out: PartialOutcome,
)
    requires
        partial_step(c, s0, s1, sender, m, hash, out),
        partial_ready(c, s0, sender, m),
        verify_of(sender, hash, partial_sig_bytes(m)),
        !s0.rounds@[round_at(s0, m.round)].done,
        count_some(parts_views(s1.rounds@[round_at(s0, m.round)].parts@)) >= threshold_of(c),
        aggregation_ok(c, parts_views(s1.rounds@[round_at(s0, m.round)].parts@)),
        verify_of(
            key_fold(
                participants_upto(
                    views_of(c.contributors@),
                    parts_views(s1.rounds@[round_at(s0, m.round)].parts@),
                    c.contributors@.len() as int,
                ),
            ),
            hash,
            sig_fold(
                sigs_upto(
                    parts_views(s1.rounds@[round_at(s0, m.round)].parts@),
                    c.contributors@.len() as int,
                ),
            ),
        ),
    ensures
        out is Aggregated,
{
}

/// A threshold of one is crossed by the node's own partial already: on the
/// aggregator, the broadcast carries an aggregation attempt, which emits
/// the event exactly when the own key has a G1 association and the own
/// partial verifies — the event then lists this node alone.
pub proof fn lemma_threshold_one_fires_at_start(
    c: Contributor,
    s0: Session,
    s1: Session,
    sender: Seq<u8>,
    m: MessageView,
    hash: Seq<u8>,
    b: Vec<u8>,
    ag: StartAggregation,
)
    requires
        start_step(c, s0, s1, sender, m, hash, StartOutcome::Broadcast(b, ag)),
        c.aggregation_data is Some,
        threshold_of(c) == 1,
    ensures
        !(ag is NotAttempted),
        (ag is Aggregated) == (g1_lookup(g1m(c), c.self_key@) is Some && verify_of(
            c.self_key@,
            hash,
            sig_of(c.signer@, hash),
        )),
        ag matches StartAggregation::Aggregated(ev) ==> ev.round == m.round && views_of(
            ev.participating@,
        ) == seq![c.self_key@] && ev.signature@ == sig_of(c.signer@, hash),
{
}

/// Deterministic participant order: the participants collected from a store
/// row are committee members, listed strictly ascending in the canonical
/// byte order (equivalently, by member index).
pub proof fn lemma_participants_sorted(
    mem: Seq<Seq<u8>>,
    pv: Seq<Option<Seq<u8>>>,
    k: int,
)
    requires
        sorted_strict(mem),
        pv.len() == mem.len(),
        0 <= k <= mem.len(),
    ensures
        sorted_strict(participants_upto(mem, pv, k)),
        forall|a: int|
            0 <= a < participants_upto(mem, pv, k).len() ==> drawn_from(
                mem,
                pv,
                k,
                #[trigger] participants_upto(mem, pv, k)[a],
            ),
    decreases k,
{
    if k > 0 {
        lemma_participants_sorted(mem, pv, k - 1);
        let pre = participants_upto(mem, pv, k - 1);
        let cur = participants_upto(mem, pv, k);
        if pv[k - 1] is Some {
            assert(cur == pre + seq![mem[k - 1]]);
            assert forall|a: int, b: int| 0 <= a < b < cur.len() implies lex_lt(
                cur[a],
                cur[b],
            ) by {
                if b == cur.len() - 1 {
                    assert(cur[a] == pre[a]);
                    assert(drawn_from(mem, pv, k - 1, pre[a]));
                    let i = choose|i: int|
                        0 <= i < k - 1 && #[trigger] pv[i] is Some && pre[a] =~= mem[i];
                    assert(lex_lt(mem[i], mem[k - 1]));
                }
            }
            assert forall|a: int| 0 <= a < cur.len() implies drawn_from(
                mem,
                pv,
                k,
                cur[a],
            ) by {
                if a < cur.len() - 1 {
                    assert(drawn_from(mem, pv, k - 1, pre[a]));
                    let i = choose|i: int|
                        0 <= i < k - 1 && #[trigger] pv[i] is Some && pre[a] =~= mem[i];
                    assert(cur[a] =~= mem[i]);
                } else {
                    assert(cur[a] =~= mem[k - 1]);
                    assert(pv[k - 1] is Some);
                }
            }
        } else {
            assert(cur =~= pre);
            assert forall|a: int| 0 <= a < cur.len() implies drawn_from(
                mem,
                pv,
                k,
                cur[a],
            ) by {
                assert(drawn_from(mem, pv, k - 1, pre[a]));
                let i = choose|i: int|
                    0 <= i < k - 1 && #[trigger] pv[i] is Some && pre[a] =~= mem[i];
                assert(cur[a] =~= mem[i]);
            }
        }
    }
}

/// Deterministic participant order, at the event: the keys carried by any
/// emitted aggregation event are committee members with a stored partial,
/// strictly ascending in the canonical byte order.
pub proof fn lemma_event_participants_sorted(
    c: Contributor,
    s0: Session,
    s1: Session,
    sender: Seq<u8>,
    m: MessageView,
    hash: Seq<u8>,
    ev: crate::contributor::AggregationEvent,
)
    requires
        c.wf(),
        protocol_inv(c, s0),
        partial_step(c, s0, s1, sender, m, hash, PartialOutcome::Aggregated(ev)),
    ensures
        sorted_strict(views_of(ev.participating@)),
        forall|a: int|
            0 <= a < views_of(ev.participating@).len() ==> drawn_from(
                views_of(c.contributors@),
                parts_views(s1.rounds@[round_at(s0, m.round)].parts@),
                c.contributors@.len() as int,
                #[trigger] views_of(ev.participating@)[a],
            ),
{
    let n = c.contributors@.len() as int;
    assert(partial_ready(c, s0, sender, m));
    let j = round_at(s0, m.round);
    lemma_round_at_unique(s0, n, j);
    let old_pv = parts_views(s0.rounds@[j].parts@);
    let new_pv = parts_views(s1.rounds@[j].parts@);
    assert(new_pv.len() == n);
    lemma_participants_sorted(views_of(c.contributors@), new_pv, n);
}

/// Signed-payload binding: the broadcast that answers a `Start` carries
/// this node's signature over exactly the canonical hash handed in for that
/// message, and the same signature is what the store keeps under this
/// node's own index.
pub proof fn lemma_signed_payload_binding(
    c: Contributor,
    s0: Session,
    s1: Session,
    sender: Seq<u8>,
    m: MessageView,
    hash: Seq<u8>,
    b: Vec<u8>,
    ag: crate::contributor::StartAggregation,
)
    requires
        c.wf(),
        start_step(c, s0, s1, sender, m, hash, StartOutcome::Broadcast(b, ag)),
    ensures
        b@ == crate::wire::spec_encode(
            crate::contributor::reply_view(m, sig_of(c.signer@, hash)),
        ),
        parts_views(s1.rounds@.last().parts@)[c.me as int] == Option::Some(
            sig_of(c.signer@, hash),
        ),
{
    assert(start_ready(c, s0, sender, m));
    let n = c.contributors@.len() as int;
    assert(parts_views(s1.rounds@.last().parts@) == crate::contributor::own_entry_views(
        n,
        c.me as int,
        sig_of(c.signer@, hash),
    ));
}

/// Feeding the same peer partial twice: once it is stored, the repeat is
/// dropped unchanged — so it leaves exactly one stored partial and cannot
/// emit a second aggregation event.
pub proof fn lemma_repeat_partial_ignored(
    c: Contributor,
    s0: Session,
    s1: Session,
    s2: Session,
    sender: Seq<u8>,
    m: MessageView,
    hash: Seq<u8>,
    out1: PartialOutcome,
    out2: PartialOutcome,
)
    requires
        c.wf(),
        protocol_inv(c, s0),
        partial_step(c, s0, s1, sender, m, hash, out1),
        partial_step(c, s1, s2, sender, m, hash, out2),
        !(out1 is Ignored),
        !(out1 is Rejected),
    ensures
        out2 == PartialOutcome::Ignored,
        s2 == s1,
{
    assert(partial_ready(c, s0, sender, m));
    let n = c.contributors@.len() as int;
    let i = member_index(c, sender);
    let j = round_at(s0, m.round);
    lemma_round_at_unique(s0, n, j);
    assert(s1.rounds@[j].round == m.round);
    // the store keeps its shape, so the round sits at the same position
    assert(session_inv(s1, n)) by {
        assert forall|a: int, b: int| 0 <= a < b < s1.rounds@.len() implies s1.rounds@[a].round
            != s1.rounds@[b].round by {
            assert(s1.rounds@[a].round == s0.rounds@[a].round);
            assert(s1.rounds@[b].round == s0.rounds@[b].round);
        }
        assert forall|a: int| 0 <= a < s1.rounds@.len() implies #[trigger] s1.rounds@[a].parts@.len()
            == n by {
            if a != j {
                assert(s1.rounds@[a] == s0.rounds@[a]);
            } else {
                assert(parts_views(s1.rounds@[j].parts@).len() == parts_views(
                    s0.rounds@[j].parts@,
                ).len());
            }
        }
    }
    assert(has_round(s1, m.round));
    lemma_round_at_unique(s1, n, j);
    assert(round_at(s1, m.round) == j);
    // the sender's slot is now filled, so the repeat fails the gates
    assert(parts_views(s1.rounds@[j].parts@)[i] is Some);
    assert(!partial_ready(c, s1, sender, m));
}

/// A threshold of one completes a round on the first stored peer partial: a
/// stored partial can be merely accepted only when the round was already
/// complete.
pub proof fn lemma_threshold_one_fires(
    c: Contributor,
    s0: Session,
    s1: Session,
    sender: Seq<u8>,
    m: MessageView,
    hash: Seq<u8>,
    out: PartialOutcome,
)
    requires
        c.wf(),
        protocol_inv(c, s0),
        partial_step(c, s0, s1, sender, m, hash, out),
        threshold_of(c) == 1,
    ensures
        out matches PartialOutcome::Accepted(cr) ==> s0.rounds@[round_at(s0, m.round)].done,
{
    if out matches PartialOutcome::Accepted(cr) {
        let n = c.contributors@.len() as int;
        assert(partial_ready(c, s0, sender, m));
        let j = round_at(s0, m.round);
        assert(0 <= j < s0.rounds@.len());
        let i = member_index(c, sender);
        assert(0 <= i < n);
        let old_pv = parts_views(s0.rounds@[j].parts@);
        assert(old_pv.len() == n);
        let new_pv = parts_views(s1.rounds@[j].parts@);
        assert(new_pv == old_pv.update(i, Option::Some(
            crate::contributor::partial_sig_bytes(m),
        )));
        assert(new_pv[i] is Some);
        lemma_count_some_pos(new_pv, i);
    }
}

/// A threshold equal to the committee size requires every member: when the
/// aggregate fires, every slot is filled and the participants are exactly
/// the whole committee, this node included.
pub proof fn lemma_threshold_full_committee(
    c: Contributor,
    s0: Session,
    s1: Session,
    sender: Seq<u8>,
    m: MessageView,
    hash: Seq<u8>,
    ev: crate::contributor::AggregationEvent,
)
    requires
        c.wf(),
        protocol_inv(c, s0),
        partial_step(c, s0, s1, sender, m, hash, PartialOutcome::Aggregated(ev)),
        threshold_of(c) == c.contributors@.len(),
    ensures
        views_of(ev.participating@) == views_of(c.contributors@),
{
    let n = c.contributors@.len() as int;
    let j = round_at(s0, m.round);
    assert(partial_ready(c, s0, sender, m));
    lemma_round_at_unique(s0, n, j);
    let new_pv = parts_views(s1.rounds@[j].parts@);
    assert(new_pv.len() == n);
    lemma_count_some_bounds(new_pv);
    assert(count_some(new_pv) == n);
    lemma_count_some_full(new_pv);
    lemma_participants_all(views_of(c.contributors@), new_pv, n);
    assert(views_of(c.contributors@).take(n) =~= views_of(c.contributors@));
}

/// Whether round `r` has been completed by an emitted aggregation event.
pub open spec fn round_done(s: Session, r: u64) -> bool {
    has_round(s, r) && s.rounds@[round_at(s, r)].done
}

/// Every step preserves the protocol invariant.
pub proof fn lemma_step_keeps_inv(c: Contributor, s0: Session, s1: Session, e: Event)
    requires
        c.wf(),
        protocol_inv(c, s0),
        step_ok(c, s0, s1, e),
    ensures
        protocol_inv(c, s1),
{
    let n = c.contributors@.len() as int;
    match e {
        Event::Start { sender, m, hash, out } => {
            if start_ready(c, s0, sender, m) && out is Broadcast {
                assert(s1.rounds@.last().parts@.len() == n) by {
                    assert(parts_views(s1.rounds@.last().parts@).len() == n);
                }
                assert(s1.rounds@.last().parts@[c.me as int] is Some) by {
                    assert(parts_views(s1.rounds@.last().parts@)[c.me as int] is Some);
                }
                crate::contributor::lemma_commit_inv(c, s0, s1, m.round);
            } else {
                assert(s1 == s0);
            }
        },
        Event::Partial { sender, m, hash, out } => {
            lemma_partial_fits_restore(c, s0, s1, sender, m, hash, out);
        },
    }
}

/// A stored partial matches the shape that `lemma_restore` describes.
proof fn lemma_partial_fits_restore(
    c: Contributor,
    s0: Session,
    s1: Session,
    sender: Seq<u8>,
    m: MessageView,
    hash: Seq<u8>,
    out: PartialOutcome,
)
    requires
        c.wf(),
        protocol_inv(c, s0),
        partial_step(c, s0, s1, sender, m, hash, out),
    ensures
        protocol_inv(c, s1),
{
    if partial_ready(c, s0, sender, m) && verify_of(
        sender,
        hash,
        crate::contributor::partial_sig_bytes(m),
    ) {
        let n = c.contributors@.len() as int;
        let i = member_index(c, sender);
        let j = round_at(s0, m.round);
        let old_pv = parts_views(s0.rounds@[j].parts@);
        assert(old_pv[c.me as int] is Some);
        assert(i != c.me);
        assert(s1.rounds@ =~= s0.rounds@.remove(j).insert(j, s1.rounds@[j]));
        assert(parts_views(s1.rounds@[j].parts@).len() == old_pv.len());
        crate::contributor::lemma_restore(
            c,
            s0,
            s1,
            j,
            i,
            crate::contributor::partial_sig_bytes(m),
            parts_views(s1.rounds@[j].parts@),
        );
    } else {
        assert(s1 == s0);
    }
}

/// No step reopens a completed round.
pub proof fn lemma_step_keeps_done(
    c: Contributor,
    s0: Session,
    s1: Session,
    e: Event,
    r: u64,
)
    requires
        c.wf(),
        protocol_inv(c, s0),
        step_ok(c, s0, s1, e),
        round_done(s0, r),
    ensures
        round_done(s1, r),
{
    let n = c.contributors@.len() as int;
    lemma_step_keeps_inv(c, s0, s1, e);
    let w = round_at(s0, r);
    assert(0 <= w < s0.rounds@.len() && s0.rounds@[w].round == r);
    match e {
        Event::Start { sender, m, hash, out } => {
            if start_ready(c, s0, sender, m) && out is Broadcast {
                // the opened round is unsigned, so it is not the completed one
                assert(signed_contains(s0, r));
                assert(m.round != r);
                assert(s1.rounds@[w] == s0.rounds@[w]);
                assert(has_round(s1, r));
                lemma_round_at_unique(s1, n, w);
            } else {
                assert(s1 == s0);
            }
        },
        Event::Partial { sender, m, hash, out } => {
            if partial_ready(c, s0, sender, m) && verify_of(
                sender,
                hash,
                crate::contributor::partial_sig_bytes(m),
            ) {
                let j = round_at(s0, m.round);
                if w == j {
                    // a completed round accepts the partial without a new event
                    assert(s0.rounds@[j].done);
                    assert(s1.rounds@[j].done == s0.rounds@[j].done);
                } else {
                    assert(s1.rounds@[w] == s0.rounds@[w]);
                }
                assert(s1.rounds@[w].done);
                assert(s1.rounds@[w].round == r);
                assert(has_round(s1, r));
                lemma_round_at_unique(s1, n, w);
            } else {
                assert(s1 == s0);
            }
        },
    }
}

/// Whether the event emitted an aggregation for round `r` — on the
/// accumulation path, or at the node's own self-insertion when that alone
/// meets the threshold.
pub open spec fn aggregates_round(e: Event, r: u64) -> bool {
    match e {
        Event::Partial { m, out, .. } => m.round == r && out is Aggregated,
        Event::Start { m, out, .. } => m.round == r && (out matches StartOutcome::Broadcast(
            _,
            ag,
        ) && ag is Aggregated),
    }
}

/// How many events of the trace emitted an aggregation for round `r`.
pub open spec fn aggregation_count(events: Seq<Event>, r: u64) -> int
    decreases events.len(),
{
    if events.len() == 0 {
        0
    } else {
        aggregation_count(events.drop_last(), r) + if aggregates_round(events.last(), r) {
            1int
        } else {
            0int
        }
    }
}

/// The aggregation count is a count.
proof fn lemma_aggregation_count_nonneg(events: Seq<Event>, r: u64)
    ensures
        aggregation_count(events, r) >= 0,
    decreases events.len(),
{
    if events.len() > 0 {
        lemma_aggregation_count_nonneg(events.drop_last(), r);
    }
}

/// Once per round: however long the run and whatever the inputs, at most
/// one aggregation event is emitted for any given round, and once one
/// happened the round stays completed.
pub proof fn lemma_at_most_one_aggregation(
    c: Contributor,
    states: Seq<Session>,
    events: Seq<Event>,
    r: u64,
)
    requires
        c.wf(),
        trace_ok(c, states, events),
        protocol_inv(c, states[0]),
    ensures
        aggregation_count(events, r) <= 1,
        aggregation_count(events, r) >= 1 ==> round_done(states.last(), r),
        protocol_inv(c, states.last()),
    decreases events.len(),
{
    let n = c.contributors@.len() as int;
    if events.len() == 0 {
        assert(states.last() == states[0]);
    } else {
        let pre_states = states.drop_last();
        let pre_events = events.drop_last();
        assert(trace_ok(c, pre_states, pre_events)) by {
            assert forall|i: int| 0 <= i < pre_events.len() implies step_ok(
                c,
                pre_states[i],
                #[trigger] pre_states[i + 1],
                pre_events[i],
            ) by {
                assert(pre_states[i] == states[i]);
                assert(pre_states[i + 1] == states[i + 1]);
                assert(pre_events[i] == events[i]);
            }
        }
        assert(pre_states[0] == states[0]);
        lemma_at_most_one_aggregation(c, pre_states, pre_events, r);
        let k = events.len() - 1;
        let s_pre = states[k];
        let s_post = states[k + 1];
        let e = events.last();
        assert(pre_states.last() == s_pre);
        assert(step_ok(c, s_pre, s_post, e));
        assert(states.last() == s_post);
        lemma_step_keeps_inv(c, s_pre, s_post, e);
        if aggregates_round(e, r) {
            match e {
                Event::Partial { sender, m, hash, out } => {
                    // the event fires only on a round not yet completed, so
                    // none can have fired before; and it completes the round
                    assert(partial_ready(c, s_pre, sender, m));
                    let j = round_at(s_pre, m.round);
                    assert(!s_pre.rounds@[j].done);
                    assert(!round_done(s_pre, r));
                    lemma_aggregation_count_nonneg(pre_events, r);
                    assert(aggregation_count(pre_events, r) == 0);
                    assert(s_post.rounds@[j].done);
                    assert(s_post.rounds@[j].round == r);
                    assert(has_round(s_post, r));
                    lemma_round_at_unique(s_post, n, j);
                    assert(round_done(s_post, r));
                },
                Event::Start { sender, m, hash, out } => {
                    // the round is freshly opened, so it cannot have been
                    // completed before; the self-aggregation completes it
                    assert(start_ready(c, s_pre, sender, m));
                    assert(!signed_contains(s_pre, r));
                    assert(!has_round(s_pre, r));
                    assert(!round_done(s_pre, r));
                    lemma_aggregation_count_nonneg(pre_events, r);
                    assert(aggregation_count(pre_events, r) == 0);
                    let j = s_post.rounds@.len() - 1;
                    assert(s_post.rounds@[j].round == r);
                    assert(s_post.rounds@[j].done);
                    assert(has_round(s_post, r));
                    lemma_round_at_unique(s_post, n, j);
                    assert(round_done(s_post, r));
                },
            }
        } else {
            if aggregation_count(pre_events, r) >= 1 {
                lemma_step_keeps_done(c, s_pre, s_post, e, r);
            }
        }
    }
}

/// When every slot is filled, the participants are the whole committee.
proof fn lemma_participants_all(mem: Seq<Seq<u8>>, pv: Seq<Option<Seq<u8>>>, k: int)
    requires
        pv.len() == mem.len(),
        0 <= k <= mem.len(),
        forall|i: int| 0 <= i < pv.len() ==> pv[i] is Some,
    ensures
        participants_upto(mem, pv, k) == mem.take(k),
    decreases k,
{
    if k > 0 {
        lemma_participants_all(mem, pv, k - 1);
        assert(participants_upto(mem, pv, k) =~= mem.take(k)) by {
            assert(participants_upto(mem, pv, k) == mem.take(k - 1) + seq![mem[k - 1]]);
        }
    } else {
        assert(participants_upto(mem, pv, 0) =~= mem.take(0));
    }
}

} // verus!
