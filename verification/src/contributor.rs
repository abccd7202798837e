//! The contributor node and its round-driven handlers.
//!
//! A node is built once from the orchestrator key, its own keypair, the
//! committee, and an optional aggregation block; it is immutable afterwards.
//! Message handling is split at the caller's asynchronous boundaries: the
//! caller decodes an inbound message, asks `dispatch` whether the canonical
//! hash is needed, obtains it from the validator, and then runs
//! `handle_start` or `handle_partial`, which perform every decision and
//! state change of the protocol.

use vstd::prelude::*;

use crate::bytes_ord::{
    bytes_eq, copy_bytes, distinct_keys, lemma_lex_lt_irrefl, sort_keys, sorted_strict, views_of,
};
use crate::crypto::{
    bls_key_add, bls_public_key, bls_sig_add, bls_sign, bls_verify, key_sum_of, key_sum_ok,
    pubkey_of, pubkey_ok, sig_of, sig_sum_of, sig_sum_ok, sign_ok, verify_of,
};
use crate::session::{
    count_some, find_round, has_round, lemma_count_some_take_all, lemma_count_some_take_step,
    lemma_round_at_unique, parts_views, round_at, session_inv, signed_contains, signed_lookup,
    RoundEntry, Session,
};
use crate::wire::{encode, spec_encode, Message, MessageView, Payload, PayloadView};

verus! {

/// Aggregation parameters handed to `Contributor::new` for the node that
/// plays the aggregator role.
pub struct AggregationInput {
    /// Number of distinct partials required before aggregation.
    pub threshold: usize,
    /// Association from a member's G2 key bytes to its G1 key bytes.
    pub g1_map: Vec<(Vec<u8>, Vec<u8>)>,
}

impl AggregationInput {
    /// Packs the aggregation parameters.
    pub fn new(threshold: usize, g1_map: Vec<(Vec<u8>, Vec<u8>)>) -> (r: Self)
        ensures
            r.threshold == threshold,
            r.g1_map@ == g1_map@,
    {
        AggregationInput { threshold, g1_map }
    }

    /// The threshold.
    pub fn threshold(&self) -> (r: usize)
        ensures
            r == self.threshold,
    {
        self.threshold
    }

    /// The G2-to-G1 key association.
    pub fn g1_map(&self) -> (r: &Vec<(Vec<u8>, Vec<u8>)>)
        ensures
            r == &self.g1_map,
    {
        &self.g1_map
    }
}

/// Aggregation block kept by the node.
pub struct AggregationData {
    /// Number of distinct partials required before aggregation.
    pub threshold: usize,
    /// Association from a member's G2 key bytes to its G1 key bytes.
    pub g1_map: Vec<(Vec<u8>, Vec<u8>)>,
}

/// The contributor node. All fields are immutable after construction; keys
/// are their canonical compressed byte encodings.
pub struct Contributor {
    /// The only key whose `Start` messages open a round.
    pub orchestrator: Vec<u8>,
    /// This node's private-key bytes.
    pub signer: Vec<u8>,
    /// This node's public key.
    pub self_key: Vec<u8>,
    /// Position of `self_key` in `contributors`.
    pub me: usize,
    /// Committee keys, strictly ascending in canonical byte order.
    pub contributors: Vec<Vec<u8>>,
    /// Present only on the designated aggregator.
    pub aggregation_data: Option<AggregationData>,
}

/// Whether `key` is a committee member.
pub open spec fn is_member(c: Contributor, key: Seq<u8>) -> bool {
    exists|i: int| 0 <= i < c.contributors@.len() && c.contributors@[i]@ == key
}

/// The member's position (meaningful when `is_member`).
pub open spec fn member_index(c: Contributor, key: Seq<u8>) -> int {
    choose|i: int| 0 <= i < c.contributors@.len() && c.contributors@[i]@ == key
}

impl Contributor {
    /// Well-formedness: the committee is strictly sorted, this node is a
    /// member at position `me`, and a present threshold is between 1 and the
    /// committee size.
    pub open spec fn wf(self) -> bool {
        &&& sorted_strict(views_of(self.contributors@))
        &&& self.me < self.contributors@.len()
        &&& self.contributors@[self.me as int]@ == self.self_key@
        &&& match self.aggregation_data {
            Option::Some(ad) => 1 <= ad.threshold <= self.contributors@.len(),
            Option::None => true,
        }
    }
}

/// A strictly sorted sequence has pairwise distinct elements.
pub proof fn lemma_sorted_strict_distinct(s: Seq<Seq<u8>>)
    requires
        sorted_strict(s),
    ensures
        distinct_keys(s),
{
    assert forall|i: int, j: int| 0 <= i < j < s.len() implies s[i] != s[j] by {
        lemma_lex_lt_irrefl(s[i]);
    }
}

/// In a well-formed committee, a position holding `key` is the member index
/// of `key`.
pub proof fn lemma_member_index_unique(c: Contributor, i: int)
    requires
        c.wf(),
        0 <= i < c.contributors@.len(),
    ensures
        member_index(c, c.contributors@[i]@) == i,
{
    lemma_sorted_strict_distinct(views_of(c.contributors@));
    let key = c.contributors@[i]@;
    assert(is_member(c, key));
    let j = member_index(c, key);
    assert(views_of(c.contributors@)[i] == key);
    assert(views_of(c.contributors@)[j] == key);
}

/// Position of a key in a list of keys.
fn index_of_key(keys: &Vec<Vec<u8>>, key: &Vec<u8>) -> (r: Option<usize>)
    ensures
        match r {
            Option::Some(i) => i < keys@.len() && keys@[i as int]@ == key@,
            Option::None => forall|j: int| 0 <= j < keys@.len() ==> keys@[j]@ != key@,
        },
{
    let mut i: usize = 0;
    while i < keys.len()
        invariant
            i <= keys@.len(),
            forall|j: int| 0 <= j < i ==> keys@[j]@ != key@,
        decreases keys@.len() - i,
    {
        if bytes_eq(&keys[i], key) {
            return Option::Some(i);
        }
        i += 1;
    }
    Option::None
}

impl Contributor {
    /// Whether `sender` is the orchestrator.
    pub fn is_orchestrator(&self, sender: &Vec<u8>) -> (r: bool)
        ensures
            r == (sender@ == self.orchestrator@),
    {
        bytes_eq(sender, &self.orchestrator)
    }

    /// Position of a contributor key in the sorted committee.
    pub fn get_contributor_index(&self, public_key: &Vec<u8>) -> (r: Option<usize>)
        ensures
            match r {
                Option::Some(i) => i < self.contributors@.len() && self.contributors@[i as int]@
                    == public_key@,
                Option::None => !is_member(*self, public_key@),
            },
    {
        index_of_key(&self.contributors, public_key)
    }

    /// Builds a node from an already-derived public key. Succeeds exactly
    /// when the key is among the given committee keys and a present
    /// threshold is between 1 and the number of distinct committee keys.
    /// The stored committee is the set of given keys, ascending in canonical
    /// byte order with each key listed once.
    pub fn with_self_key(
        orchestrator: Vec<u8>,
        signer: Vec<u8>,
        self_key: Vec<u8>,
        contributors: Vec<Vec<u8>>,
        aggregation_input: Option<AggregationInput>,
    ) -> (r: Option<Contributor>)
        ensures
            match r {
                Option::Some(c) => {
                    &&& c.wf()
                    &&& c.orchestrator@ == orchestrator@
                    &&& c.signer@ == signer@
                    &&& c.self_key@ == self_key@
                    &&& sorted_strict(views_of(c.contributors@))
                    &&& forall|y: Seq<u8>|
                        #[trigger] views_of(c.contributors@).contains(y) == views_of(
                            contributors@,
                        ).contains(y)
                    &&& c.contributors@[c.me as int]@ == self_key@
                    &&& views_of(contributors@).contains(self_key@)
                    &&& match aggregation_input {
                        Option::Some(ai) => (c.aggregation_data matches Option::Some(ad)
                            && ad.threshold == ai.threshold && ad.g1_map@ == ai.g1_map@ && 1
                            <= ai.threshold <= views_of(contributors@).to_set().len()),
                        Option::None => c.aggregation_data is None,
                    }
                },
                Option::None => !views_of(contributors@).contains(self_key@) || match
                    aggregation_input {
                    Option::Some(ai) => !(1 <= ai.threshold <= views_of(
                        contributors@,
                    ).to_set().len()),
                    Option::None => false,
                },
            },
    {
        let ghost orig: Seq<Seq<u8>> = views_of(contributors@);
        let sorted = sort_keys(contributors);
        proof {
            let sv = views_of(sorted@);
            lemma_sorted_strict_distinct(sv);
            assert(sv.no_duplicates());
            sv.unique_seq_to_set();
            assert(sv.to_set() =~= orig.to_set());
            assert(sv.len() == orig.to_set().len());
        }
        if let Option::Some(ai) = &aggregation_input {
            if ai.threshold < 1 || ai.threshold > sorted.len() {
                return Option::None;
            }
        }
        let me = match index_of_key(&sorted, &self_key) {
            Option::Some(i) => i,
            Option::None => {
                proof {
                    let sv = views_of(sorted@);
                    if orig.contains(self_key@) {
                        assert(sv.contains(self_key@));
                        let i = choose|i: int| 0 <= i < sv.len() && sv[i] == self_key@;
                        assert(sorted@[i]@ == self_key@);
                    }
                }
                return Option::None;
            },
        };
        proof {
            assert(views_of(sorted@)[me as int] == self_key@);
            assert(views_of(sorted@).contains(self_key@));
            assert(orig.contains(self_key@));
        }
        let aggregation_data = match aggregation_input {
            Option::Some(ai) => Option::Some(
                AggregationData { threshold: ai.threshold, g1_map: ai.g1_map },
            ),
            Option::None => Option::None,
        };
        Option::Some(
            Contributor {
                orchestrator,
                signer,
                self_key,
                me,
                contributors: sorted,
                aggregation_data,
            },
        )
    }

    /// Builds a node from the orchestrator key, this node's private key, the
    /// committee (in any order, duplicates collapsed) and the optional
    /// aggregation block. The public key is derived from the private key;
    /// construction fails exactly when the derivation fails, the derived key
    /// is not among the committee keys, or a present threshold is not
    /// between 1 and the number of distinct committee keys.
    pub fn new(
        orchestrator: Vec<u8>,
        signer: Vec<u8>,
        contributors: Vec<Vec<u8>>,
        aggregation_input: Option<AggregationInput>,
    ) -> (r: Option<Contributor>)
        ensures
            match r {
                Option::Some(c) => {
                    &&& c.wf()
                    &&& c.orchestrator@ == orchestrator@
                    &&& c.signer@ == signer@
                    &&& pubkey_ok(signer@)
                    &&& c.self_key@ == pubkey_of(signer@)
                    &&& sorted_strict(views_of(c.contributors@))
                    &&& forall|y: Seq<u8>|
                        #[trigger] views_of(c.contributors@).contains(y) == views_of(
                            contributors@,
                        ).contains(y)
                    &&& views_of(contributors@).contains(pubkey_of(signer@))
                    &&& match aggregation_input {
                        Option::Some(ai) => (c.aggregation_data matches Option::Some(ad)
                            && ad.threshold == ai.threshold && ad.g1_map@ == ai.g1_map@ && 1
                            <= ai.threshold <= views_of(contributors@).to_set().len()),
                        Option::None => c.aggregation_data is None,
                    }
                },
                Option::None => !pubkey_ok(signer@) || !views_of(contributors@).contains(
                    pubkey_of(signer@),
                ) || match aggregation_input {
                    Option::Some(ai) => !(1 <= ai.threshold <= views_of(
                        contributors@,
                    ).to_set().len()),
                    Option::None => false,
                },
            },
    {
        let self_key = match bls_public_key(&signer) {
            Option::Some(k) => k,
            Option::None => {
                return Option::None;
            },
        };
        Contributor::with_self_key(orchestrator, signer, self_key, contributors, aggregation_input)
    }
}

/// Joint invariant of a node and its session state: the store is
/// well-formed, a store entry exists exactly for the signed rounds, and
/// every store entry holds this node's own partial.
pub open spec fn protocol_inv(c: Contributor, s: Session) -> bool {
    &&& session_inv(s, c.contributors@.len() as int)
    &&& forall|i: int|
        0 <= i < s.rounds@.len() ==> signed_contains(s, #[trigger] s.rounds@[i].round)
    &&& forall|i: int| 0 <= i < s.signed@.len() ==> has_round(s, #[trigger] s.signed@[i])
    &&& forall|i: int|
        0 <= i < s.rounds@.len() ==> (#[trigger] s.rounds@[i].parts@)[c.me as int] is Some
}

/// Whether a message from `sender` triggers the signing path: an
/// orchestrator `Start` for a round not yet signed.
pub open spec fn start_ready(c: Contributor, s: Session, sender: Seq<u8>, m: MessageView) -> bool {
    &&& m.payload == Option::Some(PayloadView::Start)
    &&& sender == c.orchestrator@
    &&& !signed_contains(s, m.round)
}

/// The broadcast reply to a `Start`: the same round and metadata, carrying
/// this node's partial signature.
pub open spec fn reply_view(m: MessageView, sig: Seq<u8>) -> MessageView {
    MessageView { round: m.round, metadata: m.metadata, payload: Option::Some(PayloadView::Signature(sig)) }
}

/// A fresh store row holding only this node's own partial.
pub open spec fn own_entry_views(n: int, me: int, sig: Seq<u8>) -> Seq<Option<Seq<u8>>> {
    Seq::new(n as nat, |i: int| if i == me {
        Option::Some(sig)
    } else {
        Option::None
    })
}

/// What a call of `handle_start` does: nothing unless the signing path is
/// triggered; otherwise either the signing capability failed (exactly when
/// the named signing operation fails) and nothing changed, or the round was
/// marked signed, a store row with the node's own partial over `hash` was
/// created, the reply to broadcast was returned, and — when the node
/// aggregates with a threshold the single own partial already meets —
/// aggregation over that one partial was attempted, with each of its
/// outcomes tied to the named operations that decide it.
pub open spec fn start_step(
    c: Contributor,
    s0: Session,
    s1: Session,
    sender: Seq<u8>,
    m: MessageView,
    hash: Seq<u8>,
    out: StartOutcome,
) -> bool {
    if !start_ready(c, s0, sender, m) {
        out == StartOutcome::Ignored && s1 == s0
    } else {
        match out {
            StartOutcome::Ignored => false,
            StartOutcome::SignFailed => s1 == s0 && !sign_ok(c.signer@, hash),
            StartOutcome::Broadcast(b, ag) => {
                let sig = sig_of(c.signer@, hash);
                let n = c.contributors@.len() as int;
                let crossing = c.aggregation_data is Some && threshold_of(c) <= 1;
                let g1 = g1_lookup(g1m(c), c.self_key@);
                &&& sign_ok(c.signer@, hash)
                &&& b@ == spec_encode(reply_view(m, sig))
                &&& s1.signed@ == s0.signed@.push(m.round)
                &&& s1.rounds@.len() == s0.rounds@.len() + 1
                &&& forall|i: int| 0 <= i < s0.rounds@.len() ==> s1.rounds@[i] == s0.rounds@[i]
                &&& s1.rounds@.last().round == m.round
                &&& parts_views(s1.rounds@.last().parts@) == own_entry_views(n, c.me as int, sig)
                &&& match ag {
                    StartAggregation::NotAttempted => !crossing && s1.rounds@.last().done == false,
                    StartAggregation::AggregationFailed => crossing && g1 is None
                        && s1.rounds@.last().done == false,
                    StartAggregation::FatalMismatch => crossing && g1 is Some && !verify_of(
                        c.self_key@,
                        hash,
                        sig,
                    ) && s1.rounds@.last().done == false,
                    StartAggregation::Aggregated(ev) => {
                        &&& crossing
                        &&& g1 is Some
                        &&& verify_of(c.self_key@, hash, sig)
                        &&& s1.rounds@.last().done == true
                        &&& ev.round == m.round
                        &&& ev.payload@ == hash
                        &&& views_of(ev.participating@) == seq![c.self_key@]
                        &&& views_of(ev.participating_g1@) == seq![g1_value(g1m(c), c.self_key@)]
                        &&& ev.signature@ == sig
                    },
                }
            },
        }
    }
}

/// Outcome of the signing path.
pub enum StartOutcome {
    /// The message does not trigger signing; nothing changed.
    Ignored,
    /// The round was signed and stored; the bytes are to be broadcast
    /// reliably to all peers, and the second field tells whether the own
    /// partial already completed the round.
    Broadcast(Vec<u8>, StartAggregation),
    /// The signing capability failed; nothing changed. Callers treat this as
    /// fatal.
    SignFailed,
}

/// Whether storing the node's own partial crossed the threshold, and how
/// the aggregation over it went.
pub enum StartAggregation {
    /// The threshold is above one (or the node does not aggregate): more
    /// partials are needed before aggregation.
    NotAttempted,
    /// The single own partial met the threshold and the verified aggregate
    /// is emitted.
    Aggregated(AggregationEvent),
    /// The own partial met the threshold but this node's key has no G1
    /// association; the attempt is dropped and the round left incomplete.
    AggregationFailed,
    /// The own partial met the threshold but did not verify against this
    /// node's own key. Callers treat this as fatal.
    FatalMismatch,
}

/// The signature bytes carried by a message, when its payload is a partial.
pub open spec fn partial_sig_bytes(m: MessageView) -> Seq<u8> {
    match m.payload {
        Option::Some(PayloadView::Signature(s)) => s,
        _ => Seq::empty(),
    }
}

/// Whether the payload is a partial signature.
pub open spec fn has_partial_sig(m: MessageView) -> bool {
    m.payload matches Option::Some(PayloadView::Signature(_))
}

/// The aggregation threshold (meaningful on the aggregator).
pub open spec fn threshold_of(c: Contributor) -> int {
    match c.aggregation_data {
        Option::Some(ad) => ad.threshold as int,
        Option::None => 0,
    }
}

/// Whether a message from `sender` enters the accumulation path and passes
/// every non-cryptographic gate: this node aggregates, the sender is a peer
/// contributor, the round is committed, the sender's slot is free, and the
/// payload carries a partial.
pub open spec fn partial_ready(c: Contributor, s: Session, sender: Seq<u8>, m: MessageView) -> bool {
    &&& c.aggregation_data is Some
    &&& sender != c.orchestrator@
    &&& is_member(c, sender)
    &&& has_round(s, m.round)
    &&& parts_views(s.rounds@[round_at(s, m.round)].parts@)[member_index(c, sender)] is None
    &&& has_partial_sig(m)
}

/// What the caller should do with a decoded message.
pub enum Action {
    /// Drop the message.
    Ignore,
    /// Obtain the canonical hash of the encoded message, then call
    /// `handle_start`. A failure to obtain it is fatal.
    HashForStart,
    /// Obtain the canonical hash of the encoded message, then call
    /// `handle_partial`. A failure to obtain it drops the message.
    HashForPartial,
}

impl Contributor {
    /// Routes a decoded message: tells the caller whether the validator's
    /// canonical hash is needed and which handler to run. Makes no state
    /// change.
    pub fn dispatch(&self, session: &Session, sender: &Vec<u8>, msg: &Message) -> (r: Action)
        requires
            self.wf(),
            session_inv(*session, self.contributors@.len() as int),
        ensures
            (r == Action::HashForStart) == start_ready(*self, *session, sender@, msg@),
            (r == Action::HashForPartial) == partial_ready(*self, *session, sender@, msg@),
    {
        let from_orchestrator = self.is_orchestrator(sender);
        if self.aggregation_data.is_some() && !from_orchestrator {
            // accumulation path
            let idx = match self.get_contributor_index(sender) {
                Option::Some(i) => i,
                Option::None => {
                    return Action::Ignore;
                },
            };
            proof {
                lemma_member_index_unique(*self, idx as int);
            }
            let j = match find_round(session, msg.round) {
                Option::Some(j) => j,
                Option::None => {
                    return Action::Ignore;
                },
            };
            proof {
                lemma_round_at_unique(*session, self.contributors@.len() as int, j as int);
            }
            if session.rounds[j].parts[idx].is_some() {
                return Action::Ignore;
            }
            match &msg.payload {
                Option::Some(Payload::Signature(_)) => Action::HashForPartial,
                _ => Action::Ignore,
            }
        } else {
            // signing path
            let is_start = match &msg.payload {
                Option::Some(Payload::Start) => true,
                _ => false,
            };
            if !is_start {
                return Action::Ignore;
            }
            if !from_orchestrator {
                return Action::Ignore;
            }
            if signed_lookup(session, msg.round) {
                return Action::Ignore;
            }
            Action::HashForStart
        }
    }

    /// Signing path: on an orchestrator `Start` for an unsigned round,
    /// signs the canonical hash, stores the partial under this node's own
    /// index, marks the round signed, and returns the encoded reply to
    /// broadcast. On an aggregator whose threshold the single own partial
    /// already meets, aggregation over it is attempted at once. Anything
    /// else is ignored without a state change.
    pub fn handle_start(
        &self,
        session: &mut Session,
        sender: &Vec<u8>,
        msg: &Message,
        hash: &Vec<u8>,
    ) -> (r: StartOutcome)
        requires
            self.wf(),
            protocol_inv(*self, *old(session)),
        ensures
            protocol_inv(*self, *final(session)),
            start_step(*self, *old(session), *final(session), sender@, msg@, hash@, r),
    {
        let is_start = match &msg.payload {
            Option::Some(Payload::Start) => true,
            _ => false,
        };
        if !is_start {
            return StartOutcome::Ignored;
        }
        if !bytes_eq(sender, &self.orchestrator) {
            return StartOutcome::Ignored;
        }
        if signed_lookup(session, msg.round) {
            return StartOutcome::Ignored;
        }
        let sig = match bls_sign(&self.signer, hash) {
            Option::Some(s) => s,
            Option::None => {
                return StartOutcome::SignFailed;
            },
        };
        let n = self.contributors.len();
        let mut parts: Vec<Option<Vec<u8>>> = Vec::new();
        let mut k: usize = 0;
        while k < n
            invariant
                k <= n,
                parts@.len() == k,
                forall|i: int| 0 <= i < k ==> parts@[i] is None,
            decreases n - k,
        {
            parts.push(Option::None);
            k += 1;
        }
        let sig_store = copy_bytes(&sig);
        parts.set(self.me, Option::Some(sig_store));
        let mut entry = RoundEntry { round: msg.round, parts, done: false };
        let mut aggregation = StartAggregation::NotAttempted;
        match &self.aggregation_data {
            Option::Some(ad) => {
                if ad.threshold <= 1 {
                    // the own partial alone meets the threshold: aggregate it
                    match g1_find(&ad.g1_map, &self.self_key) {
                        Option::None => {
                            aggregation = StartAggregation::AggregationFailed;
                        },
                        Option::Some(g1) => {
                            if bls_verify(&self.self_key, hash, &sig) {
                                entry.done = true;
                                let ev = AggregationEvent {
                                    round: msg.round,
                                    payload: copy_bytes(hash),
                                    participating: vec![copy_bytes(&self.self_key)],
                                    participating_g1: vec![g1],
                                    signature: copy_bytes(&sig),
                                };
                                proof {
                                    assert(views_of(ev.participating@) =~= seq![self.self_key@]);
                                    assert(views_of(ev.participating_g1@) =~= seq![
                                        g1_value(g1m(*self), self.self_key@),
                                    ]);
                                }
                                aggregation = StartAggregation::Aggregated(ev);
                            } else {
                                aggregation = StartAggregation::FatalMismatch;
                            }
                        },
                    }
                }
            },
            Option::None => {},
        }
        let ghost s0 = *session;
        session.rounds.push(entry);
        session.signed.push(msg.round);
        let metadata = copy_bytes(&msg.metadata);
        let reply = Message {
            round: msg.round,
            metadata,
            payload: Option::Some(Payload::Signature(sig)),
        };
        let out = encode(&reply);
        proof {
            let c = *self;
            let s1 = *session;
            let m = msg@;
            let nn = c.contributors@.len() as int;
            assert(reply@ =~= reply_view(m, sig_of(c.signer@, hash@)));
            assert(parts_views(s1.rounds@.last().parts@) =~= own_entry_views(
                nn,
                c.me as int,
                sig_of(c.signer@, hash@),
            ));
            lemma_commit_inv(c, s0, s1, m.round);
        }
        StartOutcome::Broadcast(out, aggregation)
    }
}

/// First G1 key associated to `key`, scanning the association list.
pub open spec fn g1_lookup(m: Seq<(Vec<u8>, Vec<u8>)>, key: Seq<u8>) -> Option<Seq<u8>>
    decreases m.len(),
{
    if m.len() == 0 {
        Option::None
    } else if m[0].0@ == key {
        Option::Some(m[0].1@)
    } else {
        g1_lookup(m.drop_first(), key)
    }
}

/// The G1 key associated to `key` (meaningful when the lookup succeeds).
pub open spec fn g1_value(m: Seq<(Vec<u8>, Vec<u8>)>, key: Seq<u8>) -> Seq<u8> {
    match g1_lookup(m, key) {
        Option::Some(v) => v,
        Option::None => Seq::empty(),
    }
}

/// The aggregator's association list (empty on non-aggregators).
pub open spec fn g1m(c: Contributor) -> Seq<(Vec<u8>, Vec<u8>)> {
    match c.aggregation_data {
        Option::Some(ad) => ad.g1_map@,
        Option::None => Seq::empty(),
    }
}

/// Members with a filled slot among the first `k`, ascending by index.
pub open spec fn participants_upto(
    members: Seq<Seq<u8>>,
    parts: Seq<Option<Seq<u8>>>,
    k: int,
) -> Seq<Seq<u8>>
    decreases k,
{
    if k <= 0 {
        Seq::empty()
    } else {
        participants_upto(members, parts, k - 1) + if parts[k - 1] is Some {
            seq![members[k - 1]]
        } else {
            Seq::empty()
        }
    }
}

/// The stored partials among the first `k` slots, ascending by index.
pub open spec fn sigs_upto(parts: Seq<Option<Seq<u8>>>, k: int) -> Seq<Seq<u8>>
    decreases k,
{
    if k <= 0 {
        Seq::empty()
    } else {
        sigs_upto(parts, k - 1) + match parts[k - 1] {
            Option::Some(s) => seq![s],
            Option::None => Seq::empty(),
        }
    }
}

/// Whether every participant among the first `k` has an associated G1 key.
pub open spec fn g1_ok_upto(
    m: Seq<(Vec<u8>, Vec<u8>)>,
    members: Seq<Seq<u8>>,
    parts: Seq<Option<Seq<u8>>>,
    k: int,
) -> bool
    decreases k,
{
    if k <= 0 {
        true
    } else {
        g1_ok_upto(m, members, parts, k - 1) && (parts[k - 1] is Some ==> g1_lookup(
            m,
            members[k - 1],
        ) is Some)
    }
}

/// The participants' G1 keys among the first `k` slots, ascending by index.
pub open spec fn g1s_upto(
    m: Seq<(Vec<u8>, Vec<u8>)>,
    members: Seq<Seq<u8>>,
    parts: Seq<Option<Seq<u8>>>,
    k: int,
) -> Seq<Seq<u8>>
    decreases k,
{
    if k <= 0 {
        Seq::empty()
    } else {
        g1s_upto(m, members, parts, k - 1) + if parts[k - 1] is Some {
            seq![g1_value(m, members[k - 1])]
        } else {
            Seq::empty()
        }
    }
}

/// Left fold of signatures under the named G1 addition.
pub open spec fn sig_fold(s: Seq<Seq<u8>>) -> Seq<u8>
    decreases s.len(),
{
    if s.len() == 0 {
        Seq::empty()
    } else if s.len() == 1 {
        s[0]
    } else {
        sig_sum_of(sig_fold(s.drop_last()), s.last())
    }
}

/// Left fold of public keys under the named G2 addition.
pub open spec fn key_fold(s: Seq<Seq<u8>>) -> Seq<u8>
    decreases s.len(),
{
    if s.len() == 0 {
        Seq::empty()
    } else if s.len() == 1 {
        s[0]
    } else {
        key_sum_of(key_fold(s.drop_last()), s.last())
    }
}

/// Whether every step of the ascending signature fold succeeds.
pub open spec fn sig_fold_ok(s: Seq<Seq<u8>>) -> bool
    decreases s.len(),
{
    if s.len() <= 1 {
        true
    } else {
        sig_fold_ok(s.drop_last()) && sig_sum_ok(sig_fold(s.drop_last()), s.last())
    }
}

/// Whether every step of the ascending key fold succeeds.
pub open spec fn key_fold_ok(s: Seq<Seq<u8>>) -> bool
    decreases s.len(),
{
    if s.len() <= 1 {
        true
    } else {
        key_fold_ok(s.drop_last()) && key_sum_ok(key_fold(s.drop_last()), s.last())
    }
}

/// Whether the material of a store row combines: every participant has a G1
/// association and every pairwise sum in both ascending folds succeeds.
pub open spec fn aggregation_ok(c: Contributor, pv: Seq<Option<Seq<u8>>>) -> bool {
    let n = c.contributors@.len() as int;
    let mem = views_of(c.contributors@);
    &&& g1_ok_upto(g1m(c), mem, pv, n)
    &&& sig_fold_ok(sigs_upto(pv, n))
    &&& key_fold_ok(participants_upto(mem, pv, n))
}

/// G1 coverage of a longer prefix covers every shorter one.
proof fn lemma_g1_ok_prefix(
    m: Seq<(Vec<u8>, Vec<u8>)>,
    members: Seq<Seq<u8>>,
    parts: Seq<Option<Seq<u8>>>,
    a: int,
    b: int,
)
    requires
        0 <= a <= b,
        g1_ok_upto(m, members, parts, b),
    ensures
        g1_ok_upto(m, members, parts, a),
    decreases b,
{
    if a < b {
        lemma_g1_ok_prefix(m, members, parts, a, b - 1);
    }
}

/// A fold that succeeds throughout succeeds on every prefix.
proof fn lemma_sig_fold_ok_prefix(s: Seq<Seq<u8>>, a: int)
    requires
        0 <= a <= s.len(),
        sig_fold_ok(s),
    ensures
        sig_fold_ok(s.take(a)),
    decreases s.len(),
{
    if a < s.len() {
        if s.len() > 1 {
            assert(s.drop_last() =~= s.take(s.len() - 1));
            lemma_sig_fold_ok_prefix(s.take(s.len() - 1), a);
            assert(s.take(s.len() - 1).take(a) =~= s.take(a));
        } else {
            assert(s.take(a).len() <= 1);
        }
    } else {
        assert(s.take(a) =~= s);
    }
}

/// A fold that succeeds throughout succeeds on every prefix.
proof fn lemma_key_fold_ok_prefix(s: Seq<Seq<u8>>, a: int)
    requires
        0 <= a <= s.len(),
        key_fold_ok(s),
    ensures
        key_fold_ok(s.take(a)),
    decreases s.len(),
{
    if a < s.len() {
        if s.len() > 1 {
            assert(s.drop_last() =~= s.take(s.len() - 1));
            lemma_key_fold_ok_prefix(s.take(s.len() - 1), a);
            assert(s.take(s.len() - 1).take(a) =~= s.take(a));
        } else {
            assert(s.take(a).len() <= 1);
        }
    } else {
        assert(s.take(a) =~= s);
    }
}

/// An emitted aggregation event.
pub struct AggregationEvent {
    /// The completed round.
    pub round: u64,
    /// The canonical payload that was signed.
    pub payload: Vec<u8>,
    /// The participating members' G2 keys, ascending by member index.
    pub participating: Vec<Vec<u8>>,
    /// The participating members' associated G1 keys, in the same order.
    pub participating_g1: Vec<Vec<u8>>,
    /// The aggregate signature.
    pub signature: Vec<u8>,
}

/// Outcome of the accumulation path.
pub enum PartialOutcome {
    /// A gate failed (not this node's role, unknown or orchestrator sender,
    /// uncommitted round, duplicate slot, or wrong payload); nothing
    /// changed.
    Ignored,
    /// The partial did not verify against the sender's key; nothing changed.
    Rejected,
    /// The partial was stored; the count is below the threshold or the round
    /// is already complete, so no aggregation was attempted.
    Accepted(usize),
    /// The partial was stored, the threshold was reached for the first time,
    /// and the verified aggregate is emitted.
    Aggregated(AggregationEvent),
    /// The partial was stored and the threshold was reached, but combining
    /// the collected material failed; the attempt is dropped and the round
    /// left incomplete.
    AggregationFailed,
    /// The partial was stored but the aggregate did not verify although
    /// every partial did. Callers treat this as fatal.
    FatalMismatch,
}

/// What a call of `handle_partial` does: nothing unless every gate of the
/// accumulation path passes; a verification failure changes nothing;
/// otherwise the partial is stored in the sender's slot and, exactly when
/// the threshold is reached on a round not yet complete, aggregation is
/// attempted over the stored partials in ascending index order.
pub open spec fn partial_step(
    c: Contributor,
    s0: Session,
    s1: Session,
    sender: Seq<u8>,
    m: MessageView,
    hash: Seq<u8>,
    out: PartialOutcome,
) -> bool {
    if !partial_ready(c, s0, sender, m) {
        out == PartialOutcome::Ignored && s1 == s0
    } else {
        let i = member_index(c, sender);
        let j = round_at(s0, m.round);
        let sb = partial_sig_bytes(m);
        if !verify_of(sender, hash, sb) {
            out == PartialOutcome::Rejected && s1 == s0
        } else {
            let n = c.contributors@.len() as int;
            let mem = views_of(c.contributors@);
            let old_pv = parts_views(s0.rounds@[j].parts@);
            let new_pv = parts_views(s1.rounds@[j].parts@);
            let cnt = count_some(new_pv);
            let t = threshold_of(c);
            &&& s1.signed@ == s0.signed@
            &&& s1.rounds@.len() == s0.rounds@.len()
            &&& forall|k: int|
                0 <= k < s0.rounds@.len() && k != j ==> s1.rounds@[k] == s0.rounds@[k]
            &&& s1.rounds@[j].round == s0.rounds@[j].round
            &&& new_pv == old_pv.update(i, Option::Some(sb))
            &&& match out {
                PartialOutcome::Ignored => false,
                PartialOutcome::Rejected => false,
                PartialOutcome::Accepted(cr) => {
                    &&& cr == cnt
                    &&& cnt < t || s0.rounds@[j].done
                    &&& s1.rounds@[j].done == s0.rounds@[j].done
                },
                PartialOutcome::AggregationFailed => {
                    &&& cnt >= t
                    &&& !s0.rounds@[j].done
                    &&& s1.rounds@[j].done == false
                    &&& !aggregation_ok(c, new_pv)
                },
                PartialOutcome::FatalMismatch => {
                    &&& cnt >= t
                    &&& !s0.rounds@[j].done
                    &&& s1.rounds@[j].done == false
                    &&& aggregation_ok(c, new_pv)
                    &&& !verify_of(
                        key_fold(participants_upto(mem, new_pv, n)),
                        hash,
                        sig_fold(sigs_upto(new_pv, n)),
                    )
                },
                PartialOutcome::Aggregated(ev) => {
                    &&& cnt >= t
                    &&& !s0.rounds@[j].done
                    &&& s1.rounds@[j].done == true
                    &&& aggregation_ok(c, new_pv)
                    &&& ev.round == m.round
                    &&& ev.payload@ == hash
                    &&& views_of(ev.participating@) == participants_upto(mem, new_pv, n)
                    &&& views_of(ev.participating_g1@) == g1s_upto(g1m(c), mem, new_pv, n)
                    &&& ev.signature@ == sig_fold(sigs_upto(new_pv, n))
                    &&& verify_of(key_fold(participants_upto(mem, new_pv, n)), hash, ev.signature@)
                },
            }
        }
    }
}

/// First G1 key associated to `key` in the association list.
fn g1_find(map: &Vec<(Vec<u8>, Vec<u8>)>, key: &Vec<u8>) -> (r: Option<Vec<u8>>)
    ensures
        match r {
            Option::Some(v) => g1_lookup(map@, key@) == Option::Some(v@),
            Option::None => g1_lookup(map@, key@) is None,
        },
{
    let mut i: usize = 0;
    proof {
        assert(map@.skip(0) =~= map@);
    }
    while i < map.len()
        invariant
            i <= map@.len(),
            g1_lookup(map@, key@) == g1_lookup(map@.skip(i as int), key@),
        decreases map@.len() - i,
    {
        assert(map@.skip(i as int)[0] == map@[i as int]);
        if bytes_eq(&map[i].0, key) {
            let v = copy_bytes(&map[i].1);
            return Option::Some(v);
        }
        proof {
            assert(map@.skip(i as int).drop_first() =~= map@.skip(i + 1));
        }
        i += 1;
    }
    proof {
        assert(map@.skip(map@.len() as int).len() == 0);
    }
    Option::None
}

impl Contributor {
    /// Accumulation path: authenticates a peer partial, rejects duplicates
    /// and unverifiable signatures, stores the partial, and on the first
    /// threshold crossing aggregates and verifies the combined signature.
    #[verifier::loop_isolation(false)]
    pub fn handle_partial(
        &self,
        session: &mut Session,
        sender: &Vec<u8>,
        msg: &Message,
        hash: &Vec<u8>,
    ) -> (r: PartialOutcome)
        requires
            self.wf(),
            protocol_inv(*self, *old(session)),
        ensures
            protocol_inv(*self, *final(session)),
            partial_step(*self, *old(session), *final(session), sender@, msg@, hash@, r),
    {
        let ghost s0 = *session;
        let ghost nn = self.contributors@.len() as int;
        let ad = match &self.aggregation_data {
            Option::Some(ad) => ad,
            Option::None => {
                return PartialOutcome::Ignored;
            },
        };
        if bytes_eq(sender, &self.orchestrator) {
            return PartialOutcome::Ignored;
        }
        let idx = match self.get_contributor_index(sender) {
            Option::Some(i) => i,
            Option::None => {
                return PartialOutcome::Ignored;
            },
        };
        proof {
            lemma_member_index_unique(*self, idx as int);
        }
        let j = match find_round(session, msg.round) {
            Option::Some(j) => j,
            Option::None => {
                return PartialOutcome::Ignored;
            },
        };
        proof {
            lemma_round_at_unique(s0, nn, j as int);
        }
        if session.rounds[j].parts[idx].is_some() {
            return PartialOutcome::Ignored;
        }
        let sb = match &msg.payload {
            Option::Some(Payload::Signature(s)) => s,
            _ => {
                return PartialOutcome::Ignored;
            },
        };
        assert(partial_ready(*self, s0, sender@, msg@));
        if !bls_verify(sender, hash, sb) {
            return PartialOutcome::Rejected;
        }
        // store the partial in the sender's slot
        let sb_store = copy_bytes(sb);
        let mut entry = session.rounds.remove(j);
        let ghost old_pv = parts_views(entry.parts@);
        entry.parts.set(idx, Option::Some(sb_store));
        let ghost new_pv = parts_views(entry.parts@);
        proof {
            assert(new_pv =~= old_pv.update(idx as int, Option::Some(sb@)));
            assert(old_pv[self.me as int] is Some);
            assert(idx != self.me);
        }
        let n = self.contributors.len();
        // count the filled slots
        let mut cnt: usize = 0;
        let mut k: usize = 0;
        while k < n
            invariant
                k <= n,
                entry.parts@.len() == n,
                new_pv == parts_views(entry.parts@),
                cnt == count_some(new_pv.take(k as int)),
                cnt <= k,
            decreases n - k,
        {
            proof {
                lemma_count_some_take_step(new_pv, k as int);
            }
            if entry.parts[k].is_some() {
                cnt += 1;
            }
            k += 1;
        }
        proof {
            lemma_count_some_take_all(new_pv);
        }
        let t = ad.threshold;
        if cnt < t || entry.done {
            session.rounds.insert(j, entry);
            proof {
                lemma_restore(*self, s0, *session, j as int, idx as int, sb@, new_pv);
            }
            return PartialOutcome::Accepted(cnt);
        }
        // threshold reached for the first time: collect in index order
        let mut participating: Vec<Vec<u8>> = Vec::new();
        let mut participating_g1: Vec<Vec<u8>> = Vec::new();
        let mut sigs: Vec<Vec<u8>> = Vec::new();
        let ghost mem = views_of(self.contributors@);
        let mut k2: usize = 0;
        while k2 < n
            invariant
                k2 <= n,
                self.wf(),
                n == self.contributors@.len(),
                entry.parts@.len() == n,
                new_pv == parts_views(entry.parts@),
                mem == views_of(self.contributors@),
                ad.g1_map@ == g1m(*self),
                session.rounds@ == s0.rounds@.remove(j as int),
                session.signed@ == s0.signed@,
                views_of(participating@) == participants_upto(mem, new_pv, k2 as int),
                views_of(sigs@) == sigs_upto(new_pv, k2 as int),
                views_of(participating_g1@) == g1s_upto(g1m(*self), mem, new_pv, k2 as int),
                g1_ok_upto(g1m(*self), mem, new_pv, k2 as int),
                participating@.len() == sigs@.len(),
                participating_g1@.len() == sigs@.len(),
                sigs@.len() == count_some(new_pv.take(k2 as int)),
            decreases n - k2,
        {
            proof {
                lemma_count_some_take_step(new_pv, k2 as int);
            }
            let filled = match &entry.parts[k2] {
                Option::Some(s) => {
                    let sc = copy_bytes(s);
                    sigs.push(sc);
                    true
                },
                Option::None => false,
            };
            if filled {
                match g1_find(&ad.g1_map, &self.contributors[k2]) {
                    Option::Some(g1) => {
                        participating_g1.push(g1);
                    },
                    Option::None => {
                        session.rounds.insert(j, entry);
                        proof {
                            // the missing association falsifies coverage of
                            // the full prefix
                            if g1_ok_upto(g1m(*self), mem, new_pv, nn) {
                                lemma_g1_ok_prefix(g1m(*self), mem, new_pv, k2 as int + 1, nn);
                            }
                            lemma_restore(*self, s0, *session, j as int, idx as int, sb@, new_pv);
                        }
                        return PartialOutcome::AggregationFailed;
                    },
                }
                let kc = copy_bytes(&self.contributors[k2]);
                participating.push(kc);
            }
            proof {
                let ghost kk = k2 as int;
                if new_pv[kk] is Some {
                    assert(views_of(participating@) =~= participants_upto(mem, new_pv, kk + 1));
                    assert(views_of(sigs@) =~= sigs_upto(new_pv, kk + 1));
                    assert(views_of(participating_g1@) =~= g1s_upto(
                        g1m(*self),
                        mem,
                        new_pv,
                        kk + 1,
                    ));
                } else {
                    assert(views_of(participating@) =~= participants_upto(mem, new_pv, kk + 1));
                    assert(views_of(sigs@) =~= sigs_upto(new_pv, kk + 1));
                    assert(views_of(participating_g1@) =~= g1s_upto(
                        g1m(*self),
                        mem,
                        new_pv,
                        kk + 1,
                    ));
                }
            }
            k2 += 1;
        }
        proof {
            lemma_count_some_take_all(new_pv);
        }
        // combine the partials, ascending by index
        let mut agg = copy_bytes(&sigs[0]);
        let mut q: usize = 1;
        proof {
            assert(views_of(sigs@).take(1) =~= seq![views_of(sigs@)[0]]);
        }
        while q < sigs.len()
            invariant
                1 <= q <= sigs@.len(),
                agg@ == sig_fold(views_of(sigs@).take(q as int)),
                sig_fold_ok(views_of(sigs@).take(q as int)),
                session.rounds@ == s0.rounds@.remove(j as int),
                session.signed@ == s0.signed@,
            decreases sigs@.len() - q,
        {
            let next = match bls_sig_add(&agg, &sigs[q]) {
                Option::Some(v) => v,
                Option::None => {
                    session.rounds.insert(j, entry);
                    proof {
                        // the failed pairwise sum falsifies the whole fold
                        let vs = views_of(sigs@);
                        assert(vs.take(q + 1).drop_last() =~= vs.take(q as int));
                        assert(vs.take(q + 1).last() == vs[q as int]);
                        assert(!sig_fold_ok(vs.take(q + 1)));
                        if sig_fold_ok(vs) {
                            lemma_sig_fold_ok_prefix(vs, q + 1);
                        }
                        lemma_restore(*self, s0, *session, j as int, idx as int, sb@, new_pv);
                    }
                    return PartialOutcome::AggregationFailed;
                },
            };
            proof {
                let vs = views_of(sigs@);
                assert(vs.take(q + 1).drop_last() =~= vs.take(q as int));
                assert(vs.take(q + 1).last() == vs[q as int]);
            }
            agg = next;
            q += 1;
        }
        proof {
            assert(views_of(sigs@).take(sigs@.len() as int) =~= views_of(sigs@));
        }
        // combine the participants' keys the same way
        let mut keyagg = copy_bytes(&participating[0]);
        let mut q2: usize = 1;
        proof {
            assert(views_of(participating@).take(1) =~= seq![views_of(participating@)[0]]);
        }
        while q2 < participating.len()
            invariant
                1 <= q2 <= participating@.len(),
                keyagg@ == key_fold(views_of(participating@).take(q2 as int)),
                key_fold_ok(views_of(participating@).take(q2 as int)),
                session.rounds@ == s0.rounds@.remove(j as int),
                session.signed@ == s0.signed@,
            decreases participating@.len() - q2,
        {
            let next = match bls_key_add(&keyagg, &participating[q2]) {
                Option::Some(v) => v,
                Option::None => {
                    session.rounds.insert(j, entry);
                    proof {
                        // the failed pairwise sum falsifies the whole fold
                        let vs = views_of(participating@);
                        assert(vs.take(q2 + 1).drop_last() =~= vs.take(q2 as int));
                        assert(vs.take(q2 + 1).last() == vs[q2 as int]);
                        assert(!key_fold_ok(vs.take(q2 + 1)));
                        if key_fold_ok(vs) {
                            lemma_key_fold_ok_prefix(vs, q2 + 1);
                        }
                        lemma_restore(*self, s0, *session, j as int, idx as int, sb@, new_pv);
                    }
                    return PartialOutcome::AggregationFailed;
                },
            };
            proof {
                let vs = views_of(participating@);
                assert(vs.take(q2 + 1).drop_last() =~= vs.take(q2 as int));
                assert(vs.take(q2 + 1).last() == vs[q2 as int]);
            }
            keyagg = next;
            q2 += 1;
        }
        proof {
            assert(views_of(participating@).take(participating@.len() as int) =~= views_of(
                participating@,
            ));
        }
        // verify the aggregate against the participating keys
        if !bls_verify(&keyagg, hash, &agg) {
            session.rounds.insert(j, entry);
            proof {
                lemma_restore(*self, s0, *session, j as int, idx as int, sb@, new_pv);
            }
            return PartialOutcome::FatalMismatch;
        }
        entry.done = true;
        session.rounds.insert(j, entry);
        proof {
            lemma_restore(*self, s0, *session, j as int, idx as int, sb@, new_pv);
        }
        let payload = copy_bytes(hash);
        PartialOutcome::Aggregated(
            AggregationEvent {
                round: msg.round,
                payload,
                participating,
                participating_g1,
                signature: agg,
            },
        )
    }
}

/// Opening a round — appending a store row that holds this node's own
/// partial and marking the round signed — keeps the protocol invariant.
pub(crate) proof fn lemma_commit_inv(c: Contributor, s0: Session, s1: Session, round: u64)
    requires
        c.wf(),
        protocol_inv(c, s0),
        !signed_contains(s0, round),
        s1.signed@ == s0.signed@.push(round),
        s1.rounds@.len() == s0.rounds@.len() + 1,
        forall|i: int| 0 <= i < s0.rounds@.len() ==> s1.rounds@[i] == s0.rounds@[i],
        s1.rounds@.last().round == round,
        s1.rounds@.last().parts@.len() == c.contributors@.len(),
        s1.rounds@.last().parts@[c.me as int] is Some,
    ensures
        protocol_inv(c, s1),
{
    let nn = c.contributors@.len() as int;
    // a round without a signature has no store row either
    assert(!has_round(s0, round));
    assert forall|i: int, j: int| 0 <= i < j < s1.signed@.len() implies s1.signed@[i]
        != s1.signed@[j] by {
        if j < s1.signed@.len() - 1 {
            assert(s1.signed@[i] == s0.signed@[i]);
        } else {
            assert(s1.signed@[j] == round);
            if s1.signed@[i] == round {
                assert(signed_contains(s0, round));
            }
        }
    }
    assert forall|i: int, j: int| 0 <= i < j < s1.rounds@.len() implies s1.rounds@[i].round
        != s1.rounds@[j].round by {
        if j == s1.rounds@.len() - 1 {
            if s1.rounds@[i].round == round {
                assert(has_round(s0, round));
            }
        }
    }
    assert forall|i: int| 0 <= i < s1.rounds@.len() implies #[trigger] s1.rounds@[i].parts@.len()
        == nn by {
        if i < s1.rounds@.len() - 1 {
            assert(s1.rounds@[i] == s0.rounds@[i]);
        }
    }
    assert forall|i: int| 0 <= i < s1.rounds@.len() implies signed_contains(
        s1,
        #[trigger] s1.rounds@[i].round,
    ) by {
        if i < s1.rounds@.len() - 1 {
            assert(s1.rounds@[i] == s0.rounds@[i]);
            assert(signed_contains(s0, s0.rounds@[i].round));
            let w = choose|w: int|
                0 <= w < s0.signed@.len() && s0.signed@[w] == s0.rounds@[i].round;
            assert(s1.signed@[w] == s0.rounds@[i].round);
        } else {
            assert(s1.signed@[s1.signed@.len() - 1] == round);
        }
    }
    assert forall|i: int| 0 <= i < s1.signed@.len() implies has_round(
        s1,
        #[trigger] s1.signed@[i],
    ) by {
        if i < s1.signed@.len() - 1 {
            assert(s1.signed@[i] == s0.signed@[i]);
            assert(has_round(s0, s0.signed@[i]));
            let w = choose|w: int|
                0 <= w < s0.rounds@.len() && s0.rounds@[w].round == s0.signed@[i];
            assert(s1.rounds@[w].round == s0.signed@[i]);
        } else {
            assert(s1.rounds@[s1.rounds@.len() - 1].round == round);
        }
    }
    assert forall|i: int| 0 <= i < s1.rounds@.len() implies (#[trigger] s1.rounds@[i].parts@)[c.me as int] is Some by {
        if i < s1.rounds@.len() - 1 {
            assert(s1.rounds@[i] == s0.rounds@[i]);
        }
    }
}

/// Putting the updated row back at its position yields the original store
/// with that row replaced, and keeps the protocol invariant.
pub(crate) proof fn lemma_restore(
    c: Contributor,
    s0: Session,
    s1: Session,
    j: int,
    i: int,
    sb: Seq<u8>,
    new_pv: Seq<Option<Seq<u8>>>,
)
    requires
        c.wf(),
        protocol_inv(c, s0),
        0 <= j < s0.rounds@.len(),
        0 <= i < c.contributors@.len(),
        i != c.me,
        s1.signed@ == s0.signed@,
        s1.rounds@ == s0.rounds@.remove(j).insert(j, s1.rounds@[j]),
        s1.rounds@.len() == s0.rounds@.len(),
        s1.rounds@[j].round == s0.rounds@[j].round,
        s1.rounds@[j].parts@.len() == s0.rounds@[j].parts@.len(),
        parts_views(s1.rounds@[j].parts@) == parts_views(s0.rounds@[j].parts@).update(
            i,
            Option::Some(sb),
        ),
    ensures
        protocol_inv(c, s1),
        forall|k: int| 0 <= k < s0.rounds@.len() && k != j ==> s1.rounds@[k] == s0.rounds@[k],
{
    assert forall|k: int| 0 <= k < s0.rounds@.len() && k != j implies s1.rounds@[k]
        == s0.rounds@[k] by {
        if k < j {
            assert(s0.rounds@.remove(j).insert(j, s1.rounds@[j])[k] == s0.rounds@[k]);
        } else {
            assert(s0.rounds@.remove(j).insert(j, s1.rounds@[j])[k] == s0.rounds@[k]);
        }
    }
    let n = c.contributors@.len() as int;
    assert forall|k: int| 0 <= k < s1.rounds@.len() implies #[trigger] s1.rounds@[k].parts@.len()
        == n by {
        if k != j {
            assert(s1.rounds@[k] == s0.rounds@[k]);
        }
    }
    assert forall|k: int| 0 <= k < s1.rounds@.len() implies signed_contains(
        s1,
        #[trigger] s1.rounds@[k].round,
    ) by {
        if k != j {
            assert(s1.rounds@[k] == s0.rounds@[k]);
        }
        assert(s1.rounds@[k].round == s0.rounds@[k].round);
        assert(signed_contains(s0, s0.rounds@[k].round));
    }
    assert forall|k: int| 0 <= k < s1.signed@.len() implies has_round(
        s1,
        #[trigger] s1.signed@[k],
    ) by {
        assert(has_round(s0, s0.signed@[k]));
        let w = choose|w: int| 0 <= w < s0.rounds@.len() && s0.rounds@[w].round == s0.signed@[k];
        assert(s1.rounds@[w].round == s0.signed@[k]);
    }
    assert forall|k: int| 0 <= k < s1.rounds@.len() implies (#[trigger] s1.rounds@[k].parts@)[c.me as int] is Some by {
        if k != j {
            assert(s1.rounds@[k] == s0.rounds@[k]);
        } else {
            assert(parts_views(s0.rounds@[j].parts@)[c.me as int] is Some);
            assert(parts_views(s1.rounds@[j].parts@)[c.me as int] is Some);
        }
    }
    assert forall|a: int, b: int| 0 <= a < b < s1.rounds@.len() implies s1.rounds@[a].round
        != s1.rounds@[b].round by {
        assert(s1.rounds@[a].round == s0.rounds@[a].round);
        assert(s1.rounds@[b].round == s0.rounds@[b].round);
    }
}

} // verus!
