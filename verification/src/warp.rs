//! Consensus: ballots, acceptors answering prepare and accept requests, and a
//! single-decree round over a set of acceptors.

use vstd::prelude::*;
use vstd::pervasive::cloned;
use vstd::std_specs::cmp::PartialEqSpec;
use crate::exact::clones_exactly;
use crate::order::{
    compare_text, lemma_bytes_lt_asymmetric, lemma_bytes_lt_irreflexive, lemma_bytes_lt_total,
    lemma_bytes_lt_transitive, lemma_text_eq_of_bytes_eq, text_lt, Order,
};
use vstd::utf8::encode_utf8;
use vstd::set_lib::{lemma_int_range, lemma_len_subset, lemma_set_intersect_union_lens, set_int_range};
use crate::exact::{eq_gives, eq_is_equality};

verus! {

/// A ballot: a round number and the proposer's name, ordered by number and then by name.
#[derive(Debug, PartialEq, Eq, PartialOrd, Ord)]
pub struct Ballot(pub u64, pub String);

impl Clone for Ballot {
    fn clone(&self) -> (r: Self)
        ensures
            r == *self,
    {
        Ballot(self.0, self.1.clone())
    }
}

/// `a` is a strictly lower ballot than `b`.
pub open spec fn ballot_lt(a: Ballot, b: Ballot) -> bool {
    a.0 < b.0 || (a.0 == b.0 && text_lt(a.1@, b.1@))
}

/// `a` and `b` are the same ballot.
pub open spec fn ballot_same(a: Ballot, b: Ballot) -> bool {
    a.0 == b.0 && a.1@ == b.1@
}

/// `a` is a ballot no higher than `b`.
pub open spec fn ballot_le(a: Ballot, b: Ballot) -> bool {
    ballot_lt(a, b) || ballot_same(a, b)
}

impl Ballot {
    /// Whether this ballot is strictly lower than `other`.
    pub fn precedes(&self, other: &Ballot) -> (r: bool)
        ensures
            r == ballot_lt(*self, *other),
    {
        if self.0 < other.0 {
            true
        } else if self.0 > other.0 {
            false
        } else {
            compare_text(self.1.as_str(), other.1.as_str()) == Order::Less
        }
    }

    /// Whether this ballot is no higher than `other`.
    pub fn precedes_or_equals(&self, other: &Ballot) -> (r: bool)
        ensures
            r == ballot_le(*self, *other),
    {
        if self.0 < other.0 {
            true
        } else if self.0 > other.0 {
            false
        } else {
            compare_text(self.1.as_str(), other.1.as_str()) != Order::Greater
        }
    }
}

/// A message of the consensus protocol.
#[derive(Debug, Clone, PartialEq)]
pub enum WarpMessage<T: Clone + PartialEq> {
    /// Phase 1a: propose ballot `ballot`.
    Prepare { ballot: Ballot },
    /// Phase 1b: promise to accept nothing below `ballot`; report what was accepted.
    Promise { ballot: Ballot, accepted: Option<(Ballot, T)> },
    /// Phase 2a: propose `value` at `ballot`.
    Accept { ballot: Ballot, value: T },
    /// Phase 2b: `value` was accepted at `ballot`.
    Accepted { ballot: Ballot, value: T },
    /// The value is decided.
    Decided { value: T },
}

/// The state of one acceptor.
#[derive(Debug, Clone)]
pub struct AcceptorState<T: Clone + PartialEq> {
    pub node_id: String,
    pub promised_ballot: Option<Ballot>,
    pub accepted_ballot: Option<Ballot>,
    pub accepted_value: Option<T>,
    pub decided_value: Option<T>,
}

/// Acceptor `a` promises ballot `b`: it has promised nothing at or above `b`.
pub open spec fn promises<T: Clone + PartialEq>(a: AcceptorState<T>, b: Ballot) -> bool {
    !(a.promised_ballot matches Some(p) && ballot_le(b, p))
}

/// Acceptor `a` accepts a value at ballot `b`: it has promised nothing above `b`.
pub open spec fn accepts<T: Clone + PartialEq>(a: AcceptorState<T>, b: Ballot) -> bool {
    !(a.promised_ballot matches Some(p) && ballot_lt(b, p))
}

/// The report that a promise carries: the accepted ballot and value, where both are set.
pub open spec fn accepted_report<T: Clone + PartialEq>(a: AcceptorState<T>) -> Option<(Ballot, T)> {
    match (a.accepted_ballot, a.accepted_value) {
        (Some(b), Some(v)) => Some((b, v)),
        _ => None,
    }
}

/// `got` is `expected` with each value replaced by a clone of it.
pub open spec fn report_cloned<T: Clone + PartialEq>(
    expected: Option<(Ballot, T)>,
    got: Option<(Ballot, T)>,
) -> bool {
    match (expected, got) {
        (None, None) => true,
        (Some((b1, v1)), Some((b2, v2))) => b1 == b2 && cloned(v1, v2),
        _ => false,
    }
}

/// The acceptor after it handled a prepare request for `b`.
pub open spec fn after_prepare<T: Clone + PartialEq>(a: AcceptorState<T>, b: Ballot) -> AcceptorState<T> {
    if promises(a, b) {
        AcceptorState { promised_ballot: Some(b), ..a }
    } else {
        a
    }
}

/// The acceptor after it handled an accept request for `v` at `b`.
pub open spec fn after_accept<T: Clone + PartialEq>(a: AcceptorState<T>, b: Ballot, v: T) -> AcceptorState<T> {
    if accepts(a, b) {
        AcceptorState {
            promised_ballot: Some(b),
            accepted_ballot: Some(b),
            accepted_value: Some(v),
            ..a
        }
    } else {
        a
    }
}

/// The acceptor after `v` was decided.
pub open spec fn after_decide<T: Clone + PartialEq>(a: AcceptorState<T>, v: T) -> AcceptorState<T> {
    AcceptorState { decided_value: Some(v), ..a }
}

impl<T: Clone + PartialEq> AcceptorState<T> {
    /// A fresh acceptor that has promised, accepted and decided nothing.
    pub fn new(node_id: &str) -> (r: Self)
        ensures
            r.node_id@ == node_id@,
            r.promised_ballot is None,
            r.accepted_ballot is None,
            r.accepted_value is None,
            r.decided_value is None,
    {
        AcceptorState {
            node_id: node_id.to_owned(),
            promised_ballot: None,
            accepted_ballot: None,
            accepted_value: None,
            decided_value: None,
        }
    }

    /// Phase 1: promise `ballot` unless a ballot at or above it was promised.
    pub fn handle_prepare(&mut self, ballot: &Ballot) -> (r: Option<WarpMessage<T>>)
        ensures
            promises(*old(self), *ballot) ==> {
                &&& *final(self) == after_prepare(*old(self), *ballot)
                &&& r matches Some(WarpMessage::Promise { ballot: pb, accepted })
                &&& pb == *ballot
                &&& report_cloned(accepted_report(*old(self)), accepted)
            },
            !promises(*old(self), *ballot) ==> *final(self) == *old(self) && r is None,
            old(self).promised_ballot is None || ballot_lt(old(self).promised_ballot.unwrap(), *ballot) ==> {
                &&& r matches Some(WarpMessage::Promise { ballot: pb, .. }) && pb == *ballot
                &&& final(self).promised_ballot == Some(*ballot)
                &&& final(self).accepted_ballot == old(self).accepted_ballot
                &&& final(self).accepted_value == old(self).accepted_value
                &&& final(self).decided_value == old(self).decided_value
            },
            old(self).promised_ballot is Some && ballot_le(*ballot, old(self).promised_ballot.unwrap()) ==> {
                &&& r is None
                &&& *final(self) == *old(self)
            },
    {
        proof {
            lemma_prepare_law(*self, *ballot);
        }
        let refuse = match &self.promised_ballot {
            Some(promised) => ballot.precedes_or_equals(promised),
            None => false,
        };
        if refuse {
            return None;
        }
        self.promised_ballot = Some(ballot.clone());
        let accepted = match (&self.accepted_ballot, &self.accepted_value) {
            (Some(ab), Some(v)) => Some((ab.clone(), v.clone())),
            _ => None,
        };
        Some(WarpMessage::Promise { ballot: ballot.clone(), accepted })
    }

    /// Phase 2: accept `value` at `ballot` unless a higher ballot was promised.
    pub fn handle_accept(&mut self, ballot: &Ballot, value: &T) -> (r: Option<WarpMessage<T>>)
        ensures
            accepts(*old(self), *ballot) ==> {
                &&& final(self).node_id == old(self).node_id
                &&& final(self).promised_ballot == Some(*ballot)
                &&& final(self).accepted_ballot == Some(*ballot)
                &&& final(self).accepted_value matches Some(v) && cloned(*value, v)
                &&& final(self).decided_value == old(self).decided_value
                &&& r matches Some(WarpMessage::Accepted { ballot: ab, value: av })
                &&& ab == *ballot
                &&& cloned(*value, av)
            },
            !accepts(*old(self), *ballot) ==> *final(self) == *old(self) && r is None,
            old(self).promised_ballot is None || ballot_le(old(self).promised_ballot.unwrap(), *ballot) ==> {
                &&& r matches Some(WarpMessage::Accepted { ballot: ab, value: av }) && ab == *ballot && cloned(*value, av)
                &&& final(self).promised_ballot == Some(*ballot)
                &&& final(self).accepted_ballot == Some(*ballot)
                &&& final(self).accepted_value matches Some(x) && cloned(*value, x)
                &&& final(self).decided_value == old(self).decided_value
            },
            old(self).promised_ballot is Some && ballot_lt(*ballot, old(self).promised_ballot.unwrap()) ==> {
                &&& r is None
                &&& *final(self) == *old(self)
            },
    {
        proof {
            lemma_accept_law(*self, *ballot, *value);
        }
        let refuse = match &self.promised_ballot {
            Some(promised) => ballot.precedes(promised),
            None => false,
        };
        if refuse {
            return None;
        }
        self.promised_ballot = Some(ballot.clone());
        self.accepted_ballot = Some(ballot.clone());
        self.accepted_value = Some(value.clone());
        Some(WarpMessage::Accepted { ballot: ballot.clone(), value: value.clone() })
    }

    /// Record `value` as decided.
    pub fn decide(&mut self, value: &T)
        ensures
            final(self).node_id == old(self).node_id,
            final(self).promised_ballot == old(self).promised_ballot,
            final(self).accepted_ballot == old(self).accepted_ballot,
            final(self).accepted_value == old(self).accepted_value,
            final(self).decided_value matches Some(d) && cloned(*value, d),
    {
        self.decided_value = Some(value.clone());
    }

    /// Whether this acceptor has a decided value.
    pub fn is_decided(&self) -> (r: bool)
        ensures
            r == self.decided_value is Some,
    {
        self.decided_value.is_some()
    }
}

/// The outcome of a consensus round.
#[derive(Debug, Clone, PartialEq)]
pub enum WarpConsensusResult<T: Clone + PartialEq> {
    Decided(T),
    Failed(String),
}

/// A set of acceptors that decide by majority.
#[derive(Debug, Clone)]
pub struct WarpRealization<T: Clone + PartialEq> {
    pub acceptors: Vec<AcceptorState<T>>,
    pub quorum_size: usize,
}

/// Acceptor `a` is fresh with name `id`.
pub open spec fn is_fresh<T: Clone + PartialEq>(a: AcceptorState<T>, id: Seq<char>) -> bool {
    &&& a.node_id@ == id
    &&& a.promised_ballot is None
    &&& a.accepted_ballot is None
    &&& a.accepted_value is None
    &&& a.decided_value is None
}

/// How many acceptors of `s` promise ballot `b`.
pub open spec fn promise_count<T: Clone + PartialEq>(s: Seq<AcceptorState<T>>, b: Ballot) -> nat
    decreases s.len(),
{
    if s.len() == 0 {
        0
    } else {
        promise_count(s.drop_last(), b) + if promises(s.last(), b) {
            1nat
        } else {
            0nat
        }
    }
}

/// How many acceptors of `s` accept a value at ballot `b`.
pub open spec fn accept_count<T: Clone + PartialEq>(s: Seq<AcceptorState<T>>, b: Ballot) -> nat
    decreases s.len(),
{
    if s.len() == 0 {
        0
    } else {
        accept_count(s.drop_last(), b) + if accepts(s.last(), b) {
            1nat
        } else {
            0nat
        }
    }
}

/// Among the acceptors of `s` that promise `b` and report an accepted value, the
/// report with the highest ballot, the first one where several share it.
pub open spec fn highest_accepted<T: Clone + PartialEq>(s: Seq<AcceptorState<T>>, b: Ballot) -> Option<(Ballot, T)>
    decreases s.len(),
{
    if s.len() == 0 {
        None
    } else {
        let prev = highest_accepted(s.drop_last(), b);
        let a = s.last();
        if promises(a, b) && accepted_report(a) is Some {
            match prev {
                None => accepted_report(a),
                Some((hb, _)) => if ballot_lt(hb, a.accepted_ballot.unwrap()) {
                    accepted_report(a)
                } else {
                    prev
                },
            }
        } else {
            prev
        }
    }
}

/// The value that a round at ballot `b` proposes: the highest accepted value
/// reported by the promising acceptors, or else `v`.
pub open spec fn proposal<T: Clone + PartialEq>(s: Seq<AcceptorState<T>>, b: Ballot, v: T) -> T {
    match highest_accepted(s, b) {
        Some((_, w)) => w,
        None => v,
    }
}

/// Every acceptor after a prepare request for `b`.
pub open spec fn prepare_all<T: Clone + PartialEq>(s: Seq<AcceptorState<T>>, b: Ballot) -> Seq<AcceptorState<T>> {
    s.map_values(|a: AcceptorState<T>| after_prepare(a, b))
}

/// Every acceptor after an accept request for `v` at `b`.
pub open spec fn accept_all<T: Clone + PartialEq>(s: Seq<AcceptorState<T>>, b: Ballot, v: T) -> Seq<AcceptorState<T>> {
    s.map_values(|a: AcceptorState<T>| after_accept(a, b, v))
}

/// Every acceptor after `v` was decided.
pub open spec fn decide_all<T: Clone + PartialEq>(s: Seq<AcceptorState<T>>, v: T) -> Seq<AcceptorState<T>> {
    s.map_values(|a: AcceptorState<T>| after_decide(a, v))
}

/// `x` and `y` agree on everything but the values they hold, and hold values in the same places.
pub open spec fn agrees_up_to_values<T: Clone + PartialEq>(x: AcceptorState<T>, y: AcceptorState<T>) -> bool {
    &&& x.node_id == y.node_id
    &&& x.promised_ballot == y.promised_ballot
    &&& x.accepted_ballot == y.accepted_ballot
    &&& x.accepted_value is Some <==> y.accepted_value is Some
    &&& x.decided_value is Some <==> y.decided_value is Some
}

/// Every acceptor of `s` that accepts at `b` holds, in `t`, a clone of `w` as
/// its accepted value.
pub open spec fn accepted_clones<T: Clone + PartialEq>(
    s: Seq<AcceptorState<T>>,
    t: Seq<AcceptorState<T>>,
    b: Ballot,
    w: T,
) -> bool {
    forall|j: int|
        0 <= j < t.len() && accepts(#[trigger] s[j], b) ==> (t[j].accepted_value matches Some(y) && cloned(w, y))
}

/// Every acceptor of `t` has decided a clone of `w`.
pub open spec fn decided_clones<T: Clone + PartialEq>(t: Seq<AcceptorState<T>>, w: T) -> bool {
    forall|j: int| 0 <= j < t.len() ==> ((#[trigger] t[j]).decided_value matches Some(x) && cloned(w, x))
}

/// The two sequences of acceptors agree pointwise up to values.
pub open spec fn all_agree_up_to_values<T: Clone + PartialEq>(
    s: Seq<AcceptorState<T>>,
    t: Seq<AcceptorState<T>>,
) -> bool {
    &&& s.len() == t.len()
    &&& forall|j: int| 0 <= j < s.len() ==> agrees_up_to_values(#[trigger] s[j], t[j])
}

impl<T: Clone + PartialEq> WarpRealization<T> {
    /// Fresh acceptors, one per name, deciding by a majority of them.
    pub fn new(node_ids: &[&str]) -> (r: Self)
        ensures
            r.acceptors@.len() == node_ids@.len(),
            forall|j: int| 0 <= j < node_ids@.len() ==> is_fresh(#[trigger] r.acceptors@[j], node_ids@[j]@),
            r.quorum_size == node_ids@.len() / 2 + 1,
            untouched(r.acceptors@),
            consensus_inv(r.acceptors@, r.quorum_size as nat),
    {
        let mut acceptors: Vec<AcceptorState<T>> = Vec::new();
        let n = node_ids.len();
        let mut i: usize = 0;
        while i < n
            invariant
                n == node_ids@.len(),
                i <= n,
                acceptors@.len() == i,
                forall|j: int| 0 <= j < i ==> is_fresh(#[trigger] acceptors@[j], node_ids@[j]@),
            decreases n - i,
        {
            acceptors.push(AcceptorState::new(node_ids[i]));
            i = i + 1;
        }
        WarpRealization { acceptors, quorum_size: n / 2 + 1 }
    }

    /// The round itself, as `run_consensus` describes it.
    fn run_round(&mut self, ballot: Ballot, value: T) -> (r: WarpConsensusResult<T>)
        ensures
            final(self).quorum_size == old(self).quorum_size,
            promise_count(old(self).acceptors@, ballot) < old(self).quorum_size ==> {
                &&& r matches WarpConsensusResult::Failed(m) && m@ == "No quorum for prepare"@
                &&& final(self).acceptors@ == prepare_all(old(self).acceptors@, ballot)
            },
            promise_count(old(self).acceptors@, ballot) >= old(self).quorum_size
                && accept_count(prepare_all(old(self).acceptors@, ballot), ballot) < old(self).quorum_size ==> {
                &&& r matches WarpConsensusResult::Failed(m) && m@ == "No quorum for accept"@
                &&& all_agree_up_to_values(final(self).acceptors@, accept_all(
                    prepare_all(old(self).acceptors@, ballot),
                    ballot,
                    proposal(old(self).acceptors@, ballot, value),
                ))
                &&& clones_exactly::<T>() ==> final(self).acceptors@ == accept_all(
                    prepare_all(old(self).acceptors@, ballot),
                    ballot,
                    proposal(old(self).acceptors@, ballot, value),
                )
                &&& exists|w: T| #[trigger] cloned(proposal(old(self).acceptors@, ballot, value), w)
                    && accepted_clones(prepare_all(old(self).acceptors@, ballot), final(self).acceptors@, ballot, w)
            },
            promise_count(old(self).acceptors@, ballot) >= old(self).quorum_size
                && accept_count(prepare_all(old(self).acceptors@, ballot), ballot) >= old(self).quorum_size ==> {
                &&& r is Decided
                &&& exists|w: T| #[trigger] cloned(proposal(old(self).acceptors@, ballot, value), w)
                    && cloned(w, r->Decided_0)
                    && accepted_clones(prepare_all(old(self).acceptors@, ballot), final(self).acceptors@, ballot, w)
                    && decided_clones(final(self).acceptors@, w)
                &&& all_agree_up_to_values(final(self).acceptors@, decide_all(accept_all(
                    prepare_all(old(self).acceptors@, ballot),
                    ballot,
                    proposal(old(self).acceptors@, ballot, value),
                ), proposal(old(self).acceptors@, ballot, value)))
                &&& clones_exactly::<T>() ==> {
                    &&& r == WarpConsensusResult::Decided(proposal(old(self).acceptors@, ballot, value))
                    &&& final(self).acceptors@ == decide_all(accept_all(
                        prepare_all(old(self).acceptors@, ballot),
                        ballot,
                        proposal(old(self).acceptors@, ballot, value),
                    ), proposal(old(self).acceptors@, ballot, value))
                }
            },
    {
        let ghost s0 = self.acceptors@;
        let ghost q = self.quorum_size;
        let n = self.acceptors.len();

        // Phase 1: prepare.
        let mut promised: usize = 0;
        let mut highest: Option<(Ballot, T)> = None;
        let mut i: usize = 0;
        assert(s0.take(0) =~= Seq::<AcceptorState<T>>::empty());
        while i < n
            invariant
                n == s0.len(),
                self.acceptors@.len() == n,
                self.quorum_size == q,
                i <= n,
                forall|j: int| 0 <= j < i ==> self.acceptors@[j] == after_prepare(s0[j], ballot),
                forall|j: int| i <= j < n ==> self.acceptors@[j] == s0[j],
                promised == promise_count(s0.take(i as int), ballot),
                promised <= i,
                report_cloned(highest_accepted(s0.take(i as int), ballot), highest),
            decreases n - i,
        {
            assert(s0.take(i + 1).drop_last() =~= s0.take(i as int));
            let reply = self.acceptors[i].handle_prepare(&ballot);
            match reply {
                Some(WarpMessage::Promise { accepted, .. }) => {
                    promised = promised + 1;
                    match accepted {
                        Some((b, v)) => {
                            let replace = match &highest {
                                None => true,
                                Some((hb, _)) => hb.precedes(&b),
                            };
                            if replace {
                                highest = Some((b, v));
                            }
                        },
                        None => {},
                    }
                },
                _ => {},
            }
            i = i + 1;
        }
        assert(s0.take(n as int) =~= s0);
        let ghost s1 = self.acceptors@;
        assert(s1 =~= prepare_all(s0, ballot));
        if promised < self.quorum_size {
            return WarpConsensusResult::Failed("No quorum for prepare".to_owned());
        }

        let value_to_propose = match highest {
            Some((_, v)) => v,
            None => value,
        };
        let ghost vp = proposal(s0, ballot, value);
        assert(cloned(vp, value_to_propose));

        // Phase 2: accept.
        let mut accepted: usize = 0;
        let mut i: usize = 0;
        assert(s1.take(0) =~= Seq::<AcceptorState<T>>::empty());
        while i < n
            invariant
                n == s1.len(),
                self.acceptors@.len() == n,
                self.quorum_size == q,
                i <= n,
                cloned(vp, value_to_propose),
                forall|j: int| 0 <= j < i ==> agrees_up_to_values(#[trigger] self.acceptors@[j], after_accept(s1[j], ballot, vp)),
                clones_exactly::<T>() ==> forall|j: int| 0 <= j < i ==> #[trigger] self.acceptors@[j] == after_accept(s1[j], ballot, vp),
                forall|j: int| i <= j < n ==> self.acceptors@[j] == s1[j],
                forall|j: int| 0 <= j < i && accepts(#[trigger] s1[j], ballot) ==> (self.acceptors@[j].accepted_value matches Some(y)
                    && cloned(value_to_propose, y)),
                accepted == accept_count(s1.take(i as int), ballot),
                accepted <= i,
            decreases n - i,
        {
            assert(s1.take(i + 1).drop_last() =~= s1.take(i as int));
            let reply = self.acceptors[i].handle_accept(&ballot, &value_to_propose);
            match reply {
                Some(WarpMessage::Accepted { .. }) => {
                    accepted = accepted + 1;
                },
                _ => {},
            }
            i = i + 1;
        }
        assert(s1.take(n as int) =~= s1);
        let ghost s2 = self.acceptors@;
        assert(all_agree_up_to_values(s2, accept_all(s1, ballot, vp)));
        proof {
            if clones_exactly::<T>() {
                assert(s2 =~= accept_all(s1, ballot, vp));
            }
        }
        assert(accepted_clones(s1, s2, ballot, value_to_propose));
        if accepted < self.quorum_size {
            return WarpConsensusResult::Failed("No quorum for accept".to_owned());
        }

        // Decide.
        let decided = value_to_propose.clone();
        let mut i: usize = 0;
        while i < n
            invariant
                n == s2.len(),
                self.acceptors@.len() == n,
                self.quorum_size == q,
                i <= n,
                cloned(vp, value_to_propose),
                cloned(value_to_propose, decided),
                forall|j: int| 0 <= j < i ==> agrees_up_to_values(#[trigger] self.acceptors@[j], after_decide(s2[j], vp)),
                clones_exactly::<T>() ==> forall|j: int| 0 <= j < i ==> #[trigger] self.acceptors@[j] == after_decide(s2[j], vp),
                forall|j: int| i <= j < n ==> self.acceptors@[j] == s2[j],
                forall|j: int| 0 <= j < n ==> (#[trigger] self.acceptors@[j]).accepted_value == s2[j].accepted_value,
                forall|j: int| 0 <= j < i ==> ((#[trigger] self.acceptors@[j]).decided_value matches Some(x)
                    && cloned(value_to_propose, x)),
            decreases n - i,
        {
            self.acceptors[i].decide(&value_to_propose);
            i = i + 1;
        }
        proof {
            let t = decide_all(accept_all(s1, ballot, vp), vp);
            assert forall|j: int| 0 <= j < n implies agrees_up_to_values(#[trigger] self.acceptors@[j], t[j]) by {
                assert(agrees_up_to_values(s2[j], accept_all(s1, ballot, vp)[j]));
            }
            if clones_exactly::<T>() {
                assert(value_to_propose == vp);
                assert(decided == vp);
                assert(self.acceptors@ =~= t);
            }
            assert(accepted_clones(s1, self.acceptors@, ballot, value_to_propose));
            assert(decided_clones(self.acceptors@, value_to_propose));
        }
        WarpConsensusResult::Decided(decided)
    }

    /// One round of consensus at `ballot` proposing `value`: every acceptor is
    /// asked to promise; with a quorum of promises, the highest value reported as
    /// accepted (or else `value`) is proposed to every acceptor; with a quorum of
    /// acceptances, every acceptor records it as decided.
    ///
    /// Over realizations whose clones are exact, the first round from untouched
    /// acceptors decides the value it was asked to propose and settles on it, and
    /// a realization settled on a value stays settled on it: every later round
    /// decides that value or fails. `consensus_inv`, which `new` establishes, is
    /// kept by every round, so this holds over any history of rounds.
    pub fn run_consensus(&mut self, ballot: Ballot, value: T) -> (r: WarpConsensusResult<T>)
        ensures
            final(self).quorum_size == old(self).quorum_size,
            promise_count(old(self).acceptors@, ballot) < old(self).quorum_size ==> {
                &&& r matches WarpConsensusResult::Failed(m) && m@ == "No quorum for prepare"@
                &&& final(self).acceptors@ == prepare_all(old(self).acceptors@, ballot)
            },
            promise_count(old(self).acceptors@, ballot) >= old(self).quorum_size
                && accept_count(prepare_all(old(self).acceptors@, ballot), ballot) < old(self).quorum_size ==> {
                &&& r matches WarpConsensusResult::Failed(m) && m@ == "No quorum for accept"@
                &&& all_agree_up_to_values(final(self).acceptors@, accept_all(
                    prepare_all(old(self).acceptors@, ballot),
                    ballot,
                    proposal(old(self).acceptors@, ballot, value),
                ))
                &&& clones_exactly::<T>() ==> final(self).acceptors@ == accept_all(
                    prepare_all(old(self).acceptors@, ballot),
                    ballot,
                    proposal(old(self).acceptors@, ballot, value),
                )
                &&& exists|w: T| #[trigger] cloned(proposal(old(self).acceptors@, ballot, value), w)
                    && accepted_clones(prepare_all(old(self).acceptors@, ballot), final(self).acceptors@, ballot, w)
            },
            promise_count(old(self).acceptors@, ballot) >= old(self).quorum_size
                && accept_count(prepare_all(old(self).acceptors@, ballot), ballot) >= old(self).quorum_size ==> {
                &&& r is Decided
                &&& exists|w: T| #[trigger] cloned(proposal(old(self).acceptors@, ballot, value), w)
                    && cloned(w, r->Decided_0)
                    && accepted_clones(prepare_all(old(self).acceptors@, ballot), final(self).acceptors@, ballot, w)
                    && decided_clones(final(self).acceptors@, w)
                &&& all_agree_up_to_values(final(self).acceptors@, decide_all(accept_all(
                    prepare_all(old(self).acceptors@, ballot),
                    ballot,
                    proposal(old(self).acceptors@, ballot, value),
                ), proposal(old(self).acceptors@, ballot, value)))
                &&& clones_exactly::<T>() ==> {
                    &&& r == WarpConsensusResult::Decided(proposal(old(self).acceptors@, ballot, value))
                    &&& final(self).acceptors@ == decide_all(accept_all(
                        prepare_all(old(self).acceptors@, ballot),
                        ballot,
                        proposal(old(self).acceptors@, ballot, value),
                    ), proposal(old(self).acceptors@, ballot, value))
                }
            },
            clones_exactly::<T>() && untouched(old(self).acceptors@) && old(self).acceptors@.len() > 0
                && old(self).quorum_size == old(self).acceptors@.len() / 2 + 1 ==> {
                &&& r == WarpConsensusResult::Decided(value)
                &&& settled_on(final(self).acceptors@, final(self).quorum_size as nat, value)
            },
            clones_exactly::<T>() ==> forall|v: T|
                #[trigger] settled_on(old(self).acceptors@, old(self).quorum_size as nat, v) ==> {
                    &&& settled_on(final(self).acceptors@, final(self).quorum_size as nat, v)
                    &&& (r matches WarpConsensusResult::Decided(u) ==> u == v)
                },
            clones_exactly::<T>() && consensus_inv(old(self).acceptors@, old(self).quorum_size as nat) ==> {
                &&& consensus_inv(final(self).acceptors@, final(self).quorum_size as nat)
                &&& (r matches WarpConsensusResult::Decided(u) ==> settled_on(
                    final(self).acceptors@,
                    final(self).quorum_size as nat,
                    u,
                ))
            },
    {
        let ghost s0 = self.acceptors@;
        let ghost q = self.quorum_size as nat;
        let ghost b = ballot;
        let ghost v0 = value;
        let r = self.run_round(ballot, value);
        proof {
            if clones_exactly::<T>() {
                if untouched(s0) && s0.len() > 0 && q == s0.len() / 2 + 1 {
                    lemma_first_round_settles(s0, q, b, v0);
                }
                assert forall|v: T| #[trigger] settled_on(s0, q, v) implies {
                    &&& settled_on(self.acceptors@, q, v)
                    &&& (r matches WarpConsensusResult::Decided(u) ==> u == v)
                } by {
                    lemma_settled_survives_round(s0, q, v, b, v0);
                }
                if consensus_inv(s0, q) {
                    if untouched(s0) {
                        if s0.len() == 0 {
                            assert(promise_count(s0, b) == 0);
                            assert(untouched(self.acceptors@));
                        }
                    } else {
                        let v = choose|v: T| #[trigger] settled_on(s0, q, v);
                        assert(settled_on(self.acceptors@, q, v));
                    }
                }
            }
        }
        r
    }
}

/// Every acceptor of `s` has a decided value.
pub open spec fn all_decided<T: Clone + PartialEq>(s: Seq<AcceptorState<T>>) -> bool {
    forall|j: int| 0 <= j < s.len() ==> (#[trigger] s[j]).decided_value is Some
}

/// Every acceptor of `s` has decided a value that `==` the first acceptor's.
pub open spec fn unanimous<T: Clone + PartialEq>(s: Seq<AcceptorState<T>>) -> bool {
    &&& all_decided(s)
    &&& forall|j: int|
        0 <= j < s.len() ==> (#[trigger] s[j]).decided_value.unwrap().eq_spec(&s[0].decided_value.unwrap())
}

/// Every acceptor of `s` has decided a value that `==` `v`.
pub open spec fn all_decided_as<T: Clone + PartialEq>(s: Seq<AcceptorState<T>>, v: T) -> bool {
    forall|j: int|
        0 <= j < s.len() ==> ((#[trigger] s[j]).decided_value matches Some(d) && d.eq_spec(&v))
}

/// Acceptor `a` has decided a value, and one call of `==` on it and `v` may
/// return `e`; an acceptor that has decided nothing counts as `e == false`.
pub open spec fn decided_eq_gives<T: Clone + PartialEq>(a: AcceptorState<T>, v: T, e: bool) -> bool {
    match a.decided_value {
        Some(d) => eq_gives(d, v, e),
        None => !e,
    }
}

impl<T: Clone + PartialEq> WarpRealization<T> {
    /// Whether every acceptor has decided a value `==` `decided_value`:
    /// re-proposing a decided value changes nothing. The acceptors are checked
    /// in order, stopping at the first that fails.
    pub fn idempotent_check(&self, decided_value: &T) -> (r: bool)
        ensures
            r ==> forall|j: int|
                0 <= j < self.acceptors@.len() ==> decided_eq_gives(#[trigger] self.acceptors@[j], *decided_value, true),
            !r ==> exists|j: int|
                0 <= j < self.acceptors@.len() && decided_eq_gives(#[trigger] self.acceptors@[j], *decided_value, false),
            T::obeys_eq_spec() ==> r == all_decided_as(self.acceptors@, *decided_value),
            r ==> all_decided(self.acceptors@),
    {
        let n = self.acceptors.len();
        let mut i: usize = 0;
        while i < n
            invariant
                n == self.acceptors@.len(),
                i <= n,
                forall|j: int| 0 <= j < i ==> decided_eq_gives(#[trigger] self.acceptors@[j], *decided_value, true),
                T::obeys_eq_spec() ==> all_decided_as(self.acceptors@.take(i as int), *decided_value),
                all_decided(self.acceptors@.take(i as int)),
            decreases n - i,
        {
            let same = match &self.acceptors[i].decided_value {
                Some(d) => *d == *decided_value,
                None => false,
            };
            if !same {
                proof {
                    assert(decided_eq_gives(self.acceptors@[i as int], *decided_value, false));
                    assert(self.acceptors@[i as int] == self.acceptors@.take(i + 1)[i as int]);
                }
                return false;
            }
            proof {
                assert(decided_eq_gives(self.acceptors@[i as int], *decided_value, true));
                assert forall|j: int| 0 <= j < i + 1 implies (#[trigger] self.acceptors@.take(i + 1)[j]).decided_value is Some by {
                    if j < i {
                        assert(self.acceptors@.take(i + 1)[j] == self.acceptors@.take(i as int)[j]);
                    }
                }
                if T::obeys_eq_spec() {
                    assert forall|j: int| 0 <= j < i + 1 implies ((#[trigger] self.acceptors@.take(i + 1)[j]).decided_value matches Some(d) && d.eq_spec(decided_value)) by {
                        if j < i {
                            assert(self.acceptors@.take(i + 1)[j] == self.acceptors@.take(i as int)[j]);
                        }
                    }
                }
            }
            i = i + 1;
        }
        assert(self.acceptors@.take(n as int) =~= self.acceptors@);
        true
    }

    /// Whether the acceptors have reached the agreed state: every one has decided,
    /// and every decided value `==` the first one.
    pub fn zero_cost_check(&self) -> (r: bool)
        requires
            self.acceptors@.len() > 0,
        ensures
            r ==> forall|j: int|
                0 <= j < self.acceptors@.len() ==> decided_eq_gives(
                    #[trigger] self.acceptors@[j],
                    self.acceptors@[0].decided_value.unwrap(),
                    true,
                ),
            !r ==> exists|j: int|
                0 <= j < self.acceptors@.len() && decided_eq_gives(
                    #[trigger] self.acceptors@[j],
                    self.acceptors@[0].decided_value.unwrap(),
                    false,
                ),
            r ==> all_decided(self.acceptors@),
            T::obeys_eq_spec() ==> r == unanimous(self.acceptors@),
    {
        let n = self.acceptors.len();
        let mut i: usize = 0;
        while i < n
            invariant
                n == self.acceptors@.len(),
                i <= n,
                all_decided(self.acceptors@.take(i as int)),
            decreases n - i,
        {
            if self.acceptors[i].decided_value.is_none() {
                proof {
                    assert(decided_eq_gives(self.acceptors@[i as int], self.acceptors@[0].decided_value.unwrap(), false));
                    assert(self.acceptors@[i as int] == self.acceptors@.take(i + 1)[i as int]);
                }
                return false;
            }
            proof {
                assert forall|j: int| 0 <= j < i + 1 implies (#[trigger] self.acceptors@.take(i + 1)[j]).decided_value is Some by {
                    if j < i {
                        assert(self.acceptors@.take(i + 1)[j] == self.acceptors@.take(i as int)[j]);
                    }
                }
            }
            i = i + 1;
        }
        assert(self.acceptors@.take(n as int) =~= self.acceptors@);
        let first = match &self.acceptors[0].decided_value {
            Some(d) => d,
            None => {
                assert(self.acceptors@[0].decided_value is Some);
                return false;
            },
        };
        let mut i: usize = 0;
        while i < n
            invariant
                n == self.acceptors@.len(),
                n > 0,
                i <= n,
                all_decided(self.acceptors@),
                self.acceptors@[0].decided_value == Some(*first),
                forall|j: int| 0 <= j < i ==> decided_eq_gives(#[trigger] self.acceptors@[j], *first, true),
                T::obeys_eq_spec() ==> forall|j: int|
                    0 <= j < i ==> (#[trigger] self.acceptors@[j]).decided_value.unwrap().eq_spec(first),
            decreases n - i,
        {
            let same = match &self.acceptors[i].decided_value {
                Some(d) => *d == *first,
                None => false,
            };
            if !same {
                assert(decided_eq_gives(self.acceptors@[i as int], *first, false));
                return false;
            }
            assert(decided_eq_gives(self.acceptors@[i as int], *first, true));
            i = i + 1;
        }
        true
    }

    /// The agreed value, where the acceptors have reached the agreed state: a
    /// clone of the first acceptor's decided value.
    pub fn agreed_value(&self) -> (r: Option<T>)
        requires
            self.acceptors@.len() > 0,
        ensures
            r is Some ==> forall|j: int|
                0 <= j < self.acceptors@.len() ==> decided_eq_gives(
                    #[trigger] self.acceptors@[j],
                    self.acceptors@[0].decided_value.unwrap(),
                    true,
                ),
            r is None ==> exists|j: int|
                0 <= j < self.acceptors@.len() && decided_eq_gives(
                    #[trigger] self.acceptors@[j],
                    self.acceptors@[0].decided_value.unwrap(),
                    false,
                ),
            r is Some ==> all_decided(self.acceptors@),
            T::obeys_eq_spec() ==> (r is Some <==> unanimous(self.acceptors@)),
            r matches Some(v) ==> cloned(self.acceptors@[0].decided_value.unwrap(), v),
    {
        if self.zero_cost_check() {
            match &self.acceptors[0].decided_value {
                Some(v) => Some(v.clone()),
                None => None,
            }
        } else {
            None
        }
    }
}

/// No ballot is below itself.
pub proof fn lemma_ballot_lt_irreflexive(a: Ballot)
    ensures
        !ballot_lt(a, a),
{
    lemma_bytes_lt_irreflexive(encode_utf8(a.1@));
}

/// A ballot below another is not at or above it.
pub proof fn lemma_ballot_lt_asymmetric(a: Ballot, b: Ballot)
    requires
        ballot_lt(a, b),
    ensures
        !ballot_le(b, a),
{
    lemma_bytes_lt_irreflexive(encode_utf8(a.1@));
    if a.0 == b.0 && text_lt(a.1@, b.1@) {
        lemma_bytes_lt_asymmetric(encode_utf8(a.1@), encode_utf8(b.1@));
    }
}

/// The ballot order is transitive.
pub proof fn lemma_ballot_lt_transitive(a: Ballot, b: Ballot, c: Ballot)
    requires
        ballot_lt(a, b),
        ballot_lt(b, c),
    ensures
        ballot_lt(a, c),
{
    if a.0 == b.0 && b.0 == c.0 {
        lemma_bytes_lt_transitive(encode_utf8(a.1@), encode_utf8(b.1@), encode_utf8(c.1@));
    }
}

/// Two ballots are the same or one is below the other.
pub proof fn lemma_ballot_total(a: Ballot, b: Ballot)
    ensures
        ballot_lt(a, b) || ballot_same(a, b) || ballot_lt(b, a),
{
    lemma_bytes_lt_total(encode_utf8(a.1@), encode_utf8(b.1@));
    if encode_utf8(a.1@) == encode_utf8(b.1@) {
        lemma_text_eq_of_bytes_eq(a.1@, b.1@);
    }
}

/// An acceptor's promise never goes down: after a prepare or accept request
/// the promised ballot is at or above the one promised before.
pub proof fn lemma_promise_monotone<T: Clone + PartialEq>(a: AcceptorState<T>, b: Ballot, v: T)
    ensures
        a.promised_ballot matches Some(p) ==> (after_prepare(a, b).promised_ballot matches Some(p2)
            && ballot_le(p, p2)),
        a.promised_ballot matches Some(p) ==> (after_accept(a, b, v).promised_ballot matches Some(p2)
            && ballot_le(p, p2)),
        after_prepare(a, b).promised_ballot is Some,
        after_accept(a, b, v).promised_ballot is Some,
{
    if let Some(p) = a.promised_ballot {
        lemma_ballot_total(p, b);
    }
}

proof fn lemma_promise_count_all<T: Clone + PartialEq>(s: Seq<AcceptorState<T>>, b: Ballot)
    requires
        forall|j: int| 0 <= j < s.len() ==> promises(#[trigger] s[j], b),
    ensures
        promise_count(s, b) == s.len(),
    decreases s.len(),
{
    if s.len() > 0 {
        lemma_promise_count_all(s.drop_last(), b);
    }
}

proof fn lemma_accept_count_all<T: Clone + PartialEq>(s: Seq<AcceptorState<T>>, b: Ballot)
    requires
        forall|j: int| 0 <= j < s.len() ==> accepts(#[trigger] s[j], b),
    ensures
        accept_count(s, b) == s.len(),
    decreases s.len(),
{
    if s.len() > 0 {
        lemma_accept_count_all(s.drop_last(), b);
    }
}

proof fn lemma_highest_none<T: Clone + PartialEq>(s: Seq<AcceptorState<T>>, b: Ballot)
    requires
        forall|j: int| 0 <= j < s.len() ==> accepted_report(#[trigger] s[j]) is None,
    ensures
        highest_accepted(s, b) is None,
    decreases s.len(),
{
    if s.len() > 0 {
        lemma_highest_none(s.drop_last(), b);
    }
}

proof fn lemma_highest_uniform<T: Clone + PartialEq>(s: Seq<AcceptorState<T>>, b: Ballot, ab: Ballot, v: T)
    requires
        s.len() > 0,
        forall|j: int| 0 <= j < s.len() ==> promises(#[trigger] s[j], b),
        forall|j: int| 0 <= j < s.len() ==> accepted_report(#[trigger] s[j]) == Some((ab, v)),
    ensures
        highest_accepted(s, b) == Some((ab, v)),
    decreases s.len(),
{
    lemma_ballot_lt_irreflexive(ab);
    if s.len() > 1 {
        lemma_highest_uniform(s.drop_last(), b, ab, v);
    } else {
        lemma_highest_none(s.drop_last(), b);
    }
}

/// A value decided by a round is kept by every later round: starting from
/// acceptors that have promised and accepted nothing, a round at `b1` proposing
/// `v1` wins every promise and acceptance and proposes `v1`; afterwards a round
/// at any higher ballot `b2` again wins every promise and acceptance, and
/// proposes `v1`, whatever value `v2` it was asked to propose.
pub proof fn lemma_decided_value_survives_higher_ballot<T: Clone + PartialEq>(
    s: Seq<AcceptorState<T>>,
    b1: Ballot,
    v1: T,
    b2: Ballot,
    v2: T,
)
    requires
        s.len() > 0,
        forall|j: int| 0 <= j < s.len() ==> (#[trigger] s[j]).promised_ballot is None && s[j].accepted_ballot is None,
        ballot_lt(b1, b2),
    ensures
        promise_count(s, b1) == s.len(),
        accept_count(prepare_all(s, b1), b1) == s.len(),
        proposal(s, b1, v1) == v1,
        promise_count(decide_all(accept_all(prepare_all(s, b1), b1, v1), v1), b2) == s.len(),
        accept_count(prepare_all(decide_all(accept_all(prepare_all(s, b1), b1, v1), v1), b2), b2) == s.len(),
        proposal(decide_all(accept_all(prepare_all(s, b1), b1, v1), v1), b2, v2) == v1,
{
    let s1 = prepare_all(s, b1);
    let s3 = decide_all(accept_all(s1, b1, v1), v1);
    let s4 = prepare_all(s3, b2);
    lemma_ballot_lt_irreflexive(b1);
    lemma_ballot_lt_irreflexive(b2);
    lemma_ballot_lt_asymmetric(b1, b2);
    lemma_promise_count_all(s, b1);
    assert forall|j: int| 0 <= j < s1.len() implies accepts(#[trigger] s1[j], b1) by {}
    lemma_accept_count_all(s1, b1);
    assert forall|j: int| 0 <= j < s.len() implies accepted_report(#[trigger] s[j]) is None by {}
    lemma_highest_none(s, b1);
    assert forall|j: int| 0 <= j < s3.len() implies promises(#[trigger] s3[j], b2) by {
        assert(s3[j].promised_ballot == Some(b1));
    }
    lemma_promise_count_all(s3, b2);
    assert forall|j: int| 0 <= j < s4.len() implies accepts(#[trigger] s4[j], b2) by {}
    lemma_accept_count_all(s4, b2);
    assert forall|j: int| 0 <= j < s3.len() implies accepted_report(#[trigger] s3[j]) == Some((b1, v1)) by {}
    lemma_highest_uniform(s3, b2, b1, v1);
}

/// Any two quorums of a realization over `n` acceptors share an acceptor: two
/// sets of acceptor indices, each at least `n / 2 + 1` strong, intersect.
pub proof fn lemma_quorums_intersect(n: nat, a: Set<int>, b: Set<int>)
    requires
        a.subset_of(set_int_range(0, n as int)),
        b.subset_of(set_int_range(0, n as int)),
        a.len() >= n / 2 + 1,
        b.len() >= n / 2 + 1,
    ensures
        exists|k: int| a.contains(k) && b.contains(k),
{
    let r = set_int_range(0, n as int);
    lemma_int_range(0, n as int);
    lemma_len_subset(a, r);
    lemma_len_subset(b, r);
    lemma_len_subset(a.union(b), r);
    lemma_set_intersect_union_lens(a, b);
    let i = a.intersect(b);
    assert(i.len() > 0);
    if i =~= Set::<int>::empty() {
        assert(i.len() == 0);
    }
    let k = i.choose();
    assert(a.contains(k) && b.contains(k));
}

/// After a decision every acceptor holds the decided value, so the acceptors
/// are unanimous on it.
pub proof fn lemma_decision_is_unanimous<T: Clone + PartialEq>(s: Seq<AcceptorState<T>>, v: T)
    requires
        s.len() > 0,
        eq_is_equality::<T>(),
    ensures
        all_decided(decide_all(s, v)),
        unanimous(decide_all(s, v)),
        all_decided_as(decide_all(s, v), v),
{
    let t = decide_all(s, v);
    assert forall|j: int| 0 <= j < t.len() implies (#[trigger] t[j]).decided_value.unwrap().eq_spec(&t[0].decided_value.unwrap()) by {
        assert(t[j].decided_value.unwrap() == v);
        assert(t[0].decided_value.unwrap() == v);
    }
    assert forall|j: int| 0 <= j < t.len() implies ((#[trigger] t[j]).decided_value matches Some(d) && d.eq_spec(&v)) by {
        assert(t[j].decided_value.unwrap() == v);
    }
}

/// A round that wins a quorum of promises also wins a quorum of acceptances:
/// every acceptor that promised the ballot accepts at it.
pub proof fn lemma_promises_bound_acceptances<T: Clone + PartialEq>(s: Seq<AcceptorState<T>>, b: Ballot)
    ensures
        promise_count(s, b) <= accept_count(prepare_all(s, b), b),
    decreases s.len(),
{
    lemma_ballot_lt_irreflexive(b);
    if s.len() > 0 {
        lemma_promises_bound_acceptances(s.drop_last(), b);
        assert(prepare_all(s, b).drop_last() =~= prepare_all(s.drop_last(), b));
        let a = s.last();
        if let Some(p) = a.promised_ballot {
            if ballot_lt(b, p) {
                lemma_ballot_lt_asymmetric(b, p);
            }
        }
    }
}

/// The indices of the acceptors of `s` that promise ballot `b`.
pub open spec fn promisers<T: Clone + PartialEq>(s: Seq<AcceptorState<T>>, b: Ballot) -> Set<int> {
    Set::new(|j: int| 0 <= j < s.len() && promises(s[j], b))
}

proof fn lemma_promise_count_is_size<T: Clone + PartialEq>(s: Seq<AcceptorState<T>>, b: Ballot)
    ensures
        promisers(s, b).finite(),
        promisers(s, b).len() == promise_count(s, b),
        promisers(s, b).subset_of(set_int_range(0, s.len() as int)),
    decreases s.len(),
{
    if s.len() == 0 {
        assert(promisers(s, b) =~= Set::<int>::empty());
    } else {
        let d = s.drop_last();
        lemma_promise_count_is_size(d, b);
        let last = s.len() - 1;
        if promises(s.last(), b) {
            assert(promisers(s, b) =~= promisers(d, b).insert(last));
            assert(!promisers(d, b).contains(last));
        } else {
            assert(promisers(s, b) =~= promisers(d, b));
        }
    }
}

/// Every report in `s` is of a ballot below `b1`, or of `b1` with `v1`.
pub open spec fn reports_bounded_by<T: Clone + PartialEq>(s: Seq<AcceptorState<T>>, b1: Ballot, v1: T) -> bool {
    forall|j: int|
        0 <= j < s.len() ==> (accepted_report(#[trigger] s[j]) matches Some((b, v)) ==> (b == b1 && v == v1)
            || ballot_lt(b, b1))
}

proof fn lemma_highest_bounded<T: Clone + PartialEq>(s: Seq<AcceptorState<T>>, b2: Ballot, b1: Ballot, v1: T)
    requires
        reports_bounded_by(s, b1, v1),
    ensures
        highest_accepted(s, b2) matches Some((hb, hv)) ==> (hb == b1 && hv == v1) || ballot_lt(hb, b1),
        (exists|j: int|
            0 <= j < s.len() && promises(#[trigger] s[j], b2) && accepted_report(s[j]) == Some((b1, v1)))
            ==> highest_accepted(s, b2) == Some((b1, v1)),
    decreases s.len(),
{
    lemma_ballot_lt_irreflexive(b1);
    if s.len() > 0 {
        let d = s.drop_last();
        assert forall|j: int| 0 <= j < d.len() implies (accepted_report(#[trigger] d[j]) matches Some((b, v)) ==> (b
            == b1 && v == v1) || ballot_lt(b, b1)) by {
            assert(d[j] == s[j]);
        }
        lemma_highest_bounded(d, b2, b1, v1);
        let a = s.last();
        assert(accepted_report(s[s.len() - 1]) == accepted_report(a));
        if let Some((b, v)) = accepted_report(a) {
            if let Some((hb, hv)) = highest_accepted(d, b2) {
                if ballot_lt(hb, b1) && ballot_lt(b, b1) {
                } else if ballot_lt(hb, b1) {
                } else if ballot_lt(b, b1) {
                    lemma_ballot_lt_asymmetric(b, b1);
                }
            }
        }
        if exists|j: int| 0 <= j < s.len() && promises(#[trigger] s[j], b2) && accepted_report(s[j]) == Some((b1, v1)) {
            let j = choose|j: int| 0 <= j < s.len() && promises(#[trigger] s[j], b2) && accepted_report(s[j]) == Some((b1, v1));
            if j < s.len() - 1 {
                assert(d[j] == s[j]);
                if let Some((b, v)) = accepted_report(a) {
                    if ballot_lt(b, b1) {
                        lemma_ballot_lt_asymmetric(b, b1);
                    }
                }
            }
        }
    }
}

/// Paxos safety for a proposal: where a quorum of acceptors accepted `v1` at
/// `b1`, and no acceptor accepted anything at a higher ballot or another value
/// at `b1`, any round that wins a quorum of promises proposes `v1`, whatever
/// value it was asked to propose.
pub proof fn lemma_accepted_quorum_value_is_proposed<T: Clone + PartialEq>(
    s: Seq<AcceptorState<T>>,
    b1: Ballot,
    v1: T,
    b2: Ballot,
    v2: T,
    quorum: nat,
    accepted_by: Set<int>,
)
    requires
        2 * quorum > s.len(),
        accepted_by.subset_of(set_int_range(0, s.len() as int)),
        accepted_by.len() >= quorum,
        forall|j: int| #[trigger] accepted_by.contains(j) ==> accepted_report(s[j]) == Some((b1, v1)),
        reports_bounded_by(s, b1, v1),
        promise_count(s, b2) >= quorum,
    ensures
        proposal(s, b2, v2) == v1,
{
    lemma_promise_count_is_size(s, b2);
    lemma_quorums_intersect(s.len(), accepted_by, promisers(s, b2));
    let k = choose|k: int| accepted_by.contains(k) && promisers(s, b2).contains(k);
    assert(0 <= k < s.len() && promises(s[k], b2) && accepted_report(s[k]) == Some((b1, v1)));
    lemma_highest_bounded(s, b2, b1, v1);
}

/// `ballot_le` is transitive.
pub proof fn lemma_ballot_le_transitive(a: Ballot, b: Ballot, c: Ballot)
    requires
        ballot_le(a, b),
        ballot_le(b, c),
    ensures
        ballot_le(a, c),
{
    if ballot_lt(a, b) && ballot_lt(b, c) {
        lemma_ballot_lt_transitive(a, b, c);
    }
}

/// Every acceptor of `s` holds a value exactly where it holds an accepted
/// ballot, and has promised at least the ballot it accepted.
pub open spec fn acceptors_wf<T: Clone + PartialEq>(s: Seq<AcceptorState<T>>) -> bool {
    forall|j: int|
        0 <= j < s.len() ==> {
            &&& ((#[trigger] s[j]).accepted_ballot is Some <==> s[j].accepted_value is Some)
            &&& (s[j].accepted_ballot matches Some(ab) ==> (s[j].promised_ballot matches Some(p) && ballot_le(ab, p)))
        }
}

/// No acceptor of `s` reports a value other than `v1` at a ballot at or above `b1`.
pub open spec fn value_locked<T: Clone + PartialEq>(s: Seq<AcceptorState<T>>, b1: Ballot, v1: T) -> bool {
    forall|j: int|
        0 <= j < s.len() ==> (accepted_report(#[trigger] s[j]) matches Some((b, v)) ==> (ballot_le(b1, b)
            ==> v == v1))
}

/// The acceptors of `s` indexed by `q_set`, at least `quorum` of them, all
/// report `v1` at a ballot at or above `b1`.
pub open spec fn quorum_reports<T: Clone + PartialEq>(
    s: Seq<AcceptorState<T>>,
    b1: Ballot,
    v1: T,
    quorum: nat,
    q_set: Set<int>,
) -> bool {
    &&& q_set.subset_of(set_int_range(0, s.len() as int))
    &&& q_set.len() >= quorum
    &&& forall|j: int|
        #[trigger] q_set.contains(j) ==> (accepted_report(s[j]) matches Some((b, v)) && ballot_le(b1, b) && v
            == v1)
}

/// `v1` is chosen at `b1` in `s`: the acceptors are well formed, a quorum
/// reports `v1` at or above `b1`, and nothing else is reported at or above `b1`.
pub open spec fn chosen<T: Clone + PartialEq>(
    s: Seq<AcceptorState<T>>,
    b1: Ballot,
    v1: T,
    quorum: nat,
    q_set: Set<int>,
) -> bool {
    &&& acceptors_wf(s)
    &&& value_locked(s, b1, v1)
    &&& quorum_reports(s, b1, v1, quorum, q_set)
}

proof fn lemma_highest_is_max<T: Clone + PartialEq>(s: Seq<AcceptorState<T>>, b: Ballot)
    ensures
        highest_accepted(s, b) matches Some(h) ==> exists|j: int|
            0 <= j < s.len() && promises(#[trigger] s[j], b) && accepted_report(s[j]) == Some(h),
        forall|j: int|
            0 <= j < s.len() && promises(#[trigger] s[j], b) && accepted_report(s[j]) is Some ==> (highest_accepted(
                s,
                b,
            ) matches Some((hb, hv)) && ballot_le(accepted_report(s[j]).unwrap().0, hb)),
    decreases s.len(),
{
    if s.len() > 0 {
        let d = s.drop_last();
        lemma_highest_is_max(d, b);
        let last = s.len() - 1;
        assert forall|j: int| 0 <= j < d.len() implies d[j] == s[j] by {}
        if let Some(h) = highest_accepted(s, b) {
            if highest_accepted(s, b) == highest_accepted(d, b) {
                let j = choose|j: int| 0 <= j < d.len() && promises(#[trigger] d[j], b) && accepted_report(d[j]) == Some(h);
                assert(s[j] == d[j]);
            } else {
                assert(promises(s[last], b) && accepted_report(s[last]) == Some(h));
            }
        }
        assert forall|j: int|
            0 <= j < s.len() && promises(#[trigger] s[j], b) && accepted_report(s[j]) is Some implies (highest_accepted(
                s,
                b,
            ) matches Some((hb, hv)) && ballot_le(accepted_report(s[j]).unwrap().0, hb)) by {
            let a = s.last();
            if j < last {
                assert(s[j] == d[j]);
                let (hb, _) = highest_accepted(d, b).unwrap();
                if promises(a, b) && accepted_report(a) is Some {
                    let ab = a.accepted_ballot.unwrap();
                    if ballot_lt(hb, ab) {
                        lemma_ballot_le_transitive(accepted_report(s[j]).unwrap().0, hb, ab);
                    }
                }
            } else {
                let ab = a.accepted_ballot.unwrap();
                if let Some((hb, _)) = highest_accepted(d, b) {
                    if !ballot_lt(hb, ab) {
                        lemma_ballot_total(hb, ab);
                    }
                }
            }
        }
    }
}

/// Once `v1` is chosen at `b1`, every round that wins a quorum of promises
/// proposes `v1`, whatever it was asked to propose.
pub proof fn lemma_chosen_value_is_proposed<T: Clone + PartialEq>(
    s: Seq<AcceptorState<T>>,
    b1: Ballot,
    v1: T,
    quorum: nat,
    q_set: Set<int>,
    b2: Ballot,
    v2: T,
)
    requires
        2 * quorum > s.len(),
        chosen(s, b1, v1, quorum, q_set),
        promise_count(s, b2) >= quorum,
    ensures
        proposal(s, b2, v2) == v1,
{
    lemma_promise_count_is_size(s, b2);
    lemma_quorums_intersect(s.len(), q_set, promisers(s, b2));
    let k = choose|k: int| q_set.contains(k) && promisers(s, b2).contains(k);
    assert(0 <= k < s.len() && promises(s[k], b2));
    lemma_highest_is_max(s, b2);
    let (bk, vk) = accepted_report(s[k]).unwrap();
    let (hb, hv) = highest_accepted(s, b2).unwrap();
    lemma_ballot_le_transitive(b1, bk, hb);
    let j = choose|j: int| 0 <= j < s.len() && promises(#[trigger] s[j], b2) && accepted_report(s[j]) == Some((hb, hv));
    assert(accepted_report(s[j]) == Some((hb, hv)));
}

/// A chosen value stays chosen through every round, and every round that
/// decides, decides it: whether the round fails for want of promises, fails for
/// want of acceptances, or decides, the acceptors it leaves still have `v1`
/// chosen at `b1`, and a round that gets past its promises proposes `v1`.
pub proof fn lemma_chosen_value_survives_round<T: Clone + PartialEq>(
    s: Seq<AcceptorState<T>>,
    b1: Ballot,
    v1: T,
    quorum: nat,
    q_set: Set<int>,
    b2: Ballot,
    v2: T,
)
    requires
        2 * quorum > s.len(),
        chosen(s, b1, v1, quorum, q_set),
    ensures
        chosen(prepare_all(s, b2), b1, v1, quorum, q_set),
        promise_count(s, b2) >= quorum ==> {
            &&& proposal(s, b2, v2) == v1
            &&& chosen(accept_all(prepare_all(s, b2), b2, v1), b1, v1, quorum, q_set)
            &&& chosen(decide_all(accept_all(prepare_all(s, b2), b2, v1), v1), b1, v1, quorum, q_set)
        },
{
    let s1 = prepare_all(s, b2);
    let s2 = accept_all(s1, b2, v1);
    let s3 = decide_all(s2, v1);
    lemma_ballot_lt_irreflexive(b2);
    // The prepare phase changes only promises, and only upwards.
    assert forall|j: int| 0 <= j < s1.len() implies accepted_report(#[trigger] s1[j]) == accepted_report(s[j]) by {}
    assert forall|j: int| 0 <= j < s1.len() implies {
        &&& ((#[trigger] s1[j]).accepted_ballot is Some <==> s1[j].accepted_value is Some)
        &&& (s1[j].accepted_ballot matches Some(ab) ==> (s1[j].promised_ballot matches Some(p) && ballot_le(ab, p)))
    } by {
        if promises(s[j], b2) {
            if let Some(ab) = s[j].accepted_ballot {
                let p = s[j].promised_ballot.unwrap();
                lemma_ballot_total(p, b2);
                lemma_ballot_le_transitive(ab, p, b2);
            }
        }
    }
    assert(quorum_reports(s1, b1, v1, quorum, q_set)) by {
        assert forall|j: int| #[trigger] q_set.contains(j) implies (accepted_report(s1[j]) matches Some((b, v))
            && ballot_le(b1, b) && v == v1) by {
            assert(accepted_report(s1[j]) == accepted_report(s[j]));
        }
    }
    assert(value_locked(s1, b1, v1));
    if promise_count(s, b2) >= quorum {
        lemma_chosen_value_is_proposed(s, b1, v1, quorum, q_set, b2, v2);
        // The accept phase gives v1, at b2, to those that accept.
        assert forall|j: int| 0 <= j < s2.len() implies {
            &&& ((#[trigger] s2[j]).accepted_ballot is Some <==> s2[j].accepted_value is Some)
            &&& (s2[j].accepted_ballot matches Some(ab) ==> (s2[j].promised_ballot matches Some(p) && ballot_le(ab, p)))
        } by {
            assert(s1[j].accepted_ballot is Some <==> s1[j].accepted_value is Some);
        }
        assert(acceptors_wf(s2));
        assert forall|j: int| 0 <= j < s2.len() implies (accepted_report(#[trigger] s2[j]) matches Some((b, v))
            ==> (ballot_le(b1, b) ==> v == v1)) by {
            if !accepts(s1[j], b2) {
                assert(accepted_report(s2[j]) == accepted_report(s1[j]));
            }
        }
        assert forall|j: int| #[trigger] q_set.contains(j) implies (accepted_report(s2[j]) matches Some((b, v))
            && ballot_le(b1, b) && v == v1) by {
            assert(0 <= j < s1.len());
            let (bj, vj) = accepted_report(s1[j]).unwrap();
            if accepts(s1[j], b2) {
                let p = s1[j].promised_ballot.unwrap();
                assert(ballot_le(bj, p));
                lemma_ballot_total(p, b2);
                if ballot_lt(b2, p) {
                } else {
                    lemma_ballot_le_transitive(b1, bj, p);
                    lemma_ballot_le_transitive(b1, p, b2);
                }
            } else {
                assert(accepted_report(s2[j]) == accepted_report(s1[j]));
            }
        }
        assert(chosen(s2, b1, v1, quorum, q_set));
        // Deciding changes no promise or report.
        assert forall|j: int| 0 <= j < s3.len() implies accepted_report(#[trigger] s3[j]) == accepted_report(s2[j]) by {}
        assert forall|j: int| 0 <= j < s3.len() implies {
            &&& ((#[trigger] s3[j]).accepted_ballot is Some <==> s3[j].accepted_value is Some)
            &&& (s3[j].accepted_ballot matches Some(ab) ==> (s3[j].promised_ballot matches Some(p) && ballot_le(ab, p)))
        } by {
            assert(s3[j].accepted_ballot == s2[j].accepted_ballot);
        }
        assert(value_locked(s3, b1, v1)) by {
            assert forall|j: int| 0 <= j < s3.len() implies (accepted_report(#[trigger] s3[j]) matches Some((b, v))
                ==> (ballot_le(b1, b) ==> v == v1)) by {
                assert(accepted_report(s3[j]) == accepted_report(s2[j]));
            }
        }
        assert forall|j: int| #[trigger] q_set.contains(j) implies (accepted_report(s3[j]) matches Some((b, v))
            && ballot_le(b1, b) && v == v1) by {
            assert(accepted_report(s3[j]) == accepted_report(s2[j]));
        }
    }
}

/// The first decision from fresh acceptors makes its value chosen, with every
/// acceptor in the quorum.
pub proof fn lemma_first_decision_chooses<T: Clone + PartialEq>(s: Seq<AcceptorState<T>>, b1: Ballot, v1: T)
    requires
        s.len() > 0,
        forall|j: int| 0 <= j < s.len() ==> (#[trigger] s[j]).promised_ballot is None && s[j].accepted_ballot is None,
    ensures
        chosen(
            decide_all(accept_all(prepare_all(s, b1), b1, v1), v1),
            b1,
            v1,
            s.len(),
            set_int_range(0, s.len() as int),
        ),
{
    let s3 = decide_all(accept_all(prepare_all(s, b1), b1, v1), v1);
    lemma_ballot_lt_irreflexive(b1);
    lemma_int_range(0, s.len() as int);
    assert forall|j: int| 0 <= j < s3.len() implies accepted_report(#[trigger] s3[j]) == Some((b1, v1)) by {}
}

/// No acceptor of `s` has promised or accepted anything.
pub open spec fn untouched<T: Clone + PartialEq>(s: Seq<AcceptorState<T>>) -> bool {
    forall|j: int|
        0 <= j < s.len() ==> {
            &&& (#[trigger] s[j]).promised_ballot is None
            &&& s[j].accepted_ballot is None
            &&& s[j].accepted_value is None
        }
}

/// The acceptors of `s`, deciding by `quorum`, are settled on `v`: `v` is
/// chosen at some ballot, and every acceptor has decided `v`.
pub open spec fn settled_on<T: Clone + PartialEq>(s: Seq<AcceptorState<T>>, quorum: nat, v: T) -> bool {
    &&& 2 * quorum > s.len()
    &&& exists|b1: Ballot, q_set: Set<int>| #[trigger] chosen(s, b1, v, quorum, q_set)
    &&& forall|j: int| 0 <= j < s.len() ==> (#[trigger] s[j]).decided_value == Some(v)
}

/// The state every realization keeps from its construction on, deciding by a
/// majority: its acceptors are untouched, or settled on one value.
pub open spec fn consensus_inv<T: Clone + PartialEq>(s: Seq<AcceptorState<T>>, quorum: nat) -> bool {
    &&& quorum == s.len() / 2 + 1
    &&& (untouched(s) || exists|v: T| #[trigger] settled_on(s, quorum, v))
}

/// The first round over untouched acceptors, deciding by a majority, wins every
/// promise and acceptance, proposes the value it was asked to propose, and
/// leaves the acceptors settled on it.
pub proof fn lemma_first_round_settles<T: Clone + PartialEq>(s: Seq<AcceptorState<T>>, quorum: nat, b1: Ballot, v1: T)
    requires
        s.len() > 0,
        quorum == s.len() / 2 + 1,
        untouched(s),
    ensures
        promise_count(s, b1) >= quorum,
        accept_count(prepare_all(s, b1), b1) >= quorum,
        proposal(s, b1, v1) == v1,
        settled_on(decide_all(accept_all(prepare_all(s, b1), b1, v1), v1), quorum, v1),
{
    let s1 = prepare_all(s, b1);
    let s3 = decide_all(accept_all(s1, b1, v1), v1);
    let full = set_int_range(0, s.len() as int);
    lemma_ballot_lt_irreflexive(b1);
    lemma_promise_count_all(s, b1);
    assert forall|j: int| 0 <= j < s1.len() implies accepts(#[trigger] s1[j], b1) by {}
    lemma_accept_count_all(s1, b1);
    assert forall|j: int| 0 <= j < s.len() implies accepted_report(#[trigger] s[j]) is None by {}
    lemma_highest_none(s, b1);
    lemma_first_decision_chooses(s, b1, v1);
    lemma_int_range(0, s.len() as int);
    assert(chosen(s3, b1, v1, quorum, full));
}

/// A realization settled on `v` stays settled on it through every round, and
/// every round that gets past its promises proposes `v`: whether the round
/// fails for want of promises, fails for want of acceptances, or decides, the
/// acceptors it leaves are settled on `v`, whatever `v2` it was asked to propose.
pub proof fn lemma_settled_survives_round<T: Clone + PartialEq>(
    s: Seq<AcceptorState<T>>,
    quorum: nat,
    v: T,
    b2: Ballot,
    v2: T,
)
    requires
        settled_on(s, quorum, v),
    ensures
        settled_on(prepare_all(s, b2), quorum, v),
        promise_count(s, b2) >= quorum ==> {
            &&& proposal(s, b2, v2) == v
            &&& settled_on(accept_all(prepare_all(s, b2), b2, v), quorum, v)
            &&& settled_on(decide_all(accept_all(prepare_all(s, b2), b2, v), v), quorum, v)
        },
{
    let (b1, q_set) = choose|b1: Ballot, q_set: Set<int>| #[trigger] chosen(s, b1, v, quorum, q_set);
    lemma_chosen_value_survives_round(s, b1, v, quorum, q_set, b2, v2);
    let s1 = prepare_all(s, b2);
    let s2 = accept_all(s1, b2, v);
    let s3 = decide_all(s2, v);
    assert(chosen(s1, b1, v, quorum, q_set));
    assert forall|j: int| 0 <= j < s1.len() implies (#[trigger] s1[j]).decided_value == Some(v) by {
        assert(s[j].decided_value == Some(v));
    }
    if promise_count(s, b2) >= quorum {
        assert(chosen(s2, b1, v, quorum, q_set));
        assert(chosen(s3, b1, v, quorum, q_set));
        assert forall|j: int| 0 <= j < s2.len() implies (#[trigger] s2[j]).decided_value == Some(v) by {
            assert(s1[j].decided_value == Some(v));
        }
    }
}

/// A realization settled on `v` passes the agreement checks on `v`, for a value
/// whose `==` with itself cannot return `false`: every acceptor has decided `v`,
/// so no acceptor fails the comparison with `v` or with the first acceptor's value.
pub proof fn lemma_settled_passes_checks<T: Clone + PartialEq>(s: Seq<AcceptorState<T>>, quorum: nat, v: T)
    requires
        settled_on(s, quorum, v),
        !eq_gives(v, v, false),
    ensures
        forall|j: int| 0 <= j < s.len() ==> !decided_eq_gives(#[trigger] s[j], v, false),
        s.len() > 0 ==> s[0].decided_value == Some(v),
{
    assert forall|j: int| 0 <= j < s.len() implies !decided_eq_gives(#[trigger] s[j], v, false) by {
        assert(s[j].decided_value == Some(v));
    }
}

/// The ballot order is by number first, then by name: a lower number is a
/// lower ballot whatever the names, and equal numbers are ordered by name.
pub proof fn lemma_ballot_order_by_number_then_name(a: Ballot, b: Ballot)
    ensures
        a.0 < b.0 ==> ballot_lt(a, b) && !ballot_le(b, a),
        a.0 == b.0 ==> (ballot_lt(a, b) <==> text_lt(a.1@, b.1@)),
        ballot_le(a, b) <==> (a.0 < b.0 || (a.0 == b.0 && (text_lt(a.1@, b.1@) || a.1@ == b.1@))),
{
    if a.0 < b.0 {
        lemma_ballot_lt_asymmetric(a, b);
    }
}

/// An acceptor promises a ballot exactly when it has promised nothing, or only
/// a strictly lower ballot, whatever it has accepted; a promise moves its
/// promised ballot up to the new one and touches nothing else, and a refusal
/// leaves it as it was.
pub proof fn lemma_prepare_law<T: Clone + PartialEq>(a: AcceptorState<T>, b: Ballot)
    ensures
        promises(a, b) == (a.promised_ballot is None || ballot_lt(a.promised_ballot.unwrap(), b)),
        promises(a, b) ==> {
            &&& after_prepare(a, b).promised_ballot == Some(b)
            &&& after_prepare(a, b).accepted_ballot == a.accepted_ballot
            &&& after_prepare(a, b).accepted_value == a.accepted_value
            &&& after_prepare(a, b).decided_value == a.decided_value
        },
        !promises(a, b) ==> after_prepare(a, b) == a,
{
    if let Some(p) = a.promised_ballot {
        lemma_ballot_total(p, b);
        if ballot_lt(p, b) {
            lemma_ballot_lt_asymmetric(p, b);
        }
    }
}

/// An acceptor accepts at a ballot exactly when it has promised nothing, or a
/// ballot no higher than it; only a ballot strictly below the promise is
/// refused. Accepting records the ballot as promised and accepted, with the
/// value, and keeps the decision; a refusal leaves the acceptor as it was.
pub proof fn lemma_accept_law<T: Clone + PartialEq>(a: AcceptorState<T>, b: Ballot, v: T)
    ensures
        accepts(a, b) == (a.promised_ballot is None || ballot_le(a.promised_ballot.unwrap(), b)),
        accepts(a, b) ==> {
            &&& after_accept(a, b, v).promised_ballot == Some(b)
            &&& after_accept(a, b, v).accepted_ballot == Some(b)
            &&& after_accept(a, b, v).accepted_value == Some(v)
            &&& after_accept(a, b, v).decided_value == a.decided_value
        },
        !accepts(a, b) ==> after_accept(a, b, v) == a,
{
    if let Some(p) = a.promised_ballot {
        lemma_ballot_total(p, b);
        if ballot_le(p, b) && ballot_lt(b, p) {
            if ballot_lt(p, b) {
                lemma_ballot_lt_asymmetric(p, b);
            } else {
                lemma_ballot_lt_irreflexive(b);
                lemma_text_eq_of_bytes_eq(p.1@, b.1@);
            }
        }
    }
}

} // verus!
