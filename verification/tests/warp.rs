use lau_constitutive_compute::{
    AcceptorState, Ballot, WarpConsensusResult, WarpMessage, WarpRealization,
};

#[test]
fn test_basic_consensus() {
    let mut warp: WarpRealization<String> = WarpRealization::new(&["n1", "n2", "n3"]);
    let ballot = Ballot(1, "leader".into());
    let result = warp.run_consensus(ballot, "hello".into());
    assert_eq!(result, WarpConsensusResult::Decided("hello".to_string()));
}

#[test]
fn test_consensus_all_decided() {
    let mut warp: WarpRealization<String> = WarpRealization::new(&["n1", "n2", "n3"]);
    warp.run_consensus(Ballot(1, "l".into()), "value".into());
    assert!(warp.zero_cost_check());
}

#[test]
fn test_consensus_agreed_value() {
    let mut warp: WarpRealization<i32> = WarpRealization::new(&["n1", "n2", "n3"]);
    warp.run_consensus(Ballot(1, "l".into()), 42);
    assert_eq!(warp.agreed_value(), Some(42));
}

#[test]
fn test_idempotent_re_proposal() {
    let mut warp: WarpRealization<String> = WarpRealization::new(&["n1", "n2", "n3"]);
    warp.run_consensus(Ballot(1, "l".into()), "v1".into());
    assert!(warp.idempotent_check(&"v1".to_string()));
}

#[test]
fn test_higher_ballot_overrides() {
    let mut warp: WarpRealization<String> = WarpRealization::new(&["n1", "n2", "n3"]);
    warp.run_consensus(Ballot(1, "l1".into()), "v1".into());
    let result = warp.run_consensus(Ballot(2, "l2".into()), "v2".into());
    // Since v1 was already accepted, Paxos should preserve it
    assert_eq!(result, WarpConsensusResult::Decided("v1".to_string()));
}

#[test]
fn test_not_decided_initially() {
    let warp: WarpRealization<String> = WarpRealization::new(&["n1", "n2", "n3"]);
    assert!(!warp.zero_cost_check());
    assert_eq!(warp.agreed_value(), None);
}

#[test]
fn test_acceptor_rejects_old_ballot() {
    let mut acceptor: AcceptorState<String> = AcceptorState::new("a1");
    let high = Ballot(5, "l".into());
    let low = Ballot(1, "l".into());

    acceptor.handle_prepare(&high);
    let result = acceptor.handle_prepare(&low);
    assert!(result.is_none(), "Should reject lower ballot");
}

#[test]
fn test_acceptor_accepts_new_ballot() {
    let mut acceptor: AcceptorState<String> = AcceptorState::new("a1");
    let low = Ballot(1, "l".into());
    let high = Ballot(5, "l".into());

    acceptor.handle_prepare(&low);
    let result = acceptor.handle_prepare(&high);
    assert!(result.is_some(), "Should accept higher ballot");
}

#[test]
fn test_five_node_consensus() {
    let mut warp: WarpRealization<i32> = WarpRealization::new(&["n1", "n2", "n3", "n4", "n5"]);
    let result = warp.run_consensus(Ballot(1, "l".into()), 99);
    assert_eq!(result, WarpConsensusResult::Decided(99));
    assert_eq!(warp.quorum_size, 3);
}

#[test]
fn test_acceptor_rejects_same_ballot_prepare() {
    let mut acceptor: AcceptorState<i32> = AcceptorState::new("a");
    let b = Ballot(3, "x".into());
    assert!(acceptor.handle_prepare(&b).is_some());
    assert!(acceptor.handle_prepare(&b).is_none());
    // An accept at the promised ballot itself goes through.
    assert_eq!(
        acceptor.handle_accept(&b, &7),
        Some(WarpMessage::Accepted { ballot: Ballot(3, "x".into()), value: 7 })
    );
    assert_eq!(acceptor.accepted_value, Some(7));
}

#[test]
fn test_acceptor_promise_reports_accepted() {
    let mut acceptor: AcceptorState<i32> = AcceptorState::new("a");
    let b1 = Ballot(1, "p".into());
    acceptor.handle_accept(&b1, &10);
    let reply = acceptor.handle_prepare(&Ballot(2, "p".into()));
    assert_eq!(
        reply,
        Some(WarpMessage::Promise { ballot: Ballot(2, "p".into()), accepted: Some((b1, 10)) })
    );
    // An accept below the promise is refused and changes nothing.
    assert!(acceptor.handle_accept(&Ballot(1, "z".into()), &11).is_none());
    assert_eq!(acceptor.accepted_value, Some(10));
}

#[test]
fn test_ballot_order_by_number_then_name() {
    let a = Ballot(1, "b".into());
    let b = Ballot(2, "a".into());
    let c = Ballot(2, "b".into());
    assert!(a.precedes(&b));
    assert!(b.precedes(&c));
    assert!(!c.precedes(&b));
    assert!(c.precedes_or_equals(&c));
    assert!(!c.precedes(&c));
    // The order agrees with the derived order of the type.
    assert_eq!(a.precedes(&b), a < b);
    assert_eq!(c.precedes(&b), c < b);
}

#[test]
fn test_acceptor_decide_and_is_decided() {
    let mut acceptor: AcceptorState<String> = AcceptorState::new("n");
    assert!(!acceptor.is_decided());
    acceptor.decide(&"v".to_string());
    assert!(acceptor.is_decided());
    assert_eq!(acceptor.decided_value, Some("v".to_string()));
    assert_eq!(acceptor.node_id, "n");
}

#[test]
fn test_consensus_fails_without_prepare_quorum() {
    let mut warp: WarpRealization<i32> = WarpRealization::new(&["n1", "n2", "n3"]);
    warp.run_consensus(Ballot(5, "l".into()), 1);
    let result = warp.run_consensus(Ballot(4, "l".into()), 2);
    assert_eq!(result, WarpConsensusResult::Failed("No quorum for prepare".to_string()));
    assert_eq!(warp.agreed_value(), Some(1));
}

#[test]
fn test_consensus_fails_on_already_promised_ballot() {
    let mut warp: WarpRealization<i32> = WarpRealization::new(&["n1", "n2", "n3"]);
    // Every acceptor has already promised the round's own ballot.
    warp.acceptors[0].handle_prepare(&Ballot(1, "a".into()));
    warp.acceptors[1].handle_prepare(&Ballot(1, "a".into()));
    warp.acceptors[2].handle_prepare(&Ballot(1, "a".into()));
    let result = warp.run_consensus(Ballot(1, "a".into()), 3);
    assert_eq!(result, WarpConsensusResult::Failed("No quorum for prepare".to_string()));
    assert!(!warp.zero_cost_check());
}

#[test]
fn test_quorum_is_majority() {
    let warp: WarpRealization<i32> = WarpRealization::new(&["a", "b", "c", "d"]);
    assert_eq!(warp.quorum_size, 3);
    assert_eq!(warp.acceptors.len(), 4);
    assert_eq!(warp.acceptors[2].node_id, "c");
    let empty: WarpRealization<i32> = WarpRealization::new(&[]);
    assert_eq!(empty.quorum_size, 1);
}

#[test]
fn test_idempotent_check_wrong_value() {
    let mut warp: WarpRealization<i32> = WarpRealization::new(&["n1", "n2"]);
    assert!(!warp.idempotent_check(&5));
    warp.run_consensus(Ballot(1, "l".into()), 5);
    assert!(warp.idempotent_check(&5));
    assert!(!warp.idempotent_check(&6));
}

#[test]
fn test_settled_value_survives_later_rounds() {
    let mut warp: WarpRealization<String> = WarpRealization::new(&["a", "b", "c"]);
    let first = warp.run_consensus(Ballot(2, "l".into()), "v1".into());
    assert_eq!(first, WarpConsensusResult::Decided("v1".into()));
    // A higher ballot proposing another value decides the settled one.
    let higher = warp.run_consensus(Ballot(7, "m".into()), "v2".into());
    assert_eq!(higher, WarpConsensusResult::Decided("v1".into()));
    // A lower ballot fails for want of promises.
    let lower = warp.run_consensus(Ballot(1, "z".into()), "v3".into());
    assert!(matches!(lower, WarpConsensusResult::Failed(_)));
    assert_eq!(warp.agreed_value(), Some("v1".to_string()));
    assert!(warp.idempotent_check(&"v1".to_string()));
    assert!(!warp.idempotent_check(&"v2".to_string()));
}

#[test]
fn test_realization_clones_with_its_decision() {
    let mut warp: WarpRealization<u64> = WarpRealization::new(&["a", "b", "c"]);
    warp.run_consensus(Ballot(1, "l".into()), 4);
    let copy = warp.clone();
    assert_eq!(copy.agreed_value(), Some(4));
    assert_eq!(copy.acceptors[0].clone().decided_value, Some(4));
}
