use edge_governance::delegation::{DelegationError, Event, Module};

#[test]
fn chain_then_closing_edge_is_rejected() {
    let mut m = Module::new(3);
    assert_eq!(m.delegate_to(1, 2), Ok(()));
    assert_eq!(m.delegate_to(2, 3), Ok(()));
    assert_eq!(m.delegate_to(3, 1), Err(DelegationError::InvalidDelegation));
    assert_eq!(m.delegate_of(&3), None);
}

#[test]
fn closing_edge_rejected_in_every_rotation() {
    let ring = [(10u64, 20u64, 30u64), (20, 30, 10), (30, 10, 20)];
    for (a, b, c) in ring {
        let mut m = Module::new(5);
        assert_eq!(m.delegate_to(a, b), Ok(()));
        assert_eq!(m.delegate_to(b, c), Ok(()));
        assert_eq!(m.delegate_to(c, a), Err(DelegationError::InvalidDelegation));
    }
}

#[test]
fn self_delegation_is_rejected() {
    let mut m = Module::new(3);
    assert_eq!(m.delegate_to(4, 4), Err(DelegationError::InvalidDelegation));
    assert!(m.events().is_empty());
}

#[test]
fn zero_depth_rejects_every_delegation() {
    let mut m = Module::new(0);
    assert_eq!(m.delegate_to(1, 2), Err(DelegationError::InvalidDelegation));
}

#[test]
fn chain_one_hop_past_depth_is_rejected() {
    let mut m = Module::new(2);
    assert_eq!(m.delegate_to(2, 3), Ok(()));
    assert_eq!(m.delegate_to(1, 2), Ok(()));
    // 0 -> 1 -> 2 -> 3 would be three hops with a depth of two.
    assert_eq!(m.delegate_to(0, 1), Err(DelegationError::InvalidDelegation));
    // Two hops are allowed.
    assert_eq!(m.delegate_to(0, 2), Ok(()));
}

#[test]
fn is_invalid_delegation_counts_hops() {
    let mut m = Module::new(3);
    assert_eq!(m.delegate_to(2, 3), Ok(()));
    assert!(!m.is_invalid_delegation(&1, 2, 1));
    assert!(!m.is_invalid_delegation(&1, 2, 2));
    assert!(m.is_invalid_delegation(&1, 2, 3));
    assert!(m.is_invalid_delegation(&1, 2, 4));
    assert!(m.is_invalid_delegation(&3, 2, 1));
}

#[test]
fn delegate_records_both_directions_and_event() {
    let mut m = Module::new(3);
    assert_eq!(m.delegation_depth(), 3);
    assert_eq!(m.delegate_to(1, 9), Ok(()));
    assert_eq!(m.delegate_to(2, 9), Ok(()));
    assert_eq!(m.delegate_of(&1), Some(9));
    assert_eq!(m.delegates_to(&9), Some(vec![1, 2]));
    assert_eq!(m.delegates_to(&1), None);
    assert_eq!(m.take_events(), vec![Event::Delegated(1, 9), Event::Delegated(2, 9)]);
    assert!(m.events().is_empty());
}

#[test]
fn redelegation_keeps_stale_backlink() {
    let mut m = Module::new(3);
    assert_eq!(m.delegate_to(1, 2), Ok(()));
    assert_eq!(m.delegate_to(1, 3), Ok(()));
    assert_eq!(m.delegate_of(&1), Some(3));
    assert_eq!(m.delegates_to(&2), Some(vec![1]));
    assert_eq!(m.delegates_to(&3), Some(vec![1]));
}

#[test]
fn undelegate_removes_edge_and_empty_list() {
    let mut m = Module::new(3);
    assert_eq!(m.delegate_to(1, 2), Ok(()));
    assert_eq!(m.undelegate_from(1, 2), Ok(()));
    assert_eq!(m.delegate_of(&1), None);
    assert_eq!(m.delegates_to(&2), None);
    assert_eq!(m.take_events(), vec![Event::Delegated(1, 2), Event::Undelegated(1, 2)]);
}

#[test]
fn undelegate_keeps_other_delegators() {
    let mut m = Module::new(3);
    assert_eq!(m.delegate_to(1, 5), Ok(()));
    assert_eq!(m.delegate_to(2, 5), Ok(()));
    assert_eq!(m.delegate_to(3, 5), Ok(()));
    assert_eq!(m.undelegate_from(2, 5), Ok(()));
    assert_eq!(m.delegates_to(&5), Some(vec![1, 3]));
    assert_eq!(m.delegate_of(&1), Some(5));
}

#[test]
fn undelegate_from_self_is_rejected() {
    let mut m = Module::new(3);
    assert_eq!(m.delegate_to(1, 2), Ok(()));
    assert_eq!(m.undelegate_from(1, 1), Err(DelegationError::InvalidUndelegation));
    assert_eq!(m.delegate_of(&1), Some(2));
}

#[test]
fn undelegate_absent_from_list_is_rejected_without_change() {
    let mut m = Module::new(3);
    assert_eq!(m.delegate_to(1, 2), Ok(()));
    assert_eq!(m.delegate_to(3, 4), Ok(()));
    assert_eq!(m.undelegate_from(1, 4), Err(DelegationError::InvalidUndelegation));
    assert_eq!(m.delegate_of(&1), Some(2));
    assert_eq!(m.delegates_to(&4), Some(vec![3]));
}

#[test]
fn undelegate_without_list_drops_edge_anyway() {
    let mut m = Module::new(3);
    assert_eq!(m.delegate_to(1, 2), Ok(()));
    assert_eq!(m.undelegate_from(1, 7), Ok(()));
    assert_eq!(m.delegate_of(&1), None);
    assert_eq!(m.delegates_to(&2), Some(vec![1]));
}

#[test]
fn sink_follows_the_chain() {
    let mut m = Module::new(5);
    assert_eq!(m.delegate_to(1, 2), Ok(()));
    assert_eq!(m.delegate_to(2, 3), Ok(()));
    assert_eq!(m.get_sink_delegator(1), Ok(3));
    assert_eq!(m.get_sink_delegator(2), Ok(3));
    assert_eq!(m.get_sink_delegator(3), Ok(3));
    assert_eq!(m.get_sink_delegator(8), Ok(8));
}

#[test]
fn sink_resolution_is_idempotent() {
    let mut m = Module::new(5);
    assert_eq!(m.delegate_to(4, 6), Ok(()));
    assert_eq!(m.delegate_to(6, 7), Ok(()));
    let s = m.get_sink_delegator(4).unwrap();
    assert_eq!(m.get_sink_delegator(s), Ok(s));
}

#[test]
fn tally_pairs_accounts_with_sinks_in_order() {
    let mut m = Module::new(5);
    assert_eq!(m.delegate_to(1, 2), Ok(()));
    assert_eq!(m.delegate_to(2, 3), Ok(()));
    assert_eq!(m.delegate_to(4, 3), Ok(()));
    assert_eq!(
        m.tally_delegation(vec![4, 9, 1, 3]),
        Ok(vec![(4, 3), (9, 9), (1, 3), (3, 3)])
    );
    assert_eq!(m.tally_delegation(vec![]), Ok(vec![]));
}
