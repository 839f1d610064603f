use bft_sync::view_info::{position, ViewError, ViewInfo};

fn cluster(view_number: u64) -> ViewInfo {
    ViewInfo::new(view_number, 1, vec![0, 1, 2, 3]).unwrap()
}

#[test]
fn quorum_sizes_of_four_replicas() {
    let view = cluster(0);
    assert_eq!(view.n(), 4);
    assert_eq!(view.f(), 1);
    assert_eq!(view.quorum_size(), 3);
    assert_eq!(view.small_quorum(), 2);
}

#[test]
fn quorum_sizes_of_seven_replicas() {
    let view = ViewInfo::new(3, 2, vec![10, 20, 30, 40, 50, 60, 70]).unwrap();
    assert_eq!(view.quorum_size(), 5);
    assert_eq!(view.small_quorum(), 3);
    assert_eq!(view.view_number(), 3);
}

#[test]
fn leader_is_member_at_view_number_mod_n() {
    assert_eq!(cluster(0).leader(), 0);
    assert_eq!(cluster(1).leader(), 1);
    assert_eq!(cluster(5).leader(), 1);
    assert_eq!(cluster(7).leader(), 3);
    let view = ViewInfo::new(9, 2, vec![10, 20, 30, 40, 50, 60, 70]).unwrap();
    assert_eq!(view.leader(), 30);
    assert!(view.is_leader(30));
    assert!(!view.is_leader(10));
}

#[test]
fn leader_is_the_same_for_independent_instances() {
    for number in 0..20u64 {
        let a = ViewInfo::new(number, 1, vec![4, 8, 15, 16]).unwrap();
        let b = ViewInfo::new(number, 1, vec![4, 8, 15, 16]).unwrap();
        assert_eq!(a.leader(), b.leader());
        let c = ViewInfo::new(number, 0, vec![4, 8, 15, 16]).unwrap();
        assert_eq!(a.leader(), c.leader());
    }
}

#[test]
fn too_few_replicas_are_refused() {
    assert_eq!(ViewInfo::new(0, 1, vec![0, 1, 2]), Err(ViewError::TooFewReplicas));
    assert_eq!(ViewInfo::new(0, 0, vec![]), Err(ViewError::TooFewReplicas));
    assert_eq!(ViewInfo::new(0, 2, vec![0, 1, 2, 3, 4, 5]), Err(ViewError::TooFewReplicas));
    assert_eq!(ViewInfo::new(0, usize::MAX, vec![0, 1, 2, 3]), Err(ViewError::TooFewReplicas));
    assert!(ViewInfo::new(0, 0, vec![7]).is_ok());
}

#[test]
fn duplicate_members_are_refused() {
    assert_eq!(ViewInfo::new(0, 1, vec![0, 1, 2, 1]), Err(ViewError::DuplicateMember));
    assert_eq!(ViewInfo::new(0, 1, vec![0, 1, 1]), Err(ViewError::TooFewReplicas));
}

#[test]
fn membership_is_kept_in_order() {
    let view = ViewInfo::new(0, 1, vec![9, 3, 7, 5]).unwrap();
    assert_eq!(view.membership(), &vec![9, 3, 7, 5]);
    assert!(view.is_member(7));
    assert!(!view.is_member(0));
    assert_eq!(position(view.membership(), 7), Some(2));
    assert_eq!(position(view.membership(), 8), None);
}

#[test]
fn successor_keeps_the_cluster() {
    let view = cluster(4);
    let next = view.successor().unwrap();
    assert_eq!(next.view_number(), 5);
    assert_eq!(next.membership(), view.membership());
    assert_eq!(next.f(), 1);
    assert_eq!(view.target(), Some(5));
    assert_eq!(view.next_leader(), Some(next.leader()));
    assert_eq!(view.next_leader(), Some(1));
    assert_eq!(view.duplicate(), view);
}

#[test]
fn last_view_number_has_no_successor() {
    let view = cluster(u64::MAX);
    assert_eq!(view.leader(), 3);
    assert_eq!(view.target(), None);
    assert_eq!(view.next_leader(), None);
    assert!(view.successor().is_none());
    let before = cluster(u64::MAX - 1);
    assert_eq!(before.target(), Some(u64::MAX));
    assert_eq!(before.next_leader(), Some(3));
    assert_eq!(before.successor().unwrap().view_number(), u64::MAX);
}

#[test]
fn certificate_needs_a_quorum_of_distinct_members() {
    let view = cluster(0);
    assert!(view.covers_quorum(&vec![0, 1, 2]));
    assert!(view.covers_quorum(&vec![3, 2, 1, 0]));
    assert!(!view.covers_quorum(&vec![0, 1]));
    assert!(!view.covers_quorum(&vec![0, 1, 1, 0, 1]));
    assert!(!view.covers_quorum(&vec![0, 1, 9, 8, 7]));
    assert!(view.covers_quorum(&vec![9, 0, 0, 1, 8, 3]));
    assert!(!view.covers_quorum(&vec![]));
}

#[test]
fn cluster_elects_a_leader_for_any_view() {
    let view = cluster(0);
    assert_eq!(view.leader_at(0), 0);
    assert_eq!(view.leader_at(6), 2);
    assert_eq!(view.leader_at(u64::MAX), 3);
    let later = view.at(6);
    assert_eq!(later, cluster(6));
    assert_eq!(later.leader(), 2);
}
