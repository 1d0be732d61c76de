//! The subscription manager and the client-id bit-set it is built on.

use worldcache::identity::ClientIDSet;
use worldcache::subs::SubscriptionManager;

#[test]
fn bitset_set_get_and_emptiness() {
    let mut s = ClientIDSet::new();
    assert!(s.is_empty());
    assert!(!s.get(3));
    s.set(3, true);
    assert!(!s.is_empty());
    assert!(s.get(3));
    assert!(!s.get(4));
    s.set(3, false);
    assert!(s.is_empty());
}

#[test]
fn bitset_just_one_and_iteration() {
    let s = ClientIDSet::new_just_one(5);
    assert_eq!(s.to_vec(), vec![5]);
    let mut iter = s.iter_set_pos();
    assert_eq!(iter.next(), Some(5));
    assert_eq!(iter.next(), None);
    let mut neg = ClientIDSet::new_just_one(0).iter_set_neg();
    assert_eq!(neg.next(), Some(1));
    assert_eq!(neg.next(), Some(2));
}

#[test]
fn bitset_holds_the_highest_id() {
    let mut s = ClientIDSet::new();
    s.set(31, true);
    assert!(s.get(31));
    assert!(!s.get(30));
    assert_eq!(s.to_vec(), vec![31]);
}

#[test]
fn subscribe_and_unsubscribe_track_sets() {
    let mut sm = SubscriptionManager::new();
    assert!(sm.get_subs_for(9).is_empty());
    sm.subscribe(9, 2);
    sm.subscribe(9, 4);
    let subs = sm.get_subs_for(9);
    assert_eq!(subs.to_vec(), vec![2, 4]);
    sm.unsubscribe(9, 2);
    assert_eq!(sm.get_subs_for(9).to_vec(), vec![4]);
    sm.unsubscribe(9, 4);
    assert!(sm.get_subs_for(9).is_empty());
}

#[test]
fn iter_subs_for_walks_members_in_order() {
    let mut sm = SubscriptionManager::new();
    sm.subscribe(1, 6);
    sm.subscribe(1, 3);
    let mut iter = sm.iter_subs_for(1);
    assert_eq!(iter.next(), Some(3));
    assert_eq!(iter.next(), Some(6));
    assert_eq!(iter.next(), None);
}

#[test]
fn unsubscribe_of_stranger_changes_nothing() {
    let mut sm = SubscriptionManager::new();
    sm.subscribe(1, 6);
    sm.unsubscribe(1, 7);
    sm.unsubscribe(2, 6);
    assert_eq!(sm.get_subs_for(1).to_vec(), vec![6]);
}
