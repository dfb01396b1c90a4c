//! The set and the map keyed by handles.

use hashconsing::term::ActualTerm;
use hashconsing::HConMap;
use hashconsing::HConSet;
use hashconsing::HConsed;
use hashconsing::HConsign;

type Term = HConsed<ActualTerm<String>>;

fn terms() -> (HConsign<ActualTerm<String>>, Term, Term, Term) {
    let mut consign = HConsign::empty();
    let a = consign.var("a");
    let b = consign.var("b");
    let c = consign.app(a.clone(), b.clone());
    (consign, a, b, c)
}

#[test]
fn a_new_set_is_empty() {
    let (_, a, _, _) = terms();
    let set: HConSet<ActualTerm<String>> = HConSet::new();
    assert_eq!(set.len(), 0);
    assert!(set.is_empty());
    assert!(!set.contains(&a));
    assert!(set.members().is_empty());
    assert!(set.nth(0).is_none());
    let set: HConSet<ActualTerm<String>> = HConSet::with_capacity(10);
    assert_eq!(set.len(), 0);
    assert!(set.is_empty());
}

#[test]
fn set_insert_says_whether_the_handle_is_new() {
    let (_, a, b, _) = terms();
    let mut set = HConSet::new();
    assert!(set.insert(a.clone()));
    assert!(!set.insert(a.clone()));
    assert!(set.insert(b.clone()));
    assert!(!set.insert(b.clone()));
    assert!(!set.insert(a.clone()));
    assert_eq!(set.len(), 2);
    assert!(!set.is_empty());
}

#[test]
fn set_contains_goes_by_identifier() {
    let (mut consign, a, b, c) = terms();
    let mut set = HConSet::new();
    set.insert(a.clone());
    set.insert(c.clone());
    assert!(set.contains(&a));
    assert!(!set.contains(&b));
    assert!(set.contains(&c));
    let a_again = consign.var("a");
    let c_again = consign.app(a_again.clone(), b.clone());
    assert!(set.contains(&a_again));
    assert!(set.contains(&c_again));
    let d = consign.var("d");
    assert!(!set.contains(&d));
}

#[test]
fn set_walk_gives_each_member_once_in_order() {
    let (_, a, b, c) = terms();
    let mut set = HConSet::new();
    set.insert(c.clone());
    set.insert(a.clone());
    set.insert(c.clone());
    set.insert(b.clone());
    let uids: Vec<u64> = set.members().iter().map(|h| h.uid()).collect();
    assert_eq!(uids, vec![c.uid(), a.uid(), b.uid()]);
    let again: Vec<u64> = set.members().iter().map(|h| h.uid()).collect();
    assert_eq!(again, uids);
    assert_eq!(set.nth(0).unwrap().uid(), c.uid());
    assert_eq!(set.nth(1).unwrap().uid(), a.uid());
    assert_eq!(set.nth(2).unwrap().uid(), b.uid());
    assert!(set.nth(3).is_none());
    assert!(set.nth(usize::MAX).is_none());
    let by_position: Vec<u64> = (0..set.len()).map(|i| set.nth(i).unwrap().uid()).collect();
    assert_eq!(by_position, uids);
}

#[test]
fn a_new_map_is_empty() {
    let (_, a, _, _) = terms();
    let map: HConMap<ActualTerm<String>, u32> = HConMap::new();
    assert_eq!(map.len(), 0);
    assert!(map.is_empty());
    assert!(!map.contains_key(&a));
    assert_eq!(map.get(&a), None);
    assert!(map.keys().is_empty());
    assert!(map.pairs().is_empty());
    assert!(map.nth(0).is_none());
    let map: HConMap<ActualTerm<String>, u32> = HConMap::with_capacity(10);
    assert_eq!(map.len(), 0);
    assert!(map.is_empty());
}

#[test]
fn map_insert_returns_the_value_it_replaces() {
    let (mut consign, a, b, _) = terms();
    let mut map = HConMap::new();
    assert_eq!(map.insert(a.clone(), "one"), None);
    assert_eq!(map.insert(b.clone(), "two"), None);
    assert_eq!(map.insert(a.clone(), "three"), Some("one"));
    let a_again = consign.var("a");
    assert_eq!(map.insert(a_again, "four"), Some("three"));
    assert_eq!(map.len(), 2);
    assert_eq!(map.get(&a), Some(&"four"));
    assert_eq!(map.get(&b), Some(&"two"));
}

#[test]
fn map_values_need_not_differ() {
    let (_, a, b, c) = terms();
    let mut map = HConMap::new();
    assert_eq!(map.insert(a.clone(), 7), None);
    assert_eq!(map.insert(b.clone(), 7), None);
    assert_eq!(map.insert(c.clone(), 7), None);
    assert_eq!(map.len(), 3);
    assert_eq!(map.insert(b.clone(), 7), Some(7));
    assert_eq!(map.get(&c), Some(&7));
}

#[test]
fn map_get_and_contains_key_go_by_identifier() {
    let (mut consign, a, b, c) = terms();
    let mut map = HConMap::new();
    map.insert(a.clone(), 1);
    map.insert(c.clone(), 3);
    assert!(map.contains_key(&a));
    assert!(!map.contains_key(&b));
    assert!(map.contains_key(&c));
    assert_eq!(map.get(&a), Some(&1));
    assert_eq!(map.get(&b), None);
    assert_eq!(map.get(&c), Some(&3));
    let c_again = consign.app(a.clone(), b.clone());
    assert_eq!(map.get(&c_again), Some(&3));
}

#[test]
fn map_walk_gives_each_pair_once_in_order() {
    let (_, a, b, c) = terms();
    let mut map = HConMap::new();
    map.insert(b.clone(), "b");
    map.insert(c.clone(), "c");
    map.insert(b.clone(), "b again");
    map.insert(a.clone(), "a");
    let pairs: Vec<(u64, &str)> = (0..map.len()).map(|i| {
        let (key, value) = map.nth(i).unwrap();
        (key.uid(), *value)
    }).collect();
    assert!(map.nth(3).is_none());
    assert_eq!(pairs, vec![(b.uid(), "b again"), (c.uid(), "c"), (a.uid(), "a")]);
    let keys: Vec<u64> = map.keys().iter().map(|h| h.uid()).collect();
    assert_eq!(keys, vec![b.uid(), c.uid(), a.uid()]);
    let walked: Vec<(u64, &str)> = map.pairs().iter().map(|(k, v)| (k.uid(), **v)).collect();
    assert_eq!(walked, pairs);
    let again: Vec<(u64, &str)> = map.pairs().iter().map(|(k, v)| (k.uid(), **v)).collect();
    assert_eq!(again, pairs);
}

#[test]
fn a_collection_keeps_its_handles_alive() {
    let mut consign = HConsign::empty();
    let mut set = HConSet::new();
    let a = consign.var("a");
    let uid = a.uid();
    set.insert(a);
    let again = consign.var("a");
    assert_eq!(again.uid(), uid);
    assert!(set.contains(&again));
    drop(consign);
    assert_eq!(*set.nth(0).unwrap().get(), ActualTerm::Var(String::from("a")));
}

#[test]
fn membership_agrees_with_structural_equality() {
    let mut consign = HConsign::empty();
    let names = ["a", "b", "c", "d", "e", "f"];
    let handles: Vec<Term> = names.iter().map(|name| consign.var(name)).collect();
    let mut set = HConSet::new();
    let mut map = HConMap::new();
    for (i, h) in handles.iter().enumerate() {
        if i % 2 == 0 {
            set.insert(h.clone());
            map.insert(h.clone(), i);
        }
    }
    for h in &handles {
        let structurally = set.members().iter().any(|member| member.get() == h.get());
        assert_eq!(set.contains(h), structurally);
        let structurally = map.keys().iter().any(|key| key.get() == h.get());
        assert_eq!(map.contains_key(h), structurally);
        assert_eq!(set.contains(h), map.contains_key(h));
    }
}
