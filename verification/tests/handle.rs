//! Handles: sharing, equality, order and hash by identifier.

use hashconsing::term::ActualTerm;
use hashconsing::HConsed;
use hashconsing::HConsign;
use std::cmp::Ordering;
use std::collections::hash_map::DefaultHasher;
use std::collections::BTreeSet;
use std::collections::HashSet;
use std::hash::Hash;
use std::hash::Hasher;

fn hash_of<T: Hash>(value: &T) -> u64 {
    let mut hasher = DefaultHasher::new();
    value.hash(&mut hasher);
    hasher.finish()
}

fn three() -> (HConsed<ActualTerm<String>>, HConsed<ActualTerm<String>>, HConsed<ActualTerm<String>>) {
    let mut consign = HConsign::empty();
    let a = consign.var("a");
    let b = consign.var("b");
    let c = consign.lam(a.clone());
    (a, b, c)
}

#[test]
fn get_borrows_the_value() {
    let (a, _, c) = three();
    assert_eq!(*a.get(), ActualTerm::Var(String::from("a")));
    assert!(matches!(c.get(), ActualTerm::Lam(inner) if inner.uid() == a.uid()));
}

#[test]
fn uid_is_given_in_order_from_zero() {
    let (a, b, c) = three();
    assert_eq!(a.uid(), 0);
    assert_eq!(b.uid(), 1);
    assert_eq!(c.uid(), 2);
}

#[test]
fn clone_shares_value_and_identifier() {
    let (a, _, _) = three();
    let twin = a.clone();
    assert_eq!(twin.uid(), a.uid());
    assert_eq!(twin.get(), a.get());
    assert!(std::ptr::eq(twin.get(), a.get()));
}

#[test]
fn clone_keeps_the_value_alive() {
    let mut consign = HConsign::empty();
    let first = consign.var("a");
    let twin = first.clone();
    drop(first);
    let again = consign.var("a");
    assert_eq!(again.uid(), twin.uid());
    assert!(std::ptr::eq(again.get(), twin.get()));
    assert_eq!(consign.len(), 1);
}

#[test]
fn handles_are_equal_iff_identifiers_are() {
    let (a, b, c) = three();
    assert!(a == a.clone());
    assert!(a != b);
    assert!(b != c);
    assert_eq!(a == b, a.uid() == b.uid());
}

#[test]
fn equality_does_not_look_at_the_value() {
    let mut left = HConsign::empty();
    let mut right = HConsign::empty();
    let a = left.var("a");
    let z = right.var("z");
    assert_eq!(a.uid(), z.uid());
    assert_ne!(a.get(), z.get());
    assert!(a == z);
    assert_eq!(hash_of(&a), hash_of(&z));
    assert_eq!(a.cmp(&z), Ordering::Equal);
}

#[test]
fn handles_are_ordered_by_identifier() {
    let (a, b, c) = three();
    assert!(a < b);
    assert!(b < c);
    assert!(c > a);
    assert!(a <= a.clone());
    assert!(a >= a.clone());
    assert_eq!(a.partial_cmp(&b), Some(Ordering::Less));
    assert_eq!(b.partial_cmp(&a), Some(Ordering::Greater));
    assert_eq!(a.partial_cmp(&a.clone()), Some(Ordering::Equal));
    assert_eq!(a.cmp(&b), Ordering::Less);
    assert_eq!(c.cmp(&b), Ordering::Greater);
    assert_eq!(b.cmp(&b.clone()), Ordering::Equal);
}

#[test]
fn handles_sort_by_identifier() {
    let (a, b, c) = three();
    let mut sorted = BTreeSet::new();
    sorted.insert(c.clone());
    sorted.insert(a.clone());
    sorted.insert(b.clone());
    sorted.insert(a.clone());
    let uids: Vec<u64> = sorted.iter().map(|h| h.uid()).collect();
    assert_eq!(uids, vec![0, 1, 2]);
}

#[test]
fn hash_of_a_handle_is_the_hash_of_its_identifier() {
    let (a, b, _) = three();
    let mut hasher = DefaultHasher::new();
    hasher.write_u64(a.uid());
    assert_eq!(hash_of(&a), hasher.finish());
    assert_eq!(hash_of(&a), hash_of(&a.clone()));
    assert_ne!(hash_of(&a), hash_of(&b));
}

#[test]
fn handles_work_as_keys_of_std_collections() {
    let (a, b, _) = three();
    let mut seen = HashSet::new();
    assert!(seen.insert(a.clone()));
    assert!(!seen.insert(a.clone()));
    assert!(seen.insert(b.clone()));
    assert_eq!(seen.len(), 2);
    assert!(seen.contains(&a));
}
