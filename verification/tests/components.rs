//! Unit tests of the verified building blocks.

use rusty_tokey::aggregate::aggregate;
use rusty_tokey::heap::bytes_cmp;
use rusty_tokey::heap::HeapEntry;
use rusty_tokey::heap::PairHeap;
use rusty_tokey::interner::Interner;
use rusty_tokey::maps::ByteCounts;
use rusty_tokey::maps::PairCounts;
use rusty_tokey::maps::TokCounts;
use rusty_tokey::merge::rewrite_token;
use rusty_tokey::pair_toks::PairToks;

fn entry(count: usize, left: &[u8], right: &[u8]) -> HeapEntry {
    HeapEntry { count, left: left.to_vec(), right: right.to_vec() }
}

#[test]
fn interner_reuses_ids() {
    let mut interner = Interner::new();
    let a = interner.intern(b"ab".to_vec());
    let b = interner.intern(b"cd".to_vec());
    let a2 = interner.intern(b"ab".to_vec());
    assert_eq!(a, a2);
    assert_ne!(a, b);
    assert_eq!(interner.get_bytes(a).clone(), b"ab".to_vec());
    assert_eq!(interner.get_bytes(b).clone(), b"cd".to_vec());
    assert_eq!(interner.len(), 2);
}

#[test]
fn heap_ranks_by_count_then_smaller_pair() {
    let mut heap = PairHeap::new();
    heap.push(entry(1, b"b", b"b"));
    heap.push(entry(2, b"z", b"z"));
    heap.push(entry(2, b"a", b"a"));
    let first = heap.pop_max().unwrap();
    assert_eq!((first.count, first.left, first.right), (2, b"a".to_vec(), b"a".to_vec()));
    let second = heap.pop_max().unwrap();
    assert_eq!((second.count, second.left, second.right), (2, b"z".to_vec(), b"z".to_vec()));
    let third = heap.pop_max().unwrap();
    assert_eq!(third.count, 1);
    assert!(heap.pop_max().is_none());
}

#[test]
fn bytes_cmp_is_lexicographic() {
    assert_eq!(bytes_cmp(&b"a".to_vec(), &b"ab".to_vec()), 0);
    assert_eq!(bytes_cmp(&b"ab".to_vec(), &b"ab".to_vec()), 1);
    assert_eq!(bytes_cmp(&b"b".to_vec(), &b"ab".to_vec()), 2);
    assert_eq!(bytes_cmp(&b"".to_vec(), &b"a".to_vec()), 0);
}

#[test]
fn rewrite_is_greedy_left_to_right() {
    assert_eq!(rewrite_token(&vec![1, 1, 1], (1, 1), 9), vec![9, 1]);
    assert_eq!(rewrite_token(&vec![1, 2, 1, 2], (1, 2), 7), vec![7, 7]);
    assert_eq!(rewrite_token(&vec![3, 4], (9, 9), 5), vec![3, 4]);
    assert_eq!(rewrite_token(&Vec::new(), (1, 2), 3), Vec::new());
}

#[test]
fn tok_counts_add_and_remove() {
    let mut tc = TokCounts::new();
    tc.add(vec![1, 2], 3);
    tc.add(vec![1, 2], 2);
    tc.add(vec![7], 1);
    assert_eq!(tc.get(&vec![1, 2]), 5);
    assert_eq!(tc.get(&vec![7]), 1);
    assert_eq!(tc.get(&vec![9]), 0);
    tc.sub_or_remove(&vec![1, 2], 5);
    assert_eq!(tc.get(&vec![1, 2]), 0);
    assert_eq!(tc.num_entries(), 1);
}

#[test]
fn pair_counts_saturate_and_vanish() {
    let mut pc = PairCounts::new();
    assert_eq!(pc.add_saturating((1, 2), 4), 4);
    assert_eq!(pc.add_saturating((1, 2), 1), 5);
    assert_eq!(pc.sub_or_remove((1, 2), 9), 0);
    assert_eq!(pc.get((1, 2)), 0);
    assert_eq!(pc.sub_or_remove((3, 4), 1), 0);
}

#[test]
fn pair_toks_record_and_strike_members() {
    let mut pt = PairToks::new();
    pt.insert((1, 2), vec![1, 2, 3]);
    pt.insert((1, 2), vec![1, 2, 3]);
    pt.insert((1, 2), vec![4, 1, 2]);
    pt.insert((2, 3), vec![1, 2, 3]);
    let mut set = pt.get_list((1, 2));
    set.sort();
    assert_eq!(set, vec![vec![1, 2, 3], vec![4, 1, 2]]);
    pt.remove_tok((1, 2), &vec![1, 2, 3]);
    assert_eq!(pt.get_list((1, 2)), vec![vec![4, 1, 2]]);
    assert_eq!(pt.get_list((2, 3)), vec![vec![1, 2, 3]]);
    assert_eq!(pt.get_list((9, 9)), Vec::<Vec<usize>>::new());
}

#[test]
fn aggregate_refuses_overflowing_totals() {
    let mut a = ByteCounts::new();
    a.add(b"x".to_vec(), usize::MAX);
    let mut b = ByteCounts::new();
    b.add(b"y".to_vec(), 1);
    assert!(aggregate(&vec![a, b]).is_none());
}

#[test]
fn aggregate_adds_counts_pointwise() {
    let mut a = ByteCounts::new();
    a.add(b"x".to_vec(), 2);
    a.add(b"y".to_vec(), 1);
    let mut b = ByteCounts::new();
    b.add(b"y".to_vec(), 4);
    let g = aggregate(&vec![a, b]).unwrap();
    assert_eq!(g.get(&b"x".to_vec()), 2);
    assert_eq!(g.get(&b"y".to_vec()), 5);
    assert_eq!(g.get(&b"z".to_vec()), 0);
}
