//! Executable tests for the left-leaning red-black tree.

use llrb::tree::LLRBTree;

#[test]
fn test1() {
    let mut t = LLRBTree::<usize, usize>::new();
    t.insert(5, 1);
    t.insert(6, 2);
    assert_eq!(1, t.search(5).unwrap());
    assert_eq!(2, t.search(6).unwrap());
    assert_eq!(None, t.search(9));
}

#[test]
fn test2() {
    let mut t = LLRBTree::<String, char>::new();
    t.insert("Foo".to_string(), 'f');
    t.insert("Bar".to_string(), 'b');
    t.insert("Quux".to_string(), 'q');
    t.insert("fooz".to_string(), 'F');
    assert_eq!('b', t.search("Bar".to_string()).unwrap());
    assert_eq!('q', t.search("Quux".to_string()).unwrap());
    assert_eq!(None, t.search("OOO".to_string()));
}

#[test]
fn search_on_empty_tree_finds_nothing() {
    let t = LLRBTree::<usize, usize>::new();
    assert_eq!(None, t.search(0));
    assert_eq!(0, t.len());
    assert_eq!(0, t.height());
}

#[test]
fn overwrite_keeps_node_count() {
    let mut t = LLRBTree::<usize, String>::new();
    t.insert(1, "a".to_string());
    assert_eq!("a".to_string(), t.search(1).unwrap());
    assert_eq!(1, t.len());
    t.insert(1, "b".to_string());
    assert_eq!("b".to_string(), t.search(1).unwrap());
    assert_eq!(1, t.len());
}

#[test]
fn repeated_overwrites_keep_the_latest_value() {
    let mut t = LLRBTree::<u64, u64>::new();
    for i in 0..10u64 {
        t.insert(7, i);
        t.insert(i, i);
    }
    assert_eq!(9, t.search(7).unwrap());
    assert_eq!(10, t.len());
}

#[test]
fn ascending_inserts_stay_balanced() {
    // the degenerate input for a plain binary search tree
    let n: usize = 1023;
    let mut t = LLRBTree::<usize, usize>::new();
    for i in 0..n {
        t.insert(i, 2 * i);
    }
    assert_eq!(n, t.len());
    // black height is at most log2(n + 1) = 10, so height is at most 20
    assert!(t.height() <= 20);
    for i in 0..n {
        assert_eq!(2 * i, t.search(i).unwrap());
    }
    assert_eq!(None, t.search(n));
}

#[test]
fn descending_inserts_stay_balanced() {
    let n: usize = 1023;
    let mut t = LLRBTree::<usize, usize>::new();
    for i in (0..n).rev() {
        t.insert(i, i + 1);
    }
    assert_eq!(n, t.len());
    assert!(t.height() <= 20);
    for i in 0..n {
        assert_eq!(i + 1, t.search(i).unwrap());
    }
}

#[test]
fn insertion_order_does_not_change_content() {
    let pairs: [(usize, usize); 7] = [(3, 30), (1, 10), (4, 40), (9, 90), (2, 20), (6, 60), (5, 50)];
    let mut forward = LLRBTree::<usize, usize>::new();
    for (k, v) in pairs.iter() {
        forward.insert(*k, *v);
    }
    let mut backward = LLRBTree::<usize, usize>::new();
    for (k, v) in pairs.iter().rev() {
        backward.insert(*k, *v);
    }
    assert_eq!(forward.len(), backward.len());
    for k in 0..11usize {
        assert_eq!(forward.search(k), backward.search(k));
    }
}

#[test]
fn string_keys_order_lexicographically() {
    let mut t = LLRBTree::<String, usize>::new();
    t.insert("pear".to_string(), 1);
    t.insert("apple".to_string(), 2);
    t.insert("peach".to_string(), 3);
    t.insert("".to_string(), 4);
    t.insert("apple".to_string(), 5);
    assert_eq!(5, t.search("apple".to_string()).unwrap());
    assert_eq!(1, t.search("pear".to_string()).unwrap());
    assert_eq!(3, t.search("peach".to_string()).unwrap());
    assert_eq!(4, t.search("".to_string()).unwrap());
    assert_eq!(None, t.search("pea".to_string()));
    assert_eq!(4, t.len());
}
