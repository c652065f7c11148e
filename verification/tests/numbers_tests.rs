use net15::numbers::Numbers;

#[test]
fn insert_remove_and_emptiness() {
    let mut s = Numbers::new();
    assert!(s.is_empty());
    s.insert(4);
    s.insert(1);
    s.insert(9);
    assert!(!s.is_empty());
    assert_eq!(s.elements(), vec![1, 4, 9]);
    assert!(s.remove(4));
    assert!(!s.remove(4));
    assert_eq!(s.elements(), vec![1, 9]);
}

#[test]
fn choose_n_counts_pairs() {
    // C(5, 2) = 10 subsets, each of two members drawn from the set, all
    // distinct.
    let mut s = Numbers::new();
    let mut i: u64 = 1;
    while i <= 5 {
        s.insert(i);
        i += 1;
    }
    let subs = s.choose_n(2);
    assert_eq!(subs.len(), 10);
    let mut seen: Vec<Vec<u64>> = Vec::new();
    for t in &subs {
        let v = t.elements();
        assert_eq!(v.len(), 2);
        assert!(v[0] < v[1]);
        assert!(v.iter().all(|x| (1..=5).contains(x)));
        assert!(!seen.contains(&v));
        seen.push(v);
    }
}

#[test]
fn choose_n_counts_triples_of_nine() {
    // C(9, 3) = 84
    let mut s = Numbers::new();
    let mut i: u64 = 1;
    while i <= 9 {
        s.insert(i);
        i += 1;
    }
    assert_eq!(s.choose_n(3).len(), 84);
}

#[test]
fn choose_n_edges() {
    let mut s = Numbers::new();
    s.insert(2);
    s.insert(7);
    assert_eq!(s.choose_n(0).len(), 0);
    assert_eq!(s.choose_n(3).len(), 0);
    let all = s.choose_n(2);
    assert_eq!(all.len(), 1);
    assert_eq!(all[0].elements(), vec![2, 7]);
}

#[test]
fn won_detects_triples() {
    let mut s = Numbers::new();
    s.insert(9);
    s.insert(5);
    s.insert(1);
    let w = s.won().expect("1 + 5 + 9 wins");
    assert_eq!(w.elements(), vec![1, 5, 9]);
    let mut t = Numbers::new();
    t.insert(1);
    t.insert(2);
    t.insert(4);
    assert!(t.won().is_none());
}

#[test]
fn won_on_larger_pool() {
    // among the triples of {2, 3, 4, 8} only 3 + 4 + 8 reaches 15
    let mut s = Numbers::new();
    for i in [2u64, 3, 4, 8] {
        s.insert(i);
    }
    let w = s.won().expect("3 + 4 + 8 wins");
    assert_eq!(w.elements(), vec![3, 4, 8]);
}

#[test]
fn won_needs_three_numbers() {
    let mut s = Numbers::new();
    s.insert(7);
    s.insert(8);
    assert!(s.won().is_none());
}

#[test]
fn random_choice_of_singleton() {
    let mut s = Numbers::new();
    s.insert(7);
    assert_eq!(s.random_choice(), 7);
}

#[test]
fn random_choice_stays_inside() {
    let mut s = Numbers::new();
    s.insert(3);
    s.insert(6);
    s.insert(8);
    let mut i: u32 = 0;
    while i < 50 {
        let c = s.random_choice();
        assert!(c == 3 || c == 6 || c == 8);
        i += 1;
    }
}
