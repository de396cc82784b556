use sudoku_solver::availset::AvailCounter;
use sudoku_solver::availset::AvailSet;
use sudoku_solver::Val;

/// Build a set holding exactly the given digits.
fn set_of(digits: &[u8]) -> AvailSet {
    let mut set = AvailSet::none();
    for &d in digits {
        set.add(Val::new(d));
    }
    set
}

#[test]
fn avail_counter_to_avail() {
    let cases: &[(Vec<u8>, AvailSet)] = &[
        (
            vec![0, 1, 0, 3, 4, 5, 0, 0, 1],
            set_of(&[2, 4, 5, 6, 9]),
        ),
        (
            vec![1, 9, 3, 8, 4, 1, 2, 5, 9],
            set_of(&[1, 2, 3, 4, 5, 6, 7, 8, 9]),
        ),
        (vec![0, 0, 0, 0, 0, 0, 0, 0, 0], set_of(&[])),
    ];
    for (input, expected) in cases {
        let counter = AvailCounter::from_counts(input.clone()).unwrap();
        let result = counter.avail();
        assert_eq!(result, *expected);
    }
}

#[test]
fn availset_iter_size() {
    let mut iter = set_of(&[2, 3, 5, 8]).iter();
    assert_eq!(iter.len(), 4);
    assert_eq!(iter.next(), Some(Val::new(2)));
    assert_eq!(iter.len(), 3);
    assert_eq!(iter.next_back(), Some(Val::new(8)));
    assert_eq!(iter.len(), 2);
    assert_eq!(iter.next(), Some(Val::new(3)));
    assert_eq!(iter.len(), 1);
    assert_eq!(iter.next(), Some(Val::new(5)));
    assert_eq!(iter.len(), 0);
    assert_eq!(iter.next(), None);
}

#[test]
fn only_is_single() {
    for d in 1..=9u8 {
        let only = AvailSet::only(Val::new(d));
        assert!(only.contains(Val::new(d)));
        assert!(only.is_single());
        assert_eq!(only.get_single(), Some(Val::new(d)));
        assert_eq!(only.len(), 1);
    }
}

#[test]
fn all_minus_only() {
    for d in 1..=9u8 {
        let rest = AvailSet::all().difference(AvailSet::only(Val::new(d)));
        assert_eq!(rest.len(), 8);
        assert!(!rest.contains(Val::new(d)));
        for other in 1..=9u8 {
            if other != d {
                assert!(rest.contains(Val::new(other)));
            }
        }
    }
}

#[test]
fn complement_laws() {
    let samples = [
        set_of(&[]),
        set_of(&[1]),
        set_of(&[2, 3, 5, 8]),
        set_of(&[1, 2, 3, 4, 5, 6, 7, 8, 9]),
        set_of(&[9]),
        set_of(&[1, 9]),
    ];
    for s in samples {
        assert_eq!(s.complement().complement(), s);
        assert_eq!(s.union(s.complement()), AvailSet::all());
        assert_eq!(s.intersect(s.complement()), AvailSet::none());
    }
}

#[test]
fn add_remove_membership() {
    let mut set = AvailSet::none();
    assert!(set.is_empty());
    assert!(set.add(Val::new(4)));
    assert!(!set.add(Val::new(4)));
    assert!(set.contains(Val::new(4)));
    assert!(set.remove(Val::new(4)));
    assert!(!set.remove(Val::new(4)));
    assert!(set.is_empty());
}

#[test]
fn retain_keeps_matching() {
    let mut set = set_of(&[1, 2, 3, 4, 5, 6, 7, 8, 9]);
    set.retain(|v: Val| v.val() % 2 == 0);
    assert_eq!(set, set_of(&[2, 4, 6, 8]));
}

#[test]
fn iterator_ascending_and_descending() {
    let set = set_of(&[1, 4, 7, 9]);
    let mut forward = set.iter();
    let mut collected = Vec::new();
    while let Some(v) = forward.next() {
        collected.push(v.val());
    }
    assert_eq!(collected, vec![1, 4, 7, 9]);
    let mut backward = set.iter();
    let mut reversed = Vec::new();
    while let Some(v) = backward.next_back() {
        reversed.push(v.val());
    }
    assert_eq!(reversed, vec![9, 7, 4, 1]);
}

#[test]
fn counter_remove_and_remove_except() {
    let mut counter = AvailCounter::with_count(2);
    assert_eq!(counter.remove(Val::new(3)), Some(1));
    assert_eq!(counter.remove(Val::new(3)), Some(0));
    assert_eq!(counter.remove(Val::new(3)), None);
    counter.remove_except(Val::new(5));
    let counts = counter.counts();
    assert_eq!(counts, vec![1, 1, 0, 1, 2, 1, 1, 1, 1]);
}

#[test]
fn counter_add_and_singles() {
    let mut counter = AvailCounter::new();
    counter.add(Val::new(2));
    counter.add(Val::new(2));
    counter.add(Val::new(7));
    let singles = counter.singles();
    assert_eq!(singles, set_of(&[7]));
    assert_eq!(counter.avail(), set_of(&[2, 7]));
}
