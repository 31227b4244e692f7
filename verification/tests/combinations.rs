use rust_helpers::combinator::Combinator;

fn binomial(n: usize, k: usize) -> usize {
    if k > n {
        return 0;
    }
    let mut value: usize = 1;
    for i in 0..k {
        value = value * (n - i) / (i + 1);
    }
    value
}

#[test]
fn test_combinations() {
    let mut combinator = Combinator::new();
    let combinations = combinator.combinations(3, 1);
    assert_eq!(combinations, vec![vec![0], vec![1], vec![2]]);

    let combinations = combinator.combinations(3, 2);
    assert_eq!(combinations, vec![vec![0, 1], vec![0, 2], vec![1, 2]]);

    let combinations = combinator.all_combinations(3);
    assert_eq!(
        combinations,
        vec![
            vec![],
            vec![0],
            vec![1],
            vec![2],
            vec![0, 1],
            vec![0, 2],
            vec![1, 2],
            vec![0, 1, 2]
        ]
    );
}

#[test]
fn combinations_follow_pascal_order() {
    let mut combinator = Combinator::new();
    assert_eq!(
        combinator.combinations(4, 2),
        vec![vec![0, 1], vec![0, 2], vec![1, 2], vec![0, 3], vec![1, 3], vec![2, 3]]
    );
    assert_eq!(
        combinator.combinations(5, 3),
        vec![
            vec![0, 1, 2],
            vec![0, 1, 3],
            vec![0, 2, 3],
            vec![1, 2, 3],
            vec![0, 1, 4],
            vec![0, 2, 4],
            vec![1, 2, 4],
            vec![0, 3, 4],
            vec![1, 3, 4],
            vec![2, 3, 4]
        ]
    );
}

#[test]
fn combinations_base_cases() {
    let mut combinator = Combinator::new();
    let none: Vec<usize> = vec![];
    assert_eq!(combinator.combinations(0, 0), vec![none.clone()]);
    assert_eq!(combinator.combinations(6, 0), vec![none]);
    assert_eq!(combinator.combinations(4, 4), vec![vec![0, 1, 2, 3]]);
    assert_eq!(combinator.combinations(1, 1), vec![vec![0]]);
}

#[test]
fn combinations_count_is_binomial_and_rows_ascend() {
    let mut combinator = Combinator::new();
    for n in 0..9usize {
        for k in 0..=n {
            let table = combinator.combinations(n, k);
            assert_eq!(table.len(), binomial(n, k));
            for row in table.iter() {
                assert_eq!(row.len(), k);
                for i in 0..row.len() {
                    assert!(row[i] < n);
                    if i > 0 {
                        assert!(row[i - 1] < row[i]);
                    }
                }
            }
            for i in 0..table.len() {
                for j in 0..i {
                    assert_ne!(table[i], table[j]);
                }
            }
        }
    }
}

#[test]
fn combinations_ascend_from_the_last_entry_backwards() {
    let mut combinator = Combinator::new();
    for n in 0..8usize {
        for k in 0..=n {
            let table = combinator.combinations(n, k);
            for i in 1..table.len() {
                let before: Vec<usize> = table[i - 1].iter().rev().cloned().collect();
                let after: Vec<usize> = table[i].iter().rev().cloned().collect();
                assert!(before < after);
            }
        }
    }
}

#[test]
fn combinations_hold_every_ascending_row() {
    let mut combinator = Combinator::new();
    let table = combinator.combinations(6, 3);
    for a in 0..6usize {
        for b in (a + 1)..6 {
            for c in (b + 1)..6 {
                assert!(table.contains(&vec![a, b, c]));
            }
        }
    }
}

#[test]
fn combinations_beyond_n_are_empty_and_not_remembered() {
    let mut combinator = Combinator::new();
    for (n, k) in [(0usize, 1usize), (3, 4), (3, 7), (5, 6), (2, 100)] {
        assert!(combinator.combinations(n, k).is_empty());
        assert!(!combinator.remembers(n, k));
        assert!(combinator.combinations(n, k).is_empty());
        assert!(!combinator.remembers(n, k));
    }
}

#[test]
fn combinations_remember_what_pascal_asked_for() {
    let mut combinator = Combinator::new();
    assert!(!combinator.remembers(4, 2));
    combinator.combinations(4, 2);
    let expected = [(1, 0), (1, 1), (2, 0), (2, 1), (2, 2), (3, 1), (3, 2), (4, 2)];
    for n in 0..6usize {
        for k in 0..6usize {
            assert_eq!(combinator.remembers(n, k), expected.contains(&(n, k)));
        }
    }
    assert!(!combinator.remembers_all(4));
}

#[test]
fn remembered_answers_are_repeated() {
    let mut combinator = Combinator::new();
    let first = combinator.combinations(6, 3);
    let second = combinator.combinations(6, 3);
    assert_eq!(first, second);
    let whole = combinator.all_combinations(5);
    assert_eq!(whole, combinator.all_combinations(5));
}

#[test]
fn answers_are_copies_of_the_memo() {
    let mut combinator = Combinator::new();
    let mut first = combinator.combinations(4, 2);
    first[0][0] = 99;
    first.pop();
    assert_eq!(
        combinator.combinations(4, 2),
        vec![vec![0, 1], vec![0, 2], vec![1, 2], vec![0, 3], vec![1, 3], vec![2, 3]]
    );
    let mut whole = combinator.all_combinations(2);
    whole.clear();
    assert_eq!(
        combinator.all_combinations(2),
        vec![vec![], vec![0], vec![1], vec![0, 1]]
    );
}

#[test]
fn all_combinations_join_the_sizes_in_order() {
    for n in 0..8usize {
        let mut combinator = Combinator::new();
        let whole = combinator.all_combinations(n);
        assert_eq!(whole.len(), 1usize << n);
        let mut joined: Vec<Vec<usize>> = Vec::new();
        let mut parts = Combinator::new();
        for k in 0..=n {
            joined.extend(parts.combinations(n, k));
        }
        assert_eq!(whole, joined);
    }
}

#[test]
fn all_combinations_remember_the_total_and_each_size() {
    let mut combinator = Combinator::new();
    assert!(!combinator.remembers_all(3));
    combinator.all_combinations(3);
    assert!(combinator.remembers_all(3));
    assert!(!combinator.remembers_all(2));
    for k in 0..=3usize {
        assert!(combinator.remembers(3, k));
    }
    assert!(!combinator.remembers(3, 4));
}

#[test]
fn all_combinations_of_nothing() {
    let mut combinator = Combinator::new();
    let none: Vec<usize> = vec![];
    assert_eq!(combinator.all_combinations(0), vec![none]);
}
