use rust_helpers::{factorial_upper_bound, generate_permutations, inner_generate_permutations};

fn factorial(n: usize) -> usize {
    let mut value: usize = 1;
    for i in 1..=n {
        value *= i;
    }
    value
}

#[test]
fn permutations_of_three() {
    let table = generate_permutations(3);
    assert_eq!(table.len(), 6);
    for row in table.iter() {
        let mut sorted = row.clone();
        sorted.sort();
        assert_eq!(sorted, vec![0, 1, 2]);
    }
    for i in 0..table.len() {
        for j in 0..i {
            assert_ne!(table[i], table[j]);
        }
    }
}

#[test]
fn permutations_come_in_exchange_order() {
    assert_eq!(generate_permutations(1), vec![vec![0]]);
    assert_eq!(generate_permutations(2), vec![vec![0, 1], vec![1, 0]]);
    assert_eq!(
        generate_permutations(3),
        vec![
            vec![0, 1, 2],
            vec![1, 0, 2],
            vec![2, 0, 1],
            vec![0, 2, 1],
            vec![1, 2, 0],
            vec![2, 1, 0]
        ]
    );
    assert_eq!(
        generate_permutations(4),
        vec![
            vec![0, 1, 2, 3],
            vec![1, 0, 2, 3],
            vec![2, 0, 1, 3],
            vec![0, 2, 1, 3],
            vec![1, 2, 0, 3],
            vec![2, 1, 0, 3],
            vec![3, 1, 0, 2],
            vec![1, 3, 0, 2],
            vec![0, 3, 1, 2],
            vec![3, 0, 1, 2],
            vec![1, 0, 3, 2],
            vec![0, 1, 3, 2],
            vec![0, 2, 3, 1],
            vec![2, 0, 3, 1],
            vec![3, 0, 2, 1],
            vec![0, 3, 2, 1],
            vec![2, 3, 0, 1],
            vec![3, 2, 0, 1],
            vec![3, 2, 1, 0],
            vec![2, 3, 1, 0],
            vec![1, 3, 2, 0],
            vec![3, 1, 2, 0],
            vec![2, 1, 3, 0],
            vec![1, 2, 3, 0]
        ]
    );
}

#[test]
fn permutations_are_all_orderings_once() {
    for n in 1..8usize {
        let table = generate_permutations(n);
        assert_eq!(table.len(), factorial(n));
        let identity: Vec<usize> = (0..n).collect();
        for row in table.iter() {
            let mut sorted = row.clone();
            sorted.sort();
            assert_eq!(sorted, identity);
        }
        let mut seen = table.clone();
        seen.sort();
        seen.dedup();
        assert_eq!(seen.len(), table.len());
    }
}

#[test]
fn neighbours_differ_by_one_exchange() {
    for n in 2..7usize {
        let table = generate_permutations(n);
        for i in 1..table.len() {
            let moved = (0..n).filter(|&p| table[i][p] != table[i - 1][p]).count();
            assert_eq!(moved, 2);
        }
    }
}

#[test]
fn a_run_over_part_of_a_row_leaves_the_rest() {
    let mut row = vec![5, 6, 7, 8];
    let mut output = vec![vec![1]];
    inner_generate_permutations(2, &mut row, &mut output);
    assert_eq!(output, vec![vec![1], vec![5, 6, 7, 8], vec![6, 5, 7, 8]]);
    assert_eq!(row, vec![6, 5, 7, 8]);

    let mut row = vec![5, 6, 7, 8];
    let mut output = Vec::new();
    inner_generate_permutations(3, &mut row, &mut output);
    assert_eq!(output.len(), 6);
    assert_eq!(row, vec![7, 6, 5, 8]);

    let mut row = vec![5, 6, 7, 8];
    let mut output = Vec::new();
    inner_generate_permutations(4, &mut row, &mut output);
    assert_eq!(output.len(), 24);
    assert_eq!(row, vec![6, 7, 8, 5]);
}

#[test]
fn factorial_bound_is_the_factorial_where_it_fits() {
    assert_eq!(factorial_upper_bound(0), 1);
    assert_eq!(factorial_upper_bound(1), 1);
    assert_eq!(factorial_upper_bound(2), 2);
    assert_eq!(factorial_upper_bound(5), 120);
    assert_eq!(factorial_upper_bound(10), 3628800);
    assert_eq!(factorial_upper_bound(12), 479001600);
    for n in 0..13usize {
        assert!(factorial_upper_bound(n) >= factorial(n));
    }
}

#[test]
fn factorial_bound_stops_at_the_largest_word() {
    assert_eq!(factorial_upper_bound(40), usize::MAX);
    assert_eq!(factorial_upper_bound(usize::MAX), usize::MAX);
}
