use rust_helpers::{inner_lattice, lattice};

#[test]
fn lattice_two_by_two() {
    assert_eq!(lattice(2, 2), vec![vec![0, 0], vec![0, 1], vec![1, 0], vec![1, 1]]);
}

#[test]
fn lattice_last_coordinate_turns_fastest() {
    assert_eq!(
        lattice(2, 3),
        vec![
            vec![0, 0],
            vec![0, 1],
            vec![0, 2],
            vec![1, 0],
            vec![1, 1],
            vec![1, 2],
            vec![2, 0],
            vec![2, 1],
            vec![2, 2]
        ]
    );
    assert_eq!(lattice(1, 4), vec![vec![0], vec![1], vec![2], vec![3]]);
}

#[test]
fn lattice_without_axes_is_one_empty_point() {
    let none: Vec<u32> = vec![];
    assert_eq!(lattice(0, 5), vec![none.clone()]);
    assert_eq!(lattice(0, 0), vec![none]);
}

#[test]
fn lattice_without_values_is_empty() {
    assert!(lattice(1, 0).is_empty());
    assert!(lattice(3, 0).is_empty());
}

#[test]
fn lattice_size_range_and_order() {
    for dimension in 0..5usize {
        for depth in 0..4u32 {
            let table = lattice(dimension, depth);
            assert_eq!(table.len(), (depth as usize).pow(dimension as u32));
            for row in table.iter() {
                assert_eq!(row.len(), dimension);
                for entry in row.iter() {
                    assert!(*entry < depth);
                }
            }
            for i in 1..table.len() {
                assert!(table[i - 1] < table[i]);
            }
        }
    }
}

#[test]
fn lattice_holds_every_grid_point() {
    let table = lattice(3, 4);
    for a in 0..4u32 {
        for b in 0..4u32 {
            for c in 0..4u32 {
                assert_eq!(table[(a * 16 + b * 4 + c) as usize], vec![a, b, c]);
            }
        }
    }
}

#[test]
fn lattice_from_a_prefix() {
    let mut out = vec![vec![9u32]];
    inner_lattice(3, 2, vec![1, 0], &mut out);
    assert_eq!(out, vec![vec![9], vec![1, 0, 0], vec![1, 0, 1]]);
    let mut out: Vec<Vec<u32>> = Vec::new();
    inner_lattice(2, 7, vec![3, 4], &mut out);
    assert_eq!(out, vec![vec![3, 4]]);
}
