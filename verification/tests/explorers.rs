use rust_helpers::{InvalidArgument, ListExplorer};

fn pull(explorer: &mut ListExplorer<u32>, pulls: usize) -> Vec<Vec<u32>> {
    let mut out = Vec::new();
    for _ in 0..pulls {
        out.push(explorer.next());
    }
    out
}

#[test]
fn test_list_explorer() {
    let mut count = 0;
    let mut explorer = ListExplorer::new((0..16).collect::<Vec<u32>>(), vec![1], Some(3)).unwrap();
    loop {
        let i = explorer.next();
        if count == 32 {
            break;
        }
        println!("{:?}", i);
        count += 1;
    }
    assert_eq!(count, 32);
}

#[test]
fn explorer_with_step_three_over_sixteen() {
    let mut explorer = ListExplorer::new((0..16).collect::<Vec<u32>>(), vec![1], Some(3)).unwrap();
    let expected: Vec<Vec<u32>> = vec![
        vec![1],
        vec![4],
        vec![7],
        vec![10],
        vec![13],
        vec![0, 0],
        vec![3, 0],
        vec![6, 0],
        vec![9, 0],
        vec![12, 0],
        vec![15, 0],
        vec![2, 1],
        vec![5, 1],
        vec![8, 1],
        vec![11, 1],
        vec![14, 1],
        vec![1, 2],
        vec![4, 2],
        vec![7, 2],
        vec![10, 2],
        vec![13, 2],
        vec![0, 3],
        vec![3, 3],
        vec![6, 3],
        vec![9, 3],
        vec![12, 3],
        vec![15, 3],
        vec![2, 4],
        vec![5, 4],
        vec![8, 4],
        vec![11, 4],
        vec![14, 4],
    ];
    assert_eq!(pull(&mut explorer, 32), expected);
}

#[test]
fn explorer_over_two_letters() {
    let mut explorer = ListExplorer::new(vec!["a", "b"], vec![0], Some(1)).unwrap();
    assert_eq!(explorer.next(), vec!["a"]);
    assert_eq!(explorer.next(), vec!["b"]);
    assert_eq!(explorer.next(), vec!["a", "a"]);
    assert_eq!(explorer.next(), vec!["b", "a"]);
    assert_eq!(explorer.next(), vec!["a", "b"]);
    assert_eq!(explorer.next(), vec!["b", "b"]);
    assert_eq!(explorer.next(), vec!["a", "a", "a"]);
    assert_eq!(explorer.next(), vec!["b", "a", "a"]);
}

#[test]
fn explorer_step_defaults_to_one() {
    let mut explorer = ListExplorer::new(vec![0u32, 1], vec![0], None).unwrap();
    assert_eq!(pull(&mut explorer, 4), vec![vec![0], vec![1], vec![0, 0], vec![1, 0]]);
}

#[test]
fn explorer_reads_out_owned_options() {
    let options = vec![String::from("x"), String::from("y"), String::from("z")];
    let mut explorer = ListExplorer::new(options, vec![2, 0, 1], None).unwrap();
    assert_eq!(
        explorer.next(),
        vec![String::from("z"), String::from("x"), String::from("y")]
    );
    assert_eq!(
        explorer.next(),
        vec![String::from("x"), String::from("y"), String::from("y")]
    );
}

#[test]
fn explorer_counts_through_a_length_then_grows() {
    for base in 1..5u32 {
        for len in 0..4usize {
            let mut explorer =
                ListExplorer::new((0..base).collect::<Vec<u32>>(), vec![0; len], Some(1)).unwrap();
            let rows = (base as usize).pow(len as u32);
            for number in 0..rows {
                let row = explorer.next();
                assert_eq!(row.len(), len);
                let mut value = 0usize;
                for digit in row.iter().rev() {
                    assert!(*digit < base);
                    value = value * base as usize + *digit as usize;
                }
                assert_eq!(value, number);
            }
            assert_eq!(explorer.next(), vec![0u32; len + 1]);
        }
    }
}

#[test]
fn explorer_three_by_three() {
    let mut explorer = ListExplorer::new(vec![0u32, 1, 2], vec![0, 0], Some(1)).unwrap();
    assert_eq!(
        pull(&mut explorer, 10),
        vec![
            vec![0, 0],
            vec![1, 0],
            vec![2, 0],
            vec![0, 1],
            vec![1, 1],
            vec![2, 1],
            vec![0, 2],
            vec![1, 2],
            vec![2, 2],
            vec![0, 0, 0]
        ]
    );
}

#[test]
fn explorer_carries_through_several_digits() {
    let mut explorer = ListExplorer::new(vec![0u32, 1, 2], vec![2, 1], Some(7)).unwrap();
    assert_eq!(
        pull(&mut explorer, 6),
        vec![
            vec![2, 1],
            vec![0, 1, 0],
            vec![1, 0, 1],
            vec![2, 2, 1],
            vec![0, 2, 2],
            vec![1, 1, 0, 0]
        ]
    );
    let mut explorer = ListExplorer::new(vec![0u32, 1], vec![1, 1], Some(5)).unwrap();
    assert_eq!(
        pull(&mut explorer, 5),
        vec![vec![1, 1], vec![0, 0, 1], vec![1, 0, 0, 0], vec![0, 1, 1, 0], vec![1, 1, 0, 1]]
    );
}

#[test]
fn explorer_from_no_digits() {
    let mut explorer = ListExplorer::new((0..10).collect::<Vec<u32>>(), vec![], Some(1)).unwrap();
    let mut expected: Vec<Vec<u32>> = vec![vec![]];
    for digit in 0..10u32 {
        expected.push(vec![digit]);
    }
    expected.push(vec![0, 0]);
    assert_eq!(pull(&mut explorer, 12), expected);
}

#[test]
fn explorer_over_one_option_only_grows() {
    let mut explorer = ListExplorer::new(vec![7u32], vec![], Some(2)).unwrap();
    assert_eq!(
        pull(&mut explorer, 4),
        vec![vec![], vec![7, 7], vec![7, 7, 7, 7], vec![7, 7, 7, 7, 7, 7]]
    );
}

fn position_of(row: &[u32], base: u128) -> u128 {
    let mut position = 0u128;
    for digit in row.iter().rev() {
        position = position * base + *digit as u128 + 1;
    }
    position
}

fn row_at(position: u128, base: u128) -> Vec<u32> {
    let mut row = Vec::new();
    let mut rest = position;
    while rest > 0 {
        row.push(((rest - 1) % base) as u32);
        rest = (rest - 1) / base;
    }
    row
}

#[test]
fn explorer_moves_on_by_its_step_in_position() {
    let cases: Vec<(u32, Vec<usize>, usize)> = vec![
        (2, vec![0], 1),
        (2, vec![1], usize::MAX),
        (16, vec![15], usize::MAX),
        (3, vec![2, 2], usize::MAX),
        (1, vec![0, 0, 0], 5),
        (7, vec![], 1000),
        (10, vec![9, 9, 9], 1),
        (5, vec![4, 0, 3], 123456),
    ];
    for (base, start, step) in cases {
        let first: Vec<u32> = start.iter().map(|digit| *digit as u32).collect();
        let mut explorer =
            ListExplorer::new((0..base).collect::<Vec<u32>>(), start, Some(step)).unwrap();
        let mut position = position_of(&first, base as u128);
        for _ in 0..5 {
            let row = explorer.next();
            assert!(row.iter().all(|digit| *digit < base));
            assert_eq!(row, row_at(position, base as u128));
            assert_eq!(position_of(&row, base as u128), position);
            position += step as u128;
        }
    }
}

#[test]
fn explorer_takes_the_largest_step() {
    let mut explorer = ListExplorer::new(vec![0u32, 1], vec![1], Some(usize::MAX)).unwrap();
    assert_eq!(explorer.next(), vec![1]);
    let mut expected = vec![0u32; usize::BITS as usize];
    expected[1] = 1;
    assert_eq!(explorer.next(), expected);
}

#[test]
fn explorer_refuses_a_step_of_zero() {
    let made = ListExplorer::new(vec![1u32, 2], vec![0], Some(0));
    assert_eq!(made.err(), Some(InvalidArgument::ZeroStep));
    let made = ListExplorer::new(Vec::<u32>::new(), vec![5], Some(0));
    assert_eq!(made.err(), Some(InvalidArgument::ZeroStep));
}

#[test]
fn explorer_refuses_an_empty_domain() {
    let made = ListExplorer::new(Vec::<u32>::new(), vec![], Some(1));
    assert_eq!(made.err(), Some(InvalidArgument::EmptyDomain));
    let made = ListExplorer::new(Vec::<u32>::new(), vec![0], None);
    assert_eq!(made.err(), Some(InvalidArgument::EmptyDomain));
}

#[test]
fn explorer_refuses_a_digit_out_of_range() {
    let made = ListExplorer::new(vec![1u32, 2], vec![0, 2], Some(1));
    assert_eq!(made.err(), Some(InvalidArgument::DigitOutOfRange));
    let made = ListExplorer::new(vec![1u32, 2], vec![1, 1], Some(1));
    assert!(made.is_ok());
}
