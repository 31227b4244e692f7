use rust_helpers::{remove_at, sample_and_consume, sample_and_pop};

#[test]
fn sample_and_pop_empties_a_list() {
    let mut x = Vec::<u32>::new();
    let mut y: Vec<u32> = vec![3];

    let mut rng = rand::thread_rng();
    assert_eq!(sample_and_pop(&mut rng, &mut x), None);
    assert_eq!(sample_and_pop(&mut rng, &mut y), Some(3));
    assert_eq!(sample_and_pop(&mut rng, &mut y), None);
}

#[test]
fn sample_and_pop_takes_each_item_once() {
    let mut rng = rand::thread_rng();
    for _ in 0..50 {
        let mut list: Vec<u32> = (0..20).collect();
        let mut taken = Vec::new();
        while let Some(item) = sample_and_pop(&mut rng, &mut list) {
            assert!(!list.contains(&item));
            taken.push(item);
            assert_eq!(taken.len() + list.len(), 20);
        }
        assert!(list.is_empty());
        taken.sort();
        assert_eq!(taken, (0..20).collect::<Vec<u32>>());
    }
}

#[test]
fn sample_and_pop_moves_the_last_item_into_the_gap() {
    let mut rng = rand::thread_rng();
    for _ in 0..50 {
        let before: Vec<u32> = vec![10, 11, 12, 13, 14];
        let mut list = before.clone();
        let item = sample_and_pop(&mut rng, &mut list).unwrap();
        let index = before.iter().position(|entry| *entry == item).unwrap();
        let mut expected = before.clone();
        expected.swap_remove(index);
        assert_eq!(list, expected);
    }
}

#[test]
fn sample_and_pop_reaches_every_place() {
    let mut rng = rand::thread_rng();
    let mut seen = [false; 4];
    for _ in 0..400 {
        let mut list: Vec<usize> = vec![0, 1, 2, 3];
        let item = sample_and_pop(&mut rng, &mut list).unwrap();
        seen[item] = true;
    }
    assert_eq!(seen, [true; 4]);
}

#[test]
fn sample_and_consume_gives_an_item_of_the_list() {
    let mut rng = rand::thread_rng();
    assert_eq!(sample_and_consume(&mut rng, Vec::<u32>::new()), None);
    assert_eq!(sample_and_consume(&mut rng, vec![8u32]), Some(8));
    for _ in 0..50 {
        let item = sample_and_consume(&mut rng, vec![4u32, 5, 6]).unwrap();
        assert!(item == 4 || item == 5 || item == 6);
    }
}

#[test]
fn remove_at_swaps_in_the_last_item() {
    let mut list = vec!['a', 'b', 'c', 'd'];
    assert_eq!(remove_at(&mut list, 1), 'b');
    assert_eq!(list, vec!['a', 'd', 'c']);
    assert_eq!(remove_at(&mut list, 2), 'c');
    assert_eq!(list, vec!['a', 'd']);
    assert_eq!(remove_at(&mut list, 0), 'a');
    assert_eq!(list, vec!['d']);
    assert_eq!(remove_at(&mut list, 0), 'd');
    assert!(list.is_empty());
}
