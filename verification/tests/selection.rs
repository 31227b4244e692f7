use rust_helpers::select;

#[test]
fn select_reads_in_the_order_of_the_indices() {
    let source = vec![10u32, 20, 30, 40];
    assert_eq!(select(&source, &vec![3, 0, 0, 2]), vec![40, 10, 10, 30]);
    assert_eq!(select(&source, &vec![1]), vec![20]);
}

#[test]
fn select_of_no_indices_is_empty() {
    let source = vec![1u8, 2];
    assert!(select(&source, &vec![]).is_empty());
    let nothing: Vec<u8> = vec![];
    assert!(select(&nothing, &vec![]).is_empty());
}

#[test]
fn select_clones_what_it_reads() {
    let source = vec![String::from("left"), String::from("right")];
    let mut picked = select(&source, &vec![1, 1, 0]);
    assert_eq!(
        picked,
        vec![String::from("right"), String::from("right"), String::from("left")]
    );
    picked[0].push('!');
    assert_eq!(source[1], "right");
    assert_eq!(picked[1], "right");
}
