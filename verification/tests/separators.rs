use rust_helpers::Intersperse;

#[test]
fn test_intersperse_while() {
    let mut i = 0;
    let mut spacer = Intersperse::new();
    while i < 10 {
        if spacer.separator_due() {
            println!("moo");
        }
        println!("{}", i);
        i += 1;
    }
}

#[test]
fn test_intersperse_for() {
    let mut spacer = Intersperse::new();
    let mut line = String::new();
    for i in 0..10 {
        if spacer.separator_due() {
            line.push_str(",");
        }
        line.push_str(&format!("{}", i));
    }
    println!("{}", line);
}

#[test]
fn separators_stand_between_rounds_only() {
    let mut spacer = Intersperse::new();
    let mut line = String::new();
    for i in 0..10 {
        if spacer.separator_due() {
            line.push_str(",");
        }
        line.push_str(&format!("{}", i));
    }
    assert_eq!(line, "0,1,2,3,4,5,6,7,8,9");
}

#[test]
fn no_separator_before_the_first_round() {
    let mut spacer = Intersperse::new();
    assert!(!spacer.separator_due());
    assert!(spacer.separator_due());
    assert!(spacer.separator_due());
    let mut other = Intersperse::new();
    assert!(!other.separator_due());
}
