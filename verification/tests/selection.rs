use quizdrill::selection::{parse_usize_token, to_number_vec, validate_numbers};

#[test]
fn numbers_split_on_whitespace() {
    assert_eq!(to_number_vec("1 2 3"), vec![1, 2, 3]);
    assert_eq!(to_number_vec("  7   4  "), vec![7, 4]);
    assert_eq!(to_number_vec("1\t2\n3"), vec![1, 2, 3]);
}

#[test]
fn unparseable_tokens_are_dropped() {
    assert_eq!(to_number_vec("7 nope 4x +5"), vec![7, 5]);
    assert_eq!(to_number_vec("one two"), Vec::<usize>::new());
    assert_eq!(to_number_vec("-3 2"), vec![2]);
}

#[test]
fn empty_and_blank_lines_give_nothing() {
    assert_eq!(to_number_vec(""), Vec::<usize>::new());
    assert_eq!(to_number_vec("   \t  "), Vec::<usize>::new());
}

#[test]
fn leading_zeros_and_plus_are_accepted() {
    assert_eq!(to_number_vec("007"), vec![7]);
    assert_eq!(to_number_vec("+12"), vec![12]);
}

#[test]
fn oversized_numbers_are_dropped() {
    assert_eq!(
        to_number_vec("99999999999999999999999999 3"),
        vec![3]
    );
}

#[test]
fn token_parsing() {
    assert_eq!(parse_usize_token(&vec!['4', '2']), Some(42));
    assert_eq!(parse_usize_token(&vec!['+', '1']), Some(1));
    assert_eq!(parse_usize_token(&vec!['+']), None);
    assert_eq!(parse_usize_token(&Vec::new()), None);
    assert_eq!(parse_usize_token(&vec!['4', 'x']), None);
    assert_eq!(parse_usize_token(&vec!['0']), Some(0));
}

#[test]
fn validation_accepts_in_range_selections() {
    assert!(validate_numbers(&vec![1, 2, 3], 1, 3).is_ok());
    assert!(validate_numbers(&Vec::new(), 1, 3).is_ok());
}

#[test]
fn validation_lists_offending_numbers_in_order() {
    match validate_numbers(&vec![0, 2, 9, 1, 7], 1, 3) {
        Err(bad) => assert_eq!(bad, vec![0, 9, 7]),
        Ok(_) => panic!("expected a rejection"),
    }
}
