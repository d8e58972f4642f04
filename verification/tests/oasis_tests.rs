use puzzles::oasis::{parse_histories, sum_backwards_extrapolations, sum_extrapolations, History};

fn test_data() -> String {
    "0 3 6 9 12 15
1 3 6 10 15 21
10 13 16 21 30 45"
        .to_string()
}

#[test]
fn test_parse_histories() {
    let test_data = test_data();
    let histories = parse_histories(&test_data).unwrap();

    assert_eq!(
        histories,
        vec![
            History::new(vec![0, 3, 6, 9, 12, 15]),
            History::new(vec![1, 3, 6, 10, 15, 21]),
            History::new(vec![10, 13, 16, 21, 30, 45]),
        ]
    );
}

#[test]
fn test_extrapolate() {
    let history = History::new(vec![0, 3, 6, 9, 12, 15]);
    assert_eq!(history.extrapolate(), Some(18));

    let history = History::new(vec![1, 3, 6, 10, 15, 21]);
    assert_eq!(history.extrapolate(), Some(28));

    let history = History::new(vec![10, 13, 16, 21, 30, 45]);
    assert_eq!(history.extrapolate(), Some(68));
}

#[test]
fn test_sum_extrapolations() {
    let test_data = test_data();
    let histories = parse_histories(&test_data).unwrap();

    assert_eq!(sum_extrapolations(histories), 114)
}

#[test]
fn test_sum_backwards_extrapolations() {
    let test_data = test_data();
    let histories = parse_histories(&test_data).unwrap();

    assert_eq!(sum_backwards_extrapolations(histories), 2)
}

#[test]
fn test_extrapolate_backwards_single() {
    let history = History::new(vec![10, 13, 16, 21, 30, 45]);
    assert_eq!(history.extrapolate_backwards(), Some(5));
}

#[test]
fn test_extrapolate_empty() {
    let history = History::new(vec![]);
    assert_eq!(history.extrapolate(), None);
    assert_eq!(history.extrapolate_backwards(), None);
}

#[test]
fn test_all_zero() {
    assert!(History::new(vec![0, 0, 0]).all_zero());
    assert!(!History::new(vec![0, 1, 0]).all_zero());
    assert!(History::new(vec![]).all_zero());
}

#[test]
fn test_parse_histories_bad_number() {
    assert!(parse_histories("1 2 x").is_none());
}
