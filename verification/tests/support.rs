use adrenaline::support::find_eight_consecutive_nulls;

#[test]
fn no_nulls_at_all() {
    let data = vec![1u8, 2, 3, 4, 5, 6, 7, 8, 9];
    assert_eq!(find_eight_consecutive_nulls(&data), None);
}

#[test]
fn too_short_a_run_is_not_found() {
    let mut data = vec![1u8];
    data.extend_from_slice(&[0u8; 7]);
    data.push(1);
    assert_eq!(find_eight_consecutive_nulls(&data), None);
}

#[test]
fn run_at_the_start() {
    let mut data = vec![0u8; 8];
    data.push(5);
    assert_eq!(find_eight_consecutive_nulls(&data), Some(0));
}

#[test]
fn run_in_the_middle() {
    let mut data = vec![7u8, 0, 0, 0];
    data.extend_from_slice(&[0u8; 8]);
    data.push(7);
    // The run of eleven zeros starts right after the leading 7.
    assert_eq!(find_eight_consecutive_nulls(&data), Some(1));
}

#[test]
fn first_of_two_runs_wins() {
    let mut data = vec![1u8, 1];
    data.extend_from_slice(&[0u8; 8]);
    data.push(1);
    data.extend_from_slice(&[0u8; 8]);
    assert_eq!(find_eight_consecutive_nulls(&data), Some(2));
}

#[test]
fn exactly_eight_at_the_end() {
    let mut data = vec![9u8, 9];
    data.extend_from_slice(&[0u8; 8]);
    assert_eq!(find_eight_consecutive_nulls(&data), Some(2));
}

#[test]
fn empty_input_has_no_run() {
    assert_eq!(find_eight_consecutive_nulls(&Vec::new()), None);
}
