use typepy_stdlib::layout::{calculate_size, divide_up};

#[test]
fn divide_up_rounds_to_whole_units() {
    assert_eq!(divide_up(0), 0);
    assert_eq!(divide_up(1), 1);
    assert_eq!(divide_up(8), 1);
    assert_eq!(divide_up(9), 2);
    assert_eq!(divide_up(40), 5);
}

#[test]
fn calculate_size_of_objects_and_arrays() {
    assert_eq!(calculate_size(16, 0), 5);
    assert_eq!(calculate_size(0, 7), 3);
    assert_eq!(calculate_size(-8, 3), 7);
    assert_eq!(calculate_size(-1, 5), 5);
    assert_eq!(calculate_size(-1, 0), 4);
}
