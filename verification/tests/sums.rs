use skat_blend::sums::{do_in_parallel, random_values, sum_of, values_below_1000, NTASKS};

#[test]
fn one_task_for_each_worker() {
    assert_eq!(NTASKS, 8);
    assert_eq!(do_in_parallel(), vec![0, 1, 2, 3, 4, 5, 6, 7]);
}

#[test]
fn sums_of_values() {
    assert_eq!(sum_of(&[]), 0);
    assert_eq!(sum_of(&[1, 2, 3]), 6);
    assert_eq!(sum_of(&[999; 7000]), 6_993_000);
}

#[test]
fn random_values_stay_below_a_thousand() {
    let values = random_values(7000);
    assert_eq!(values.len(), 7000);
    assert!(values.iter().all(|v| *v < 1000));
    let sum = sum_of(&values);
    assert!(sum < 7_000_000);
}

#[test]
fn values_are_taken_modulo_a_thousand() {
    assert_eq!(values_below_1000(&vec![0, 999, 1000, 123_456, usize::MAX]), vec![0, 999, 0, 456, usize::MAX % 1000]);
    assert_eq!(values_below_1000(&vec![]), Vec::<usize>::new());
}
