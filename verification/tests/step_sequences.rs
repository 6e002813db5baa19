use nvidia_oc::steps::candidate_steps;

#[test]
fn steps_descend_from_the_clock_nearest_the_baseline() {
    let table = vec![1000, 1500, 2000, 2500];
    let steps = candidate_steps(&table, 2100);
    assert_eq!(steps, vec![-100, -600, -1100]);
}

#[test]
fn a_table_entry_equal_to_the_baseline_gives_a_zero_first_step() {
    let table = vec![1900, 2000, 2100];
    let steps = candidate_steps(&table, 2100);
    assert_eq!(steps, vec![0, -100, -200]);
}

#[test]
fn an_empty_table_gives_no_steps() {
    let steps = candidate_steps(&Vec::new(), 2100);
    assert!(steps.is_empty());
}

#[test]
fn clocks_above_the_baseline_are_excluded() {
    let table = vec![2200, 2300];
    let steps = candidate_steps(&table, 2100);
    assert!(steps.is_empty());
}

#[test]
fn steps_are_never_positive_and_never_increase() {
    let table = vec![300, 800, 1100, 1900, 2000, 2100];
    let steps = candidate_steps(&table, 2050);
    for &s in &steps {
        assert!(s <= 0);
    }
    for pair in steps.windows(2) {
        assert!(pair[0] >= pair[1]);
    }
    assert_eq!(steps, vec![-50, -150, -950, -1250, -1750]);
}
