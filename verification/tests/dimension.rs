use fractal_wizard::fractal::dimension::{cell_occupancy, longest_run, max_box_level, scaling_region};

#[test]
fn longest_run_takes_the_first_longest() {
    assert_eq!(longest_run(&[true, true, false, true, true, false]), (0, 2));
    assert_eq!(longest_run(&[false, true, false, true, true, true]), (3, 3));
    assert_eq!(longest_run(&[false, false]), (0, 0));
    assert_eq!(longest_run(&[]), (0, 0));
    assert_eq!(longest_run(&[true, true, true]), (0, 3));
}

#[test]
fn scaling_region_adds_the_next_level() {
    assert_eq!(scaling_region(6, &[false, true, true, false, true]), (1, 4));
    assert_eq!(scaling_region(4, &[true, true, true]), (0, 4));
    assert_eq!(scaling_region(5, &[false, false, false, false]), (0, 3));
    assert_eq!(scaling_region(2, &[false]), (0, 2));
}

#[test]
fn box_levels() {
    assert_eq!(max_box_level(5, 100), 7);
    assert_eq!(max_box_level(2, 100), 5);
    assert_eq!(max_box_level(10, 1), 1);
    assert_eq!(max_box_level(10, 1024), 11);
    assert_eq!(max_box_level(10, 1023), 10);
}

#[test]
fn occupancy_counts_points_per_cell_in_first_order() {
    let keys = [(0, 0), (1, 0), (0, 0), (-3, 7), (1, 0), (0, 0)];
    let counts = cell_occupancy(&keys);
    assert_eq!(counts, vec![3, 2, 1]);
    assert_eq!(counts.iter().sum::<usize>(), keys.len());
    assert!(cell_occupancy(&[]).is_empty());
}
