use fractal_wizard::heatmap::VisitCounts;

#[test]
fn counts_visits_per_point() {
    let mut c = VisitCounts::new(4);
    c.add_walk(&[0, 1, 2, 1, 0]);
    c.add_walk(&[0, 2, 0]);
    let (counts, max) = c.finish();
    assert_eq!(counts, vec![4, 2, 2, 0]);
    assert_eq!(max, 4);
}

#[test]
fn no_visit_gives_maximum_one() {
    let c = VisitCounts::new(3);
    let (counts, max) = c.finish();
    assert_eq!(counts, vec![0, 0, 0]);
    assert_eq!(max, 1);
    let (counts, max) = VisitCounts::new(0).finish();
    assert!(counts.is_empty());
    assert_eq!(max, 1);
}

#[test]
fn visits_outside_the_figure_count_towards_the_maximum() {
    let mut c = VisitCounts::new(2);
    c.add_walk(&[5, 5, 5, 1]);
    let (counts, max) = c.finish();
    assert_eq!(counts, vec![0, 1]);
    assert_eq!(max, 3);
}
