use fractal_wizard::shapes::FreeLinearShape;

fn pos2(x: f32, y: f32) -> (f32, f32) {
    (x, y)
}

#[test]
fn add_point_first_adds_no_line() {
    let mut s = FreeLinearShape::new();
    s.add_point(pos2(0.0, 0.0));
    assert_eq!(s.points().len(), 1);
    assert!(s.lines().is_empty());
}

#[test]
fn add_point_second_creates_line() {
    let mut s = FreeLinearShape::new();
    s.add_point(pos2(0.0, 0.0));
    s.add_point(pos2(1.0, 0.0));
    assert_eq!(s.points().len(), 2);
    assert_eq!(s.lines(), &[[0, 1]]);
}

#[test]
fn remove_point_middle_removes_incident_lines() {
    let mut s = FreeLinearShape::new();
    s.add_point(pos2(0.0, 0.0));
    s.add_point(pos2(1.0, 0.0));
    s.add_point(pos2(2.0, 0.0));
    // lines: [[0,1], [1,2]]
    s.remove_point(1);
    assert_eq!(s.points().len(), 2);
    assert_eq!(s.points()[0], pos2(0.0, 0.0));
    assert_eq!(s.points()[1], pos2(2.0, 0.0));
    // lines touching removed index are removed
    assert!(s.lines().is_empty());
}

#[test]
fn remove_point_last() {
    let mut s = FreeLinearShape::new();
    s.add_point(pos2(0.0, 0.0));
    s.add_point(pos2(1.0, 0.0));
    s.remove_point(1);
    assert_eq!(s.points().len(), 1);
    assert!(s.lines().is_empty());
}

#[test]
fn remove_point_renumbers_later_lines() {
    let mut s = FreeLinearShape::new();
    for i in 0..5 {
        s.add_point((i as f32, 0.0f32));
    }
    s.add_line_segment(4, 0);
    // lines: [0,1] [1,2] [2,3] [3,4] [4,0]
    s.remove_point(2);
    assert_eq!(s.points().len(), 4);
    assert_eq!(s.lines(), &[[0, 1], [2, 3], [3, 0]]);
}

#[test]
fn remove_point_out_of_range_changes_nothing() {
    let mut s = FreeLinearShape::new();
    s.add_point(pos2(0.0, 0.0));
    s.add_point(pos2(1.0, 0.0));
    s.remove_point(7);
    assert_eq!(s.points().len(), 2);
    assert_eq!(s.lines(), &[[0, 1]]);
}

#[test]
fn add_line_segment_checks_both_ends() {
    let mut s = FreeLinearShape::new();
    s.add_point(pos2(0.0, 0.0));
    s.add_point(pos2(1.0, 0.0));
    s.add_point(pos2(2.0, 1.0));
    s.add_line_segment(2, 0);
    s.add_line_segment(0, 3);
    s.add_line_segment(5, 1);
    assert_eq!(s.lines(), &[[0, 1], [1, 2], [2, 0]]);
}

#[test]
fn set_point_keeps_lines() {
    let mut s = FreeLinearShape::new();
    s.add_point(pos2(0.0, 0.0));
    s.add_point(pos2(1.0, 0.0));
    s.set_point(1, pos2(3.0, 4.0));
    assert_eq!(s.points(), &[pos2(0.0, 0.0), pos2(3.0, 4.0)]);
    assert_eq!(s.lines(), &[[0, 1]]);
}
