use fractal_wizard::shapes::{is_polygon_kind, shape_from_file, line_segments, model_lines, path_lines, polygon_lines, Polygon, ShapeWrapper, FreeLinearShape};

#[test]
fn polygon_lines_close_the_loop() {
    assert!(polygon_lines(0).is_empty());
    assert!(polygon_lines(1).is_empty());
    assert_eq!(polygon_lines(2), vec![[0, 1]]);
    assert_eq!(polygon_lines(3), vec![[0, 1], [1, 2], [2, 0]]);
    assert_eq!(polygon_lines(4), vec![[0, 1], [1, 2], [2, 3], [3, 0]]);
}

#[test]
fn path_lines_stay_open() {
    assert!(path_lines(1).is_empty());
    assert_eq!(path_lines(4), vec![[0, 1], [1, 2], [2, 3]]);
}

#[test]
fn model_lines_fill_in_missing_lines() {
    assert_eq!(model_lines(3, true, vec![]), vec![[0, 1], [1, 2], [2, 0]]);
    assert_eq!(model_lines(3, false, vec![]), vec![[0, 1], [1, 2]]);
    assert_eq!(model_lines(1, true, vec![]), Vec::<[usize; 2]>::new());
    assert_eq!(model_lines(3, true, vec![[2, 1]]), vec![[2, 1]]);
}

#[test]
fn polygon_from_points_and_edits() {
    let mut p = Polygon::from_points(vec![(0.0f32, 0.0f32), (1.0, 0.0), (1.0, 1.0)]);
    assert_eq!(p.lines(), &[[0, 1], [1, 2], [2, 0]]);
    p.add_point((0.0, 1.0));
    assert_eq!(p.points().len(), 4);
    assert_eq!(p.lines(), &[[0, 1], [1, 2], [2, 3], [3, 0]]);
    p.remove_point(0);
    assert_eq!(p.points(), &[(1.0, 0.0), (1.0, 1.0), (0.0, 1.0)]);
    assert_eq!(p.lines(), &[[0, 1], [1, 2], [2, 0]]);
    p.remove_point(9);
    assert_eq!(p.points().len(), 3);
    p.remove_point(2);
    assert_eq!(p.lines(), &[[0, 1]]);
    p.remove_point(1);
    assert!(p.lines().is_empty());
}

#[test]
fn empty_polygon() {
    let mut p: Polygon<(f32, f32)> = Polygon::new();
    assert!(p.points().is_empty());
    p.add_point((2.0, 2.0));
    assert!(p.lines().is_empty());
}

#[test]
fn segments_follow_lines() {
    let pts = [(0.0f32, 0.0f32), (1.0, 0.0), (0.5, 0.866)];
    let segs = line_segments(&pts, &[[0, 1], [2, 0]]);
    assert_eq!(segs, vec![[(0.0, 0.0), (1.0, 0.0)], [(0.5, 0.866), (0.0, 0.0)]]);
}

#[test]
fn wrapper_names_and_dispatch() {
    let mut w = ShapeWrapper::Polygon(Polygon::from_points(vec![(0.0f32, 0.0f32), (1.0, 0.0)]));
    assert_eq!(w.name(), "Polygone");
    assert_eq!(w.class_name(), "cPolygon");
    assert_eq!(w.file_type(), "Polygon");
    w.add_point((1.0, 1.0));
    assert_eq!(w.point_count(), 3);
    assert_eq!(w.lines(), &[[0, 1], [1, 2], [2, 0]]);

    let mut f = ShapeWrapper::FreeLinear(FreeLinearShape::new());
    assert_eq!(f.name(), "Forme libre");
    assert_eq!(f.class_name(), "cFreeLinearShape");
    assert_eq!(f.file_type(), "FreeLinear");
    f.add_point((0.0f32, 0.0f32));
    f.add_point((1.0, 0.0));
    f.add_point((2.0, 0.0));
    f.remove_point(0);
    assert_eq!(f.points(), &[(1.0, 0.0), (2.0, 0.0)]);
    assert_eq!(f.lines(), &[[0, 1]]);
}

#[test]
fn figure_file_rebuilds_shapes() {
    let p = shape_from_file(true, vec![(0.0f32, 0.0f32), (1.0, 0.0), (0.0, 1.0)], vec![[0, 2]]);
    assert_eq!(p.name(), "Polygone");
    assert_eq!(p.lines(), &[[0, 1], [1, 2], [2, 0]]);
    let f = shape_from_file(false, vec![(0.0f32, 0.0f32), (1.0, 0.0), (0.0, 1.0)], vec![[0, 1], [1, 5], [2, 0]]);
    assert_eq!(f.name(), "Forme libre");
    assert_eq!(f.points(), &[(0.0, 0.0), (1.0, 0.0), (0.0, 1.0)]);
    assert_eq!(f.lines(), &[[0, 1], [2, 0]]);
}

#[test]
fn saved_figure_reads_back_identical() {
    let mut s = FreeLinearShape::new();
    s.add_point((0.0f32, 0.0f32));
    s.add_point((1.0, 0.0));
    s.add_point((2.0, 1.0));
    s.add_line_segment(2, 0);
    let saved_points = s.points().to_vec();
    let saved_lines = s.lines().to_vec();
    let back = shape_from_file(false, saved_points.clone(), saved_lines.clone());
    assert_eq!(back.points(), saved_points.as_slice());
    assert_eq!(back.lines(), saved_lines.as_slice());
    let poly = Polygon::from_points(vec![(0.0f32, 0.0f32), (3.0, 0.0), (3.0, 3.0), (0.0, 3.0)]);
    let back = shape_from_file(true, poly.points().to_vec(), vec![]);
    assert_eq!(back.points(), poly.points());
    assert_eq!(back.lines(), poly.lines());
}

#[test]
fn figure_kinds_name_polygons() {
    assert!(is_polygon_kind(&"Polygon".to_string()));
    assert!(is_polygon_kind(&"cPolygon".to_string()));
    assert!(!is_polygon_kind(&"FreeLinear".to_string()));
    assert!(!is_polygon_kind(&"cFreeLinearShape".to_string()));
    assert!(!is_polygon_kind(&"polygon".to_string()));
    let poly = ShapeWrapper::Polygon(Polygon::from_points(vec![(0.0f32, 0.0f32), (1.0, 0.0), (0.0, 1.0)]));
    assert!(is_polygon_kind(&poly.file_type().to_string()));
    assert!(is_polygon_kind(&poly.class_name().to_string()));
    let free: ShapeWrapper<(f32, f32)> = ShapeWrapper::FreeLinear(FreeLinearShape::new());
    assert!(!is_polygon_kind(&free.file_type().to_string()));
}
