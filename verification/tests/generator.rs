use fractal_wizard::fractal::generator::{compact_representatives, merge_lines, renumber_lines, ExpansionStack, PointSet, VertexMerger};

#[test]
fn merge_lines_renumbers_and_drops_collapsed() {
    let canonical = vec![0, 1, 0, 3];
    let lines = vec![[0, 1], [2, 0], [1, 2], [3, 3], [3, 1]];
    assert_eq!(merge_lines(&canonical, &lines), vec![[0, 1], [1, 0], [3, 1]]);
}

#[test]
fn compaction_numbers_representatives_in_first_order() {
    let canonical = vec![0, 1, 0, 1, 4];
    let (reps, remap) = compact_representatives(&canonical);
    assert_eq!(reps, vec![0, 1, 4]);
    assert_eq!(remap, vec![0, 1, usize::MAX, usize::MAX, 2]);
    let merged = merge_lines(&canonical, &[[0, 3], [2, 4], [1, 4]]);
    assert_eq!(renumber_lines(&remap, &merged), vec![[0, 1], [0, 2], [1, 2]]);
}

#[test]
fn compaction_of_out_of_order_representatives() {
    let (reps, remap) = compact_representatives(&[2, 2, 2]);
    assert_eq!(reps, vec![2]);
    assert_eq!(remap, vec![usize::MAX, usize::MAX, 0]);
}

#[test]
fn point_set_stores_each_key_once() {
    let mut s = PointSet::new();
    assert_eq!(s.find_or_add((0.0f32, 0.0f32), 7), (0, true));
    assert_eq!(s.find_or_add((1.0, 0.0), 9), (1, true));
    assert_eq!(s.find_or_add((0.0, 0.0), 7), (0, false));
    s.add_line(0, 1);
    assert_eq!(s.points(), &[(0.0, 0.0), (1.0, 0.0)]);
    let (points, lines) = s.into_parts();
    assert_eq!(points.len(), 2);
    assert_eq!(lines, vec![[0, 1]]);
}

#[test]
fn expansion_stack_caps_depth() {
    let mut st = ExpansionStack::new(vec!['a', 'b'], 1);
    assert_eq!(st.max_depth(), 4);
    let b = st.pop().unwrap();
    assert_eq!((b.data, b.depth, b.max_allowed), ('b', 0, 1));
    assert!(!b.is_leaf());
    st.push_child(b.depth, b.max_allowed, 'c', 10);
    st.push_child(b.depth, b.max_allowed, 'd', 0);
    let d = st.pop().unwrap();
    assert_eq!((d.data, d.depth, d.max_allowed), ('d', 1, 1));
    assert!(d.is_leaf());
    let c = st.pop().unwrap();
    assert_eq!((c.data, c.depth, c.max_allowed), ('c', 1, 4));
    let a = st.pop().unwrap();
    assert_eq!(a.data, 'a');
    assert!(st.pop().is_none());
}

#[test]
fn merger_finds_representatives_around_a_cell() {
    let mut m = VertexMerger::new();
    m.add_representative((0, 0));
    m.add_representative((1, 1));
    m.add_representative((5, 5));
    assert_eq!(m.neighbors_of_cell((0, 0)), vec![0, 1]);
    assert_eq!(m.neighbors_of_cell((1, 0)), vec![0, 1]);
    assert_eq!(m.neighbors_of_cell((2, 2)), vec![1]);
    assert!(m.neighbors_of_cell((3, 3)).is_empty());
    m.merge_into(1);
    m.add_representative((1, 1));
    assert_eq!(m.neighbors_of_cell((1, 1)), vec![0, 1, 4]);
    assert_eq!(m.len(), 5);
    let canonical = m.into_canonical();
    assert_eq!(canonical, vec![0, 1, 2, 1, 4]);
    let (reps, _) = compact_representatives(&canonical);
    assert_eq!(reps, vec![0, 1, 2, 4]);
}
