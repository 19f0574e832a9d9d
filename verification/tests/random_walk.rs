use fractal_wizard::fractal::random_walk::{needs_rerun, neighbors, pick_uniform, walk_timed_out, RunProgress, Walk};

#[test]
fn neighbors_follow_line_order() {
    let lines = [[0, 1], [1, 2], [2, 0], [3, 2]];
    assert_eq!(neighbors(&lines, 2), vec![1, 0, 3]);
    assert_eq!(neighbors(&lines, 0), vec![1, 2]);
    assert!(neighbors(&lines, 5).is_empty());
}

#[test]
fn uniform_pick_is_a_neighbor() {
    let mut rng = rand::rng();
    let choices = [4, 8, 15];
    for _ in 0..100 {
        assert!(choices.contains(&pick_uniform(&mut rng, &choices)));
    }
    assert_eq!(pick_uniform(&mut rng, &[3]), 3);
}

#[test]
fn walk_on_a_triangle_returns() {
    let lines = [[0, 1], [1, 2], [2, 0]];
    let mut rng = rand::rng();
    let mut w = Walk::new(0);
    assert_eq!(w.current(), 0);
    while w.wants_step(100) {
        let options = neighbors(&lines, w.current());
        let next = pick_uniform(&mut rng, &options);
        w.step(next);
    }
    assert!(w.returned());
    assert!(w.len() <= 100);
    assert_eq!(w.steps()[0], 0);
    assert_eq!(*w.steps().last().unwrap(), 0);
}

#[test]
fn walk_respects_max_steps() {
    let mut w = Walk::new(0);
    assert!(w.wants_step(2));
    w.step(1);
    assert!(!w.wants_step(2));
    assert!(!w.returned());
    assert!(w.wants_step(3));
    w.step(0);
    assert!(w.returned());
    assert!(!w.wants_step(50));
    assert_eq!(w.into_steps(), vec![0, 1, 0]);
}

#[test]
fn timeout_and_rerun_rules() {
    assert!(walk_timed_out(false, 3, 10, true));
    assert!(!walk_timed_out(true, 3, 10, true));
    assert!(!walk_timed_out(false, 10, 10, true));
    assert!(!walk_timed_out(false, 3, 10, false));
    assert!(needs_rerun(100, 5, false, true));
    assert!(!needs_rerun(0, 5, false, true));
    assert!(!needs_rerun(100, 100, false, true));
    assert!(!needs_rerun(100, 5, true, true));
    assert!(!needs_rerun(100, 5, false, false));
}

#[test]
fn walk_moves_along_lines() {
    let lines = [[0, 1], [1, 2], [2, 3], [3, 0], [0, 2]];
    let mut rng = rand::rng();
    let mut w = Walk::new(1);
    while w.wants_step(50) {
        let options = neighbors(&lines, w.current());
        let next = pick_uniform(&mut rng, &options);
        w.step(next);
    }
    let steps = w.steps();
    for pair in steps.windows(2) {
        let (a, b) = (pair[0], pair[1]);
        assert!(lines.iter().any(|l| (l[0] == a && l[1] == b) || (l[0] == b && l[1] == a)));
    }
    assert!(steps.len() <= 50);
}

#[test]
fn run_progress_counts_walks() {
    let mut p = RunProgress::new(2);
    assert!(!p.is_done());
    p.record_run();
    assert_eq!(p.progress(), (1, 2));
    p.record_run();
    assert!(p.is_done());
    assert!(RunProgress::new(0).is_done());
}
