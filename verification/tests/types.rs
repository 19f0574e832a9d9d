use fractal_wizard::types::{DensityMode, LoopMode, PlayerState};
use fractal_wizard::gizmo::{hover_hit, GizmoHit};

fn st(step: usize, ascending: bool, playing: bool) -> PlayerState {
    PlayerState { step, ascending, playing }
}

#[test]
fn labels_and_variants() {
    assert_eq!(DensityMode::Displacement.label(), "Déplacement");
    assert_eq!(DensityMode::Contraction.label(), "Contraction");
    assert_eq!(DensityMode::Iteration.label(), "Itération");
    assert_eq!(DensityMode::default(), DensityMode::Displacement);
    let v = LoopMode::variants();
    assert_eq!(v.len(), 5);
    assert_eq!(v[LoopMode::Repeat.index()], "Répéter");
    assert_eq!(v[LoopMode::PlayOnceReset.index()], "Jouer une fois et réinitialiser");
    for i in 0..5 {
        assert_eq!(LoopMode::from_index(i).index(), i);
    }
    assert_eq!(LoopMode::from_index(17), LoopMode::PlayOnce);
}

#[test]
fn play_once_modes_stop_at_the_end() {
    assert_eq!(LoopMode::PlayOnce.advance(st(2, true, true), 5), st(3, true, true));
    assert_eq!(LoopMode::PlayOnce.advance(st(5, true, true), 5), st(5, true, false));
    assert_eq!(LoopMode::PlayOnceReset.advance(st(5, true, true), 5), st(0, true, false));
}

#[test]
fn repeat_cycles() {
    let mut s = st(0, true, true);
    for expected in [1, 2, 3, 0, 1] {
        s = LoopMode::Repeat.advance(s, 3);
        assert_eq!(s.step, expected);
    }
    assert_eq!(LoopMode::Repeat.advance(st(9, true, true), 3), st(0, true, true));
}

#[test]
fn mirror_modes_bounce() {
    let mut s = st(1, true, true);
    let mut steps = vec![];
    for _ in 0..6 {
        s = LoopMode::RepeatMirror.advance(s, 2);
        steps.push(s.step);
    }
    assert_eq!(steps, vec![2, 2, 1, 0, 0, 1]);
    assert_eq!(LoopMode::PlayOnceMirror.advance(st(0, false, true), 2), st(0, true, false));
    assert_eq!(LoopMode::PlayOnceMirror.advance(st(7, false, true), 2), st(2, false, true));
}

#[test]
fn gizmo_priorities() {
    assert!(hover_hit(true, true, true) == GizmoHit::All);
    assert!(hover_hit(false, true, true) == GizmoHit::X);
    assert!(hover_hit(false, false, true) == GizmoHit::Y);
    assert!(hover_hit(false, false, false) == GizmoHit::NoHit);
}
