use vstd::prelude::*;

verus! {

/// The part of the transform gizmo under the pointer.
#[derive(Clone, Copy, Debug, PartialEq, Eq, Structural)]
pub enum GizmoHit {
    NoHit,
    All,
    X,
    Y,
}

/// The part of the gizmo hit, given whether the pointer lies in the central
/// handle, in the horizontal arrow and in the vertical arrow: the central
/// handle wins over the arrows, and the horizontal arrow over the vertical one.
pub fn hover_hit(in_all: bool, in_x: bool, in_y: bool) -> (h: GizmoHit)
    ensures
        h == if in_all {
            GizmoHit::All
        } else if in_x {
            GizmoHit::X
        } else if in_y {
            GizmoHit::Y
        } else {
            GizmoHit::NoHit
        },
{
    if in_all {
        return GizmoHit::All;
    }
    if in_x {
        return GizmoHit::X;
    }
    if in_y {
        return GizmoHit::Y;
    }
    GizmoHit::NoHit
}

} // verus!
