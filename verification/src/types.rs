use vstd::prelude::*;

verus! {

/// A segment between two points of a shape, given by their indices.
pub type Line = [usize; 2];

/// The pair of indices that a line joins.
pub open spec fn line_view(l: Line) -> (usize, usize) {
    (l[0], l[1])
}

/// The index pairs of a sequence of lines.
pub open spec fn lines_view(ls: Seq<Line>) -> Seq<(usize, usize)> {
    ls.map_values(|l: Line| line_view(l))
}

/// Every line joins two points among the first `n`.
pub open spec fn lines_within(ls: Seq<(usize, usize)>, n: nat) -> bool {
    forall|k: int| 0 <= k < ls.len() ==> #[trigger] ls[k].0 < n && ls[k].1 < n
}

/// What a click on the canvas does.
#[derive(Clone, Copy, Debug, PartialEq, Eq, Structural)]
pub enum EditorState {
    Mouse,
    Point,
    SelectPointSimulation,
    Add,
}

/// How the points of a fractal are colored.
#[derive(Clone, Copy, Debug, PartialEq, Eq, Structural)]
pub enum RenderMode {
    Normal,
    GlobalHeatMap,
    IndividualHeatMap,
}

/// The kind of figure being drawn.
#[derive(Clone, Copy, Debug, PartialEq, Eq, Structural)]
pub enum FigureType {
    Polygon,
    FreeLinear,
}

/// How the animation of a random walk goes on when it reaches an end.
#[derive(Clone, Copy, Debug, PartialEq, Eq, Structural)]
pub enum LoopMode {
    PlayOnce,
    PlayOnceReset,
    Repeat,
    PlayOnceMirror,
    RepeatMirror,
}

/// The state of the walk animation: the step shown, the direction of travel
/// in the mirror modes, and whether it is playing.
#[derive(Clone, Copy, Debug, PartialEq, Eq, Structural)]
pub struct PlayerState {
    pub step: usize,
    pub ascending: bool,
    pub playing: bool,
}

/// The state after one frame of animation of a walk with `max` steps,
/// before the step is brought back into `[0, max]`.
pub open spec fn player_move(mode: LoopMode, s: PlayerState, max: usize) -> PlayerState {
    match mode {
        LoopMode::PlayOnce => if s.step < max {
            PlayerState { step: (s.step + 1) as usize, ..s }
        } else {
            PlayerState { playing: false, ..s }
        },
        LoopMode::PlayOnceReset => if s.step < max {
            PlayerState { step: (s.step + 1) as usize, ..s }
        } else {
            PlayerState { playing: false, step: 0, ..s }
        },
        LoopMode::Repeat => if s.step + 1 > max {
            PlayerState { step: 0, ..s }
        } else {
            PlayerState { step: (s.step + 1) as usize, ..s }
        },
        LoopMode::PlayOnceMirror => if s.ascending {
            if s.step < max {
                PlayerState { step: (s.step + 1) as usize, ..s }
            } else {
                PlayerState { ascending: false, ..s }
            }
        } else if s.step > 0 {
            PlayerState { step: (s.step - 1) as usize, ..s }
        } else {
            PlayerState { ascending: true, playing: false, ..s }
        },
        LoopMode::RepeatMirror => if s.ascending {
            if s.step < max {
                PlayerState { step: (s.step + 1) as usize, ..s }
            } else {
                PlayerState { ascending: false, ..s }
            }
        } else if s.step > 0 {
            PlayerState { step: (s.step - 1) as usize, ..s }
        } else {
            PlayerState { ascending: true, ..s }
        },
    }
}

/// The state after one frame of animation: one move, then the step brought
/// back into `[0, max]`.
pub open spec fn player_advance(mode: LoopMode, s: PlayerState, max: usize) -> PlayerState {
    let m = player_move(mode, s, max);
    PlayerState { step: if m.step > max { max } else { m.step }, ..m }
}

impl LoopMode {
    /// The names of the modes, in declaration order.
    pub fn variants() -> (r: &'static [&'static str])
        ensures
            r@.len() == 5,
            r@[0]@ == "Jouer une fois"@,
            r@[1]@ == "Jouer une fois et réinitialiser"@,
            r@[2]@ == "Répéter"@,
            r@[3]@ == "Jouer une fois en miroir"@,
            r@[4]@ == "Répéter en miroir"@,
    {
        &[
            "Jouer une fois",
            "Jouer une fois et réinitialiser",
            "Répéter",
            "Jouer une fois en miroir",
            "Répéter en miroir",
        ]
    }

    /// The position of the mode in declaration order.
    pub fn index(self) -> (i: usize)
        ensures
            i < 5,
            self == LoopMode::from_index_spec(i),
    {
        match self {
            LoopMode::PlayOnce => 0,
            LoopMode::PlayOnceReset => 1,
            LoopMode::Repeat => 2,
            LoopMode::PlayOnceMirror => 3,
            LoopMode::RepeatMirror => 4,
        }
    }

    /// The mode at position `i` in declaration order; positions past the last
    /// give the first mode.
    pub open spec fn from_index_spec(i: usize) -> LoopMode {
        if i == 1 {
            LoopMode::PlayOnceReset
        } else if i == 2 {
            LoopMode::Repeat
        } else if i == 3 {
            LoopMode::PlayOnceMirror
        } else if i == 4 {
            LoopMode::RepeatMirror
        } else {
            LoopMode::PlayOnce
        }
    }

    /// The mode at position `i` in declaration order; positions past the last
    /// give the first mode.
    pub fn from_index(i: usize) -> (m: LoopMode)
        ensures
            m == LoopMode::from_index_spec(i),
    {
        match i {
            1 => LoopMode::PlayOnceReset,
            2 => LoopMode::Repeat,
            3 => LoopMode::PlayOnceMirror,
            4 => LoopMode::RepeatMirror,
            _ => LoopMode::PlayOnce,
        }
    }

    /// One frame of animation of a walk with `max` steps.
    pub fn advance(self, s: PlayerState, max: usize) -> (r: PlayerState)
        requires
            self == LoopMode::Repeat ==> s.step < usize::MAX,
        ensures
            r == player_advance(self, s, max),
    {
        let mut step = s.step;
        let mut ascending = s.ascending;
        let mut playing = s.playing;
        match self {
            LoopMode::PlayOnce => {
                if step < max {
                    step += 1;
                } else {
                    playing = false;
                }
            },
            LoopMode::PlayOnceReset => {
                if step < max {
                    step += 1;
                } else {
                    playing = false;
                    step = 0;
                }
            },
            LoopMode::Repeat => {
                step += 1;
                if step > max {
                    step = 0;
                }
            },
            LoopMode::PlayOnceMirror => {
                if ascending {
                    if step < max {
                        step += 1;
                    } else {
                        ascending = false;
                    }
                } else {
                    if step > 0 {
                        step -= 1;
                    } else {
                        ascending = true;
                        playing = false;
                    }
                }
            },
            LoopMode::RepeatMirror => {
                if ascending {
                    if step < max {
                        step += 1;
                    } else {
                        ascending = false;
                    }
                } else {
                    if step > 0 {
                        step -= 1;
                    } else {
                        ascending = true;
                    }
                }
            },
        }
        if step > max {
            step = max;
        }
        PlayerState { step, ascending, playing }
    }
}

/// Whatever the mode and the state, a frame of animation leaves the step within `[0, max]`.
pub proof fn law_player_step_in_range(mode: LoopMode, s: PlayerState, max: usize)
    ensures
        player_advance(mode, s, max).step <= max,
{
}

/// In `Repeat` mode the animation cycles through the steps `0..=max`: from a
/// step within range it moves to the next one, and from `max` back to `0`.
pub proof fn law_repeat_cycles(s: PlayerState, max: usize)
    requires
        s.step <= max,
    ensures
        player_advance(LoopMode::Repeat, s, max).step == if s.step == max { 0 } else { s.step + 1 },
        player_advance(LoopMode::Repeat, s, max).playing == s.playing,
{
}

/// The one-shot modes stop at the last step: `PlayOnce` stays there,
/// `PlayOnceReset` goes back to the first step.
pub proof fn law_play_once_stops(s: PlayerState, max: usize)
    requires
        s.step == max,
    ensures
        !player_advance(LoopMode::PlayOnce, s, max).playing,
        player_advance(LoopMode::PlayOnce, s, max).step == max,
        !player_advance(LoopMode::PlayOnceReset, s, max).playing,
        player_advance(LoopMode::PlayOnceReset, s, max).step == 0,
{
}

/// In the mirror modes the animation turns back at the last step and, going
/// down, turns back up at the first step; only `PlayOnceMirror` stops there.
pub proof fn law_mirror_turns(s: PlayerState, max: usize)
    ensures
        s.ascending && s.step == max ==> !player_advance(LoopMode::RepeatMirror, s, max).ascending
            && player_advance(LoopMode::RepeatMirror, s, max).step == max,
        !s.ascending && s.step == 0 ==> player_advance(LoopMode::RepeatMirror, s, max).ascending
            && player_advance(LoopMode::RepeatMirror, s, max).playing == s.playing,
        !s.ascending && s.step == 0 ==> player_advance(LoopMode::PlayOnceMirror, s, max).ascending
            && !player_advance(LoopMode::PlayOnceMirror, s, max).playing,
{
}

/// `PlayOnceMirror` plays the steps up to the last one and then back down to
/// the first: at the last step going up it turns round and keeps playing, in
/// between it moves one step in its direction, and it stops only when it is
/// back at the first step going down.
pub proof fn law_play_once_mirror_goes_up_and_back(s: PlayerState, max: usize)
    requires
        s.step <= max,
    ensures
        s.ascending && s.step == max ==> player_advance(LoopMode::PlayOnceMirror, s, max)
            == (PlayerState { step: max, ascending: false, playing: s.playing }),
        s.ascending && s.step < max ==> player_advance(LoopMode::PlayOnceMirror, s, max)
            == (PlayerState { step: (s.step + 1) as usize, ..s }),
        !s.ascending && s.step > 0 ==> player_advance(LoopMode::PlayOnceMirror, s, max)
            == (PlayerState { step: (s.step - 1) as usize, ..s }),
        !player_advance(LoopMode::PlayOnceMirror, s, max).playing ==> !s.playing || (!s.ascending && s.step == 0),
{
}

/// The two mirror modes play alike and differ only at the end of the way
/// back: there `RepeatMirror` turns up again and keeps playing while
/// `PlayOnceMirror` stops.
pub proof fn law_mirror_modes_agree(s: PlayerState, max: usize)
    ensures
        !(!s.ascending && s.step == 0) ==> player_advance(LoopMode::PlayOnceMirror, s, max)
            == player_advance(LoopMode::RepeatMirror, s, max),
        player_advance(LoopMode::RepeatMirror, s, max).playing == s.playing,
        player_advance(LoopMode::PlayOnceMirror, s, max).ascending
            == player_advance(LoopMode::RepeatMirror, s, max).ascending,
{
}

/// Before the last step every forward mode moves one step on and keeps
/// playing as it was: `PlayOnce`, `PlayOnceReset` and `Repeat` agree there.
pub proof fn law_forward_modes_agree_before_the_end(s: PlayerState, max: usize)
    requires
        s.step < max,
    ensures
        player_advance(LoopMode::PlayOnce, s, max) == (PlayerState { step: (s.step + 1) as usize, ..s }),
        player_advance(LoopMode::PlayOnceReset, s, max) == player_advance(LoopMode::PlayOnce, s, max),
        player_advance(LoopMode::Repeat, s, max) == player_advance(LoopMode::PlayOnce, s, max),
{
}

/// Where the density of a fractal is changed.
#[derive(Clone, Copy, Debug, PartialEq, Eq, Structural)]
pub enum DensityMode {
    /// Moves the points once they are generated.
    Displacement,
    /// Changes the contraction factor during the iterations.
    Contraction,
    /// Changes the number of iterations of each branch by its position.
    Iteration,
}

impl Default for DensityMode {
    fn default() -> (m: Self)
        ensures
            m == DensityMode::Displacement,
    {
        DensityMode::Displacement
    }
}

impl DensityMode {
    /// The name of the mode shown to the user.
    pub fn label(self) -> (r: &'static str)
        ensures
            self == DensityMode::Displacement ==> r@ == "Déplacement"@,
            self == DensityMode::Contraction ==> r@ == "Contraction"@,
            self == DensityMode::Iteration ==> r@ == "Itération"@,
    {
        match self {
            DensityMode::Displacement => "Déplacement",
            DensityMode::Contraction => "Contraction",
            DensityMode::Iteration => "Itération",
        }
    }
}

} // verus!
