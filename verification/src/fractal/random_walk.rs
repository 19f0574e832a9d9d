use vstd::prelude::*;
use rand::Rng;
use rand::rngs::ThreadRng;
use crate::types::{Line, lines_view};

verus! {

/// The thread-local random number generator of the `rand` crate.
#[verifier::external_type_specification]
#[verifier::external_body]
pub struct ExThreadRng(ThreadRng);

/// `rand::Rng::random_range` on `0..n`: a number below `n`, drawn at random.
#[verifier::external_body]
fn random_below(rng: &mut ThreadRng, n: usize) -> (r: usize)
    requires
        n > 0,
    ensures
        r < n,
{
    rng.random_range(0..n)
}

/// The points joined to `current` by the lines, one entry per line, in the
/// order of the lines.
pub open spec fn neighbor_seq(ls: Seq<(usize, usize)>, current: usize) -> Seq<usize>
    decreases ls.len(),
{
    if ls.len() == 0 {
        Seq::empty()
    } else {
        let rest = neighbor_seq(ls.drop_last(), current);
        let l = ls.last();
        if l.0 == current {
            rest.push(l.1)
        } else if l.1 == current {
            rest.push(l.0)
        } else {
            rest
        }
    }
}

/// Some line joins `a` and `b`.
pub open spec fn adjacent(ls: Seq<(usize, usize)>, a: usize, b: usize) -> bool {
    exists|k: int| 0 <= k < ls.len() && (#[trigger] ls[k] == (a, b) || ls[k] == (b, a))
}

/// Every point listed by `neighbor_seq` is joined to `current` by a line.
pub proof fn lemma_neighbors_adjacent(ls: Seq<(usize, usize)>, current: usize)
    ensures
        forall|i: int| 0 <= i < neighbor_seq(ls, current).len()
            ==> adjacent(ls, current, #[trigger] neighbor_seq(ls, current)[i]),
    decreases ls.len(),
{
    if ls.len() > 0 {
        let init = ls.drop_last();
        lemma_neighbors_adjacent(init, current);
        let ns = neighbor_seq(ls, current);
        let rest = neighbor_seq(init, current);
        assert forall|i: int| 0 <= i < ns.len() implies adjacent(ls, current, #[trigger] ns[i]) by {
            if i < rest.len() {
                assert(ns[i] == rest[i]);
                assert(adjacent(init, current, rest[i]));
                let k = choose|k: int| 0 <= k < init.len() && (#[trigger] init[k] == (current, rest[i]) || init[k] == (rest[i], current));
                assert(ls[k] == init[k]);
            } else {
                assert(ls[ls.len() - 1] == ls.last());
            }
        }
    }
}

/// The points joined to `current`: for each line touching it, in order, the
/// point at the line's other end.
pub fn neighbors(lines: &[Line], current: usize) -> (r: Vec<usize>)
    ensures
        r@ == neighbor_seq(lines_view(lines@), current),
{
    let ghost ls = lines_view(lines@);
    let mut r: Vec<usize> = Vec::new();
    let mut i: usize = 0;
    while i < lines.len()
        invariant
            i <= lines@.len(),
            ls == lines_view(lines@),
            r@ == neighbor_seq(ls.take(i as int), current),
        decreases lines@.len() - i,
    {
        let l = lines[i];
        proof {
            assert(ls.take(i + 1).drop_last() =~= ls.take(i as int));
            assert(ls.take(i + 1).last() == (l[0], l[1]));
        }
        if l[0] == current {
            r.push(l[1]);
        } else if l[1] == current {
            r.push(l[0]);
        }
        i += 1;
    }
    proof {
        assert(ls.take(lines@.len() as int) =~= ls);
    }
    r
}

/// Picks one of the given points with equal chances for each entry.
pub fn pick_uniform(rng: &mut ThreadRng, choices: &[usize]) -> (r: usize)
    requires
        choices@.len() > 0,
    ensures
        choices@.contains(r),
{
    let k = random_below(rng, choices.len());
    proof {
        assert(choices@[k as int] == choices@[k as int]);
    }
    choices[k]
}

/// The walk so far: the points visited, starting point first, and whether it
/// has come back to its start.
pub struct WalkView {
    pub steps: Seq<usize>,
    pub returned: bool,
}

/// A random walk on the lines of a figure, from a starting point until it
/// comes back to it.
pub struct Walk {
    steps: Vec<usize>,
    start: usize,
    returned: bool,
}

impl View for Walk {
    type V = WalkView;

    closed spec fn view(&self) -> WalkView {
        WalkView { steps: self.steps@, returned: self.returned }
    }
}

/// Every two consecutive points of `steps` are joined by a line.
pub open spec fn follows_lines(ls: Seq<(usize, usize)>, steps: Seq<usize>) -> bool {
    forall|i: int| 0 < i < steps.len() ==> adjacent(ls, steps[i - 1], #[trigger] steps[i])
}

/// The walk is non-empty, it has returned exactly when its last point, after
/// the first, is its starting point, and it did not pass its start before.
pub open spec fn walk_shape(w: WalkView) -> bool {
    &&& w.steps.len() >= 1
    &&& w.returned == (w.steps.len() > 1 && w.steps.last() == w.steps[0])
    &&& forall|i: int| 0 < i < w.steps.len() - 1 ==> #[trigger] w.steps[i] != w.steps[0]
}

impl Walk {
    #[verifier::type_invariant]
    spec fn wf(&self) -> bool {
        &&& walk_shape(self@)
        &&& self.steps@[0] == self.start
    }

    /// A walk standing on `start`.
    pub fn new(start: usize) -> (w: Self)
        ensures
            walk_shape(w@),
            w@.steps == seq![start],
            !w@.returned,
    {
        let mut steps: Vec<usize> = Vec::new();
        steps.push(start);
        proof {
            assert(steps@ =~= seq![start]);
        }
        Self { steps, start, returned: false }
    }

    /// The point the walk stands on.
    pub fn current(&self) -> (c: usize)
        ensures
            c == self@.steps.last(),
    {
        proof {
            use_type_invariant(self);
        }
        self.steps[self.steps.len() - 1]
    }

    /// The number of points visited, the start included.
    pub fn len(&self) -> (n: usize)
        ensures
            n == self@.steps.len(),
    {
        self.steps.len()
    }

    /// Whether the walk has come back to its start.
    pub fn returned(&self) -> (b: bool)
        ensures
            b == self@.returned,
    {
        self.returned
    }

    /// Whether another step is due: the walk has not come back and has
    /// visited fewer points than `max_steps`.
    pub fn wants_step(&self, max_steps: u64) -> (b: bool)
        ensures
            b == step_due(self@, max_steps),
    {
        !self.returned && self.steps.len() < max_steps as usize
    }

    /// Moves to `next`; the walk has returned when `next` is the start.
    pub fn step(&mut self, next: usize)
        requires
            !old(self)@.returned,
        ensures
            walk_shape(final(self)@),
            final(self)@.steps == old(self)@.steps.push(next),
            final(self)@.returned == (next == old(self)@.steps[0]),
    {
        proof {
            use_type_invariant(&*self);
        }
        let mut taken = Walk::new(next);
        std::mem::swap(self, &mut taken);
        proof {
            use_type_invariant(&taken);
        }
        let Walk { mut steps, start, returned: _ } = taken;
        proof {
            if steps@.len() > 1 {
                assert(steps@.last() != start);
            }
        }
        steps.push(next);
        let returned = next == start;
        *self = Walk { steps, start, returned };
    }

    /// The points visited.
    pub fn steps(&self) -> (r: &[usize])
        ensures
            r@ == self@.steps,
    {
        self.steps.as_slice()
    }

    /// The points visited, as an owned list.
    pub fn into_steps(self) -> (r: Vec<usize>)
        ensures
            r@ == self@.steps,
    {
        self.steps
    }
}

/// Whether a walk counts as timed out: it has not come back, has visited
/// fewer points than `max_steps`, and ran past the time limit.
pub fn walk_timed_out(returned: bool, steps: usize, max_steps: u64, over_time: bool) -> (b: bool)
    ensures
        b == (!returned && steps < max_steps as usize && over_time),
{
    !returned && steps < max_steps as usize && over_time
}

/// Whether a walk must be run again to reach `min_steps` points: a minimum is
/// asked for, the walk is shorter, it did not time out and time remains.
pub fn needs_rerun(min_steps: u64, steps: usize, timed_out: bool, time_left: bool) -> (b: bool)
    ensures
        b == (min_steps > 0 && steps < min_steps as usize && !timed_out && time_left),
{
    min_steps > 0 && steps < min_steps as usize && !timed_out && time_left
}

/// A walk that only ever steps to a neighbor of the point it stands on moves
/// along the lines: if the walk so far follows the lines and `next` is one of
/// `neighbor_seq(lines, current)`, the longer walk follows the lines too.
pub proof fn law_walk_follows_lines(ls: Seq<(usize, usize)>, steps: Seq<usize>, next: usize)
    requires
        steps.len() >= 1,
        follows_lines(ls, steps),
        neighbor_seq(ls, steps.last()).contains(next),
    ensures
        follows_lines(ls, steps.push(next)),
{
    lemma_neighbors_adjacent(ls, steps.last());
    let s2 = steps.push(next);
    assert forall|i: int| 0 < i < s2.len() implies adjacent(ls, s2[i - 1], #[trigger] s2[i]) by {
        if i < steps.len() {
            assert(s2[i] == steps[i] && s2[i - 1] == steps[i - 1]);
        } else {
            let j = choose|j: int| 0 <= j < neighbor_seq(ls, steps.last()).len()
                && neighbor_seq(ls, steps.last())[j] == next;
            assert(adjacent(ls, steps.last(), neighbor_seq(ls, steps.last())[j]));
            assert(s2[i - 1] == steps.last());
        }
    }
}

/// Whether another step of the walk is due under a cap of `max_steps` points.
pub open spec fn step_due(w: WalkView, max_steps: u64) -> bool {
    !w.returned && w.steps.len() < max_steps as usize
}

/// A walk that steps only while another step is due never visits more than
/// `max_steps` points, and no step is due any more once it is back at its start.
pub proof fn law_walk_within_max_steps(w: WalkView, max_steps: u64, next: usize)
    requires
        step_due(w, max_steps),
    ensures
        w.steps.push(next).len() <= max_steps as usize,
        !step_due(WalkView { steps: w.steps.push(next), returned: true }, max_steps),
{
}

/// How many of the requested walks have been run.
#[derive(Clone, Copy, Debug)]
pub struct RunProgress {
    done: u32,
    total: u32,
}

impl RunProgress {
    /// No walk run yet out of `total`.
    pub fn new(total: u32) -> (p: Self)
        ensures
            p.done_count() == 0,
            p.total_count() == total,
    {
        Self { done: 0, total }
    }

    /// The number of walks run.
    pub closed spec fn done_count(&self) -> u32 {
        self.done
    }

    /// The number of walks requested.
    pub closed spec fn total_count(&self) -> u32 {
        self.total
    }

    /// Whether every requested walk has been run.
    pub fn is_done(&self) -> (b: bool)
        ensures
            b == (self.done_count() >= self.total_count()),
    {
        self.done >= self.total
    }

    /// The walks run and the walks requested.
    pub fn progress(&self) -> (r: (u32, u32))
        ensures
            r == (self.done_count(), self.total_count()),
    {
        (self.done, self.total)
    }

    /// Counts one more walk.
    pub fn record_run(&mut self)
        requires
            old(self).done_count() < u32::MAX,
        ensures
            final(self).done_count() == old(self).done_count() + 1,
            final(self).total_count() == old(self).total_count(),
    {
        self.done = self.done + 1;
    }
}

} // verus!
