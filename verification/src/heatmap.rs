use vstd::prelude::*;
use std::collections::HashMap;

verus! {

broadcast use vstd::std_specs::hash::group_hash_axioms;

/// How many times `x` occurs in `s`.
pub open spec fn occurrences(s: Seq<usize>, x: usize) -> nat
    decreases s.len(),
{
    if s.len() == 0 {
        0
    } else {
        occurrences(s.drop_last(), x) + if s.last() == x { 1nat } else { 0nat }
    }
}

/// Appending one element adds one occurrence of it and none of anything else.
pub proof fn lemma_occurrences_push(s: Seq<usize>, v: usize, x: usize)
    ensures
        occurrences(s.push(v), x) == occurrences(s, x) + if v == x { 1nat } else { 0nat },
{
    assert(s.push(v).drop_last() =~= s);
}

/// The occurrences in two sequences put end to end add up.
pub proof fn lemma_occurrences_append(a: Seq<usize>, b: Seq<usize>, x: usize)
    ensures
        occurrences(a + b, x) == occurrences(a, x) + occurrences(b, x),
    decreases b.len(),
{
    if b.len() == 0 {
        assert(a + b =~= a);
    } else {
        lemma_occurrences_append(a, b.drop_last(), x);
        assert((a + b).drop_last() =~= a + b.drop_last());
        assert((a + b).last() == b.last());
    }
}

/// The points visited so far, for a figure of `points_count` points.
pub struct VisitView {
    pub points_count: nat,
    pub steps: Seq<usize>,
}

/// Counts how often each point is visited by a set of random walks.
pub struct VisitCounts {
    points_count: usize,
    counts: HashMap<usize, u32>,
    max_count: u32,
    seen: Ghost<Seq<usize>>,
}

impl View for VisitCounts {
    type V = VisitView;

    closed spec fn view(&self) -> VisitView {
        VisitView { points_count: self.points_count as nat, steps: self.seen@ }
    }
}

/// The counts agree with the steps seen: every point of the figure and every
/// index seen has a count, which is its number of occurrences, and
/// `max_count` is the largest of them.
spec fn counts_agree(points_count: usize, counts: Map<usize, u32>, max_count: u32, seen: Seq<usize>) -> bool {
    &&& forall|x: usize| #[trigger] counts.contains_key(x) <==> (x < points_count || occurrences(seen, x) > 0)
    &&& forall|x: usize| #[trigger] counts.contains_key(x) ==> counts[x] == occurrences(seen, x)
    &&& forall|x: usize| #[trigger] occurrences(seen, x) <= max_count
    &&& (max_count == 0 || exists|x: usize| #[trigger] occurrences(seen, x) == max_count)
}

impl VisitCounts {
    #[verifier::type_invariant]
    spec fn wf(&self) -> bool {
        counts_agree(self.points_count, self.counts@, self.max_count, self.seen@)
    }

    /// No visit yet, on a figure of `points_count` points.
    pub fn new(points_count: usize) -> (s: Self)
        ensures
            s@.points_count == points_count,
            s@.steps == Seq::<usize>::empty(),
    {
        let mut counts: HashMap<usize, u32> = HashMap::new();
        let mut i: usize = 0;
        while i < points_count
            invariant
                i <= points_count,
                forall|x: usize| #[trigger] counts@.contains_key(x) <==> x < i,
                forall|x: usize| #[trigger] counts@.contains_key(x) ==> counts@[x] == 0,
            decreases points_count - i,
        {
            counts.insert(i, 0);
            i += 1;
        }
        Self { points_count, counts, max_count: 0, seen: Ghost(Seq::empty()) }
    }

    /// Records every step of one walk.
    pub fn add_walk(&mut self, steps: &[usize])
        requires
            forall|x: usize| #[trigger] occurrences(old(self)@.steps + steps@, x) <= u32::MAX,
        ensures
            final(self)@.points_count == old(self)@.points_count,
            final(self)@.steps == old(self)@.steps + steps@,
    {
        proof {
            use_type_invariant(&*self);
        }
        let mut taken = VisitCounts { points_count: 0, counts: HashMap::new(), max_count: 0, seen: Ghost(Seq::empty()) };
        std::mem::swap(self, &mut taken);
        proof {
            use_type_invariant(&taken);
        }
        let VisitCounts { points_count, mut counts, mut max_count, seen } = taken;
        let ghost start = seen@;
        let ghost mut seen_now = start;
        assert(start == old(self)@.steps);
        let mut i: usize = 0;
        while i < steps.len()
            invariant
                i <= steps@.len(),
                counts_agree(points_count, counts@, max_count, seen_now),
                seen_now == start + steps@.take(i as int),
                forall|x: usize| #[trigger] occurrences(start + steps@, x) <= u32::MAX,
            decreases steps@.len() - i,
        {
            let s = steps[i];
            let ghost before = seen_now;
            proof {
                assert(start + steps@ =~= (start + steps@.take(i + 1)) + steps@.skip(i + 1));
                assert(start + steps@.take(i + 1) =~= before.push(s));
                lemma_occurrences_append(start + steps@.take(i + 1), steps@.skip(i + 1), s);
                lemma_occurrences_push(before, s, s);
            }
            let c: u32 = match counts.get(&s) {
                Some(c) => *c,
                None => 0,
            };
            let n = c + 1;
            counts.insert(s, n);
            proof {
                seen_now = before.push(s);
                assert forall|x: usize| #[trigger] occurrences(seen_now, x)
                    == occurrences(before, x) + if s == x { 1nat } else { 0nat } by {
                    lemma_occurrences_push(before, s, x);
                }
            }
            let ghost old_max = max_count;
            if n > max_count {
                max_count = n;
            }
            proof {
                assert(occurrences(seen_now, s) == n);
                if max_count != n {
                    let w = choose|x: usize| #[trigger] occurrences(before, x) == old_max;
                    assert(occurrences(seen_now, w) >= occurrences(before, w));
                    if w != s {
                        assert(occurrences(seen_now, w) == max_count);
                    }
                }
            }
            i += 1;
        }
        proof {
            assert(steps@.take(steps@.len() as int) =~= steps@);
        }
        *self = VisitCounts { points_count, counts, max_count, seen: Ghost(seen_now) };
    }

    /// The number of visits of each point, in point order, and the largest
    /// number of visits of any index seen (at least one).
    pub fn finish(&self) -> (r: (Vec<u32>, u32))
        ensures
            r.0@.len() == self@.points_count,
            forall|i: int| 0 <= i < r.0@.len() ==> #[trigger] r.0@[i] == occurrences(self@.steps, i as usize),
            r.1 >= 1,
            forall|x: usize| #[trigger] occurrences(self@.steps, x) <= r.1,
            r.1 == 1 || exists|x: usize| #[trigger] occurrences(self@.steps, x) == r.1,
    {
        proof {
            use_type_invariant(self);
        }
        let mut out: Vec<u32> = Vec::new();
        let mut i: usize = 0;
        while i < self.points_count
            invariant
                self.wf(),
                i <= self.points_count,
                out@.len() == i,
                forall|k: int| 0 <= k < i ==> #[trigger] out@[k] == occurrences(self.seen@, k as usize),
            decreases self.points_count - i,
        {
            let c: u32 = match self.counts.get(&i) {
                Some(c) => *c,
                None => 0,
            };
            assert(self.counts@.contains_key(i));
            out.push(c);
            i += 1;
        }
        let m = if self.max_count > 1 { self.max_count } else { 1 };
        proof {
            if m > 1 {
                let w = choose|x: usize| #[trigger] occurrences(self.seen@, x) == self.max_count;
                assert(occurrences(self@.steps, w) == m);
            }
        }
        (out, m)
    }
}

} // verus!
