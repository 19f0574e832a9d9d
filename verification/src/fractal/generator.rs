use vstd::prelude::*;
use std::collections::HashMap;
use crate::types::{Line, line_view, lines_view, lines_within};
use crate::scene::chunk_grid::{cell_code, encode, lemma_cell_code_injective};

verus! {

broadcast use vstd::std_specs::hash::group_hash_axioms;

/// The lines after every point is replaced by its representative: each line
/// is renumbered through `canonical`, and lines that collapse to a single
/// point are dropped.
pub open spec fn merged_line_pairs(canonical: Seq<usize>, ls: Seq<(usize, usize)>) -> Seq<(usize, usize)>
    decreases ls.len(),
{
    if ls.len() == 0 {
        Seq::empty()
    } else {
        let rest = merged_line_pairs(canonical, ls.drop_last());
        let a = canonical[ls.last().0 as int];
        let b = canonical[ls.last().1 as int];
        if a == b { rest } else { rest.push((a, b)) }
    }
}

/// Renumbers every line through `canonical` and drops the lines whose two
/// ends get the same representative.
pub fn merge_lines(canonical: &[usize], lines: &[Line]) -> (r: Vec<Line>)
    requires
        lines_within(lines_view(lines@), canonical@.len()),
    ensures
        lines_view(r@) == merged_line_pairs(canonical@, lines_view(lines@)),
        lines_view(r@) == lines_view(lines@).filter(keeps_two_points(canonical@))
            .map_values(renumbered(canonical@)),
{
    let ghost ls = lines_view(lines@);
    let mut r: Vec<Line> = Vec::new();
    let mut i: usize = 0;
    while i < lines.len()
        invariant
            i <= lines@.len(),
            ls == lines_view(lines@),
            lines_within(ls, canonical@.len()),
            lines_view(r@) == merged_line_pairs(canonical@, ls.take(i as int)),
        decreases lines@.len() - i,
    {
        let l = lines[i];
        proof {
            assert(ls[i as int] == line_view(l));
            assert(ls[i as int].0 < canonical@.len() && ls[i as int].1 < canonical@.len());
            assert(ls.take(i + 1).drop_last() =~= ls.take(i as int));
            assert(ls.take(i + 1).last() == line_view(l));
        }
        let a = canonical[l[0]];
        let b = canonical[l[1]];
        if a != b {
            let ghost before = r@;
            let nl: Line = [a, b];
            r.push(nl);
            proof {
                assert(lines_view(r@) =~= lines_view(before).push((a, b)));
            }
        }
        i += 1;
    }
    proof {
        assert(ls.take(lines@.len() as int) =~= ls);
        law_merge_drops_only_collapsed(canonical@, ls);
    }
    r
}

/// The test "does not collapse to a single point once renumbered through `canonical`".
pub open spec fn keeps_two_points(canonical: Seq<usize>) -> spec_fn((usize, usize)) -> bool {
    |l: (usize, usize)| canonical[l.0 as int] != canonical[l.1 as int]
}

/// A line renumbered through `canonical`.
pub open spec fn renumbered(canonical: Seq<usize>) -> spec_fn((usize, usize)) -> (usize, usize) {
    |l: (usize, usize)| (canonical[l.0 as int], canonical[l.1 as int])
}

/// Merging drops exactly the lines that collapse to a single point: the
/// merged lines are, in order, the renumbering of every input line whose two
/// ends keep different representatives (lines that become equal to an
/// earlier one are kept).
pub proof fn law_merge_drops_only_collapsed(canonical: Seq<usize>, ls: Seq<(usize, usize)>)
    ensures
        merged_line_pairs(canonical, ls)
            == ls.filter(keeps_two_points(canonical)).map_values(renumbered(canonical)),
        merged_line_pairs(canonical, ls).len() == ls.filter(keeps_two_points(canonical)).len(),
    decreases ls.len(),
{
    let p = keeps_two_points(canonical);
    let f = renumbered(canonical);
    if ls.len() == 0 {
        assert(ls.filter(p) =~= Seq::<(usize, usize)>::empty()) by {
            reveal(Seq::filter);
        }
        assert(ls.filter(p).map_values(f) =~= Seq::<(usize, usize)>::empty());
    } else {
        let init = ls.drop_last();
        law_merge_drops_only_collapsed(canonical, init);
        assert(init.push(ls.last()) =~= ls);
        init.lemma_filter_push(ls.last(), p);
        if p(ls.last()) {
            assert(init.filter(p).push(ls.last()).map_values(f)
                =~= init.filter(p).map_values(f).push(f(ls.last())));
        }
    }
}

/// The distinct values of `c`, in the order in which they first occur.
pub open spec fn first_occurrences(c: Seq<usize>) -> Seq<usize>
    decreases c.len(),
{
    if c.len() == 0 {
        Seq::empty()
    } else {
        let r = first_occurrences(c.drop_last());
        if r.contains(c.last()) { r } else { r.push(c.last()) }
    }
}

/// The representatives of a regrouping and, for each index, its position
/// among them (`usize::MAX` for an index that represents nothing).
pub open spec fn is_compaction(canonical: Seq<usize>, reps: Seq<usize>, remap: Seq<usize>) -> bool {
    &&& reps == first_occurrences(canonical)
    &&& remap.len() == canonical.len()
    &&& forall|x: int| 0 <= x < remap.len() ==> (#[trigger] remap[x] != usize::MAX <==> reps.contains(x as usize))
    &&& forall|x: int| 0 <= x < remap.len() && remap[x] != usize::MAX ==> #[trigger] reps[remap[x] as int] == x
        && remap[x] < reps.len()
}

/// Numbers the representatives named by `canonical` (where every index
/// points to its representative) in the order in which they are first met,
/// and gives, for every index, the number of its representative
/// (`usize::MAX` for indices that represent no point).
pub fn compact_representatives(canonical: &[usize]) -> (r: (Vec<usize>, Vec<usize>))
    requires
        forall|i: int| 0 <= i < canonical@.len() ==> #[trigger] canonical@[i] < canonical@.len(),
    ensures
        is_compaction(canonical@, r.0@, r.1@),
{
    let n = canonical.len();
    let mut remap: Vec<usize> = Vec::new();
    let mut j: usize = 0;
    while j < n
        invariant
            j <= n,
            remap@.len() == j,
            forall|x: int| 0 <= x < j ==> #[trigger] remap@[x] == usize::MAX,
        decreases n - j,
    {
        remap.push(usize::MAX);
        j += 1;
    }
    let mut reps: Vec<usize> = Vec::new();
    let mut i: usize = 0;
    while i < n
        invariant
            n == canonical@.len(),
            i <= n,
            forall|k: int| 0 <= k < n ==> #[trigger] canonical@[k] < n,
            reps@ == first_occurrences(canonical@.take(i as int)),
            reps@.len() <= i,
            remap@.len() == n,
            forall|x: int| 0 <= x < n ==> (#[trigger] remap@[x] != usize::MAX <==> reps@.contains(x as usize)),
            forall|x: int| 0 <= x < n && remap@[x] != usize::MAX ==> #[trigger] reps@[remap@[x] as int] == x
                && remap@[x] < reps@.len(),
        decreases n - i,
    {
        let rep = canonical[i];
        proof {
            assert(canonical@.take(i + 1).drop_last() =~= canonical@.take(i as int));
            assert(canonical@.take(i + 1).last() == rep);
        }
        if remap[rep] == usize::MAX {
            let ghost old_reps = reps@;
            let ghost old_remap = remap@;
            let k = reps.len();
            remap.set(rep, k);
            reps.push(rep);
            proof {
                assert forall|x: int| 0 <= x < n implies (#[trigger] remap@[x] != usize::MAX <==> reps@.contains(x as usize)) by {
                    if x == rep as int {
                        assert(reps@[k as int] == rep);
                    } else {
                        if reps@.contains(x as usize) {
                            let w = choose|w: int| 0 <= w < reps@.len() && reps@[w] == x as usize;
                            assert(w != k);
                            assert(old_reps.contains(x as usize));
                        }
                        if old_reps.contains(x as usize) {
                            let w = choose|w: int| 0 <= w < old_reps.len() && old_reps[w] == x as usize;
                            assert(reps@[w] == x as usize);
                        }
                    }
                }
                assert forall|x: int| 0 <= x < n && remap@[x] != usize::MAX implies #[trigger] reps@[remap@[x] as int] == x
                    && remap@[x] < reps@.len() by {
                    if x != rep as int {
                        assert(remap@[x] == old_remap[x]);
                        assert(old_reps[old_remap[x] as int] == x);
                        assert(reps@[old_remap[x] as int] == old_reps[old_remap[x] as int]);
                    }
                }
            }
        } else {
            proof {
                assert(reps@[remap@[rep as int] as int] == rep);
            }
        }
        i += 1;
    }
    proof {
        assert(canonical@.take(n as int) =~= canonical@);
    }
    (reps, remap)
}

/// Renumbers every line through `remap`.
pub fn renumber_lines(remap: &[usize], lines: &[Line]) -> (r: Vec<Line>)
    requires
        lines_within(lines_view(lines@), remap@.len()),
    ensures
        r@.len() == lines@.len(),
        forall|k: int| 0 <= k < r@.len() ==> #[trigger] line_view(r@[k])
            == (remap@[lines@[k][0] as int], remap@[lines@[k][1] as int]),
{
    let mut r: Vec<Line> = Vec::new();
    let mut i: usize = 0;
    while i < lines.len()
        invariant
            i <= lines@.len(),
            lines_within(lines_view(lines@), remap@.len()),
            r@.len() == i,
            forall|k: int| 0 <= k < i ==> #[trigger] line_view(r@[k])
                == (remap@[lines@[k][0] as int], remap@[lines@[k][1] as int]),
        decreases lines@.len() - i,
    {
        let l = lines[i];
        proof {
            assert(lines_view(lines@)[i as int] == line_view(l));
            assert(lines_view(lines@)[i as int].0 < remap@.len());
        }
        let nl: Line = [remap[l[0]], remap[l[1]]];
        r.push(nl);
        i += 1;
    }
    r
}

/// Points found by their keys, and the lines between them.
pub struct PointSetView<P> {
    pub points: Seq<P>,
    pub keys: Seq<u64>,
    pub lines: Seq<(usize, usize)>,
}

/// The points of a fractal, each stored once per key (the key stands for the
/// point's exact coordinates), with the lines that join them.
pub struct PointSet<P> {
    points: Vec<P>,
    lines: Vec<Line>,
    map: HashMap<u64, usize>,
    keys: Ghost<Seq<u64>>,
}

impl<P> View for PointSet<P> {
    type V = PointSetView<P>;

    closed spec fn view(&self) -> PointSetView<P> {
        PointSetView { points: self.points@, keys: self.keys@, lines: lines_view(self.lines@) }
    }
}

/// What always holds of a point set: one key per point, no key twice, and
/// every line joining stored points.
pub open spec fn point_set_shape<P>(v: PointSetView<P>) -> bool {
    &&& v.keys.len() == v.points.len()
    &&& v.keys.no_duplicates()
    &&& lines_within(v.lines, v.points.len())
}

/// `map` sends each key of `keys` to its position, and holds no other key.
spec fn map_names_keys(map: Map<u64, usize>, keys: Seq<u64>) -> bool {
    &&& forall|key: u64| #[trigger] map.contains_key(key) <==> keys.contains(key)
    &&& forall|k: int| 0 <= k < keys.len() ==> map[#[trigger] keys[k]] == k
}

proof fn lemma_named_keys_distinct(map: Map<u64, usize>, keys: Seq<u64>)
    requires
        map_names_keys(map, keys),
    ensures
        keys.no_duplicates(),
{
    assert forall|i: int, j: int| 0 <= i < keys.len() && 0 <= j < keys.len() && i != j
        implies keys[i] != keys[j] by {
        if keys[i] == keys[j] {
            assert(map[keys[i]] == i);
            assert(map[keys[j]] == j);
        }
    }
}

impl<P> PointSet<P> {
    #[verifier::type_invariant]
    spec fn wf(&self) -> bool {
        &&& self.keys@.len() == self.points@.len()
        &&& map_names_keys(self.map@, self.keys@)
        &&& lines_within(lines_view(self.lines@), self.points@.len())
    }

    /// No point and no line.
    pub fn new() -> (s: Self)
        ensures
            point_set_shape(s@),
            s@.points == Seq::<P>::empty(),
            s@.keys == Seq::<u64>::empty(),
            s@.lines == Seq::<(usize, usize)>::empty(),
    {
        let s = Self { points: Vec::new(), lines: Vec::new(), map: HashMap::new(), keys: Ghost(Seq::empty()) };
        proof {
            assert(lines_view(s.lines@) =~= Seq::<(usize, usize)>::empty());
        }
        s
    }

    /// The index of the point stored under `key`, storing `p` under it first
    /// when there is none; the flag tells whether `p` was stored.
    pub fn find_or_add(&mut self, p: P, key: u64) -> (r: (usize, bool))
        ensures
            point_set_shape(final(self)@),
            final(self)@.lines == old(self)@.lines,
            old(self)@.keys.contains(key) ==> !r.1 && final(self)@ == old(self)@ && r.0 < old(self)@.keys.len()
                && old(self)@.keys[r.0 as int] == key,
            !old(self)@.keys.contains(key) ==> r.1 && r.0 == old(self)@.points.len()
                && final(self)@.points == old(self)@.points.push(p)
                && final(self)@.keys == old(self)@.keys.push(key),
    {
        proof {
            use_type_invariant(&*self);
            lemma_named_keys_distinct(self.map@, self.keys@);
        }
        match self.map.get(&key) {
            Some(idx) => {
                let i = *idx;
                proof {
                    let w = choose|w: int| 0 <= w < self.keys@.len() && self.keys@[w] == key;
                    assert(self.map@[self.keys@[w]] == w);
                }
                (i, false)
            }
            None => {
                let mut taken = PointSet::new();
                std::mem::swap(self, &mut taken);
                proof {
                    use_type_invariant(&taken);
                }
                let PointSet { mut points, lines, mut map, keys } = taken;
                let idx = points.len();
                let ghost old_keys = keys@;
                proof {
                    if old_keys.contains(key) {
                        let w = choose|w: int| 0 <= w < old_keys.len() && old_keys[w] == key;
                        assert(map@.contains_key(old_keys[w]));
                    }
                }
                points.push(p);
                map.insert(key, idx);
                let ghost new_keys = old_keys.push(key);
                proof {
                    assert forall|k2: u64| #[trigger] map@.contains_key(k2) <==> new_keys.contains(k2) by {
                        if old_keys.contains(k2) {
                            let w = choose|w: int| 0 <= w < old_keys.len() && old_keys[w] == k2;
                            assert(new_keys[w] == k2);
                        }
                        if new_keys.contains(k2) && k2 != key {
                            let w = choose|w: int| 0 <= w < new_keys.len() && new_keys[w] == k2;
                            assert(old_keys[w] == k2);
                        }
                        assert(new_keys[old_keys.len() as int] == key);
                    }
                    assert forall|k: int| 0 <= k < new_keys.len() implies map@[#[trigger] new_keys[k]] == k by {
                        if k < old_keys.len() {
                            assert(new_keys[k] == old_keys[k]);
                            assert(old_keys[k] != key);
                        }
                    }
                    assert forall|k: int| 0 <= k < lines_view(lines@).len() implies
                        #[trigger] lines_view(lines@)[k].0 < points@.len()
                        && lines_view(lines@)[k].1 < points@.len() by {
                    }
                    lemma_named_keys_distinct(map@, new_keys);
                }
                *self = PointSet { points, lines, map, keys: Ghost(new_keys) };
                (idx, true)
            }
        }
    }

    /// Records a line between two stored points.
    pub fn add_line(&mut self, a: usize, b: usize)
        requires
            a < old(self)@.points.len(),
            b < old(self)@.points.len(),
        ensures
            point_set_shape(final(self)@),
            final(self)@.points == old(self)@.points,
            final(self)@.keys == old(self)@.keys,
            final(self)@.lines == old(self)@.lines.push((a, b)),
    {
        proof {
            use_type_invariant(&*self);
        }
        let mut taken = PointSet::new();
        std::mem::swap(self, &mut taken);
        proof {
            use_type_invariant(&taken);
        }
        let PointSet { points, mut lines, map, keys } = taken;
        let ghost before = lines@;
        let l: Line = [a, b];
        lines.push(l);
        proof {
            assert(lines_view(lines@) =~= lines_view(before).push((a, b)));
            lemma_named_keys_distinct(map@, keys@);
        }
        *self = PointSet { points, lines, map, keys };
    }

    /// The stored points, in the order in which they were first stored.
    pub fn points(&self) -> (r: &[P])
        ensures
            r@ == self@.points,
    {
        self.points.as_slice()
    }

    /// The points and the lines.
    pub fn into_parts(self) -> (r: (Vec<P>, Vec<Line>))
        ensures
            r.0@ == self@.points,
            lines_view(r.1@) == self@.lines,
            point_set_shape(self@),
    {
        proof {
            use_type_invariant(&self);
            lemma_named_keys_distinct(self.map@, self.keys@);
        }
        let PointSet { points, lines, map: _, keys: _ } = self;
        (points, lines)
    }
}

/// A copy of the figure waiting to be expanded, with the number of times it
/// was already expanded and the number of times its branch may be expanded.
#[derive(Clone, Copy, Debug)]
pub struct Branch<D> {
    pub data: D,
    pub depth: usize,
    pub max_allowed: usize,
}

impl<D> Branch<D> {
    /// Whether the copy is expanded no further.
    pub fn is_leaf(&self) -> (b: bool)
        ensures
            b == (self.depth >= self.max_allowed),
    {
        self.depth >= self.max_allowed
    }
}

/// The copies still to expand when each branch may get extra iterations,
/// with the cap on the depth of every branch.
pub struct ExpansionView<D> {
    pub items: Seq<Branch<D>>,
    pub max_depth: nat,
}

/// The work list of a depth-first expansion in which every branch carries
/// its own iteration limit, never above a common cap.
pub struct ExpansionStack<D> {
    items: Vec<Branch<D>>,
    max_depth: usize,
}

impl<D> View for ExpansionStack<D> {
    type V = ExpansionView<D>;

    closed spec fn view(&self) -> ExpansionView<D> {
        ExpansionView { items: self.items@, max_depth: self.max_depth as nat }
    }
}

/// Every waiting copy has a depth within its limit and a limit within the cap.
pub open spec fn depths_bounded<D>(items: Seq<Branch<D>>, max_depth: nat) -> bool {
    forall|k: int| 0 <= k < items.len() ==> #[trigger] items[k].depth <= items[k].max_allowed
        && items[k].max_allowed <= max_depth
}

impl<D> ExpansionStack<D> {
    #[verifier::type_invariant]
    spec fn wf(&self) -> bool {
        depths_bounded(self.items@, self.max_depth as nat)
    }

    /// The initial copies, at depth zero with `iterations` expansions allowed,
    /// under a cap of three more expansions; the last copy is expanded first.
    pub fn new(initial: Vec<D>, iterations: usize) -> (s: Self)
        requires
            iterations + 3 <= usize::MAX,
        ensures
            s@.max_depth == iterations + 3,
            s@.items.len() == initial@.len(),
            forall|k: int| 0 <= k < initial@.len() ==> #[trigger] s@.items[k]
                == (Branch { data: initial@[k], depth: 0usize, max_allowed: iterations }),
            depths_bounded(s@.items, s@.max_depth),
    {
        let mut items: Vec<Branch<D>> = Vec::new();
        let mut rest = initial;
        let ghost init = rest@;
        let mut rev: Vec<D> = Vec::new();
        while rest.len() > 0
            invariant
                rest@.len() + rev@.len() == init.len(),
                forall|k: int| 0 <= k < rest@.len() ==> #[trigger] rest@[k] == init[k],
                forall|k: int| 0 <= k < rev@.len() ==> #[trigger] rev@[k] == init[init.len() - 1 - k],
            decreases rest@.len(),
        {
            let d = rest.pop().unwrap();
            rev.push(d);
        }
        while rev.len() > 0
            invariant
                rev@.len() + items@.len() == init.len(),
                forall|k: int| 0 <= k < rev@.len() ==> #[trigger] rev@[k] == init[init.len() - 1 - k],
                forall|k: int| 0 <= k < items@.len() ==> #[trigger] items@[k]
                    == (Branch { data: init[k], depth: 0usize, max_allowed: iterations }),
            decreases rev@.len(),
        {
            let d = rev.pop().unwrap();
            items.push(Branch { data: d, depth: 0, max_allowed: iterations });
        }
        Self { items, max_depth: iterations + 3 }
    }

    /// The cap on the depth of every branch.
    pub fn max_depth(&self) -> (m: usize)
        ensures
            m == self@.max_depth,
    {
        self.max_depth
    }

    /// Takes the copy to expand next (the last one added).
    pub fn pop(&mut self) -> (r: Option<Branch<D>>)
        ensures
            depths_bounded(final(self)@.items, final(self)@.max_depth),
            final(self)@.max_depth == old(self)@.max_depth,
            old(self)@.items.len() == 0 ==> r is None && final(self)@ == old(self)@,
            old(self)@.items.len() > 0 ==> r == Some(old(self)@.items.last())
                && final(self)@.items == old(self)@.items.drop_last(),
            r matches Some(b) ==> b.depth <= b.max_allowed && b.max_allowed <= old(self)@.max_depth,
    {
        let mut taken = ExpansionStack { items: Vec::new(), max_depth: 0 };
        std::mem::swap(self, &mut taken);
        proof {
            use_type_invariant(&taken);
        }
        let ExpansionStack { mut items, max_depth } = taken;
        let ghost before = items@;
        let r = items.pop();
        proof {
            assert forall|k: int| 0 <= k < items@.len() implies #[trigger] items@[k].depth <= items@[k].max_allowed
                && items@[k].max_allowed <= max_depth by {
                assert(items@[k] == before[k]);
            }
            if before.len() > 0 {
                assert(before.last() == before[before.len() - 1]);
            }
        }
        *self = ExpansionStack { items, max_depth };
        r
    }

    /// Adds a child of a copy that is not a leaf: one level deeper, with the
    /// parent's limit raised by `bonus` but never above the cap.
    pub fn push_child(&mut self, parent_depth: usize, parent_max_allowed: usize, data: D, bonus: usize)
        requires
            parent_depth < parent_max_allowed,
            parent_max_allowed <= old(self)@.max_depth,
            parent_max_allowed + bonus <= usize::MAX,
        ensures
            depths_bounded(final(self)@.items, final(self)@.max_depth),
            final(self)@.max_depth == old(self)@.max_depth,
            final(self)@.items == old(self)@.items.push(Branch {
                data,
                depth: (parent_depth + 1) as usize,
                max_allowed: if parent_max_allowed + bonus < old(self)@.max_depth {
                    (parent_max_allowed + bonus) as usize
                } else {
                    old(self)@.max_depth as usize
                },
            }),
    {
        let mut taken = ExpansionStack { items: Vec::new(), max_depth: 0 };
        std::mem::swap(self, &mut taken);
        proof {
            use_type_invariant(&taken);
        }
        let ExpansionStack { mut items, max_depth } = taken;
        let ghost before = items@;
        let raised = parent_max_allowed + bonus;
        let max_allowed = if raised < max_depth { raised } else { max_depth };
        items.push(Branch { data, depth: parent_depth + 1, max_allowed });
        proof {
            assert forall|k: int| 0 <= k < items@.len() implies #[trigger] items@[k].depth <= items@[k].max_allowed
                && items@[k].max_allowed <= max_depth by {
                if k < items@.len() - 1 {
                    assert(items@[k] == before[k]);
                }
            }
        }
        *self = ExpansionStack { items, max_depth };
    }
}

/// No copy is ever expanded more than three times beyond the iteration count:
/// every copy taken from the work list has a depth of at most the cap.
pub proof fn law_expansion_depth_capped<D>(items: Seq<Branch<D>>, iterations: nat)
    requires
        depths_bounded(items, iterations + 3),
    ensures
        forall|k: int| 0 <= k < items.len() ==> #[trigger] items[k].depth <= iterations + 3,
{
}

/// Every value of `c` is among its first occurrences.
pub proof fn lemma_first_occurrences_contains(c: Seq<usize>, i: int)
    requires
        0 <= i < c.len(),
    ensures
        first_occurrences(c).contains(c[i]),
    decreases c.len(),
{
    let init = c.drop_last();
    let r = first_occurrences(init);
    if i < c.len() - 1 {
        assert(init[i] == c[i]);
        lemma_first_occurrences_contains(init, i);
        if !r.contains(c.last()) {
            let w = choose|w: int| 0 <= w < r.len() && r[w] == c[i];
            assert(r.push(c.last())[w] == c[i]);
        }
    } else {
        if !r.contains(c.last()) {
            assert(r.push(c.last())[r.len() as int] == c.last());
        }
    }
}

/// Merged lines never join a point to itself, and, when every index points
/// to a representative within range, they join representatives within range.
pub proof fn lemma_merged_lines(canonical: Seq<usize>, ls: Seq<(usize, usize)>)
    requires
        lines_within(ls, canonical.len()),
    ensures
        forall|k: int| 0 <= k < merged_line_pairs(canonical, ls).len() ==>
            (#[trigger] merged_line_pairs(canonical, ls)[k]).0 != merged_line_pairs(canonical, ls)[k].1
            && (exists|x: int| 0 <= x < canonical.len() && canonical[x] == merged_line_pairs(canonical, ls)[k].0)
            && (exists|y: int| 0 <= y < canonical.len() && canonical[y] == merged_line_pairs(canonical, ls)[k].1),
    decreases ls.len(),
{
    if ls.len() > 0 {
        let init = ls.drop_last();
        assert forall|k: int| 0 <= k < init.len() implies #[trigger] init[k].0 < canonical.len()
            && init[k].1 < canonical.len() by {
            assert(init[k] == ls[k]);
        }
        lemma_merged_lines(canonical, init);
        assert(ls.last() == ls[ls.len() - 1]);
        let m = merged_line_pairs(canonical, ls);
        let rest = merged_line_pairs(canonical, init);
        assert forall|k: int| 0 <= k < m.len() implies (#[trigger] m[k]).0 != m[k].1
            && (exists|x: int| 0 <= x < canonical.len() && canonical[x] == m[k].0)
            && (exists|y: int| 0 <= y < canonical.len() && canonical[y] == m[k].1) by {
            if k < rest.len() {
                assert(m[k] == rest[k]);
            } else {
                let x = ls.last().0 as int;
                let y = ls.last().1 as int;
                assert(canonical[x] == m[k].0);
                assert(canonical[y] == m[k].1);
            }
        }
    }
}

/// Regrouping keeps the figure well formed: after merging the points that
/// share a representative and numbering the representatives in order of
/// first appearance, every line joins two distinct points among the
/// representatives.
pub proof fn law_regroup_lines_within(canonical: Seq<usize>, ls: Seq<(usize, usize)>, reps: Seq<usize>, remap: Seq<usize>)
    requires
        forall|i: int| 0 <= i < canonical.len() ==> #[trigger] canonical[i] < canonical.len(),
        lines_within(ls, canonical.len()),
        is_compaction(canonical, reps, remap),
    ensures
        forall|k: int| 0 <= k < merged_line_pairs(canonical, ls).len() ==> {
            let l = #[trigger] merged_line_pairs(canonical, ls)[k];
            &&& remap[l.0 as int] < reps.len()
            &&& remap[l.1 as int] < reps.len()
            &&& remap[l.0 as int] != remap[l.1 as int]
        },
{
    lemma_merged_lines(canonical, ls);
    let m = merged_line_pairs(canonical, ls);
    assert forall|k: int| 0 <= k < m.len() implies {
        let l = #[trigger] m[k];
        &&& remap[l.0 as int] < reps.len()
        &&& remap[l.1 as int] < reps.len()
        &&& remap[l.0 as int] != remap[l.1 as int]
    } by {
        let l = m[k];
        let x = choose|x: int| 0 <= x < canonical.len() && canonical[x] == l.0;
        let y = choose|y: int| 0 <= y < canonical.len() && canonical[y] == l.1;
        lemma_first_occurrences_contains(canonical, x);
        lemma_first_occurrences_contains(canonical, y);
        assert(remap[l.0 as int] != usize::MAX);
        assert(remap[l.1 as int] != usize::MAX);
        assert(reps[remap[l.0 as int] as int] == l.0);
        assert(reps[remap[l.1 as int] as int] == l.1);
    }
}

/// The representatives among the first `n` points that lie in cell `c`, in
/// increasing order (`cells[i]` is the cell of point `i` when it is a
/// representative, and `None` when it was merged into another point).
pub open spec fn representatives_in(cells: Seq<Option<(i32, i32)>>, n: nat, c: (i32, i32)) -> Seq<usize>
    decreases n,
{
    if n == 0 || n > cells.len() {
        Seq::empty()
    } else {
        let rest = representatives_in(cells, (n - 1) as nat, c);
        if cells[n - 1] == Some(c) { rest.push((n - 1) as usize) } else { rest }
    }
}

/// The representatives in the column of three cells `(x, y - 1)` to `(x, y + 1)`.
pub open spec fn column_of_three(cells: Seq<Option<(i32, i32)>>, x: int, y: int) -> Seq<usize> {
    representatives_in(cells, cells.len(), (x as i32, (y - 1) as i32))
        + representatives_in(cells, cells.len(), (x as i32, y as i32))
        + representatives_in(cells, cells.len(), (x as i32, (y + 1) as i32))
}

/// The representatives in the nine cells around `c` (itself included), by
/// increasing column, then increasing row.
pub open spec fn neighborhood(cells: Seq<Option<(i32, i32)>>, c: (i32, i32)) -> Seq<usize> {
    column_of_three(cells, c.0 - 1, c.1 as int) + column_of_three(cells, c.0 as int, c.1 as int)
        + column_of_three(cells, c.0 + 1, c.1 as int)
}

/// Merging state of the vertices of a fractal: for each point met so far, its
/// representative and, for a representative, its cell.
pub struct MergeView {
    pub canonical: Seq<usize>,
    pub cells: Seq<Option<(i32, i32)>>,
}

/// Merges the points that lie close together, point after point: each point
/// either joins a representative found near it or becomes a representative
/// stored in its grid cell.
pub struct VertexMerger {
    canonical: Vec<usize>,
    grid: HashMap<u64, Vec<usize>>,
    cells: Ghost<Seq<Option<(i32, i32)>>>,
}

impl View for VertexMerger {
    type V = MergeView;

    closed spec fn view(&self) -> MergeView {
        MergeView { canonical: self.canonical@, cells: self.cells@ }
    }
}

/// Every point's representative is an earlier or the same point, which is its
/// own representative, and exactly the representatives have a cell.
pub open spec fn merge_consistent(m: MergeView) -> bool {
    &&& m.canonical.len() == m.cells.len()
    &&& forall|i: int| 0 <= i < m.canonical.len() ==> #[trigger] m.canonical[i] <= i
    &&& forall|i: int| 0 <= i < m.canonical.len() ==> m.canonical[#[trigger] m.canonical[i] as int] == m.canonical[i]
    &&& forall|i: int| 0 <= i < m.canonical.len() ==> (#[trigger] m.cells[i] is Some <==> m.canonical[i] == i)
}

impl VertexMerger {
    /// The merging state is consistent and the grid lists, for each cell, the
    /// representatives in it.
    #[verifier::type_invariant]
    spec fn wf(&self) -> bool {
        &&& merge_consistent(self@)
        &&& self.canonical@.len() < usize::MAX
        &&& grid_lists_cells(self.grid@, self.cells@)
    }

    /// No point yet.
    pub fn new() -> (m: Self)
        ensures
            m@.canonical == Seq::<usize>::empty(),
            m@.cells == Seq::<Option<(i32, i32)>>::empty(),
            merge_consistent(m@),
    {
        Self { canonical: Vec::new(), grid: HashMap::new(), cells: Ghost(Seq::empty()) }
    }

    /// The number of points met so far.
    pub fn len(&self) -> (n: usize)
        ensures
            n == self@.canonical.len(),
    {
        self.canonical.len()
    }

    fn cell_into(&self, c: (i32, i32), out: &mut Vec<usize>)
        ensures
            final(out)@ == old(out)@ + representatives_in(self@.cells, self@.cells.len(), c),
    {
        proof {
            use_type_invariant(self);
        }
        match self.grid.get(&encode(c)) {
            Some(members) => {
                let ghost before = out@;
                let mut k: usize = 0;
                while k < members.len()
                    invariant
                        k <= members@.len(),
                        out@ == before + members@.take(k as int),
                    decreases members@.len() - k,
                {
                    out.push(members[k]);
                    proof {
                        assert(members@.take(k + 1) =~= members@.take(k as int).push(members@[k as int]));
                    }
                    k += 1;
                }
                proof {
                    assert(members@.take(members@.len() as int) =~= members@);
                }
            },
            None => {
                proof {
                    assert(representatives_in(self@.cells, self@.cells.len(), c) =~= Seq::<usize>::empty());
                    assert(out@ + Seq::<usize>::empty() =~= out@);
                }
            },
        }
    }

    /// The representatives in the nine cells around `c`, by increasing column,
    /// then increasing row, each cell in the order its points were met.
    pub fn neighbors_of_cell(&self, c: (i32, i32)) -> (r: Vec<usize>)
        requires
            i32::MIN < c.0 < i32::MAX,
            i32::MIN < c.1 < i32::MAX,
        ensures
            r@ == neighborhood(self@.cells, c),
    {
        let mut r: Vec<usize> = Vec::new();
        let mut dx: i32 = -1;
        while dx <= 1
            invariant
                -1 <= dx <= 2,
                i32::MIN < c.0 < i32::MAX,
                i32::MIN < c.1 < i32::MAX,
                r@ == if dx == -1 {
                    Seq::<usize>::empty()
                } else if dx == 0 {
                    column_of_three(self@.cells, c.0 - 1, c.1 as int)
                } else if dx == 1 {
                    column_of_three(self@.cells, c.0 - 1, c.1 as int) + column_of_three(self@.cells, c.0 as int, c.1 as int)
                } else {
                    neighborhood(self@.cells, c)
                },
            decreases 2 - dx,
        {
            let ghost before = r@;
            self.cell_into((c.0 + dx, c.1 - 1), &mut r);
            self.cell_into((c.0 + dx, c.1), &mut r);
            self.cell_into((c.0 + dx, c.1 + 1), &mut r);
            proof {
                assert(r@ =~= before + column_of_three(self@.cells, c.0 + dx, c.1 as int));
                if dx == -1 {
                    assert(before + column_of_three(self@.cells, c.0 - 1, c.1 as int)
                        =~= column_of_three(self@.cells, c.0 - 1, c.1 as int));
                }
            }
            dx += 1;
        }
        r
    }

    /// Merges the next point into the representative `j` found near it.
    pub fn merge_into(&mut self, j: usize)
        requires
            j < old(self)@.canonical.len(),
            old(self)@.cells[j as int] is Some,
            old(self)@.canonical.len() + 1 < usize::MAX,
        ensures
            final(self)@.canonical == old(self)@.canonical.push(j),
            final(self)@.cells == old(self)@.cells.push(None),
            merge_consistent(final(self)@),
    {
        let mut taken = VertexMerger::new();
        std::mem::swap(self, &mut taken);
        proof {
            use_type_invariant(&taken);
        }
        let VertexMerger { mut canonical, grid, cells } = taken;
        let ghost old_canonical = canonical@;
        let ghost old_cells = cells@;
        let n = canonical.len();
        canonical.push(j);
        let ghost new_cells = old_cells.push(None);
        proof {
            assert forall|c: (i32, i32)| representatives_in(new_cells, new_cells.len(), c)
                == representatives_in(old_cells, old_cells.len(), c) by {
                lemma_representatives_prefix(new_cells, old_cells, old_cells.len(), c);
            }
            let m = MergeView { canonical: canonical@, cells: new_cells };
            assert forall|i: int| 0 <= i < m.canonical.len() implies m.canonical[#[trigger] m.canonical[i] as int] == m.canonical[i] by {
                if i < n {
                    assert(m.canonical[i] == old_canonical[i]);
                    assert(old_canonical[i] <= i);
                }
            }
            assert forall|i: int| 0 <= i < m.canonical.len() implies (#[trigger] m.cells[i] is Some <==> m.canonical[i] == i) by {
                if i < n {
                    assert(m.cells[i] == old_cells[i]);
                }
            }
            assert(merge_consistent(m));
        }
        *self = VertexMerger { canonical, grid, cells: Ghost(new_cells) };
    }

    /// Makes the next point a representative, stored in cell `c`.
    pub fn add_representative(&mut self, c: (i32, i32))
        requires
            old(self)@.canonical.len() + 1 < usize::MAX,
        ensures
            final(self)@.canonical == old(self)@.canonical.push(old(self)@.canonical.len() as usize),
            final(self)@.cells == old(self)@.cells.push(Some(c)),
            merge_consistent(final(self)@),
    {
        let mut taken = VertexMerger::new();
        std::mem::swap(self, &mut taken);
        proof {
            use_type_invariant(&taken);
        }
        let VertexMerger { mut canonical, mut grid, cells } = taken;
        let ghost old_canonical = canonical@;
        let ghost old_cells = cells@;
        let n = canonical.len();
        canonical.push(n);
        let code = encode(c);
        let mut members: Vec<usize> = match grid.remove(&code) {
            Some(v) => v,
            None => Vec::new(),
        };
        members.push(n);
        grid.insert(code, members);
        let ghost new_cells = old_cells.push(Some(c));
        proof {
            assert forall|d: (i32, i32)| representatives_in(new_cells, new_cells.len(), d)
                == if d == c {
                    representatives_in(old_cells, old_cells.len(), d).push(n)
                } else {
                    representatives_in(old_cells, old_cells.len(), d)
                } by {
                lemma_representatives_prefix(new_cells, old_cells, old_cells.len(), d);
            }
            assert forall|d: (i32, i32)| #[trigger] grid@.contains_key(cell_code(d))
                implies grid@[cell_code(d)]@ == representatives_in(new_cells, new_cells.len(), d) by {
                lemma_cell_code_injective(c, d);
            }
            assert forall|d: (i32, i32)| !#[trigger] grid@.contains_key(cell_code(d))
                implies representatives_in(new_cells, new_cells.len(), d).len() == 0 by {
                lemma_cell_code_injective(c, d);
            }
            let m = MergeView { canonical: canonical@, cells: new_cells };
            assert forall|i: int| 0 <= i < m.canonical.len() implies m.canonical[#[trigger] m.canonical[i] as int] == m.canonical[i] by {
                if i < n {
                    assert(m.canonical[i] == old_canonical[i]);
                    assert(old_canonical[i] <= i);
                }
            }
            assert forall|i: int| 0 <= i < m.canonical.len() implies (#[trigger] m.cells[i] is Some <==> m.canonical[i] == i) by {
                if i < n {
                    assert(m.cells[i] == old_cells[i]);
                }
            }
            assert(merge_consistent(m));
            assert(grid_lists_cells(grid@, new_cells));
        }
        *self = VertexMerger { canonical, grid, cells: Ghost(new_cells) };
    }

    /// The representative of every point, in the order the points were met.
    pub fn into_canonical(self) -> (r: Vec<usize>)
        ensures
            r@ == self@.canonical,
            merge_consistent(self@),
    {
        proof {
            use_type_invariant(&self);
        }
        self.canonical
    }
}

/// The grid lists, for each cell, the representatives in it, and a cell that
/// the grid does not name holds no representative.
spec fn grid_lists_cells(grid: Map<u64, Vec<usize>>, cells: Seq<Option<(i32, i32)>>) -> bool {
    &&& forall|c: (i32, i32)| #[trigger] grid.contains_key(cell_code(c))
        ==> grid[cell_code(c)]@ == representatives_in(cells, cells.len(), c)
    &&& forall|c: (i32, i32)| !#[trigger] grid.contains_key(cell_code(c))
        ==> representatives_in(cells, cells.len(), c).len() == 0
}

/// Appending a point to the merging state leaves the representatives of every
/// cell among the earlier points as they were.
proof fn lemma_representatives_prefix(longer: Seq<Option<(i32, i32)>>, shorter: Seq<Option<(i32, i32)>>, n: nat, c: (i32, i32))
    requires
        n <= shorter.len() < longer.len(),
        forall|i: int| 0 <= i < shorter.len() ==> #[trigger] longer[i] == shorter[i],
        longer.len() == shorter.len() + 1,
    ensures
        representatives_in(longer, n, c) == representatives_in(shorter, n, c),
        n == shorter.len() ==> representatives_in(longer, n + 1, c) == if longer[n as int] == Some(c) {
            representatives_in(shorter, n, c).push(n as usize)
        } else {
            representatives_in(shorter, n, c)
        },
    decreases n,
{
    if n > 0 {
        lemma_representatives_prefix(longer, shorter, (n - 1) as nat, c);
    }
}

/// Merging numbers the points consistently: every representative is its own
/// representative and no later than the points it stands for, so the
/// representatives can be numbered by `compact_representatives`.
pub proof fn law_merge_representatives(m: MergeView)
    requires
        merge_consistent(m),
    ensures
        forall|i: int| 0 <= i < m.canonical.len() ==> #[trigger] m.canonical[i] < m.canonical.len(),
        forall|i: int| 0 <= i < m.canonical.len() ==> m.canonical[#[trigger] m.canonical[i] as int] == m.canonical[i],
{
}

} // verus!
