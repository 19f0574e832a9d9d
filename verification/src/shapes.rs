use vstd::prelude::*;
use crate::types::{Line, line_view, lines_view, lines_within};

verus! {

/// Abstract state of a shape: its points and, for each line, the indices of
/// the two points it joins.
pub struct ShapeView<P> {
    pub points: Seq<P>,
    pub lines: Seq<(usize, usize)>,
}

/// The index that a point keeps when the point at `idx` is removed.
pub open spec fn shifted(i: usize, idx: usize) -> usize {
    if i > idx { (i - 1) as usize } else { i }
}

/// The lines left after removing the point at `idx`: the lines that touch it
/// are dropped, the others keep their order and follow their points down.
pub open spec fn lines_after_removal(ls: Seq<(usize, usize)>, idx: usize) -> Seq<(usize, usize)>
    decreases ls.len(),
{
    if ls.len() == 0 {
        Seq::empty()
    } else {
        let rest = lines_after_removal(ls.drop_last(), idx);
        let l = ls.last();
        if l.0 == idx || l.1 == idx {
            rest
        } else {
            rest.push((shifted(l.0, idx), shifted(l.1, idx)))
        }
    }
}

/// Lines that survive the removal of a point stay within the remaining points.
pub proof fn lemma_lines_after_removal_within(ls: Seq<(usize, usize)>, idx: usize, n: nat)
    requires
        lines_within(ls, n),
        idx < n,
    ensures
        lines_within(lines_after_removal(ls, idx), (n - 1) as nat),
    decreases ls.len(),
{
    if ls.len() > 0 {
        let init = ls.drop_last();
        assert forall|k: int| 0 <= k < init.len() implies #[trigger] init[k].0 < n && init[k].1 < n by {
            assert(init[k] == ls[k]);
        }
        lemma_lines_after_removal_within(init, idx, n);
        let rest = lines_after_removal(init, idx);
        let l = ls.last();
        assert(l == ls[ls.len() - 1]);
        if !(l.0 == idx || l.1 == idx) {
            let out = rest.push((shifted(l.0, idx), shifted(l.1, idx)));
            assert forall|k: int| 0 <= k < out.len() implies #[trigger] out[k].0 < (n - 1) as nat
                && out[k].1 < (n - 1) as nat by {
                if k < rest.len() {
                    assert(out[k] == rest[k]);
                }
            }
        }
    }
}

/// A shape made of points joined by freely chosen lines.
#[derive(Clone, Debug)]
pub struct FreeLinearShape<P> {
    points: Vec<P>,
    lines: Vec<Line>,
}

impl<P> View for FreeLinearShape<P> {
    type V = ShapeView<P>;

    closed spec fn view(&self) -> ShapeView<P> {
        ShapeView { points: self.points@, lines: lines_view(self.lines@) }
    }
}

impl<P> FreeLinearShape<P> {
    /// Every line joins two existing points.
    pub open spec fn wf(&self) -> bool {
        lines_within(self@.lines, self@.points.len())
    }

    /// An empty shape.
    pub fn new() -> (s: Self)
        ensures
            s@.points == Seq::<P>::empty(),
            s@.lines == Seq::<(usize, usize)>::empty(),
            s.wf(),
    {
        Self { points: Vec::new(), lines: Vec::new() }
    }

    /// Adds a line from point `a` to point `b` when both exist; otherwise
    /// leaves the shape unchanged.
    pub fn add_line_segment(&mut self, a: usize, b: usize)
        ensures
            final(self)@.points == old(self)@.points,
            final(self)@.lines == if a < old(self)@.points.len() && b < old(self)@.points.len() {
                old(self)@.lines.push((a, b))
            } else {
                old(self)@.lines
            },
            old(self).wf() ==> final(self).wf(),
    {
        if a < self.points.len() && b < self.points.len() {
            let l: Line = [a, b];
            self.lines.push(l);
            proof {
                assert(lines_view(self.lines@) =~= lines_view(old(self).lines@).push((a, b)));
            }
        }
    }

    /// The points of the shape.
    pub fn points(&self) -> (r: &[P])
        ensures
            r@ == self@.points,
    {
        self.points.as_slice()
    }

    /// The lines of the shape.
    pub fn lines(&self) -> (r: &[Line])
        ensures
            lines_view(r@) == self@.lines,
    {
        self.lines.as_slice()
    }

    /// Replaces the point at `idx`, leaving every line as it was.
    pub fn set_point(&mut self, idx: usize, p: P)
        requires
            idx < old(self)@.points.len(),
        ensures
            final(self)@.points == old(self)@.points.update(idx as int, p),
            final(self)@.lines == old(self)@.lines,
            old(self).wf() ==> final(self).wf(),
    {
        self.points.set(idx, p);
    }

    /// Appends a point; from the second point on, the new point is joined to
    /// the previous last point.
    pub fn add_point(&mut self, p: P)
        ensures
            final(self)@.points == old(self)@.points.push(p),
            final(self)@.lines == if old(self)@.points.len() > 0 {
                old(self)@.lines.push(((old(self)@.points.len() - 1) as usize, old(self)@.points.len() as usize))
            } else {
                old(self)@.lines
            },
            old(self).wf() ==> final(self).wf(),
    {
        if !self.points.is_empty() {
            let n = self.points.len();
            let l: Line = [n - 1, n];
            self.lines.push(l);
            proof {
                assert(lines_view(self.lines@) =~= lines_view(old(self).lines@).push(((n - 1) as usize, n)));
            }
        }
        self.points.push(p);
    }

    /// Removes the point at `idx` when it exists: the lines that touch it are
    /// removed and the other lines are renumbered to follow their points.
    pub fn remove_point(&mut self, idx: usize)
        ensures
            idx >= old(self)@.points.len() ==> final(self)@ == old(self)@,
            idx < old(self)@.points.len() ==> final(self)@.points == old(self)@.points.remove(idx as int),
            idx < old(self)@.points.len() ==> final(self)@.lines == lines_after_removal(old(self)@.lines, idx),
            old(self).wf() ==> final(self).wf(),
    {
        if idx >= self.points.len() {
            return;
        }
        self.points.remove(idx);
        let ghost old_lines = lines_view(self.lines@);
        let mut kept: Vec<Line> = Vec::new();
        let mut i: usize = 0;
        while i < self.lines.len()
            invariant
                i <= self.lines.len(),
                old_lines == lines_view(self.lines@),
                lines_view(kept@) == lines_after_removal(old_lines.take(i as int), idx),
            decreases self.lines.len() - i,
        {
            let l = self.lines[i];
            proof {
                assert(old_lines.take(i + 1).drop_last() =~= old_lines.take(i as int));
                assert(old_lines.take(i + 1).last() == line_view(l));
            }
            if l[0] != idx && l[1] != idx {
                let a = if l[0] > idx { l[0] - 1 } else { l[0] };
                let b = if l[1] > idx { l[1] - 1 } else { l[1] };
                let nl: Line = [a, b];
                let ghost before = kept@;
                kept.push(nl);
                proof {
                    assert(lines_view(kept@) =~= lines_view(before).push((a, b)));
                }
            }
            i += 1;
        }
        proof {
            assert(old_lines.take(self.lines@.len() as int) =~= old_lines);
            if old(self).wf() {
                lemma_lines_after_removal_within(old_lines, idx, old(self)@.points.len());
            }
        }
        self.lines = kept;
    }
}

/// The lines of a closed polygon on `n` points: each point is joined to the
/// next, and from three points on the last is joined back to the first.
pub open spec fn polygon_line_pairs(n: nat) -> Seq<(usize, usize)> {
    if n < 2 {
        Seq::empty()
    } else if n == 2 {
        path_line_pairs(n)
    } else {
        path_line_pairs(n).push(((n - 1) as usize, 0usize))
    }
}

/// The lines of an open path on `n` points: each point is joined to the next.
pub open spec fn path_line_pairs(n: nat) -> Seq<(usize, usize)> {
    if n < 2 {
        Seq::empty()
    } else {
        Seq::new((n - 1) as nat, |i: int| (i as usize, (i + 1) as usize))
    }
}

/// The lines joining each of the first `n` points to the next one.
pub fn path_lines(n: usize) -> (r: Vec<Line>)
    ensures
        lines_view(r@) == path_line_pairs(n as nat),
{
    let mut r: Vec<Line> = Vec::new();
    if n < 2 {
        proof {
            assert(lines_view(r@) =~= Seq::<(usize, usize)>::empty());
        }
        return r;
    }
    let mut i: usize = 0;
    while i < n - 1
        invariant
            n >= 2,
            i <= n - 1,
            lines_view(r@) =~= Seq::new(i as nat, |j: int| (j as usize, (j + 1) as usize)),
        decreases n - 1 - i,
    {
        let l: Line = [i, i + 1];
        let ghost before = r@;
        r.push(l);
        proof {
            assert(lines_view(r@) =~= lines_view(before).push((i, (i + 1) as usize)));
        }
        i += 1;
    }
    r
}

/// The lines of a closed polygon on `n` points.
pub fn polygon_lines(n: usize) -> (r: Vec<Line>)
    ensures
        lines_view(r@) == polygon_line_pairs(n as nat),
{
    let mut r = path_lines(n);
    if n > 2 {
        let l: Line = [n - 1, 0];
        let ghost before = r@;
        r.push(l);
        proof {
            assert(lines_view(r@) =~= lines_view(before).push(((n - 1) as usize, 0usize)));
        }
    }
    r
}

/// The lines of a model read from a file: the lines it lists, or, when it
/// lists none and has at least two points, a closed polygon (for a polygon
/// model) or an open path through its points.
pub fn model_lines(n_points: usize, is_polygon: bool, listed: Vec<Line>) -> (r: Vec<Line>)
    ensures
        lines_view(r@) == if listed@.len() == 0 && n_points >= 2 {
            if is_polygon { polygon_line_pairs(n_points as nat) } else { path_line_pairs(n_points as nat) }
        } else {
            lines_view(listed@)
        },
{
    if listed.is_empty() && n_points >= 2 {
        if is_polygon { polygon_lines(n_points) } else { path_lines(n_points) }
    } else {
        listed
    }
}

/// Every line of a polygon joins two of its points.
pub proof fn lemma_polygon_lines_within(n: nat)
    ensures
        lines_within(polygon_line_pairs(n), n),
{
    let ls = polygon_line_pairs(n);
    assert forall|k: int| 0 <= k < ls.len() implies #[trigger] ls[k].0 < n && ls[k].1 < n by {
        if n >= 2 && k < n - 1 {
            assert(ls[k] == path_line_pairs(n)[k]);
        }
    }
}

/// A closed polygon: its lines always join each point to the next and the
/// last back to the first.
#[derive(Clone, Debug)]
pub struct Polygon<P> {
    points: Vec<P>,
    lines: Vec<Line>,
}

impl<P> View for Polygon<P> {
    type V = ShapeView<P>;

    closed spec fn view(&self) -> ShapeView<P> {
        ShapeView { points: self.points@, lines: lines_view(self.lines@) }
    }
}

impl<P> Polygon<P> {
    /// The lines are those of the closed polygon on the points.
    pub open spec fn wf(&self) -> bool {
        self@.lines == polygon_line_pairs(self@.points.len())
    }

    /// An empty polygon.
    pub fn new() -> (s: Self)
        ensures
            s@.points == Seq::<P>::empty(),
            s@.lines == Seq::<(usize, usize)>::empty(),
            s.wf(),
    {
        let s = Self { points: Vec::new(), lines: Vec::new() };
        proof {
            assert(s@.lines =~= Seq::<(usize, usize)>::empty());
        }
        s
    }

    /// The polygon through the given points, in order.
    pub fn from_points(pts: Vec<P>) -> (s: Self)
        ensures
            s@.points == pts@,
            s.wf(),
    {
        let lines = polygon_lines(pts.len());
        Self { points: pts, lines }
    }

    fn rebuild_lines(&mut self)
        ensures
            final(self)@.points == old(self)@.points,
            final(self).wf(),
    {
        self.lines = polygon_lines(self.points.len());
    }

    /// The points of the polygon.
    pub fn points(&self) -> (r: &[P])
        ensures
            r@ == self@.points,
    {
        self.points.as_slice()
    }

    /// The lines of the polygon.
    pub fn lines(&self) -> (r: &[Line])
        ensures
            lines_view(r@) == self@.lines,
    {
        self.lines.as_slice()
    }

    /// Replaces the point at `idx`; the lines do not change.
    pub fn set_point(&mut self, idx: usize, p: P)
        requires
            idx < old(self)@.points.len(),
        ensures
            final(self)@.points == old(self)@.points.update(idx as int, p),
            final(self)@.lines == old(self)@.lines,
            old(self).wf() ==> final(self).wf(),
    {
        self.points.set(idx, p);
    }

    /// Appends a point and closes the polygon through it.
    pub fn add_point(&mut self, p: P)
        ensures
            final(self)@.points == old(self)@.points.push(p),
            final(self).wf(),
    {
        self.points.push(p);
        self.rebuild_lines();
    }

    /// Removes the point at `idx` when it exists and closes the polygon
    /// through the remaining points.
    pub fn remove_point(&mut self, idx: usize)
        ensures
            idx >= old(self)@.points.len() ==> final(self)@ == old(self)@,
            idx < old(self)@.points.len() ==> final(self)@.points == old(self)@.points.remove(idx as int),
            idx < old(self)@.points.len() ==> final(self).wf(),
    {
        if idx < self.points.len() {
            self.points.remove(idx);
            self.rebuild_lines();
        }
    }
}

/// The two end points of each line, in the order of the lines.
pub fn line_segments<P: Copy>(points: &[P], lines: &[Line]) -> (r: Vec<[P; 2]>)
    requires
        lines_within(lines_view(lines@), points@.len()),
    ensures
        r@.len() == lines@.len(),
        forall|k: int| 0 <= k < lines@.len() ==> (#[trigger] r@[k])[0] == points@[lines@[k][0] as int]
            && r@[k][1] == points@[lines@[k][1] as int],
{
    let mut r: Vec<[P; 2]> = Vec::new();
    let mut i: usize = 0;
    while i < lines.len()
        invariant
            i <= lines@.len(),
            lines_within(lines_view(lines@), points@.len()),
            r@.len() == i,
            forall|k: int| 0 <= k < i ==> (#[trigger] r@[k])[0] == points@[lines@[k][0] as int]
                && r@[k][1] == points@[lines@[k][1] as int],
        decreases lines@.len() - i,
    {
        let l = lines[i];
        proof {
            assert(lines_view(lines@)[i as int] == line_view(lines@[i as int]));
            assert(lines_view(lines@)[i as int].0 < points@.len());
        }
        let seg: [P; 2] = [points[l[0]], points[l[1]]];
        r.push(seg);
        i += 1;
    }
    r
}

/// A shape of either kind, as the editors hold it.
#[derive(Clone, Debug)]
pub enum ShapeWrapper<P> {
    Polygon(Polygon<P>),
    FreeLinear(FreeLinearShape<P>),
}

impl<P> View for ShapeWrapper<P> {
    type V = ShapeView<P>;

    open spec fn view(&self) -> ShapeView<P> {
        match self {
            ShapeWrapper::Polygon(p) => p@,
            ShapeWrapper::FreeLinear(f) => f@,
        }
    }
}

impl<P> ShapeWrapper<P> {
    /// The shape's own invariant holds.
    pub open spec fn wf(&self) -> bool {
        match self {
            ShapeWrapper::Polygon(p) => p.wf(),
            ShapeWrapper::FreeLinear(f) => f.wf(),
        }
    }

    /// The name shown to the user.
    pub fn name(&self) -> (r: &'static str)
        ensures
            self is Polygon ==> r@ == "Polygone"@,
            self is FreeLinear ==> r@ == "Forme libre"@,
    {
        match self {
            ShapeWrapper::Polygon(_) => "Polygone",
            ShapeWrapper::FreeLinear(_) => "Forme libre",
        }
    }

    /// The name of the shape's class.
    pub fn class_name(&self) -> (r: &'static str)
        ensures
            self is Polygon ==> r@ == "cPolygon"@,
            self is FreeLinear ==> r@ == "cFreeLinearShape"@,
    {
        match self {
            ShapeWrapper::Polygon(_) => "cPolygon",
            ShapeWrapper::FreeLinear(_) => "cFreeLinearShape",
        }
    }

    /// The kind written to figure files.
    pub fn file_type(&self) -> (r: &'static str)
        ensures
            r@ == file_kind(*self),
    {
        match self {
            ShapeWrapper::Polygon(_) => "Polygon",
            ShapeWrapper::FreeLinear(_) => "FreeLinear",
        }
    }

    /// The number of points.
    pub fn point_count(&self) -> (n: usize)
        ensures
            n == self@.points.len(),
    {
        match self {
            ShapeWrapper::Polygon(p) => p.points().len(),
            ShapeWrapper::FreeLinear(f) => f.points().len(),
        }
    }

    /// The points of the shape.
    pub fn points(&self) -> (r: &[P])
        ensures
            r@ == self@.points,
    {
        match self {
            ShapeWrapper::Polygon(p) => p.points(),
            ShapeWrapper::FreeLinear(f) => f.points(),
        }
    }

    /// The lines of the shape.
    pub fn lines(&self) -> (r: &[Line])
        ensures
            lines_view(r@) == self@.lines,
    {
        match self {
            ShapeWrapper::Polygon(p) => p.lines(),
            ShapeWrapper::FreeLinear(f) => f.lines(),
        }
    }

    /// Adds a point as the shape's kind does.
    pub fn add_point(&mut self, p: P)
        ensures
            final(self)@.points == old(self)@.points.push(p),
            *old(self) is Polygon ==> *final(self) is Polygon && final(self).wf(),
            *old(self) is FreeLinear ==> *final(self) is FreeLinear
                && final(self)@.lines == if old(self)@.points.len() > 0 {
                    old(self)@.lines.push(((old(self)@.points.len() - 1) as usize, old(self)@.points.len() as usize))
                } else {
                    old(self)@.lines
                },
            old(self).wf() ==> final(self).wf(),
    {
        match self {
            ShapeWrapper::Polygon(s) => s.add_point(p),
            ShapeWrapper::FreeLinear(s) => s.add_point(p),
        }
    }

    /// Removes a point as the shape's kind does.
    pub fn remove_point(&mut self, idx: usize)
        ensures
            idx >= old(self)@.points.len() ==> final(self)@ == old(self)@,
            idx < old(self)@.points.len() ==> final(self)@.points == old(self)@.points.remove(idx as int),
            *old(self) is Polygon ==> *final(self) is Polygon,
            *old(self) is FreeLinear ==> *final(self) is FreeLinear,
            idx < old(self)@.points.len() && *old(self) is Polygon ==> final(self).wf(),
            idx < old(self)@.points.len() && *old(self) is FreeLinear
                ==> final(self)@.lines == lines_after_removal(old(self)@.lines, idx),
            old(self).wf() ==> final(self).wf(),
    {
        match self {
            ShapeWrapper::Polygon(s) => s.remove_point(idx),
            ShapeWrapper::FreeLinear(s) => s.remove_point(idx),
        }
    }
}

/// Every shape of either kind that keeps its invariant has its lines within its points.
pub proof fn law_shape_lines_within<P>(s: ShapeWrapper<P>)
    requires
        s.wf(),
    ensures
        lines_within(s@.lines, s@.points.len()),
{
    if s is Polygon {
        lemma_polygon_lines_within(s@.points.len());
    }
}

/// The test "joins two of the first `n` points".
pub open spec fn joins_points_below(n: nat) -> spec_fn((usize, usize)) -> bool {
    |l: (usize, usize)| l.0 < n && l.1 < n
}

/// The shape that a figure file describes: a closed polygon through the points,
/// or a free shape with the points and those listed lines that join two of them.
pub open spec fn file_shape_view<P>(is_polygon: bool, points: Seq<P>, lines: Seq<(usize, usize)>) -> ShapeView<P> {
    ShapeView {
        points,
        lines: if is_polygon {
            polygon_line_pairs(points.len())
        } else {
            lines.filter(joins_points_below(points.len()))
        },
    }
}

/// The kind that a figure file records for a shape.
pub open spec fn file_kind<P>(s: ShapeWrapper<P>) -> Seq<char> {
    if s is Polygon { "Polygon"@ } else { "FreeLinear"@ }
}

/// The kinds that a figure file may give for a polygon.
pub open spec fn names_polygon(kind: Seq<char>) -> bool {
    kind == "Polygon"@ || kind == "cPolygon"@
}

/// Whether the kind written in a figure file names a polygon: the kind that
/// figure files are written with, or the shape's class name.
pub fn is_polygon_kind(kind: &String) -> (b: bool)
    ensures
        b == names_polygon(kind@),
{
    let plain = "Polygon".to_owned();
    let class = "cPolygon".to_owned();
    *kind == plain || *kind == class
}

/// Rebuilds the shape that a figure file describes from its kind, its points
/// and its listed lines: a polygon is closed through the points (its listed
/// lines are not used); a free shape gets the points and every listed line that
/// joins two of them, in the order listed.
pub fn shape_from_file<P>(is_polygon: bool, points: Vec<P>, lines: Vec<Line>) -> (s: ShapeWrapper<P>)
    ensures
        s@ == file_shape_view(is_polygon, points@, lines_view(lines@)),
        s@.points == points@,
        is_polygon ==> s is Polygon && s.wf(),
        !is_polygon ==> s is FreeLinear && s.wf()
            && s@.lines == lines_view(lines@).filter(joins_points_below(points@.len())),
{
    if is_polygon {
        return ShapeWrapper::Polygon(Polygon::from_points(points));
    }
    let n = points.len();
    let ghost ls = lines_view(lines@);
    let mut kept: Vec<Line> = Vec::new();
    let mut i: usize = 0;
    while i < lines.len()
        invariant
            i <= lines@.len(),
            n == points@.len(),
            ls == lines_view(lines@),
            lines_view(kept@) == ls.take(i as int).filter(joins_points_below(n as nat)),
        decreases lines@.len() - i,
    {
        let l = lines[i];
        proof {
            assert(ls.take(i + 1) =~= ls.take(i as int).push(line_view(l)));
            ls.take(i as int).lemma_filter_push(line_view(l), joins_points_below(n as nat));
        }
        if l[0] < n && l[1] < n {
            let ghost before = kept@;
            kept.push(l);
            proof {
                assert(lines_view(kept@) =~= lines_view(before).push(line_view(l)));
            }
        }
        i += 1;
    }
    proof {
        assert(ls.take(lines@.len() as int) =~= ls);
        let f = ls.filter(joins_points_below(n as nat));
        assert forall|k: int| 0 <= k < f.len() implies #[trigger] f[k].0 < n && f[k].1 < n by {
            ls.lemma_filter_pred(joins_points_below(n as nat), k);
            assert((joins_points_below(n as nat))(f[k]));
        }
    }
    ShapeWrapper::FreeLinear(FreeLinearShape { points, lines: kept })
}

/// Lines that all join existing points pass the file filter unchanged.
proof fn lemma_filter_keeps_all(ls: Seq<(usize, usize)>, n: nat)
    requires
        lines_within(ls, n),
    ensures
        ls.filter(joins_points_below(n)) == ls,
    decreases ls.len(),
{
    if ls.len() > 0 {
        let init = ls.drop_last();
        assert forall|k: int| 0 <= k < init.len() implies #[trigger] init[k].0 < n && init[k].1 < n by {
            assert(init[k] == ls[k]);
        }
        lemma_filter_keeps_all(init, n);
        assert(init.push(ls.last()) =~= ls);
        init.lemma_filter_push(ls.last(), joins_points_below(n));
        assert(ls.last() == ls[ls.len() - 1]);
    } else {
        assert(ls.filter(joins_points_below(n)) =~= ls) by {
            reveal(Seq::filter);
        }
    }
}

/// Saving and reading a figure gives the figure back: a shape that keeps its
/// invariant, written as its kind, its points and its lines, is read back as
/// the same kind of shape with the same points and the same lines.
pub proof fn law_figure_file_round_trip<P>(s: ShapeWrapper<P>)
    requires
        s.wf(),
    ensures
        names_polygon(file_kind(s)) == s is Polygon,
        file_shape_view(names_polygon(file_kind(s)), s@.points, s@.lines) == s@,
{
    reveal_strlit("Polygon");
    reveal_strlit("cPolygon");
    reveal_strlit("FreeLinear");
    if s is FreeLinear {
        assert("FreeLinear"@[0] != "Polygon"@[0]);
        assert("FreeLinear"@.len() != "cPolygon"@.len());
        lemma_filter_keeps_all(s@.lines, s@.points.len());
    }
}

} // verus!
