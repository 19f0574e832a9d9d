use vstd::prelude::*;
use std::collections::HashMap;

verus! {

broadcast use vstd::std_specs::hash::group_hash_axioms;

/// The indices `i < n` whose cell is `c`, in increasing order.
pub open spec fn cell_members(keys: Seq<(i32, i32)>, n: nat, c: (i32, i32)) -> Seq<usize>
    decreases n,
{
    if n == 0 || n > keys.len() {
        Seq::empty()
    } else {
        let rest = cell_members(keys, (n - 1) as nat, c);
        if keys[n - 1] == c { rest.push((n - 1) as usize) } else { rest }
    }
}

/// The members of the cells `(cx, y0)` to `(cx, y)`, cell after cell.
pub open spec fn column_members(keys: Seq<(i32, i32)>, cx: int, y0: int, y: int) -> Seq<usize>
    decreases y - y0 + 1,
{
    if y < y0 || y > i32::MAX || cx < i32::MIN || cx > i32::MAX {
        Seq::empty()
    } else {
        column_members(keys, cx, y0, y - 1) + cell_members(keys, keys.len(), (cx as i32, y as i32))
    }
}

/// The members of the cells with `x0 <= cx <= x` and `y0 <= cy <= y1`, by
/// increasing `cx`, then increasing `cy`.
pub open spec fn block_members(keys: Seq<(i32, i32)>, x0: int, x: int, y0: int, y1: int) -> Seq<usize>
    decreases x - x0 + 1,
{
    if x < x0 {
        Seq::empty()
    } else {
        block_members(keys, x0, x - 1, y0, y1) + column_members(keys, x, y0, y1)
    }
}

/// The number under which a cell is stored.
pub open spec fn cell_code(c: (i32, i32)) -> u64 {
    ((c.0 as int + 0x8000_0000) * 0x1_0000_0000 + (c.1 as int + 0x8000_0000)) as u64
}

pub proof fn lemma_cell_code_injective(c: (i32, i32), d: (i32, i32))
    ensures
        cell_code(c) == cell_code(d) ==> c == d,
{
}

pub(crate) fn encode(c: (i32, i32)) -> (k: u64)
    ensures
        k == cell_code(c),
{
    let a: u64 = (c.0 as i64 + 0x8000_0000) as u64;
    let b: u64 = (c.1 as i64 + 0x8000_0000) as u64;
    a * 0x1_0000_0000 + b
}

/// The indices of the points that lie in each cell of a square grid, each
/// point given by the cell that holds it.
pub struct ChunkIndex {
    cells: HashMap<u64, Vec<usize>>,
    keys: Ghost<Seq<(i32, i32)>>,
}

impl View for ChunkIndex {
    type V = Seq<(i32, i32)>;

    closed spec fn view(&self) -> Seq<(i32, i32)> {
        self.keys@
    }
}

impl ChunkIndex {
    /// The stored lists are the members of their cells.
    #[verifier::type_invariant]
    spec fn wf(&self) -> bool {
        &&& forall|c: (i32, i32)| #[trigger] self.cells@.contains_key(cell_code(c))
            ==> self.cells@[cell_code(c)]@ == cell_members(self.keys@, self.keys@.len(), c)
        &&& forall|c: (i32, i32)| !#[trigger] self.cells@.contains_key(cell_code(c))
            ==> cell_members(self.keys@, self.keys@.len(), c).len() == 0
    }

    /// The index of points whose cells are `keys`, point `i` in cell `keys[i]`.
    pub fn new(keys: &[(i32, i32)]) -> (g: Self)
        ensures
            g@ == keys@,
    {
        let mut cells: HashMap<u64, Vec<usize>> = HashMap::new();
        let mut i: usize = 0;
        while i < keys.len()
            invariant
                i <= keys@.len(),
                forall|c: (i32, i32)| #[trigger] cells@.contains_key(cell_code(c))
                    ==> cells@[cell_code(c)]@ == cell_members(keys@, i as nat, c),
                forall|c: (i32, i32)| !#[trigger] cells@.contains_key(cell_code(c))
                    ==> cell_members(keys@, i as nat, c).len() == 0,
            decreases keys@.len() - i,
        {
            let c = keys[i];
            let code = encode(c);
            let mut members: Vec<usize> = match cells.remove(&code) {
                Some(v) => v,
                None => Vec::new(),
            };
            members.push(i);
            cells.insert(code, members);
            proof {
                assert forall|d: (i32, i32)| #[trigger] cells@.contains_key(cell_code(d))
                    implies cells@[cell_code(d)]@ == cell_members(keys@, (i + 1) as nat, d) by {
                    lemma_cell_code_injective(c, d);
                }
                assert forall|d: (i32, i32)| !#[trigger] cells@.contains_key(cell_code(d))
                    implies cell_members(keys@, (i + 1) as nat, d).len() == 0 by {
                    lemma_cell_code_injective(c, d);
                }
            }
            i += 1;
        }
        Self { cells, keys: Ghost(keys@) }
    }

    /// The indices of the points in the cells from `min` to `max` (both
    /// included), by increasing column, then increasing row.
    pub fn visible_indices(&self, min: (i32, i32), max: (i32, i32)) -> (r: Vec<usize>)
        ensures
            r@ == block_members(self@, min.0 as int, max.0 as int, min.1 as int, max.1 as int),
    {
        proof {
            use_type_invariant(self);
        }
        let mut result: Vec<usize> = Vec::new();
        let mut cx: i64 = min.0 as i64;
        proof {
            assert(result@ =~= block_members(self@, min.0 as int, cx - 1, min.1 as int, max.1 as int));
        }
        while cx <= max.0 as i64
            invariant
                self.wf(),
                min.0 <= cx <= max.0 as i64 + 1 || cx == min.0 as i64,
                result@ == block_members(self@, min.0 as int, cx - 1, min.1 as int, max.1 as int),
            decreases max.0 as i64 + 1 - cx,
        {
            let ghost before = result@;
            let mut cy: i64 = min.1 as i64;
            proof {
                assert(column_members(self@, cx as int, min.1 as int, cy - 1) =~= Seq::<usize>::empty());
                assert(result@ =~= before + column_members(self@, cx as int, min.1 as int, cy - 1));
            }
            while cy <= max.1 as i64
                invariant
                    self.wf(),
                    min.0 <= cx <= max.0,
                    min.1 <= cy <= max.1 as i64 + 1 || cy == min.1 as i64,
                    result@ == before + column_members(self@, cx as int, min.1 as int, cy - 1),
                decreases max.1 as i64 + 1 - cy,
            {
                let c: (i32, i32) = (cx as i32, cy as i32);
                let ghost mid = result@;
                match self.cells.get(&encode(c)) {
                    Some(members) => {
                        let mut k: usize = 0;
                        while k < members.len()
                            invariant
                                k <= members@.len(),
                                result@ == mid + members@.take(k as int),
                            decreases members@.len() - k,
                        {
                            result.push(members[k]);
                            proof {
                                assert(members@.take(k + 1) =~= members@.take(k as int).push(members@[k as int]));
                            }
                            k += 1;
                        }
                        proof {
                            assert(members@.take(members@.len() as int) =~= members@);
                        }
                    },
                    None => {
                        proof {
                            assert(cell_members(self@, self@.len(), c) =~= Seq::<usize>::empty());
                        }
                    },
                }
                proof {
                    assert(result@ =~= before + column_members(self@, cx as int, min.1 as int, cy as int));
                }
                cy += 1;
            }
            proof {
                assert(result@ =~= block_members(self@, min.0 as int, cx as int, min.1 as int, max.1 as int));
            }
            cx += 1;
        }
        result
    }
}

/// Every point is listed in its own cell and in no other.
pub proof fn law_point_in_its_cell(keys: Seq<(i32, i32)>, n: nat, i: int, c: (i32, i32))
    requires
        n <= keys.len(),
        0 <= i < n,
        n <= usize::MAX + 1,
    ensures
        cell_members(keys, n, c).contains(i as usize) <==> keys[i] == c,
    decreases n,
{
    let rest = cell_members(keys, (n - 1) as nat, c);
    if i < n - 1 {
        law_point_in_its_cell(keys, (n - 1) as nat, i, c);
        if keys[n - 1] == c {
            let r2 = rest.push((n - 1) as usize);
            if rest.contains(i as usize) {
                let w = choose|w: int| 0 <= w < rest.len() && rest[w] == i as usize;
                assert(r2[w] == i as usize);
            }
            if r2.contains(i as usize) {
                let w = choose|w: int| 0 <= w < r2.len() && r2[w] == i as usize;
                if w < rest.len() {
                    assert(rest[w] == i as usize);
                }
            }
        }
    } else {
        lemma_members_below(keys, (n - 1) as nat, c);
        if keys[n - 1] == c {
            assert(rest.push((n - 1) as usize)[rest.len() as int] == (n - 1) as usize);
        } else {
            if rest.contains(i as usize) {
                let w = choose|w: int| 0 <= w < rest.len() && rest[w] == i as usize;
                assert(rest[w] < n - 1);
            }
        }
    }
}

/// The members listed among the first `n` points are all below `n`.
proof fn lemma_members_below(keys: Seq<(i32, i32)>, n: nat, c: (i32, i32))
    requires
        n <= keys.len(),
        n <= usize::MAX,
    ensures
        forall|k: int| 0 <= k < cell_members(keys, n, c).len() ==> #[trigger] cell_members(keys, n, c)[k] < n,
    decreases n,
{
    if n > 0 {
        lemma_members_below(keys, (n - 1) as nat, c);
        let rest = cell_members(keys, (n - 1) as nat, c);
        if keys[n - 1] == c {
            assert forall|k: int| 0 <= k < rest.push((n - 1) as usize).len() implies
                #[trigger] rest.push((n - 1) as usize)[k] < n by {
                if k < rest.len() {
                    assert(rest.push((n - 1) as usize)[k] == rest[k]);
                }
            }
        }
    }
}

} // verus!
