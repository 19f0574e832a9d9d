use vstd::prelude::*;
use std::collections::HashMap;
use crate::scene::chunk_grid::{cell_code, encode, lemma_cell_code_injective};

verus! {

broadcast use vstd::std_specs::hash::group_hash_axioms;

/// Every flag in `[a, b)` is set.
pub open spec fn all_set(f: Seq<bool>, a: int, b: int) -> bool {
    forall|k: int| a <= k < b ==> #[trigger] f[k]
}

/// The `len` flags from `a` on are all set.
pub open spec fn window_set(f: Seq<bool>, a: int, len: int) -> bool {
    all_set(f, a, a + len)
}

/// `(start, len)` is the first longest run of set flags in `f`: the flags in
/// `[start, start + len)` are set, no run of set flags is longer, and no run
/// of that length starts earlier (with `start == 0` when no flag is set).
pub open spec fn is_first_longest_run(f: Seq<bool>, start: int, len: int) -> bool {
    &&& 0 <= start
    &&& 0 <= len
    &&& start + len <= f.len()
    &&& all_set(f, start, start + len)
    &&& forall|a: int, b: int| 0 <= a <= b <= f.len() && #[trigger] all_set(f, a, b) ==> b - a <= len
    &&& forall|a: int| 0 <= a < start ==> !#[trigger] window_set(f, a, len)
    &&& len == 0 ==> start == 0
}

/// Finds the first longest run of set flags, as `(start, len)`.
pub fn longest_run(f: &[bool]) -> (r: (usize, usize))
    ensures
        is_first_longest_run(f@, r.0 as int, r.1 as int),
{
    let n = f.len();
    let mut best_start: usize = 0;
    let mut best_len: usize = 0;
    let mut cur_start: usize = 0;
    let mut cur_len: usize = 0;
    let mut i: usize = 0;
    while i < n
        invariant
            n == f@.len(),
            i <= n,
            cur_len <= i,
            cur_len > 0 ==> cur_start == i - cur_len,
            all_set(f@, i - cur_len, i as int),
            cur_len < i ==> !f@[i - cur_len - 1],
            best_start + best_len <= i - cur_len,
            all_set(f@, best_start as int, best_start + best_len),
            forall|a: int, b: int| 0 <= a <= b <= i && a < i - cur_len && #[trigger] all_set(f@, a, b) ==> b - a <= best_len,
            forall|a: int| 0 <= a < best_start ==> !#[trigger] window_set(f@, a, best_len as int),
            best_len == 0 ==> best_start == 0,
        decreases n - i,
    {
        if f[i] {
            if cur_len == 0 {
                cur_start = i;
            }
            cur_len += 1;
            i += 1;
            proof {
                assert forall|a: int, b: int| 0 <= a <= b <= i && a < i - cur_len && #[trigger] all_set(f@, a, b)
                    implies b - a <= best_len by {
                    if b == i && a < b {
                        assert(a <= i - cur_len - 1);
                        assert(f@[i - cur_len - 1]);
                    }
                }
            }
        } else {
            let ghost old_cur = cur_len as int;
            let ghost old_best_len = best_len as int;
            if cur_len > best_len {
                best_start = cur_start;
                best_len = cur_len;
            }
            cur_len = 0;
            i += 1;
            proof {
                assert forall|a: int, b: int| 0 <= a <= b <= i && a < i - cur_len && #[trigger] all_set(f@, a, b)
                    implies b - a <= best_len by {
                    if b == i && a < b {
                        assert(f@[i - 1]);
                    } else if a >= i - 1 - old_cur {
                        assert(b - a <= old_cur);
                    }
                }
                if best_len != old_best_len {
                    assert forall|a: int| 0 <= a < best_start implies !#[trigger] window_set(f@, a, best_len as int) by {
                        if window_set(f@, a, best_len as int) {
                            if a < i - 1 - old_cur {
                                assert(all_set(f@, a, a + best_len));
                            } else {
                                assert(f@[i - 1 - old_cur - 1]);
                            }
                        }
                    }
                }
            }
        }
    }
    if cur_len > best_len {
        best_start = cur_start;
        best_len = cur_len;
    }
    proof {
        assert forall|a: int, b: int| 0 <= a <= b <= n && #[trigger] all_set(f@, a, b) implies b - a <= best_len by {
            if a >= n - cur_len {
                assert(b - a <= cur_len);
            }
        }
    }
    (best_start, best_len)
}

/// The range of levels `[start, end)` that serves for the slope fits, from
/// the flags that tell, for each pair of consecutive levels among `n`, whether
/// the local slope is steep enough: the first longest run of steep slopes with
/// the level after it, or, when no slope is steep, the first (up to) three
/// levels.
pub fn scaling_region(n: usize, steep: &[bool]) -> (r: (usize, usize))
    requires
        steep@.len() + 1 == n,
    ensures
        exists|s: int, l: int| #[trigger] is_first_longest_run(steep@, s, l)
            && if l == 0 {
                r == (0usize, if n < 3 { n } else { 3usize })
            } else {
                r == (s as usize, (s + l + 1) as usize)
            },
{
    let (start, len) = longest_run(steep);
    let end = if start + len + 1 < n { start + len + 1 } else { n };
    if end - start < 2 {
        (0, if n < 3 { n } else { 3 })
    } else {
        (start, end)
    }
}

/// The base-two logarithm of `n`, rounded down (zero below two).
pub open spec fn log2_floor(n: nat) -> nat
    decreases n,
{
    if n < 2 { 0 } else { 1 + log2_floor(n / 2) }
}

/// The number of box sizes to try for `n_points` points generated with
/// `iterations` iterations: three more than the iterations, but no more than
/// one more than the base-two logarithm of the number of points.
pub fn max_box_level(iterations: usize, n_points: usize) -> (r: usize)
    requires
        n_points > 0,
        iterations + 3 <= usize::MAX,
    ensures
        r as int == if iterations + 3 < log2_floor(n_points as nat) + 1 {
            (iterations + 3) as int
        } else {
            (log2_floor(n_points as nat) + 1) as int
        },
{
    let mut m = n_points;
    let mut k: usize = 0;
    assert(pow2_nat(0) == 1);
    assert(m * pow2_nat(k as nat) == m);
    while m >= 2
        invariant
            1 <= m <= n_points,
            k + log2_floor(m as nat) == log2_floor(n_points as nat),
            m * pow2_nat(k as nat) <= n_points,
            k + 1 <= n_points,
        decreases m,
    {
        proof {
            lemma_pow2_double(k as nat);
            assert(m / 2 * 2 <= m);
            assert((m / 2) * pow2_nat((k + 1) as nat) == (m / 2 * 2) * pow2_nat(k as nat)) by (nonlinear_arith)
                requires pow2_nat((k + 1) as nat) == 2 * pow2_nat(k as nat);
            assert((m / 2 * 2) * pow2_nat(k as nat) <= m * pow2_nat(k as nat)) by (nonlinear_arith)
                requires m / 2 * 2 <= m;
            lemma_pow2_gt((k + 1) as nat);
            assert(2 * pow2_nat(k as nat) <= m * pow2_nat(k as nat)) by (nonlinear_arith)
                requires m >= 2;
        }
        m = m / 2;
        k += 1;
    }
    let l = k + 1;
    if iterations + 3 < l { iterations + 3 } else { l }
}

/// Two to the power `k`.
pub open spec fn pow2_nat(k: nat) -> nat
    decreases k,
{
    if k == 0 { 1 } else { 2 * pow2_nat((k - 1) as nat) }
}

proof fn lemma_pow2_double(k: nat)
    ensures
        pow2_nat(k + 1) == 2 * pow2_nat(k),
{
}

proof fn lemma_pow2_gt(k: nat)
    ensures
        pow2_nat(k) >= k + 1,
    decreases k,
{
    if k > 0 {
        lemma_pow2_gt((k - 1) as nat);
    }
}

/// The distinct cells of `keys`, in the order in which they first occur.
pub open spec fn distinct_cells(keys: Seq<(i32, i32)>) -> Seq<(i32, i32)>
    decreases keys.len(),
{
    if keys.len() == 0 {
        Seq::empty()
    } else {
        let r = distinct_cells(keys.drop_last());
        if r.contains(keys.last()) { r } else { r.push(keys.last()) }
    }
}

/// How many points lie in cell `c`.
pub open spec fn cell_count(keys: Seq<(i32, i32)>, c: (i32, i32)) -> nat
    decreases keys.len(),
{
    if keys.len() == 0 {
        0
    } else {
        cell_count(keys.drop_last(), c) + if keys.last() == c { 1nat } else { 0nat }
    }
}

/// The number of points in each occupied cell of a box-counting grid, the
/// cells taken in the order in which they are first met (point `i` lies in
/// cell `keys[i]`).
pub fn cell_occupancy(keys: &[(i32, i32)]) -> (r: Vec<usize>)
    ensures
        r@.len() == distinct_cells(keys@).len(),
        forall|k: int| 0 <= k < r@.len() ==> #[trigger] r@[k] == cell_count(keys@, distinct_cells(keys@)[k]),
{
    let mut slots: HashMap<u64, usize> = HashMap::new();
    let mut counts: Vec<usize> = Vec::new();
    let ghost mut cells: Seq<(i32, i32)> = Seq::empty();
    let mut i: usize = 0;
    while i < keys.len()
        invariant
            i <= keys@.len(),
            cells == distinct_cells(keys@.take(i as int)),
            counts@.len() == cells.len(),
            forall|k: int| 0 <= k < counts@.len() ==> #[trigger] counts@[k] == cell_count(keys@.take(i as int), cells[k]),
            forall|k: int| 0 <= k < counts@.len() ==> counts@[k] <= i,
            forall|c: (i32, i32)| #[trigger] slots@.contains_key(cell_code(c)) <==> cells.contains(c),
            forall|k: int| 0 <= k < cells.len() ==> slots@[cell_code(#[trigger] cells[k])] == k,
        decreases keys@.len() - i,
    {
        let c = keys[i];
        let code = encode(c);
        let ghost prefix = keys@.take(i as int);
        proof {
            assert(keys@.take(i + 1).drop_last() =~= prefix);
            assert(keys@.take(i + 1).last() == c);
        }
        match slots.get(&code) {
            Some(slot) => {
                let k = *slot;
                proof {
                    let w = choose|w: int| 0 <= w < cells.len() && cells[w] == c;
                    assert(slots@[cell_code(cells[w])] == w);
                }
                let n = counts[k] + 1;
                counts.set(k, n);
                proof {
                    assert forall|j: int| 0 <= j < counts@.len() implies #[trigger] counts@[j]
                        == cell_count(keys@.take(i + 1), cells[j]) by {
                        assert(cell_count(keys@.take(i + 1), cells[j])
                            == cell_count(prefix, cells[j]) + if c == cells[j] { 1nat } else { 0nat });
                        if j != k {
                            if cells[j] == c {
                                assert(slots@[cell_code(cells[j])] == j);
                            }
                        }
                    }
                }
            },
            None => {
                proof {
                    if cells.contains(c) {
                        assert(slots@.contains_key(cell_code(c)));
                    }
                    assert(cell_count(prefix, c) == 0) by {
                        lemma_absent_count(prefix, c);
                    }
                }
                let k = counts.len();
                counts.push(1);
                slots.insert(code, k);
                let ghost old_cells = cells;
                proof {
                    cells = cells.push(c);
                    assert forall|j: int| 0 <= j < counts@.len() implies #[trigger] counts@[j]
                        == cell_count(keys@.take(i + 1), cells[j]) by {
                        assert(cell_count(keys@.take(i + 1), cells[j])
                            == cell_count(prefix, cells[j]) + if c == cells[j] { 1nat } else { 0nat });
                        if j < k {
                            assert(cells[j] == old_cells[j]);
                            assert(old_cells[j] != c);
                        }
                    }
                    assert forall|d: (i32, i32)| #[trigger] slots@.contains_key(cell_code(d)) <==> cells.contains(d) by {
                        lemma_cell_code_injective(c, d);
                        if old_cells.contains(d) {
                            let w = choose|w: int| 0 <= w < old_cells.len() && old_cells[w] == d;
                            assert(cells[w] == d);
                        }
                        if cells.contains(d) && d != c {
                            let w = choose|w: int| 0 <= w < cells.len() && cells[w] == d;
                            assert(old_cells[w] == d);
                        }
                        assert(cells[k as int] == c);
                    }
                    assert forall|j: int| 0 <= j < cells.len() implies slots@[cell_code(#[trigger] cells[j])] == j by {
                        if j < k {
                            assert(cells[j] == old_cells[j]);
                            lemma_cell_code_injective(c, old_cells[j]);
                        }
                    }
                }
            },
        }
        i += 1;
    }
    proof {
        assert(keys@.take(keys@.len() as int) =~= keys@);
    }
    counts
}

/// A cell that does not occur holds no point.
proof fn lemma_absent_count(keys: Seq<(i32, i32)>, c: (i32, i32))
    requires
        !distinct_cells(keys).contains(c),
    ensures
        cell_count(keys, c) == 0,
    decreases keys.len(),
{
    if keys.len() > 0 {
        let r = distinct_cells(keys.drop_last());
        if r.contains(c) {
            let w = choose|w: int| 0 <= w < r.len() && r[w] == c;
            if !r.contains(keys.last()) {
                assert(r.push(keys.last())[w] == c);
            }
        }
        if keys.last() == c {
            if !r.contains(keys.last()) {
                assert(r.push(keys.last())[r.len() as int] == c);
            }
        }
        lemma_absent_count(keys.drop_last(), c);
    }
}

/// The total number of points in the cells `cells`.
pub open spec fn total_count(keys: Seq<(i32, i32)>, cells: Seq<(i32, i32)>) -> nat
    decreases cells.len(),
{
    if cells.len() == 0 {
        0
    } else {
        total_count(keys, cells.drop_last()) + cell_count(keys, cells.last())
    }
}

proof fn lemma_distinct_cells_no_duplicates(keys: Seq<(i32, i32)>)
    ensures
        distinct_cells(keys).no_duplicates(),
    decreases keys.len(),
{
    if keys.len() > 0 {
        lemma_distinct_cells_no_duplicates(keys.drop_last());
    }
}

/// Adding one point to cell `x` raises the total of a list of distinct cells
/// by one when `x` is listed, and leaves it unchanged otherwise.
proof fn lemma_total_count_push(keys: Seq<(i32, i32)>, cells: Seq<(i32, i32)>, x: (i32, i32))
    requires
        cells.no_duplicates(),
    ensures
        total_count(keys.push(x), cells) == total_count(keys, cells) + if cells.contains(x) { 1nat } else { 0nat },
    decreases cells.len(),
{
    assert(keys.push(x).drop_last() =~= keys);
    if cells.len() > 0 {
        let init = cells.drop_last();
        assert(init.no_duplicates());
        lemma_total_count_push(keys, init, x);
        if init.contains(x) {
            let w = choose|w: int| 0 <= w < init.len() && init[w] == x;
            assert(cells[w] == x);
            assert(cells.last() != x);
            assert(cells.contains(x));
        } else if cells.last() == x {
            assert(cells[cells.len() - 1] == x);
        } else if cells.contains(x) {
            let w = choose|w: int| 0 <= w < cells.len() && cells[w] == x;
            assert(w < cells.len() - 1);
            assert(init[w] == x);
        }
    }
}

/// Box counting loses and duplicates no point: the occupancies of the distinct
/// cells add up to the number of points.
pub proof fn law_occupancy_adds_up(keys: Seq<(i32, i32)>)
    ensures
        total_count(keys, distinct_cells(keys)) == keys.len(),
    decreases keys.len(),
{
    if keys.len() > 0 {
        let init = keys.drop_last();
        let x = keys.last();
        law_occupancy_adds_up(init);
        let d = distinct_cells(init);
        lemma_distinct_cells_no_duplicates(init);
        assert(init.push(x) =~= keys);
        lemma_total_count_push(init, d, x);
        if !d.contains(x) {
            lemma_absent_count(init, x);
            assert(d.push(x).drop_last() =~= d);
            assert(cell_count(keys, x) == 1);
        }
    }
}

} // verus!
