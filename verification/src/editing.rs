use vstd::prelude::*;
use vstd::relations::{sorted_by, total_ordering};
use vstd::multiset::Multiset;

verus! {

broadcast use vstd::seq_lib::group_to_multiset_ensures, vstd::multiset::group_multiset_axioms;

/// The order "greater than or equal", to sort indices from the largest down.
pub open spec fn at_least() -> spec_fn(usize, usize) -> bool {
    |x: usize, y: usize| x >= y
}

/// The indices of `s`, largest first (repeated indices are kept).
pub open spec fn descending(s: Seq<usize>) -> Seq<usize> {
    s.sort_by(at_least())
}

/// `items` after removing, in turn, the element at each index of `s` that is
/// still within range.
pub open spec fn removals<T>(items: Seq<T>, s: Seq<usize>) -> Seq<T>
    decreases s.len(),
{
    if s.len() == 0 {
        items
    } else {
        let next = if s[0] < items.len() { items.remove(s[0] as int) } else { items };
        removals(next, s.drop_first())
    }
}

proof fn lemma_at_least_total()
    ensures
        total_ordering(at_least()),
{
}

/// The indices of `sel`, sorted from the largest down.
fn sort_descending(sel: &[usize]) -> (r: Vec<usize>)
    ensures
        r@ == descending(sel@),
{
    let mut out: Vec<usize> = Vec::new();
    let mut k: usize = 0;
    proof {
        assert(sel@.take(0) =~= Seq::<usize>::empty());
        assert(out@ =~= Seq::<usize>::empty());
    }
    while k < sel.len()
        invariant
            k <= sel@.len(),
            sorted_by(out@, at_least()),
            out@.to_multiset() == sel@.take(k as int).to_multiset(),
        decreases sel@.len() - k,
    {
        let x = sel[k];
        let mut pos: usize = 0;
        while pos < out.len() && out[pos] >= x
            invariant
                pos <= out@.len(),
                forall|j: int| 0 <= j < pos ==> out@[j] >= x,
            decreases out@.len() - pos,
        {
            pos += 1;
        }
        let ghost before = out@;
        out.insert(pos, x);
        proof {
            broadcast use vstd::seq_lib::to_multiset_insert;
            assert(out@ == before.insert(pos as int, x));
            assert forall|i: int, j: int| 0 <= i < j < out@.len() implies #[trigger] (at_least())(out@[i], out@[j]) by {
                if j < pos {
                    assert(out@[i] == before[i] && out@[j] == before[j]);
                    assert((at_least())(before[i], before[j]));
                } else if j == pos {
                    assert(out@[i] == before[i]);
                } else if i < pos {
                    assert(out@[i] == before[i] && out@[j] == before[j - 1]);
                    assert((at_least())(before[i], before[j - 1]));
                } else if i == pos {
                    assert(out@[j] == before[j - 1]);
                    assert(before[pos as int] < x);
                    if j - 1 > pos {
                        assert((at_least())(before[pos as int], before[j - 1]));
                    }
                } else {
                    assert(out@[i] == before[i - 1] && out@[j] == before[j - 1]);
                    assert((at_least())(before[i - 1], before[j - 1]));
                }
            }
            assert(sel@.take(k + 1) =~= sel@.take(k as int).push(x));
            assert(before.insert(pos as int, x).to_multiset() == before.to_multiset().insert(x));
        }
        k += 1;
    }
    proof {
        assert(sel@.take(sel@.len() as int) =~= sel@);
        lemma_at_least_total();
        sel@.lemma_sort_by_ensures(at_least());
        vstd::seq_lib::lemma_sorted_unique(out@, sel@.sort_by(at_least()), at_least());
    }
    out
}

/// Removes the selected elements: the selected indices are taken from the
/// largest down, each one still within range removes its element (a repeated
/// index removes one more element), and the selection is emptied.
pub fn remove_selected<T>(items: &mut Vec<T>, selected: &mut Vec<usize>)
    ensures
        final(items)@ == removals(old(items)@, descending(old(selected)@)),
        final(selected)@ == Seq::<usize>::empty(),
{
    let order = sort_descending(selected.as_slice());
    let mut k: usize = 0;
    proof {
        assert(order@.skip(0) =~= order@);
    }
    while k < order.len()
        invariant
            k <= order@.len(),
            order@ == descending(old(selected)@),
            removals(old(items)@, order@) == removals(items@, order@.skip(k as int)),
        decreases order@.len() - k,
    {
        let i = order[k];
        proof {
            assert(order@.skip(k as int)[0] == i);
            assert(order@.skip(k as int).drop_first() =~= order@.skip(k + 1));
        }
        if i < items.len() {
            items.remove(i);
        }
        k += 1;
    }
    selected.clear();
}

/// `items` after duplicating, for each index of `s` taken from the last to the
/// first, the element at that index (when within range) right after itself.
pub open spec fn duplications<T>(items: Seq<T>, s: Seq<usize>) -> Seq<T>
    decreases s.len(),
{
    if s.len() == 0 {
        items
    } else {
        let i = s.last();
        let next = if i < items.len() { items.insert(i + 1, items[i as int]) } else { items };
        duplications(next, s.drop_last())
    }
}

/// Duplicates the selected elements, each copy right after the element it copies; the
/// selected indices are taken from the last selected to the first.
pub fn duplicate_selected<T: Copy>(items: &mut Vec<T>, selected: &[usize])
    ensures
        final(items)@ == duplications(old(items)@, selected@),
{
    let mut k: usize = selected.len();
    proof {
        assert(selected@.take(k as int) =~= selected@);
    }
    while k > 0
        invariant
            k <= selected@.len(),
            duplications(old(items)@, selected@) == duplications(items@, selected@.take(k as int)),
        decreases k,
    {
        let i = selected[k - 1];
        proof {
            assert(selected@.take(k as int).last() == i);
            assert(selected@.take(k as int).drop_last() =~= selected@.take(k - 1));
        }
        if i < items.len() {
            let dup = items[i];
            items.insert(i + 1, dup);
        }
        k -= 1;
    }
    proof {
        assert(selected@.take(0) =~= Seq::<usize>::empty());
    }
}

/// The test "is not `i`".
pub open spec fn other_than(i: usize) -> spec_fn(usize) -> bool {
    |x: usize| x != i
}

/// The indices `from..=to`.
pub open spec fn index_range(from: usize, to: usize) -> Seq<usize> {
    Seq::new((to - from + 1) as nat, |k: int| (from + k) as usize)
}

/// The selection after clicking element `i` in a list: with shift and an
/// earlier click, the range between the two; with control, `i` toggled in or
/// out of the selection; otherwise `i` alone.
pub open spec fn clicked_selection(sel: Seq<usize>, anchor: Option<usize>, i: usize, shift: bool, ctrl: bool) -> Seq<usize> {
    if shift {
        match anchor {
            Some(a) => if a <= i { index_range(a, i) } else { index_range(i, a) },
            None => seq![i],
        }
    } else if ctrl {
        if sel.contains(i) { sel.filter(other_than(i)) } else { sel.push(i) }
    } else {
        seq![i]
    }
}

/// What a click leaves selected. A shift-click after an earlier click selects
/// exactly the indices from the lower to the higher of the two, in increasing
/// order, whatever was selected before; a shift-click with no earlier click,
/// or a plain click, selects `i` alone; a control-click toggles `i` and
/// leaves every other index as selected as it was.
pub proof fn law_click_selection(sel: Seq<usize>, anchor: Option<usize>, i: usize, shift: bool, ctrl: bool, other: Seq<usize>)
    ensures
        shift && anchor is Some ==> {
            let a = anchor->0;
            let lo = if a <= i { a } else { i };
            let hi = if a <= i { i } else { a };
            &&& clicked_selection(sel, anchor, i, shift, ctrl).len() == hi - lo + 1
            &&& forall|k: int| 0 <= k < clicked_selection(sel, anchor, i, shift, ctrl).len()
                ==> #[trigger] clicked_selection(sel, anchor, i, shift, ctrl)[k] == lo + k
            &&& clicked_selection(sel, anchor, i, shift, ctrl) == clicked_selection(other, anchor, i, shift, ctrl)
        },
        shift && anchor is None ==> clicked_selection(sel, anchor, i, shift, ctrl) == seq![i],
        !shift && !ctrl ==> clicked_selection(sel, anchor, i, shift, ctrl) == seq![i],
        !shift && ctrl ==> (clicked_selection(sel, anchor, i, shift, ctrl).contains(i) <==> !sel.contains(i)),
        !shift && ctrl ==> forall|x: usize| x != i ==>
            (#[trigger] clicked_selection(sel, anchor, i, shift, ctrl).contains(x) <==> sel.contains(x)),
{
    if !shift && ctrl {
        let r = clicked_selection(sel, anchor, i, shift, ctrl);
        if sel.contains(i) {
            assert forall|x: usize| x != i implies (#[trigger] r.contains(x) <==> sel.contains(x)) by {
                if sel.contains(x) {
                    let w = choose|w: int| 0 <= w < sel.len() && sel[w] == x;
                    sel.lemma_filter_contains(other_than(i), w);
                }
                if r.contains(x) {
                    let w = choose|w: int| 0 <= w < r.len() && r[w] == x;
                    sel.lemma_filter_contains_rev(other_than(i), x);
                }
            }
            if r.contains(i) {
                let w = choose|w: int| 0 <= w < r.len() && r[w] == i;
                sel.lemma_filter_pred(other_than(i), w);
            }
        } else {
            assert(r == sel.push(i));
            assert(r[sel.len() as int] == i);
            assert forall|x: usize| x != i implies (#[trigger] r.contains(x) <==> sel.contains(x)) by {
                if sel.contains(x) {
                    let w = choose|w: int| 0 <= w < sel.len() && sel[w] == x;
                    assert(r[w] == x);
                }
                if r.contains(x) {
                    let w = choose|w: int| 0 <= w < r.len() && r[w] == x;
                    assert(w < sel.len());
                }
            }
        }
    }
    if !shift && !ctrl || shift && anchor is None {
        assert(seq![i][0] == i);
    }
}

/// Removes every occurrence of `i` from the selection, keeping the order of the rest.
pub fn deselect(selected: &mut Vec<usize>, i: usize)
    ensures
        final(selected)@ == old(selected)@.filter(other_than(i)),
{
    let ghost s = selected@;
    let mut kept: Vec<usize> = Vec::new();
    let mut k: usize = 0;
    while k < selected.len()
        invariant
            k <= selected@.len(),
            s == selected@,
            kept@ == s.take(k as int).filter(other_than(i)),
        decreases selected@.len() - k,
    {
        let x = selected[k];
        proof {
            assert(s.take(k + 1) =~= s.take(k as int).push(x));
            s.take(k as int).lemma_filter_push(x, other_than(i));
        }
        if x != i {
            kept.push(x);
        }
        k += 1;
    }
    proof {
        assert(s.take(s.len() as int) =~= s);
    }
    *selected = kept;
}

/// Updates the selection of a list for a click on element `i`, as
/// `clicked_selection` says, and makes `i` the anchor of the next shift-click.
pub fn click_select(selected: &mut Vec<usize>, anchor: &mut Option<usize>, i: usize, shift: bool, ctrl: bool)
    requires
        shift ==> match *old(anchor) { Some(a) => a < usize::MAX && i < usize::MAX, None => true },
    ensures
        final(selected)@ == clicked_selection(old(selected)@, *old(anchor), i, shift, ctrl),
        *final(anchor) == Some(i),
{
    if shift {
        match *anchor {
            Some(a) => {
                let (from, to) = if a <= i { (a, i) } else { (i, a) };
                let mut r: Vec<usize> = Vec::new();
                let mut k = from;
                while k <= to
                    invariant
                        from <= k <= to + 1,
                        to < usize::MAX,
                        r@ =~= Seq::new((k - from) as nat, |j: int| (from + j) as usize),
                    decreases to + 1 - k,
                {
                    r.push(k);
                    k += 1;
                }
                proof {
                    assert(r@ =~= index_range(from, to));
                }
                *selected = r;
            },
            None => {
                let mut r: Vec<usize> = Vec::new();
                r.push(i);
                proof {
                    assert(r@ =~= seq![i]);
                }
                *selected = r;
            },
        }
    } else if ctrl {
        let mut found = false;
        let mut k: usize = 0;
        while k < selected.len()
            invariant
                k <= selected@.len(),
                selected@ == old(selected)@,
                found == selected@.take(k as int).contains(i),
            decreases selected@.len() - k,
        {
            let y = selected[k];
            proof {
                let t = selected@.take(k as int);
                assert(selected@.take(k + 1) =~= t.push(y));
                if t.push(y).contains(i) && y != i {
                    let w = choose|w: int| 0 <= w < t.push(y).len() && t.push(y)[w] == i;
                    assert(w < t.len());
                    assert(t[w] == i);
                }
                if t.contains(i) {
                    let w = choose|w: int| 0 <= w < t.len() && t[w] == i;
                    assert(t.push(y)[w] == i);
                }
                if y == i {
                    assert(t.push(y)[t.len() as int] == i);
                }
            }
            if y == i {
                found = true;
            }
            k += 1;
        }
        proof {
            assert(selected@.take(selected@.len() as int) =~= selected@);
        }
        if found {
            deselect(selected, i);
        } else {
            selected.push(i);
        }
    } else {
        let mut r: Vec<usize> = Vec::new();
        r.push(i);
        proof {
            assert(r@ =~= seq![i]);
        }
        *selected = r;
    }
    *anchor = Some(i);
}

/// Removes the element at `idx` (an element that was clicked) and every
/// occurrence of `idx` in the selection; other selected indices stay as they are.
pub fn remove_and_deselect<T>(items: &mut Vec<T>, selected: &mut Vec<usize>, idx: usize)
    requires
        idx < old(items)@.len(),
    ensures
        final(items)@ == old(items)@.remove(idx as int),
        final(selected)@ == old(selected)@.filter(other_than(idx)),
{
    items.remove(idx);
    deselect(selected, idx);
}

/// The first `n` elements of `items` whose indices are not in `gone`, in order.
pub open spec fn kept_prefix<T>(items: Seq<T>, gone: Set<usize>, n: nat) -> Seq<T>
    decreases n,
{
    if n == 0 || n > items.len() {
        Seq::empty()
    } else {
        let rest = kept_prefix(items, gone, (n - 1) as nat);
        if gone.contains((n - 1) as usize) { rest } else { rest.push(items[n - 1]) }
    }
}

/// The elements of `items` whose indices are not in `gone`, in order.
pub open spec fn kept<T>(items: Seq<T>, gone: Set<usize>) -> Seq<T> {
    kept_prefix(items, gone, items.len())
}

proof fn lemma_kept_prefix_below<T>(items: Seq<T>, gone: Set<usize>, m: usize, n: nat)
    requires
        m < items.len(),
        n <= m,
    ensures
        kept_prefix(items.remove(m as int), gone, n) == kept_prefix(items, gone.insert(m), n),
    decreases n,
{
    if n > 0 {
        lemma_kept_prefix_below(items, gone, m, (n - 1) as nat);
        assert(items.remove(m as int)[n - 1] == items[n - 1]);
        assert(gone.insert(m).contains((n - 1) as usize) == gone.contains((n - 1) as usize));
    }
}

proof fn lemma_kept_prefix_above<T>(items: Seq<T>, gone: Set<usize>, m: usize, n: nat)
    requires
        m < items.len(),
        m <= n < items.len(),
        items.len() <= usize::MAX,
        forall|x: usize| gone.contains(x) ==> x < m,
    ensures
        kept_prefix(items.remove(m as int), gone, n) == kept_prefix(items, gone.insert(m), n + 1),
    decreases n,
{
    if n == m {
        lemma_kept_prefix_below(items, gone, m, n);
        assert(gone.insert(m).contains(m));
    } else {
        lemma_kept_prefix_above(items, gone, m, (n - 1) as nat);
        assert(items.remove(m as int)[n - 1] == items[n as int]);
        assert(!gone.contains((n - 1) as usize));
        assert(!gone.insert(m).contains(n as usize));
    }
}

/// Removing, from the largest down, distinct indices within range removes
/// exactly the elements at those indices.
proof fn lemma_removals_strictly_descending<T>(items: Seq<T>, d: Seq<usize>)
    requires
        forall|i: int, j: int| 0 <= i < j < d.len() ==> #[trigger] d[i] > #[trigger] d[j],
        forall|i: int| 0 <= i < d.len() ==> #[trigger] d[i] < items.len(),
        items.len() <= usize::MAX,
    ensures
        removals(items, d) == kept(items, d.to_set()),
    decreases d.len(),
{
    if d.len() == 0 {
        assert(d.to_set() =~= Set::<usize>::empty());
        lemma_kept_nothing(items, items.len());
    } else {
        let m = d[0];
        let rest = d.drop_first();
        let smaller = items.remove(m as int);
        assert forall|i: int| 0 <= i < rest.len() implies #[trigger] rest[i] < smaller.len() by {
            assert(rest[i] == d[i + 1]);
            assert(d[0] > d[i + 1]);
        }
        assert forall|i: int, j: int| 0 <= i < j < rest.len() implies #[trigger] rest[i] > #[trigger] rest[j] by {
            assert(rest[i] == d[i + 1] && rest[j] == d[j + 1]);
        }
        lemma_removals_strictly_descending(smaller, rest);
        assert forall|x: usize| rest.to_set().contains(x) implies x < m by {
            let k = choose|k: int| 0 <= k < rest.len() && rest[k] == x;
            assert(d[k + 1] == x);
        }
        assert(rest.to_set().insert(m) =~= d.to_set()) by {
            assert forall|x: usize| d.to_set().contains(x) implies rest.to_set().insert(m).contains(x) by {
                let k = choose|k: int| 0 <= k < d.len() && d[k] == x;
                if k > 0 {
                    assert(rest[k - 1] == x);
                }
            }
            assert forall|x: usize| rest.to_set().contains(x) implies d.to_set().contains(x) by {
                let k = choose|k: int| 0 <= k < rest.len() && rest[k] == x;
                assert(d[k + 1] == x);
            }
            assert(d.to_set().contains(d[0]));
        }
        if smaller.len() > 0 {
            lemma_kept_prefix_above(items, rest.to_set(), m, smaller.len());
        } else {
            lemma_kept_prefix_below(items, rest.to_set(), m, 0);
            assert(kept_prefix(items, rest.to_set().insert(m), 1)
                == kept_prefix(items, rest.to_set().insert(m), 0));
        }
    }
}

proof fn lemma_kept_nothing<T>(items: Seq<T>, n: nat)
    requires
        n <= items.len(),
    ensures
        kept_prefix(items, Set::<usize>::empty(), n) == items.take(n as int),
    decreases n,
{
    if n > 0 {
        lemma_kept_nothing(items, (n - 1) as nat);
        assert(items.take(n as int) =~= items.take(n - 1).push(items[n - 1]));
    } else {
        assert(items.take(0) =~= Seq::<T>::empty());
    }
}

/// Deleting a selection of distinct indices within range removes exactly the
/// selected elements and keeps all the others, in their order.
pub proof fn law_remove_selected_keeps_the_rest<T>(items: Seq<T>, sel: Seq<usize>)
    requires
        items.len() <= usize::MAX,
        sel.no_duplicates(),
        forall|k: int| 0 <= k < sel.len() ==> #[trigger] sel[k] < items.len(),
    ensures
        removals(items, descending(sel)) == kept(items, sel.to_set()),
{
    let d = descending(sel);
    lemma_at_least_total();
    sel.lemma_sort_by_ensures(at_least());
    assert(d.to_multiset() == sel.to_multiset());
    assert forall|x: usize| d.contains(x) <==> sel.contains(x) by {
        assert(d.to_multiset().count(x) == sel.to_multiset().count(x));
    }
    assert(d.to_set() =~= sel.to_set());
    assert forall|i: int| 0 <= i < d.len() implies #[trigger] d[i] < items.len() by {
        assert(d.contains(d[i]));
        let k = choose|k: int| 0 <= k < sel.len() && sel[k] == d[i];
        assert(sel[k] < items.len());
    }
    assert forall|i: int, j: int| 0 <= i < j < d.len() implies #[trigger] d[i] > #[trigger] d[j] by {
        assert((at_least())(d[i], d[j]));
        if d[i] == d[j] {
            sel.lemma_multiset_has_no_duplicates();
            assert(sel.to_multiset().count(d[i]) <= 1);
            lemma_two_copies_count(d, i, j);
        }
    }
    lemma_removals_strictly_descending(items, d);
}

/// A value at two positions of a sequence counts at least twice.
proof fn lemma_two_copies_count(s: Seq<usize>, i: int, j: int)
    requires
        0 <= i < j < s.len(),
        s[i] == s[j],
    ensures
        s.to_multiset().count(s[i]) >= 2,
{
    let x = s[i];
    let a = s.remove(j);
    vstd::seq_lib::to_multiset_remove(s, j);
    assert(a[i] == x);
    assert(a.to_multiset().contains(x));
    assert(s.to_multiset().count(x) == a.to_multiset().count(x) + 1);
}

} // verus!
