use fractal_wizard::editing::{click_select, deselect, duplicate_selected, remove_and_deselect, remove_selected};

#[test]
fn remove_selected_removes_from_the_largest_index() {
    let mut items = vec!['a', 'b', 'c', 'd', 'e'];
    let mut sel = vec![1, 3];
    remove_selected(&mut items, &mut sel);
    assert_eq!(items, vec!['a', 'c', 'e']);
    assert!(sel.is_empty());
}

#[test]
fn remove_selected_skips_out_of_range_and_repeats() {
    let mut items = vec!['a', 'b', 'c', 'd'];
    let mut sel = vec![9, 2, 2];
    remove_selected(&mut items, &mut sel);
    assert_eq!(items, vec!['a', 'b']);
    let mut none: Vec<usize> = vec![];
    remove_selected(&mut items, &mut none);
    assert_eq!(items, vec!['a', 'b']);
}

#[test]
fn duplicate_selected_inserts_copies_after_their_sources() {
    let mut items = vec![10, 20, 30];
    duplicate_selected(&mut items, &[0, 2]);
    assert_eq!(items, vec![10, 10, 20, 30, 30]);
    let mut items = vec![10, 20, 30];
    duplicate_selected(&mut items, &[2, 0, 7]);
    assert_eq!(items, vec![10, 10, 20, 20, 30]);
}

#[test]
fn duplicate_order_follows_selection_reversed() {
    // the last selected index is duplicated first, so later duplicates see the shifted list
    let mut items = vec![1, 2];
    duplicate_selected(&mut items, &[1, 0]);
    assert_eq!(items, vec![1, 1, 1, 2]);
    let mut items = vec![1, 2];
    duplicate_selected(&mut items, &[0, 1]);
    assert_eq!(items, vec![1, 1, 2, 2]);
    let mut items = vec![1, 2, 3];
    duplicate_selected(&mut items, &[1, 1]);
    assert_eq!(items, vec![1, 2, 2, 2, 3]);
}

#[test]
fn click_selection_modes() {
    let mut sel = vec![];
    let mut anchor = None;
    click_select(&mut sel, &mut anchor, 2, false, false);
    assert_eq!(sel, vec![2]);
    assert_eq!(anchor, Some(2));
    click_select(&mut sel, &mut anchor, 5, true, false);
    assert_eq!(sel, vec![2, 3, 4, 5]);
    click_select(&mut sel, &mut anchor, 1, true, false);
    assert_eq!(sel, vec![1, 2, 3, 4, 5]);
    click_select(&mut sel, &mut anchor, 3, false, true);
    assert_eq!(sel, vec![1, 2, 4, 5]);
    click_select(&mut sel, &mut anchor, 7, false, true);
    assert_eq!(sel, vec![1, 2, 4, 5, 7]);
    assert_eq!(anchor, Some(7));
    let mut fresh = None;
    click_select(&mut sel, &mut fresh, 4, true, true);
    assert_eq!(sel, vec![4]);
}

#[test]
fn deselect_and_remove() {
    let mut sel = vec![3, 1, 3, 2];
    deselect(&mut sel, 3);
    assert_eq!(sel, vec![1, 2]);
    let mut items = vec!['x', 'y', 'z'];
    let mut sel = vec![0, 1, 2];
    remove_and_deselect(&mut items, &mut sel, 1);
    assert_eq!(items, vec!['x', 'z']);
    assert_eq!(sel, vec![0, 2]);
}
