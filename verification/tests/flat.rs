use dnd_reindex::item::Item;
use dnd_reindex::multiple_lists::{
    convert_dnd_idx_to_list_and_item_idx, ItemList, ListAndItemIdx, MultipleLists,
};
use dnd_reindex::two_lists::TwoLists;
use dnd_reindex::two_scroll_areas::TwoScrollAreas;
use dnd_reindex::util::move_elements_2;

fn flat_list(id: usize, item_ids: &[usize]) -> ItemList {
    let mut items = Vec::new();
    for &i in item_ids {
        items.push(Item::new(i));
    }
    ItemList { id, items }
}

fn ids_of(list: &ItemList) -> Vec<usize> {
    list.items.iter().map(|it| it.id).collect()
}

/// The flat two-list layout from the examples: list 0 holds A,B,C at
/// positions 0..=2, a separator sits at 3, list 1 holds D,E at 4..=5.
fn two_flat_lists() -> MultipleLists {
    let mut m = MultipleLists {
        lists: vec![flat_list(0, &[100, 101, 102]), flat_list(1, &[103, 104])],
        lists_dnd_idx_bounds: Vec::new(),
    };
    m.assign();
    m
}

#[test]
fn item_new_keeps_id() {
    let item = Item::new(42);
    assert_eq!(item.id, 42);
}

#[test]
fn bounds_cover_lists_with_separator_gaps() {
    let m = two_flat_lists();
    assert_eq!(m.lists_dnd_idx_bounds[0].start, 0);
    assert_eq!(m.lists_dnd_idx_bounds[0].end, 2);
    assert_eq!(m.lists_dnd_idx_bounds[1].start, 4);
    assert_eq!(m.lists_dnd_idx_bounds[1].end, 5);
}

#[test]
fn convert_resolves_items_exactly() {
    let m = two_flat_lists();
    let r = convert_dnd_idx_to_list_and_item_idx(&m.lists_dnd_idx_bounds, 1, false);
    assert_eq!(r, Some(ListAndItemIdx { list_index: 0, list_internal_index: 1 }));
    let r = convert_dnd_idx_to_list_and_item_idx(&m.lists_dnd_idx_bounds, 4, false);
    assert_eq!(r, Some(ListAndItemIdx { list_index: 1, list_internal_index: 0 }));
}

#[test]
fn convert_rejects_separator_as_source() {
    let m = two_flat_lists();
    // position 3 is the separator: no item lives there
    let r = convert_dnd_idx_to_list_and_item_idx(&m.lists_dnd_idx_bounds, 3, false);
    assert_eq!(r, None);
    // and past the very end nothing resolves either
    let r = convert_dnd_idx_to_list_and_item_idx(&m.lists_dnd_idx_bounds, 99, false);
    assert_eq!(r, None);
}

#[test]
fn convert_takes_separator_as_insertion_point() {
    let m = two_flat_lists();
    // the separator belongs to the list before it: append to list 0
    let r = convert_dnd_idx_to_list_and_item_idx(&m.lists_dnd_idx_bounds, 3, true);
    assert_eq!(r, Some(ListAndItemIdx { list_index: 0, list_internal_index: 3 }));
    // one past the last item appends to list 1
    let r = convert_dnd_idx_to_list_and_item_idx(&m.lists_dnd_idx_bounds, 6, true);
    assert_eq!(r, Some(ListAndItemIdx { list_index: 1, list_internal_index: 2 }));
}

#[test]
fn drag_first_item_onto_last_of_other_list() {
    // dragging position 0 (A) to position 5 (E's position) inserts A into
    // list 1 at index 1: list 0 = [B,C], list 1 = [D,A,E]
    let mut m = two_flat_lists();
    let to = convert_dnd_idx_to_list_and_item_idx(&m.lists_dnd_idx_bounds, 5, true);
    assert_eq!(to, Some(ListAndItemIdx { list_index: 1, list_internal_index: 1 }));
    m.apply_drag(0, 5);
    assert_eq!(ids_of(&m.lists[0]), vec![101, 102]);
    assert_eq!(ids_of(&m.lists[1]), vec![103, 100, 104]);
}

#[test]
fn drag_other_list_item_before_second_item() {
    // dragging position 4 (D) to position 1 (B's position) inserts D into
    // list 0 at index 1: list 0 = [A,D,B,C], list 1 = [E]
    let mut m = two_flat_lists();
    let to = convert_dnd_idx_to_list_and_item_idx(&m.lists_dnd_idx_bounds, 1, true);
    assert_eq!(to, Some(ListAndItemIdx { list_index: 0, list_internal_index: 1 }));
    m.apply_drag(4, 1);
    assert_eq!(ids_of(&m.lists[0]), vec![100, 103, 101, 102]);
    assert_eq!(ids_of(&m.lists[1]), vec![104]);
}

#[test]
fn drag_to_own_position_is_a_no_op() {
    let mut m = two_flat_lists();
    m.apply_drag(1, 1);
    assert_eq!(ids_of(&m.lists[0]), vec![100, 101, 102]);
    assert_eq!(ids_of(&m.lists[1]), vec![103, 104]);
}

#[test]
fn drag_conserves_total_item_count() {
    let mut m = two_flat_lists();
    for (from, to) in [(0usize, 5usize), (4, 1), (2, 0), (0, 6), (5, 3)] {
        m.assign();
        let before: usize = m.lists.iter().map(|l| l.items.len()).sum();
        m.apply_drag(from, to);
        let after: usize = m.lists.iter().map(|l| l.items.len()).sum();
        assert_eq!(before, after);
    }
}

#[test]
fn multiple_lists_new_numbers_items_row_by_row() {
    let m = MultipleLists::new(3, 200, 4);
    assert_eq!(m.lists.len(), 3);
    for (i, list) in m.lists.iter().enumerate() {
        assert_eq!(list.id, i);
        assert_eq!(list.items.len(), 4);
        for (j, item) in list.items.iter().enumerate() {
            assert_eq!(item.id, 200 + i * 4 + j);
        }
    }
}

#[test]
fn two_lists_new_numbers_both_areas() {
    let t = TwoLists::new(10, 3);
    let first: Vec<usize> = t.list_1.iter().map(|i| i.id).collect();
    let second: Vec<usize> = t.list_2.iter().map(|i| i.id).collect();
    assert_eq!(first, vec![10, 11, 12]);
    assert_eq!(second, vec![13, 14, 15]);
}

#[test]
fn two_lists_drag_across_separator() {
    let mut t = TwoLists::new(0, 3);
    // positions: 0,1,2 then separator at 3, then 4,5,6
    t.apply_drag(0, 6);
    let first: Vec<usize> = t.list_1.iter().map(|i| i.id).collect();
    let second: Vec<usize> = t.list_2.iter().map(|i| i.id).collect();
    assert_eq!(first, vec![1, 2]);
    assert_eq!(second, vec![3, 4, 0, 5]);
}

#[test]
fn two_lists_reorder_within_first() {
    let mut t = TwoLists::new(0, 3);
    // moving the first item to the separator boundary puts it last
    t.apply_drag(0, 3);
    let first: Vec<usize> = t.list_1.iter().map(|i| i.id).collect();
    assert_eq!(first, vec![1, 2, 0]);
}

#[test]
fn two_scroll_areas_behave_like_two_lists() {
    let mut t = TwoScrollAreas::new(0, 2);
    // positions: 0,1 separator 2, then 3,4; drag second-area head to front
    t.apply_drag(3, 0);
    let first: Vec<usize> = t.list_1.iter().map(|i| i.id).collect();
    let second: Vec<usize> = t.list_2.iter().map(|i| i.id).collect();
    assert_eq!(first, vec![2, 0, 1]);
    assert_eq!(second, vec![3]);
}

#[test]
fn move_elements_rotates_within_a_list() {
    // if the underlying rotation handed its input back unchanged, this
    // would still read [1, 2, 3]
    let mut a = vec![1, 2, 3];
    let mut b = vec![4, 5];
    move_elements_2(&mut a, &mut b, 0, 2, 1);
    assert_eq!(a, vec![2, 1, 3]);
    assert_eq!(b, vec![4, 5]);
}

#[test]
fn move_elements_moves_backwards_within_second_list() {
    let mut a = vec![1];
    let mut b = vec![4, 5, 6];
    // combined positions: a at 0, separator at 1, b at 2..=4
    move_elements_2(&mut a, &mut b, 4, 2, 1);
    assert_eq!(a, vec![1]);
    assert_eq!(b, vec![6, 4, 5]);
}
