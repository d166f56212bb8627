use dnd_reindex::item::Item;
use dnd_reindex::nested_lists::NestedLists;
use dnd_reindex::resolve::{DragDestination, DragLocation};
use dnd_reindex::separate_nested_lists::SeparateNestedLists;
use dnd_reindex::tree::{DndIdxBounds, ItemList, ListId};

fn leaf(id: usize) -> ItemList {
    ItemList {
        item: Item::new(id),
        children: Vec::new(),
        dnd_idx: 0,
        dnd_children_idx_bounds: DndIdxBounds { start: 0, end: 0 },
        dnd_dragged: false,
        collapsed: false,
    }
}

fn node(id: usize, children: Vec<ItemList>) -> ItemList {
    ItemList { children, ..leaf(id) }
}

fn child_ids(list: &[ItemList]) -> Vec<usize> {
    list.iter().map(|n| n.item.id).collect()
}

fn count_items(list: &[ItemList]) -> usize {
    list.iter().map(|n| 1 + count_items(&n.children)).sum()
}

/// root = [X(children = [P, Q]), Y], with X = 0, P = 1, Q = 2, Y = 3.
fn example_tree() -> NestedLists {
    let mut t = NestedLists {
        name: "example".to_string(),
        root: vec![node(0, vec![leaf(1), leaf(2)]), leaf(3)],
        dnd_total: 0,
    };
    t.assign();
    t
}

#[test]
fn assign_walks_depth_first_with_footers() {
    let t = example_tree();
    // X 0, P 1, P-footer 2, Q 3, Q-footer 4, X-footer 5, Y 6, Y-footer 7
    assert_eq!(t.root[0].dnd_idx, 0);
    assert_eq!(t.root[0].children[0].dnd_idx, 1);
    assert_eq!(t.root[0].children[1].dnd_idx, 3);
    assert_eq!(t.root[0].dnd_children_idx_bounds.start, 1);
    assert_eq!(t.root[0].dnd_children_idx_bounds.end, 5);
    assert_eq!(t.root[1].dnd_idx, 6);
    assert_eq!(t.root[1].dnd_children_idx_bounds.start, 7);
    assert_eq!(t.root[1].dnd_children_idx_bounds.end, 7);
    assert_eq!(t.dnd_total, 8);
}

#[test]
fn source_resolution_round_trips_every_item() {
    let t = example_tree();
    let x_list = ListId::Under(0);
    assert_eq!(
        t.resolve_source(0),
        Some(DragLocation { list_id: ListId::Root, idx: 0 })
    );
    assert_eq!(t.resolve_source(1), Some(DragLocation { list_id: x_list, idx: 0 }));
    assert_eq!(t.resolve_source(3), Some(DragLocation { list_id: x_list, idx: 1 }));
    assert_eq!(
        t.resolve_source(6),
        Some(DragLocation { list_id: ListId::Root, idx: 1 })
    );
}

#[test]
fn footers_are_no_drag_sources() {
    let t = example_tree();
    assert_eq!(t.resolve_source(2), None);
    assert_eq!(t.resolve_source(5), None);
    assert_eq!(t.resolve_source(8), None);
    assert_eq!(t.resolve_source(100), None);
}

#[test]
fn destinations_resolve_to_insert_within_or_push() {
    let t = example_tree();
    let x_list = ListId::Under(0);
    // an item slot in another list is an insertion point before it
    assert_eq!(
        t.resolve_destination(6, x_list),
        Some(DragDestination::Insert(DragLocation { list_id: ListId::Root, idx: 1 }))
    );
    // an item slot in the source's own list is a reorder
    assert_eq!(t.resolve_destination(3, x_list), Some(DragDestination::Within(1)));
    // a footer slot appends to its list
    assert_eq!(
        t.resolve_destination(5, ListId::Root),
        Some(DragDestination::Push(x_list))
    );
    // the position one past the walk appends to the root
    assert_eq!(
        t.resolve_destination(8, x_list),
        Some(DragDestination::Push(ListId::Root))
    );
    // further out nothing resolves
    assert_eq!(t.resolve_destination(9, x_list), None);
}

#[test]
fn drag_nested_item_to_root_footer_appends_to_root() {
    // dragging Q's position to the root's footer position appends Q to the
    // root: root = [X(children = [P]), Y, Q]
    let mut t = example_tree();
    assert!(t.apply_drag(3, 8));
    assert_eq!(child_ids(&t.root), vec![0, 3, 2]);
    assert_eq!(child_ids(&t.root[0].children), vec![1]);
}

#[test]
fn drag_root_item_into_nested_list() {
    // dragging Y onto Q's position inserts Y before Q inside X's list
    let mut t = example_tree();
    assert!(t.apply_drag(6, 3));
    assert_eq!(child_ids(&t.root), vec![0]);
    assert_eq!(child_ids(&t.root[0].children), vec![1, 3, 2]);
}

#[test]
fn reorder_within_a_list_uses_post_removal_index() {
    // dragging P onto Q's position: Q's resolved index (1) is taken in the
    // list as it stands once P is out, so P lands after Q
    let mut t = example_tree();
    assert!(t.apply_drag(1, 3));
    assert_eq!(child_ids(&t.root[0].children), vec![2, 1]);
}

#[test]
fn drag_to_own_position_changes_nothing() {
    let mut t = example_tree();
    assert!(!t.apply_drag(3, 3));
    assert_eq!(child_ids(&t.root), vec![0, 3]);
    assert_eq!(child_ids(&t.root[0].children), vec![1, 2]);
}

#[test]
fn unresolvable_positions_change_nothing() {
    let mut t = example_tree();
    // a footer is no drag source
    assert!(!t.apply_drag(2, 6));
    // positions past the walk resolve to nothing
    assert!(!t.apply_drag(0, 9));
    assert_eq!(child_ids(&t.root), vec![0, 3]);
    assert_eq!(child_ids(&t.root[0].children), vec![1, 2]);
}

#[test]
fn every_drag_conserves_the_item_count() {
    for from in 0..9usize {
        for to in 0..9usize {
            let mut t = example_tree();
            let before = count_items(&t.root);
            t.apply_drag(from, to);
            assert_eq!(count_items(&t.root), before);
        }
    }
}

#[test]
fn dragged_subtree_is_skipped_by_the_walk() {
    // while X is dragged its contents get no positions: X 0, Y 1, Y-footer 2
    let mut t = NestedLists {
        name: "drag".to_string(),
        root: vec![node(0, vec![leaf(1), leaf(2)]), leaf(3)],
        dnd_total: 0,
    };
    t.root[0].dnd_dragged = true;
    t.assign();
    assert_eq!(t.dnd_total, 3);
    assert_eq!(t.root[1].dnd_idx, 1);
    // no position reaches into X, so no destination can land there
    let from = t.resolve_source(0).unwrap();
    assert_eq!(from, DragLocation { list_id: ListId::Root, idx: 0 });
    for pos in 0..4usize {
        match t.resolve_destination(pos, from.list_id) {
            Some(DragDestination::Insert(loc)) => assert_ne!(loc.list_id, ListId::Under(0)),
            Some(DragDestination::Push(l)) => assert_ne!(l, ListId::Under(0)),
            _ => {}
        }
    }
    // dropping the dragged X onto Y's position reorders the root
    assert!(t.apply_drag(0, 1));
    assert_eq!(child_ids(&t.root), vec![3, 0]);
    assert_eq!(child_ids(&t.root[1].children), vec![1, 2]);
}

#[test]
fn collapsed_subtree_is_skipped_but_item_remains() {
    let mut t = NestedLists {
        name: "collapse".to_string(),
        root: vec![node(0, vec![leaf(1), leaf(2)]), leaf(3)],
        dnd_total: 0,
    };
    t.root[0].collapsed = true;
    t.assign();
    // X 0, Y 1, Y-footer 2; X itself still resolves as a source
    assert_eq!(t.dnd_total, 3);
    assert_eq!(
        t.resolve_source(0),
        Some(DragLocation { list_id: ListId::Root, idx: 0 })
    );
    assert_eq!(t.resolve_source(1), Some(DragLocation { list_id: ListId::Root, idx: 1 }));
}

#[test]
fn sibling_list_bounds_never_overlap() {
    let mut t = NestedLists {
        name: "bounds".to_string(),
        root: vec![
            node(0, vec![leaf(1), leaf(2)]),
            node(3, vec![node(4, vec![leaf(5)])]),
            leaf(6),
        ],
        dnd_total: 0,
    };
    t.assign();
    let b: Vec<(usize, usize)> = t
        .root
        .iter()
        .map(|n| (n.dnd_children_idx_bounds.start, n.dnd_children_idx_bounds.end))
        .collect();
    for i in 0..b.len() {
        for j in (i + 1)..b.len() {
            assert!(b[i].1 < b[j].0);
        }
    }
    // the same holds one level down, between the children of one node
    let inner = &t.root[1].children[0];
    assert!(t.root[1].children[0].dnd_idx < inner.dnd_children_idx_bounds.start);
}

#[test]
fn deep_drag_moves_whole_subtree() {
    // root = [A(B(C)), D]; dragging B (with C inside) after D keeps B's
    // subtree intact
    let mut t = NestedLists {
        name: "deep".to_string(),
        root: vec![node(0, vec![node(1, vec![leaf(2)])]), leaf(3)],
        dnd_total: 0,
    };
    t.assign();
    // A 0, B 1, C 2, C-f 3, B-f 4, A-f 5, D 6, D-f 7; sentinel 8
    let before = count_items(&t.root);
    assert!(t.apply_drag(1, 8));
    assert_eq!(count_items(&t.root), before);
    assert_eq!(child_ids(&t.root), vec![0, 3, 1]);
    assert_eq!(child_ids(&t.root[2].children), vec![2]);
}

#[test]
fn nested_lists_new_numbers_depth_first() {
    let (t, next) = NestedLists::new("demo".to_string(), 100, 2, 2);
    // each top-level subtree holds an item and two children: 3 identifiers
    assert_eq!(next, 106);
    assert_eq!(child_ids(&t.root), vec![100, 103]);
    assert_eq!(child_ids(&t.root[0].children), vec![101, 102]);
    assert_eq!(child_ids(&t.root[1].children), vec![104, 105]);
}

#[test]
fn item_list_new_returns_subtree_of_consecutive_ids() {
    let mut next_id = 50usize;
    let n = ItemList::new(&mut next_id, 1, 3);
    assert_eq!(next_id, 54);
    assert_eq!(n.item.id, 50);
    assert_eq!(child_ids(&n.children), vec![51, 52, 53]);
}

#[test]
fn can_insert_respects_bounds_and_drag_state() {
    let mut t = example_tree();
    assert!(t.root[0].can_insert(3));
    assert!(t.root[0].can_insert(5));
    assert!(!t.root[0].can_insert(0));
    assert!(!t.root[0].can_insert(6));
    t.root[0].dnd_dragged = true;
    assert!(!t.root[0].can_insert(3));
}

#[test]
fn insert_places_item_before_the_slot_position() {
    let mut t = example_tree();
    let mut x = t.root.remove(0);
    x.insert(3, leaf(9));
    assert_eq!(child_ids(&x.children), vec![1, 9, 2]);
}

#[test]
fn insert_at_footer_appends() {
    let mut t = example_tree();
    let mut x = t.root.remove(0);
    x.insert(5, leaf(9));
    assert_eq!(child_ids(&x.children), vec![1, 2, 9]);
}

#[test]
fn remove_child_item_takes_the_item_at_a_position() {
    let mut t = example_tree();
    let mut x = t.root.remove(0);
    let q = x.remove_child_item(3).expect("Q sits at position 3");
    assert_eq!(q.item.id, 2);
    assert_eq!(child_ids(&x.children), vec![1]);
    // a footer position is no item
    assert!(x.remove_child_item(2).is_none());
}

#[test]
fn separate_nested_lists_new_numbers_children_before_parent() {
    let (s, next) = SeparateNestedLists::new("sep".to_string(), 0, 2);
    assert_eq!(next, 6);
    assert_eq!(s.root.len(), 2);
    assert_eq!(s.root[0].item.id, 2);
    assert_eq!(s.root[1].item.id, 5);
    let c0: Vec<usize> =
        s.root[0].children.as_ref().unwrap().iter().map(|n| n.item.id).collect();
    let c1: Vec<usize> =
        s.root[1].children.as_ref().unwrap().iter().map(|n| n.item.id).collect();
    assert_eq!(c0, vec![0, 1]);
    assert_eq!(c1, vec![3, 4]);
}
