use crate::tree::{
    list_placed, list_slots, list_walk, node_placed, node_walk, subtree_slots, ItemList, ListId,
    Slot,
};
use vstd::prelude::*;

verus! {

/// How a host should draw one list's entries within the walk.
#[derive(Clone, Copy, Debug)]
pub struct UiSubListConfig {
    pub draw_header: bool,
}

/// Which list is being drawn: the root list — whose footer is not a
/// draggable slot of its own, only the sentinel position past the walk — or
/// a sub-list, which always ends in a draggable footer slot.
#[derive(Clone, Copy, Debug)]
pub enum UiListConfig {
    Root,
    SubList(UiSubListConfig),
}

/// How a list's header is drawn: standalone for the root, or together with
/// the owning item for a sub-list, so nothing can be dropped between an item
/// and its own list's header.
#[derive(Clone, Copy, Debug)]
pub enum UiListHeaderConfig {
    Root,
    SubList,
}

/// A structured location: an index into the contents of one list.
#[derive(Clone, Copy, Debug, PartialEq, Eq, Structural)]
pub struct DragLocation {
    pub list_id: ListId,
    pub idx: usize,
}

/// Where a drag ends, as resolved against the current frame's walk.
#[derive(Clone, Copy, Debug, PartialEq, Eq, Structural)]
pub enum DragDestination {
    /// Insert into another list just before the entry at the given location.
    Insert(DragLocation),
    /// Push onto the end of another list.
    Push(ListId),
    /// Move within the starting list; the index is the insertion index in
    /// the list as it stands once the dragged entry has been taken out.
    Within(usize),
}

/// A fully resolved drag: where the dragged entry came from and where it
/// goes.
#[derive(Clone, Copy, Debug, PartialEq, Eq, Structural)]
pub struct DragUpdate {
    pub from: DragLocation,
    pub to: DragDestination,
}

/// What resolving a linear position as a drag source yields: the location of
/// the item slot at that offset of the walk, and nothing for a footer slot
/// or an out-of-range position.
pub open spec fn walk_slot_source(w: Seq<Slot>, off: int) -> Option<DragLocation> {
    if 0 <= off < w.len() {
        match w[off] {
            Slot::ItemAt { id, owner, idx } => Some(
                DragLocation { list_id: owner, idx: idx as usize },
            ),
            Slot::FooterOf { .. } => None,
        }
    } else {
        None
    }
}

/// Resolving a source position against a list of subtrees whose walk starts
/// at `base`.
pub open spec fn spec_source_in_list(
    s: Seq<ItemList>,
    base: int,
    pos: int,
    owner: ListId,
) -> Option<DragLocation> {
    if base <= pos < base + list_slots(s) {
        walk_slot_source(list_walk(s, owner, 0), pos - base)
    } else {
        None
    }
}

/// What resolving a linear position as a drag destination yields: an item
/// slot becomes an insertion point (a reorder when it lies in the source's
/// own list), a footer slot appends to its list, and an out-of-range
/// position resolves to nothing.
pub open spec fn walk_slot_dest(w: Seq<Slot>, off: int, src: ListId) -> Option<DragDestination> {
    if 0 <= off < w.len() {
        match w[off] {
            Slot::ItemAt { id, owner, idx } => if owner == src {
                Some(DragDestination::Within(idx as usize))
            } else {
                Some(DragDestination::Insert(DragLocation { list_id: owner, idx: idx as usize }))
            },
            Slot::FooterOf { owner } => Some(DragDestination::Push(owner)),
        }
    } else {
        None
    }
}

/// Resolving a destination position against a list whose walk starts at
/// `base`: the position one past the list's own slots is the list's own
/// footer (for the root list, the append-to-root sentinel).
pub open spec fn spec_dest_in_list(
    s: Seq<ItemList>,
    base: int,
    pos: int,
    owner: ListId,
    src: ListId,
) -> Option<DragDestination> {
    if pos == base + list_slots(s) {
        Some(DragDestination::Push(owner))
    } else if base <= pos < base + list_slots(s) {
        walk_slot_dest(list_walk(s, owner, 0), pos - base, src)
    } else {
        None
    }
}

/// Resolves a source position by descending through whichever subtree's
/// bounds contain it, as the stored placement directs, until the exact item
/// slot is found. A footer position or a position outside the walk resolves
/// to nothing: it is no valid drag origin.
pub fn source_in_list(s: &Vec<ItemList>, base: usize, pos: usize, owner: ListId) -> (r: Option<
    DragLocation,
>)
    requires
        list_placed(s@, base as int),
        base + list_slots(s@) <= usize::MAX,
    ensures
        r == spec_source_in_list(s@, base as int, pos as int, owner),
    decreases s@,
{
    let ghost goal = spec_source_in_list(s@, base as int, pos as int, owner);
    proof {
        assert(s@.skip(0) =~= s@);
    }
    let mut i: usize = 0;
    let mut b: usize = base;
    while i < s.len()
        invariant
            0 <= i <= s@.len(),
            base + list_slots(s@) <= usize::MAX,
            b as int + list_slots(s@.skip(i as int)) == base as int + list_slots(s@),
            b >= base,
            list_placed(s@.skip(i as int), b as int),
            goal == spec_source_in_list(s@, base as int, pos as int, owner),
            goal == if b <= pos < base + list_slots(s@) {
                walk_slot_source(list_walk(s@.skip(i as int), owner, i as int), pos - b)
            } else {
                Option::<DragLocation>::None
            },
        decreases s@.len() - i,
    {
        let ghost ii = i as int;
        let ghost rest = s@.skip(ii);
        proof {
            assert(rest.len() == s@.len() - ii);
            assert(rest[0] == s@[ii]);
            assert(rest.drop_first() =~= s@.skip(ii + 1));
            crate::tree::lemma_node_walk_len(s@[ii], owner, ii);
            crate::tree::lemma_list_walk_len(rest, owner, ii);
            assert(node_placed(s@[ii], b as int));
            assert(list_slots(rest) == subtree_slots(s@[ii]) + list_slots(s@.skip(ii + 1)));
        }
        let node = &s[i];
        if node.dnd_idx == pos {
            proof {
                assert(list_walk(rest, owner, ii) == node_walk(s@[ii], owner, ii) + list_walk(
                    s@.skip(ii + 1),
                    owner,
                    ii + 1,
                ));
                assert(node_walk(s@[ii], owner, ii)[0] == Slot::ItemAt {
                    id: s@[ii].item.id,
                    owner,
                    idx: ii,
                });
                assert(list_walk(rest, owner, ii)[0] == node_walk(s@[ii], owner, ii)[0]);
            }
            return Some(DragLocation { list_id: owner, idx: i });
        }
        let visible = !node.dnd_dragged && !node.collapsed;
        if visible && node.dnd_children_idx_bounds.contains(pos) {
            proof {
                assert(decreases_to!(s@ => s@[ii]));
                assert(decreases_to!(s@[ii] => s@[ii].children));
                assert(decreases_to!(s@[ii].children => s@[ii].children@));
            }
            let r = source_in_list(&node.children, b + 1, pos, ListId::Under(node.item.id));
            proof {
                let w_node = node_walk(s@[ii], owner, ii);
                let w_kids = list_walk(s@[ii].children@, s@[ii].list_id(), 0);
                crate::tree::lemma_list_walk_len(s@[ii].children@, s@[ii].list_id(), 0);
                assert(list_walk(rest, owner, ii)[pos - b] == w_node[pos - b]);
                if pos < b + 1 + list_slots(s@[ii].children@) {
                    assert(w_node[pos - b] == (w_kids + seq![
                        Slot::FooterOf { owner: s@[ii].list_id() },
                    ])[pos - b - 1]);
                    assert(w_node[pos - b] == w_kids[pos - (b + 1)]);
                } else {
                    assert(pos == b + 1 + list_slots(s@[ii].children@));
                    assert(w_node[pos - b] == (w_kids + seq![
                        Slot::FooterOf { owner: s@[ii].list_id() },
                    ])[pos - b - 1]);
                    assert(w_node[pos - b] == Slot::FooterOf { owner: s@[ii].list_id() });
                }
            }
            return r;
        }
        // advance past this subtree
        let next_b = if visible {
            node.dnd_children_idx_bounds.end + 1
        } else {
            b + 1
        };
        proof {
            assert(next_b as int == b + subtree_slots(s@[ii]));
            if b <= pos < base + list_slots(s@) {
                assert(pos >= next_b);
                assert(list_walk(rest, owner, ii) == node_walk(s@[ii], owner, ii) + list_walk(
                    s@.skip(ii + 1),
                    owner,
                    ii + 1,
                ));
                assert(list_walk(rest, owner, ii)[pos - b] == list_walk(
                    s@.skip(ii + 1),
                    owner,
                    ii + 1,
                )[pos - next_b]);
            }
        }
        b = next_b;
        i = i + 1;
    }
    proof {
        assert(s@.skip(i as int) =~= Seq::<ItemList>::empty());
    }
    None
}

/// Resolves a destination position: the footer position of the list itself
/// (for the root list, the position one past the whole walk) appends to the
/// list; an item slot becomes an insertion point, or a reorder when it lies
/// in the drag's source list `src`; any other position resolves to nothing.
pub fn dest_in_list(
    s: &Vec<ItemList>,
    base: usize,
    footer: usize,
    pos: usize,
    owner: ListId,
    src: ListId,
) -> (r: Option<DragDestination>)
    requires
        list_placed(s@, base as int),
        footer as int == base as int + list_slots(s@),
    ensures
        r == spec_dest_in_list(s@, base as int, pos as int, owner, src),
    decreases s@,
{
    let ghost goal = spec_dest_in_list(s@, base as int, pos as int, owner, src);
    if pos == footer {
        return Some(DragDestination::Push(owner));
    }
    proof {
        assert(s@.skip(0) =~= s@);
    }
    let mut i: usize = 0;
    let mut b: usize = base;
    while i < s.len()
        invariant
            0 <= i <= s@.len(),
            base as int + list_slots(s@) <= usize::MAX,
            pos != base + list_slots(s@),
            b as int + list_slots(s@.skip(i as int)) == base as int + list_slots(s@),
            b >= base,
            list_placed(s@.skip(i as int), b as int),
            goal == spec_dest_in_list(s@, base as int, pos as int, owner, src),
            goal == if b <= pos < base + list_slots(s@) {
                walk_slot_dest(list_walk(s@.skip(i as int), owner, i as int), pos - b, src)
            } else {
                Option::<DragDestination>::None
            },
        decreases s@.len() - i,
    {
        let ghost ii = i as int;
        let ghost rest = s@.skip(ii);
        proof {
            assert(rest.len() == s@.len() - ii);
            assert(rest[0] == s@[ii]);
            assert(rest.drop_first() =~= s@.skip(ii + 1));
            crate::tree::lemma_node_walk_len(s@[ii], owner, ii);
            crate::tree::lemma_list_walk_len(rest, owner, ii);
            assert(node_placed(s@[ii], b as int));
            assert(list_slots(rest) == subtree_slots(s@[ii]) + list_slots(s@.skip(ii + 1)));
            assert(list_walk(rest, owner, ii) == node_walk(s@[ii], owner, ii) + list_walk(
                s@.skip(ii + 1),
                owner,
                ii + 1,
            ));
        }
        let node = &s[i];
        if node.dnd_idx == pos {
            proof {
                assert(node_walk(s@[ii], owner, ii)[0] == Slot::ItemAt {
                    id: s@[ii].item.id,
                    owner,
                    idx: ii,
                });
                assert(list_walk(rest, owner, ii)[0] == node_walk(s@[ii], owner, ii)[0]);
            }
            if owner == src {
                return Some(DragDestination::Within(i));
            }
            return Some(DragDestination::Insert(DragLocation { list_id: owner, idx: i }));
        }
        let visible = !node.dnd_dragged && !node.collapsed;
        if visible && node.dnd_children_idx_bounds.contains(pos) {
            proof {
                assert(decreases_to!(s@ => s@[ii]));
                assert(decreases_to!(s@[ii] => s@[ii].children));
                assert(decreases_to!(s@[ii].children => s@[ii].children@));
            }
            let r = dest_in_list(
                &node.children,
                b + 1,
                node.dnd_children_idx_bounds.end,
                pos,
                ListId::Under(node.item.id),
                src,
            );
            proof {
                let w_node = node_walk(s@[ii], owner, ii);
                let w_kids = list_walk(s@[ii].children@, s@[ii].list_id(), 0);
                crate::tree::lemma_list_walk_len(s@[ii].children@, s@[ii].list_id(), 0);
                assert(list_walk(rest, owner, ii)[pos - b] == w_node[pos - b]);
                if pos < b + 1 + list_slots(s@[ii].children@) {
                    assert(w_node[pos - b] == (w_kids + seq![
                        Slot::FooterOf { owner: s@[ii].list_id() },
                    ])[pos - b - 1]);
                    assert(w_node[pos - b] == w_kids[pos - (b + 1)]);
                } else {
                    assert(pos == b + 1 + list_slots(s@[ii].children@));
                    assert(w_node[pos - b] == (w_kids + seq![
                        Slot::FooterOf { owner: s@[ii].list_id() },
                    ])[pos - b - 1]);
                    assert(w_node[pos - b] == Slot::FooterOf { owner: s@[ii].list_id() });
                }
            }
            return r;
        }
        let next_b = if visible {
            node.dnd_children_idx_bounds.end + 1
        } else {
            b + 1
        };
        proof {
            assert(next_b as int == b + subtree_slots(s@[ii]));
            if b <= pos < base + list_slots(s@) {
                assert(pos >= next_b);
                assert(list_walk(rest, owner, ii)[pos - b] == list_walk(
                    s@.skip(ii + 1),
                    owner,
                    ii + 1,
                )[pos - next_b]);
            }
        }
        b = next_b;
        i = i + 1;
    }
    proof {
        assert(s@.skip(i as int) =~= Seq::<ItemList>::empty());
    }
    None
}

} // verus!
