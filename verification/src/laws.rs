use crate::resolve::{spec_dest_in_list, spec_source_in_list, DragDestination, DragLocation};
use crate::tree::{
    lemma_list_walk_len, lemma_node_walk_len, lemma_singleton_list, list_ids, list_placed,
    list_slots, list_walk, node_placed, node_walk, subtree_ids, subtree_slots, ItemList, ListId,
    Slot,
};
use vstd::prelude::*;

verus! {

/// The element at index `i` of a placed list is itself placed, at the
/// position just past its earlier siblings' subtrees.
pub proof fn lemma_list_placed_index(s: Seq<ItemList>, base: int, i: int)
    requires
        list_placed(s, base),
        0 <= i < s.len(),
    ensures
        node_placed(s[i], base + list_slots(s.take(i))),
    decreases i,
{
    if i == 0 {
        assert(s.take(0) =~= Seq::<ItemList>::empty());
        assert(list_slots(Seq::<ItemList>::empty()) == 0);
    } else {
        assert(s.drop_first()[i - 1] == s[i]);
        lemma_list_placed_index(s.drop_first(), base + subtree_slots(s[0]), i - 1);
        assert(s.take(i) =~= seq![s[0]] + s.drop_first().take(i - 1));
        crate::tree::lemma_list_slots_concat(seq![s[0]], s.drop_first().take(i - 1));
        lemma_singleton_list(s[0], ListId::Root, 0);
    }
}

/// Law: the bounds of two visible sibling lists never overlap — the earlier
/// one ends strictly before the later one starts.
pub proof fn lemma_sibling_bounds_disjoint(s: Seq<ItemList>, base: int, i: int, j: int)
    requires
        list_placed(s, base),
        0 <= i < j < s.len(),
        !s[i].excluded(),
        !s[j].excluded(),
    ensures
        s[i].dnd_children_idx_bounds.end < s[j].dnd_children_idx_bounds.start,
{
    lemma_list_placed_index(s, base, i);
    lemma_list_placed_index(s, base, j);
    assert(s.take(j) =~= (s.take(i) + seq![s[i]]) + s.subrange(i + 1, j));
    crate::tree::lemma_list_slots_concat(s.take(i) + seq![s[i]], s.subrange(i + 1, j));
    crate::tree::lemma_list_slots_concat(s.take(i), seq![s[i]]);
    lemma_singleton_list(s[i], ListId::Root, 0);
}

/// The walk's slot at an item's assigned position records exactly that item,
/// its owning list, and its index in it.
pub proof fn lemma_walk_round_trip(s: Seq<ItemList>, base: int, owner: ListId, k0: int, i: int)
    requires
        list_placed(s, base),
        0 <= i < s.len(),
    ensures
        base <= s[i].dnd_idx,
        s[i].dnd_idx - base < list_slots(s),
        list_walk(s, owner, k0)[s[i].dnd_idx - base] == (Slot::ItemAt {
            id: s[i].item.id,
            owner,
            idx: k0 + i,
        }),
    decreases i,
{
    lemma_list_walk_len(s, owner, k0);
    lemma_node_walk_len(s[0], owner, k0);
    assert(node_placed(s[0], base));
    assert(list_slots(s) == subtree_slots(s[0]) + list_slots(s.drop_first()));
    assert(list_walk(s, owner, k0) == node_walk(s[0], owner, k0) + list_walk(
        s.drop_first(),
        owner,
        k0 + 1,
    ));
    if i == 0 {
        assert(node_walk(s[0], owner, k0)[0] == (Slot::ItemAt {
            id: s[0].item.id,
            owner,
            idx: k0,
        }));
        assert(list_walk(s, owner, k0)[0] == node_walk(s[0], owner, k0)[0]);
    } else {
        assert(s.drop_first()[i - 1] == s[i]);
        lemma_walk_round_trip(s.drop_first(), base + subtree_slots(s[0]), owner, k0 + 1, i - 1);
        lemma_list_walk_len(s.drop_first(), owner, k0 + 1);
        assert(list_walk(s, owner, k0)[s[i].dnd_idx - base] == list_walk(
            s.drop_first(),
            owner,
            k0 + 1,
        )[s[i].dnd_idx - (base + subtree_slots(s[0]))]);
    }
}

/// Law: after a walk has assigned positions, resolving any item's assigned
/// position as a drag source succeeds and returns exactly the list and
/// index the item was walked at.
pub proof fn lemma_source_round_trip(s: Seq<ItemList>, base: int, owner: ListId, i: int)
    requires
        list_placed(s, base),
        0 <= i < s.len(),
        s.len() <= usize::MAX,
    ensures
        spec_source_in_list(s, base, s[i].dnd_idx as int, owner) == Some(
            DragLocation { list_id: owner, idx: i as usize },
        ),
{
    lemma_walk_round_trip(s, base, owner, 0, i);
    lemma_list_walk_len(s, owner, 0);
}

/// Who a slot belongs to.
pub open spec fn slot_owner(sl: Slot) -> ListId {
    match sl {
        Slot::ItemAt { owner, .. } => owner,
        Slot::FooterOf { owner } => owner,
    }
}

/// The identifiers of the items whose child lists the walk enters: the
/// items drawn this frame that are not excluded. An excluded item itself is
/// still drawn, but its list is not.
pub open spec fn node_open_ids(n: ItemList) -> Seq<usize>
    decreases n,
{
    if n.excluded() {
        seq![]
    } else {
        seq![n.item.id] + list_open_ids(n.children@)
    }
}

pub open spec fn list_open_ids(s: Seq<ItemList>) -> Seq<usize>
    decreases s,
{
    if s.len() == 0 {
        seq![]
    } else {
        node_open_ids(s[0]) + list_open_ids(s.drop_first())
    }
}

/// The node `d` stands somewhere in the tree.
pub open spec fn contains_node(s: Seq<ItemList>, d: ItemList) -> bool
    decreases s,
{
    s.len() > 0 && (s[0] == d || contains_node(s[0].children@, d) || contains_node(
        s.drop_first(),
        d,
    ))
}

/// The list `l` lives inside `d`'s subtree: it is the child list of `d`
/// itself or of one of its descendants.
pub open spec fn under_node(d: ItemList, l: ListId) -> bool {
    match l {
        ListId::Root => false,
        ListId::Under(x) => subtree_ids(d).contains(x),
    }
}

/// A slot's owner is either the list being walked or an open item's list.
pub open spec fn owner_ok(l: ListId, outer: ListId, open: Seq<usize>) -> bool {
    l == outer || (match l {
        ListId::Under(x) => open.contains(x),
        ListId::Root => false,
    })
}

proof fn lemma_concat_contains(a: Seq<usize>, b: Seq<usize>, x: usize)
    requires
        a.contains(x) || b.contains(x),
    ensures
        (a + b).contains(x),
{
    if a.contains(x) {
        let j = choose|j: int| 0 <= j < a.len() && a[j] == x;
        assert((a + b)[j] == x);
    } else {
        let j = choose|j: int| 0 <= j < b.len() && b[j] == x;
        assert((a + b)[a.len() + j] == x);
    }
}

/// Every slot of a subtree's walk is owned by the outer list or by an open
/// item of the subtree.
proof fn lemma_walk_owner_node(n: ItemList, owner: ListId, k: int, off: int)
    requires
        0 <= off < node_walk(n, owner, k).len(),
    ensures
        owner_ok(slot_owner(node_walk(n, owner, k)[off]), owner, node_open_ids(n)),
    decreases n,
{
    lemma_node_walk_len(n, owner, k);
    if off == 0 {
        assert(node_walk(n, owner, k)[0] == (Slot::ItemAt { id: n.item.id, owner, idx: k }));
    } else {
        let kids = list_walk(n.children@, n.list_id(), 0);
        lemma_list_walk_len(n.children@, n.list_id(), 0);
        assert(node_walk(n, owner, k)[off] == (kids + seq![
            Slot::FooterOf { owner: n.list_id() },
        ])[off - 1]);
        assert(node_open_ids(n)[0] == n.item.id);
        if off - 1 < kids.len() {
            assert(node_walk(n, owner, k)[off] == kids[off - 1]);
            lemma_walk_owner_list(n.children@, n.list_id(), 0, off - 1);
            let l = slot_owner(kids[off - 1]);
            if l == n.list_id() {
                assert(node_open_ids(n).contains(n.item.id));
            } else {
                match l {
                    ListId::Under(x) => {
                        let j = choose|j: int|
                            0 <= j < list_open_ids(n.children@).len() && list_open_ids(
                                n.children@,
                            )[j] == x;
                        assert(node_open_ids(n)[1 + j] == x);
                        assert(node_open_ids(n).contains(x));
                    },
                    ListId::Root => {},
                }
            }
        } else {
            assert(node_walk(n, owner, k)[off] == (Slot::FooterOf { owner: n.list_id() }));
            assert(node_open_ids(n).contains(n.item.id));
        }
    }
}

proof fn lemma_walk_owner_list(s: Seq<ItemList>, owner: ListId, k: int, off: int)
    requires
        0 <= off < list_walk(s, owner, k).len(),
    ensures
        owner_ok(slot_owner(list_walk(s, owner, k)[off]), owner, list_open_ids(s)),
    decreases s,
{
    lemma_list_walk_len(s, owner, k);
    lemma_node_walk_len(s[0], owner, k);
    assert(list_walk(s, owner, k) == node_walk(s[0], owner, k) + list_walk(
        s.drop_first(),
        owner,
        k + 1,
    ));
    let l = slot_owner(list_walk(s, owner, k)[off]);
    if off < node_walk(s[0], owner, k).len() {
        assert(list_walk(s, owner, k)[off] == node_walk(s[0], owner, k)[off]);
        lemma_walk_owner_node(s[0], owner, k, off);
        if l != owner {
            match l {
                ListId::Under(x) => {
                    lemma_concat_contains(node_open_ids(s[0]), list_open_ids(s.drop_first()), x);
                },
                ListId::Root => {},
            }
        }
    } else {
        assert(list_walk(s, owner, k)[off] == list_walk(s.drop_first(), owner, k + 1)[off
            - node_walk(s[0], owner, k).len()]);
        lemma_walk_owner_list(s.drop_first(), owner, k + 1, off - node_walk(s[0], owner, k).len());
        if l != owner {
            match l {
                ListId::Under(x) => {
                    lemma_concat_contains(node_open_ids(s[0]), list_open_ids(s.drop_first()), x);
                },
                ListId::Root => {},
            }
        }
    }
}

/// Splitting a duplicate-free sequence keeps both halves duplicate-free and
/// disjoint.
proof fn lemma_no_dup_parts(a: Seq<usize>, b: Seq<usize>)
    requires
        (a + b).no_duplicates(),
    ensures
        a.no_duplicates(),
        b.no_duplicates(),
        forall|x: usize| a.contains(x) ==> !b.contains(x),
{
    assert forall|i: int, j: int| 0 <= i < a.len() && 0 <= j < a.len() && i != j implies a[i]
        != a[j] by {
        assert((a + b)[i] == a[i]);
        assert((a + b)[j] == a[j]);
    }
    assert forall|i: int, j: int| 0 <= i < b.len() && 0 <= j < b.len() && i != j implies b[i]
        != b[j] by {
        assert((a + b)[a.len() + i] == b[i]);
        assert((a + b)[a.len() + j] == b[j]);
    }
    assert forall|x: usize| a.contains(x) implies !b.contains(x) by {
        if b.contains(x) {
            let i = choose|i: int| 0 <= i < a.len() && a[i] == x;
            let j = choose|j: int| 0 <= j < b.len() && b[j] == x;
            assert((a + b)[i] == x);
            assert((a + b)[a.len() + j] == x);
        }
    }
}

/// A contained node's identifiers all appear in the tree's identifiers.
proof fn lemma_contains_node_ids(s: Seq<ItemList>, d: ItemList, y: usize)
    requires
        contains_node(s, d),
        subtree_ids(d).contains(y),
    ensures
        list_ids(s).contains(y),
    decreases s,
{
    assert(list_ids(s) == subtree_ids(s[0]) + list_ids(s.drop_first()));
    if s[0] == d {
        lemma_concat_contains(subtree_ids(s[0]), list_ids(s.drop_first()), y);
    } else if contains_node(s[0].children@, d) {
        lemma_contains_node_ids(s[0].children@, d, y);
        assert(subtree_ids(s[0]) == seq![s[0].item.id] + list_ids(s[0].children@));
        lemma_concat_contains(seq![s[0].item.id], list_ids(s[0].children@), y);
        lemma_concat_contains(subtree_ids(s[0]), list_ids(s.drop_first()), y);
    } else {
        lemma_contains_node_ids(s.drop_first(), d, y);
        lemma_concat_contains(subtree_ids(s[0]), list_ids(s.drop_first()), y);
    }
}

/// Open identifiers are identifiers of the tree.
proof fn lemma_open_sub_ids(s: Seq<ItemList>, x: usize)
    requires
        list_open_ids(s).contains(x),
    ensures
        list_ids(s).contains(x),
    decreases s,
{
    assert(list_ids(s) == subtree_ids(s[0]) + list_ids(s.drop_first()));
    assert(list_open_ids(s) == node_open_ids(s[0]) + list_open_ids(s.drop_first()));
    let j = choose|j: int| 0 <= j < list_open_ids(s).len() && list_open_ids(s)[j] == x;
    if j < node_open_ids(s[0]).len() {
        lemma_open_sub_ids_node(s[0], x);
        lemma_concat_contains(subtree_ids(s[0]), list_ids(s.drop_first()), x);
    } else {
        assert(list_open_ids(s.drop_first())[j - node_open_ids(s[0]).len()] == x);
        lemma_open_sub_ids(s.drop_first(), x);
        lemma_concat_contains(subtree_ids(s[0]), list_ids(s.drop_first()), x);
    }
}

proof fn lemma_open_sub_ids_node(n: ItemList, x: usize)
    requires
        node_open_ids(n).contains(x),
    ensures
        subtree_ids(n).contains(x),
    decreases n,
{
    assert(subtree_ids(n) == seq![n.item.id] + list_ids(n.children@));
    let j = choose|j: int| 0 <= j < node_open_ids(n).len() && node_open_ids(n)[j] == x;
    if j == 0 {
        assert(x == n.item.id);
        assert(subtree_ids(n)[0] == x);
    } else {
        assert(list_open_ids(n.children@)[j - 1] == x);
        lemma_open_sub_ids(n.children@, x);
        lemma_concat_contains(seq![n.item.id], list_ids(n.children@), x);
    }
}

/// The walk never opens a list inside an excluded subtree: an open
/// identifier is never among the excluded node's own identifiers.
proof fn lemma_open_disjoint_excluded(s: Seq<ItemList>, d: ItemList, x: usize)
    requires
        list_ids(s).no_duplicates(),
        contains_node(s, d),
        d.excluded(),
        list_open_ids(s).contains(x),
    ensures
        !subtree_ids(d).contains(x),
    decreases s,
{
    let h = s[0];
    let rest = s.drop_first();
    assert(list_ids(s) == subtree_ids(h) + list_ids(rest));
    assert(list_open_ids(s) == node_open_ids(h) + list_open_ids(rest));
    lemma_no_dup_parts(subtree_ids(h), list_ids(rest));
    let j = choose|j: int| 0 <= j < list_open_ids(s).len() && list_open_ids(s)[j] == x;
    let in_head_open = j < node_open_ids(h).len();
    if in_head_open {
        assert(node_open_ids(h)[j] == x);
        assert(node_open_ids(h).contains(x));
    } else {
        assert(list_open_ids(rest)[j - node_open_ids(h).len()] == x);
        assert(list_open_ids(rest).contains(x));
    }
    if h == d || contains_node(h.children@, d) {
        // the excluded node lives in the head subtree
        if subtree_ids(d).contains(x) {
            if in_head_open {
                if h == d {
                    assert(node_open_ids(h).len() == 0);
                } else {
                    assert(!h.excluded());
                    assert(subtree_ids(h) == seq![h.item.id] + list_ids(h.children@));
                    lemma_no_dup_parts(seq![h.item.id], list_ids(h.children@));
                    if node_open_ids(h)[j] == x && j == 0 {
                        // x is the head's own identifier, which never recurs
                        // below it
                        lemma_contains_node_ids(h.children@, d, x);
                        assert(seq![h.item.id].contains(x));
                    } else {
                        assert(list_open_ids(h.children@)[j - 1] == x);
                        lemma_open_disjoint_excluded(h.children@, d, x);
                    }
                }
            } else {
                // x is open in the tail, but d's identifiers all sit in the
                // head subtree
                lemma_open_sub_ids(rest, x);
                lemma_contains_node_ids_head(h, d, x);
            }
        }
    } else {
        assert(contains_node(rest, d));
        if subtree_ids(d).contains(x) {
            if in_head_open {
                lemma_open_sub_ids_node(h, x);
                lemma_contains_node_ids(rest, d, x);
            } else {
                lemma_open_disjoint_excluded(rest, d, x);
            }
        }
    }
}

/// A node contained in the head subtree has all its identifiers there.
proof fn lemma_contains_node_ids_head(h: ItemList, d: ItemList, y: usize)
    requires
        h == d || contains_node(h.children@, d),
        subtree_ids(d).contains(y),
    ensures
        subtree_ids(h).contains(y),
{
    if h == d {
    } else {
        lemma_contains_node_ids(h.children@, d, y);
        assert(subtree_ids(h) == seq![h.item.id] + list_ids(h.children@));
        lemma_concat_contains(seq![h.item.id], list_ids(h.children@), y);
    }
}

/// Somewhere in the tree, a node that the walk does not exclude carries `y`
/// and has an entry at index `k` of its list.
pub open spec fn has_open_entry(s: Seq<ItemList>, y: usize, k: int) -> bool
    decreases s,
{
    s.len() > 0 && ({
        ||| (s[0].item.id == y && !s[0].excluded() && 0 <= k < s[0].children@.len())
        ||| (!s[0].excluded() && has_open_entry(s[0].children@, y, k))
        ||| has_open_entry(s.drop_first(), y, k)
    })
}

/// A walk spends at least one position per sibling.
proof fn lemma_list_slots_ge_len(s: Seq<ItemList>)
    ensures
        list_slots(s) >= s.len(),
    decreases s,
{
    if s.len() != 0 {
        lemma_list_slots_ge_len(s.drop_first());
        assert(list_slots(s) == subtree_slots(s[0]) + list_slots(s.drop_first()));
        assert(subtree_slots(s[0]) >= 1);
    }
}

/// An open entry's index is bounded by the walk's size.
proof fn lemma_open_entry_bound(s: Seq<ItemList>, y: usize, k: int)
    requires
        has_open_entry(s, y, k),
    ensures
        0 <= k < list_slots(s),
    decreases s,
{
    assert(list_slots(s) == subtree_slots(s[0]) + list_slots(s.drop_first()));
    if s[0].item.id == y && !s[0].excluded() && 0 <= k < s[0].children@.len() {
        lemma_list_slots_ge_len(s[0].children@);
    } else if !s[0].excluded() && has_open_entry(s[0].children@, y, k) {
        lemma_open_entry_bound(s[0].children@, y, k);
    } else {
        lemma_open_entry_bound(s.drop_first(), y, k);
    }
}

/// An open entry's owner is an identifier of the tree.
proof fn lemma_open_entry_in_ids(s: Seq<ItemList>, y: usize, k: int)
    requires
        has_open_entry(s, y, k),
    ensures
        list_ids(s).contains(y),
    decreases s,
{
    assert(list_ids(s) == subtree_ids(s[0]) + list_ids(s.drop_first()));
    if s[0].item.id == y && !s[0].excluded() && 0 <= k < s[0].children@.len() {
        assert(subtree_ids(s[0])[0] == y);
        lemma_concat_contains(subtree_ids(s[0]), list_ids(s.drop_first()), y);
    } else if !s[0].excluded() && has_open_entry(s[0].children@, y, k) {
        lemma_open_entry_in_ids(s[0].children@, y, k);
        assert(subtree_ids(s[0]) == seq![s[0].item.id] + list_ids(s[0].children@));
        lemma_concat_contains(seq![s[0].item.id], list_ids(s[0].children@), y);
        lemma_concat_contains(subtree_ids(s[0]), list_ids(s.drop_first()), y);
    } else {
        lemma_open_entry_in_ids(s.drop_first(), y, k);
        lemma_concat_contains(subtree_ids(s[0]), list_ids(s.drop_first()), y);
    }
}

/// What the walk's slots attest, besides ownership: an item slot of the list
/// being walked records an in-range index, and an item slot of a deeper list
/// records an open entry of that list; a footer's list exists in the tree.
proof fn lemma_walk_entry_sound_node(n: ItemList, owner: ListId, k: int, off: int)
    requires
        0 <= off < node_walk(n, owner, k).len(),
        1 <= off,
    ensures
        match node_walk(n, owner, k)[off] {
            Slot::ItemAt { id, owner: o2, idx } => match o2 {
                ListId::Under(y) => !n.excluded() && (
                (n.item.id == y && 0 <= idx < n.children@.len()) || has_open_entry(
                    n.children@,
                    y,
                    idx,
                )),
                ListId::Root => false,
            },
            Slot::FooterOf { owner: o2 } => match o2 {
                ListId::Under(y) => subtree_ids(n).contains(y),
                ListId::Root => false,
            },
        },
    decreases n,
{
    lemma_node_walk_len(n, owner, k);
    let kids = list_walk(n.children@, n.list_id(), 0);
    lemma_list_walk_len(n.children@, n.list_id(), 0);
    assert(node_walk(n, owner, k)[off] == (kids + seq![
        Slot::FooterOf { owner: n.list_id() },
    ])[off - 1]);
    if off - 1 < kids.len() {
        assert(node_walk(n, owner, k)[off] == kids[off - 1]);
        lemma_walk_entry_sound_list(n.children@, n.list_id(), 0, off - 1);
        match kids[off - 1] {
            Slot::ItemAt { id, owner: o2, idx } => {
                match o2 {
                    ListId::Under(y) => {
                        if o2 == n.list_id() {
                        } else {
                            // an open entry of a deeper list lifts one level
                        }
                    },
                    ListId::Root => {},
                }
            },
            Slot::FooterOf { owner: o2 } => {
                match o2 {
                    ListId::Under(y) => {
                        if o2 == n.list_id() {
                            assert(subtree_ids(n)[0] == n.item.id);
                        } else {
                            let j = choose|j: int|
                                0 <= j < list_ids(n.children@).len() && list_ids(n.children@)[j]
                                    == y;
                            assert(subtree_ids(n) == seq![n.item.id] + list_ids(n.children@));
                            assert(subtree_ids(n)[1 + j] == y);
                        }
                    },
                    ListId::Root => {},
                }
            },
        }
    } else {
        assert(node_walk(n, owner, k)[off] == (Slot::FooterOf { owner: n.list_id() }));
        assert(subtree_ids(n)[0] == n.item.id);
    }
}

proof fn lemma_walk_entry_sound_list(s: Seq<ItemList>, owner: ListId, k0: int, off: int)
    requires
        0 <= off < list_walk(s, owner, k0).len(),
    ensures
        match list_walk(s, owner, k0)[off] {
            Slot::ItemAt { id, owner: o2, idx } => (o2 == owner && k0 <= idx < k0 + s.len()) || (
            match o2 {
                ListId::Under(y) => has_open_entry(s, y, idx),
                ListId::Root => false,
            }),
            Slot::FooterOf { owner: o2 } => o2 == owner || (match o2 {
                ListId::Under(y) => list_ids(s).contains(y),
                ListId::Root => false,
            }),
        },
    decreases s,
{
    lemma_list_walk_len(s, owner, k0);
    lemma_node_walk_len(s[0], owner, k0);
    assert(list_walk(s, owner, k0) == node_walk(s[0], owner, k0) + list_walk(
        s.drop_first(),
        owner,
        k0 + 1,
    ));
    assert(list_ids(s) == subtree_ids(s[0]) + list_ids(s.drop_first()));
    if off < node_walk(s[0], owner, k0).len() {
        assert(list_walk(s, owner, k0)[off] == node_walk(s[0], owner, k0)[off]);
        if off == 0 {
            assert(node_walk(s[0], owner, k0)[0] == (Slot::ItemAt {
                id: s[0].item.id,
                owner,
                idx: k0,
            }));
        } else {
            lemma_walk_entry_sound_node(s[0], owner, k0, off);
            match node_walk(s[0], owner, k0)[off] {
                Slot::ItemAt { id, owner: o2, idx } => {
                    match o2 {
                        ListId::Under(y) => {
                            assert(has_open_entry(s, y, idx));
                        },
                        ListId::Root => {},
                    }
                },
                Slot::FooterOf { owner: o2 } => {
                    match o2 {
                        ListId::Under(y) => {
                            if o2 != owner {
                                lemma_concat_contains(
                                    subtree_ids(s[0]),
                                    list_ids(s.drop_first()),
                                    y,
                                );
                            }
                        },
                        ListId::Root => {},
                    }
                },
            }
        }
    } else {
        lemma_walk_entry_sound_list(
            s.drop_first(),
            owner,
            k0 + 1,
            off - node_walk(s[0], owner, k0).len(),
        );
        match list_walk(s, owner, k0)[off] {
            Slot::ItemAt { id, owner: o2, idx } => {
                if o2 != owner {
                    match o2 {
                        ListId::Under(y) => {},
                        ListId::Root => {},
                    }
                }
            },
            Slot::FooterOf { owner: o2 } => {
                if o2 != owner {
                    match o2 {
                        ListId::Under(y) => {
                            let j = choose|j: int|
                                0 <= j < list_ids(s.drop_first()).len() && list_ids(
                                    s.drop_first(),
                                )[j] == y;
                            assert(list_ids(s)[subtree_ids(s[0]).len() + j] == y);
                        },
                        ListId::Root => {},
                    }
                }
            },
        }
    }
}


/// With duplicate-free identifiers, the pre-order search finds exactly the
/// node an open entry belongs to: the entry can be taken out of the tree and
/// one can be put back in its place.
pub proof fn lemma_open_entry_feasible(s: Seq<ItemList>, y: usize, k: int)
    requires
        list_ids(s).no_duplicates(),
        has_open_entry(s, y, k),
    ensures
        crate::mutate::removable(s, y, k),
        crate::mutate::insertable(s, y, k),
    decreases s,
{
    assert(list_ids(s) == subtree_ids(s[0]) + list_ids(s.drop_first()));
    lemma_no_dup_parts(subtree_ids(s[0]), list_ids(s.drop_first()));
    assert(subtree_ids(s[0]) == seq![s[0].item.id] + list_ids(s[0].children@));
    lemma_no_dup_parts(seq![s[0].item.id], list_ids(s[0].children@));
    assert(subtree_ids(s[0])[0] == s[0].item.id);
    assert(seq![s[0].item.id].contains(s[0].item.id));
    if s[0].item.id == y {
        // only the head's own list can host the open entry: a deeper or
        // later one would duplicate `y`
        if !s[0].excluded() && has_open_entry(s[0].children@, y, k) {
            lemma_open_entry_in_ids(s[0].children@, y, k);
        } else if has_open_entry(s.drop_first(), y, k) && !(s[0].item.id == y && !s[0].excluded()
            && 0 <= k < s[0].children@.len()) {
            lemma_open_entry_in_ids(s.drop_first(), y, k);
            lemma_concat_contains(seq![s[0].item.id], list_ids(s[0].children@), y);
        }
        assert(0 <= k < s[0].children@.len());
    } else if subtree_ids(s[0]).contains(y) {
        // the open entry sits in the head subtree, below its head
        if has_open_entry(s.drop_first(), y, k) {
            lemma_open_entry_in_ids(s.drop_first(), y, k);
        }
        assert(!s[0].excluded() && has_open_entry(s[0].children@, y, k));
        lemma_open_entry_feasible(s[0].children@, y, k);
    } else {
        // the open entry sits in the tail
        if !s[0].excluded() && has_open_entry(s[0].children@, y, k) {
            lemma_open_entry_in_ids(s[0].children@, y, k);
            lemma_concat_contains(seq![s[0].item.id], list_ids(s[0].children@), y);
        }
        assert(has_open_entry(s.drop_first(), y, k));
        lemma_open_entry_feasible(s.drop_first(), y, k);
    }
}

/// Law: every position that resolves as a drag source names an entry the
/// tree mutator can take out of the tree the position was resolved against
/// (identifiers being duplicate-free, as the builders guarantee).
pub proof fn lemma_resolved_source_feasible(s: Seq<ItemList>, pos: int)
    requires
        list_ids(s).no_duplicates(),
        list_slots(s) <= usize::MAX,
    ensures
        match spec_source_in_list(s, 0, pos, ListId::Root) {
            Some(loc) => match loc.list_id {
                ListId::Root => loc.idx < s.len(),
                ListId::Under(y) => crate::mutate::removable(s, y, loc.idx as int),
            },
            None => true,
        },
{
    lemma_list_slots_ge_len(s);
    if 0 <= pos < list_slots(s) {
        lemma_list_walk_len(s, ListId::Root, 0);
        lemma_walk_entry_sound_list(s, ListId::Root, 0, pos);
        match list_walk(s, ListId::Root, 0)[pos] {
            Slot::ItemAt { id, owner: o2, idx } => {
                match o2 {
                    ListId::Root => {},
                    ListId::Under(y) => {
                        assert(has_open_entry(s, y, idx));
                        lemma_open_entry_bound(s, y, idx);
                        lemma_open_entry_feasible(s, y, idx);
                        assert((idx as usize) as int == idx);
                    },
                }
            },
            Slot::FooterOf { .. } => {},
        }
    }
}

/// Law: every resolvable destination can take an entry in the tree the
/// position was resolved against: its target list exists and the index is in
/// range (identifiers being duplicate-free).
pub proof fn lemma_resolved_dest_feasible(s: Seq<ItemList>, pos: int, src: ListId)
    requires
        list_ids(s).no_duplicates(),
        list_slots(s) <= usize::MAX,
    ensures
        match spec_dest_in_list(s, 0, pos, ListId::Root, src) {
            Some(DragDestination::Within(k)) => match src {
                ListId::Root => k < s.len(),
                ListId::Under(y) => crate::mutate::insertable(s, y, k as int),
            },
            Some(DragDestination::Insert(loc)) => match loc.list_id {
                ListId::Root => loc.idx < s.len(),
                ListId::Under(y) => crate::mutate::insertable(s, y, loc.idx as int),
            },
            Some(DragDestination::Push(l)) => match l {
                ListId::Root => true,
                ListId::Under(y) => crate::mutate::appendable(s, y),
            },
            None => true,
        },
{
    lemma_list_slots_ge_len(s);
    if pos == list_slots(s) {
    } else if 0 <= pos < list_slots(s) {
        lemma_list_walk_len(s, ListId::Root, 0);
        lemma_walk_entry_sound_list(s, ListId::Root, 0, pos);
        match list_walk(s, ListId::Root, 0)[pos] {
            Slot::ItemAt { id, owner: o2, idx } => {
                match o2 {
                    ListId::Root => {},
                    ListId::Under(y) => {
                        assert(has_open_entry(s, y, idx));
                        lemma_open_entry_bound(s, y, idx);
                        lemma_open_entry_feasible(s, y, idx);
                        assert((idx as usize) as int == idx);
                    },
                }
            },
            Slot::FooterOf { owner: o2 } => {
                match o2 {
                    ListId::Root => {},
                    ListId::Under(y) => {
                        crate::mutate::lemma_appendable_of_contains(s, y);
                    },
                }
            },
        }
    }
}

/// Law: with duplicate-free identifiers, no resolvable drag destination
/// lies inside the subtree of a node excluded from the walk — in
/// particular, never inside the node being dragged, so a list can never be
/// dropped into its own contents.
pub proof fn lemma_no_self_containment(s: Seq<ItemList>, d: ItemList, pos: int, src: ListId)
    requires
        list_ids(s).no_duplicates(),
        contains_node(s, d),
        d.excluded(),
    ensures
        match spec_dest_in_list(s, 0, pos, ListId::Root, src) {
            Some(DragDestination::Insert(loc)) => !under_node(d, loc.list_id),
            Some(DragDestination::Push(l)) => !under_node(d, l),
            _ => true,
        },
{
    if pos == list_slots(s) {
        // appending to the root is never inside any subtree
    } else if 0 <= pos < list_slots(s) {
        lemma_list_walk_len(s, ListId::Root, 0);
        lemma_walk_owner_list(s, ListId::Root, 0, pos);
        let sl = list_walk(s, ListId::Root, 0)[pos];
        match slot_owner(sl) {
            ListId::Root => {},
            ListId::Under(x) => {
                assert(list_open_ids(s).contains(x));
                lemma_open_disjoint_excluded(s, d, x);
            },
        }
    }
}

/// The list a destination names: the source list for a reorder, the target
/// list otherwise.
pub open spec fn dest_list(to: DragDestination, src: ListId) -> ListId {
    match to {
        DragDestination::Within(_) => src,
        DragDestination::Insert(loc) => loc.list_id,
        DragDestination::Push(l) => l,
    }
}

/// Law: on a walked tree with duplicate-free identifiers, every resolved
/// drag can be carried out. The source names an entry that can be taken out;
/// and whatever tree the removal leaves, the destination can take the entry
/// there — except when it names a list inside the removed subtree itself,
/// which only a drag of an unflagged node can produce.
pub proof fn lemma_resolved_drag_applies(s: Seq<ItemList>, start: int, end: int)
    requires
        list_ids(s).no_duplicates(),
        list_slots(s) <= usize::MAX,
    ensures
        match crate::nested_lists::spec_resolve_drag(s, start, end) {
            Some(upd) => {
                &&& crate::nested_lists::removal_ok(s, upd.from)
                &&& forall|mid: Seq<ItemList>, n: ItemList|
                    crate::nested_lists::removal_rel(s, mid, n, upd.from)
                        ==> crate::nested_lists::insertion_ok(mid, upd.to, upd.from.list_id)
                            || under_node(n, dest_list(upd.to, upd.from.list_id))
            },
            None => true,
        },
{
    let upd_opt = crate::nested_lists::spec_resolve_drag(s, start, end);
    if upd_opt is Some {
        let src_res = spec_source_in_list(s, 0, start, ListId::Root);
        let from = src_res.unwrap();
        let dst_res = spec_dest_in_list(s, 0, end, ListId::Root, from.list_id);
        let to = dst_res.unwrap();
        assert(upd_opt.unwrap().from == from);
        assert(upd_opt.unwrap().to == to);
        lemma_resolved_source_feasible(s, start);
        lemma_resolved_dest_feasible(s, end, from.list_id);
        lemma_list_slots_ge_len(s);
        lemma_list_walk_len(s, ListId::Root, 0);
        assert forall|mid: Seq<ItemList>, n: ItemList|
            crate::nested_lists::removal_rel(s, mid, n, from) implies crate::nested_lists::insertion_ok(
            mid,
            to,
            from.list_id,
        ) || under_node(n, dest_list(to, from.list_id)) by {
            if !under_node(n, dest_list(to, from.list_id)) {
                match from.list_id {
                    ListId::Root => {
                        // the removal took one root entry; `mid` is the root
                        // list one shorter
                        assert(mid == s.remove(from.idx as int));
                        assert(mid.len() == s.len() - 1);
                        match to {
                            DragDestination::Within(k) => {
                                // an item slot of the root list: its index is
                                // a real entry's, so it fits the shorter list
                                assert(0 <= end < list_slots(s));
                                lemma_walk_entry_sound_list(s, ListId::Root, 0, end);
                                assert(k < s.len());
                            },
                            DragDestination::Insert(loc) => {
                                match loc.list_id {
                                    ListId::Root => {
                                        assert(loc.idx < s.len());
                                    },
                                    ListId::Under(y) => {
                                        crate::mutate::lemma_remove_elem_insertable(
                                            s,
                                            from.idx as int,
                                            y,
                                            loc.idx as int,
                                        );
                                    },
                                }
                            },
                            DragDestination::Push(l) => {
                                match l {
                                    ListId::Root => {},
                                    ListId::Under(y) => {
                                        crate::mutate::lemma_remove_elem_insertable(s, from.idx as int, y, 0);
                                    },
                                }
                            },
                        }
                    },
                    ListId::Under(ts) => {
                        assert(crate::mutate::removes_from(s, mid, n, ts, from.idx as int));
                        match to {
                            DragDestination::Within(k) => {
                                // the reorder index is an existing entry of
                                // the source list, which the removal only
                                // shortened by one
                                assert(0 <= end < list_slots(s));
                                lemma_walk_entry_sound_list(s, ListId::Root, 0, end);
                                match list_walk(s, ListId::Root, 0)[end] {
                                    Slot::ItemAt { id, owner: o2, idx } => {
                                        assert(o2 == from.list_id);
                                        assert(has_open_entry(s, ts, idx));
                                        lemma_open_entry_bound(s, ts, idx);
                                        lemma_open_entry_feasible(s, ts, idx);
                                        assert((idx as usize) as int == idx);
                                        crate::mutate::lemma_removes_from_same_list_insertable(
                                            s,
                                            mid,
                                            n,
                                            ts,
                                            from.idx as int,
                                            k as int,
                                        );
                                    },
                                    Slot::FooterOf { .. } => {
                                        assert(false);
                                    },
                                }
                            },
                            DragDestination::Insert(loc) => {
                                match loc.list_id {
                                    ListId::Root => {
                                        // a removal below the root keeps the
                                        // root list's length
                                        assert(mid.len() == s.len());
                                        assert(loc.idx < s.len());
                                    },
                                    ListId::Under(y) => {
                                        // an insertion point is never in the
                                        // drag's own list, so the removal did
                                        // not touch the target list's length
                                        assert(0 <= end < list_slots(s));
                                        lemma_walk_entry_sound_list(s, ListId::Root, 0, end);
                                        match list_walk(s, ListId::Root, 0)[end] {
                                            Slot::ItemAt { id, owner: o2, idx } => {
                                                assert(o2 != from.list_id);
                                                assert(y != ts);
                                                crate::mutate::lemma_removes_from_insertable(
                                                    s,
                                                    mid,
                                                    n,
                                                    ts,
                                                    from.idx as int,
                                                    y,
                                                    loc.idx as int,
                                                );
                                            },
                                            Slot::FooterOf { .. } => {
                                                assert(false);
                                            },
                                        }
                                    },
                                }
                            },
                            DragDestination::Push(l) => {
                                match l {
                                    ListId::Root => {},
                                    ListId::Under(y) => {
                                        if y == ts {
                                            crate::mutate::lemma_removes_from_same_list_appendable(
                                                s,
                                                mid,
                                                n,
                                                ts,
                                            );
                                        } else {
                                            crate::mutate::lemma_removes_from_insertable(
                                                s,
                                                mid,
                                                n,
                                                ts,
                                                from.idx as int,
                                                y,
                                                0,
                                            );
                                        }
                                    },
                                }
                            },
                        }
                    },
                }
            }
        }
    }
}

} // verus!
