use crate::item::Item;
use vstd::prelude::*;

verus! {

/// Identifies one list of siblings in the tree: the root list, or the child
/// list owned by the item with the given identifier. Item identifiers and
/// list identifiers are distinct namespaces, so an item never collides with
/// a list.
#[derive(Clone, Copy, Debug, PartialEq, Eq, Structural, Hash)]
pub enum ListId {
    Root,
    Under(usize),
}

/// The inclusive range of linear positions covered by one list's direct
/// contents, including the trailing footer position that stands for
/// "insert at the end of this list".
#[derive(Clone, Copy, Debug)]
pub struct DndIdxBounds {
    pub start: usize,
    pub end: usize,
}

impl DndIdxBounds {
    pub open spec fn spec_contains(self, dnd_idx: int) -> bool {
        self.start <= dnd_idx <= self.end
    }

    pub fn contains(&self, dnd_idx: usize) -> (r: bool)
        ensures
            r == self.spec_contains(dnd_idx as int),
    {
        dnd_idx >= self.start && dnd_idx <= self.end
    }
}

/// One node of the tree: an item together with the list of nodes it owns.
///
/// The `dnd_` fields and `collapsed` are per-frame bookkeeping: a fresh walk
/// (`assign`) stores each node's linear position and the bounds of its child
/// list, so that a drag release reported in linear positions can be resolved
/// against them.
#[derive(Debug)]
pub struct ItemList {
    pub item: Item,
    pub children: Vec<ItemList>,
    pub dnd_idx: usize,
    pub dnd_children_idx_bounds: DndIdxBounds,
    pub dnd_dragged: bool,
    pub collapsed: bool,
}

/// Number of items in a fully branching demo subtree: the root item plus
/// `width` subtrees of the next smaller depth.
pub open spec fn build_count(depth: nat, width: nat) -> nat
    decreases depth,
{
    1 + if depth == 0 {
        0
    } else {
        width * build_count((depth - 1) as nat, width)
    }
}

impl ItemList {
    /// A node whose subtree is excluded from the current frame's walk:
    /// either it is being dragged (its contents must not become drop
    /// targets, which would nest it inside itself) or it is collapsed.
    pub open spec fn excluded(self) -> bool {
        self.dnd_dragged || self.collapsed
    }

    /// The list identifier of this node's own child list.
    pub open spec fn list_id(self) -> ListId {
        ListId::Under(self.item.id)
    }

    /// Builds a demo subtree of the given depth, `num_children_per_level`
    /// children per node, taking identifiers from the shared counter. The
    /// subtree's items carry the consecutive identifiers
    /// `*old(next_id) .. *final(next_id)` in depth-first pre-order, so no two
    /// items of one tree ever collide.
    pub fn new(next_id: &mut usize, depth: usize, num_children_per_level: usize) -> (r: Self)
        requires
            *old(next_id) + build_count(depth as nat, num_children_per_level as nat)
                <= usize::MAX,
        ensures
            *final(next_id) == *old(next_id) + build_count(
                depth as nat,
                num_children_per_level as nat,
            ),
            subtree_ids(r).len() == build_count(depth as nat, num_children_per_level as nat),
            forall|j: int|
                0 <= j < subtree_ids(r).len() ==> subtree_ids(r)[j] == *old(next_id) + j,
            !r.dnd_dragged && !r.collapsed,
            r.children@.len() == if depth == 0 {
                0int
            } else {
                num_children_per_level as int
            },
        decreases depth,
    {
        let ghost width = num_children_per_level as nat;
        let ghost sub = build_count((depth - 1) as nat, width);
        let item = Item::new(*next_id);
        *next_id = *next_id + 1;
        let ghost first_child_id = *next_id as int;

        let mut children = Vec::<ItemList>::new();
        if depth > 0 {
            assert(build_count(depth as nat, width) == 1 + width * sub);
            let mut k: usize = 0;
            while k < num_children_per_level
                invariant
                    0 <= k <= num_children_per_level,
                    depth >= 1,
                    sub == build_count((depth - 1) as nat, width),
                    width == num_children_per_level as nat,
                    first_child_id + width * sub <= usize::MAX,
                    *next_id == first_child_id + k as int * sub,
                    children@.len() == k,
                    list_ids(children@).len() == k as int * sub,
                    forall|j: int|
                        0 <= j < list_ids(children@).len() ==> list_ids(children@)[j]
                            == first_child_id + j,
                decreases num_children_per_level - k,
            {
                assert((k as int + 1) * sub == k as int * sub + sub) by (nonlinear_arith);
                assert((k as int + 1) * sub <= width * sub) by (nonlinear_arith)
                    requires
                        k as int + 1 <= width,
                        sub >= 0,
                ;
                let child = Self::new(next_id, depth - 1, num_children_per_level);
                let ghost pre = children@;
                children.push(child);
                proof {
                    assert(children@ =~= pre + seq![child]);
                    lemma_list_ids_concat(pre, seq![child]);
                    lemma_singleton_list(child, ListId::Root, 0);
                }
                k = k + 1;
            }
            assert(k as int * sub == width * sub);
        }

        let r = Self {
            item,
            children,
            dnd_idx: 0,
            dnd_children_idx_bounds: DndIdxBounds { start: 0, end: 0 },
            dnd_dragged: false,
            collapsed: false,
        };
        proof {
            assert(subtree_ids(r) == seq![r.item.id] + list_ids(r.children@));
        }
        r
    }
}

/// How many linear positions the walk spends on this node: one for the item
/// itself and, unless the subtree is excluded, the positions of its children
/// plus one footer position.
pub open spec fn subtree_slots(n: ItemList) -> nat
    decreases n,
{
    if n.excluded() {
        1
    } else {
        2 + list_slots(n.children@)
    }
}

/// How many linear positions the walk spends on a list of sibling nodes.
pub open spec fn list_slots(s: Seq<ItemList>) -> nat
    decreases s,
{
    if s.len() == 0 {
        0
    } else {
        subtree_slots(s[0]) + list_slots(s.drop_first())
    }
}

/// What one linear position stands for: the item at index `idx` of list
/// `owner`, or the footer of list `owner`.
pub enum Slot {
    ItemAt { id: usize, owner: ListId, idx: int },
    FooterOf { owner: ListId },
}

/// The walk of one node's subtree: the node's own slot (as the `k`-th entry
/// of list `owner`), then, unless the subtree is excluded, the walk of its
/// child list followed by that list's footer slot.
pub open spec fn node_walk(n: ItemList, owner: ListId, k: int) -> Seq<Slot>
    decreases n,
{
    seq![Slot::ItemAt { id: n.item.id, owner, idx: k }] + if n.excluded() {
        seq![]
    } else {
        list_walk(n.children@, n.list_id(), 0) + seq![Slot::FooterOf { owner: n.list_id() }]
    }
}

/// The walk of a list of sibling nodes whose first element is the `k`-th
/// entry of list `owner`.
pub open spec fn list_walk(s: Seq<ItemList>, owner: ListId, k: int) -> Seq<Slot>
    decreases s,
{
    if s.len() == 0 {
        seq![]
    } else {
        node_walk(s[0], owner, k) + list_walk(s.drop_first(), owner, k + 1)
    }
}

/// The walk touches exactly as many slots as `list_slots` counts.
pub proof fn lemma_list_walk_len(s: Seq<ItemList>, owner: ListId, k: int)
    ensures
        list_walk(s, owner, k).len() == list_slots(s),
    decreases s,
{
    if s.len() != 0 {
        lemma_node_walk_len(s[0], owner, k);
        lemma_list_walk_len(s.drop_first(), owner, k + 1);
    }
}

pub proof fn lemma_node_walk_len(n: ItemList, owner: ListId, k: int)
    ensures
        node_walk(n, owner, k).len() == subtree_slots(n),
    decreases n,
{
    if !n.excluded() {
        lemma_list_walk_len(n.children@, n.list_id(), 0);
    }
}

/// The node's stored position and bounds agree with a walk of its subtree
/// that starts at position `base`. Nothing is said about the bookkeeping
/// fields inside an excluded subtree: the walk skips them, so they keep
/// whatever a previous frame left there.
pub open spec fn node_placed(n: ItemList, base: int) -> bool
    decreases n,
{
    &&& n.dnd_idx == base
    &&& !n.excluded() ==> {
        &&& n.dnd_children_idx_bounds.start == base + 1
        &&& n.dnd_children_idx_bounds.end == base + 1 + list_slots(n.children@)
        &&& list_placed(n.children@, base + 1)
    }
}

/// Each node of the list is placed at the position the walk gives it.
pub open spec fn list_placed(s: Seq<ItemList>, base: int) -> bool
    decreases s,
{
    s.len() == 0 || (node_placed(s[0], base) && list_placed(
        s.drop_first(),
        base + subtree_slots(s[0]),
    ))
}

/// The identifiers of all items in the subtree, in depth-first pre-order,
/// ignoring the per-frame flags: this is the structure the tree mutator must
/// conserve.
pub open spec fn subtree_ids(n: ItemList) -> Seq<usize>
    decreases n,
{
    seq![n.item.id] + list_ids(n.children@)
}

pub open spec fn list_ids(s: Seq<ItemList>) -> Seq<usize>
    decreases s,
{
    if s.len() == 0 {
        seq![]
    } else {
        subtree_ids(s[0]) + list_ids(s.drop_first())
    }
}

/// Total number of items in a list of subtrees.
pub open spec fn list_count(s: Seq<ItemList>) -> nat {
    list_ids(s).len()
}

/// The two nodes agree on everything but their children.
pub open spec fn same_node_fields(a: ItemList, b: ItemList) -> bool {
    &&& a.item == b.item
    &&& a.dnd_idx == b.dnd_idx
    &&& a.dnd_children_idx_bounds == b.dnd_children_idx_bounds
    &&& a.dnd_dragged == b.dnd_dragged
    &&& a.collapsed == b.collapsed
}

/// The two nodes are indistinguishable: every field and every descendant
/// agrees. (Spelled out recursively because the contents of the child
/// sequences, not the container values, are what can be observed.)
pub open spec fn tree_eq(a: ItemList, b: ItemList) -> bool
    decreases a,
{
    same_node_fields(a, b) && list_eq(a.children@, b.children@)
}

pub open spec fn list_eq(a: Seq<ItemList>, b: Seq<ItemList>) -> bool
    decreases a,
{
    a.len() == b.len() && (forall|i: int| 0 <= i < a.len() ==> tree_eq(#[trigger] a[i], b[i]))
}

pub proof fn lemma_tree_eq_refl(a: ItemList)
    ensures
        tree_eq(a, a),
    decreases a,
{
    assert forall|i: int| 0 <= i < a.children@.len() implies tree_eq(
        #[trigger] a.children@[i],
        a.children@[i],
    ) by {
        lemma_tree_eq_refl(a.children@[i]);
    }
}

pub proof fn lemma_list_eq_refl(a: Seq<ItemList>)
    ensures
        list_eq(a, a),
{
    assert forall|i: int| 0 <= i < a.len() implies tree_eq(#[trigger] a[i], a[i]) by {
        lemma_tree_eq_refl(a[i]);
    }
}

/// Indistinguishable trees have the same structure, flags and items.
pub proof fn lemma_tree_eq_same_tree(a: ItemList, b: ItemList)
    requires
        tree_eq(a, b),
    ensures
        same_tree(a, b),
    decreases a,
{
    assert forall|i: int| 0 <= i < a.children@.len() implies same_tree(
        #[trigger] a.children@[i],
        b.children@[i],
    ) by {
        lemma_tree_eq_same_tree(a.children@[i], b.children@[i]);
    }
}

pub proof fn lemma_list_eq_same_list(a: Seq<ItemList>, b: Seq<ItemList>)
    requires
        list_eq(a, b),
    ensures
        same_list(a, b),
{
    assert forall|i: int| 0 <= i < a.len() implies same_tree(#[trigger] a[i], b[i]) by {
        lemma_tree_eq_same_tree(a[i], b[i]);
    }
}

/// Two nodes carry the same item, the same per-frame flags and structurally
/// equal children: they differ at most in stored positions and bounds.
pub open spec fn same_tree(a: ItemList, b: ItemList) -> bool
    decreases a,
{
    &&& a.item == b.item
    &&& a.dnd_dragged == b.dnd_dragged
    &&& a.collapsed == b.collapsed
    &&& same_list(a.children@, b.children@)
}

pub open spec fn same_list(a: Seq<ItemList>, b: Seq<ItemList>) -> bool
    decreases a,
{
    a.len() == b.len() && (forall|i: int|
        0 <= i < a.len() ==> same_tree(#[trigger] a[i], b[i]))
}

pub proof fn lemma_same_tree_refl(a: ItemList)
    ensures
        same_tree(a, a),
    decreases a,
{
    assert forall|i: int| 0 <= i < a.children@.len() implies same_tree(
        #[trigger] a.children@[i],
        a.children@[i],
    ) by {
        lemma_same_tree_refl(a.children@[i]);
    }
}

pub proof fn lemma_same_tree_slots(a: ItemList, b: ItemList)
    requires
        same_tree(a, b),
    ensures
        subtree_slots(a) == subtree_slots(b),
    decreases a,
{
    if !a.excluded() {
        lemma_same_list_slots(a.children@, b.children@);
    }
}

pub proof fn lemma_same_list_slots(a: Seq<ItemList>, b: Seq<ItemList>)
    requires
        same_list(a, b),
    ensures
        list_slots(a) == list_slots(b),
    decreases a,
{
    if a.len() != 0 {
        lemma_same_tree_slots(a[0], b[0]);
        assert(same_list(a.drop_first(), b.drop_first()));
        lemma_same_list_slots(a.drop_first(), b.drop_first());
    }
}

pub proof fn lemma_same_tree_ids(a: ItemList, b: ItemList)
    requires
        same_tree(a, b),
    ensures
        subtree_ids(a) == subtree_ids(b),
    decreases a,
{
    lemma_same_list_ids(a.children@, b.children@);
}

pub proof fn lemma_same_list_ids(a: Seq<ItemList>, b: Seq<ItemList>)
    requires
        same_list(a, b),
    ensures
        list_ids(a) == list_ids(b),
    decreases a,
{
    if a.len() != 0 {
        lemma_same_tree_ids(a[0], b[0]);
        assert(same_list(a.drop_first(), b.drop_first()));
        lemma_same_list_ids(a.drop_first(), b.drop_first());
    }
}

/// Slot counts add up over concatenation.
pub proof fn lemma_list_slots_concat(a: Seq<ItemList>, b: Seq<ItemList>)
    ensures
        list_slots(a + b) == list_slots(a) + list_slots(b),
    decreases a,
{
    if a.len() == 0 {
        assert(a + b =~= b);
    } else {
        assert((a + b)[0] == a[0]);
        assert((a + b).drop_first() =~= a.drop_first() + b);
        lemma_list_slots_concat(a.drop_first(), b);
    }
}

/// Identifier sequences add up over concatenation.
pub proof fn lemma_list_ids_concat(a: Seq<ItemList>, b: Seq<ItemList>)
    ensures
        list_ids(a + b) == list_ids(a) + list_ids(b),
    decreases a,
{
    if a.len() == 0 {
        assert(a + b =~= b);
        assert(list_ids(a) + list_ids(b) =~= list_ids(b));
    } else {
        assert((a + b)[0] == a[0]);
        assert((a + b).drop_first() =~= a.drop_first() + b);
        lemma_list_ids_concat(a.drop_first(), b);
        assert(subtree_ids(a[0]) + (list_ids(a.drop_first()) + list_ids(b)) =~= (subtree_ids(a[0])
            + list_ids(a.drop_first())) + list_ids(b));
    }
}


/// Placement splits over concatenation.
pub proof fn lemma_list_placed_concat(a: Seq<ItemList>, b: Seq<ItemList>, base: int)
    requires
        list_placed(a, base),
        list_placed(b, base + list_slots(a)),
    ensures
        list_placed(a + b, base),
    decreases a,
{
    if a.len() == 0 {
        assert(a + b =~= b);
    } else {
        assert((a + b)[0] == a[0]);
        assert((a + b).drop_first() =~= a.drop_first() + b);
        lemma_list_placed_concat(a.drop_first(), b, base + subtree_slots(a[0]));
    }
}

pub proof fn lemma_same_list_refl(a: Seq<ItemList>)
    ensures
        same_list(a, a),
{
    assert forall|i: int| 0 <= i < a.len() implies same_tree(#[trigger] a[i], a[i]) by {
        lemma_same_tree_refl(a[i]);
    }
}

/// A singleton list's measures unfold to the node's own.
pub proof fn lemma_singleton_list(x: ItemList, owner: ListId, k: int)
    ensures
        list_slots(seq![x]) == subtree_slots(x),
        list_ids(seq![x]) == subtree_ids(x),
        list_walk(seq![x], owner, k) == node_walk(x, owner, k),
        forall|base: int| node_placed(x, base) ==> list_placed(seq![x], base),
{
    assert(seq![x][0] == x);
    assert(seq![x].drop_first() =~= Seq::<ItemList>::empty());
    assert(list_slots(seq![x].drop_first()) == 0);
    assert(list_slots(seq![x]) == subtree_slots(seq![x][0]) + list_slots(seq![x].drop_first()));
    assert forall|base: int| node_placed(x, base) implies list_placed(seq![x], base) by {
        assert(list_placed(seq![x].drop_first(), base + subtree_slots(seq![x][0])));
    }
    assert(subtree_ids(x) + list_ids(seq![x].drop_first()) =~= subtree_ids(x));
    assert(node_walk(x, owner, k) + list_walk(seq![x].drop_first(), owner, k + 1) =~= node_walk(
        x,
        owner,
        k,
    ));
}

/// One frame's walk over a list of sibling subtrees: gives every visited
/// node the next linear position, records each visited list's bounds, and
/// skips the contents of excluded (dragged or collapsed) subtrees. Items,
/// flags and structure are untouched.
pub fn assign_list(s: &mut Vec<ItemList>, dnd_idx: &mut usize)
    requires
        *old(dnd_idx) + list_slots(old(s)@) <= usize::MAX,
    ensures
        final(s)@.len() == old(s)@.len(),
        same_list(old(s)@, final(s)@),
        *final(dnd_idx) == *old(dnd_idx) + list_slots(old(s)@),
        list_placed(final(s)@, *old(dnd_idx) as int),
    decreases old(s)@,
{
    let ghost base0 = *old(dnd_idx) as int;
    proof {
        assert(old(s)@.skip(0) =~= old(s)@);
        assert(old(s)@.take(0) =~= Seq::<ItemList>::empty());
    }
    let mut i: usize = 0;
    while i < s.len()
        invariant
            0 <= i <= s@.len(),
            s@.len() == old(s)@.len(),
            s@.skip(i as int) == old(s)@.skip(i as int),
            same_list(old(s)@.take(i as int), s@.take(i as int)),
            *dnd_idx == base0 + list_slots(old(s)@.take(i as int)),
            *dnd_idx + list_slots(old(s)@.skip(i as int)) <= usize::MAX,
            list_placed(s@.take(i as int), base0),
        decreases s@.len() - i,
    {
        let ghost ii = i as int;
        let ghost orig_node = old(s)@[ii];
        let ghost prefix = s@.take(ii);
        let ghost node_base = *dnd_idx as int;
        proof {
            assert(s@[ii] == s@.skip(ii)[0]);
            assert(old(s)@.skip(ii)[0] == orig_node);
            // slot count of the rest decomposes into this node plus the tail
            assert(old(s)@.skip(ii) =~= seq![orig_node] + old(s)@.skip(ii + 1));
            lemma_list_slots_concat(seq![orig_node], old(s)@.skip(ii + 1));
            lemma_singleton_list(orig_node, ListId::Root, 0);
        }
        let ghost spre = s@;
        let mut node = s.remove(i);
        let ghost removed = s@;
        node.dnd_idx = *dnd_idx;
        *dnd_idx = *dnd_idx + 1;
        if !node.dnd_dragged && !node.collapsed {
            let start = *dnd_idx;
            proof {
                assert(node.children == orig_node.children);
                assert(decreases_to!(old(s)@ => orig_node));
                assert(decreases_to!(orig_node => orig_node.children));
                assert(decreases_to!(orig_node.children => orig_node.children@));
            }
            assign_list(&mut node.children, dnd_idx);
            proof {
                lemma_same_list_slots(orig_node.children@, node.children@);
            }
            node.dnd_children_idx_bounds = DndIdxBounds { start, end: *dnd_idx };
            *dnd_idx = *dnd_idx + 1;
        } else {
            proof {
                lemma_same_list_refl(node.children@);
            }
        }
        proof {
            assert(same_tree(orig_node, node));
            lemma_same_tree_slots(orig_node, node);
            assert(node_placed(node, node_base));
        }
        s.insert(i, node);
        proof {
            assert forall|j: int| ii <= j < removed.len() implies removed[j] == old(s)@[j + 1] by {
                assert(removed[j] == spre[j + 1]);
                assert(spre.skip(ii)[j + 1 - ii] == spre[j + 1]);
                assert(old(s)@.skip(ii)[j + 1 - ii] == old(s)@[j + 1]);
            }
            assert(removed =~= prefix + old(s)@.skip(ii + 1));
            assert(s@ == removed.insert(ii, node));
            assert(s@ =~= prefix + seq![node] + old(s)@.skip(ii + 1));
            assert(s@.take(ii + 1) =~= prefix + seq![node]);
            assert(s@.skip(ii + 1) =~= old(s)@.skip(ii + 1));
            assert(old(s)@.take(ii + 1) =~= old(s)@.take(ii) + seq![orig_node]);
            // prefix slot counts and placement extend by this node
            lemma_list_slots_concat(old(s)@.take(ii), seq![orig_node]);
            lemma_same_list_slots(old(s)@.take(ii), prefix);
            lemma_singleton_list(node, ListId::Root, 0);
            lemma_list_placed_concat(prefix, seq![node], base0);
            assert(same_list(old(s)@.take(ii + 1), s@.take(ii + 1)));
        }
        i = i + 1;
    }
    proof {
        assert(s@.take(i as int) =~= s@);
        assert(old(s)@.take(i as int) =~= old(s)@);
    }
}

} // verus!
