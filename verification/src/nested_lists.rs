use crate::mutate::{
    append_entry, appendable, appends_onto, do_insert, insert_entry, insertable, inserts_into,
    lemma_appendable_list_eq, lemma_appends_onto_ids, lemma_insertable_list_eq,
    lemma_inserts_into_ids, lemma_remove_insert_undo, lemma_removes_from_ids,
    lemma_removes_from_removable, lemma_removes_from_unique, lemma_removes_then_insertable,
    lemma_seq_insert_ids, lemma_seq_remove_ids, remove_entry, removes_from,
};
use crate::resolve::{
    dest_in_list, source_in_list, spec_dest_in_list, spec_source_in_list, DragDestination,
    DragLocation, DragUpdate,
};
use crate::tree::{
    assign_list, build_count, lemma_list_eq_refl, lemma_list_ids_concat, lemma_same_list_ids,
    lemma_singleton_list, lemma_tree_eq_refl, list_eq, list_ids, list_placed, list_slots,
    same_list, tree_eq, ItemList, ListId,
};
use vstd::prelude::*;

verus! {

/// A tree of arbitrarily nested lists in which any item can be dragged to
/// any other list, except into the subtree of the item being dragged.
///
/// Per frame the host walks the tree once (`assign`), reports a completed
/// drag as a pair of linear positions, and this type resolves the pair to a
/// structured move and applies it. The root list's trailing sentinel
/// position (one past the walk) is a valid append-to-root destination.
pub struct NestedLists {
    pub name: String,
    pub root: Vec<ItemList>,
    pub dnd_total: usize,
}

/// `new` is `old` with the entry at `from` taken out, and `n` is that entry.
pub open spec fn removal_rel(
    old: Seq<ItemList>,
    new: Seq<ItemList>,
    n: ItemList,
    from: DragLocation,
) -> bool {
    match from.list_id {
        ListId::Root => 0 <= from.idx < old.len() && n == old[from.idx as int] && new == old.remove(
            from.idx as int,
        ),
        ListId::Under(t) => removes_from(old, new, n, t, from.idx as int),
    }
}

/// The entry at `from` can be taken out: its list exists and is long
/// enough.
pub open spec fn removal_ok(old: Seq<ItemList>, from: DragLocation) -> bool {
    match from.list_id {
        ListId::Root => from.idx < old.len(),
        ListId::Under(t) => crate::mutate::removable(old, t, from.idx as int),
    }
}

/// `new` is `old` with `n` spliced in as the destination `to` directs; a
/// `Within` destination is an index into the drag's source list `src`, in
/// the index space that holds once the dragged entry has been taken out.
pub open spec fn insertion_rel(
    old: Seq<ItemList>,
    new: Seq<ItemList>,
    n: ItemList,
    to: DragDestination,
    src: ListId,
) -> bool {
    match to {
        DragDestination::Within(k) => match src {
            ListId::Root => k <= old.len() && new == old.insert(k as int, n),
            ListId::Under(t) => inserts_into(old, new, n, t, k as int),
        },
        DragDestination::Insert(loc) => match loc.list_id {
            ListId::Root => loc.idx <= old.len() && new == old.insert(loc.idx as int, n),
            ListId::Under(t) => inserts_into(old, new, n, t, loc.idx as int),
        },
        DragDestination::Push(l) => match l {
            ListId::Root => new == old.push(n),
            ListId::Under(t) => appends_onto(old, new, n, t),
        },
    }
}

/// What a drag reported as `(start, end)` resolves to against a walked tree:
/// nothing for a drag that goes nowhere or whose positions the walk cannot
/// account for, and otherwise the source location paired with the
/// destination.
pub open spec fn spec_resolve_drag(root: Seq<ItemList>, start: int, end: int) -> Option<
    DragUpdate,
> {
    if start == end {
        None
    } else {
        match spec_source_in_list(root, 0, start, ListId::Root) {
            Some(from) => match spec_dest_in_list(root, 0, end, ListId::Root, from.list_id) {
                Some(to) => Some(DragUpdate { from, to }),
                None => None,
            },
            None => None,
        }
    }
}

/// Whether the destination `to` can take an entry in the tree `mid` (the
/// tree as it stands once the dragged entry is out): its target list exists
/// and is long enough.
pub open spec fn insertion_ok(mid: Seq<ItemList>, to: DragDestination, src: ListId) -> bool {
    match to {
        DragDestination::Within(k) => match src {
            ListId::Root => k <= mid.len(),
            ListId::Under(t) => insertable(mid, t, k as int),
        },
        DragDestination::Insert(loc) => match loc.list_id {
            ListId::Root => loc.idx <= mid.len(),
            ListId::Under(t) => insertable(mid, t, loc.idx as int),
        },
        DragDestination::Push(l) => match l {
            ListId::Root => true,
            ListId::Under(t) => appendable(mid, t),
        },
    }
}

impl NestedLists {
    /// The per-frame bookkeeping is current: every stored position and bound
    /// agrees with a fresh walk of the tree, and `dnd_total` is the number
    /// of positions that walk hands out.
    pub open spec fn walked(self) -> bool {
        &&& list_placed(self.root@, 0)
        &&& self.dnd_total == list_slots(self.root@)
    }

    /// Builds a demo tree: `num_items_per_list` subtrees of the given depth,
    /// with consecutive item identifiers starting at `start_id`. Returns the
    /// tree and the first identifier it did not use.
    pub fn new(name: String, start_id: usize, depth: usize, num_items_per_list: usize) -> (r: (
        Self,
        usize,
    ))
        requires
            depth >= 1,
            start_id + num_items_per_list * build_count(
                (depth - 1) as nat,
                num_items_per_list as nat,
            ) <= usize::MAX,
        ensures
            r.0.name == name,
            r.0.root@.len() == num_items_per_list,
            r.1 == start_id + num_items_per_list * build_count(
                (depth - 1) as nat,
                num_items_per_list as nat,
            ),
            list_ids(r.0.root@).len() == r.1 - start_id,
            forall|j: int|
                0 <= j < list_ids(r.0.root@).len() ==> list_ids(r.0.root@)[j] == start_id + j,
    {
        let ghost width = num_items_per_list as nat;
        let ghost sub = build_count((depth - 1) as nat, width);
        let mut next_id: usize = start_id;
        let mut root = Vec::<ItemList>::new();
        let mut k: usize = 0;
        while k < num_items_per_list
            invariant
                0 <= k <= num_items_per_list,
                depth >= 1,
                sub == build_count((depth - 1) as nat, width),
                width == num_items_per_list as nat,
                start_id + width * sub <= usize::MAX,
                next_id == start_id + k as int * sub,
                root@.len() == k,
                list_ids(root@).len() == k as int * sub,
                forall|j: int|
                    0 <= j < list_ids(root@).len() ==> list_ids(root@)[j] == start_id + j,
            decreases num_items_per_list - k,
        {
            assert((k as int + 1) * sub == k as int * sub + sub) by (nonlinear_arith);
            assert((k as int + 1) * sub <= width * sub) by (nonlinear_arith)
                requires
                    k as int + 1 <= width,
                    sub >= 0,
            ;
            let node = ItemList::new(&mut next_id, depth - 1, num_items_per_list);
            let ghost pre = root@;
            root.push(node);
            proof {
                assert(root@ =~= pre + seq![node]);
                lemma_list_ids_concat(pre, seq![node]);
                lemma_singleton_list(node, ListId::Root, 0);
            }
            k = k + 1;
        }
        assert(k as int * sub == width * sub);
        (Self { name, root, dnd_total: 0 }, next_id)
    }

    /// One frame's walk: stores every visible node's linear position and
    /// every visible list's bounds, and records how many positions were
    /// handed out. Items, flags and structure are untouched.
    pub fn assign(&mut self)
        requires
            list_slots(old(self).root@) <= usize::MAX,
        ensures
            final(self).name == old(self).name,
            same_list(old(self).root@, final(self).root@),
            final(self).walked(),
    {
        let mut dnd_idx: usize = 0;
        assign_list(&mut self.root, &mut dnd_idx);
        proof {
            crate::tree::lemma_same_list_slots(old(self).root@, self.root@);
        }
        self.dnd_total = dnd_idx;
    }

    /// Resolves a linear position as a drag origin: the item slot at that
    /// position, or nothing for a footer position or one outside the walk.
    pub fn resolve_source(&self, pos: usize) -> (r: Option<DragLocation>)
        requires
            self.walked(),
        ensures
            r == spec_source_in_list(self.root@, 0, pos as int, ListId::Root),
    {
        source_in_list(&self.root, 0, pos, ListId::Root)
    }

    /// Resolves a linear position as a drag destination for a drag that
    /// started in list `src`: an insertion point, a reorder within `src`, an
    /// append onto the list whose footer sits there, or nothing for a
    /// position outside the walk.
    pub fn resolve_destination(&self, pos: usize, src: ListId) -> (r: Option<DragDestination>)
        requires
            self.walked(),
        ensures
            r == spec_dest_in_list(self.root@, 0, pos as int, ListId::Root, src),
    {
        dest_in_list(&self.root, 0, self.dnd_total, pos, ListId::Root, src)
    }

    /// Resolves a completed drag, reported as its start and end positions,
    /// to a structured move. A drag that goes nowhere (`start == end`), or
    /// whose positions the current walk cannot account for, resolves to
    /// nothing and is to be treated as a no-op.
    pub fn resolve_drag(&self, start: usize, end: usize) -> (r: Option<DragUpdate>)
        requires
            self.walked(),
        ensures
            r == spec_resolve_drag(self.root@, start as int, end as int),
    {
        if start == end {
            return None;
        }
        let from = match self.resolve_source(start) {
            Some(from) => from,
            None => {
                return None;
            },
        };
        let to = match self.resolve_destination(end, from.list_id) {
            Some(to) => to,
            None => {
                return None;
            },
        };
        Some(DragUpdate { from, to })
    }

    /// Applies a resolved move: takes the entry at `update.from` out and
    /// splices it in as `update.to` directs. The items of the tree are
    /// conserved — none is duplicated or dropped — and a move whose source
    /// or destination the tree cannot account for leaves it as it was
    /// (in particular, a destination that vanished with the removed subtree
    /// is detected and the entry put back).
    pub fn apply_update(&mut self, update: DragUpdate) -> (ok: bool)
        ensures
            final(self).name == old(self).name,
            final(self).dnd_total == old(self).dnd_total,
            list_ids(final(self).root@).to_multiset() == list_ids(old(self).root@).to_multiset(),
            !ok ==> list_eq(final(self).root@, old(self).root@),
            ok ==> exists|mid: Seq<ItemList>, n: ItemList|
                removal_rel(old(self).root@, mid, n, update.from) && insertion_rel(
                    mid,
                    final(self).root@,
                    n,
                    update.to,
                    update.from.list_id,
                ),
            ok <==> exists|mid: Seq<ItemList>, n: ItemList|
                removal_rel(old(self).root@, mid, n, update.from) && insertion_ok(
                    mid,
                    update.to,
                    update.from.list_id,
                ),
    {
        let from = update.from;
        let removed: Option<ItemList> = match from.list_id {
            ListId::Root => {
                if from.idx < self.root.len() {
                    Some(self.root.remove(from.idx))
                } else {
                    None
                }
            },
            ListId::Under(t) => remove_entry(&mut self.root, t, from.idx),
        };
        let node = match removed {
            Some(node) => node,
            None => {
                proof {
                    lemma_list_eq_refl(old(self).root@);
                    assert forall|mid: Seq<ItemList>, n: ItemList|
                        !removal_rel(old(self).root@, mid, n, from) by {
                        match from.list_id {
                            ListId::Root => {},
                            ListId::Under(t) => {
                                if removes_from(old(self).root@, mid, n, t, from.idx as int) {
                                    lemma_removes_from_removable(
                                        old(self).root@,
                                        mid,
                                        n,
                                        t,
                                        from.idx as int,
                                    );
                                }
                            },
                        }
                    }
                }
                return false;
            },
        };
        let ghost mid = self.root@;
        proof {
            assert(removal_rel(old(self).root@, mid, node, from));
            match from.list_id {
                ListId::Root => lemma_seq_remove_ids(old(self).root@, from.idx as int),
                ListId::Under(t) => lemma_removes_from_ids(
                    old(self).root@,
                    mid,
                    node,
                    t,
                    from.idx as int,
                ),
            }
        }
        let back: Option<ItemList> = match update.to {
            DragDestination::Within(k) => self.splice(from.list_id, k, node),
            DragDestination::Insert(loc) => self.splice(loc.list_id, loc.idx, node),
            DragDestination::Push(l) => match l {
                ListId::Root => {
                    self.root.push(node);
                    proof {
                        assert(self.root@ =~= mid.insert(mid.len() as int, node));
                        lemma_seq_insert_ids(mid, mid.len() as int, node);
                    }
                    None
                },
                ListId::Under(t) => {
                    let r = append_entry(&mut self.root, t, node);
                    proof {
                        if r is None {
                            lemma_appends_onto_ids(mid, self.root@, node, t);
                        }
                    }
                    r
                },
            },
        };
        let node_back = match back {
            None => {
                proof {
                    assert(removal_rel(old(self).root@, mid, node, from) && insertion_rel(
                        mid,
                        self.root@,
                        node,
                        update.to,
                        from.list_id,
                    ));
                    assert(insertion_ok(mid, update.to, from.list_id));
                }
                return true;
            },
            Some(node_back) => node_back,
        };
        proof {
            // the destination was not reachable in the removed tree; no
            // other admissible removal outcome would have fared better
            assert(!insertion_ok(mid, update.to, from.list_id));
            assert forall|mid2: Seq<ItemList>, n2: ItemList|
                !(removal_rel(old(self).root@, mid2, n2, from) && insertion_ok(
                    mid2,
                    update.to,
                    from.list_id,
                )) by {
                if removal_rel(old(self).root@, mid2, n2, from) {
                    match from.list_id {
                        ListId::Root => {
                            assert(mid2 == mid);
                        },
                        ListId::Under(t) => {
                            lemma_removes_from_unique(
                                old(self).root@,
                                mid2,
                                n2,
                                mid,
                                node_back,
                                t,
                                from.idx as int,
                            );
                            match update.to {
                                DragDestination::Within(k) => match from.list_id {
                                    ListId::Root => {},
                                    ListId::Under(t2) => {
                                        lemma_insertable_list_eq(mid2, mid, t2, k as int);
                                    },
                                },
                                DragDestination::Insert(loc) => match loc.list_id {
                                    ListId::Root => {},
                                    ListId::Under(t2) => {
                                        lemma_insertable_list_eq(mid2, mid, t2, loc.idx as int);
                                    },
                                },
                                DragDestination::Push(l) => match l {
                                    ListId::Root => {},
                                    ListId::Under(t2) => {
                                        lemma_appendable_list_eq(mid2, mid, t2);
                                    },
                                },
                            }
                        },
                    }
                }
            }
        }
        // the destination could not be reached: put the entry back where it
        // was, restoring the tree
        match from.list_id {
            ListId::Root => {
                self.root.insert(from.idx, node_back);
                proof {
                    assert(self.root@ =~= old(self).root@);
                    lemma_list_eq_refl(old(self).root@);
                    lemma_seq_insert_ids(mid, from.idx as int, node_back);
                }
            },
            ListId::Under(t) => {
                proof {
                    lemma_removes_then_insertable(
                        old(self).root@,
                        mid,
                        node_back,
                        t,
                        from.idx as int,
                    );
                }
                do_insert(&mut self.root, t, from.idx, node_back);
                proof {
                    lemma_remove_insert_undo(
                        old(self).root@,
                        mid,
                        self.root@,
                        node_back,
                        t,
                        from.idx as int,
                    );
                    lemma_inserts_into_ids(mid, self.root@, node_back, t, from.idx as int);
                    crate::tree::lemma_list_eq_same_list(self.root@, old(self).root@);
                    lemma_same_list_ids(self.root@, old(self).root@);
                }
            },
        }
        false
    }

    /// Splices `node` in at index `k` of list `l`, handing it back untouched
    /// when the list is missing or shorter than `k`.
    fn splice(&mut self, l: ListId, k: usize, node: ItemList) -> (r: Option<ItemList>)
        ensures
            final(self).name == old(self).name,
            final(self).dnd_total == old(self).dnd_total,
            r is None <==> (match l {
                ListId::Root => k <= old(self).root@.len(),
                ListId::Under(t) => insertable(old(self).root@, t, k as int),
            }),
            match r {
                None => insertion_rel(
                    old(self).root@,
                    final(self).root@,
                    node,
                    DragDestination::Insert(DragLocation { list_id: l, idx: k }),
                    ListId::Root,
                ) && list_ids(final(self).root@).to_multiset() == list_ids(
                    old(self).root@,
                ).to_multiset().add(crate::tree::subtree_ids(node).to_multiset()),
                Some(given_back) => final(self).root@ == old(self).root@ && given_back == node,
            },
    {
        match l {
            ListId::Root => {
                if k <= self.root.len() {
                    self.root.insert(k, node);
                    proof {
                        lemma_seq_insert_ids(old(self).root@, k as int, node);
                    }
                    None
                } else {
                    Some(node)
                }
            },
            ListId::Under(t) => {
                let r = insert_entry(&mut self.root, t, k, node);
                proof {
                    if r is None {
                        lemma_inserts_into_ids(old(self).root@, self.root@, node, t, k as int);
                    }
                }
                r
            },
        }
    }

    /// Resolves and applies one completed drag. A drag that goes nowhere
    /// (`start == end`) or that the walk cannot account for leaves the tree
    /// exactly as it is; any applied move conserves the items.
    pub fn apply_drag(&mut self, start: usize, end: usize) -> (ok: bool)
        requires
            old(self).walked(),
        ensures
            final(self).name == old(self).name,
            list_ids(final(self).root@).to_multiset() == list_ids(old(self).root@).to_multiset(),
            start == end ==> !ok && *final(self) == *old(self),
            !ok ==> list_eq(final(self).root@, old(self).root@),
            ok ==> ({
                let upd = spec_resolve_drag(old(self).root@, start as int, end as int);
                &&& upd is Some
                &&& exists|mid: Seq<ItemList>, n: ItemList|
                    removal_rel(old(self).root@, mid, n, upd.unwrap().from) && insertion_rel(
                        mid,
                        final(self).root@,
                        n,
                        upd.unwrap().to,
                        upd.unwrap().from.list_id,
                    )
            }),
            ok <==> ({
                let upd = spec_resolve_drag(old(self).root@, start as int, end as int);
                &&& upd is Some
                &&& exists|mid: Seq<ItemList>, n: ItemList|
                    removal_rel(old(self).root@, mid, n, upd.unwrap().from) && insertion_ok(
                        mid,
                        upd.unwrap().to,
                        upd.unwrap().from.list_id,
                    )
            }),
    {
        let update = match self.resolve_drag(start, end) {
            Some(update) => update,
            None => {
                proof {
                    lemma_list_eq_refl(old(self).root@);
                }
                return false;
            },
        };
        let ok = self.apply_update(update);
        proof {
            let upd = spec_resolve_drag(old(self).root@, start as int, end as int);
            assert(upd == Some(update));
            if ok {
                let (mid, n) = choose|mid: Seq<ItemList>, n: ItemList|
                    removal_rel(old(self).root@, mid, n, update.from) && insertion_rel(
                        mid,
                        self.root@,
                        n,
                        update.to,
                        update.from.list_id,
                    );
                assert(removal_rel(old(self).root@, mid, n, upd.unwrap().from) && insertion_rel(
                    mid,
                    self.root@,
                    n,
                    upd.unwrap().to,
                    upd.unwrap().from.list_id,
                ));
                let (mid2, n2) = choose|mid2: Seq<ItemList>, n2: ItemList|
                    removal_rel(old(self).root@, mid2, n2, update.from) && insertion_ok(
                        mid2,
                        update.to,
                        update.from.list_id,
                    );
                assert(removal_rel(old(self).root@, mid2, n2, upd.unwrap().from) && insertion_ok(
                    mid2,
                    upd.unwrap().to,
                    upd.unwrap().from.list_id,
                ));
            } else {
                assert forall|mid: Seq<ItemList>, n: ItemList|
                    !(removal_rel(old(self).root@, mid, n, upd.unwrap().from) && insertion_ok(
                        mid,
                        upd.unwrap().to,
                        upd.unwrap().from.list_id,
                    )) by {
                    if removal_rel(old(self).root@, mid, n, update.from) && insertion_ok(
                        mid,
                        update.to,
                        update.from.list_id,
                    ) {
                        assert(ok);
                    }
                }
            }
        }
        ok
    }
}

impl ItemList {
    /// Whether a drop at `dnd_idx` may be handed to this node: it is not the
    /// node being dragged, and the position lies within its child list's
    /// recorded bounds.
    pub fn can_insert(&mut self, dnd_idx: usize) -> (r: bool)
        ensures
            *final(self) == *old(self),
            r == (!old(self).dnd_dragged && old(self).dnd_children_idx_bounds.spec_contains(
                dnd_idx as int,
            )),
    {
        !self.dnd_dragged && self.dnd_children_idx_bounds.contains(dnd_idx)
    }

    /// Splices `item` in at the position `dnd_idx` within this node's
    /// subtree: just before the item whose position it is, or at the end of
    /// the list whose footer position it is. A position the subtree's walk
    /// cannot account for leaves the subtree unchanged.
    pub fn insert(&mut self, dnd_idx: usize, item: Self)
        requires
            !old(self).excluded(),
            crate::tree::node_placed(*old(self), old(self).dnd_idx as int),
        ensures
            crate::tree::same_node_fields(*old(self), *final(self)),
            ({
                let base = old(self).dnd_idx as int;
                let own = old(self).list_id();
                match spec_dest_in_list(old(self).children@, base + 1, dnd_idx as int, own, own) {
                    None => final(self).children@ == old(self).children@,
                    Some(DragDestination::Within(k)) => if k <= old(self).children@.len() {
                        final(self).children@ == old(self).children@.insert(k as int, item)
                    } else {
                        final(self).children@ == old(self).children@
                    },
                    Some(DragDestination::Insert(loc)) => match loc.list_id {
                        ListId::Under(t) => if insertable(
                            old(self).children@,
                            t,
                            loc.idx as int,
                        ) {
                            inserts_into(
                                old(self).children@,
                                final(self).children@,
                                item,
                                t,
                                loc.idx as int,
                            )
                        } else {
                            final(self).children@ == old(self).children@
                        },
                        ListId::Root => final(self).children@ == old(self).children@,
                    },
                    Some(DragDestination::Push(l)) => if l == own {
                        final(self).children@ == old(self).children@.push(item)
                    } else {
                        match l {
                            ListId::Under(t) => if appendable(old(self).children@, t) {
                                appends_onto(old(self).children@, final(self).children@, item, t)
                            } else {
                                final(self).children@ == old(self).children@
                            },
                            ListId::Root => final(self).children@ == old(self).children@,
                        }
                    },
                }
            }),
    {
        let own = ListId::Under(self.item.id);
        let r = dest_in_list(
            &self.children,
            self.dnd_idx + 1,
            self.dnd_children_idx_bounds.end,
            dnd_idx,
            own,
            own,
        );
        match r {
            None => {},
            Some(DragDestination::Within(k)) => {
                if k <= self.children.len() {
                    self.children.insert(k, item);
                }
            },
            Some(DragDestination::Insert(loc)) => {
                match loc.list_id {
                    ListId::Under(t) => {
                        let _back = insert_entry(&mut self.children, t, loc.idx, item);
                    },
                    ListId::Root => {},
                }
            },
            Some(DragDestination::Push(l)) => {
                if l == own {
                    self.children.push(item);
                } else {
                    match l {
                        ListId::Under(t) => {
                            let _back = append_entry(&mut self.children, t, item);
                        },
                        ListId::Root => {},
                    }
                }
            },
        }
    }

    /// Takes the item at position `dnd_idx` out of this node's subtree and
    /// returns it, subtree and all. A position that is no item's — a footer,
    /// or one the walk cannot account for — changes nothing and returns
    /// nothing.
    pub fn remove_child_item(&mut self, dnd_idx: usize) -> (r: Option<Self>)
        requires
            !old(self).excluded(),
            crate::tree::node_placed(*old(self), old(self).dnd_idx as int),
        ensures
            crate::tree::same_node_fields(*old(self), *final(self)),
            ({
                let base = old(self).dnd_idx as int;
                let own = old(self).list_id();
                match spec_source_in_list(old(self).children@, base + 1, dnd_idx as int, own) {
                    None => r is None && final(self).children@ == old(self).children@,
                    Some(loc) => if loc.list_id == own {
                        if loc.idx < old(self).children@.len() {
                            r == Some(old(self).children@[loc.idx as int]) && final(self).children@
                                == old(self).children@.remove(loc.idx as int)
                        } else {
                            r is None && final(self).children@ == old(self).children@
                        }
                    } else {
                        match loc.list_id {
                            ListId::Under(t) => if crate::mutate::removable(
                                old(self).children@,
                                t,
                                loc.idx as int,
                            ) {
                                r is Some && removes_from(
                                    old(self).children@,
                                    final(self).children@,
                                    r.unwrap(),
                                    t,
                                    loc.idx as int,
                                )
                            } else {
                                r is None && final(self).children@ == old(self).children@
                            },
                            ListId::Root => r is None && final(self).children@ == old(
                                self,
                            ).children@,
                        }
                    },
                }
            }),
    {
        let own = ListId::Under(self.item.id);
        let loc = match source_in_list(&self.children, self.dnd_idx + 1, dnd_idx, own) {
            Some(loc) => loc,
            None => {
                return None;
            },
        };
        if loc.list_id == own {
            if loc.idx < self.children.len() {
                return Some(self.children.remove(loc.idx));
            }
            return None;
        }
        match loc.list_id {
            ListId::Under(t) => remove_entry(&mut self.children, t, loc.idx),
            ListId::Root => None,
        }
    }
}

} // verus!
