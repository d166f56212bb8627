use crate::item::Item;
use crate::util::{lemma_shifted_self, shift_elements, shifted};
use vstd::prelude::*;

verus! {

/// The start and end positions of one flat list in the combined linear
/// space: `start` is its first item's position and `end` its last item's.
#[derive(Clone, Copy, Debug)]
pub struct ListDndIdxBounds {
    pub start: usize,
    pub end: usize,
}

/// One flat list of items; the label index identifies it to the host.
#[derive(Debug)]
pub struct ItemList {
    pub id: usize,
    pub items: Vec<Item>,
}

/// Pairs a list index and an item index relative to that list (not the
/// combined linear position).
#[derive(Clone, Copy, Debug, PartialEq, Eq, Structural)]
pub struct ListAndItemIdx {
    pub list_index: usize,
    pub list_internal_index: usize,
}

/// Several flat lists drawn as one drag container, a separator slot before
/// each list but the first; items can be dragged freely between them.
#[derive(Debug)]
pub struct MultipleLists {
    pub lists: Vec<ItemList>,
    pub lists_dnd_idx_bounds: Vec<ListDndIdxBounds>,
}

/// Resolution of a combined linear position against the recorded bounds,
/// scanning from list `i` on: a position inside a list's bounds is that
/// list's item at `position - start`; past a list's end but before the next
/// list's start (or past the last list), a position names an insertion point
/// in that list. A position accounted for by no list resolves to nothing.
pub open spec fn spec_convert_from(
    bounds: Seq<ListDndIdxBounds>,
    i: int,
    dnd_idx: int,
    for_insertion: bool,
) -> Option<ListAndItemIdx>
    decreases bounds.len() - i,
{
    if i < 0 || i >= bounds.len() {
        None
    } else if bounds[i].start <= dnd_idx <= bounds[i].end {
        Some(
            ListAndItemIdx {
                list_index: i as usize,
                list_internal_index: (dnd_idx - bounds[i].start) as usize,
            },
        )
    } else if for_insertion && dnd_idx >= bounds[i].start && (i == bounds.len() - 1 || dnd_idx
        < bounds[i + 1].start) {
        Some(
            ListAndItemIdx {
                list_index: i as usize,
                list_internal_index: (dnd_idx - bounds[i].start) as usize,
            },
        )
    } else {
        spec_convert_from(bounds, i + 1, dnd_idx, for_insertion)
    }
}

pub open spec fn spec_convert(
    bounds: Seq<ListDndIdxBounds>,
    dnd_idx: int,
    for_insertion: bool,
) -> Option<ListAndItemIdx> {
    spec_convert_from(bounds, 0, dnd_idx, for_insertion)
}

/// Maps a combined linear position back to (list, index in that list).
/// `for_insertion` admits the positions between lists and past the last
/// list, which name insertion points rather than existing items.
pub fn convert_dnd_idx_to_list_and_item_idx(
    lists_dnd_idx_bounds: &Vec<ListDndIdxBounds>,
    dnd_idx: usize,
    for_insertion: bool,
) -> (r: Option<ListAndItemIdx>)
    ensures
        r == spec_convert(lists_dnd_idx_bounds@, dnd_idx as int, for_insertion),
{
    let mut i: usize = 0;
    while i < lists_dnd_idx_bounds.len()
        invariant
            0 <= i <= lists_dnd_idx_bounds@.len(),
            spec_convert(lists_dnd_idx_bounds@, dnd_idx as int, for_insertion)
                == spec_convert_from(
                lists_dnd_idx_bounds@,
                i as int,
                dnd_idx as int,
                for_insertion,
            ),
        decreases lists_dnd_idx_bounds@.len() - i,
    {
        let dnd_idx_start = lists_dnd_idx_bounds[i].start;
        let dnd_idx_end = lists_dnd_idx_bounds[i].end;
        if dnd_idx >= dnd_idx_start && dnd_idx <= dnd_idx_end {
            return Some(
                ListAndItemIdx { list_index: i, list_internal_index: dnd_idx - dnd_idx_start },
            );
        }
        if for_insertion && dnd_idx >= dnd_idx_start && (i == lists_dnd_idx_bounds.len() - 1
            || dnd_idx < lists_dnd_idx_bounds[i + 1].start) {
            return Some(
                ListAndItemIdx { list_index: i, list_internal_index: dnd_idx - dnd_idx_start },
            );
        }
        i = i + 1;
    }
    None
}

/// Total number of items over all the lists.
pub open spec fn flat_count(s: Seq<ItemList>) -> nat
    decreases s,
{
    if s.len() == 0 {
        0
    } else {
        s[0].items@.len() + flat_count(s.drop_first())
    }
}

pub proof fn lemma_flat_count_concat(a: Seq<ItemList>, b: Seq<ItemList>)
    ensures
        flat_count(a + b) == flat_count(a) + flat_count(b),
    decreases a,
{
    if a.len() == 0 {
        assert(a + b =~= b);
    } else {
        assert((a + b)[0] == a[0]);
        assert((a + b).drop_first() =~= a.drop_first() + b);
        lemma_flat_count_concat(a.drop_first(), b);
    }
}

/// Replacing one list changes the total by the difference in that list's
/// length.
pub proof fn lemma_flat_count_update(s: Seq<ItemList>, i: int, x: ItemList)
    requires
        0 <= i < s.len(),
    ensures
        flat_count(s.update(i, x)) + s[i].items@.len() == flat_count(s) + x.items@.len(),
{
    assert(s =~= s.take(i) + (seq![s[i]] + s.skip(i + 1)));
    assert(s.update(i, x) =~= s.take(i) + (seq![x] + s.skip(i + 1)));
    lemma_flat_count_concat(s.take(i), seq![s[i]] + s.skip(i + 1));
    lemma_flat_count_concat(seq![s[i]], s.skip(i + 1));
    lemma_flat_count_concat(s.take(i), seq![x] + s.skip(i + 1));
    lemma_flat_count_concat(seq![x], s.skip(i + 1));
    assert(seq![s[i]].drop_first() =~= Seq::<ItemList>::empty());
    assert(seq![x].drop_first() =~= Seq::<ItemList>::empty());
    assert(seq![s[i]][0] == s[i]);
    assert(seq![x][0] == x);
    assert(flat_count(Seq::<ItemList>::empty()) == 0);
    assert(flat_count(seq![s[i]]) == s[i].items@.len());
    assert(flat_count(seq![x]) == x.items@.len());
}

/// The two columns of lists hold the same labels and the same items.
pub open spec fn flat_eq(a: Seq<ItemList>, b: Seq<ItemList>) -> bool {
    &&& a.len() == b.len()
    &&& forall|j: int|
        0 <= j < a.len() ==> (#[trigger] a[j]).id == b[j].id && a[j].items@ == b[j].items@
}

impl MultipleLists {
    /// The recorded bounds agree with one walk of the lists: the first list
    /// starts at position zero, each later list two past its predecessor's
    /// last item (one slot for the separator drawn between them), and each
    /// list's `end` is the position of its last item. Lists are non-empty,
    /// as the walk gives an empty list no well-formed bounds.
    pub open spec fn bounds_ok(self) -> bool {
        &&& self.lists_dnd_idx_bounds@.len() == self.lists@.len()
        &&& forall|i: int|
            0 <= i < self.lists@.len() ==> (#[trigger] self.lists@[i]).items@.len() >= 1
        &&& forall|i: int|
            0 <= i < self.lists@.len() ==> (#[trigger] self.lists_dnd_idx_bounds@[i]).end + 1
                == self.lists_dnd_idx_bounds@[i].start + self.lists@[i].items@.len()
        &&& (self.lists@.len() > 0 ==> self.lists_dnd_idx_bounds@[0].start == 0)
        &&& forall|i: int|
            1 <= i < self.lists@.len() ==> (#[trigger] self.lists_dnd_idx_bounds@[i]).start
                == self.lists_dnd_idx_bounds@[i - 1].end + 2
    }

    /// Builds the demo columns: `num_lists` lists of `num_items_per_list`
    /// items each, with consecutive identifiers starting at `start_id`.
    pub fn new(num_lists: usize, start_id: usize, num_items_per_list: usize) -> (r: Self)
        requires
            start_id + num_lists * num_items_per_list <= usize::MAX,
        ensures
            r.lists@.len() == num_lists,
            r.lists_dnd_idx_bounds@.len() == num_lists,
            forall|i: int| 0 <= i < num_lists ==> (#[trigger] r.lists@[i]).id == i,
            forall|i: int|
                0 <= i < num_lists ==> (#[trigger] r.lists@[i]).items@.len()
                    == num_items_per_list,
            forall|i: int, j: int|
                0 <= i < num_lists && 0 <= j < num_items_per_list ==> (#[trigger] r.lists@[i].items@[j]).id
                    == start_id + i * num_items_per_list + j,
    {
        let mut lists = Vec::<ItemList>::new();
        let mut lists_dnd_idx_bounds = Vec::<ListDndIdxBounds>::new();

        let mut i: usize = 0;
        while i < num_lists
            invariant
                0 <= i <= num_lists,
                start_id + num_lists * num_items_per_list <= usize::MAX,
                lists@.len() == i,
                lists_dnd_idx_bounds@.len() == i,
                forall|a: int| 0 <= a < i ==> (#[trigger] lists@[a]).id == a,
                forall|a: int|
                    0 <= a < i ==> (#[trigger] lists@[a]).items@.len() == num_items_per_list,
                forall|a: int, j: int|
                    0 <= a < i && 0 <= j < num_items_per_list ==> (#[trigger] lists@[a].items@[j]).id
                        == start_id + a * num_items_per_list + j,
            decreases num_lists - i,
        {
            assert((i as int + 1) * num_items_per_list == i as int * num_items_per_list
                + num_items_per_list) by (nonlinear_arith);
            assert((i as int + 1) * num_items_per_list <= num_lists as int * num_items_per_list)
                by (nonlinear_arith)
                requires
                    i as int + 1 <= num_lists as int,
                    num_items_per_list >= 0,
            ;
            let offset = start_id + i * num_items_per_list;
            let mut items = Vec::<Item>::new();
            let mut j: usize = 0;
            while j < num_items_per_list
                invariant
                    0 <= j <= num_items_per_list,
                    offset + num_items_per_list <= usize::MAX,
                    items@.len() == j,
                    forall|a: int| 0 <= a < j ==> (#[trigger] items@[a]).id == offset + a,
                decreases num_items_per_list - j,
            {
                items.push(Item::new(offset + j));
                j = j + 1;
            }
            lists.push(ItemList { id: i, items });
            lists_dnd_idx_bounds.push(ListDndIdxBounds { start: 0, end: 0 });
            i = i + 1;
        }

        Self { lists, lists_dnd_idx_bounds }
    }

    /// One frame's walk over the columns: records each list's bounds in the
    /// combined linear space, leaving the lists themselves untouched.
    pub fn assign(&mut self)
        requires
            forall|i: int|
                0 <= i < old(self).lists@.len() ==> (#[trigger] old(self).lists@[i]).items@.len()
                    >= 1,
            flat_count(old(self).lists@) + old(self).lists@.len() <= usize::MAX,
        ensures
            final(self).lists@ == old(self).lists@,
            final(self).bounds_ok(),
    {
        let mut bounds = Vec::<ListDndIdxBounds>::new();
        let mut idx: usize = 0;
        let mut i: usize = 0;
        proof {
            assert(self.lists@.take(0) =~= Seq::<ItemList>::empty());
        }
        while i < self.lists.len()
            invariant
                0 <= i <= self.lists@.len(),
                self.lists@ == old(self).lists@,
                forall|a: int|
                    0 <= a < self.lists@.len() ==> (#[trigger] self.lists@[a]).items@.len() >= 1,
                flat_count(self.lists@) + self.lists@.len() <= usize::MAX,
                bounds@.len() == i,
                i > 0 ==> idx as int == flat_count(self.lists@.take(i as int)) + i - 1,
                i == 0 ==> idx == 0,
                forall|a: int|
                    0 <= a < i ==> (#[trigger] bounds@[a]).end + 1 == bounds@[a].start
                        + self.lists@[a].items@.len(),
                i > 0 ==> bounds@[0].start == 0,
                forall|a: int| 1 <= a < i ==> (#[trigger] bounds@[a]).start == bounds@[a - 1].end + 2,
                i > 0 ==> idx as int == bounds@[i - 1].end + 1,
            decreases self.lists@.len() - i,
        {
            let ghost ii = i as int;
            proof {
                assert(self.lists@.take(ii + 1) =~= self.lists@.take(ii) + seq![self.lists@[ii]]);
                lemma_flat_count_concat(self.lists@.take(ii), seq![self.lists@[ii]]);
                assert(seq![self.lists@[ii]].drop_first() =~= Seq::<ItemList>::empty());
                assert(seq![self.lists@[ii]][0] == self.lists@[ii]);
                assert(flat_count(Seq::<ItemList>::empty()) == 0);
                assert(flat_count(seq![self.lists@[ii]]) == self.lists@[ii].items@.len());
                assert(self.lists@ =~= self.lists@.take(ii + 1) + self.lists@.skip(ii + 1));
                lemma_flat_count_concat(self.lists@.take(ii + 1), self.lists@.skip(ii + 1));
            }
            if i > 0 {
                idx = idx + 1;
            }
            let start = idx;
            idx = idx + self.lists[i].items.len();
            bounds.push(ListDndIdxBounds { start, end: idx - 1 });
            i = i + 1;
        }
        self.lists_dnd_idx_bounds = bounds;
    }

    /// Applies one completed drag, reported as combined linear positions.
    /// A drag that goes nowhere or that the bounds cannot account for — or
    /// whose insertion point lies past the end of the target list — leaves
    /// every list as it was; any applied move conserves the total item
    /// count.
    pub fn apply_drag(&mut self, from: usize, to: usize)
        requires
            old(self).bounds_ok(),
        ensures
            final(self).lists_dnd_idx_bounds == old(self).lists_dnd_idx_bounds,
            final(self).lists@.len() == old(self).lists@.len(),
            flat_count(final(self).lists@) == flat_count(old(self).lists@),
            from == to ==> flat_eq(final(self).lists@, old(self).lists@),
            ({
                let f_res = spec_convert(old(self).lists_dnd_idx_bounds@, from as int, false);
                let t_res = spec_convert(old(self).lists_dnd_idx_bounds@, to as int, true);
                match (f_res, t_res) {
                    (Some(f), Some(t)) => {
                        let fl = f.list_index as int;
                        let tl = t.list_index as int;
                        if fl == tl {
                            if t.list_internal_index <= old(self).lists@[fl].items@.len() {
                                &&& (forall|j: int|
                                    0 <= j < old(self).lists@.len() && j != fl
                                        ==> final(self).lists@[j] == #[trigger] old(
                                        self,
                                    ).lists@[j])
                                &&& final(self).lists@[fl].id == old(self).lists@[fl].id
                                &&& final(self).lists@[fl].items@ == shifted(
                                    old(self).lists@[fl].items@,
                                    f.list_internal_index as int,
                                    t.list_internal_index as int,
                                )
                            } else {
                                flat_eq(final(self).lists@, old(self).lists@)
                            }
                        } else {
                            if t.list_internal_index <= old(self).lists@[tl].items@.len() {
                                &&& (forall|j: int|
                                    0 <= j < old(self).lists@.len() && j != fl && j != tl
                                        ==> final(self).lists@[j] == #[trigger] old(
                                        self,
                                    ).lists@[j])
                                &&& final(self).lists@[fl].id == old(self).lists@[fl].id
                                &&& final(self).lists@[tl].id == old(self).lists@[tl].id
                                &&& final(self).lists@[fl].items@ == old(
                                    self,
                                ).lists@[fl].items@.remove(f.list_internal_index as int)
                                &&& final(self).lists@[tl].items@ == old(
                                    self,
                                ).lists@[tl].items@.insert(
                                    t.list_internal_index as int,
                                    old(self).lists@[fl].items@[f.list_internal_index as int],
                                )
                            } else {
                                flat_eq(final(self).lists@, old(self).lists@)
                            }
                        }
                    },
                    _ => final(self).lists@ == old(self).lists@,
                }
            }),
    {
        let ghost bseq = self.lists_dnd_idx_bounds@;
        let blen = self.lists_dnd_idx_bounds.len();
        proof {
            assert(bseq.len() == blen);
        }
        let f_res = convert_dnd_idx_to_list_and_item_idx(&self.lists_dnd_idx_bounds, from, false);
        let t_res = convert_dnd_idx_to_list_and_item_idx(&self.lists_dnd_idx_bounds, to, true);
        let (f, t) = match (f_res, t_res) {
            (Some(f), Some(t)) => (f, t),
            _ => {
                return ;
            },
        };
        proof {
            lemma_convert_in_range(bseq, self.lists@, from as int, false, 0);
            lemma_convert_in_range(bseq, self.lists@, to as int, true, 0);
            if from == to {
                lemma_convert_agree(bseq, 0, from as int);
            }
        }
        if f.list_index == t.list_index {
            let ghost fl = f.list_index as int;
            if t.list_internal_index > self.lists[f.list_index].items.len() {
                proof {
                    lemma_flat_eq_refl(self.lists@);
                }
                return ;
            }
            let mut list = self.lists.remove(f.list_index);
            let ghost list_before = list;
            shift_elements(f.list_internal_index, t.list_internal_index, &mut list.items);
            let ghost list_after = list;
            self.lists.insert(f.list_index, list);
            proof {
                assert(self.lists@ =~= old(self).lists@.update(fl, list_after));
                lemma_flat_count_update(old(self).lists@, fl, list_after);
                crate::util::lemma_shifted_multiset(
                    list_before.items@,
                    f.list_internal_index as int,
                    t.list_internal_index as int,
                );
                broadcast use vstd::seq_lib::group_to_multiset_ensures;

                if from == to {
                    assert(f.list_internal_index == t.list_internal_index);
                    lemma_shifted_self(list_before.items@, f.list_internal_index as int);
                }
            }
        } else {
            let ghost fl = f.list_index as int;
            let ghost tl = t.list_index as int;
            if t.list_internal_index > self.lists[t.list_index].items.len() {
                proof {
                    lemma_flat_eq_refl(self.lists@);
                }
                return ;
            }
            let mut src = self.lists.remove(f.list_index);
            let removed_item = src.items.remove(f.list_internal_index);
            let ghost src_after = src;
            self.lists.insert(f.list_index, src);
            let ghost mid = self.lists@;
            let mut dst = self.lists.remove(t.list_index);
            dst.items.insert(t.list_internal_index, removed_item);
            let ghost dst_after = dst;
            self.lists.insert(t.list_index, dst);
            proof {
                assert(mid =~= old(self).lists@.update(fl, src_after));
                assert(self.lists@ =~= mid.update(tl, dst_after));
                lemma_flat_count_update(old(self).lists@, fl, src_after);
                lemma_flat_count_update(mid, tl, dst_after);
                assert(mid[tl] == old(self).lists@[tl]);
            }
        }
    }
}

proof fn lemma_flat_eq_refl(s: Seq<ItemList>)
    ensures
        flat_eq(s, s),
{
}

/// With increasing bounds, no list from `i` on can account for a position
/// below the `i`-th list's start.
proof fn lemma_convert_none_below(bounds: Seq<ListDndIdxBounds>, i: int, dnd_idx: int)
    requires
        forall|a: int|
            0 <= a < bounds.len() ==> (#[trigger] bounds[a]).start <= bounds[a].end + 1,
        forall|a: int|
            1 <= a < bounds.len() ==> (#[trigger] bounds[a]).start == bounds[a - 1].end + 2,
        0 <= i < bounds.len(),
        dnd_idx < bounds[i].start,
    ensures
        spec_convert_from(bounds, i, dnd_idx, false) is None,
    decreases bounds.len() - i,
{
    assert(bounds[i].start <= bounds[i].end + 1);
    if i + 1 < bounds.len() {
        assert(bounds[i + 1].start == bounds[i].end + 2);
        lemma_convert_none_below(bounds, i + 1, dnd_idx);
    } else {
        assert(spec_convert_from(bounds, i + 1, dnd_idx, false) is None);
    }
    assert(spec_convert_from(bounds, i, dnd_idx, false) == spec_convert_from(
        bounds,
        i + 1,
        dnd_idx,
        false,
    ));
}

/// When a position resolves as a drag source, resolving the same position
/// for insertion finds the very same list and index: the between-list
/// insertion slots are exactly the positions no list contains.
proof fn lemma_convert_agree(bounds: Seq<ListDndIdxBounds>, i: int, dnd_idx: int)
    requires
        forall|a: int|
            0 <= a < bounds.len() ==> (#[trigger] bounds[a]).start <= bounds[a].end + 1,
        forall|a: int|
            1 <= a < bounds.len() ==> (#[trigger] bounds[a]).start == bounds[a - 1].end + 2,
        spec_convert_from(bounds, i, dnd_idx, false) is Some,
    ensures
        spec_convert_from(bounds, i, dnd_idx, true) == spec_convert_from(bounds, i, dnd_idx, false),
    decreases bounds.len() - i,
{
    if 0 <= i < bounds.len() {
        if bounds[i].start <= dnd_idx <= bounds[i].end {
        } else if dnd_idx >= bounds[i].start && (i == bounds.len() - 1 || dnd_idx < bounds[i
            + 1].start) {
            if i + 1 < bounds.len() {
                lemma_convert_none_below(bounds, i + 1, dnd_idx);
            } else {
                assert(spec_convert_from(bounds, i + 1, dnd_idx, false) is None);
            }
            assert(spec_convert_from(bounds, i, dnd_idx, false) == spec_convert_from(
                bounds,
                i + 1,
                dnd_idx,
                false,
            ));
            assert(spec_convert_from(bounds, i, dnd_idx, false) is None);
        } else {
            lemma_convert_agree(bounds, i + 1, dnd_idx);
        }
    }
}

/// A successful resolution names an existing list, and — when it was not
/// resolved for insertion — an existing item of that list. For insertion the
/// index may point one or more places past the list's items.
proof fn lemma_convert_in_range(
    bounds: Seq<ListDndIdxBounds>,
    lists: Seq<ItemList>,
    dnd_idx: int,
    for_insertion: bool,
    i: int,
)
    requires
        bounds.len() == lists.len(),
        bounds.len() <= usize::MAX,
        forall|a: int|
            0 <= a < lists.len() ==> (#[trigger] bounds[a]).end + 1 == bounds[a].start
                + lists[a].items@.len(),
    ensures
        match spec_convert_from(bounds, i, dnd_idx, for_insertion) {
            Some(loc) => loc.list_index < lists.len() && (!for_insertion
                ==> loc.list_internal_index < lists[loc.list_index as int].items@.len()),
            None => true,
        },
    decreases bounds.len() - i,
{
    if 0 <= i < bounds.len() {
        assert(bounds[i].end + 1 == bounds[i].start + lists[i].items@.len());
        if bounds[i].start <= dnd_idx <= bounds[i].end {
            assert(spec_convert_from(bounds, i, dnd_idx, for_insertion) == Some(
                ListAndItemIdx {
                    list_index: i as usize,
                    list_internal_index: (dnd_idx - bounds[i].start) as usize,
                },
            ));
            assert(0 <= dnd_idx - bounds[i].start < lists[i].items@.len());
            assert((i as usize) as int == i);
            assert(((dnd_idx - bounds[i].start) as usize) as int == dnd_idx - bounds[i].start);
        } else if for_insertion && dnd_idx >= bounds[i].start && (i == bounds.len() - 1 || dnd_idx
            < bounds[i + 1].start) {
        } else {
            lemma_convert_in_range(bounds, lists, dnd_idx, for_insertion, i + 1);
            assert(spec_convert_from(bounds, i, dnd_idx, for_insertion) == spec_convert_from(
                bounds,
                i + 1,
                dnd_idx,
                for_insertion,
            ));
        }
    } else {
        assert(spec_convert_from(bounds, i, dnd_idx, for_insertion) is None);
    }
}

} // verus!
