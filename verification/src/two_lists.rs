use crate::item::Item;
use crate::util::{move_elements_2, shifted};
use vstd::prelude::*;

verus! {

/// Two flat lists drawn as one drag container with a single separator slot
/// between them; items can be dragged freely across the separator. The
/// combined linear space is `0 .. list_1.len()` for the first list, one
/// separator slot, then the second list.
#[derive(Debug)]
pub struct TwoLists {
    pub list_1: Vec<Item>,
    pub list_2: Vec<Item>,
}

impl TwoLists {
    /// Builds the demo lists: `num_items_per_area` items each, the first
    /// list's identifiers starting at `start_id` and the second list's
    /// following them.
    pub fn new(start_id: usize, num_items_per_area: usize) -> (r: Self)
        requires
            start_id + 2 * num_items_per_area <= usize::MAX,
        ensures
            r.list_1@.len() == num_items_per_area,
            r.list_2@.len() == num_items_per_area,
            forall|i: int|
                0 <= i < num_items_per_area ==> (#[trigger] r.list_1@[i]).id == start_id + i,
            forall|i: int|
                0 <= i < num_items_per_area ==> (#[trigger] r.list_2@[i]).id == start_id
                    + num_items_per_area + i,
    {
        let mut list_1 = Vec::<Item>::new();
        let mut list_2 = Vec::<Item>::new();

        let mut i: usize = 0;
        while i < num_items_per_area
            invariant
                0 <= i <= num_items_per_area,
                start_id + 2 * num_items_per_area <= usize::MAX,
                list_1@.len() == i,
                list_2@.len() == i,
                forall|a: int| 0 <= a < i ==> (#[trigger] list_1@[a]).id == start_id + a,
                forall|a: int|
                    0 <= a < i ==> (#[trigger] list_2@[a]).id == start_id + num_items_per_area
                        + a,
            decreases num_items_per_area - i,
        {
            list_1.push(Item::new(start_id + i));
            list_2.push(Item::new(start_id + num_items_per_area + i));
            i = i + 1;
        }

        Self { list_1, list_2 }
    }

    /// Applies one completed drag, reported as combined linear positions,
    /// by moving one element within or across the two lists. The separator
    /// slot sits at position `list_1.len()`.
    pub fn apply_drag(&mut self, from: usize, to: usize)
        requires
            ({
                let n1 = old(self).list_1@.len() as int;
                let n2 = old(self).list_2@.len() as int;
                &&& (from < n1 ==> to <= n1 || (to >= n1 + 1 && to - (n1 + 1) <= n2))
                &&& (from >= n1 ==> {
                    &&& from >= n1 + 1
                    &&& from - (n1 + 1) < n2
                    &&& (to >= n1 + 1 ==> to - (n1 + 1) <= n2)
                    &&& (to < n1 + 1 ==> to <= n1)
                })
            }),
        ensures
            ({
                let n1 = old(self).list_1@.len() as int;
                let o1 = old(self).list_1@;
                let o2 = old(self).list_2@;
                &&& (from < n1 && to <= n1 ==> final(self).list_1@ == shifted(
                    o1,
                    from as int,
                    to as int,
                ) && final(self).list_2@ == o2)
                &&& (from < n1 && to > n1 ==> final(self).list_1@ == o1.remove(from as int)
                    && final(self).list_2@ == o2.insert(to - (n1 + 1), o1[from as int]))
                &&& (from >= n1 && to >= n1 + 1 ==> final(self).list_1@ == o1
                    && final(self).list_2@ == shifted(o2, from - (n1 + 1), to - (n1 + 1)))
                &&& (from >= n1 && to < n1 + 1 ==> final(self).list_2@ == o2.remove(from - (n1 + 1))
                    && final(self).list_1@ == o1.insert(to as int, o2[from - (n1 + 1)]))
                &&& final(self).list_1@.len() + final(self).list_2@.len() == o1.len() + o2.len()
            }),
    {
        move_elements_2(&mut self.list_1, &mut self.list_2, from, to, 1);
    }
}

} // verus!
