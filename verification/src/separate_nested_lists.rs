use crate::item::Item;
use vstd::prelude::*;

verus! {

/// One entry of a two-level list: an item, and for top-level entries the
/// sub-list it owns.
#[derive(Debug)]
pub struct ItemList {
    pub item: Item,
    pub children: Option<Vec<ItemList>>,
}

/// Nested lists whose items can only be dragged within their own list,
/// never across list boundaries: each list is its own drag container, so no
/// position mapping across lists is needed. Only two levels deep.
#[derive(Debug)]
pub struct SeparateNestedLists {
    pub name: String,
    pub root: Vec<ItemList>,
}

impl SeparateNestedLists {
    /// Builds the demo tree: `num_items_per_list` top-level entries, each
    /// with `num_items_per_list` children. Each group's children take the
    /// next identifiers, then their owning entry takes one; the second
    /// result is the first identifier not used.
    pub fn new(name: String, start_id: usize, num_items_per_list: usize) -> (r: (Self, usize))
        requires
            start_id + num_items_per_list * (num_items_per_list + 1) + 1 <= usize::MAX,
        ensures
            r.0.name == name,
            r.0.root@.len() == num_items_per_list,
            r.1 == start_id + num_items_per_list * (num_items_per_list as int + 1),
            forall|i: int|
                0 <= i < num_items_per_list ==> {
                    let g = start_id + i * (num_items_per_list as int + 1);
                    &&& (#[trigger] r.0.root@[i]).item.id == g + num_items_per_list
                    &&& r.0.root@[i].children is Some
                    &&& r.0.root@[i].children.unwrap()@.len() == num_items_per_list
                    &&& forall|j: int|
                        0 <= j < num_items_per_list
                            ==> (#[trigger] r.0.root@[i].children.unwrap()@[j]).item.id == g + j
                },
    {
        let ghost stride = num_items_per_list as int + 1;
        let mut next_id: usize = start_id;
        let mut root = Vec::<ItemList>::new();
        let mut i: usize = 0;
        while i < num_items_per_list
            invariant
                0 <= i <= num_items_per_list,
                stride == num_items_per_list as int + 1,
                start_id + num_items_per_list * stride + 1 <= usize::MAX,
                next_id == start_id + i as int * stride,
                root@.len() == i,
                forall|a: int|
                    0 <= a < i ==> {
                        let g = start_id + a * stride;
                        &&& (#[trigger] root@[a]).item.id == g + num_items_per_list
                        &&& root@[a].children is Some
                        &&& root@[a].children.unwrap()@.len() == num_items_per_list
                        &&& forall|j: int|
                            0 <= j < num_items_per_list
                                ==> (#[trigger] root@[a].children.unwrap()@[j]).item.id == g + j
                    },
            decreases num_items_per_list - i,
        {
            assert((i as int + 1) * stride == i as int * stride + stride) by (nonlinear_arith);
            assert((i as int + 1) * stride <= num_items_per_list as int * stride)
                by (nonlinear_arith)
                requires
                    i as int + 1 <= num_items_per_list as int,
                    stride >= 0,
            ;
            let group_start = next_id;
            let mut children = Vec::<ItemList>::new();
            let mut j: usize = 0;
            while j < num_items_per_list
                invariant
                    0 <= j <= num_items_per_list,
                    next_id == group_start + j,
                    group_start + num_items_per_list as int + 1 <= usize::MAX,
                    children@.len() == j,
                    forall|a: int|
                        0 <= a < j ==> (#[trigger] children@[a]).item.id == group_start + a
                            && children@[a].children is None,
                decreases num_items_per_list - j,
            {
                let item = Item::new(next_id);
                next_id = next_id + 1;
                children.push(ItemList { item, children: None });
                j = j + 1;
            }
            let item = Item::new(next_id);
            next_id = next_id + 1;
            root.push(ItemList { item, children: Some(children) });
            i = i + 1;
        }
        assert(i as int * stride == num_items_per_list as int * stride);
        (Self { name, root }, next_id)
    }
}

} // verus!
