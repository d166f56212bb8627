use vstd::prelude::*;

verus! {

/// A draggable item: a stable identifier plus display text.
///
/// Item identifiers form one namespace; the identifier of a list (see the
/// tree modules) is the identifier of the item that owns it.
#[derive(Clone, Copy, Debug, Hash)]
pub struct Item {
    pub id: usize,
    pub contents: &'static str,
}

impl Item {
    pub fn new(id: usize) -> (r: Self)
        ensures
            r.id == id,
    {
        Self { id, contents: "item description" }
    }
}

} // verus!
