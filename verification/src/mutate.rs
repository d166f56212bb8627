use crate::tree::{
    lemma_list_eq_refl, lemma_list_ids_concat, lemma_tree_eq_refl, list_eq, list_ids,
    same_node_fields, subtree_ids, tree_eq, ItemList,
};
use vstd::multiset::Multiset;
use vstd::prelude::*;

verus! {

/// There is an entry to remove: the first node in pre-order whose item
/// carries `target` has more than `k` children.
pub open spec fn removable(s: Seq<ItemList>, target: usize, k: int) -> bool
    decreases s,
{
    if s.len() == 0 {
        false
    } else if s[0].item.id == target {
        0 <= k < s[0].children@.len()
    } else if subtree_ids(s[0]).contains(target) {
        removable(s[0].children@, target, k)
    } else {
        removable(s.drop_first(), target, k)
    }
}

/// `new` is `old` with entry `k` of the list owned by the first pre-order
/// node carrying `target` taken out, and `n` is that entry. Everything else
/// — every other node, every field, every order — is unchanged.
pub open spec fn removes_from(
    old: Seq<ItemList>,
    new: Seq<ItemList>,
    n: ItemList,
    target: usize,
    k: int,
) -> bool
    decreases old,
{
    if old.len() == 0 {
        false
    } else if old[0].item.id == target {
        &&& 0 <= k < old[0].children@.len()
        &&& n == old[0].children@[k]
        &&& new.len() == old.len()
        &&& same_node_fields(old[0], new[0])
        &&& new[0].children@ == old[0].children@.remove(k)
        &&& new.drop_first() == old.drop_first()
    } else if subtree_ids(old[0]).contains(target) {
        &&& new.len() == old.len()
        &&& same_node_fields(old[0], new[0])
        &&& removes_from(old[0].children@, new[0].children@, n, target, k)
        &&& new.drop_first() == old.drop_first()
    } else {
        &&& new.len() == old.len()
        &&& new[0] == old[0]
        &&& removes_from(old.drop_first(), new.drop_first(), n, target, k)
    }
}

/// There is a place to insert: the first node in pre-order carrying `target`
/// has at least `k` children.
pub open spec fn insertable(s: Seq<ItemList>, target: usize, k: int) -> bool
    decreases s,
{
    if s.len() == 0 {
        false
    } else if s[0].item.id == target {
        0 <= k <= s[0].children@.len()
    } else if subtree_ids(s[0]).contains(target) {
        insertable(s[0].children@, target, k)
    } else {
        insertable(s.drop_first(), target, k)
    }
}

/// `new` is `old` with `x` spliced in at index `k` of the list owned by the
/// first pre-order node carrying `target`; everything else is unchanged.
pub open spec fn inserts_into(
    old: Seq<ItemList>,
    new: Seq<ItemList>,
    x: ItemList,
    target: usize,
    k: int,
) -> bool
    decreases old,
{
    if old.len() == 0 {
        false
    } else if old[0].item.id == target {
        &&& 0 <= k <= old[0].children@.len()
        &&& new.len() == old.len()
        &&& same_node_fields(old[0], new[0])
        &&& new[0].children@ == old[0].children@.insert(k, x)
        &&& new.drop_first() == old.drop_first()
    } else if subtree_ids(old[0]).contains(target) {
        &&& new.len() == old.len()
        &&& same_node_fields(old[0], new[0])
        &&& inserts_into(old[0].children@, new[0].children@, x, target, k)
        &&& new.drop_first() == old.drop_first()
    } else {
        &&& new.len() == old.len()
        &&& new[0] == old[0]
        &&& inserts_into(old.drop_first(), new.drop_first(), x, target, k)
    }
}

/// There is a list to append to: some node carries `target`.
pub open spec fn appendable(s: Seq<ItemList>, target: usize) -> bool
    decreases s,
{
    if s.len() == 0 {
        false
    } else if s[0].item.id == target {
        true
    } else if subtree_ids(s[0]).contains(target) {
        appendable(s[0].children@, target)
    } else {
        appendable(s.drop_first(), target)
    }
}

/// `new` is `old` with `x` pushed onto the end of the list owned by the
/// first pre-order node carrying `target`; everything else is unchanged.
pub open spec fn appends_onto(
    old: Seq<ItemList>,
    new: Seq<ItemList>,
    x: ItemList,
    target: usize,
) -> bool
    decreases old,
{
    if old.len() == 0 {
        false
    } else if old[0].item.id == target {
        &&& new.len() == old.len()
        &&& same_node_fields(old[0], new[0])
        &&& new[0].children@ == old[0].children@.push(x)
        &&& new.drop_first() == old.drop_first()
    } else if subtree_ids(old[0]).contains(target) {
        &&& new.len() == old.len()
        &&& same_node_fields(old[0], new[0])
        &&& appends_onto(old[0].children@, new[0].children@, x, target)
        &&& new.drop_first() == old.drop_first()
    } else {
        &&& new.len() == old.len()
        &&& new[0] == old[0]
        &&& appends_onto(old.drop_first(), new.drop_first(), x, target)
    }
}

/// Whether the subtree holds an item carrying `target`.
pub fn contains_id(n: &ItemList, target: usize) -> (r: bool)
    ensures
        r == subtree_ids(*n).contains(target),
    decreases *n,
{
    if n.item.id == target {
        proof {
            assert(subtree_ids(*n)[0] == target);
        }
        return true;
    }
    let mut i: usize = 0;
    proof {
        assert(n.children@.take(0) =~= Seq::<ItemList>::empty());
    }
    while i < n.children.len()
        invariant
            0 <= i <= n.children@.len(),
            n.item.id != target,
            !list_ids(n.children@.take(i as int)).contains(target),
        decreases n.children@.len() - i,
    {
        let ghost ii = i as int;
        proof {
            assert(decreases_to!(*n => n.children));
            assert(decreases_to!(n.children => n.children@));
            assert(decreases_to!(n.children@ => n.children@[ii]));
        }
        let found = contains_id(&n.children[i], target);
        proof {
            assert(n.children@.take(ii + 1) =~= n.children@.take(ii) + seq![n.children@[ii]]);
            lemma_list_ids_concat(n.children@.take(ii), seq![n.children@[ii]]);
            crate::tree::lemma_singleton_list(n.children@[ii], crate::tree::ListId::Root, 0);
        }
        if found {
            proof {
                let j = choose|j: int|
                    0 <= j < subtree_ids(n.children@[ii]).len() && subtree_ids(n.children@[ii])[j]
                        == target;
                assert(list_ids(n.children@.take(ii + 1))[list_ids(n.children@.take(ii)).len() + j]
                    == target);
                lemma_ids_prefix_contains(n.children@, ii + 1, target);
                assert(subtree_ids(*n) == seq![n.item.id] + list_ids(n.children@));
                let m = choose|m: int|
                    0 <= m < list_ids(n.children@).len() && list_ids(n.children@)[m] == target;
                assert(subtree_ids(*n)[1 + m] == target);
            }
            return true;
        }
        i = i + 1;
    }
    proof {
        assert(n.children@.take(i as int) =~= n.children@);
        assert(subtree_ids(*n) == seq![n.item.id] + list_ids(n.children@));
        if subtree_ids(*n).contains(target) {
            let j = choose|j: int|
                0 <= j < subtree_ids(*n).len() && subtree_ids(*n)[j] == target;
            assert(j >= 1);
            assert(list_ids(n.children@)[j - 1] == target);
        }
    }
    false
}

/// A removal that happens past an untouched prefix free of `target` is a
/// removal from the whole list.
proof fn lemma_removes_from_frame(
    old: Seq<ItemList>,
    new: Seq<ItemList>,
    n: ItemList,
    target: usize,
    k: int,
    i: int,
)
    requires
        0 <= i <= old.len(),
        new.len() == old.len(),
        forall|j: int|
            0 <= j < i ==> new[j] == old[j] && !subtree_ids(#[trigger] old[j]).contains(target),
        removes_from(old.skip(i), new.skip(i), n, target, k),
    ensures
        removes_from(old, new, n, target, k),
    decreases i,
{
    if i == 0 {
        assert(old.skip(0) =~= old);
        assert(new.skip(0) =~= new);
    } else {
        assert(old.drop_first().skip(i - 1) =~= old.skip(i));
        assert(new.drop_first().skip(i - 1) =~= new.skip(i));
        lemma_removes_from_frame(old.drop_first(), new.drop_first(), n, target, k, i - 1);
        assert(!subtree_ids(old[0]).contains(target));
        assert(subtree_ids(old[0])[0] == old[0].item.id);
        assert(old[0].item.id != target);
    }
}

/// An insertion that happens past an untouched prefix free of `target` is an
/// insertion into the whole list.
proof fn lemma_inserts_into_frame(
    old: Seq<ItemList>,
    new: Seq<ItemList>,
    x: ItemList,
    target: usize,
    k: int,
    i: int,
)
    requires
        0 <= i <= old.len(),
        new.len() == old.len(),
        forall|j: int|
            0 <= j < i ==> new[j] == old[j] && !subtree_ids(#[trigger] old[j]).contains(target),
        inserts_into(old.skip(i), new.skip(i), x, target, k),
    ensures
        inserts_into(old, new, x, target, k),
    decreases i,
{
    if i == 0 {
        assert(old.skip(0) =~= old);
        assert(new.skip(0) =~= new);
    } else {
        assert(old.drop_first().skip(i - 1) =~= old.skip(i));
        assert(new.drop_first().skip(i - 1) =~= new.skip(i));
        lemma_inserts_into_frame(old.drop_first(), new.drop_first(), x, target, k, i - 1);
        assert(!subtree_ids(old[0]).contains(target));
        assert(subtree_ids(old[0])[0] == old[0].item.id);
        assert(old[0].item.id != target);
    }
}

/// An append that happens past an untouched prefix free of `target` is an
/// append onto the whole list.
proof fn lemma_appends_onto_frame(
    old: Seq<ItemList>,
    new: Seq<ItemList>,
    x: ItemList,
    target: usize,
    i: int,
)
    requires
        0 <= i <= old.len(),
        new.len() == old.len(),
        forall|j: int|
            0 <= j < i ==> new[j] == old[j] && !subtree_ids(#[trigger] old[j]).contains(target),
        appends_onto(old.skip(i), new.skip(i), x, target),
    ensures
        appends_onto(old, new, x, target),
    decreases i,
{
    if i == 0 {
        assert(old.skip(0) =~= old);
        assert(new.skip(0) =~= new);
    } else {
        assert(old.drop_first().skip(i - 1) =~= old.skip(i));
        assert(new.drop_first().skip(i - 1) =~= new.skip(i));
        lemma_appends_onto_frame(old.drop_first(), new.drop_first(), x, target, i - 1);
        assert(!subtree_ids(old[0]).contains(target));
        assert(subtree_ids(old[0])[0] == old[0].item.id);
        assert(old[0].item.id != target);
    }
}


/// Removing one entry of a list splits its flattened identifiers into the
/// survivors plus the removed subtree's: no item is duplicated or dropped.
pub proof fn lemma_seq_remove_ids(s: Seq<ItemList>, i: int)
    requires
        0 <= i < s.len(),
    ensures
        list_ids(s.remove(i)).to_multiset().add(subtree_ids(s[i]).to_multiset()) == list_ids(
            s,
        ).to_multiset(),
{
    broadcast use vstd::seq_lib::group_seq_properties;

    assert(s =~= s.take(i) + (seq![s[i]] + s.skip(i + 1)));
    assert(s.remove(i) =~= s.take(i) + s.skip(i + 1));
    lemma_list_ids_concat(s.take(i), seq![s[i]] + s.skip(i + 1));
    lemma_list_ids_concat(seq![s[i]], s.skip(i + 1));
    lemma_list_ids_concat(s.take(i), s.skip(i + 1));
    crate::tree::lemma_singleton_list(s[i], crate::tree::ListId::Root, 0);
    let ta = list_ids(s.take(i)).to_multiset();
    let tn = subtree_ids(s[i]).to_multiset();
    let tc = list_ids(s.skip(i + 1)).to_multiset();
    vstd::seq_lib::lemma_multiset_commutative(list_ids(s.take(i)), list_ids(seq![s[i]] + s.skip(i + 1)));
    vstd::seq_lib::lemma_multiset_commutative(list_ids(seq![s[i]]), list_ids(s.skip(i + 1)));
    vstd::seq_lib::lemma_multiset_commutative(list_ids(s.take(i)), list_ids(s.skip(i + 1)));
    assert(list_ids(s).to_multiset() =~= ta.add(tn.add(tc)));
    assert(list_ids(s.remove(i)).to_multiset().add(tn) =~= (ta.add(tc)).add(tn));
    assert((ta.add(tc)).add(tn) =~= ta.add(tn.add(tc)));
}

/// Inserting an entry adds exactly its subtree's identifiers.
pub proof fn lemma_seq_insert_ids(s: Seq<ItemList>, i: int, x: ItemList)
    requires
        0 <= i <= s.len(),
    ensures
        list_ids(s.insert(i, x)).to_multiset() == list_ids(s).to_multiset().add(
            subtree_ids(x).to_multiset(),
        ),
{
    assert(s.insert(i, x) =~= s.take(i) + (seq![x] + s.skip(i)));
    assert(s =~= s.take(i) + s.skip(i));
    lemma_list_ids_concat(s.take(i), seq![x] + s.skip(i));
    lemma_list_ids_concat(seq![x], s.skip(i));
    lemma_list_ids_concat(s.take(i), s.skip(i));
    crate::tree::lemma_singleton_list(x, crate::tree::ListId::Root, 0);
    let ta = list_ids(s.take(i)).to_multiset();
    let tx = subtree_ids(x).to_multiset();
    let tc = list_ids(s.skip(i)).to_multiset();
    vstd::seq_lib::lemma_multiset_commutative(list_ids(s.take(i)), list_ids(seq![x] + s.skip(i)));
    vstd::seq_lib::lemma_multiset_commutative(list_ids(seq![x]), list_ids(s.skip(i)));
    vstd::seq_lib::lemma_multiset_commutative(list_ids(s.take(i)), list_ids(s.skip(i)));
    assert(list_ids(s.insert(i, x)).to_multiset() =~= ta.add(tx.add(tc)));
    assert(list_ids(s).to_multiset().add(tx) =~= (ta.add(tc)).add(tx));
    assert(ta.add(tx.add(tc)) =~= (ta.add(tc)).add(tx));
}

/// A removal anywhere in the tree conserves the identifiers: the survivors
/// plus the removed subtree make up exactly the original.
pub proof fn lemma_removes_from_ids(
    old: Seq<ItemList>,
    new: Seq<ItemList>,
    n: ItemList,
    target: usize,
    k: int,
)
    requires
        removes_from(old, new, n, target, k),
    ensures
        list_ids(new).to_multiset().add(subtree_ids(n).to_multiset()) == list_ids(
            old,
        ).to_multiset(),
    decreases old,
{
    assert(old =~= seq![old[0]] + old.drop_first());
    assert(new =~= seq![new[0]] + new.drop_first());
    lemma_list_ids_concat(seq![old[0]], old.drop_first());
    lemma_list_ids_concat(seq![new[0]], new.drop_first());
    crate::tree::lemma_singleton_list(old[0], crate::tree::ListId::Root, 0);
    crate::tree::lemma_singleton_list(new[0], crate::tree::ListId::Root, 0);
    vstd::seq_lib::lemma_multiset_commutative(list_ids(seq![old[0]]), list_ids(old.drop_first()));
    vstd::seq_lib::lemma_multiset_commutative(list_ids(seq![new[0]]), list_ids(new.drop_first()));
    let tn = subtree_ids(n).to_multiset();
    let tr = list_ids(old.drop_first()).to_multiset();
    if old[0].item.id == target {
        lemma_seq_remove_ids(old[0].children@, k);
        assert(subtree_ids(new[0]) =~= seq![new[0].item.id] + list_ids(new[0].children@));
        assert(subtree_ids(old[0]) =~= seq![old[0].item.id] + list_ids(old[0].children@));
        lemma_head_ids_multiset(new[0]);
        lemma_head_ids_multiset(old[0]);
        let th = Multiset::<usize>::empty().insert(old[0].item.id);
        let tc_new = list_ids(new[0].children@).to_multiset();
        let tc_old = list_ids(old[0].children@).to_multiset();
        assert(tc_new.add(tn) == tc_old);
        assert(list_ids(new).to_multiset().add(tn) =~= (th.add(tc_new).add(tr)).add(tn));
        assert((th.add(tc_new).add(tr)).add(tn) =~= th.add(tc_new.add(tn)).add(tr));
        assert(list_ids(old).to_multiset() =~= th.add(tc_old).add(tr));
    } else if subtree_ids(old[0]).contains(target) {
        lemma_removes_from_ids(old[0].children@, new[0].children@, n, target, k);
        lemma_head_ids_multiset(new[0]);
        lemma_head_ids_multiset(old[0]);
        let th = Multiset::<usize>::empty().insert(old[0].item.id);
        let tc_new = list_ids(new[0].children@).to_multiset();
        let tc_old = list_ids(old[0].children@).to_multiset();
        assert(tc_new.add(tn) == tc_old);
        assert(list_ids(new).to_multiset().add(tn) =~= (th.add(tc_new).add(tr)).add(tn));
        assert((th.add(tc_new).add(tr)).add(tn) =~= th.add(tc_new.add(tn)).add(tr));
        assert(list_ids(old).to_multiset() =~= th.add(tc_old).add(tr));
    } else {
        lemma_removes_from_ids(old.drop_first(), new.drop_first(), n, target, k);
        let th = subtree_ids(old[0]).to_multiset();
        let tr_new = list_ids(new.drop_first()).to_multiset();
        assert(tr_new.add(tn) == tr);
        assert(list_ids(new).to_multiset().add(tn) =~= (th.add(tr_new)).add(tn));
        assert((th.add(tr_new)).add(tn) =~= th.add(tr_new.add(tn)));
        assert(list_ids(old).to_multiset() =~= th.add(tr));
    }
}

/// The subtree's identifiers are its head followed by its children's, as
/// multisets.
proof fn lemma_head_ids_multiset(n: ItemList)
    ensures
        subtree_ids(n).to_multiset() == Multiset::<usize>::empty().insert(n.item.id).add(
            list_ids(n.children@).to_multiset(),
        ),
{
    broadcast use vstd::seq_lib::group_to_multiset_ensures;

    let e = Seq::<usize>::empty();
    assert(e.to_multiset() =~= Multiset::<usize>::empty()) by {
        assert forall|a: usize| e.to_multiset().count(a) == 0 by {
            assert(!e.contains(a));
        }
    }
    assert(seq![n.item.id] =~= e.push(n.item.id));
    assert(seq![n.item.id].to_multiset() =~= Multiset::<usize>::empty().insert(n.item.id));
    assert(subtree_ids(n) == seq![n.item.id] + list_ids(n.children@));
    vstd::seq_lib::lemma_multiset_commutative(seq![n.item.id], list_ids(n.children@));
}

/// An insertion anywhere in the tree adds exactly the new subtree's
/// identifiers.
pub proof fn lemma_inserts_into_ids(
    old: Seq<ItemList>,
    new: Seq<ItemList>,
    x: ItemList,
    target: usize,
    k: int,
)
    requires
        inserts_into(old, new, x, target, k),
    ensures
        list_ids(new).to_multiset() == list_ids(old).to_multiset().add(
            subtree_ids(x).to_multiset(),
        ),
    decreases old,
{
    assert(old =~= seq![old[0]] + old.drop_first());
    assert(new =~= seq![new[0]] + new.drop_first());
    lemma_list_ids_concat(seq![old[0]], old.drop_first());
    lemma_list_ids_concat(seq![new[0]], new.drop_first());
    crate::tree::lemma_singleton_list(old[0], crate::tree::ListId::Root, 0);
    crate::tree::lemma_singleton_list(new[0], crate::tree::ListId::Root, 0);
    vstd::seq_lib::lemma_multiset_commutative(list_ids(seq![old[0]]), list_ids(old.drop_first()));
    vstd::seq_lib::lemma_multiset_commutative(list_ids(seq![new[0]]), list_ids(new.drop_first()));
    let tx = subtree_ids(x).to_multiset();
    let tr = list_ids(old.drop_first()).to_multiset();
    if old[0].item.id == target {
        lemma_seq_insert_ids(old[0].children@, k, x);
        lemma_head_ids_multiset(new[0]);
        lemma_head_ids_multiset(old[0]);
        let th = Multiset::<usize>::empty().insert(old[0].item.id);
        let tc_new = list_ids(new[0].children@).to_multiset();
        let tc_old = list_ids(old[0].children@).to_multiset();
        assert(tc_new == tc_old.add(tx));
        assert(list_ids(new).to_multiset() =~= th.add(tc_old.add(tx)).add(tr));
        assert(th.add(tc_old.add(tx)).add(tr) =~= (th.add(tc_old).add(tr)).add(tx));
        assert(list_ids(old).to_multiset().add(tx) =~= (th.add(tc_old).add(tr)).add(tx));
    } else if subtree_ids(old[0]).contains(target) {
        lemma_inserts_into_ids(old[0].children@, new[0].children@, x, target, k);
        lemma_head_ids_multiset(new[0]);
        lemma_head_ids_multiset(old[0]);
        let th = Multiset::<usize>::empty().insert(old[0].item.id);
        let tc_new = list_ids(new[0].children@).to_multiset();
        let tc_old = list_ids(old[0].children@).to_multiset();
        assert(tc_new == tc_old.add(tx));
        assert(list_ids(new).to_multiset() =~= th.add(tc_old.add(tx)).add(tr));
        assert(th.add(tc_old.add(tx)).add(tr) =~= (th.add(tc_old).add(tr)).add(tx));
        assert(list_ids(old).to_multiset().add(tx) =~= (th.add(tc_old).add(tr)).add(tx));
    } else {
        lemma_inserts_into_ids(old.drop_first(), new.drop_first(), x, target, k);
        let th = subtree_ids(old[0]).to_multiset();
        let tr_new = list_ids(new.drop_first()).to_multiset();
        assert(tr_new == tr.add(tx));
        assert(list_ids(new).to_multiset() =~= th.add(tr.add(tx)));
        assert(th.add(tr.add(tx)) =~= (th.add(tr)).add(tx));
        assert(list_ids(old).to_multiset().add(tx) =~= (th.add(tr)).add(tx));
    }
}

/// An append anywhere in the tree adds exactly the new subtree's
/// identifiers.
pub proof fn lemma_appends_onto_ids(
    old: Seq<ItemList>,
    new: Seq<ItemList>,
    x: ItemList,
    target: usize,
)
    requires
        appends_onto(old, new, x, target),
    ensures
        list_ids(new).to_multiset() == list_ids(old).to_multiset().add(
            subtree_ids(x).to_multiset(),
        ),
    decreases old,
{
    assert(old =~= seq![old[0]] + old.drop_first());
    assert(new =~= seq![new[0]] + new.drop_first());
    lemma_list_ids_concat(seq![old[0]], old.drop_first());
    lemma_list_ids_concat(seq![new[0]], new.drop_first());
    crate::tree::lemma_singleton_list(old[0], crate::tree::ListId::Root, 0);
    crate::tree::lemma_singleton_list(new[0], crate::tree::ListId::Root, 0);
    vstd::seq_lib::lemma_multiset_commutative(list_ids(seq![old[0]]), list_ids(old.drop_first()));
    vstd::seq_lib::lemma_multiset_commutative(list_ids(seq![new[0]]), list_ids(new.drop_first()));
    let tx = subtree_ids(x).to_multiset();
    let tr = list_ids(old.drop_first()).to_multiset();
    if old[0].item.id == target {
        assert(new[0].children@ == old[0].children@.insert(
            old[0].children@.len() as int,
            x,
        )) by {
            assert(old[0].children@.push(x) =~= old[0].children@.insert(
                old[0].children@.len() as int,
                x,
            ));
        }
        lemma_seq_insert_ids(old[0].children@, old[0].children@.len() as int, x);
        lemma_head_ids_multiset(new[0]);
        lemma_head_ids_multiset(old[0]);
        let th = Multiset::<usize>::empty().insert(old[0].item.id);
        let tc_new = list_ids(new[0].children@).to_multiset();
        let tc_old = list_ids(old[0].children@).to_multiset();
        assert(tc_new == tc_old.add(tx));
        assert(list_ids(new).to_multiset() =~= th.add(tc_old.add(tx)).add(tr));
        assert(th.add(tc_old.add(tx)).add(tr) =~= (th.add(tc_old).add(tr)).add(tx));
        assert(list_ids(old).to_multiset().add(tx) =~= (th.add(tc_old).add(tr)).add(tx));
    } else if subtree_ids(old[0]).contains(target) {
        lemma_appends_onto_ids(old[0].children@, new[0].children@, x, target);
        lemma_head_ids_multiset(new[0]);
        lemma_head_ids_multiset(old[0]);
        let th = Multiset::<usize>::empty().insert(old[0].item.id);
        let tc_new = list_ids(new[0].children@).to_multiset();
        let tc_old = list_ids(old[0].children@).to_multiset();
        assert(tc_new == tc_old.add(tx));
        assert(list_ids(new).to_multiset() =~= th.add(tc_old.add(tx)).add(tr));
        assert(th.add(tc_old.add(tx)).add(tr) =~= (th.add(tc_old).add(tr)).add(tx));
        assert(list_ids(old).to_multiset().add(tx) =~= (th.add(tc_old).add(tr)).add(tx));
    } else {
        lemma_appends_onto_ids(old.drop_first(), new.drop_first(), x, target);
        let th = subtree_ids(old[0]).to_multiset();
        let tr_new = list_ids(new.drop_first()).to_multiset();
        assert(tr_new == tr.add(tx));
        assert(list_ids(new).to_multiset() =~= th.add(tr.add(tx)));
        assert(th.add(tr.add(tx)) =~= (th.add(tr)).add(tx));
        assert(list_ids(old).to_multiset().add(tx) =~= (th.add(tr)).add(tx));
    }
}

/// A removal never takes out the node that owns the list removed from, so
/// the owner is still there afterwards.
pub proof fn lemma_removes_keeps_target(
    old: Seq<ItemList>,
    new: Seq<ItemList>,
    n: ItemList,
    target: usize,
    k: int,
)
    requires
        removes_from(old, new, n, target, k),
    ensures
        list_ids(new).contains(target),
    decreases old,
{
    assert(new =~= seq![new[0]] + new.drop_first());
    lemma_list_ids_concat(seq![new[0]], new.drop_first());
    crate::tree::lemma_singleton_list(new[0], crate::tree::ListId::Root, 0);
    if old[0].item.id == target {
        assert(subtree_ids(new[0])[0] == target);
        assert(list_ids(new)[0] == target);
    } else if subtree_ids(old[0]).contains(target) {
        lemma_removes_keeps_target(old[0].children@, new[0].children@, n, target, k);
        let j = choose|j: int|
            0 <= j < list_ids(new[0].children@).len() && list_ids(new[0].children@)[j] == target;
        assert(subtree_ids(new[0]) == seq![new[0].item.id] + list_ids(new[0].children@));
        assert(subtree_ids(new[0])[1 + j] == target);
        assert(list_ids(new)[1 + j] == target);
    } else {
        lemma_removes_keeps_target(old.drop_first(), new.drop_first(), n, target, k);
        let j = choose|j: int|
            0 <= j < list_ids(new.drop_first()).len() && list_ids(new.drop_first())[j] == target;
        assert(list_ids(new)[subtree_ids(new[0]).len() + j] == target);
    }
}

/// After a removal, the removed node fits back in at the place it came from.
pub proof fn lemma_removes_then_insertable(
    old: Seq<ItemList>,
    new: Seq<ItemList>,
    n: ItemList,
    target: usize,
    k: int,
)
    requires
        removes_from(old, new, n, target, k),
    ensures
        insertable(new, target, k),
    decreases old,
{
    if old[0].item.id == target {
        assert(new[0].item.id == target);
    } else if subtree_ids(old[0]).contains(target) {
        lemma_removes_then_insertable(old[0].children@, new[0].children@, n, target, k);
        lemma_removes_keeps_target(old[0].children@, new[0].children@, n, target, k);
        let j = choose|j: int|
            0 <= j < list_ids(new[0].children@).len() && list_ids(new[0].children@)[j] == target;
        assert(subtree_ids(new[0]) == seq![new[0].item.id] + list_ids(new[0].children@));
        assert(subtree_ids(new[0])[1 + j] == target);
        assert(subtree_ids(new[0]).contains(target));
        assert(new[0].item.id == old[0].item.id);
        assert(subtree_ids(old[0])[0] == old[0].item.id);
    } else {
        lemma_removes_then_insertable(old.drop_first(), new.drop_first(), n, target, k);
        assert(new[0] == old[0]);
        assert(subtree_ids(old[0])[0] == old[0].item.id);
    }
}

/// Putting the removed node back where it came from restores the original
/// tree.
pub proof fn lemma_remove_insert_undo(
    old: Seq<ItemList>,
    mid: Seq<ItemList>,
    fin: Seq<ItemList>,
    n: ItemList,
    target: usize,
    k: int,
)
    requires
        removes_from(old, mid, n, target, k),
        inserts_into(mid, fin, n, target, k),
    ensures
        list_eq(fin, old),
    decreases old,
{
    if old[0].item.id == target {
        assert(mid[0].item.id == target);
        assert(fin[0].children@ == mid[0].children@.insert(k, n));
        assert(fin[0].children@ =~= old[0].children@);
        lemma_list_eq_refl(old[0].children@);
        assert(tree_eq(fin[0], old[0]));
        assert forall|j: int| 0 <= j < fin.len() implies tree_eq(#[trigger] fin[j], old[j]) by {
            if j != 0 {
                assert(fin[j] == fin.drop_first()[j - 1]);
                assert(old[j] == old.drop_first()[j - 1]);
                lemma_tree_eq_refl(fin[j]);
            }
        }
    } else if subtree_ids(old[0]).contains(target) {
        assert(mid[0].item.id == old[0].item.id);
        assert(subtree_ids(old[0])[0] == old[0].item.id);
        lemma_removes_keeps_target(old[0].children@, mid[0].children@, n, target, k);
        let j0 = choose|j: int|
            0 <= j < list_ids(mid[0].children@).len() && list_ids(mid[0].children@)[j] == target;
        assert(subtree_ids(mid[0]) == seq![mid[0].item.id] + list_ids(mid[0].children@));
        assert(subtree_ids(mid[0])[1 + j0] == target);
        assert(subtree_ids(mid[0]).contains(target));
        lemma_remove_insert_undo(old[0].children@, mid[0].children@, fin[0].children@, n, target, k);
        assert(tree_eq(fin[0], old[0]));
        assert forall|j: int| 0 <= j < fin.len() implies tree_eq(#[trigger] fin[j], old[j]) by {
            if j != 0 {
                assert(fin[j] == fin.drop_first()[j - 1]);
                assert(old[j] == old.drop_first()[j - 1]);
                lemma_tree_eq_refl(fin[j]);
            }
        }
    } else {
        assert(mid[0] == old[0]);
        assert(subtree_ids(old[0])[0] == old[0].item.id);
        assert(old[0].item.id != target);
        lemma_remove_insert_undo(old.drop_first(), mid.drop_first(), fin.drop_first(), n, target, k);
        assert forall|j: int| 0 <= j < fin.len() implies tree_eq(#[trigger] fin[j], old[j]) by {
            if j == 0 {
                lemma_tree_eq_refl(fin[0]);
            } else {
                assert(fin[j] == fin.drop_first()[j - 1]);
                assert(old[j] == old.drop_first()[j - 1]);
                assert(tree_eq(fin.drop_first()[j - 1], old.drop_first()[j - 1]));
            }
        }
    }
}

/// Whatever a removal left behind, the removal was possible.
pub proof fn lemma_removes_from_removable(
    old: Seq<ItemList>,
    new: Seq<ItemList>,
    n: ItemList,
    target: usize,
    k: int,
)
    requires
        removes_from(old, new, n, target, k),
    ensures
        removable(old, target, k),
    decreases old,
{
    if old[0].item.id == target {
    } else if subtree_ids(old[0]).contains(target) {
        lemma_removes_from_removable(old[0].children@, new[0].children@, n, target, k);
    } else {
        lemma_removes_from_removable(old.drop_first(), new.drop_first(), n, target, k);
    }
}

/// A removal is determined by its place: any two trees it can leave behind
/// are indistinguishable, and the removed entry is the same.
pub proof fn lemma_removes_from_unique(
    old: Seq<ItemList>,
    m1: Seq<ItemList>,
    n1: ItemList,
    m2: Seq<ItemList>,
    n2: ItemList,
    target: usize,
    k: int,
)
    requires
        removes_from(old, m1, n1, target, k),
        removes_from(old, m2, n2, target, k),
    ensures
        n1 == n2,
        list_eq(m1, m2),
    decreases old,
{
    if old[0].item.id == target {
        assert(m1[0].children@ == m2[0].children@);
        lemma_list_eq_refl(m1[0].children@);
        assert(tree_eq(m1[0], m2[0]));
        assert forall|j: int| 0 <= j < m1.len() implies tree_eq(#[trigger] m1[j], m2[j]) by {
            if j != 0 {
                assert(m1[j] == m1.drop_first()[j - 1]);
                assert(m2[j] == m2.drop_first()[j - 1]);
                lemma_tree_eq_refl(m1[j]);
            }
        }
    } else if subtree_ids(old[0]).contains(target) {
        lemma_removes_from_unique(
            old[0].children@,
            m1[0].children@,
            n1,
            m2[0].children@,
            n2,
            target,
            k,
        );
        assert(tree_eq(m1[0], m2[0]));
        assert forall|j: int| 0 <= j < m1.len() implies tree_eq(#[trigger] m1[j], m2[j]) by {
            if j != 0 {
                assert(m1[j] == m1.drop_first()[j - 1]);
                assert(m2[j] == m2.drop_first()[j - 1]);
                lemma_tree_eq_refl(m1[j]);
            }
        }
    } else {
        lemma_removes_from_unique(
            old.drop_first(),
            m1.drop_first(),
            n1,
            m2.drop_first(),
            n2,
            target,
            k,
        );
        assert forall|j: int| 0 <= j < m1.len() implies tree_eq(#[trigger] m1[j], m2[j]) by {
            if j == 0 {
                lemma_tree_eq_refl(m1[0]);
            } else {
                assert(m1[j] == m1.drop_first()[j - 1]);
                assert(m2[j] == m2.drop_first()[j - 1]);
                assert(tree_eq(m1.drop_first()[j - 1], m2.drop_first()[j - 1]));
            }
        }
    }
}

/// Indistinguishable trees admit the same insertions.
pub proof fn lemma_insertable_list_eq(a: Seq<ItemList>, b: Seq<ItemList>, target: usize, k: int)
    requires
        list_eq(a, b),
    ensures
        insertable(a, target, k) == insertable(b, target, k),
    decreases a,
{
    if a.len() != 0 {
        crate::tree::lemma_tree_eq_same_tree(a[0], b[0]);
        crate::tree::lemma_same_tree_ids(a[0], b[0]);
        lemma_insertable_list_eq(a[0].children@, b[0].children@, target, k);
        assert(list_eq(a.drop_first(), b.drop_first()));
        lemma_insertable_list_eq(a.drop_first(), b.drop_first(), target, k);
    }
}

/// Indistinguishable trees admit the same appends.
pub proof fn lemma_appendable_list_eq(a: Seq<ItemList>, b: Seq<ItemList>, target: usize)
    requires
        list_eq(a, b),
    ensures
        appendable(a, target) == appendable(b, target),
    decreases a,
{
    if a.len() != 0 {
        crate::tree::lemma_tree_eq_same_tree(a[0], b[0]);
        crate::tree::lemma_same_tree_ids(a[0], b[0]);
        lemma_appendable_list_eq(a[0].children@, b[0].children@, target);
        assert(list_eq(a.drop_first(), b.drop_first()));
        lemma_appendable_list_eq(a.drop_first(), b.drop_first(), target);
    }
}

/// A tree that holds `y` anywhere can take an append onto `y`'s list.
pub proof fn lemma_appendable_of_contains(s: Seq<ItemList>, y: usize)
    requires
        list_ids(s).contains(y),
    ensures
        appendable(s, y),
    decreases s,
{
    assert(list_ids(s) == subtree_ids(s[0]) + list_ids(s.drop_first()));
    if s[0].item.id == y {
    } else if subtree_ids(s[0]).contains(y) {
        assert(subtree_ids(s[0]) == seq![s[0].item.id] + list_ids(s[0].children@));
        let j = choose|j: int| 0 <= j < subtree_ids(s[0]).len() && subtree_ids(s[0])[j] == y;
        assert(j >= 1);
        assert(list_ids(s[0].children@)[j - 1] == y);
        lemma_appendable_of_contains(s[0].children@, y);
    } else {
        let j = choose|j: int| 0 <= j < list_ids(s).len() && list_ids(s)[j] == y;
        assert(j >= subtree_ids(s[0]).len());
        assert(list_ids(s.drop_first())[j - subtree_ids(s[0]).len()] == y);
        lemma_appendable_of_contains(s.drop_first(), y);
    }
}

/// Taking one element out of a sibling list does not disturb insertions
/// into any list the element's subtree does not hold.
pub proof fn lemma_remove_elem_insertable(c: Seq<ItemList>, i: int, y: usize, k: int)
    requires
        0 <= i < c.len(),
        !subtree_ids(c[i]).contains(y),
    ensures
        insertable(c.remove(i), y, k) == insertable(c, y, k),
        appendable(c.remove(i), y) == appendable(c, y),
    decreases c,
{
    assert(subtree_ids(c[i])[0] == c[i].item.id);
    if i == 0 {
        assert(c.remove(0) =~= c.drop_first());
    } else {
        assert(c.remove(i)[0] == c[0]);
        assert(c.remove(i).drop_first() =~= c.drop_first().remove(i - 1));
        lemma_remove_elem_insertable(c.drop_first(), i - 1, y, k);
        assert(c.drop_first()[i - 1] == c[i]);
    }
}

/// Whether the identifier occurs, read off the multiset of identifiers.
proof fn lemma_ids_contains_of_multiset(a: Seq<usize>, b: Seq<usize>, y: usize)
    requires
        a.to_multiset() == b.to_multiset(),
    ensures
        a.contains(y) == b.contains(y),
{
    broadcast use vstd::seq_lib::group_to_multiset_ensures;

    assert(a.contains(y) == (a.to_multiset().count(y) > 0));
    assert(b.contains(y) == (b.to_multiset().count(y) > 0));
}

/// A removal elsewhere does not disturb insertions into a list that neither
/// the removed subtree holds nor the removal touched.
pub proof fn lemma_removes_from_insertable(
    old: Seq<ItemList>,
    mid: Seq<ItemList>,
    n: ItemList,
    ts: usize,
    ks: int,
    y: usize,
    k: int,
)
    requires
        removes_from(old, mid, n, ts, ks),
        y != ts,
        !subtree_ids(n).contains(y),
    ensures
        insertable(mid, y, k) == insertable(old, y, k),
        appendable(mid, y) == appendable(old, y),
    decreases old,
{
    broadcast use vstd::seq_lib::group_to_multiset_ensures;

    assert(subtree_ids(old[0])[0] == old[0].item.id);
    assert(subtree_ids(mid[0])[0] == mid[0].item.id);
    assert(subtree_ids(old[0]) == seq![old[0].item.id] + list_ids(old[0].children@));
    assert(subtree_ids(mid[0]) == seq![mid[0].item.id] + list_ids(mid[0].children@));
    if old[0].item.id == ts {
        // the shortened list is the head's own; `y`'s node is elsewhere
        lemma_seq_remove_ids(old[0].children@, ks);
        vstd::seq_lib::lemma_multiset_commutative(list_ids(mid[0].children@), subtree_ids(n));
        lemma_ids_contains_of_multiset(
            list_ids(mid[0].children@) + subtree_ids(n),
            list_ids(old[0].children@),
            y,
        );
        lemma_contains_split(list_ids(mid[0].children@), subtree_ids(n), y);
        lemma_contains_split(seq![old[0].item.id], list_ids(old[0].children@), y);
        lemma_contains_split(seq![mid[0].item.id], list_ids(mid[0].children@), y);
        if subtree_ids(old[0]).contains(y) {
            lemma_remove_elem_insertable(old[0].children@, ks, y, k);
        }
    } else if subtree_ids(old[0]).contains(ts) {
        lemma_removes_from_ids(old[0].children@, mid[0].children@, n, ts, ks);
        vstd::seq_lib::lemma_multiset_commutative(list_ids(mid[0].children@), subtree_ids(n));
        lemma_ids_contains_of_multiset(
            list_ids(mid[0].children@) + subtree_ids(n),
            list_ids(old[0].children@),
            y,
        );
        lemma_contains_split(list_ids(mid[0].children@), subtree_ids(n), y);
        lemma_contains_split(seq![old[0].item.id], list_ids(old[0].children@), y);
        lemma_contains_split(seq![mid[0].item.id], list_ids(mid[0].children@), y);
        if subtree_ids(old[0]).contains(y) {
            lemma_removes_from_insertable(old[0].children@, mid[0].children@, n, ts, ks, y, k);
        }
    } else {
        lemma_removes_from_insertable(old.drop_first(), mid.drop_first(), n, ts, ks, y, k);
    }
}

/// Membership in a concatenation, in both directions.
proof fn lemma_contains_split(a: Seq<usize>, b: Seq<usize>, y: usize)
    ensures
        (a + b).contains(y) == (a.contains(y) || b.contains(y)),
{
    if a.contains(y) {
        let j = choose|j: int| 0 <= j < a.len() && a[j] == y;
        assert((a + b)[j] == y);
    }
    if b.contains(y) {
        let j = choose|j: int| 0 <= j < b.len() && b[j] == y;
        assert((a + b)[a.len() + j] == y);
    }
    if (a + b).contains(y) {
        let j = choose|j: int| 0 <= j < (a + b).len() && (a + b)[j] == y;
        if j < a.len() {
            assert(a[j] == y);
        } else {
            assert(b[j - a.len()] == y);
        }
    }
}

/// Taking an entry out of a list leaves room to put one back anywhere in
/// that same list.
pub proof fn lemma_removes_from_same_list_insertable(
    old: Seq<ItemList>,
    mid: Seq<ItemList>,
    n: ItemList,
    ts: usize,
    ks: int,
    k: int,
)
    requires
        removes_from(old, mid, n, ts, ks),
        removable(old, ts, k),
    ensures
        insertable(mid, ts, k),
    decreases old,
{
    assert(subtree_ids(old[0])[0] == old[0].item.id);
    if old[0].item.id == ts {
        assert(mid[0].item.id == ts);
    } else if subtree_ids(old[0]).contains(ts) {
        lemma_removes_keeps_target(old[0].children@, mid[0].children@, n, ts, ks);
        let j = choose|j: int|
            0 <= j < list_ids(mid[0].children@).len() && list_ids(mid[0].children@)[j] == ts;
        assert(subtree_ids(mid[0]) == seq![mid[0].item.id] + list_ids(mid[0].children@));
        assert(subtree_ids(mid[0])[1 + j] == ts);
        lemma_removes_from_same_list_insertable(
            old[0].children@,
            mid[0].children@,
            n,
            ts,
            ks,
            k,
        );
    } else {
        assert(mid[0] == old[0]);
        lemma_removes_from_same_list_insertable(
            old.drop_first(),
            mid.drop_first(),
            n,
            ts,
            ks,
            k,
        );
    }
}

/// A removal keeps the list it removed from, so an append onto it still
/// lands.
pub proof fn lemma_removes_from_same_list_appendable(
    old: Seq<ItemList>,
    mid: Seq<ItemList>,
    n: ItemList,
    ts: usize,
)
    requires
        exists|k: int| removes_from(old, mid, n, ts, k),
    ensures
        appendable(mid, ts),
{
    let k = choose|k: int| removes_from(old, mid, n, ts, k);
    lemma_removes_keeps_target(old, mid, n, ts, k);
    lemma_appendable_of_contains(mid, ts);
}

/// An identifier in the flattened ids of a prefix is in the flattened ids of
/// the whole list.
proof fn lemma_ids_prefix_contains(s: Seq<ItemList>, i: int, target: usize)
    requires
        0 <= i <= s.len(),
        list_ids(s.take(i)).contains(target),
    ensures
        list_ids(s).contains(target),
{
    assert(s =~= s.take(i) + s.skip(i));
    lemma_list_ids_concat(s.take(i), s.skip(i));
    let j = choose|j: int|
        0 <= j < list_ids(s.take(i)).len() && list_ids(s.take(i))[j] == target;
    assert(list_ids(s)[j] == target);
}


/// Whether there is an entry to remove at `k` of `target`'s list.
pub fn check_removable(s: &Vec<ItemList>, target: usize, k: usize) -> (r: bool)
    ensures
        r == removable(s@, target, k as int),
    decreases s@,
{
    proof {
        assert(s@.skip(0) =~= s@);
    }
    let mut i: usize = 0;
    while i < s.len()
        invariant
            0 <= i <= s@.len(),
            removable(s@, target, k as int) == removable(s@.skip(i as int), target, k as int),
        decreases s@.len() - i,
    {
        let ghost ii = i as int;
        let ghost rest = s@.skip(ii);
        proof {
            assert(rest[0] == s@[ii]);
            assert(rest.drop_first() =~= s@.skip(ii + 1));
        }
        if s[i].item.id == target {
            return k < s[i].children.len();
        }
        let found = contains_id(&s[i], target);
        if found {
            proof {
                assert(decreases_to!(s@ => s@[ii]));
                assert(decreases_to!(s@[ii] => s@[ii].children));
                assert(decreases_to!(s@[ii].children => s@[ii].children@));
            }
            return check_removable(&s[i].children, target, k);
        }
        proof {
            assert(subtree_ids(s@[ii])[0] == s@[ii].item.id);
        }
        i = i + 1;
    }
    proof {
        assert(s@.skip(i as int) =~= Seq::<ItemList>::empty());
    }
    false
}

/// Whether `x` could be spliced in at `k` of `target`'s list.
pub fn check_insertable(s: &Vec<ItemList>, target: usize, k: usize) -> (r: bool)
    ensures
        r == insertable(s@, target, k as int),
    decreases s@,
{
    proof {
        assert(s@.skip(0) =~= s@);
    }
    let mut i: usize = 0;
    while i < s.len()
        invariant
            0 <= i <= s@.len(),
            insertable(s@, target, k as int) == insertable(s@.skip(i as int), target, k as int),
        decreases s@.len() - i,
    {
        let ghost ii = i as int;
        let ghost rest = s@.skip(ii);
        proof {
            assert(rest[0] == s@[ii]);
            assert(rest.drop_first() =~= s@.skip(ii + 1));
        }
        if s[i].item.id == target {
            return k <= s[i].children.len();
        }
        let found = contains_id(&s[i], target);
        if found {
            proof {
                assert(decreases_to!(s@ => s@[ii]));
                assert(decreases_to!(s@[ii] => s@[ii].children));
                assert(decreases_to!(s@[ii].children => s@[ii].children@));
            }
            return check_insertable(&s[i].children, target, k);
        }
        proof {
            assert(subtree_ids(s@[ii])[0] == s@[ii].item.id);
        }
        i = i + 1;
    }
    proof {
        assert(s@.skip(i as int) =~= Seq::<ItemList>::empty());
    }
    false
}

/// Whether there is a list owned by `target` to append onto.
pub fn check_appendable(s: &Vec<ItemList>, target: usize) -> (r: bool)
    ensures
        r == appendable(s@, target),
    decreases s@,
{
    proof {
        assert(s@.skip(0) =~= s@);
    }
    let mut i: usize = 0;
    while i < s.len()
        invariant
            0 <= i <= s@.len(),
            appendable(s@, target) == appendable(s@.skip(i as int), target),
        decreases s@.len() - i,
    {
        let ghost ii = i as int;
        let ghost rest = s@.skip(ii);
        proof {
            assert(rest[0] == s@[ii]);
            assert(rest.drop_first() =~= s@.skip(ii + 1));
        }
        if s[i].item.id == target {
            return true;
        }
        let found = contains_id(&s[i], target);
        if found {
            proof {
                assert(decreases_to!(s@ => s@[ii]));
                assert(decreases_to!(s@[ii] => s@[ii].children));
                assert(decreases_to!(s@[ii].children => s@[ii].children@));
            }
            return check_appendable(&s[i].children, target);
        }
        proof {
            assert(subtree_ids(s@[ii])[0] == s@[ii].item.id);
        }
        i = i + 1;
    }
    proof {
        assert(s@.skip(i as int) =~= Seq::<ItemList>::empty());
    }
    false
}

/// Removes entry `k` from the list owned by the first pre-order node
/// carrying `target`, leaving every other node untouched.
pub fn do_remove(s: &mut Vec<ItemList>, target: usize, k: usize) -> (n: ItemList)
    requires
        removable(old(s)@, target, k as int),
    ensures
        removes_from(old(s)@, final(s)@, n, target, k as int),
    decreases old(s)@,
{
    let mut i: usize = 0;
    proof {
        assert(old(s)@.skip(0) =~= old(s)@);
    }
    while i < s.len()
        invariant
            0 <= i <= s@.len(),
            s@ == old(s)@,
            forall|j: int| 0 <= j < i ==> !subtree_ids(#[trigger] s@[j]).contains(target),
            removable(old(s)@.skip(i as int), target, k as int),
        decreases s@.len() - i,
    {
        let ghost ii = i as int;
        let ghost rest = old(s)@.skip(ii);
        proof {
            assert(rest[0] == old(s)@[ii]);
            assert(rest.drop_first() =~= old(s)@.skip(ii + 1));
        }
        if s[i].item.id == target {
            let mut node = s.remove(i);
            proof {
                assert(node == old(s)@[ii]);
                assert(k < node.children@.len());
            }
            let ghost node_before = node;
            let x = node.children.remove(k);
            let ghost node_new = node;
            proof {
                assert(node_new.children@ == node_before.children@.remove(k as int));
                assert(x == node_before.children@[k as int]);
            }
            s.insert(i, node);
            proof {
                assert(s@ =~= old(s)@.update(ii, node_new));
                assert(s@.skip(ii)[0] == node_new);
                assert(s@.skip(ii).drop_first() =~= old(s)@.skip(ii + 1));
                assert(s@.skip(ii).len() == rest.len());
                assert(same_node_fields(rest[0], node_new));
                assert(rest[0].item.id == target);
                assert(removes_from(old(s)@.skip(ii), s@.skip(ii), x, target, k as int));
                lemma_removes_from_frame(old(s)@, s@, x, target, k as int, ii);
            }
            return x;
        }
        let found = contains_id(&s[i], target);
        if found {
            proof {
                assert(decreases_to!(old(s)@ => old(s)@[ii]));
                assert(decreases_to!(old(s)@[ii] => old(s)@[ii].children));
                assert(decreases_to!(old(s)@[ii].children => old(s)@[ii].children@));
            }
            let mut node = s.remove(i);
            let x = do_remove(&mut node.children, target, k);
            let ghost node_new = node;
            s.insert(i, node);
            proof {
                assert(s@ =~= old(s)@.update(ii, node_new));
                assert(s@.skip(ii)[0] == node_new);
                assert(s@.skip(ii).drop_first() =~= old(s)@.skip(ii + 1));
                assert(removes_from(old(s)@.skip(ii), s@.skip(ii), x, target, k as int));
                lemma_removes_from_frame(old(s)@, s@, x, target, k as int, ii);
            }
            return x;
        }
        proof {
            assert(subtree_ids(old(s)@[ii])[0] == old(s)@[ii].item.id);
        }
        i = i + 1;
    }
    proof {
        assert(old(s)@.skip(i as int) =~= Seq::<ItemList>::empty());
        assert(false);
    }
    unreached()
}

/// Splices `x` in at index `k` of the list owned by the first pre-order node
/// carrying `target`, leaving every other node untouched.
pub fn do_insert(s: &mut Vec<ItemList>, target: usize, k: usize, x: ItemList)
    requires
        insertable(old(s)@, target, k as int),
    ensures
        inserts_into(old(s)@, final(s)@, x, target, k as int),
    decreases old(s)@,
{
    let mut i: usize = 0;
    proof {
        assert(old(s)@.skip(0) =~= old(s)@);
    }
    while i < s.len()
        invariant
            0 <= i <= s@.len(),
            s@ == old(s)@,
            forall|j: int| 0 <= j < i ==> !subtree_ids(#[trigger] s@[j]).contains(target),
            insertable(old(s)@.skip(i as int), target, k as int),
        decreases s@.len() - i,
    {
        let ghost ii = i as int;
        let ghost rest = old(s)@.skip(ii);
        proof {
            assert(rest[0] == old(s)@[ii]);
            assert(rest.drop_first() =~= old(s)@.skip(ii + 1));
        }
        if s[i].item.id == target {
            let mut node = s.remove(i);
            proof {
                assert(node == old(s)@[ii]);
                assert(k <= node.children@.len());
            }
            let ghost node_before = node;
            node.children.insert(k, x);
            let ghost node_new = node;
            proof {
                assert(node_new.children@ == node_before.children@.insert(k as int, x));
            }
            s.insert(i, node);
            proof {
                assert(s@ =~= old(s)@.update(ii, node_new));
                assert(s@.skip(ii)[0] == node_new);
                assert(s@.skip(ii).drop_first() =~= old(s)@.skip(ii + 1));
                assert(s@.skip(ii).len() == rest.len());
                assert(same_node_fields(rest[0], node_new));
                assert(rest[0].item.id == target);
                assert(inserts_into(old(s)@.skip(ii), s@.skip(ii), x, target, k as int));
                lemma_inserts_into_frame(old(s)@, s@, x, target, k as int, ii);
            }
            return ;
        }
        let found = contains_id(&s[i], target);
        if found {
            proof {
                assert(decreases_to!(old(s)@ => old(s)@[ii]));
                assert(decreases_to!(old(s)@[ii] => old(s)@[ii].children));
                assert(decreases_to!(old(s)@[ii].children => old(s)@[ii].children@));
            }
            let mut node = s.remove(i);
            do_insert(&mut node.children, target, k, x);
            let ghost node_new = node;
            s.insert(i, node);
            proof {
                assert(s@ =~= old(s)@.update(ii, node_new));
                assert(s@.skip(ii)[0] == node_new);
                assert(s@.skip(ii).drop_first() =~= old(s)@.skip(ii + 1));
                assert(inserts_into(old(s)@.skip(ii), s@.skip(ii), x, target, k as int));
                lemma_inserts_into_frame(old(s)@, s@, x, target, k as int, ii);
            }
            return ;
        }
        proof {
            assert(subtree_ids(old(s)@[ii])[0] == old(s)@[ii].item.id);
        }
        i = i + 1;
    }
    proof {
        assert(old(s)@.skip(i as int) =~= Seq::<ItemList>::empty());
        assert(false);
    }
}

/// Pushes `x` onto the end of the list owned by the first pre-order node
/// carrying `target`, leaving every other node untouched.
pub fn do_append(s: &mut Vec<ItemList>, target: usize, x: ItemList)
    requires
        appendable(old(s)@, target),
    ensures
        appends_onto(old(s)@, final(s)@, x, target),
    decreases old(s)@,
{
    let mut i: usize = 0;
    proof {
        assert(old(s)@.skip(0) =~= old(s)@);
    }
    while i < s.len()
        invariant
            0 <= i <= s@.len(),
            s@ == old(s)@,
            forall|j: int| 0 <= j < i ==> !subtree_ids(#[trigger] s@[j]).contains(target),
            appendable(old(s)@.skip(i as int), target),
        decreases s@.len() - i,
    {
        let ghost ii = i as int;
        let ghost rest = old(s)@.skip(ii);
        proof {
            assert(rest[0] == old(s)@[ii]);
            assert(rest.drop_first() =~= old(s)@.skip(ii + 1));
        }
        if s[i].item.id == target {
            let mut node = s.remove(i);
            proof {
                assert(node == old(s)@[ii]);
            }
            let ghost node_before = node;
            node.children.push(x);
            let ghost node_new = node;
            proof {
                assert(node_new.children@ == node_before.children@.push(x));
            }
            s.insert(i, node);
            proof {
                assert(s@ =~= old(s)@.update(ii, node_new));
                assert(s@.skip(ii)[0] == node_new);
                assert(s@.skip(ii).drop_first() =~= old(s)@.skip(ii + 1));
                assert(s@.skip(ii).len() == rest.len());
                assert(same_node_fields(rest[0], node_new));
                assert(rest[0].item.id == target);
                assert(appends_onto(old(s)@.skip(ii), s@.skip(ii), x, target));
                lemma_appends_onto_frame(old(s)@, s@, x, target, ii);
            }
            return ;
        }
        let found = contains_id(&s[i], target);
        if found {
            proof {
                assert(decreases_to!(old(s)@ => old(s)@[ii]));
                assert(decreases_to!(old(s)@[ii] => old(s)@[ii].children));
                assert(decreases_to!(old(s)@[ii].children => old(s)@[ii].children@));
            }
            let mut node = s.remove(i);
            do_append(&mut node.children, target, x);
            let ghost node_new = node;
            s.insert(i, node);
            proof {
                assert(s@ =~= old(s)@.update(ii, node_new));
                assert(s@.skip(ii)[0] == node_new);
                assert(s@.skip(ii).drop_first() =~= old(s)@.skip(ii + 1));
                assert(appends_onto(old(s)@.skip(ii), s@.skip(ii), x, target));
                lemma_appends_onto_frame(old(s)@, s@, x, target, ii);
            }
            return ;
        }
        proof {
            assert(subtree_ids(old(s)@[ii])[0] == old(s)@[ii].item.id);
        }
        i = i + 1;
    }
    proof {
        assert(old(s)@.skip(i as int) =~= Seq::<ItemList>::empty());
        assert(false);
    }
}

/// Removes entry `k` of `target`'s list if there is one; otherwise leaves
/// the tree exactly as it was.
pub fn remove_entry(s: &mut Vec<ItemList>, target: usize, k: usize) -> (r: Option<ItemList>)
    ensures
        r is Some <==> removable(old(s)@, target, k as int),
        match r {
            Some(n) => removes_from(old(s)@, final(s)@, n, target, k as int),
            None => final(s)@ == old(s)@,
        },
{
    if check_removable(s, target, k) {
        Some(do_remove(s, target, k))
    } else {
        None
    }
}

/// Splices `x` in at `k` of `target`'s list if there is such a place;
/// otherwise hands `x` back and leaves the tree exactly as it was.
pub fn insert_entry(s: &mut Vec<ItemList>, target: usize, k: usize, x: ItemList) -> (r: Option<
    ItemList,
>)
    ensures
        r is None <==> insertable(old(s)@, target, k as int),
        match r {
            None => inserts_into(old(s)@, final(s)@, x, target, k as int),
            Some(given_back) => final(s)@ == old(s)@ && given_back == x,
        },
{
    if check_insertable(s, target, k) {
        do_insert(s, target, k, x);
        None
    } else {
        Some(x)
    }
}

/// Pushes `x` onto `target`'s list if some node carries `target`; otherwise
/// hands `x` back and leaves the tree exactly as it was.
pub fn append_entry(s: &mut Vec<ItemList>, target: usize, x: ItemList) -> (r: Option<ItemList>)
    ensures
        r is None <==> appendable(old(s)@, target),
        match r {
            None => appends_onto(old(s)@, final(s)@, x, target),
            Some(given_back) => final(s)@ == old(s)@ && given_back == x,
        },
{
    if check_appendable(s, target) {
        do_append(s, target, x);
        None
    } else {
        Some(x)
    }
}

} // verus!
