use vstd::prelude::*;

verus! {

/// The sequence with the element at `from` moved to where a drag would drop
/// it: when `from < to` it lands at `to - 1` and the elements between shift
/// one place towards the front; when `to <= from` it lands at `to` and the
/// elements between shift one place towards the back. `from == to` changes
/// nothing.
pub open spec fn shifted<T>(s: Seq<T>, from: int, to: int) -> Seq<T> {
    if from < to {
        s.subrange(0, from) + s.subrange(from + 1, to) + seq![s[from]] + s.subrange(
            to,
            s.len() as int,
        )
    } else {
        s.subrange(0, to) + seq![s[from]] + s.subrange(to, from) + s.subrange(
            from + 1,
            s.len() as int,
        )
    }
}

/// Relies on `egui_dnd::utils::shift_vec` (reached as
/// `hello_egui::dnd::utils::shift_vec`): rotates the span between the two
/// indices by one, so that the element at `source_idx` ends up at
/// `target_idx - 1` when moving towards the end and at `target_idx`
/// otherwise. It panics outside the index bounds required here.
#[verifier::external_body]
pub fn shift_elements<T>(source_idx: usize, target_idx: usize, v: &mut Vec<T>)
    requires
        source_idx < old(v).len(),
        target_idx <= old(v).len(),
    ensures
        final(v)@ == shifted(old(v)@, source_idx as int, target_idx as int),
{
    hello_egui::dnd::utils::shift_vec(source_idx, target_idx, v);
}

/// Moving an element to its own position changes nothing.
pub proof fn lemma_shifted_self<T>(s: Seq<T>, i: int)
    requires
        0 <= i < s.len(),
    ensures
        shifted(s, i, i) == s,
{
    assert(shifted(s, i, i) =~= s);
}

/// A shift keeps exactly the original elements.
pub proof fn lemma_shifted_multiset<T>(s: Seq<T>, from: int, to: int)
    requires
        0 <= from < s.len(),
        0 <= to <= s.len(),
    ensures
        shifted(s, from, to).to_multiset() == s.to_multiset(),
{
    if from < to {
        let a = s.subrange(0, from);
        let b = s.subrange(from + 1, to);
        let c = seq![s[from]];
        let d = s.subrange(to, s.len() as int);
        assert(s =~= a + (c + (b + d)));
        assert(shifted(s, from, to) =~= a + (b + (c + d)));
        vstd::seq_lib::lemma_multiset_commutative(a, c + (b + d));
        vstd::seq_lib::lemma_multiset_commutative(c, b + d);
        vstd::seq_lib::lemma_multiset_commutative(b, d);
        vstd::seq_lib::lemma_multiset_commutative(a, b + (c + d));
        vstd::seq_lib::lemma_multiset_commutative(b, c + d);
        vstd::seq_lib::lemma_multiset_commutative(c, d);
        assert(a.to_multiset().add(c.to_multiset().add(b.to_multiset().add(d.to_multiset())))
            =~= a.to_multiset().add(b.to_multiset().add(c.to_multiset().add(d.to_multiset()))));
    } else {
        let a = s.subrange(0, to);
        let c = seq![s[from]];
        let b = s.subrange(to, from);
        let d = s.subrange(from + 1, s.len() as int);
        assert(s =~= a + (b + (c + d)));
        assert(shifted(s, from, to) =~= a + (c + (b + d)));
        vstd::seq_lib::lemma_multiset_commutative(a, c + (b + d));
        vstd::seq_lib::lemma_multiset_commutative(c, b + d);
        vstd::seq_lib::lemma_multiset_commutative(b, d);
        vstd::seq_lib::lemma_multiset_commutative(a, b + (c + d));
        vstd::seq_lib::lemma_multiset_commutative(b, c + d);
        vstd::seq_lib::lemma_multiset_commutative(c, d);
        assert(a.to_multiset().add(c.to_multiset().add(b.to_multiset().add(d.to_multiset())))
            =~= a.to_multiset().add(b.to_multiset().add(c.to_multiset().add(d.to_multiset()))));
    }
}

/// Moves one element between (or within) two lists that the host draws as a
/// single drag container: the first list's entries come first, then
/// `num_elements_between` undraggable separator slots, then the second
/// list's entries. `from` and `to` are positions in that combined space.
pub fn move_elements_2<T>(
    list_1: &mut Vec<T>,
    list_2: &mut Vec<T>,
    from: usize,
    to: usize,
    num_elements_between: usize,
)
    requires
        ({
            let n1 = old(list_1).len() as int;
            let n2 = old(list_2).len() as int;
            let gap = num_elements_between as int;
            &&& (from < n1 ==> to <= n1 || (to >= n1 + gap && to - (n1 + gap) <= n2))
            &&& (from >= n1 ==> {
                &&& from >= n1 + gap
                &&& from - (n1 + gap) < n2
                &&& (to >= n1 + gap ==> to - (n1 + gap) <= n2)
                &&& (to < n1 + gap ==> to <= n1)
            })
        }),
    ensures
        ({
            let n1 = old(list_1)@.len() as int;
            let gap = num_elements_between as int;
            let o1 = old(list_1)@;
            let o2 = old(list_2)@;
            &&& (from < n1 && to <= n1 ==> final(list_1)@ == shifted(o1, from as int, to as int)
                && final(list_2)@ == o2)
            &&& (from < n1 && to > n1 ==> final(list_1)@ == o1.remove(from as int)
                && final(list_2)@ == o2.insert(to - (n1 + gap), o1[from as int]))
            &&& (from >= n1 && to >= n1 + gap ==> final(list_1)@ == o1 && final(list_2)@ == shifted(
                o2,
                from - (n1 + gap),
                to - (n1 + gap),
            ))
            &&& (from >= n1 && to < n1 + gap ==> final(list_2)@ == o2.remove(from - (n1 + gap))
                && final(list_1)@ == o1.insert(to as int, o2[from - (n1 + gap)]))
        }),
{
    let num_sorted_items = list_1.len();

    if from < num_sorted_items {
        if to <= num_sorted_items {
            shift_elements(from, to, list_1);
        } else {
            let removed_item = list_1.remove(from);
            list_2.insert(to - (num_sorted_items + num_elements_between), removed_item);
        }
    } else {
        let from_adj = from - (num_sorted_items + num_elements_between);
        if to >= num_sorted_items + num_elements_between {
            let to_adj = to - (num_sorted_items + num_elements_between);
            shift_elements(from_adj, to_adj, list_2);
        } else {
            let removed_item = list_2.remove(from_adj);
            list_1.insert(to, removed_item);
        }
    }
}

} // verus!
