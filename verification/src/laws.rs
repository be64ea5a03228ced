//! The runtime's cross-cutting guarantees, stated and proved over the
//! models that the update, poll and context contracts speak of.

use vstd::prelude::*;

use crate::component::{
    lemma_children_dirty_member,
    lemma_cleared_preserves,
    lemma_seq_count_bounds,
    lemma_seq_count_concat,
    lemma_tree_ids_children_remove,
    range_cnt,
    seq_count,
    spec_cleared,
    spec_reconcile,
    spec_tree_dirty,
    tree_ids,
    tree_ids_children,
    InstantiatedComponent,
};
use crate::context::{frame_tag, frame_value, top_index_matching, Context};
use crate::element::{spec_props_tag, AnyElement};
use crate::key::ElementKey;
use crate::multimap::first_index_of;

verus! {

/// Identity preservation: when a children list keeps its keys and types
/// across two updates, reconciliation matches the `j`-th element to the
/// `j`-th prior instance, drops nothing and leaves nothing unclaimed —
/// so, by the update contract, every instance's hook state is carried
/// over unchanged, whatever else its props say.
pub proof fn lemma_identity_preservation(
    keys: Seq<ElementKey>,
    items: Seq<InstantiatedComponent>,
    elems: Seq<AnyElement>,
)
    requires
        keys.len() == items.len(),
        elems.len() == keys.len(),
        forall|j: int| 0 <= j < elems.len() ==> (#[trigger] elems[j]).key == keys[j],
        forall|j: int|
            0 <= j < elems.len() ==> spec_props_tag((#[trigger] elems[j]).props)
                == items[j].props_tag,
    ensures
        forall|j: int|
            0 <= j < elems.len() ==> spec_reconcile(keys, items, elems).matched[j] == Some(
                items[j],
            ),
        spec_reconcile(keys, items, elems).dropped == Seq::<InstantiatedComponent>::empty(),
        spec_reconcile(keys, items, elems).left_items == Seq::<InstantiatedComponent>::empty(),
    decreases elems.len(),
{
    if elems.len() == 0 {
        assert(spec_reconcile(keys, items, elems).left_items =~= Seq::<
            InstantiatedComponent,
        >::empty());
        assert(items =~= Seq::<InstantiatedComponent>::empty());
    } else {
        let e = elems.first();
        assert(e.key == keys[0]);
        assert(first_index_of(keys, e.key) == 0);
        let keys1 = keys.remove(0);
        let items1 = items.remove(0);
        let elems1 = elems.drop_first();
        assert(keys1 =~= keys.drop_first());
        assert(items1 =~= items.drop_first());
        assert forall|j: int| 0 <= j < elems1.len() implies (#[trigger] elems1[j]).key
            == keys1[j] by {
            assert(elems1[j] == elems[j + 1]);
            assert(keys1[j] == keys[j + 1]);
        }
        assert forall|j: int| 0 <= j < elems1.len() implies spec_props_tag(
            (#[trigger] elems1[j]).props,
        ) == items1[j].props_tag by {
            assert(elems1[j] == elems[j + 1]);
            assert(items1[j] == items[j + 1]);
        }
        lemma_identity_preservation(keys1, items1, elems1);
        crate::component::lemma_reconcile_matched_len(keys1, items1, elems1);
        let m = spec_reconcile(keys, items, elems);
        let m1 = spec_reconcile(keys1, items1, elems1);
        assert(m.matched =~= seq![Some(items[0])] + m1.matched);
        assert forall|j: int| 0 <= j < elems.len() implies m.matched[j] == Some(items[j]) by {
            if j > 0 {
                assert(m.matched[j] == m1.matched[j - 1]);
                assert(items1[j - 1] == items[j]);
            }
        }
    }
}

/// FIFO duplicate-key matching: two elements that share a key, in
/// declaration order, take the first two instances queued under that key
/// in queue order — the first element the front instance, the second the
/// next one.
pub proof fn lemma_fifo_duplicate_matching(
    keys: Seq<ElementKey>,
    items: Seq<InstantiatedComponent>,
    elems: Seq<AnyElement>,
    k: ElementKey,
)
    requires
        keys.len() == items.len(),
        elems.len() >= 2,
        elems[0].key == k,
        elems[1].key == k,
        first_index_of(keys, k) != -1,
        items[first_index_of(keys, k)].props_tag == spec_props_tag(elems[0].props),
        first_index_of(keys.remove(first_index_of(keys, k)), k) != -1,
        items.remove(first_index_of(keys, k))[first_index_of(
            keys.remove(first_index_of(keys, k)),
            k,
        )].props_tag == spec_props_tag(elems[1].props),
    ensures
        spec_reconcile(keys, items, elems).matched[0] == Some(
            items[first_index_of(keys, k)],
        ),
        spec_reconcile(keys, items, elems).matched[1] == Some(
            items.remove(first_index_of(keys, k))[first_index_of(
                keys.remove(first_index_of(keys, k)),
                k,
            )],
        ),
{
    crate::multimap::lemma_first_index_from(keys, k, 0);
    let f0 = first_index_of(keys, k);
    let keys1 = keys.remove(f0);
    let items1 = items.remove(f0);
    crate::multimap::lemma_first_index_from(keys1, k, 0);
    let f1 = first_index_of(keys1, k);
    let m = spec_reconcile(keys, items, elems);
    let m1 = spec_reconcile(keys1, items1, elems.drop_first());
    crate::component::lemma_reconcile_matched_len(keys1, items1, elems.drop_first());
    assert(elems.first() == elems[0]);
    assert(m.matched =~= seq![Some(items[f0])] + m1.matched);
    assert(elems.drop_first().first() == elems[1]);
    let m2 = spec_reconcile(keys1.remove(f1), items1.remove(f1), elems.drop_first().drop_first());
    assert(m1.matched =~= seq![Some(items1[f1])] + m2.matched);
    assert(m.matched[1] == m1.matched[0]);
}

/// An instance whose key no element claims survives reconciliation into
/// the unclaimed leftovers.
pub proof fn lemma_unclaimed_stays(
    keys: Seq<ElementKey>,
    items: Seq<InstantiatedComponent>,
    elems: Seq<AnyElement>,
    i: int,
)
    requires
        keys.len() == items.len(),
        0 <= i < keys.len(),
        forall|j: int| 0 <= j < elems.len() ==> (#[trigger] elems[j]).key != keys[i],
    ensures
        exists|q: int|
            0 <= q < spec_reconcile(keys, items, elems).left_items.len() && spec_reconcile(
                keys,
                items,
                elems,
            ).left_items[q] == items[i],
    decreases elems.len(),
{
    if elems.len() == 0 {
        assert(spec_reconcile(keys, items, elems).left_items[i] == items[i]);
    } else {
        let e = elems.first();
        assert(e == elems[0]);
        let fi = first_index_of(keys, e.key);
        crate::multimap::lemma_first_index_from(keys, e.key, 0);
        if fi == -1 {
            assert forall|j: int| 0 <= j < elems.drop_first().len() implies (#[trigger] elems.drop_first()[j]).key
                != keys[i] by {
                assert(elems.drop_first()[j] == elems[j + 1]);
            }
            lemma_unclaimed_stays(keys, items, elems.drop_first(), i);
            assert(spec_reconcile(keys, items, elems).left_items == spec_reconcile(
                keys,
                items,
                elems.drop_first(),
            ).left_items);
        } else {
            assert(keys[fi] == e.key);
            assert(fi != i);
            let keys1 = keys.remove(fi);
            let items1 = items.remove(fi);
            keys.remove_ensures(fi);
            items.remove_ensures(fi);
            let i1 = if fi < i {
                i - 1
            } else {
                i
            };
            assert(keys1[i1] == keys[i]);
            assert(items1[i1] == items[i]);
            assert forall|j: int| 0 <= j < elems.drop_first().len() implies (#[trigger] elems.drop_first()[j]).key
                != keys1[i1] by {
                assert(elems.drop_first()[j] == elems[j + 1]);
            }
            lemma_unclaimed_stays(keys1, items1, elems.drop_first(), i1);
            assert(spec_reconcile(keys, items, elems).left_items == spec_reconcile(
                keys1,
                items1,
                elems.drop_first(),
            ).left_items);
        }
    }
}

/// A stored instance's identifier occurs in its row's identifier list.
pub proof fn lemma_tree_member_count(items: Seq<InstantiatedComponent>, q: int)
    requires
        0 <= q < items.len(),
    ensures
        seq_count(tree_ids_children(items), items[q].id) >= 1,
{
    let id = items[q].id;
    lemma_tree_ids_children_remove(items, q);
    let pre = tree_ids_children(items.take(q));
    let mid = tree_ids(items[q]);
    let post = tree_ids_children(items.remove(q).skip(q));
    lemma_seq_count_concat(pre, mid, id);
    lemma_seq_count_concat(pre + mid, post, id);
    assert(mid[0] == id);
    lemma_seq_count_bounds(mid, id);
    lemma_seq_count_bounds(pre, id);
    lemma_seq_count_bounds(post, id);
}

/// Teardown on key removal: when a key present in one update is absent
/// from the next, the corresponding instance's identifier enters the
/// teardown log exactly once, and leaves the tree for good — it is never
/// updated or drawn again. `new_items`, `delta`, `n0` and `n1` are the
/// reconciled children, the log growth and the identifier-counter bounds
/// that the update contract relates.
pub proof fn lemma_teardown_on_key_removal(
    keys: Seq<ElementKey>,
    items: Seq<InstantiatedComponent>,
    elems: Seq<AnyElement>,
    i: int,
    new_items: Seq<InstantiatedComponent>,
    delta: Seq<u64>,
    n0: int,
    n1: int,
)
    requires
        keys.len() == items.len(),
        0 <= i < keys.len(),
        forall|j: int| 0 <= j < elems.len() ==> (#[trigger] elems[j]).key != keys[i],
        // What the update contract guarantees about identifiers:
        forall|id: u64|
            seq_count(tree_ids_children(new_items), id) + seq_count(delta, id) == seq_count(
                tree_ids_children(items),
                id,
            ) + range_cnt(n0, n1, id),
        forall|id: u64|
            seq_count(tree_ids_children(spec_reconcile(keys, items, elems).left_items), id)
                <= seq_count(delta, id),
        // The tree's validity: identifiers are unique and were allocated
        // below the counter.
        forall|id: u64| seq_count(tree_ids_children(items), id) <= 1,
        forall|k: int|
            0 <= k < tree_ids_children(items).len() ==> tree_ids_children(items)[k] < n0,
    ensures
        seq_count(delta, items[i].id) == 1,
        seq_count(tree_ids_children(new_items), items[i].id) == 0,
{
    let id = items[i].id;
    lemma_unclaimed_stays(keys, items, elems, i);
    let left = spec_reconcile(keys, items, elems).left_items;
    let q = choose|q: int| 0 <= q < left.len() && left[q] == items[i];
    lemma_tree_member_count(left, q);
    lemma_tree_member_count(items, i);
    lemma_seq_count_bounds(tree_ids_children(new_items), id);
    lemma_seq_count_bounds(delta, id);
    assert(seq_count(tree_ids_children(items), id) == 1);
    assert(range_cnt(n0, n1, id) == 0) by {
        lemma_tree_ids_children_remove(items, i);
        assert(tree_ids(items[i])[0] == id);
        let pre = tree_ids_children(items.take(i));
        assert(tree_ids_children(items)[pre.len() as int] == id);
    }
}

/// Context shadowing: pushing a frame of some type makes lookups of that
/// type inside the subtree resolve to the pushed frame, and popping it
/// restores the stack, so lookups outside see the outer frame again.
pub proof fn lemma_context_shadowing(frames: Seq<Context>, inner: Context, tag: u64)
    requires
        frame_tag(inner) == tag,
    ensures
        top_index_matching(frames.push(inner), tag) == frames.len(),
        frame_value(frames.push(inner)[top_index_matching(frames.push(inner), tag)])
            == frame_value(inner),
        frames.push(inner).drop_last() == frames,
{
    assert(frames.push(inner).last() == inner);
    assert(frames.push(inner).drop_last() =~= frames);
}

/// Change-poll propagation, upward step: a dirty subtree makes its
/// parent's poll report ready, so a ready leaf reaches the root through
/// any chain of ancestors.
pub proof fn lemma_change_poll_propagation(parent: InstantiatedComponent, k: int)
    requires
        0 <= k < parent.children.item_seq().len(),
        spec_tree_dirty(parent.children.item_seq()[k]),
    ensures
        spec_tree_dirty(parent),
{
    lemma_children_dirty_member(parent.children.item_seq(), k);
}

/// Change-poll coalescing: a poll clears what it reports, so with no
/// further changes the very next poll is pending — one change triggers
/// exactly one re-render.
pub proof fn lemma_single_rerender(before: InstantiatedComponent, after: InstantiatedComponent)
    requires
        spec_cleared(before, after),
    ensures
        !spec_tree_dirty(after),
{
    lemma_cleared_preserves(before, after);
}

} // verus!
