//! Ordered multimaps used by reconciliation.
//!
//! A parent's previous children live in a [`RemoveOnlyMultimap`]: instances
//! queued under their key, in declaration order, matched FIFO. The children
//! of the next frame are collected in an [`AppendOnlyMultimap`] and then
//! frozen into a remove-only map for the following update.

use vstd::prelude::*;

use crate::key::ElementKey;

verus! {

/// The first position at or after `i` whose key is `key`, or `-1`.
pub open spec fn first_index_from(keys: Seq<ElementKey>, key: ElementKey, i: int) -> int
    decreases keys.len() - i when 0 <= i <= keys.len()
{
    if i >= keys.len() {
        -1
    } else if keys[i] == key {
        i
    } else {
        first_index_from(keys, key, i + 1)
    }
}

/// The first position of `key` in `keys`, or `-1` when absent.
pub open spec fn first_index_of(keys: Seq<ElementKey>, key: ElementKey) -> int {
    first_index_from(keys, key, 0)
}

/// What `first_index_from` returns: either `-1` and no position at or after
/// `i` holds `key`, or the first such position.
pub proof fn lemma_first_index_from(keys: Seq<ElementKey>, key: ElementKey, i: int)
    requires
        0 <= i <= keys.len(),
    ensures
        first_index_from(keys, key, i) == -1 ==> forall|j: int|
            i <= j < keys.len() ==> keys[j] != key,
        first_index_from(keys, key, i) != -1 ==> {
            let r = first_index_from(keys, key, i);
            &&& i <= r < keys.len()
            &&& keys[r] == key
            &&& forall|j: int| i <= j < r ==> keys[j] != key
        },
    decreases keys.len() - i,
{
    if i < keys.len() && keys[i] != key {
        lemma_first_index_from(keys, key, i + 1);
    }
}

/// An ordered multimap that only grows: each `push_back` appends a value
/// under a key, keeping declaration order.
pub struct AppendOnlyMultimap<V> {
    keys: Vec<ElementKey>,
    items: Vec<V>,
}

impl<V> AppendOnlyMultimap<V> {
    /// The keys, in insertion order.
    pub closed spec fn key_seq(&self) -> Seq<ElementKey> {
        self.keys@
    }

    /// The values, in insertion order.
    pub closed spec fn item_seq(&self) -> Seq<V> {
        self.items@
    }

    /// Both sequences pair up.
    pub open spec fn wf(&self) -> bool {
        self.key_seq().len() == self.item_seq().len()
    }

    /// An empty multimap.
    pub fn new() -> (r: AppendOnlyMultimap<V>)
        ensures
            r.wf(),
            r.key_seq() == Seq::<ElementKey>::empty(),
            r.item_seq() == Seq::<V>::empty(),
    {
        AppendOnlyMultimap { keys: Vec::new(), items: Vec::new() }
    }

    /// Appends `value` at the back, associated with `key`.
    pub fn push_back(&mut self, key: ElementKey, value: V)
        requires
            old(self).wf(),
        ensures
            final(self).wf(),
            final(self).key_seq() == old(self).key_seq().push(key),
            final(self).item_seq() == old(self).item_seq().push(value),
    {
        self.keys.push(key);
        self.items.push(value);
    }
}

impl<V> Default for AppendOnlyMultimap<V> {
    fn default() -> (r: AppendOnlyMultimap<V>)
        ensures
            r.wf(),
            r.key_seq() == Seq::<ElementKey>::empty(),
            r.item_seq() == Seq::<V>::empty(),
    {
        AppendOnlyMultimap::new()
    }
}

/// An ordered multimap that only shrinks: `pop_front` removes the first
/// value queued under a key; the remaining values keep their order.
pub struct RemoveOnlyMultimap<V> {
    keys: Vec<ElementKey>,
    items: Vec<V>,
}

impl<V> RemoveOnlyMultimap<V> {
    /// The keys of the remaining values, in declaration order.
    pub closed spec fn key_seq(&self) -> Seq<ElementKey> {
        self.keys@
    }

    /// The remaining values, in declaration order.
    pub closed spec fn item_seq(&self) -> Seq<V> {
        self.items@
    }

    /// Both sequences pair up.
    pub open spec fn wf(&self) -> bool {
        self.key_seq().len() == self.item_seq().len()
    }

    /// An empty multimap.
    pub fn new() -> (r: RemoveOnlyMultimap<V>)
        ensures
            r.wf(),
            r.key_seq() == Seq::<ElementKey>::empty(),
            r.item_seq() == Seq::<V>::empty(),
    {
        RemoveOnlyMultimap { keys: Vec::new(), items: Vec::new() }
    }

    /// How many values remain.
    pub fn len(&self) -> (r: usize)
        requires
            self.wf(),
        ensures
            r == self.item_seq().len(),
    {
        self.items.len()
    }

    /// The value at a position, in declaration order.
    pub fn get(&self, i: usize) -> (r: &V)
        requires
            self.wf(),
            i < self.item_seq().len(),
        ensures
            *r == self.item_seq()[i as int],
    {
        &self.items[i]
    }

    /// Removes and returns the first value queued under `key`; the values
    /// behind it move up one place, so queues under one key pop FIFO.
    pub fn pop_front(&mut self, key: &ElementKey) -> (r: Option<V>)
        requires
            old(self).wf(),
        ensures
            final(self).wf(),
            ({
                let fi = first_index_of(old(self).key_seq(), *key);
                if fi == -1 {
                    &&& r is None
                    &&& final(self).key_seq() == old(self).key_seq()
                    &&& final(self).item_seq() == old(self).item_seq()
                } else {
                    &&& r == Some(old(self).item_seq()[fi])
                    &&& final(self).key_seq() == old(self).key_seq().remove(fi)
                    &&& final(self).item_seq() == old(self).item_seq().remove(fi)
                }
            }),
    {
        proof {
            lemma_first_index_from(self.keys@, *key, 0);
        }
        let n = self.keys.len();
        let mut i: usize = 0;
        #[verifier::loop_isolation(false)]
        while i < n
            invariant
                self.key_seq() == old(self).key_seq(),
                self.item_seq() == old(self).item_seq(),
                0 <= i <= n,
                forall|j: int| 0 <= j < i ==> self.key_seq()[j] != *key,
                first_index_from(self.key_seq(), *key, 0) == first_index_from(
                    self.key_seq(),
                    *key,
                    i as int,
                ),
            decreases n - i,
        {
            if self.keys[i] == *key {
                proof {
                    assert(first_index_from(self.key_seq(), *key, i as int) == i as int);
                }
                self.keys.remove(i);
                let v = self.items.remove(i);
                return Some(v);
            }
            proof {
                assert(first_index_from(self.key_seq(), *key, i as int) == first_index_from(
                    self.key_seq(),
                    *key,
                    i as int + 1,
                ));
            }
            i = i + 1;
        }
        proof {
            assert(first_index_from(self.key_seq(), *key, n as int) == -1);
        }
        None
    }

    /// The remaining values, in declaration order.
    pub fn iter(&self) -> (r: &Vec<V>)
        ensures
            r@ == self.item_seq(),
    {
        &self.items
    }

    /// The remaining values, in declaration order, open for mutation:
    /// the values may change in place, the keys and the order may not.
    pub fn iter_mut(&mut self) -> (r: &mut Vec<V>)
        ensures
            (*r)@ == old(self).item_seq(),
            final(self).item_seq() == final(r)@,
            final(self).key_seq() == old(self).key_seq(),
    {
        &mut self.items
    }

    /// A multimap over existing columns, which must pair up.
    pub fn from_columns(keys: Vec<ElementKey>, items: Vec<V>) -> (r: RemoveOnlyMultimap<V>)
        requires
            keys@.len() == items@.len(),
        ensures
            r.wf(),
            r.key_seq() == keys@,
            r.item_seq() == items@,
    {
        RemoveOnlyMultimap { keys, items }
    }

    /// Splits the multimap back into its key and value columns.
    pub fn into_columns(self) -> (r: (Vec<ElementKey>, Vec<V>))
        ensures
            r.0@ == self.key_seq(),
            r.1@ == self.item_seq(),
    {
        (self.keys, self.items)
    }

    /// Exchanges the remaining values for `items`, which must pair up with
    /// the keys; used to hand values back after updating them one by one.
    pub fn put_items(&mut self, items: Vec<V>)
        requires
            old(self).wf(),
            items@.len() == old(self).item_seq().len(),
        ensures
            final(self).wf(),
            final(self).key_seq() == old(self).key_seq(),
            final(self).item_seq() == items@,
    {
        self.items = items;
    }

    /// Takes all remaining values out, leaving the map empty.
    pub fn take_items(&mut self) -> (r: Vec<V>)
        requires
            old(self).wf(),
        ensures
            final(self).wf(),
            r@ == old(self).item_seq(),
            final(self).key_seq() == Seq::<ElementKey>::empty(),
            final(self).item_seq() == Seq::<V>::empty(),
    {
        self.keys.clear();
        let mut out: Vec<V> = Vec::new();
        core::mem::swap(&mut self.items, &mut out);
        out
    }
}

impl<V> Default for RemoveOnlyMultimap<V> {
    fn default() -> (r: RemoveOnlyMultimap<V>)
        ensures
            r.wf(),
            r.key_seq() == Seq::<ElementKey>::empty(),
            r.item_seq() == Seq::<V>::empty(),
    {
        RemoveOnlyMultimap::new()
    }
}

impl<V> RemoveOnlyMultimap<V> {
    /// Freezes an append-only map: same keys, same values, same order.
    pub fn from_append(value: AppendOnlyMultimap<V>) -> (r: RemoveOnlyMultimap<V>)
        ensures
            r.key_seq() == value.key_seq(),
            r.item_seq() == value.item_seq(),
    {
        RemoveOnlyMultimap { keys: value.keys, items: value.items }
    }
}

} // verus!
