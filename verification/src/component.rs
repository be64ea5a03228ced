//! The persistent instance tree and its reconciliation.
//!
//! An [`InstantiatedComponent`] is the stateful realization of one element
//! across time: it owns its hook-state boxes, its children and its layout
//! directive. On every update a parent's children list is matched against
//! the fresh elements by key and type ([`update_children`]): a matched
//! instance is reused, moving its state into the next frame's map; an
//! unmatched element gets a brand-new instance; and every old instance
//! never claimed is torn down, its identifier logged exactly once.

use vstd::prelude::*;

use crate::context::ContextStack;
use crate::element::{AnyElement, AnyProps, spec_props_tag};
use crate::hooks::{any_dirty, poll_hook_boxes, HookBox, Hooks};
use crate::key::ElementKey;
use crate::layout::{Constraint, Direction, LayoutStyle, Rect, rect_within, ScrollBars, ScrollViewState};
use crate::multimap::{
    first_index_of,
    AppendOnlyMultimap,
    lemma_first_index_from,
    RemoveOnlyMultimap,
};
use crate::value::{Value, ValueModel};

verus! {

/// The hook type tag of the built-in state cell.
pub const STATE_CELL_TAG: u64 = 100;

/// The hook type tag of the built-in event cell: the box input events
/// are dispatched into before an update pass.
pub const EVENT_CELL_TAG: u64 = 101;

/// The persistent realization of one element: its identity, its type, its
/// hook-state boxes, its layout intent, what it paints, and its children.
pub struct InstantiatedComponent {
    /// An identifier unique within one runtime, used by the teardown log.
    pub id: u64,
    /// The stable type identifier of the element this instance realizes.
    pub props_tag: u64,
    /// Whether the instance has not yet run an update.
    pub first_update: bool,
    /// The ordered hook-state boxes.
    pub hooks: Vec<HookBox>,
    /// The layout directive the instance declared on its last update.
    pub layout: LayoutStyle,
    /// Whether the instance is skipped for area-splitting.
    pub transparent: bool,
    /// The text a leaf instance paints on draw.
    pub text: Vec<char>,
    /// The scroll position of a scrollable container.
    pub scroll: ScrollViewState,
    /// The scrollbar policy of a scrollable container.
    pub scroll_bars: ScrollBars,
    /// The area the instance was drawn into on the most recent draw
    /// pass, kept for the next frame's update to read.
    pub last_area: Rect,
    /// The children, keyed for the next reconciliation.
    pub children: Components,
}

/// A parent's children: the per-parent ordered multimap from key to
/// instance, stored as paired columns and reconciled through
/// [`RemoveOnlyMultimap`] and [`AppendOnlyMultimap`].
pub struct Components {
    pub keys: Vec<ElementKey>,
    pub items: Vec<InstantiatedComponent>,
}

impl Components {
    /// The children's keys, in declaration order.
    pub open spec fn key_seq(&self) -> Seq<ElementKey> {
        self.keys@
    }

    /// The children, in declaration order.
    pub open spec fn item_seq(&self) -> Seq<InstantiatedComponent> {
        self.items@
    }

    /// Both columns pair up.
    pub open spec fn wf_cols(&self) -> bool {
        self.keys@.len() == self.items@.len()
    }

    /// An empty children list.
    pub fn new() -> (r: Components)
        ensures
            r.key_seq() == Seq::<ElementKey>::empty(),
            r.item_seq() == Seq::<InstantiatedComponent>::empty(),
            r.wf_cols(),
    {
        Components { keys: Vec::new(), items: Vec::new() }
    }

    /// How many children there are.
    pub fn len(&self) -> (r: usize)
        ensures
            r == self.item_seq().len(),
    {
        self.items.len()
    }
}

/// The mathematical model of one hook-state box: its type tag, the model
/// of its value, and its dirty mark.
pub open spec fn hook_model(h: HookBox) -> (u64, crate::value::ValueModel, bool) {
    (h.tag, h.value@, h.dirty)
}

/// The models of a hook list, in order.
pub open spec fn hook_models(hs: Seq<HookBox>) -> Seq<(u64, crate::value::ValueModel, bool)> {
    Seq::new(hs.len(), |i: int| hook_model(hs[i]))
}

/// The models of the hook-state boxes a freshly created instance of a
/// component type registers on its first update.
pub open spec fn spec_initial_hook_models(props: AnyProps) -> Seq<
    (u64, crate::value::ValueModel, bool),
> {
    match props {
        AnyProps::StateText(p) => seq![(STATE_CELL_TAG, p.init@, false)],
        AnyProps::EventText(_) => seq![
            (EVENT_CELL_TAG, crate::value::ValueModel::Unit, false),
        ],
        _ => Seq::empty(),
    }
}

/// Whether a hook list has the shape the component type registers.
pub open spec fn spec_hooks_shape(props_tag: u64, hooks: Seq<HookBox>) -> bool {
    if props_tag == crate::element::STATE_TEXT_TAG {
        hooks.len() == 1 && hooks[0].tag == STATE_CELL_TAG
    } else if props_tag == crate::element::EVENT_TEXT_TAG {
        hooks.len() == 1 && hooks[0].tag == EVENT_CELL_TAG
    } else {
        hooks.len() == 0
    }
}

/// A well-formed stored instance: it has been updated at least once, its
/// hooks have its type's shape, and its children are well-formed in turn.
pub open spec fn wf_inst(inst: InstantiatedComponent) -> bool
    decreases inst,
{
    &&& !inst.first_update
    &&& spec_hooks_shape(inst.props_tag, inst.hooks@)
    &&& inst.children.wf_cols()
    &&& forall|k: int|
        0 <= k < inst.children.item_seq().len() ==> wf_inst(
            #[trigger] inst.children.item_seq()[k],
        )
}

/// The identifiers of an instance and all its descendants, parent first,
/// children in declaration order: the order teardown logs them in.
pub open spec fn tree_ids(inst: InstantiatedComponent) -> Seq<u64>
    decreases inst,
{
    seq![inst.id] + tree_ids_children(inst.children.item_seq())
}

/// The identifiers of a row of subtrees, in order.
pub open spec fn tree_ids_children(items: Seq<InstantiatedComponent>) -> Seq<u64>
    decreases items,
{
    if items.len() == 0 {
        Seq::empty()
    } else {
        tree_ids(items.first()) + tree_ids_children(items.drop_first())
    }
}

/// Every identifier in the subtree lies below `bound`.
pub open spec fn ids_below(inst: InstantiatedComponent, bound: int) -> bool {
    forall|k: int| 0 <= k < tree_ids(inst).len() ==> tree_ids(inst)[k] < bound
}

/// How many instances realizing `e` and its descendants can at most be
/// created: the measure that bounds identifier allocation.
pub open spec fn elem_weight(e: AnyElement) -> int
    decreases e,
{
    1 + elems_weight(e.children@)
}

/// The combined measure of a row of elements.
pub open spec fn elems_weight(elems: Seq<AnyElement>) -> int
    decreases elems,
{
    if elems.len() == 0 {
        0
    } else {
        elem_weight(elems.first()) + elems_weight(elems.drop_first())
    }
}

/// A weight is never negative.
pub proof fn lemma_weight_nonneg(e: AnyElement)
    ensures
        elem_weight(e) >= 1,
    decreases e,
{
    lemma_weights_nonneg(e.children@);
}

/// A row's weight is never negative.
pub proof fn lemma_weights_nonneg(elems: Seq<AnyElement>)
    ensures
        elems_weight(elems) >= 0,
    decreases elems,
{
    if elems.len() > 0 {
        lemma_weight_nonneg(elems.first());
        lemma_weights_nonneg(elems.drop_first());
    }
}

/// Appends the identifiers of an instance's whole subtree to `out`, in
/// teardown order.
pub fn walk_ids(inst: &InstantiatedComponent, out: &mut Vec<u64>)
    ensures
        final(out)@ == old(out)@ + tree_ids(*inst),
    decreases *inst,
{
    out.push(inst.id);
    let n = inst.children.items.len();
    let mut k: usize = 0;
    #[verifier::loop_isolation(false)]
    while k < n
        invariant
            0 <= k <= n,
            n == inst.children.item_seq().len(),
            out@ == old(out)@ + seq![inst.id] + tree_ids_children(
                inst.children.item_seq().take(k as int),
            ),
        decreases n - k,
    {
        let child = &inst.children.items[k];
        proof {
            assert(decreases_to!(*inst => inst.children.items@[k as int]));
        }
        walk_ids(child, out);
        proof {
            lemma_tree_ids_children_take_step(inst.children.item_seq(), k as int);
            assert(out@ =~= old(out)@ + seq![inst.id] + tree_ids_children(
                inst.children.item_seq().take(k as int + 1),
            ));
        }
        k = k + 1;
    }
    proof {
        assert(inst.children.item_seq().take(n as int) =~= inst.children.item_seq());
        assert(out@ =~= old(out)@ + tree_ids(*inst));
    }
}

/// One more subtree extends the row's identifier list at the back.
pub proof fn lemma_tree_ids_children_take_step(items: Seq<InstantiatedComponent>, k: int)
    requires
        0 <= k < items.len(),
    ensures
        tree_ids_children(items.take(k + 1)) == tree_ids_children(items.take(k)) + tree_ids(
            items[k],
        ),
    decreases k,
{
    if k == 0 {
        assert(items.take(1).drop_first() =~= items.take(0));
        assert(tree_ids_children(items.take(1)) =~= tree_ids(items[0]) + tree_ids_children(
            items.take(0),
        ));
        assert(tree_ids_children(items.take(0)) =~= Seq::<u64>::empty());
        assert(tree_ids_children(items.take(1)) =~= tree_ids_children(items.take(0)) + tree_ids(
            items[0],
        ));
    } else {
        lemma_tree_ids_children_take_step(items.drop_first(), k - 1);
        assert(items.take(k + 1).first() == items.first());
        assert(items.take(k + 1).drop_first() =~= items.drop_first().take(k));
        assert(items.take(k).first() == items.first());
        assert(items.take(k).drop_first() =~= items.drop_first().take(k - 1));
        assert(items.drop_first()[k - 1] == items[k]);
        assert(tree_ids_children(items.take(k + 1)) =~= tree_ids_children(items.take(k))
            + tree_ids(items[k]));
    }
}

/// A brand-new instance realizing `e`, not yet updated.
fn fresh_instance(e: &AnyElement, next_id: &mut u64) -> (r: InstantiatedComponent)
    requires
        *old(next_id) < u64::MAX,
    ensures
        *final(next_id) == *old(next_id) + 1,
        r.id == *old(next_id),
        r.props_tag == spec_props_tag(e.props),
        r.first_update,
        r.hooks@ == Seq::<HookBox>::empty(),
        r.children.key_seq() == Seq::<ElementKey>::empty(),
        r.children.item_seq() == Seq::<InstantiatedComponent>::empty(),
        r.children.wf_cols(),
{
    let id = *next_id;
    *next_id = *next_id + 1;
    InstantiatedComponent {
        id,
        props_tag: e.props.props_tag(),
        first_update: true,
        hooks: Vec::new(),
        layout: Default::default(),
        transparent: false,
        text: Vec::new(),
        scroll: Default::default(),
        scroll_bars: Default::default(),
        last_area: Rect { x: 0, y: 0, width: 0, height: 0 },
        children: Components::new(),
    }
}

} // verus!

verus! {

/// How often `x` occurs in `s`.
pub open spec fn seq_count(s: Seq<u64>, x: u64) -> int
    decreases s.len(),
{
    if s.len() == 0 {
        0
    } else {
        seq_count(s.drop_last(), x) + if s.last() == x {
            1int
        } else {
            0int
        }
    }
}

/// Occurrence counts add up over concatenation.
pub proof fn lemma_seq_count_concat(a: Seq<u64>, b: Seq<u64>, x: u64)
    ensures
        seq_count(a + b, x) == seq_count(a, x) + seq_count(b, x),
    decreases b.len(),
{
    if b.len() == 0 {
        assert(a + b =~= a);
    } else {
        assert((a + b).drop_last() =~= a + b.drop_last());
        assert((a + b).last() == b.last());
        lemma_seq_count_concat(a, b.drop_last(), x);
    }
}

/// A count is never negative, a member occurs at least once, and a
/// positive count exhibits a member.
pub proof fn lemma_seq_count_bounds(s: Seq<u64>, x: u64)
    ensures
        seq_count(s, x) >= 0,
        (exists|k: int| 0 <= k < s.len() && s[k] == x) ==> seq_count(s, x) >= 1,
        seq_count(s, x) >= 1 ==> exists|k: int| 0 <= k < s.len() && s[k] == x,
    decreases s.len(),
{
    if s.len() > 0 {
        lemma_seq_count_bounds(s.drop_last(), x);
        if exists|k: int| 0 <= k < s.len() && s[k] == x {
            let k = choose|k: int| 0 <= k < s.len() && s[k] == x;
            if k < s.len() - 1 {
                assert(s.drop_last()[k] == x);
            }
        }
        if seq_count(s, x) >= 1 && s.last() != x {
            let k = choose|k: int| 0 <= k < s.drop_last().len() && s.drop_last()[k] == x;
            assert(s[k] == x);
        }
    }
}

/// Whether `id` lies in `[lo, hi)`, as a count.
pub open spec fn range_cnt(lo: int, hi: int, id: u64) -> int {
    if lo <= id < hi {
        1
    } else {
        0
    }
}

/// The keys of a row of elements, in order.
pub open spec fn spec_keys_of(elems: Seq<AnyElement>) -> Seq<ElementKey> {
    Seq::new(elems.len(), |j: int| elems[j].key)
}

/// What one reconciliation pass decides, before any instance update: for
/// each element the old instance it reuses, if any; the instances popped
/// under a matching key but another type, which are torn down at that
/// point; and what is left of the previous map afterwards, torn down at
/// the end.
pub struct ReconcileModel {
    pub matched: Seq<Option<InstantiatedComponent>>,
    pub dropped: Seq<InstantiatedComponent>,
    pub left_keys: Seq<ElementKey>,
    pub left_items: Seq<InstantiatedComponent>,
}

/// The reconciliation decisions for `elems` against the previous map
/// `(keys, items)`: front-most queued instance per key, FIFO, reused only
/// when the type identifier agrees.
pub open spec fn spec_reconcile(
    keys: Seq<ElementKey>,
    items: Seq<InstantiatedComponent>,
    elems: Seq<AnyElement>,
) -> ReconcileModel
    decreases elems.len(),
{
    if elems.len() == 0 {
        ReconcileModel {
            matched: Seq::empty(),
            dropped: Seq::empty(),
            left_keys: keys,
            left_items: items,
        }
    } else {
        let e = elems.first();
        let fi = first_index_of(keys, e.key);
        if fi == -1 {
            let rest = spec_reconcile(keys, items, elems.drop_first());
            ReconcileModel {
                matched: seq![None] + rest.matched,
                dropped: rest.dropped,
                left_keys: rest.left_keys,
                left_items: rest.left_items,
            }
        } else {
            let inst = items[fi];
            let rest = spec_reconcile(keys.remove(fi), items.remove(fi), elems.drop_first());
            if inst.props_tag == spec_props_tag(e.props) {
                ReconcileModel {
                    matched: seq![Some(inst)] + rest.matched,
                    dropped: rest.dropped,
                    left_keys: rest.left_keys,
                    left_items: rest.left_items,
                }
            } else {
                ReconcileModel {
                    matched: seq![None] + rest.matched,
                    dropped: seq![inst] + rest.dropped,
                    left_keys: rest.left_keys,
                    left_items: rest.left_items,
                }
            }
        }
    }
}

/// What holds of an instance the moment it is handed to an update: a
/// brand-new instance is empty, a reused one is well-formed.
pub open spec fn pre_inst(inst: InstantiatedComponent) -> bool {
    if inst.first_update {
        &&& inst.hooks@.len() == 0
        &&& inst.children.key_seq().len() == 0
        &&& inst.children.item_seq().len() == 0
    } else {
        wf_inst(inst)
    }
}

/// Whether a component type renders as a leaf: its update does not
/// reconcile children.
pub open spec fn spec_is_leaf(props: AnyProps) -> bool {
    props is Text || props is StateText || props is EventText
}

/// What an update leaves of one instance, by component type: the layout
/// directive, transparency, painted text and children keys the type's
/// update routine produces from the element.
pub open spec fn spec_kind_shape(r: InstantiatedComponent, elem: AnyElement) -> bool {
    match elem.props {
        AnyProps::Pane(p) => {
            &&& r.layout == p.layout
            &&& !r.transparent
            &&& r.children.key_seq() == spec_keys_of(elem.children@)
        },
        AnyProps::Fragment(_) => {
            &&& r.transparent
            &&& r.children.key_seq() == spec_keys_of(elem.children@)
        },
        AnyProps::ContextProvider(_) => {
            &&& r.transparent
            &&& r.children.key_seq() == spec_keys_of(elem.children@)
        },
        AnyProps::Text(p) => {
            &&& r.text@ == p.text@
            &&& !r.transparent
        },
        AnyProps::StateText(_) => {
            &&& r.hooks@.len() == 1
            &&& r.hooks@[0].tag == STATE_CELL_TAG
            &&& r.text@ == crate::buffer::spec_value_text(r.hooks@[0].value@)
            &&& !r.transparent
        },
        AnyProps::ScrollView(p) => {
            &&& r.layout == p.layout
            &&& r.scroll_bars == p.scroll_bars
            &&& (p.scroll matches Some(sv) ==> r.scroll == sv)
            &&& !r.transparent
            &&& r.children.key_seq() == spec_keys_of(elem.children@)
        },
        AnyProps::EventText(_) => {
            &&& r.hooks@.len() == 1
            &&& r.hooks@[0].tag == EVENT_CELL_TAG
            &&& r.text@ == crate::buffer::spec_value_text(r.hooks@[0].value@)
            &&& !r.transparent
        },
    }
}

} // verus!

verus! {

/// Identifier lists concatenate over split rows.
pub proof fn lemma_tree_ids_children_concat(a: Seq<InstantiatedComponent>, b: Seq<InstantiatedComponent>)
    ensures
        tree_ids_children(a + b) == tree_ids_children(a) + tree_ids_children(b),
    decreases a.len(),
{
    if a.len() == 0 {
        assert(a + b =~= b);
        assert(tree_ids_children(a) =~= Seq::<u64>::empty());
        assert(tree_ids_children(a + b) =~= tree_ids_children(a) + tree_ids_children(b));
    } else {
        assert((a + b).first() == a.first());
        assert((a + b).drop_first() =~= a.drop_first() + b);
        lemma_tree_ids_children_concat(a.drop_first(), b);
        assert(tree_ids_children(a + b) =~= tree_ids_children(a) + tree_ids_children(b));
    }
}

/// Removing one subtree splits a row's identifier list in three.
pub proof fn lemma_tree_ids_children_remove(s: Seq<InstantiatedComponent>, fi: int)
    requires
        0 <= fi < s.len(),
    ensures
        tree_ids_children(s) == tree_ids_children(s.take(fi)) + tree_ids(s[fi])
            + tree_ids_children(s.remove(fi).skip(fi)),
        tree_ids_children(s.remove(fi)) == tree_ids_children(s.take(fi)) + tree_ids_children(
            s.remove(fi).skip(fi),
        ),
{
    let pre = s.take(fi);
    let post = s.skip(fi + 1);
    assert(s =~= pre + seq![s[fi]] + post);
    assert(s.remove(fi) =~= pre + post);
    assert(s.remove(fi).skip(fi) =~= post);
    lemma_tree_ids_children_concat(pre + seq![s[fi]], post);
    lemma_tree_ids_children_concat(pre, seq![s[fi]]);
    lemma_tree_ids_children_concat(pre, post);
    assert(seq![s[fi]].drop_first() =~= Seq::<InstantiatedComponent>::empty());
    assert(tree_ids_children(seq![s[fi]].drop_first()) =~= Seq::<u64>::empty());
    assert(tree_ids_children(seq![s[fi]]) =~= tree_ids(s[fi]));
    assert(tree_ids_children(s) =~= tree_ids_children(pre) + tree_ids(s[fi])
        + tree_ids_children(post));
    assert(tree_ids_children(s.remove(fi)) =~= tree_ids_children(pre) + tree_ids_children(post));
}

/// One element's weight splits off the front of a suffix's weight.
pub proof fn lemma_weights_skip_step(elems: Seq<AnyElement>, j: int)
    requires
        0 <= j < elems.len(),
    ensures
        elems_weight(elems.skip(j)) == elem_weight(elems[j]) + elems_weight(elems.skip(j + 1)),
{
    assert(elems.skip(j).first() == elems[j]);
    assert(elems.skip(j).drop_first() =~= elems.skip(j + 1));
}

} // verus!

verus! {

/// One more subtree at the back extends a row's identifier list.
pub proof fn lemma_tree_ids_children_push(s: Seq<InstantiatedComponent>, x: InstantiatedComponent)
    ensures
        tree_ids_children(s.push(x)) == tree_ids_children(s) + tree_ids(x),
{
    assert(s.push(x) =~= s + seq![x]);
    lemma_tree_ids_children_concat(s, seq![x]);
    assert(seq![x].drop_first() =~= Seq::<InstantiatedComponent>::empty());
    assert(tree_ids_children(seq![x].drop_first()) =~= Seq::<u64>::empty());
    assert(tree_ids_children(seq![x]) =~= tree_ids(x));
}

/// A reconciliation decides once per element.
pub proof fn lemma_reconcile_matched_len(
    keys: Seq<ElementKey>,
    items: Seq<InstantiatedComponent>,
    elems: Seq<AnyElement>,
)
    ensures
        spec_reconcile(keys, items, elems).matched.len() == elems.len(),
    decreases elems.len(),
{
    if elems.len() > 0 {
        let e = elems.first();
        let fi = first_index_of(keys, e.key);
        if fi == -1 {
            lemma_reconcile_matched_len(keys, items, elems.drop_first());
        } else {
            lemma_reconcile_matched_len(keys.remove(fi), items.remove(fi), elems.drop_first());
        }
    }
}

/// How often `x` occurs alone.
pub proof fn lemma_seq_count_singleton(x: u64, id: u64)
    ensures
        seq_count(seq![x], id) == if x == id {
            1int
        } else {
            0int
        },
{
    assert(seq![x].len() == 1);
    assert(seq![x].last() == x);
    assert(seq![x].drop_last() =~= Seq::<u64>::empty());
    assert(seq_count(seq![x].drop_last(), id) == 0);
}

/// Updates one instance against the element it realizes this frame: runs
/// its hook registrations, applies the component type's update routine,
/// and reconciles its children. The caller guarantees the type
/// identifiers agree, so hook recovery cannot fail.
#[verifier::rlimit(100)]
pub fn update_instance(
    inst: InstantiatedComponent,
    elem: &AnyElement,
    stack: &mut ContextStack,
    next_id: &mut u64,
    removed: &mut Vec<u64>,
) -> (r: InstantiatedComponent)
    requires
        inst.props_tag == spec_props_tag(elem.props),
        pre_inst(inst),
        ids_below(inst, *old(next_id) as int),
        *old(next_id) + elems_weight(elem.children@) <= u64::MAX,
    ensures
        r.id == inst.id,
        r.props_tag == inst.props_tag,
        r.last_area == inst.last_area,
        !r.first_update,
        wf_inst(r),
        !inst.first_update ==> r.hooks@ == inst.hooks@,
        inst.first_update ==> hook_models(r.hooks@) == spec_initial_hook_models(elem.props),
        spec_kind_shape(r, *elem),
        (elem.props matches AnyProps::ScrollView(p) && p.scroll is None) ==> r.scroll
            == inst.scroll,
        spec_is_leaf(elem.props) ==> r.children.key_seq() == inst.children.key_seq()
            && r.children.item_seq() == inst.children.item_seq(),
        *old(next_id) <= *final(next_id) <= *old(next_id) + elems_weight(elem.children@),
        ids_below(r, *final(next_id) as int),
        old(removed)@.is_prefix_of(final(removed)@),
        forall|id: u64|
            seq_count(tree_ids(r), id) + seq_count(
                final(removed)@.skip(old(removed)@.len() as int),
                id,
            ) == seq_count(tree_ids(inst), id) + range_cnt(
                *old(next_id) as int,
                *final(next_id) as int,
                id,
            ),
        final(stack).frames_seq() == old(stack).frames_seq(),
    decreases *elem,
{
    let ghost inst0 = inst;
    proof {
        lemma_weights_nonneg(elem.children@);
        assert(tree_ids(inst0)[0] == inst0.id);
    }
    let mut inst = inst;
    let first = inst.first_update;
    let mut taken: Vec<HookBox> = Vec::new();
    core::mem::swap(&mut inst.hooks, &mut taken);
    let mut cursor = Hooks::new(taken, first);
    match &elem.props {
        AnyProps::Pane(p) => {
            inst.layout = p.layout;
            inst.transparent = false;
        },
        AnyProps::Fragment(_) => {
            inst.transparent = true;
        },
        AnyProps::ContextProvider(_) => {
            inst.transparent = true;
        },
        AnyProps::Text(p) => {
            inst.transparent = false;
            inst.text = crate::buffer::string_chars(&p.text);
        },
        AnyProps::StateText(p) => {
            inst.transparent = false;
            match cursor.use_hook(STATE_CELL_TAG, p.init.duplicate()) {
                Ok(idx) => {
                    inst.text = crate::buffer::render_value(cursor.value(idx));
                },
                Err(_) => {
                    // A reused instance stores exactly this hook shape and a
                    // fresh one appends it, so recovery cannot fail here.
                    proof {
                        assert(false);
                    }
                },
            }
        },
        AnyProps::ScrollView(p) => {
            inst.layout = p.layout;
            inst.scroll_bars = p.scroll_bars;
            match &p.scroll {
                Some(sv) => {
                    inst.scroll = *sv;
                },
                None => {},
            }
            inst.transparent = false;
        },
        AnyProps::EventText(_) => {
            inst.transparent = false;
            match cursor.use_hook(EVENT_CELL_TAG, Value::Unit) {
                Ok(idx) => {
                    inst.text = crate::buffer::render_value(cursor.value(idx));
                },
                Err(_) => {
                    // A reused instance stores exactly this hook shape and a
                    // fresh one appends it, so recovery cannot fail here.
                    proof {
                        assert(false);
                    }
                },
            }
        },
    }
    let (mut boxes, closed) = cursor.finish();
    proof {
        // Every component type registers exactly its stored hooks, so the
        // finishing count check cannot report a shortfall here.
        assert(closed is Ok);
    }
    core::mem::swap(&mut inst.hooks, &mut boxes);

    let is_container = match &elem.props {
        AnyProps::Text(_) => false,
        AnyProps::StateText(_) => false,
        AnyProps::EventText(_) => false,
        _ => true,
    };
    if is_container {
        let mut prev_children = Components::new();
        core::mem::swap(&mut inst.children, &mut prev_children);
        proof {
            assert(decreases_to!(*elem => elem.children@));
            if first {
                assert(tree_ids_children(prev_children.item_seq()) =~= Seq::<u64>::empty());
            } else {
                assert forall|k: int|
                    0 <= k < tree_ids_children(prev_children.item_seq()).len() implies
                    tree_ids_children(prev_children.item_seq())[k] < *next_id by {
                    assert(tree_ids(inst0)[1 + k] == tree_ids_children(
                        prev_children.item_seq(),
                    )[k]);
                }
            }
        }
        let frame: Option<crate::context::Context> = match &elem.props {
            AnyProps::ContextProvider(p) => match &p.value {
                Some(c) => Some(c.borrow()),
                None => None,
            },
            _ => None,
        };
        let pushed = match frame {
            Some(f) => {
                stack.push_frame(f);
                true
            },
            None => false,
        };
        let new_children = update_children(prev_children, &elem.children, stack, next_id, removed);
        if pushed {
            let _ = stack.pop_frame();
            proof {
                assert(stack.frames_seq() =~= old(stack).frames_seq());
            }
        }
        inst.children = new_children;
    }
    inst.first_update = false;
    let r = inst;
    proof {
        let n0 = *old(next_id) as int;
        let n1 = *next_id as int;
        let rem0_len = old(removed)@.len() as int;
        let delta = removed@.skip(rem0_len);
        assert(tree_ids(r) =~= seq![r.id] + tree_ids_children(r.children.item_seq()));
        assert(tree_ids(inst0) =~= seq![inst0.id] + tree_ids_children(inst0.children.item_seq()));
        if !is_container {
            assert(removed@ =~= old(removed)@);
            assert(delta =~= Seq::<u64>::empty());
        }
        assert forall|id: u64|
            seq_count(tree_ids(r), id) + seq_count(delta, id) == seq_count(tree_ids(inst0), id)
                + range_cnt(n0, n1, id) by {
            lemma_seq_count_concat(seq![r.id], tree_ids_children(r.children.item_seq()), id);
            lemma_seq_count_concat(
                seq![inst0.id],
                tree_ids_children(inst0.children.item_seq()),
                id,
            );
            lemma_seq_count_singleton(r.id, id);
            lemma_seq_count_singleton(inst0.id, id);
        }
        assert forall|k: int| 0 <= k < tree_ids(r).len() implies tree_ids(r)[k] < n1 by {
            if k == 0 {
                assert(tree_ids(inst0)[0] == inst0.id);
            } else {
                assert(tree_ids(r)[k] == tree_ids_children(r.children.item_seq())[k - 1]);
                if !is_container {
                    assert(tree_ids(inst0)[k] == tree_ids_children(
                        inst0.children.item_seq(),
                    )[k - 1]);
                }
            }
        }
    }
    r
}

} // verus!

verus! {

/// Reconciles a parent's children against the fresh elements, in order:
/// the front instance queued under each element's key is reused when its
/// type agrees, a new instance is created otherwise, every reused or new
/// instance is updated with the element's props, and every old instance
/// never claimed is torn down, parent before descendants, its identifiers
/// appended to `removed`.
#[verifier::rlimit(100)]
pub fn update_children(
    prev: Components,
    elems: &Vec<AnyElement>,
    stack: &mut ContextStack,
    next_id: &mut u64,
    removed: &mut Vec<u64>,
) -> (r: Components)
    requires
        prev.wf_cols(),
        forall|k: int| 0 <= k < prev.item_seq().len() ==> wf_inst(#[trigger] prev.item_seq()[k]),
        forall|k: int|
            0 <= k < tree_ids_children(prev.item_seq()).len() ==> tree_ids_children(
                prev.item_seq(),
            )[k] < *old(next_id),
        *old(next_id) + elems_weight(elems@) <= u64::MAX,
    ensures
        r.wf_cols(),
        r.key_seq() == spec_keys_of(elems@),
        r.item_seq().len() == elems@.len(),
        forall|j: int|
            0 <= j < elems@.len() ==> {
                let rj = #[trigger] r.item_seq()[j];
                let mj = spec_reconcile(prev.key_seq(), prev.item_seq(), elems@).matched[j];
                &&& wf_inst(rj)
                &&& !rj.first_update
                &&& rj.props_tag == spec_props_tag(elems@[j].props)
                &&& spec_kind_shape(rj, elems@[j])
                &&& match mj {
                    Some(o) => {
                        &&& rj.id == o.id
                        &&& rj.hooks@ == o.hooks@
                        &&& rj.last_area == o.last_area
                        &&& spec_is_leaf(elems@[j].props) ==> rj.children.key_seq()
                            == o.children.key_seq() && rj.children.item_seq()
                            == o.children.item_seq()
                    },
                    None => {
                        &&& *old(next_id) <= rj.id < *final(next_id)
                        &&& hook_models(rj.hooks@) == spec_initial_hook_models(elems@[j].props)
                        &&& spec_is_leaf(elems@[j].props) ==> rj.children.item_seq().len() == 0
                    },
                }
            },
        *old(next_id) <= *final(next_id) <= *old(next_id) + elems_weight(elems@),
        forall|k: int|
            0 <= k < tree_ids_children(r.item_seq()).len() ==> tree_ids_children(
                r.item_seq(),
            )[k] < *final(next_id),
        old(removed)@.is_prefix_of(final(removed)@),
        forall|id: u64|
            seq_count(tree_ids_children(r.item_seq()), id) + seq_count(
                final(removed)@.skip(old(removed)@.len() as int),
                id,
            ) == seq_count(tree_ids_children(prev.item_seq()), id) + range_cnt(
                *old(next_id) as int,
                *final(next_id) as int,
                id,
            ),
        forall|id: u64|
            seq_count(
                tree_ids_children(
                    spec_reconcile(prev.key_seq(), prev.item_seq(), elems@).left_items,
                ),
                id,
            ) <= seq_count(final(removed)@.skip(old(removed)@.len() as int), id),
        final(stack).frames_seq() == old(stack).frames_seq(),
    decreases elems@,
{
    let ghost key0 = prev.key_seq();
    let ghost item0 = prev.item_seq();
    let ghost m = spec_reconcile(key0, item0, elems@);
    let ghost n0 = *next_id;
    let ghost rem0 = removed@;
    let ghost mut delta: Seq<u64> = Seq::empty();
    proof {
        lemma_reconcile_matched_len(key0, item0, elems@);
        lemma_weights_nonneg(elems@);
        assert(elems@.skip(0) =~= elems@);
        assert(removed@ =~= rem0 + delta);
    }
    let Components { keys, items } = prev;
    let mut old_map = RemoveOnlyMultimap::from_columns(keys, items);
    let mut fresh: AppendOnlyMultimap<InstantiatedComponent> = AppendOnlyMultimap::new();
    let n = elems.len();
    let mut j: usize = 0;
    #[verifier::loop_isolation(false)]
    while j < n
        invariant
            0 <= j <= n,
            old_map.wf(),
            fresh.wf(),
            fresh.key_seq() == spec_keys_of(elems@.take(j as int)),
            fresh.item_seq().len() == j,
            // What is still to decide equals the model's tail.
            m.matched.skip(j as int) == spec_reconcile(
                old_map.key_seq(),
                old_map.item_seq(),
                elems@.skip(j as int),
            ).matched,
            m.left_keys == spec_reconcile(
                old_map.key_seq(),
                old_map.item_seq(),
                elems@.skip(j as int),
            ).left_keys,
            m.left_items == spec_reconcile(
                old_map.key_seq(),
                old_map.item_seq(),
                elems@.skip(j as int),
            ).left_items,
            // The remaining old instances are stored, well-formed ones.
            forall|k: int|
                0 <= k < old_map.item_seq().len() ==> wf_inst(#[trigger] old_map.item_seq()[k]),
            forall|k: int|
                0 <= k < tree_ids_children(old_map.item_seq()).len() ==> tree_ids_children(
                    old_map.item_seq(),
                )[k] < n0,
            // What the new map holds so far.
            forall|jj: int|
                0 <= jj < j ==> {
                    let rj = #[trigger] fresh.item_seq()[jj];
                    let mj = m.matched[jj];
                    &&& wf_inst(rj)
                    &&& !rj.first_update
                    &&& rj.props_tag == spec_props_tag(elems@[jj].props)
                    &&& spec_kind_shape(rj, elems@[jj])
                    &&& match mj {
                        Some(o) => {
                            &&& rj.id == o.id
                            &&& rj.hooks@ == o.hooks@
                            &&& rj.last_area == o.last_area
                            &&& spec_is_leaf(elems@[jj].props) ==> rj.children.key_seq()
                                == o.children.key_seq() && rj.children.item_seq()
                                == o.children.item_seq()
                        },
                        None => {
                            &&& n0 <= rj.id < *next_id
                            &&& hook_models(rj.hooks@) == spec_initial_hook_models(
                                elems@[jj].props,
                            )
                            &&& spec_is_leaf(elems@[jj].props) ==> rj.children.item_seq().len()
                                == 0
                        },
                    }
                },
            n0 <= *next_id,
            *next_id + elems_weight(elems@.skip(j as int)) <= u64::MAX,
            *next_id + elems_weight(elems@.skip(j as int)) <= n0 + elems_weight(elems@),
            forall|k: int|
                0 <= k < tree_ids_children(fresh.item_seq()).len() ==> tree_ids_children(
                    fresh.item_seq(),
                )[k] < *next_id,
            removed@ == rem0 + delta,
            forall|id: u64|
                seq_count(tree_ids_children(fresh.item_seq()), id) + seq_count(delta, id)
                    + seq_count(tree_ids_children(old_map.item_seq()), id) == seq_count(
                    tree_ids_children(item0),
                    id,
                ) + range_cnt(n0 as int, *next_id as int, id),
            stack.frames_seq() == old(stack).frames_seq(),
        decreases n - j,
    {
        let ghost curk = old_map.key_seq();
        let ghost curi = old_map.item_seq();
        let ghost nid_a = *next_id;
        let ghost delta_a = delta;
        let ghost fresh_a = fresh.item_seq();
        proof {
            lemma_weights_skip_step(elems@, j as int);
            lemma_weight_nonneg(elems@[j as int]);
            lemma_weights_nonneg(elems@.skip(j as int + 1));
            assert(elems@.skip(j as int).first() == elems@[j as int]);
            assert(elems@.skip(j as int).drop_first() =~= elems@.skip(j as int + 1));
            lemma_first_index_from(curk, elems@[j as int].key, 0);
        }
        let e = &elems[j];
        let popped = old_map.pop_front(&e.key);
        let ghost fi = first_index_of(curk, e.key);
        proof {
            if fi != -1 {
                curi.remove_ensures(fi);
                lemma_tree_ids_children_remove(curi, fi);
                let pre = tree_ids_children(curi.take(fi));
                let mid = tree_ids(curi[fi]);
                let post = tree_ids_children(curi.remove(fi).skip(fi));
                assert forall|k2: int|
                    0 <= k2 < tree_ids_children(curi.remove(fi)).len() implies tree_ids_children(
                    curi.remove(fi),
                )[k2] < n0 by {
                    if k2 < pre.len() {
                        assert(tree_ids_children(curi)[k2] == tree_ids_children(
                            curi.remove(fi),
                        )[k2]);
                    } else {
                        assert(tree_ids_children(curi)[k2 + mid.len()] == tree_ids_children(
                            curi.remove(fi),
                        )[k2]);
                    }
                }
                assert forall|k2: int| 0 <= k2 < mid.len() implies mid[k2] < n0 by {
                    assert(tree_ids_children(curi)[pre.len() + k2] == mid[k2]);
                }
            }
            let rj_model = spec_reconcile(curk, curi, elems@.skip(j as int));
            let rn_model = spec_reconcile(
                old_map.key_seq(),
                old_map.item_seq(),
                elems@.skip(j as int + 1),
            );
            assert(m.matched.skip(j as int + 1) =~= m.matched.skip(j as int).drop_first());
            if fi == -1 {
                assert(rj_model.matched =~= seq![None::<InstantiatedComponent>]
                    + rn_model.matched);
            } else if curi[fi].props_tag == spec_props_tag(elems@[j as int].props) {
                assert(rj_model.matched =~= seq![Some(curi[fi])] + rn_model.matched);
            } else {
                assert(rj_model.matched =~= seq![None::<InstantiatedComponent>]
                    + rn_model.matched);
            }
            assert(rj_model.matched.drop_first() =~= rn_model.matched);
            assert(m.matched[j as int] == rj_model.matched[0]);
        }
        let inst0 = match popped {
            Some(cand) => {
                if cand.props_tag == e.props.props_tag() {
                    cand
                } else {
                    walk_ids(&cand, removed);
                    proof {
                        delta = delta + tree_ids(cand);
                        assert(removed@ =~= rem0 + delta);
                    }
                    fresh_instance(e, next_id)
                }
            },
            None => fresh_instance(e, next_id),
        };
        let ghost rem_mid = removed@;
        let ghost delta_mid = delta;
        let ghost nid_mid = *next_id;
        let ghost skel_ids = tree_ids(inst0);
        proof {
            if inst0.first_update {
                assert(tree_ids_children(inst0.children.item_seq()) =~= Seq::<u64>::empty());
                assert(skel_ids =~= seq![inst0.id] + tree_ids_children(
                    inst0.children.item_seq(),
                ));
                assert(skel_ids =~= seq![inst0.id]);
            }
        }
        let inst1 = update_instance(inst0, e, stack, next_id, removed);
        fresh.push_back(e.key, inst1);
        proof {
            let du = removed@.skip(rem_mid.len() as int);
            assert(removed@ =~= rem_mid + du);
            delta = delta + du;
            assert(removed@ =~= rem0 + delta);
            lemma_tree_ids_children_push(fresh_a, inst1);
            assert(spec_keys_of(elems@.take(j as int + 1)) =~= spec_keys_of(
                elems@.take(j as int),
            ).push(e.key));
            assert forall|id: u64|
                seq_count(tree_ids_children(fresh.item_seq()), id) + seq_count(delta, id)
                    + seq_count(tree_ids_children(old_map.item_seq()), id) == seq_count(
                    tree_ids_children(item0),
                    id,
                ) + range_cnt(n0 as int, *next_id as int, id) by {
                lemma_seq_count_concat(tree_ids_children(fresh_a), tree_ids(inst1), id);
                lemma_seq_count_concat(delta_mid, du, id);
                if fi != -1 {
                    let pre = tree_ids_children(curi.take(fi));
                    let mid = tree_ids(curi[fi]);
                    let post = tree_ids_children(curi.remove(fi).skip(fi));
                    lemma_seq_count_concat(pre, mid, id);
                    lemma_seq_count_concat(pre + mid, post, id);
                    lemma_seq_count_concat(pre, post, id);
                }
                if inst0.first_update {
                    lemma_seq_count_singleton(inst0.id, id);
                    if fi != -1 {
                        // the mismatched instance was logged before the update
                        lemma_seq_count_concat(delta_a, tree_ids(curi[fi]), id);
                    }
                }
            }
        }
        j = j + 1;
    }
    proof {
        assert(elems@.take(n as int) =~= elems@);
        assert(elems@.skip(n as int) =~= Seq::<AnyElement>::empty());
        assert(m.matched.skip(n as int) =~= Seq::<Option<InstantiatedComponent>>::empty());
        assert(m.matched =~= m.matched.skip(0));
    }
    // Anything left in the previous map was never claimed: tear it down.
    let (left_keys, left_items) = old_map.into_columns();
    let ghost left0 = left_items@;
    let ghost rem_b = removed@;
    let ghost delta_b = delta;
    let n2 = left_items.len();
    let mut k: usize = 0;
    #[verifier::loop_isolation(false)]
    while k < n2
        invariant
            0 <= k <= n2,
            n2 == left0.len(),
            removed@ == rem_b + tree_ids_children(left0.take(k as int)),
        decreases n2 - k,
    {
        walk_ids(&left_items[k], removed);
        proof {
            lemma_tree_ids_children_take_step(left0, k as int);
            assert(removed@ =~= rem_b + tree_ids_children(left0.take(k as int + 1)));
        }
        k = k + 1;
    }
    proof {
        assert(left0.take(n2 as int) =~= left0);
        delta = delta_b + tree_ids_children(left0);
        assert(removed@ =~= rem0 + delta);
    }
    let frozen = RemoveOnlyMultimap::from_append(fresh);
    let (rkeys, ritems) = frozen.into_columns();
    let r = Components { keys: rkeys, items: ritems };
    proof {
        assert(removed@.skip(rem0.len() as int) =~= delta);
        assert(rem0.is_prefix_of(removed@));
        assert forall|id: u64|
            seq_count(tree_ids_children(r.item_seq()), id) + seq_count(delta, id) == seq_count(
                tree_ids_children(item0),
                id,
            ) + range_cnt(n0 as int, *next_id as int, id) by {
            lemma_seq_count_concat(delta_b, tree_ids_children(left0), id);
        }
        assert(left0 == m.left_items);
        assert forall|id: u64|
            seq_count(tree_ids_children(m.left_items), id) <= seq_count(delta, id) by {
            lemma_seq_count_concat(delta_b, tree_ids_children(left0), id);
            lemma_seq_count_bounds(delta_b, id);
        }
    }
    r
}

} // verus!

verus! {

/// Whether an instance or any of its hooks or descendants has pending
/// asynchronous work that should trigger a re-render.
pub open spec fn spec_tree_dirty(inst: InstantiatedComponent) -> bool
    decreases inst, 0int,
{
    any_dirty(inst.hooks@) || spec_children_dirty(inst.children.item_seq())
}

/// Whether any subtree of a row is dirty.
pub open spec fn spec_children_dirty(items: Seq<InstantiatedComponent>) -> bool
    decreases items, 1int,
{
    if items.len() == 0 {
        false
    } else {
        spec_tree_dirty(items.first()) || spec_children_dirty(items.drop_first())
    }
}

/// One more subtree extends a row's dirtiness.
pub proof fn lemma_children_dirty_take_step(items: Seq<InstantiatedComponent>, k: int)
    requires
        0 <= k < items.len(),
    ensures
        spec_children_dirty(items.take(k + 1)) == (spec_children_dirty(items.take(k))
            || spec_tree_dirty(items[k])),
    decreases k,
{
    if k == 0 {
        assert(items.take(1).first() == items[0]);
        assert(items.take(1).drop_first() =~= items.take(0));
    } else {
        lemma_children_dirty_take_step(items.drop_first(), k - 1);
        assert(items.take(k + 1).first() == items.first());
        assert(items.take(k + 1).drop_first() =~= items.drop_first().take(k));
        assert(items.take(k).first() == items.first());
        assert(items.take(k).drop_first() =~= items.drop_first().take(k - 1));
        assert(items.drop_first()[k - 1] == items[k]);
    }
}

/// `after` is `before` with every dirty mark in the subtree cleared and
/// everything else unchanged.
pub open spec fn spec_cleared(before: InstantiatedComponent, after: InstantiatedComponent) -> bool
    decreases before,
{
    &&& after.id == before.id
    &&& after.props_tag == before.props_tag
    &&& after.first_update == before.first_update
    &&& after.layout == before.layout
    &&& after.transparent == before.transparent
    &&& after.text == before.text
    &&& after.scroll == before.scroll
    &&& after.scroll_bars == before.scroll_bars
    &&& after.last_area == before.last_area
    &&& after.last_area == before.last_area
    &&& after.last_area == before.last_area
    &&& after.hooks@.len() == before.hooks@.len()
    &&& forall|i: int|
        0 <= i < before.hooks@.len() ==> #[trigger] after.hooks@[i] == (HookBox {
            tag: before.hooks@[i].tag,
            value: before.hooks@[i].value,
            dirty: false,
        })
    &&& after.children.key_seq() == before.children.key_seq()
    &&& after.children.item_seq().len() == before.children.item_seq().len()
    &&& forall|k: int|
        0 <= k < before.children.item_seq().len() ==> spec_cleared(
            #[trigger] before.children.item_seq()[k],
            after.children.item_seq()[k],
        )
}

/// Polls one instance: reports whether it or any of its hooks or
/// descendants was dirty, and clears every dirty mark, so that the same
/// change is surfaced once.
pub fn poll_change(inst: InstantiatedComponent) -> (r: (InstantiatedComponent, bool))
    ensures
        r.1 == spec_tree_dirty(inst),
        spec_cleared(inst, r.0),
    decreases inst,
{
    let ghost inst_entry = inst;
    let mut inst = inst;
    let mut ready = poll_hook_boxes(&mut inst.hooks);
    let mut items: Vec<InstantiatedComponent> = Vec::new();
    core::mem::swap(&mut inst.children.items, &mut items);
    let ghost items0 = items@;
    let mut out: Vec<InstantiatedComponent> = Vec::new();
    let n = items.len();
    let mut k: usize = 0;
    #[verifier::loop_isolation(false)]
    while k < n
        invariant
            0 <= k <= n,
            n == items0.len(),
            items@ == items0.skip(k as int),
            out@.len() == k,
            forall|i: int| 0 <= i < k ==> spec_cleared(items0[i], #[trigger] out@[i]),
            ready == (any_dirty(inst_entry.hooks@) || spec_children_dirty(
                items0.take(k as int),
            )),
        decreases n - k,
    {
        let child = items.remove(0);
        proof {
            assert(child == items0[k as int]);
            assert(items0.skip(k as int).drop_first() =~= items0.skip(k as int + 1));
            assert(decreases_to!(inst_entry => inst_entry.children.items@[k as int]));
        }
        let (child2, rdy) = poll_change(child);
        if rdy {
            ready = true;
        }
        out.push(child2);
        proof {
            lemma_children_dirty_take_step(items0, k as int);
        }
        k = k + 1;
    }
    core::mem::swap(&mut inst.children.items, &mut out);
    proof {
        assert(items0.take(n as int) =~= items0);
    }
    (inst, ready)
}

/// A row of subtrees, polled one after the other.
pub fn poll_children(c: Components) -> (r: (Components, bool))
    ensures
        r.1 == spec_children_dirty(c.item_seq()),
        r.0.key_seq() == c.key_seq(),
        r.0.item_seq().len() == c.item_seq().len(),
        forall|k: int|
            0 <= k < c.item_seq().len() ==> spec_cleared(
                #[trigger] c.item_seq()[k],
                r.0.item_seq()[k],
            ),
{
    let Components { keys, mut items } = c;
    let ghost items0 = items@;
    let mut out: Vec<InstantiatedComponent> = Vec::new();
    let mut ready = false;
    let n = items.len();
    let mut k: usize = 0;
    #[verifier::loop_isolation(false)]
    while k < n
        invariant
            0 <= k <= n,
            n == items0.len(),
            items@ == items0.skip(k as int),
            out@.len() == k,
            forall|i: int| 0 <= i < k ==> spec_cleared(items0[i], #[trigger] out@[i]),
            ready == spec_children_dirty(items0.take(k as int)),
        decreases n - k,
    {
        let child = items.remove(0);
        proof {
            assert(child == items0[k as int]);
            assert(items0.skip(k as int).drop_first() =~= items0.skip(k as int + 1));
        }
        let (child2, rdy) = poll_change(child);
        if rdy {
            ready = true;
        }
        out.push(child2);
        proof {
            lemma_children_dirty_take_step(items0, k as int);
        }
        k = k + 1;
    }
    proof {
        assert(items0.take(n as int) =~= items0);
    }
    (Components { keys, items: out }, ready)
}

} // verus!

verus! {

/// Whether the cell `(x, y)` lies inside `area`.
pub open spec fn cell_in(area: Rect, x: int, y: int) -> bool {
    area.x <= x < area.x + area.width && area.y <= y < area.y + area.height
}

impl Components {
    /// The children's sizing tokens along one axis, in declaration
    /// order: their width tokens across a horizontal flow, their height
    /// tokens down a vertical one.
    pub fn get_constraints(&self, direction: Direction) -> (r: Vec<Constraint>)
        ensures
            r@.len() == self.item_seq().len(),
            forall|k: int|
                0 <= k < r@.len() ==> #[trigger] r@[k] == (match direction {
                    Direction::Horizontal => self.item_seq()[k].layout.width,
                    Direction::Vertical => self.item_seq()[k].layout.height,
                }),
    {
        let n = self.items.len();
        let mut r: Vec<Constraint> = Vec::new();
        let mut k: usize = 0;
        #[verifier::loop_isolation(false)]
        while k < n
            invariant
                0 <= k <= n,
                r@.len() == k,
                forall|i: int|
                    0 <= i < k ==> #[trigger] r@[i] == (match direction {
                        Direction::Horizontal => self.item_seq()[i].layout.width,
                        Direction::Vertical => self.item_seq()[i].layout.height,
                    }),
            decreases n - k,
        {
            let c = match direction {
                Direction::Horizontal => self.items[k].layout.get_width(),
                Direction::Vertical => self.items[k].layout.get_height(),
            };
            r.push(c);
            k = k + 1;
        }
        r
    }
}

/// Draws one instance into the buffer, exactly as [`spec_draw_grid`]
/// states: a leaf paints its text at the top-left corner of its area; a
/// container splits its area (after its margin) among its children by
/// their sizing tokens and draws each child into its region, in
/// declaration order; a transparent container hands its whole area to
/// every child; a scrollable container draws its children onto a
/// content-sized canvas and copies the window at its scroll position
/// into the area left of its scrollbars. No cell outside `area` is
/// touched.
#[verifier::rlimit(100)]
pub fn draw_inst(inst: &InstantiatedComponent, area: Rect, buf: &mut crate::buffer::TextBuffer)
    requires
        old(buf).wf(),
        area.x + area.width <= 0xFFFF,
        area.y + area.height <= 0xFFFF,
    ensures
        final(buf).wf(),
        final(buf).spec_width() == old(buf).spec_width(),
        final(buf).spec_height() == old(buf).spec_height(),
        final(buf)@ == spec_draw_grid(*inst, area, old(buf)@),
        final(buf)@.len() == old(buf)@.len(),
        forall|y: int|
            0 <= y < old(buf)@.len() ==> (#[trigger] final(buf)@[y]).len() == old(buf)@[y].len(),
        forall|y: int, x: int|
            0 <= y < old(buf)@.len() && 0 <= x < old(buf)@[y].len() && !cell_in(area, x, y)
                ==> final(buf)@[y][x] == old(buf)@[y][x],
    decreases *inst,
{
    let ghost items = inst.children.item_seq();
    if inst.props_tag == crate::element::TEXT_TAG || inst.props_tag
        == crate::element::STATE_TEXT_TAG || inst.props_tag == crate::element::EVENT_TEXT_TAG {
        buf.paint_text(area, &inst.text);
        return ;
    }
    let n = inst.children.items.len();
    if inst.transparent {
        let ghost areas = Seq::new(items.len(), |k: int| area);
        let ghost grid0 = buf@;
        let mut k: usize = 0;
        #[verifier::loop_isolation(false)]
        while k < n
            invariant
                0 <= k <= n,
                buf.wf(),
                buf.spec_width() == old(buf).spec_width(),
                buf.spec_height() == old(buf).spec_height(),
                buf@.len() == old(buf)@.len(),
                forall|y: int|
                    0 <= y < old(buf)@.len() ==> (#[trigger] buf@[y]).len() == old(buf)@[y].len(),
                buf@ == spec_draw_row(items.take(k as int), areas.take(k as int), grid0),
                forall|y: int, x: int|
                    0 <= y < old(buf)@.len() && 0 <= x < old(buf)@[y].len() && !cell_in(area, x, y)
                        ==> buf@[y][x] == old(buf)@[y][x],
            decreases n - k,
        {
            proof {
                assert(decreases_to!(*inst => inst.children.items@[k as int]));
            }
            draw_inst(&inst.children.items[k], area, buf);
            proof {
                lemma_draw_row_take_step(items, areas, grid0, k as int);
            }
            k = k + 1;
        }
        proof {
            assert(items.take(n as int) =~= items);
            assert(areas.take(n as int) =~= areas);
        }
    } else if inst.props_tag == crate::element::SCROLL_VIEW_TAG {
        let main_cs = inst.children.get_constraints(inst.layout.flex_direction);
        let cross_dir = match inst.layout.flex_direction {
            Direction::Horizontal => Direction::Vertical,
            Direction::Vertical => Direction::Horizontal,
        };
        let cross_cs = inst.children.get_constraints(cross_dir);
        proof {
            assert(main_cs@ =~= spec_constraints(items, inst.layout.flex_direction));
            assert(cross_cs@ =~= spec_constraints(items, spec_cross_dir(inst.layout.flex_direction)));
        }
        let plan = crate::layout::scroll_view_plan(
            area,
            &inst.layout,
            &main_cs,
            &cross_cs,
            &inst.scroll_bars,
        );
        let mut canvas = crate::buffer::TextBuffer::new(plan.content.width, plan.content.height);
        let ghost areas = plan.areas@;
        let ghost grid0 = canvas@;
        let mut k: usize = 0;
        #[verifier::loop_isolation(false)]
        while k < n
            invariant
                0 <= k <= n,
                canvas.wf(),
                canvas.spec_width() == plan.content.width,
                canvas.spec_height() == plan.content.height,
                canvas@ == spec_draw_row(items.take(k as int), areas.take(k as int), grid0),
            decreases n - k,
        {
            proof {
                assert(decreases_to!(*inst => inst.children.items@[k as int]));
                assert(rect_within(areas[k as int], plan.content));
            }
            let child_area = plan.areas[k];
            draw_inst(&inst.children.items[k], child_area, &mut canvas);
            proof {
                lemma_draw_row_take_step(items, areas, grid0, k as int);
            }
            k = k + 1;
        }
        let avail = Rect {
            x: area.x,
            y: area.y,
            width: if plan.vertical_bar && area.width > 0 {
                area.width - 1
            } else {
                area.width
            },
            height: if plan.horizontal_bar && area.height > 0 {
                area.height - 1
            } else {
                area.height
            },
        };
        buf.blit(avail, &canvas, inst.scroll.offset_x, inst.scroll.offset_y);
        proof {
            assert(items.take(n as int) =~= items);
            assert(areas.take(n as int) =~= areas);
            let m_spec = spec_constraints(items, inst.layout.flex_direction);
            let c_spec = spec_constraints(items, spec_cross_dir(inst.layout.flex_direction));
            let measured = crate::layout::spec_scroll_content(area, inst.layout, m_spec, c_spec);
            let bars = (plan.horizontal_bar, plan.vertical_bar);
            assert(bars.0 == crate::layout::spec_bar_visible(
                inst.scroll_bars.horizontal,
                area.width - measured.0 + 1,
            ));
            assert(bars.1 == crate::layout::spec_bar_visible(
                inst.scroll_bars.vertical,
                area.height - measured.1 + 1,
            ));
            let avail_spec = crate::layout::spec_scroll_avail(area, bars);
            assert(avail == avail_spec);
            let sized = crate::layout::spec_scroll_content(avail_spec, inst.layout, m_spec, c_spec);
            crate::layout::lemma_scroll_content_bounds(avail_spec, inst.layout, m_spec, c_spec);
            assert(plan.content == (Rect {
                x: 0u16,
                y: 0u16,
                width: sized.0 as u16,
                height: sized.1 as u16,
            }));
            assert(grid0 == crate::buffer::spec_blank(sized.0, sized.1));
            let main_total = if inst.layout.flex_direction is Horizontal {
                avail_spec.width as int
            } else {
                avail_spec.height as int
            };
            let cross_total = if inst.layout.flex_direction is Horizontal {
                avail_spec.height as int
            } else {
                avail_spec.width as int
            };
            assert(areas == crate::layout::spec_children_areas(
                plan.content,
                inst.layout,
                crate::layout::spec_frozen_tokens(m_spec, main_total),
                crate::layout::spec_frozen_tokens(c_spec, cross_total),
            ));
            assert(canvas@ == spec_draw_row(items, areas, crate::buffer::spec_blank(
                sized.0,
                sized.1,
            )));
            assert(buf@ == spec_draw_grid(*inst, area, old(buf)@));
            assert forall|y: int, x: int|
                0 <= y < old(buf)@.len() && 0 <= x < old(buf)@[y].len() && !cell_in(area, x, y)
                    implies buf@[y][x] == old(buf)@[y][x] by {
                assert(!(avail.x <= x < avail.x + avail.width && avail.y <= y < avail.y
                    + avail.height));
            }
        }
    } else {
        proof {
            crate::layout::lemma_inner_area_within(inst.layout, area);
        }
        let inner = inst.layout.inner_area(area);
        let main_cs = inst.children.get_constraints(inst.layout.flex_direction);
        let cross_dir = match inst.layout.flex_direction {
            Direction::Horizontal => Direction::Vertical,
            Direction::Vertical => Direction::Horizontal,
        };
        let cross_cs = inst.children.get_constraints(cross_dir);
        proof {
            assert(main_cs@ =~= spec_constraints(items, inst.layout.flex_direction));
            assert(cross_cs@ =~= spec_constraints(items, spec_cross_dir(inst.layout.flex_direction)));
        }
        let areas = crate::layout::calc_children_areas(inner, &inst.layout, &main_cs, &cross_cs);
        let ghost areas_g = areas@;
        let ghost grid0 = buf@;
        let mut k: usize = 0;
        #[verifier::loop_isolation(false)]
        while k < n
            invariant
                0 <= k <= n,
                buf.wf(),
                buf.spec_width() == old(buf).spec_width(),
                buf.spec_height() == old(buf).spec_height(),
                buf@.len() == old(buf)@.len(),
                forall|y: int|
                    0 <= y < old(buf)@.len() ==> (#[trigger] buf@[y]).len() == old(buf)@[y].len(),
                buf@ == spec_draw_row(items.take(k as int), areas_g.take(k as int), grid0),
                forall|y: int, x: int|
                    0 <= y < old(buf)@.len() && 0 <= x < old(buf)@[y].len() && !cell_in(area, x, y)
                        ==> buf@[y][x] == old(buf)@[y][x],
            decreases n - k,
        {
            proof {
                assert(decreases_to!(*inst => inst.children.items@[k as int]));
                assert(rect_within(areas_g[k as int], inner));
            }
            let child_area = areas[k];
            let ghost pre = buf@;
            draw_inst(&inst.children.items[k], child_area, buf);
            proof {
                lemma_draw_row_take_step(items, areas_g, grid0, k as int);
                assert forall|y: int, x: int|
                    0 <= y < old(buf)@.len() && 0 <= x < old(buf)@[y].len() && !cell_in(area, x, y)
                        implies buf@[y][x] == old(buf)@[y][x] by {
                    assert(!cell_in(child_area, x, y));
                    assert(buf@[y][x] == pre[y][x]);
                }
            }
            k = k + 1;
        }
        proof {
            assert(items.take(n as int) =~= items);
            assert(areas_g.take(n as int) =~= areas_g);
        }
    }
}

} // verus!

verus! {

/// Clearing dirty marks changes no identifier, leaves nothing dirty, and
/// keeps an instance well-formed.
pub proof fn lemma_cleared_preserves(a: InstantiatedComponent, b: InstantiatedComponent)
    requires
        spec_cleared(a, b),
    ensures
        tree_ids(b) == tree_ids(a),
        !spec_tree_dirty(b),
        wf_inst(a) ==> wf_inst(b),
    decreases a, 0int,
{
    lemma_cleared_row(a.children.item_seq(), b.children.item_seq());
    assert(tree_ids(b) =~= tree_ids(a));
    assert(!any_dirty(b.hooks@));
}

/// The row form of [`lemma_cleared_preserves`].
pub proof fn lemma_cleared_row(a: Seq<InstantiatedComponent>, b: Seq<InstantiatedComponent>)
    requires
        a.len() == b.len(),
        forall|k: int| 0 <= k < a.len() ==> spec_cleared(#[trigger] a[k], b[k]),
    ensures
        tree_ids_children(b) == tree_ids_children(a),
        !spec_children_dirty(b),
        (forall|k: int| 0 <= k < a.len() ==> wf_inst(#[trigger] a[k])) ==> (forall|k: int|
            0 <= k < b.len() ==> wf_inst(#[trigger] b[k])),
    decreases a, 1int,
{
    if a.len() > 0 {
        lemma_cleared_preserves(a.first(), b.first());
        assert(a.drop_first().len() == b.drop_first().len());
        assert forall|k: int| 0 <= k < a.drop_first().len() implies spec_cleared(
            #[trigger] a.drop_first()[k],
            b.drop_first()[k],
        ) by {
            assert(a.drop_first()[k] == a[k + 1]);
            assert(b.drop_first()[k] == b[k + 1]);
        }
        lemma_cleared_row(a.drop_first(), b.drop_first());
        assert(tree_ids_children(b) =~= tree_ids_children(a));
        if forall|k: int| 0 <= k < a.len() ==> wf_inst(#[trigger] a[k]) {
            assert forall|k: int| 0 <= k < b.len() implies wf_inst(#[trigger] b[k]) by {
                if k == 0 {
                    assert(wf_inst(a[0]));
                    assert(spec_cleared(a[0], b[0]));
                } else {
                    assert(wf_inst(a.drop_first()[k - 1]));
                    assert(b.drop_first()[k - 1] == b[k]);
                }
            }
        }
    }
}

/// A dirty member makes the row dirty.
pub proof fn lemma_children_dirty_member(items: Seq<InstantiatedComponent>, k: int)
    requires
        0 <= k < items.len(),
        spec_tree_dirty(items[k]),
    ensures
        spec_children_dirty(items),
    decreases items,
{
    if k > 0 {
        lemma_children_dirty_member(items.drop_first(), k - 1);
    }
}

/// Whether `path` (from position `pos`) leads to an instance holding a
/// hook box at `hook_idx`: the address a state write goes to.
pub open spec fn spec_path_valid(
    inst: InstantiatedComponent,
    path: Seq<usize>,
    pos: int,
    hook_idx: int,
) -> bool
    decreases path.len() - pos when pos <= path.len()
{
    if pos >= path.len() {
        0 <= hook_idx < inst.hooks@.len()
    } else {
        let i = path[pos] as int;
        0 <= i < inst.children.item_seq().len() && spec_path_valid(
            inst.children.item_seq()[i],
            path,
            pos + 1,
            hook_idx,
        )
    }
}

/// `after` is `before` with exactly the addressed hook box overwritten
/// (its value modelling `vm`, its dirty mark set) and everything else
/// unchanged.
pub open spec fn spec_written(
    before: InstantiatedComponent,
    after: InstantiatedComponent,
    path: Seq<usize>,
    pos: int,
    hook_idx: int,
    vm: ValueModel,
) -> bool
    decreases path.len() - pos when pos <= path.len()
{
    &&& after.id == before.id
    &&& after.props_tag == before.props_tag
    &&& after.first_update == before.first_update
    &&& after.layout == before.layout
    &&& after.transparent == before.transparent
    &&& after.text == before.text
    &&& after.scroll == before.scroll
    &&& after.scroll_bars == before.scroll_bars
    &&& if pos >= path.len() {
        &&& 0 <= hook_idx < before.hooks@.len()
        &&& after.hooks@.len() == before.hooks@.len()
        &&& forall|i: int|
            0 <= i < before.hooks@.len() && i != hook_idx ==> #[trigger] after.hooks@[i]
                == before.hooks@[i]
        &&& after.hooks@[hook_idx].tag == before.hooks@[hook_idx].tag
        &&& after.hooks@[hook_idx].value@ == vm
        &&& after.hooks@[hook_idx].dirty
        &&& after.children == before.children
    } else {
        let i = path[pos] as int;
        &&& after.hooks@ == before.hooks@
        &&& 0 <= i < before.children.item_seq().len()
        &&& after.children.key_seq() == before.children.key_seq()
        &&& after.children.item_seq().len() == before.children.item_seq().len()
        &&& forall|k: int|
            0 <= k < before.children.item_seq().len() && k != i
                ==> #[trigger] after.children.item_seq()[k] == before.children.item_seq()[k]
        &&& spec_written(
            before.children.item_seq()[i],
            after.children.item_seq()[i],
            path,
            pos + 1,
            hook_idx,
            vm,
        )
    }
}

/// A written instance polls dirty.
pub proof fn lemma_written_dirty(
    before: InstantiatedComponent,
    after: InstantiatedComponent,
    path: Seq<usize>,
    pos: int,
    hook_idx: int,
    vm: ValueModel,
)
    requires
        0 <= pos <= path.len(),
        spec_written(before, after, path, pos, hook_idx, vm),
    ensures
        spec_tree_dirty(after),
    decreases path.len() - pos,
{
    if pos >= path.len() {
        assert(after.hooks@[hook_idx].dirty);
        assert(any_dirty(after.hooks@));
    } else {
        let i = path[pos] as int;
        lemma_written_dirty(
            before.children.item_seq()[i],
            after.children.item_seq()[i],
            path,
            pos + 1,
            hook_idx,
            vm,
        );
        lemma_children_dirty_member(after.children.item_seq(), i);
    }
}

/// A state write keeps the tree well-formed and its identifiers
/// unchanged.
pub proof fn lemma_written_preserves(
    before: InstantiatedComponent,
    after: InstantiatedComponent,
    path: Seq<usize>,
    pos: int,
    hook_idx: int,
    vm: ValueModel,
)
    requires
        0 <= pos <= path.len(),
        spec_written(before, after, path, pos, hook_idx, vm),
    ensures
        tree_ids(after) == tree_ids(before),
        wf_inst(before) ==> wf_inst(after),
    decreases path.len() - pos,
{
    if pos >= path.len() {
        assert(tree_ids(after) =~= tree_ids(before));
    } else {
        let i = path[pos] as int;
        lemma_written_preserves(
            before.children.item_seq()[i],
            after.children.item_seq()[i],
            path,
            pos + 1,
            hook_idx,
            vm,
        );
        lemma_tree_ids_children_remove(before.children.item_seq(), i);
        lemma_tree_ids_children_remove(after.children.item_seq(), i);
        before.children.item_seq().remove_ensures(i);
        after.children.item_seq().remove_ensures(i);
        assert(before.children.item_seq().take(i) =~= after.children.item_seq().take(i));
        assert(before.children.item_seq().remove(i).skip(i) =~= after.children.item_seq().remove(
            i,
        ).skip(i));
        assert(tree_ids_children(after.children.item_seq()) == tree_ids_children(
            before.children.item_seq(),
        ));
        assert(tree_ids(after) =~= tree_ids(before));
    }
}

/// Whether `path` leads to a hook box, without touching anything.
pub fn path_valid(
    inst: &InstantiatedComponent,
    path: &Vec<usize>,
    pos: usize,
    hook_idx: usize,
) -> (r: bool)
    requires
        pos <= path@.len(),
    ensures
        r == spec_path_valid(*inst, path@, pos as int, hook_idx as int),
    decreases path@.len() - pos,
{
    if pos == path.len() {
        hook_idx < inst.hooks.len()
    } else {
        let i = path[pos];
        if i < inst.children.items.len() {
            path_valid(&inst.children.items[i], path, pos + 1, hook_idx)
        } else {
            false
        }
    }
}

/// Writes `value` into the hook box `path` leads to, marking it dirty.
pub fn write_at(
    inst: &mut InstantiatedComponent,
    path: &Vec<usize>,
    pos: usize,
    hook_idx: usize,
    value: Value,
)
    requires
        pos <= path@.len(),
        spec_path_valid(*old(inst), path@, pos as int, hook_idx as int),
    ensures
        spec_written(*old(inst), *final(inst), path@, pos as int, hook_idx as int, value@),
    decreases path@.len() - pos,
{
    if pos == path.len() {
        let tag = inst.hooks[hook_idx].tag;
        let b = &mut inst.hooks[hook_idx];
        *b = HookBox { tag, value, dirty: true };
    } else {
        let i = path[pos];
        let child = &mut inst.children.items[i];
        write_at(child, path, pos + 1, hook_idx, value);
    }
}

} // verus!

verus! {

/// The children's sizing tokens along one axis, as a row.
pub open spec fn spec_constraints(items: Seq<InstantiatedComponent>, direction: Direction) -> Seq<
    Constraint,
> {
    Seq::new(
        items.len(),
        |k: int|
            match direction {
                Direction::Horizontal => items[k].layout.width,
                Direction::Vertical => items[k].layout.height,
            },
    )
}

/// The cross direction of a flow.
pub open spec fn spec_cross_dir(direction: Direction) -> Direction {
    match direction {
        Direction::Horizontal => Direction::Vertical,
        Direction::Vertical => Direction::Horizontal,
    }
}

/// The frame of a scrollable container inside `area`: the visible part
/// left once its scrollbars are reserved, and the content-sized canvas
/// its children are drawn onto.
pub open spec fn spec_scroll_frame(inst: InstantiatedComponent, area: Rect) -> (Rect, Rect) {
    let items = inst.children.item_seq();
    let main_cs = spec_constraints(items, inst.layout.flex_direction);
    let cross_cs = spec_constraints(items, spec_cross_dir(inst.layout.flex_direction));
    let measured = crate::layout::spec_scroll_content(area, inst.layout, main_cs, cross_cs);
    let bars = (
        crate::layout::spec_bar_visible(inst.scroll_bars.horizontal, area.width - measured.0 + 1),
        crate::layout::spec_bar_visible(inst.scroll_bars.vertical, area.height - measured.1 + 1),
    );
    let avail = crate::layout::spec_scroll_avail(area, bars);
    let sized = crate::layout::spec_scroll_content(avail, inst.layout, main_cs, cross_cs);
    (avail, Rect { x: 0u16, y: 0u16, width: sized.0 as u16, height: sized.1 as u16 })
}

/// The region each child of `inst` is drawn into when `inst` draws over
/// `area`: the whole area under a transparent container, a region of the
/// content canvas under a scrollable one, and a region of the area left
/// inside the margin under any other container.
pub open spec fn spec_child_draw_areas(inst: InstantiatedComponent, area: Rect) -> Seq<Rect> {
    let items = inst.children.item_seq();
    if inst.transparent {
        Seq::new(items.len(), |k: int| area)
    } else if inst.props_tag == crate::element::SCROLL_VIEW_TAG {
        let frame = spec_scroll_frame(inst, area);
        let avail = frame.0;
        let main_total = if inst.layout.flex_direction is Horizontal {
            avail.width as int
        } else {
            avail.height as int
        };
        let cross_total = if inst.layout.flex_direction is Horizontal {
            avail.height as int
        } else {
            avail.width as int
        };
        crate::layout::spec_children_areas(
            frame.1,
            inst.layout,
            crate::layout::spec_frozen_tokens(
                spec_constraints(items, inst.layout.flex_direction),
                main_total,
            ),
            crate::layout::spec_frozen_tokens(
                spec_constraints(items, spec_cross_dir(inst.layout.flex_direction)),
                cross_total,
            ),
        )
    } else {
        crate::layout::spec_children_areas(
            crate::layout::spec_inner_area(inst.layout, area),
            inst.layout,
            spec_constraints(items, inst.layout.flex_direction),
            spec_constraints(items, spec_cross_dir(inst.layout.flex_direction)),
        )
    }
}

/// What one draw pass leaves in the grid: a leaf paints its text at its
/// area's top-left corner; a transparent container hands its whole area
/// to every child in order; a scrollable container draws its children
/// onto a content-sized canvas and copies the window at its scroll
/// position into the area left of its scrollbars; any other container
/// splits its area (after its margin) by its children's sizing tokens
/// and draws each child into its region, in declaration order.
pub open spec fn spec_draw_grid(
    inst: InstantiatedComponent,
    area: Rect,
    grid: Seq<Seq<char>>,
) -> Seq<Seq<char>>
    decreases inst, 0int,
{
    let items = inst.children.item_seq();
    if inst.props_tag == crate::element::TEXT_TAG || inst.props_tag
        == crate::element::STATE_TEXT_TAG || inst.props_tag == crate::element::EVENT_TEXT_TAG {
        crate::buffer::spec_paint(grid, area, inst.text@)
    } else if inst.transparent {
        spec_draw_row(items, spec_child_draw_areas(inst, area), grid)
    } else if inst.props_tag == crate::element::SCROLL_VIEW_TAG {
        let frame = spec_scroll_frame(inst, area);
        let canvas = spec_draw_row(
            items,
            spec_child_draw_areas(inst, area),
            crate::buffer::spec_blank(frame.1.width as int, frame.1.height as int),
        );
        crate::buffer::spec_blit(
            grid,
            frame.0,
            canvas,
            inst.scroll.offset_x as int,
            inst.scroll.offset_y as int,
        )
    } else {
        spec_draw_row(items, spec_child_draw_areas(inst, area), grid)
    }
}

/// A row of subtrees drawn one after the other, each into its region.
pub open spec fn spec_draw_row(
    items: Seq<InstantiatedComponent>,
    areas: Seq<Rect>,
    grid: Seq<Seq<char>>,
) -> Seq<Seq<char>>
    decreases items, 1int,
{
    if items.len() == 0 {
        grid
    } else {
        spec_draw_row(
            items.drop_first(),
            areas.drop_first(),
            spec_draw_grid(items.first(), areas.first(), grid),
        )
    }
}

/// Drawing one more subtree extends the row's effect at the back.
pub proof fn lemma_draw_row_take_step(
    items: Seq<InstantiatedComponent>,
    areas: Seq<Rect>,
    grid: Seq<Seq<char>>,
    k: int,
)
    requires
        0 <= k < items.len(),
        items.len() <= areas.len(),
    ensures
        spec_draw_row(items.take(k + 1), areas.take(k + 1), grid) == spec_draw_grid(
            items[k],
            areas[k],
            spec_draw_row(items.take(k), areas.take(k), grid),
        ),
    decreases k,
{
    if k == 0 {
        assert(items.take(1).first() == items[0]);
        assert(areas.take(1).first() == areas[0]);
        assert(items.take(1).drop_first() =~= items.take(0));
        assert(items.take(0) =~= Seq::<InstantiatedComponent>::empty());
        assert(spec_draw_row(items.take(0), areas.take(0), grid) == grid);
        assert(spec_draw_row(
            items.take(1).drop_first(),
            areas.take(1).drop_first(),
            spec_draw_grid(items[0], areas[0], grid),
        ) == spec_draw_grid(items[0], areas[0], grid));
    } else {
        lemma_draw_row_take_step(
            items.drop_first(),
            areas.drop_first(),
            spec_draw_grid(items.first(), areas.first(), grid),
            k - 1,
        );
        assert(items.take(k + 1).first() == items.first());
        assert(areas.take(k + 1).first() == areas.first());
        assert(items.take(k + 1).drop_first() =~= items.drop_first().take(k));
        assert(areas.take(k + 1).drop_first() =~= areas.drop_first().take(k));
        assert(items.take(k).first() == items.first());
        assert(areas.take(k).first() == areas.first());
        assert(items.take(k).drop_first() =~= items.drop_first().take(k - 1));
        assert(areas.take(k).drop_first() =~= areas.drop_first().take(k - 1));
        assert(items.drop_first()[k - 1] == items[k]);
        assert(areas.drop_first()[k - 1] == areas[k]);
    }
}

} // verus!

verus! {

/// `after` is `before` with every event cell in the subtree holding the
/// dispatched input code, marked dirty, and everything else unchanged.
pub open spec fn spec_dispatched(
    before: InstantiatedComponent,
    after: InstantiatedComponent,
    code: u64,
) -> bool
    decreases before,
{
    &&& after.id == before.id
    &&& after.props_tag == before.props_tag
    &&& after.first_update == before.first_update
    &&& after.layout == before.layout
    &&& after.transparent == before.transparent
    &&& after.text == before.text
    &&& after.scroll == before.scroll
    &&& after.scroll_bars == before.scroll_bars
    &&& after.hooks@.len() == before.hooks@.len()
    &&& forall|i: int|
        0 <= i < before.hooks@.len() ==> #[trigger] hook_model(after.hooks@[i]) == (
        if before.hooks@[i].tag == EVENT_CELL_TAG {
            (EVENT_CELL_TAG, crate::value::ValueModel::Int(code as i64 as int), true)
        } else {
            hook_model(before.hooks@[i])
        })
    &&& after.children.key_seq() == before.children.key_seq()
    &&& after.children.item_seq().len() == before.children.item_seq().len()
    &&& forall|k: int|
        0 <= k < before.children.item_seq().len() ==> spec_dispatched(
            #[trigger] before.children.item_seq()[k],
            after.children.item_seq()[k],
            code,
        )
}

/// Dispatching changes no identifier and keeps an instance well-formed.
pub proof fn lemma_dispatched_preserves(
    before: InstantiatedComponent,
    after: InstantiatedComponent,
    code: u64,
)
    requires
        spec_dispatched(before, after, code),
    ensures
        tree_ids(after) == tree_ids(before),
        wf_inst(before) ==> wf_inst(after),
    decreases before, 0int,
{
    lemma_dispatched_row(before.children.item_seq(), after.children.item_seq(), code);
    assert(tree_ids(after) =~= tree_ids(before));
    assert forall|i: int| 0 <= i < after.hooks@.len() implies after.hooks@[i].tag
        == before.hooks@[i].tag by {
        assert(hook_model(after.hooks@[i]) == (if before.hooks@[i].tag == EVENT_CELL_TAG {
            (EVENT_CELL_TAG, crate::value::ValueModel::Int(code as i64 as int), true)
        } else {
            hook_model(before.hooks@[i])
        }));
    }
}

/// The row form of [`lemma_dispatched_preserves`].
pub proof fn lemma_dispatched_row(
    a: Seq<InstantiatedComponent>,
    b: Seq<InstantiatedComponent>,
    code: u64,
)
    requires
        a.len() == b.len(),
        forall|k: int| 0 <= k < a.len() ==> spec_dispatched(#[trigger] a[k], b[k], code),
    ensures
        tree_ids_children(b) == tree_ids_children(a),
        (forall|k: int| 0 <= k < a.len() ==> wf_inst(#[trigger] a[k])) ==> (forall|k: int|
            0 <= k < b.len() ==> wf_inst(#[trigger] b[k])),
    decreases a, 1int,
{
    if a.len() > 0 {
        lemma_dispatched_preserves(a.first(), b.first(), code);
        assert forall|k: int| 0 <= k < a.drop_first().len() implies spec_dispatched(
            #[trigger] a.drop_first()[k],
            b.drop_first()[k],
            code,
        ) by {
            assert(a.drop_first()[k] == a[k + 1]);
            assert(b.drop_first()[k] == b[k + 1]);
        }
        lemma_dispatched_row(a.drop_first(), b.drop_first(), code);
        assert(tree_ids_children(b) =~= tree_ids_children(a));
        if forall|k: int| 0 <= k < a.len() ==> wf_inst(#[trigger] a[k]) {
            assert forall|k: int| 0 <= k < b.len() implies wf_inst(#[trigger] b[k]) by {
                if k == 0 {
                    assert(wf_inst(a[0]));
                    assert(spec_dispatched(a[0], b[0], code));
                } else {
                    assert(wf_inst(a.drop_first()[k - 1]));
                    assert(b.drop_first()[k - 1] == b[k]);
                }
            }
        }
    }
}

/// Delivers one input event to a subtree: every event cell receives the
/// code and is marked dirty, so the change surfaces through the next
/// poll; nothing else changes. This runs before the update pass that
/// follows the event.
pub fn dispatch_input_tree(inst: InstantiatedComponent, code: u64) -> (r: InstantiatedComponent)
    ensures
        spec_dispatched(inst, r, code),
    decreases inst,
{
    let ghost inst_entry = inst;
    let mut inst = inst;
    let n_hooks = inst.hooks.len();
    let mut i: usize = 0;
    #[verifier::loop_isolation(false)]
    while i < n_hooks
        invariant
            0 <= i <= n_hooks,
            inst.hooks@.len() == n_hooks,
            inst.id == inst_entry.id,
            inst.props_tag == inst_entry.props_tag,
            inst.first_update == inst_entry.first_update,
            inst.layout == inst_entry.layout,
            inst.transparent == inst_entry.transparent,
            inst.text == inst_entry.text,
            inst.scroll == inst_entry.scroll,
            inst.scroll_bars == inst_entry.scroll_bars,
            inst.last_area == inst_entry.last_area,
            inst.children == inst_entry.children,
            forall|j: int|
                0 <= j < i ==> #[trigger] hook_model(inst.hooks@[j]) == (
                if inst_entry.hooks@[j].tag == EVENT_CELL_TAG {
                    (EVENT_CELL_TAG, crate::value::ValueModel::Int(code as i64 as int), true)
                } else {
                    hook_model(inst_entry.hooks@[j])
                }),
            forall|j: int| i <= j < n_hooks ==> inst.hooks@[j] == inst_entry.hooks@[j],
        decreases n_hooks - i,
    {
        if inst.hooks[i].tag == EVENT_CELL_TAG {
            let b = &mut inst.hooks[i];
            *b = HookBox { tag: EVENT_CELL_TAG, value: Value::Int(code as i64), dirty: true };
        }
        i = i + 1;
    }
    let mut items: Vec<InstantiatedComponent> = Vec::new();
    core::mem::swap(&mut inst.children.items, &mut items);
    let ghost items0 = items@;
    let mut out: Vec<InstantiatedComponent> = Vec::new();
    let n = items.len();
    let mut k: usize = 0;
    #[verifier::loop_isolation(false)]
    while k < n
        invariant
            0 <= k <= n,
            n == items0.len(),
            items@ == items0.skip(k as int),
            out@.len() == k,
            forall|j: int| 0 <= j < k ==> spec_dispatched(items0[j], #[trigger] out@[j], code),
        decreases n - k,
    {
        let child = items.remove(0);
        proof {
            assert(child == items0[k as int]);
            assert(items0.skip(k as int).drop_first() =~= items0.skip(k as int + 1));
            assert(decreases_to!(inst_entry => inst_entry.children.items@[k as int]));
        }
        let child2 = dispatch_input_tree(child, code);
        out.push(child2);
        k = k + 1;
    }
    core::mem::swap(&mut inst.children.items, &mut out);
    inst
}

} // verus!

verus! {

/// `after` is `before` with every instance in the subtree remembering
/// the area the draw pass gave it — the root `area` here, each child the
/// region its parent computed for it — and everything else unchanged.
pub open spec fn spec_recorded(
    before: InstantiatedComponent,
    after: InstantiatedComponent,
    area: Rect,
) -> bool
    decreases before,
{
    &&& after.id == before.id
    &&& after.props_tag == before.props_tag
    &&& after.first_update == before.first_update
    &&& after.hooks == before.hooks
    &&& after.layout == before.layout
    &&& after.transparent == before.transparent
    &&& after.text == before.text
    &&& after.scroll == before.scroll
    &&& after.scroll_bars == before.scroll_bars
    &&& after.last_area == area
    &&& after.children.key_seq() == before.children.key_seq()
    &&& after.children.item_seq().len() == before.children.item_seq().len()
    &&& forall|k: int|
        0 <= k < before.children.item_seq().len() ==> spec_recorded(
            #[trigger] before.children.item_seq()[k],
            after.children.item_seq()[k],
            spec_child_draw_areas(before, area)[k],
        )
}

/// Recording draw areas changes no identifier and keeps an instance
/// well-formed.
pub proof fn lemma_recorded_preserves(
    before: InstantiatedComponent,
    after: InstantiatedComponent,
    area: Rect,
)
    requires
        spec_recorded(before, after, area),
    ensures
        tree_ids(after) == tree_ids(before),
        wf_inst(before) ==> wf_inst(after),
    decreases before, 0int,
{
    lemma_recorded_row(
        before.children.item_seq(),
        after.children.item_seq(),
        spec_child_draw_areas(before, area),
    );
    assert(tree_ids(after) =~= tree_ids(before));
}

/// The row form of [`lemma_recorded_preserves`].
pub proof fn lemma_recorded_row(
    a: Seq<InstantiatedComponent>,
    b: Seq<InstantiatedComponent>,
    areas: Seq<Rect>,
)
    requires
        a.len() == b.len(),
        a.len() <= areas.len(),
        forall|k: int| 0 <= k < a.len() ==> spec_recorded(#[trigger] a[k], b[k], areas[k]),
    ensures
        tree_ids_children(b) == tree_ids_children(a),
        (forall|k: int| 0 <= k < a.len() ==> wf_inst(#[trigger] a[k])) ==> (forall|k: int|
            0 <= k < b.len() ==> wf_inst(#[trigger] b[k])),
    decreases a, 1int,
{
    if a.len() > 0 {
        lemma_recorded_preserves(a.first(), b.first(), areas[0]);
        assert forall|k: int| 0 <= k < a.drop_first().len() implies spec_recorded(
            #[trigger] a.drop_first()[k],
            b.drop_first()[k],
            areas.drop_first()[k],
        ) by {
            assert(a.drop_first()[k] == a[k + 1]);
            assert(b.drop_first()[k] == b[k + 1]);
            assert(areas.drop_first()[k] == areas[k + 1]);
        }
        lemma_recorded_row(a.drop_first(), b.drop_first(), areas.drop_first());
        assert(tree_ids_children(b) =~= tree_ids_children(a));
        if forall|k: int| 0 <= k < a.len() ==> wf_inst(#[trigger] a[k]) {
            assert forall|k: int| 0 <= k < b.len() implies wf_inst(#[trigger] b[k]) by {
                if k == 0 {
                    assert(wf_inst(a[0]));
                    assert(spec_recorded(a[0], b[0], areas[0]));
                } else {
                    assert(wf_inst(a.drop_first()[k - 1]));
                    assert(b.drop_first()[k - 1] == b[k]);
                }
            }
        }
    }
}

/// Remembers, in every instance of the subtree, the area the draw pass
/// gives it: the lifecycle point a component reads on its next update to
/// learn the area it was just drawn into.
#[verifier::rlimit(100)]
pub fn record_draw_areas(inst: InstantiatedComponent, area: Rect) -> (r: InstantiatedComponent)
    requires
        area.x + area.width <= 0xFFFF,
        area.y + area.height <= 0xFFFF,
    ensures
        spec_recorded(inst, r, area),
    decreases inst,
{
    let ghost inst_entry = inst;
    let mut inst = inst;
    inst.last_area = area;
    let n = inst.children.items.len();
    let mut child_areas: Vec<Rect> = Vec::new();
    let mut same_area = false;
    if inst.transparent {
        same_area = true;
    } else if inst.props_tag == crate::element::SCROLL_VIEW_TAG {
        let main_cs = inst.children.get_constraints(inst.layout.flex_direction);
        let cross_dir = match inst.layout.flex_direction {
            Direction::Horizontal => Direction::Vertical,
            Direction::Vertical => Direction::Horizontal,
        };
        let cross_cs = inst.children.get_constraints(cross_dir);
        proof {
            assert(main_cs@ =~= spec_constraints(
                inst_entry.children.item_seq(),
                inst_entry.layout.flex_direction,
            ));
            assert(cross_cs@ =~= spec_constraints(
                inst_entry.children.item_seq(),
                spec_cross_dir(inst_entry.layout.flex_direction),
            ));
        }
        let plan = crate::layout::scroll_view_plan(
            area,
            &inst.layout,
            &main_cs,
            &cross_cs,
            &inst.scroll_bars,
        );
        child_areas = plan.areas;
        proof {
            assert(child_areas@ == spec_child_draw_areas(inst_entry, area));
        }
    } else {
        proof {
            crate::layout::lemma_inner_area_within(inst.layout, area);
        }
        let inner = inst.layout.inner_area(area);
        let main_cs = inst.children.get_constraints(inst.layout.flex_direction);
        let cross_dir = match inst.layout.flex_direction {
            Direction::Horizontal => Direction::Vertical,
            Direction::Vertical => Direction::Horizontal,
        };
        let cross_cs = inst.children.get_constraints(cross_dir);
        proof {
            assert(main_cs@ =~= spec_constraints(
                inst_entry.children.item_seq(),
                inst_entry.layout.flex_direction,
            ));
            assert(cross_cs@ =~= spec_constraints(
                inst_entry.children.item_seq(),
                spec_cross_dir(inst_entry.layout.flex_direction),
            ));
        }
        child_areas = crate::layout::calc_children_areas(inner, &inst.layout, &main_cs, &cross_cs);
        proof {
            assert(child_areas@ == spec_child_draw_areas(inst_entry, area));
        }
    }
    let ghost areas_spec = spec_child_draw_areas(inst_entry, area);
    let mut items: Vec<InstantiatedComponent> = Vec::new();
    core::mem::swap(&mut inst.children.items, &mut items);
    let ghost items0 = items@;
    let mut out: Vec<InstantiatedComponent> = Vec::new();
    let mut k: usize = 0;
    #[verifier::loop_isolation(false)]
    while k < n
        invariant
            0 <= k <= n,
            n == items0.len(),
            items@ == items0.skip(k as int),
            out@.len() == k,
            same_area == inst_entry.transparent,
            !same_area ==> child_areas@ == areas_spec,
            forall|j: int| 0 <= j < k ==> spec_recorded(items0[j], #[trigger] out@[j], areas_spec[j]),
        decreases n - k,
    {
        let child = items.remove(0);
        let child_area = if same_area {
            area
        } else {
            child_areas[k]
        };
        proof {
            assert(child == items0[k as int]);
            assert(items0.skip(k as int).drop_first() =~= items0.skip(k as int + 1));
            assert(decreases_to!(inst_entry => inst_entry.children.items@[k as int]));
            assert(child_area == areas_spec[k as int]);
            if !same_area && inst_entry.props_tag == crate::element::SCROLL_VIEW_TAG {
                assert(child_area.x + child_area.width <= 0xFFFF);
                assert(child_area.y + child_area.height <= 0xFFFF);
            }
        }
        let child2 = record_draw_areas(child, child_area);
        out.push(child2);
        k = k + 1;
    }
    core::mem::swap(&mut inst.children.items, &mut out);
    inst
}

} // verus!
