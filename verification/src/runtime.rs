//! The render-loop core: one runtime owns the authoritative instance
//! tree, updates it from fresh root elements, delivers input events to
//! subscribed cells before the update that follows them, polls the tree
//! for pending changes, paints it into a character buffer (recording
//! each instance's drawn area for the next frame), and accepts state
//! writes from background work through state-cell addresses.
//!
//! The loop itself races terminal input against change notifications
//! outside this crate; [`loop_step`] is the decision it applies to
//! whichever arrives first.

use vstd::prelude::*;

use crate::buffer::TextBuffer;
use crate::component::{
    draw_inst,
    elems_weight,
    path_valid,
    poll_children,
    seq_count,
    spec_children_dirty,
    spec_cleared,
    spec_keys_of,
    spec_path_valid,
    spec_reconcile,
    spec_written,
    tree_ids_children,
    update_children,
    wf_inst,
    write_at,
    lemma_cleared_row,
    lemma_children_dirty_member,
    lemma_written_dirty,
    lemma_written_preserves,
    lemma_tree_ids_children_remove,
    lemma_seq_count_bounds,
    lemma_seq_count_concat,
    Components,
    InstantiatedComponent,
};
use crate::context::{Context, ContextStack, SystemContext, SYSTEM_CONTEXT_TAG};
use crate::element::AnyElement;
use crate::key::ElementKey;
use crate::layout::Rect;
use crate::value::Value;

verus! {

/// What the render loop wakes up for: a terminal input event, a change
/// notification from background-held state, or the universal interrupt.
pub enum LoopEvent {
    /// An input event, as an opaque code the terminal layer assigns.
    Input(u64),
    /// Some background-held state became dirty.
    Change,
    /// The universal interrupt combination, which bypasses all
    /// dirty-checking.
    Interrupt,
}

/// What one loop iteration does next.
#[derive(PartialEq, Eq, Structural, Debug)]
pub enum LoopControl {
    /// Dispatch (for input), then run one update and draw pass.
    Render,
    /// Leave the loop and tear the terminal down.
    Exit,
}

/// The decision the render loop takes for one wake-up: the interrupt and
/// a raised exit request end the loop; any other input or change
/// notification triggers exactly one re-render.
pub fn loop_step(should_exit: bool, event: &LoopEvent) -> (r: LoopControl)
    ensures
        r == (if event is Interrupt || should_exit {
            LoopControl::Exit
        } else {
            LoopControl::Render
        }),
{
    match event {
        LoopEvent::Interrupt => LoopControl::Exit,
        _ => if should_exit {
            LoopControl::Exit
        } else {
            LoopControl::Render
        },
    }
}

/// Runs one complete update and draw pass over a fresh runtime: the
/// single-shot entry point for transcript-style output. The runtime
/// holds the instance `root` produced, and the buffer holds exactly what
/// the tree painted over a blank grid.
pub fn render(root: AnyElement, width: u16, height: u16) -> (r: (TreeRuntime, TextBuffer))
    requires
        crate::component::elem_weight(root) <= u64::MAX,
    ensures
        r.0.wf(),
        r.0.spec_root().len() == 1,
        r.0.spec_root_keys() == seq![root.key],
        r.0.spec_root()[0].props_tag == crate::element::spec_props_tag(root.props),
        crate::component::spec_kind_shape(r.0.spec_root()[0], root),
        wf_inst(r.0.spec_root()[0]),
        r.1.wf(),
        r.1.spec_width() == width,
        r.1.spec_height() == height,
        r.1@ == crate::component::spec_draw_row(
            r.0.spec_root(),
            Seq::new(1, |k: int| Rect { x: 0u16, y: 0u16, width, height }),
            crate::buffer::spec_blank(width as int, height as int),
        ),
{
    let mut rt = TreeRuntime::new();
    let mut elems: Vec<AnyElement> = Vec::new();
    elems.push(root);
    proof {
        assert(elems@.drop_first() =~= Seq::<AnyElement>::empty());
        assert(crate::component::elems_weight(elems@.drop_first()) == 0);
        assert(elems@.first() == elems@[0]);
        assert(crate::component::elems_weight(elems@) == crate::component::elem_weight(root)
            + crate::component::elems_weight(elems@.drop_first()));
    }
    rt.update(&elems);
    proof {
        assert(rt.spec_root_keys() =~= seq![root.key]);
        assert(Seq::new(rt.spec_root().len(), |k: int| Rect { x: 0u16, y: 0u16, width, height })
            =~= Seq::new(1, |k: int| Rect { x: 0u16, y: 0u16, width, height }));
    }
    let ghost mid0 = rt.spec_root()[0];
    let buf = rt.draw(width, height);
    proof {
        let area = Rect { x: 0u16, y: 0u16, width, height };
        assert(crate::component::spec_recorded(mid0, rt.spec_root()[0], area));
        crate::component::lemma_recorded_preserves(mid0, rt.spec_root()[0], area);
        assert(crate::component::spec_kind_shape(mid0, root));
        assert(rt.spec_root()[0].children.key_seq() == mid0.children.key_seq());
        assert(crate::component::spec_kind_shape(rt.spec_root()[0], root));
    }
    (rt, buf)
}

/// The runtime driving one instance tree: the tree itself, the identifier
/// allocator, the teardown log, and the application-wide run object.
pub struct TreeRuntime {
    root: Components,
    next_id: u64,
    removed: Vec<u64>,
    sys: SystemContext,
}

impl TreeRuntime {
    /// The root instances, in declaration order.
    pub closed spec fn spec_root(&self) -> Seq<InstantiatedComponent> {
        self.root.item_seq()
    }

    /// The root instances' keys.
    pub closed spec fn spec_root_keys(&self) -> Seq<ElementKey> {
        self.root.key_seq()
    }

    /// The next identifier the runtime will allocate.
    pub closed spec fn spec_next_id(&self) -> u64 {
        self.next_id
    }

    /// The teardown log: the identifier of every instance torn down so
    /// far, in teardown order.
    pub closed spec fn spec_removed(&self) -> Seq<u64> {
        self.removed@
    }

    /// Whether an exit has been requested.
    pub closed spec fn spec_should_exit(&self) -> bool {
        self.sys.spec_should_exit()
    }

    /// The runtime's invariant: the tree is well-formed, every identifier
    /// was allocated below the counter, and no identifier is ever held by
    /// two places — alive in the tree or logged as torn down.
    pub open spec fn wf(&self) -> bool {
        &&& self.spec_root_keys().len() == self.spec_root().len()
        &&& forall|k: int| 0 <= k < self.spec_root().len() ==> wf_inst(#[trigger] self.spec_root()[k])
        &&& forall|k: int|
            0 <= k < tree_ids_children(self.spec_root()).len() ==> tree_ids_children(
                self.spec_root(),
            )[k] < self.spec_next_id()
        &&& forall|k: int| 0 <= k < self.spec_removed().len() ==> self.spec_removed()[k] < self.spec_next_id()
        &&& forall|id: u64|
            seq_count(tree_ids_children(self.spec_root()), id) + seq_count(
                self.spec_removed(),
                id,
            ) <= 1
    }

    /// A runtime with an empty tree and no exit requested.
    pub fn new() -> (r: TreeRuntime)
        ensures
            r.wf(),
            r.spec_root().len() == 0,
            r.spec_removed().len() == 0,
            r.spec_next_id() == 0,
            !r.spec_should_exit(),
    {
        let r = TreeRuntime {
            root: Components::new(),
            next_id: 0,
            removed: Vec::new(),
            sys: SystemContext::new(),
        };
        proof {
            assert(tree_ids_children(r.spec_root()) =~= Seq::<u64>::empty());
            assert forall|id: u64|
                seq_count(tree_ids_children(r.spec_root()), id) + seq_count(
                    r.spec_removed(),
                    id,
                ) <= 1 by {
                lemma_seq_count_bounds(tree_ids_children(r.spec_root()), id);
                lemma_seq_count_bounds(r.spec_removed(), id);
            }
        }
        r
    }

    /// One update pass: reconciles the root children list against
    /// `elems` under a context stack holding the run object, preserving
    /// matched instances' state and tearing down every unclaimed one.
    pub fn update(&mut self, elems: &Vec<AnyElement>)
        requires
            old(self).wf(),
            old(self).spec_next_id() + elems_weight(elems@) <= u64::MAX,
        ensures
            final(self).wf(),
            final(self).spec_root_keys() == spec_keys_of(elems@),
            final(self).spec_root().len() == elems@.len(),
            final(self).spec_should_exit() == old(self).spec_should_exit(),
            old(self).spec_next_id() <= final(self).spec_next_id(),
            final(self).spec_next_id() <= old(self).spec_next_id() + elems_weight(elems@),
            old(self).spec_removed().is_prefix_of(final(self).spec_removed()),
            ({
                let m = spec_reconcile(
                    old(self).spec_root_keys(),
                    old(self).spec_root(),
                    elems@,
                );
                forall|j: int|
                    0 <= j < elems@.len() ==> {
                        let rj = #[trigger] final(self).spec_root()[j];
                        &&& wf_inst(rj)
                        &&& rj.props_tag == crate::element::spec_props_tag(elems@[j].props)
                        &&& crate::component::spec_kind_shape(rj, elems@[j])
                        &&& (m.matched[j] matches Some(o) ==> rj.id == o.id && rj.hooks@
                            == o.hooks@)
                    }
            }),
            // Every identifier of an unclaimed instance is logged, and
            // every logged identifier stays out of the tree.
            forall|id: u64|
                seq_count(
                    tree_ids_children(
                        spec_reconcile(
                            old(self).spec_root_keys(),
                            old(self).spec_root(),
                            elems@,
                        ).left_items,
                    ),
                    id,
                ) <= seq_count(
                    final(self).spec_removed().skip(old(self).spec_removed().len() as int),
                    id,
                ),
            forall|id: u64|
                seq_count(tree_ids_children(final(self).spec_root()), id) + seq_count(
                    final(self).spec_removed(),
                    id,
                ) <= 1,
    {
        let ghost keys0 = self.root.key_seq();
        let ghost items0 = self.root.item_seq();
        let ghost n0 = self.next_id;
        let ghost rem0 = self.removed@;
        let mut stack = ContextStack::empty();
        stack.push_frame(Context::form_mut(SYSTEM_CONTEXT_TAG, Value::Bool(self.sys.should_exit())));
        let mut prev = Components::new();
        core::mem::swap(&mut self.root, &mut prev);
        let new_root = update_children(prev, elems, &mut stack, &mut self.next_id, &mut self.removed);
        self.root = new_root;
        // The subtree saw the run object through the root frame; carry a
        // raised exit request back into it.
        if stack.exit_requested() {
            self.sys.exit();
        }
        proof {
            let delta = self.removed@.skip(rem0.len() as int);
            assert(self.removed@ =~= rem0 + delta);
            let n1 = self.next_id;
            assert(rem0 == old(self).spec_removed());
            assert(items0 == old(self).spec_root());
            assert(n0 == old(self).spec_next_id());
            assert forall|k: int| 0 <= k < rem0.len() implies rem0[k] < n0 by {
                assert(old(self).spec_removed()[k] == rem0[k]);
            }
            assert forall|k: int|
                0 <= k < tree_ids_children(items0).len() implies tree_ids_children(items0)[k]
                < n0 by {
                assert(tree_ids_children(old(self).spec_root())[k] == tree_ids_children(
                    items0,
                )[k]);
            }
            assert forall|id: u64|
                seq_count(tree_ids_children(items0), id) + seq_count(rem0, id) <= 1 by {
                assert(seq_count(tree_ids_children(old(self).spec_root()), id) == seq_count(
                    tree_ids_children(items0),
                    id,
                ));
                assert(seq_count(old(self).spec_removed(), id) == seq_count(rem0, id));
            }
            // Every identifier, old or newly logged, lies below the counter.
            assert forall|id: u64|
                seq_count(tree_ids_children(self.spec_root()), id) + seq_count(
                    self.spec_removed(),
                    id,
                ) <= 1 by {
                lemma_seq_count_concat(rem0, delta, id);
                lemma_seq_count_bounds(tree_ids_children(self.spec_root()), id);
                lemma_seq_count_bounds(rem0, id);
                lemma_seq_count_bounds(delta, id);
                lemma_seq_count_bounds(tree_ids_children(items0), id);
                if seq_count(rem0, id) >= 1 {
                    // The identifier was logged before this update: it was
                    // already dead, so it is neither alive in the old tree
                    // nor in the fresh range.
                    let k = choose|k: int| 0 <= k < rem0.len() && rem0[k] == id;
                    assert(rem0[k] == id && id < n0);
                } else if seq_count(tree_ids_children(items0), id) >= 1 {
                    let k = choose|k: int|
                        0 <= k < tree_ids_children(items0).len() && tree_ids_children(items0)[k]
                            == id;
                    assert(tree_ids_children(items0)[k] == id && id < n0);
                }
            }
            assert forall|k: int|
                0 <= k < self.spec_removed().len() implies self.spec_removed()[k] < n1 by {
                if k < rem0.len() {
                    assert(self.spec_removed()[k] == rem0[k]);
                } else {
                    let id = delta[k - rem0.len()];
                    assert(self.spec_removed()[k] == id);
                    lemma_seq_count_bounds(delta, id);
                    lemma_seq_count_bounds(tree_ids_children(items0), id);
                    lemma_seq_count_bounds(tree_ids_children(self.spec_root()), id);
                    if seq_count(tree_ids_children(items0), id) >= 1 {
                        let kk = choose|kk: int|
                            0 <= kk < tree_ids_children(items0).len() && tree_ids_children(
                                items0,
                            )[kk] == id;
                        assert(tree_ids_children(items0)[kk] == id && id < n0);
                    }
                }
            }
        }
    }

    /// Polls the tree: reports whether any instance had pending
    /// asynchronous work, clearing every pending mark, so one change
    /// triggers exactly one re-render.
    pub fn poll_change(&mut self) -> (r: bool)
        requires
            old(self).wf(),
        ensures
            final(self).wf(),
            r == spec_children_dirty(old(self).spec_root()),
            !spec_children_dirty(final(self).spec_root()),
            final(self).spec_root_keys() == old(self).spec_root_keys(),
            final(self).spec_root().len() == old(self).spec_root().len(),
            forall|k: int|
                0 <= k < old(self).spec_root().len() ==> spec_cleared(
                    #[trigger] old(self).spec_root()[k],
                    final(self).spec_root()[k],
                ),
            final(self).spec_removed() == old(self).spec_removed(),
            final(self).spec_next_id() == old(self).spec_next_id(),
            final(self).spec_should_exit() == old(self).spec_should_exit(),
    {
        let mut c = Components::new();
        core::mem::swap(&mut self.root, &mut c);
        let ghost before = c.item_seq();
        let (c2, ready) = poll_children(c);
        self.root = c2;
        proof {
            lemma_cleared_row(before, self.spec_root());
            assert(before == old(self).spec_root());
            assert forall|k: int|
                0 <= k < self.spec_root().len() implies wf_inst(
                #[trigger] self.spec_root()[k],
            ) by {
                assert(wf_inst(old(self).spec_root()[k]));
                crate::component::lemma_cleared_preserves(before[k], self.spec_root()[k]);
            }
            assert(tree_ids_children(self.spec_root()) == tree_ids_children(
                old(self).spec_root(),
            ));
            assert forall|k: int|
                0 <= k < tree_ids_children(self.spec_root()).len() implies tree_ids_children(
                    self.spec_root(),
                )[k] < self.spec_next_id() by {
                assert(tree_ids_children(old(self).spec_root())[k] < old(self).spec_next_id());
            }
            assert forall|id: u64|
                seq_count(tree_ids_children(self.spec_root()), id) + seq_count(
                    self.spec_removed(),
                    id,
                ) <= 1 by {
                assert(seq_count(tree_ids_children(self.spec_root()), id) == seq_count(
                    tree_ids_children(old(self).spec_root()),
                    id,
                ));
                assert(seq_count(self.spec_removed(), id) == seq_count(
                    old(self).spec_removed(),
                    id,
                ));
            }
            assert(self.spec_removed() == old(self).spec_removed());
            assert(self.spec_next_id() == old(self).spec_next_id());
            assert forall|k: int|
                0 <= k < self.spec_removed().len() implies self.spec_removed()[k]
                < self.spec_next_id() by {
                assert(old(self).spec_removed()[k] < old(self).spec_next_id());
            }
        }
        ready
    }

    /// Delivers one input event to the whole tree before the update pass
    /// that follows it: every event cell receives the event's code and is
    /// marked dirty, so subscribed instances re-render with it; nothing
    /// else changes.
    pub fn dispatch_input(&mut self, code: u64)
        requires
            old(self).wf(),
        ensures
            final(self).wf(),
            final(self).spec_root_keys() == old(self).spec_root_keys(),
            final(self).spec_root().len() == old(self).spec_root().len(),
            forall|k: int|
                0 <= k < old(self).spec_root().len() ==> crate::component::spec_dispatched(
                    #[trigger] old(self).spec_root()[k],
                    final(self).spec_root()[k],
                    code,
                ),
            final(self).spec_removed() == old(self).spec_removed(),
            final(self).spec_next_id() == old(self).spec_next_id(),
            final(self).spec_should_exit() == old(self).spec_should_exit(),
    {
        let mut items: Vec<InstantiatedComponent> = Vec::new();
        core::mem::swap(&mut self.root.items, &mut items);
        let ghost items0 = items@;
        let mut out: Vec<InstantiatedComponent> = Vec::new();
        let n = items.len();
        let mut k: usize = 0;
        #[verifier::loop_isolation(false)]
        while k < n
            invariant
                0 <= k <= n,
                n == items0.len(),
                items@ == items0.skip(k as int),
                out@.len() == k,
                forall|j: int|
                    0 <= j < k ==> crate::component::spec_dispatched(
                        items0[j],
                        #[trigger] out@[j],
                        code,
                    ),
            decreases n - k,
        {
            let child = items.remove(0);
            proof {
                assert(child == items0[k as int]);
                assert(items0.skip(k as int).drop_first() =~= items0.skip(k as int + 1));
            }
            let child2 = crate::component::dispatch_input_tree(child, code);
            out.push(child2);
            k = k + 1;
        }
        core::mem::swap(&mut self.root.items, &mut out);
        proof {
            assert(items0 == old(self).spec_root());
            crate::component::lemma_dispatched_row(items0, self.spec_root(), code);
            assert forall|k2: int|
                0 <= k2 < self.spec_root().len() implies wf_inst(
                #[trigger] self.spec_root()[k2],
            ) by {
                assert(wf_inst(old(self).spec_root()[k2]));
            }
            assert(tree_ids_children(self.spec_root()) == tree_ids_children(
                old(self).spec_root(),
            ));
            assert forall|k2: int|
                0 <= k2 < tree_ids_children(self.spec_root()).len() implies tree_ids_children(
                    self.spec_root(),
                )[k2] < self.spec_next_id() by {
                assert(tree_ids_children(old(self).spec_root())[k2] < old(self).spec_next_id());
            }
            assert forall|id: u64|
                seq_count(tree_ids_children(self.spec_root()), id) + seq_count(
                    self.spec_removed(),
                    id,
                ) <= 1 by {
                assert(seq_count(tree_ids_children(self.spec_root()), id) == seq_count(
                    tree_ids_children(old(self).spec_root()),
                    id,
                ));
                assert(seq_count(self.spec_removed(), id) == seq_count(
                    old(self).spec_removed(),
                    id,
                ));
            }
            assert(self.spec_removed() == old(self).spec_removed());
            assert(self.spec_next_id() == old(self).spec_next_id());
            assert forall|k2: int|
                0 <= k2 < self.spec_removed().len() implies self.spec_removed()[k2]
                < self.spec_next_id() by {
                assert(old(self).spec_removed()[k2] < old(self).spec_next_id());
            }
        }
    }

    /// Writes a value into the state cell at `path` / `hook_idx` (the
    /// instance's position path from the root, then the hook position),
    /// marking it dirty; the next poll reports it. Reports whether the
    /// address exists; nothing changes when it does not.
    pub fn write_state(&mut self, path: &Vec<usize>, hook_idx: usize, value: Value) -> (r: bool)
        requires
            old(self).wf(),
            path@.len() > 0,
        ensures
            final(self).wf(),
            r == (path@[0] < old(self).spec_root().len() && spec_path_valid(
                old(self).spec_root()[path@[0] as int],
                path@,
                1,
                hook_idx as int,
            )),
            !r ==> *final(self) == *old(self),
            r ==> {
                &&& final(self).spec_root().len() == old(self).spec_root().len()
                &&& final(self).spec_root_keys() == old(self).spec_root_keys()
                &&& forall|k: int|
                    0 <= k < old(self).spec_root().len() && k != path@[0]
                        ==> #[trigger] final(self).spec_root()[k] == old(self).spec_root()[k]
                &&& spec_written(
                    old(self).spec_root()[path@[0] as int],
                    final(self).spec_root()[path@[0] as int],
                    path@,
                    1,
                    hook_idx as int,
                    value@,
                )
                &&& spec_children_dirty(final(self).spec_root())
            },
            final(self).spec_removed() == old(self).spec_removed(),
            final(self).spec_next_id() == old(self).spec_next_id(),
            final(self).spec_should_exit() == old(self).spec_should_exit(),
    {
        let i = path[0];
        if i >= self.root.items.len() {
            return false;
        }
        let ok = path_valid(&self.root.items[i], path, 1, hook_idx);
        if !ok {
            return false;
        }
        let ghost before_i = self.root.item_seq()[i as int];
        let target = &mut self.root.items[i];
        write_at(target, path, 1, hook_idx, value);
        proof {
            let after_i = self.spec_root()[i as int];
            lemma_written_dirty(before_i, after_i, path@, 1, hook_idx as int, value@);
            lemma_written_preserves(before_i, after_i, path@, 1, hook_idx as int, value@);
            lemma_children_dirty_member(self.spec_root(), i as int);
            lemma_tree_ids_children_remove(old(self).spec_root(), i as int);
            lemma_tree_ids_children_remove(self.spec_root(), i as int);
            old(self).spec_root().remove_ensures(i as int);
            self.spec_root().remove_ensures(i as int);
            assert(old(self).spec_root().take(i as int) =~= self.spec_root().take(i as int));
            assert(old(self).spec_root().remove(i as int).skip(i as int)
                =~= self.spec_root().remove(i as int).skip(i as int));
            assert(tree_ids_children(self.spec_root()) == tree_ids_children(
                old(self).spec_root(),
            ));
            assert forall|k: int|
                0 <= k < self.spec_root().len() implies wf_inst(
                #[trigger] self.spec_root()[k],
            ) by {
                assert(wf_inst(old(self).spec_root()[k]));
                if k != path@[0] {
                    assert(self.spec_root()[k] == old(self).spec_root()[k]);
                }
            }
            assert forall|k: int|
                0 <= k < tree_ids_children(self.spec_root()).len() implies tree_ids_children(
                    self.spec_root(),
                )[k] < self.spec_next_id() by {
                assert(tree_ids_children(old(self).spec_root())[k] < old(self).spec_next_id());
            }
            assert forall|id: u64|
                seq_count(tree_ids_children(self.spec_root()), id) + seq_count(
                    self.spec_removed(),
                    id,
                ) <= 1 by {
                assert(seq_count(tree_ids_children(self.spec_root()), id) == seq_count(
                    tree_ids_children(old(self).spec_root()),
                    id,
                ));
                assert(seq_count(self.spec_removed(), id) == seq_count(
                    old(self).spec_removed(),
                    id,
                ));
            }
            assert(self.spec_removed() == old(self).spec_removed());
            assert(self.spec_next_id() == old(self).spec_next_id());
            assert forall|k: int|
                0 <= k < self.spec_removed().len() implies self.spec_removed()[k]
                < self.spec_next_id() by {
                assert(old(self).spec_removed()[k] < old(self).spec_next_id());
            }
        }
        true
    }

    /// Paints the tree into a fresh buffer of the given extent: each
    /// root instance draws over the whole area, in declaration order,
    /// exactly as the per-instance painting relation states, starting
    /// from a blank grid. Before painting, every instance records the
    /// area this pass gives it, for the next frame's update to read.
    pub fn draw(&mut self, width: u16, height: u16) -> (r: TextBuffer)
        requires
            old(self).wf(),
        ensures
            final(self).wf(),
            final(self).spec_root_keys() == old(self).spec_root_keys(),
            final(self).spec_root().len() == old(self).spec_root().len(),
            forall|k: int|
                0 <= k < old(self).spec_root().len() ==> crate::component::spec_recorded(
                    #[trigger] old(self).spec_root()[k],
                    final(self).spec_root()[k],
                    Rect { x: 0u16, y: 0u16, width, height },
                ),
            final(self).spec_removed() == old(self).spec_removed(),
            final(self).spec_next_id() == old(self).spec_next_id(),
            final(self).spec_should_exit() == old(self).spec_should_exit(),
            r.wf(),
            r.spec_width() == width,
            r.spec_height() == height,
            r@ == crate::component::spec_draw_row(
                final(self).spec_root(),
                Seq::new(
                    final(self).spec_root().len(),
                    |k: int| Rect { x: 0u16, y: 0u16, width, height },
                ),
                crate::buffer::spec_blank(width as int, height as int),
            ),
    {
        let area = Rect { x: 0, y: 0, width, height };

        // First pass: remember the area each instance is about to be
        // drawn into.
        let mut items: Vec<InstantiatedComponent> = Vec::new();
        core::mem::swap(&mut self.root.items, &mut items);
        let ghost items0 = items@;
        let ghost area_row = Seq::new(items0.len(), |k: int| area);
        let mut out: Vec<InstantiatedComponent> = Vec::new();
        let n = items.len();
        let mut k: usize = 0;
        #[verifier::loop_isolation(false)]
        while k < n
            invariant
                0 <= k <= n,
                n == items0.len(),
                items@ == items0.skip(k as int),
                out@.len() == k,
                forall|j: int|
                    0 <= j < k ==> crate::component::spec_recorded(
                        items0[j],
                        #[trigger] out@[j],
                        area,
                    ),
            decreases n - k,
        {
            let child = items.remove(0);
            proof {
                assert(child == items0[k as int]);
                assert(items0.skip(k as int).drop_first() =~= items0.skip(k as int + 1));
            }
            let child2 = crate::component::record_draw_areas(child, area);
            out.push(child2);
            k = k + 1;
        }
        core::mem::swap(&mut self.root.items, &mut out);
        proof {
            assert(items0 == old(self).spec_root());
            assert forall|j: int|
                0 <= j < items0.len() implies crate::component::spec_recorded(
                items0[j],
                #[trigger] self.spec_root()[j],
                area_row[j],
            ) by {}
            crate::component::lemma_recorded_row(items0, self.spec_root(), area_row);
            assert forall|k2: int|
                0 <= k2 < self.spec_root().len() implies wf_inst(
                #[trigger] self.spec_root()[k2],
            ) by {
                assert(wf_inst(old(self).spec_root()[k2]));
            }
            assert(tree_ids_children(self.spec_root()) == tree_ids_children(
                old(self).spec_root(),
            ));
            assert forall|k2: int|
                0 <= k2 < tree_ids_children(self.spec_root()).len() implies tree_ids_children(
                    self.spec_root(),
                )[k2] < self.spec_next_id() by {
                assert(tree_ids_children(old(self).spec_root())[k2] < old(self).spec_next_id());
            }
            assert forall|id: u64|
                seq_count(tree_ids_children(self.spec_root()), id) + seq_count(
                    self.spec_removed(),
                    id,
                ) <= 1 by {
                assert(seq_count(tree_ids_children(self.spec_root()), id) == seq_count(
                    tree_ids_children(old(self).spec_root()),
                    id,
                ));
                assert(seq_count(self.spec_removed(), id) == seq_count(
                    old(self).spec_removed(),
                    id,
                ));
            }
            assert forall|k2: int|
                0 <= k2 < self.spec_removed().len() implies self.spec_removed()[k2]
                < self.spec_next_id() by {
                assert(old(self).spec_removed()[k2] < old(self).spec_next_id());
            }
        }

        // Second pass: paint, in declaration order.
        let mut buf = TextBuffer::new(width, height);
        let ghost painted = self.spec_root();
        let ghost areas = Seq::new(painted.len(), |k: int| area);
        let ghost grid0 = buf@;
        let n = self.root.items.len();
        let mut k: usize = 0;
        #[verifier::loop_isolation(false)]
        while k < n
            invariant
                0 <= k <= n,
                buf.wf(),
                buf.spec_width() == width,
                buf.spec_height() == height,
                buf@ == crate::component::spec_draw_row(
                    painted.take(k as int),
                    areas.take(k as int),
                    grid0,
                ),
            decreases n - k,
        {
            draw_inst(&self.root.items[k], area, &mut buf);
            proof {
                crate::component::lemma_draw_row_take_step(painted, areas, grid0, k as int);
            }
            k = k + 1;
        }
        proof {
            assert(painted.take(n as int) =~= painted);
            assert(areas.take(n as int) =~= areas);
        }
        buf
    }

    /// The root instances, for inspection.
    pub fn root_components(&self) -> (r: &Components)
        ensures
            r.item_seq() == self.spec_root(),
            r.key_seq() == self.spec_root_keys(),
    {
        &self.root
    }

    /// How many instance identifiers have been allocated; an update can
    /// allocate at most one per element node handed to it, which lets a
    /// caller bound the identifier space before updating.
    pub fn allocated(&self) -> (r: u64)
        ensures
            r == self.spec_next_id(),
    {
        self.next_id
    }

    /// The teardown log: identifiers of torn-down instances, in order.
    pub fn teardown_log(&self) -> (r: &Vec<u64>)
        ensures
            r@ == self.spec_removed(),
    {
        &self.removed
    }

    /// Whether an exit has been requested through the run object.
    pub fn should_exit(&self) -> (r: bool)
        ensures
            r == self.spec_should_exit(),
    {
        self.sys.should_exit()
    }

    /// Raises the application-wide exit request.
    pub fn request_exit(&mut self)
        ensures
            final(self).spec_should_exit(),
            final(self).spec_root() == old(self).spec_root(),
            final(self).spec_root_keys() == old(self).spec_root_keys(),
            final(self).spec_removed() == old(self).spec_removed(),
            final(self).spec_next_id() == old(self).spec_next_id(),
            old(self).wf() ==> final(self).wf(),
    {
        self.sys.exit();
    }
}

} // verus!
