//! Per-instance hook state.
//!
//! Each component instance owns an ordered list of hook-state boxes. On an
//! instance's very first update every hook registration appends a fresh
//! box; on every later update the same registrations must happen in the
//! same order, and each call recovers the box at the same position after a
//! checked type comparison. A diverging order or count is a contract
//! violation, never silently coerced: a wrong type or an over-long
//! sequence is reported at the offending call, and a sequence that stops
//! short of the stored boxes is reported by the finishing check.

use vstd::prelude::*;

use crate::value::Value;

verus! {

/// One opaque persistent value tied to a call position within a
/// component's update function. `tag` stands for the application-level
/// type of `value`; `dirty` records a write that has not yet been
/// surfaced through a change poll.
#[derive(Debug)]
pub struct HookBox {
    pub tag: u64,
    pub value: Value,
    pub dirty: bool,
}

/// A violation of the hooks-rule invariant: a registration call detects
/// a wrong position or type, and the finishing check detects an update
/// that registered fewer hooks than the instance stores.
#[derive(Debug, PartialEq, Eq, Structural)]
pub enum HookError {
    /// More hooks were registered this update than the instance stored:
    /// position `index` holds no box.
    Missing { index: usize },
    /// The box at position `index` was registered under another type.
    TypeMismatch { index: usize, expected: u64, found: u64 },
    /// Fewer hooks were registered this update than the instance
    /// stores: the call sequence stopped after `registered` of `stored`.
    Shortfall { registered: usize, stored: usize },
}

/// The cursor a component's update holds into its instance's hook list.
///
/// It owns the boxes while the update runs; the instance takes them back
/// through [`Hooks::finish`] afterwards.
#[derive(Debug)]
pub struct Hooks {
    hooks: Vec<HookBox>,
    first_update: bool,
    hook_index: usize,
}

impl Hooks {
    /// The stored boxes, in registration order.
    pub closed spec fn hook_seq(&self) -> Seq<HookBox> {
        self.hooks@
    }

    /// Whether this is the owning instance's first update.
    pub closed spec fn is_first_update(&self) -> bool {
        self.first_update
    }

    /// The position the next registration call will claim.
    pub closed spec fn cursor(&self) -> int {
        self.hook_index as int
    }

    /// A cursor over `hooks`, positioned at the first registration.
    pub fn new(hooks: Vec<HookBox>, first_update: bool) -> (r: Hooks)
        ensures
            r.hook_seq() == hooks@,
            r.is_first_update() == first_update,
            r.cursor() == 0,
    {
        Hooks { hooks, first_update, hook_index: 0 }
    }

    /// Registers the hook at the current position.
    ///
    /// On the first update this appends a fresh box holding `init`; on
    /// every later update it finds the box the same call built then, and
    /// reports the violation when the position is empty or was registered
    /// under another type. On success the returned position addresses the
    /// box for [`Hooks::value`] and [`Hooks::set_value`].
    pub fn use_hook(&mut self, tag: u64, init: Value) -> (r: Result<usize, HookError>)
        requires
            old(self).cursor() < usize::MAX,
        ensures
            final(self).is_first_update() == old(self).is_first_update(),
            final(self).cursor() == old(self).cursor() + 1,
            final(self).hook_seq() == (if old(self).is_first_update() {
                old(self).hook_seq().push(HookBox { tag, value: init, dirty: false })
            } else {
                old(self).hook_seq()
            }),
            ({
                let stored = final(self).hook_seq();
                let idx = old(self).cursor();
                if idx >= stored.len() {
                    r == Err::<usize, HookError>(HookError::Missing { index: idx as usize })
                } else if stored[idx].tag != tag {
                    r == Err::<usize, HookError>(
                        HookError::TypeMismatch {
                            index: idx as usize,
                            expected: tag,
                            found: stored[idx].tag,
                        },
                    )
                } else {
                    r == Ok::<usize, HookError>(idx as usize)
                }
            }),
    {
        if self.first_update {
            self.hooks.push(HookBox { tag, value: init, dirty: false });
        }
        let idx = self.hook_index;
        self.hook_index = self.hook_index + 1;
        if idx >= self.hooks.len() {
            Err(HookError::Missing { index: idx })
        } else if self.hooks[idx].tag != tag {
            Err(HookError::TypeMismatch { index: idx, expected: tag, found: self.hooks[idx].tag })
        } else {
            Ok(idx)
        }
    }

    /// How many boxes are stored.
    pub fn len(&self) -> (r: usize)
        ensures
            r == self.hook_seq().len(),
    {
        self.hooks.len()
    }

    /// Reads the box at a registered position.
    pub fn value(&self, idx: usize) -> (r: &Value)
        requires
            idx < self.hook_seq().len(),
        ensures
            *r == self.hook_seq()[idx as int].value,
    {
        &self.hooks[idx].value
    }

    /// Writes the box at a registered position and marks it dirty, so the
    /// change surfaces through the next poll.
    pub fn set_value(&mut self, idx: usize, value: Value)
        requires
            idx < old(self).hook_seq().len(),
        ensures
            final(self).is_first_update() == old(self).is_first_update(),
            final(self).cursor() == old(self).cursor(),
            final(self).hook_seq() == old(self).hook_seq().update(
                idx as int,
                HookBox { tag: old(self).hook_seq()[idx as int].tag, value, dirty: true },
            ),
    {
        let tag = self.hooks[idx].tag;
        let b = &mut self.hooks[idx];
        *b = HookBox { tag, value, dirty: true };
    }

    /// Hands the boxes back to the owning instance without the
    /// finishing count check; [`Hooks::finish`] is the checked form.
    pub fn into_boxes(self) -> (r: Vec<HookBox>)
        ensures
            r@ == self.hook_seq(),
    {
        self.hooks
    }

    /// Hands the boxes back and closes the registration sequence: an
    /// update that registered fewer hooks than the instance stores is a
    /// contract violation, reported here, where the shortfall becomes
    /// visible.
    pub fn finish(self) -> (r: (Vec<HookBox>, Result<(), HookError>))
        ensures
            r.0@ == self.hook_seq(),
            r.1 == (if self.cursor() < self.hook_seq().len() {
                Err::<(), HookError>(
                    HookError::Shortfall {
                        registered: self.cursor() as usize,
                        stored: self.hook_seq().len() as usize,
                    },
                )
            } else {
                Ok::<(), HookError>(())
            }),
    {
        let verdict = if self.hook_index < self.hooks.len() {
            Err(HookError::Shortfall { registered: self.hook_index, stored: self.hooks.len() })
        } else {
            Ok(())
        };
        (self.hooks, verdict)
    }
}

/// Whether any box records an unsurfaced write.
pub open spec fn any_dirty(hooks: Seq<HookBox>) -> bool {
    exists|i: int| 0 <= i < hooks.len() && hooks[i].dirty
}

/// Polls a hook list: reports whether any box was dirty and clears every
/// dirty mark, so that an unchanged list polls clean next time.
pub fn poll_hook_boxes(hooks: &mut Vec<HookBox>) -> (r: bool)
    ensures
        r == any_dirty(old(hooks)@),
        final(hooks)@.len() == old(hooks)@.len(),
        forall|i: int|
            0 <= i < old(hooks)@.len() ==> final(hooks)@[i] == (HookBox {
                tag: old(hooks)@[i].tag,
                value: old(hooks)@[i].value,
                dirty: false,
            }),
{
    let n = hooks.len();
    let mut ready = false;
    let mut i: usize = 0;
    #[verifier::loop_isolation(false)]
    while i < n
        invariant
            0 <= i <= n,
            hooks@.len() == n,
            ready == any_dirty(old(hooks)@.take(i as int)),
            forall|j: int|
                0 <= j < i ==> hooks@[j] == (HookBox {
                    tag: old(hooks)@[j].tag,
                    value: old(hooks)@[j].value,
                    dirty: false,
                }),
            forall|j: int| i <= j < n ==> hooks@[j] == old(hooks)@[j],
        decreases n - i,
    {
        if hooks[i].dirty {
            ready = true;
            let b = &mut hooks[i];
            b.dirty = false;
        }
        proof {
            assert(old(hooks)@.take(i as int + 1).drop_last() == old(hooks)@.take(i as int));
            assert(old(hooks)@.take(i as int + 1).last() == old(hooks)@[i as int]);
        }
        i = i + 1;
    }
    proof {
        assert(old(hooks)@.take(n as int) == old(hooks)@);
    }
    ready
}

} // verus!
