//! Scoped, type-keyed dependency injection.
//!
//! A [`ContextStack`] holds a stack of frames, each carrying one
//! type-tagged value. A frame is pushed around the update of a subtree and
//! popped when that update returns; lookup walks from the most recently
//! pushed frame outward and the first frame whose tag matches wins, so an
//! inner frame shadows an outer one of the same tag.

use vstd::prelude::*;

use crate::value::{Value, ValueModel};

verus! {

/// The tag of the runtime's own root frame, which carries the
/// application-wide exit request as a boolean.
pub const SYSTEM_CONTEXT_TAG: u64 = 0;

/// One type-tagged context payload: `tag` stands for the application-level
/// type of `value`.
#[derive(Debug)]
pub struct CtxValue {
    pub tag: u64,
    pub value: Value,
}

/// One context frame. The variant records how the frame holds its value:
/// as a read-only injection, a writable injection, or an owned value whose
/// lifetime is the frame's scope. Only `Mut` and `Owned` frames accept
/// writes.
#[derive(Debug)]
pub enum Context {
    Ref(CtxValue),
    Mut(CtxValue),
    Owned(CtxValue),
}

/// The type tag a frame is keyed under.
pub open spec fn frame_tag(c: Context) -> u64 {
    match c {
        Context::Ref(cv) => cv.tag,
        Context::Mut(cv) => cv.tag,
        Context::Owned(cv) => cv.tag,
    }
}

/// The model of the value a frame holds.
pub open spec fn frame_value(c: Context) -> ValueModel {
    match c {
        Context::Ref(cv) => cv.value@,
        Context::Mut(cv) => cv.value@,
        Context::Owned(cv) => cv.value@,
    }
}

/// Whether a frame accepts writes.
pub open spec fn frame_writable(c: Context) -> bool {
    !(c is Ref)
}

impl Context {
    /// A frame owning its value.
    pub fn owned(tag: u64, value: Value) -> (r: Context)
        ensures
            r == (Context::Owned(CtxValue { tag, value })),
    {
        Context::Owned(CtxValue { tag, value })
    }

    /// A frame injecting a read-only value.
    pub fn form_ref(tag: u64, value: Value) -> (r: Context)
        ensures
            r == (Context::Ref(CtxValue { tag, value })),
    {
        Context::Ref(CtxValue { tag, value })
    }

    /// A frame injecting a writable value.
    pub fn form_mut(tag: u64, value: Value) -> (r: Context)
        ensures
            r == (Context::Mut(CtxValue { tag, value })),
    {
        Context::Mut(CtxValue { tag, value })
    }

    /// The value, when `tag` matches the frame's tag.
    pub fn downcast_ref(&self, tag: u64) -> (r: Option<&Value>)
        ensures
            frame_tag(*self) == tag ==> (r matches Some(v) && v@ == frame_value(*self)),
            frame_tag(*self) != tag ==> r is None,
    {
        match self {
            Context::Ref(cv) => if cv.tag == tag {
                Some(&cv.value)
            } else {
                None
            },
            Context::Mut(cv) => if cv.tag == tag {
                Some(&cv.value)
            } else {
                None
            },
            Context::Owned(cv) => if cv.tag == tag {
                Some(&cv.value)
            } else {
                None
            },
        }
    }

    /// Overwrites the value when `tag` matches and the frame is writable;
    /// reports whether it wrote. A read-only frame never accepts a write:
    /// a mutable downcast of it yields nothing.
    pub fn downcast_mut(&mut self, tag: u64, value: Value) -> (r: bool)
        ensures
            r == (frame_tag(*old(self)) == tag && frame_writable(*old(self))),
            r ==> frame_tag(*final(self)) == tag && frame_value(*final(self)) == value@
                && frame_writable(*final(self)) && (*old(self) is Mut <==> *final(self) is Mut),
            !r ==> *final(self) == *old(self),
    {
        match self {
            Context::Ref(_) => false,
            Context::Mut(cv) => if cv.tag == tag {
                cv.value = value;
                true
            } else {
                false
            },
            Context::Owned(cv) => if cv.tag == tag {
                cv.value = value;
                true
            } else {
                false
            },
        }
    }

    /// A reborrowed view of the frame for pushing one level deeper: a
    /// read-only frame stays read-only, a writable or owned frame is handed
    /// on as writable. The payload models the same value.
    pub fn borrow(&self) -> (r: Context)
        ensures
            frame_tag(r) == frame_tag(*self),
            frame_value(r) == frame_value(*self),
            frame_writable(r) == frame_writable(*self),
            r is Owned ==> false,
    {
        match self {
            Context::Ref(cv) => Context::Ref(CtxValue { tag: cv.tag, value: cv.value.duplicate() }),
            Context::Mut(cv) => Context::Mut(CtxValue { tag: cv.tag, value: cv.value.duplicate() }),
            Context::Owned(cv) => Context::Mut(
                CtxValue { tag: cv.tag, value: cv.value.duplicate() },
            ),
        }
    }
}

/// The position, scanning from the top of the stack, of the first frame
/// matching `tag`; `-1` when no frame matches.
pub open spec fn top_index_matching(frames: Seq<Context>, tag: u64) -> int
    decreases frames.len(),
{
    if frames.len() == 0 {
        -1
    } else if frame_tag(frames.last()) == tag {
        frames.len() - 1
    } else {
        top_index_matching(frames.drop_last(), tag)
    }
}

/// The position, scanning from the top, of the first *writable* frame
/// matching `tag`; `-1` when no writable frame matches.
pub open spec fn top_writable_index_matching(frames: Seq<Context>, tag: u64) -> int
    decreases frames.len(),
{
    if frames.len() == 0 {
        -1
    } else if frame_tag(frames.last()) == tag && frame_writable(frames.last()) {
        frames.len() - 1
    } else {
        top_writable_index_matching(frames.drop_last(), tag)
    }
}

/// What `top_index_matching` returns: `-1` and no frame matches, or the
/// topmost matching position.
pub proof fn lemma_top_index_matching(frames: Seq<Context>, tag: u64)
    ensures
        top_index_matching(frames, tag) == -1 ==> forall|j: int|
            0 <= j < frames.len() ==> frame_tag(frames[j]) != tag,
        top_index_matching(frames, tag) != -1 ==> {
            let r = top_index_matching(frames, tag);
            &&& 0 <= r < frames.len()
            &&& frame_tag(frames[r]) == tag
            &&& forall|j: int| r < j < frames.len() ==> frame_tag(frames[j]) != tag
        },
    decreases frames.len(),
{
    if frames.len() > 0 && frame_tag(frames.last()) != tag {
        lemma_top_index_matching(frames.drop_last(), tag);
        assert forall|j: int| 0 <= j < frames.len() - 1 implies frames.drop_last()[j] == frames[j]
        by {}
    }
}

/// What `top_writable_index_matching` returns, in the same shape.
pub proof fn lemma_top_writable_index_matching(frames: Seq<Context>, tag: u64)
    ensures
        top_writable_index_matching(frames, tag) == -1 ==> forall|j: int|
            0 <= j < frames.len() ==> !(frame_tag(frames[j]) == tag && frame_writable(frames[j])),
        top_writable_index_matching(frames, tag) != -1 ==> {
            let r = top_writable_index_matching(frames, tag);
            &&& 0 <= r < frames.len()
            &&& frame_tag(frames[r]) == tag && frame_writable(frames[r])
            &&& forall|j: int|
                r < j < frames.len() ==> !(frame_tag(frames[j]) == tag && frame_writable(
                    frames[j],
                ))
        },
    decreases frames.len(),
{
    if frames.len() > 0 && !(frame_tag(frames.last()) == tag && frame_writable(frames.last())) {
        lemma_top_writable_index_matching(frames.drop_last(), tag);
        assert forall|j: int| 0 <= j < frames.len() - 1 implies frames.drop_last()[j] == frames[j]
        by {}
    }
}

/// The stack of context frames seen by a subtree while it updates.
#[derive(Debug)]
pub struct ContextStack {
    frames: Vec<Context>,
}

impl ContextStack {
    /// The frames, bottom to top.
    pub closed spec fn frames_seq(&self) -> Seq<Context> {
        self.frames@
    }

    /// A stack holding only the runtime's root frame: a writable exit
    /// request, initially `false`.
    pub fn root() -> (r: ContextStack)
        ensures
            r.frames_seq().len() == 1,
            r.frames_seq()[0] == (Context::Mut(
                CtxValue { tag: SYSTEM_CONTEXT_TAG, value: Value::Bool(false) },
            )),
    {
        let mut frames: Vec<Context> = Vec::new();
        frames.push(Context::Mut(CtxValue { tag: SYSTEM_CONTEXT_TAG, value: Value::Bool(false) }));
        ContextStack { frames }
    }

    /// An empty stack, for driving a subtree without a root frame.
    pub fn empty() -> (r: ContextStack)
        ensures
            r.frames_seq() == Seq::<Context>::empty(),
    {
        ContextStack { frames: Vec::new() }
    }

    /// How many frames are on the stack.
    pub fn depth(&self) -> (r: usize)
        ensures
            r == self.frames_seq().len(),
    {
        self.frames.len()
    }

    /// Pushes a frame; it shadows outer frames of the same tag until it is
    /// popped.
    pub fn push_frame(&mut self, frame: Context)
        ensures
            final(self).frames_seq() == old(self).frames_seq().push(frame),
    {
        self.frames.push(frame);
    }

    /// Pops the most recently pushed frame.
    pub fn pop_frame(&mut self) -> (r: Option<Context>)
        ensures
            old(self).frames_seq().len() == 0 ==> r is None && final(self).frames_seq() == old(self).frames_seq(),
            old(self).frames_seq().len() > 0 ==> r == Some(old(self).frames_seq().last()) && final(self).frames_seq() == old(self).frames_seq().drop_last(),
    {
        self.frames.pop()
    }

    /// Looks `tag` up, innermost frame first; the first match wins.
    pub fn get_context(&self, tag: u64) -> (r: Option<&Value>)
        ensures
            ({
                let i = top_index_matching(self.frames_seq(), tag);
                if i == -1 {
                    r is None
                } else {
                    r matches Some(v) && v@ == frame_value(self.frames_seq()[i])
                }
            }),
    {
        proof {
            lemma_top_index_matching(self.frames_seq(), tag);
        }
        let n = self.frames.len();
        let mut i: usize = n;
        #[verifier::loop_isolation(false)]
        while i > 0
            invariant
                0 <= i <= n,
                forall|j: int| i <= j < n ==> frame_tag(self.frames_seq()[j]) != tag,
            decreases i,
        {
            i = i - 1;
            let r = self.frames[i].downcast_ref(tag);
            if r.is_some() {
                proof {
                    lemma_top_matching_pinpoint(self.frames_seq(), tag, i as int);
                }
                return r;
            }
        }
        None
    }

    /// Writes `value` into the innermost *writable* frame matching `tag`;
    /// read-only frames are skipped, as in a mutable downcast. Reports
    /// whether any frame accepted the write.
    pub fn set_context(&mut self, tag: u64, value: Value) -> (r: bool)
        ensures
            ({
                let i = top_writable_index_matching(old(self).frames_seq(), tag);
                if i == -1 {
                    !r && final(self).frames_seq() == old(self).frames_seq()
                } else {
                    &&& r
                    &&& final(self).frames_seq().len() == old(self).frames_seq().len()
                    &&& frame_tag(final(self).frames_seq()[i]) == tag
                    &&& frame_value(final(self).frames_seq()[i]) == value@
                    &&& frame_writable(final(self).frames_seq()[i])
                    &&& forall|j: int|
                        0 <= j < old(self).frames_seq().len() && j != i ==> final(self).frames_seq()[j] == old(self).frames_seq()[j]
                }
            }),
    {
        proof {
            lemma_top_writable_index_matching(self.frames_seq(), tag);
        }
        let n = self.frames.len();
        let mut i: usize = n;
        #[verifier::loop_isolation(false)]
        while i > 0
            invariant
                0 <= i <= n,
                self.frames_seq() == old(self).frames_seq(),
                forall|j: int|
                    i <= j < n ==> !(frame_tag(self.frames_seq()[j]) == tag && frame_writable(
                        self.frames_seq()[j],
                    )),
            decreases i,
        {
            i = i - 1;
            let wrote = self.frames[i].downcast_mut(tag, value.duplicate());
            if wrote {
                proof {
                    lemma_top_writable_pinpoint(old(self).frames_seq(), tag, i as int);
                }
                return true;
            }
        }
        false
    }

    /// Whether the root frame records an exit request.
    pub fn exit_requested(&self) -> (r: bool)
        ensures
            ({
                let i = top_index_matching(self.frames_seq(), SYSTEM_CONTEXT_TAG);
                r == (i != -1 && frame_value(self.frames_seq()[i]) == ValueModel::Bool(true))
            }),
    {
        match self.get_context(SYSTEM_CONTEXT_TAG) {
            Some(v) => match v {
                Value::Bool(b) => *b,
                _ => false,
            },
            None => false,
        }
    }

    /// Raises the application-wide exit request through the root frame.
    pub fn request_exit(&mut self) -> (r: bool)
        ensures
            ({
                let i = top_writable_index_matching(old(self).frames_seq(), SYSTEM_CONTEXT_TAG);
                if i == -1 {
                    !r && final(self).frames_seq() == old(self).frames_seq()
                } else {
                    &&& r
                    &&& final(self).frames_seq().len() == old(self).frames_seq().len()
                    &&& frame_value(final(self).frames_seq()[i]) == ValueModel::Bool(true)
                    &&& frame_tag(final(self).frames_seq()[i]) == SYSTEM_CONTEXT_TAG
                    &&& frame_writable(final(self).frames_seq()[i])
                    &&& forall|j: int|
                        0 <= j < old(self).frames_seq().len() && j != i ==> final(self).frames_seq()[j] == old(self).frames_seq()[j]
                }
            }),
    {
        self.set_context(SYSTEM_CONTEXT_TAG, Value::Bool(true))
    }
}

/// If position `i` matches `tag` and everything above it does not, then `i`
/// is what the top-down scan returns.
pub proof fn lemma_top_matching_pinpoint(frames: Seq<Context>, tag: u64, i: int)
    requires
        0 <= i < frames.len(),
        frame_tag(frames[i]) == tag,
        forall|j: int| i < j < frames.len() ==> frame_tag(frames[j]) != tag,
    ensures
        top_index_matching(frames, tag) == i,
    decreases frames.len(),
{
    if i < frames.len() - 1 {
        assert forall|j: int| 0 <= j < frames.len() - 1 implies frames.drop_last()[j] == frames[j]
        by {}
        lemma_top_matching_pinpoint(frames.drop_last(), tag, i);
    }
}

/// The writable counterpart of `lemma_top_matching_pinpoint`.
pub proof fn lemma_top_writable_pinpoint(frames: Seq<Context>, tag: u64, i: int)
    requires
        0 <= i < frames.len(),
        frame_tag(frames[i]) == tag && frame_writable(frames[i]),
        forall|j: int|
            i < j < frames.len() ==> !(frame_tag(frames[j]) == tag && frame_writable(frames[j])),
    ensures
        top_writable_index_matching(frames, tag) == i,
    decreases frames.len(),
{
    if i < frames.len() - 1 {
        assert forall|j: int| 0 <= j < frames.len() - 1 implies frames.drop_last()[j] == frames[j]
        by {}
        lemma_top_writable_pinpoint(frames.drop_last(), tag, i);
    }
}

/// The application-wide run object injected at the root of the context
/// stack: any descendant may raise its exit request through the context
/// mechanism.
#[derive(Debug)]
pub struct SystemContext {
    should_exit: bool,
}

impl SystemContext {
    /// Whether an exit has been requested.
    pub closed spec fn spec_should_exit(&self) -> bool {
        self.should_exit
    }

    /// A fresh run object with no exit requested.
    pub fn new() -> (r: SystemContext)
        ensures
            !r.spec_should_exit(),
    {
        SystemContext { should_exit: false }
    }

    /// Whether an exit has been requested.
    pub fn should_exit(&self) -> (r: bool)
        ensures
            r == self.spec_should_exit(),
    {
        self.should_exit
    }

    /// Requests that the render loop exits after the current iteration.
    pub fn exit(&mut self)
        ensures
            final(self).spec_should_exit(),
    {
        self.should_exit = true;
    }
}

} // verus!
