//! Element descriptors: the immutable values a render pass produces to
//! describe the desired tree.
//!
//! An element carries a key, a typed props value erased into
//! [`AnyProps`], and the child elements of the node. Elements are
//! transient: reconciliation consumes them and they are gone.

use vstd::prelude::*;

use crate::context::Context;
use crate::key::ElementKey;
use crate::layout::{LayoutStyle, ScrollBars, ScrollViewState};
use crate::value::Value;

verus! {

/// Props of a plain layout container: it declares a layout directive and
/// renders its children inside it.
pub struct ViewProps {
    pub layout: LayoutStyle,
}

/// Props of a transparent grouping node: it introduces no layout node of
/// its own and hands its area straight to its children.
pub struct FragmentProps {}

/// Props of a context provider: the frame, if any, is visible to the
/// subtree while it updates.
pub struct ContextProviderProps {
    pub value: Option<Context>,
}

/// Props of a static text leaf.
pub struct TextProps {
    pub text: String,
}

/// Props of a stateful text leaf: its single state cell starts at `init`,
/// survives updates, accepts writes from background work, and is rendered
/// as text.
pub struct StateTextProps {
    pub init: Value,
}

/// Props of a scrollable container. A supplied scroll position puts the
/// view under manual management: the instance takes it on every update;
/// without one the instance keeps the position it has.
pub struct ScrollViewProps {
    pub layout: LayoutStyle,
    pub scroll_bars: ScrollBars,
    pub scroll: Option<ScrollViewState>,
}

/// Props of an event-subscribed text leaf: its single cell receives
/// every input event dispatched before an update pass, and is rendered
/// as text.
pub struct EventTextProps {}

/// A type-erased props value; the variant is the component type it came
/// from, and is the stable type identity reconciliation compares.
pub enum AnyProps {
    Pane(ViewProps),
    Fragment(FragmentProps),
    ContextProvider(ContextProviderProps),
    Text(TextProps),
    StateText(StateTextProps),
    ScrollView(ScrollViewProps),
    EventText(EventTextProps),
}

/// The stable type identifier of the plain layout container.
pub const PANE_TAG: u64 = 1;

/// The stable type identifier of the transparent grouping node.
pub const FRAGMENT_TAG: u64 = 2;

/// The stable type identifier of the context provider.
pub const CONTEXT_PROVIDER_TAG: u64 = 3;

/// The stable type identifier of the static text leaf.
pub const TEXT_TAG: u64 = 4;

/// The stable type identifier of the stateful text leaf.
pub const STATE_TEXT_TAG: u64 = 5;

/// The stable type identifier of the scrollable container.
pub const SCROLL_VIEW_TAG: u64 = 6;

/// The stable type identifier of the event-subscribed text leaf.
pub const EVENT_TEXT_TAG: u64 = 7;

/// The stable type identifier of a props value.
pub open spec fn spec_props_tag(p: AnyProps) -> u64 {
    match p {
        AnyProps::Pane(_) => PANE_TAG,
        AnyProps::Fragment(_) => FRAGMENT_TAG,
        AnyProps::ContextProvider(_) => CONTEXT_PROVIDER_TAG,
        AnyProps::Text(_) => TEXT_TAG,
        AnyProps::StateText(_) => STATE_TEXT_TAG,
        AnyProps::ScrollView(_) => SCROLL_VIEW_TAG,
        AnyProps::EventText(_) => EVENT_TEXT_TAG,
    }
}

impl AnyProps {
    /// The stable type identifier, used to detect "same key, different
    /// type", which forces recreation rather than reuse.
    pub fn props_tag(&self) -> (r: u64)
        ensures
            r == spec_props_tag(*self),
    {
        match self {
            AnyProps::Pane(_) => PANE_TAG,
            AnyProps::Fragment(_) => FRAGMENT_TAG,
            AnyProps::ContextProvider(_) => CONTEXT_PROVIDER_TAG,
            AnyProps::Text(_) => TEXT_TAG,
            AnyProps::StateText(_) => STATE_TEXT_TAG,
            AnyProps::ScrollView(_) => SCROLL_VIEW_TAG,
            AnyProps::EventText(_) => EVENT_TEXT_TAG,
        }
    }
}

/// A type-erased element descriptor: a key to match identity across
/// updates, the erased props, and the desired children.
pub struct AnyElement {
    pub key: ElementKey,
    pub props: AnyProps,
    pub children: Vec<AnyElement>,
}

impl AnyElement {
    /// An element from its parts.
    pub fn new(key: ElementKey, props: AnyProps, children: Vec<AnyElement>) -> (r: AnyElement)
        ensures
            r.key == key,
            r.props == props,
            r.children == children,
    {
        AnyElement { key, props, children }
    }
}

/// A concrete component type: the typed props it takes and how they erase
/// into [`AnyProps`].
pub trait ElementType {
    /// The typed props of this component type.
    type Props;

    /// How a typed props value erases.
    spec fn spec_wrap(props: Self::Props) -> AnyProps;

    /// Erases a typed props value.
    fn wrap(props: Self::Props) -> (r: AnyProps)
        ensures
            r == Self::spec_wrap(props),
    ;
}

/// A typed element descriptor, before erasure.
pub struct Element<T: ElementType> {
    pub key: ElementKey,
    pub props: T::Props,
    pub children: Vec<AnyElement>,
}

impl<T: ElementType> Element<T> {
    /// Erases the element for storage in a heterogeneous children list.
    pub fn into_any(self) -> (r: AnyElement)
        ensures
            r.key == self.key,
            r.props == T::spec_wrap(self.props),
            r.children == self.children,
    {
        AnyElement { key: self.key, props: T::wrap(self.props), children: self.children }
    }
}

/// The plain layout container.
pub struct Pane;

impl ElementType for Pane {
    type Props = ViewProps;

    open spec fn spec_wrap(props: ViewProps) -> AnyProps {
        AnyProps::Pane(props)
    }

    fn wrap(props: ViewProps) -> (r: AnyProps) {
        AnyProps::Pane(props)
    }
}

/// The transparent grouping node.
pub struct Fragment;

impl ElementType for Fragment {
    type Props = FragmentProps;

    open spec fn spec_wrap(props: FragmentProps) -> AnyProps {
        AnyProps::Fragment(props)
    }

    fn wrap(props: FragmentProps) -> (r: AnyProps) {
        AnyProps::Fragment(props)
    }
}

/// The context provider.
pub struct ContextProvider;

impl ElementType for ContextProvider {
    type Props = ContextProviderProps;

    open spec fn spec_wrap(props: ContextProviderProps) -> AnyProps {
        AnyProps::ContextProvider(props)
    }

    fn wrap(props: ContextProviderProps) -> (r: AnyProps) {
        AnyProps::ContextProvider(props)
    }
}

/// The static text leaf.
pub struct Text;

impl ElementType for Text {
    type Props = TextProps;

    open spec fn spec_wrap(props: TextProps) -> AnyProps {
        AnyProps::Text(props)
    }

    fn wrap(props: TextProps) -> (r: AnyProps) {
        AnyProps::Text(props)
    }
}

/// The stateful text leaf.
pub struct StateText;

impl ElementType for StateText {
    type Props = StateTextProps;

    open spec fn spec_wrap(props: StateTextProps) -> AnyProps {
        AnyProps::StateText(props)
    }

    fn wrap(props: StateTextProps) -> (r: AnyProps) {
        AnyProps::StateText(props)
    }
}

/// The scrollable container.
pub struct ScrollView;

impl ElementType for ScrollView {
    type Props = ScrollViewProps;

    open spec fn spec_wrap(props: ScrollViewProps) -> AnyProps {
        AnyProps::ScrollView(props)
    }

    fn wrap(props: ScrollViewProps) -> (r: AnyProps) {
        AnyProps::ScrollView(props)
    }
}

/// The event-subscribed text leaf.
pub struct EventText;

impl ElementType for EventText {
    type Props = EventTextProps;

    open spec fn spec_wrap(props: EventTextProps) -> AnyProps {
        AnyProps::EventText(props)
    }

    fn wrap(props: EventTextProps) -> (r: AnyProps) {
        AnyProps::EventText(props)
    }
}

} // verus!
