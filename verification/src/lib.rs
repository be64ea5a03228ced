//! A retained-mode, reactive rendering runtime for character-grid displays.
//!
//! Application code describes the desired interface as a tree of component
//! descriptors ([`element::AnyElement`]); the runtime keeps a persistent
//! instance tree, reconciles it against fresh descriptors on every update
//! ([`component`]), stores per-instance hook state across updates
//! ([`hooks`]), injects scoped, type-keyed context values ([`context`]),
//! computes layout areas ([`layout`]) and paints into a character buffer
//! ([`buffer`]). The decision core of the render loop lives in
//! [`runtime`], path-based navigation in [`router`], and the runtime's
//! cross-cutting guarantees are stated and proved in [`laws`].

pub mod buffer;
pub mod component;
pub mod context;
pub mod element;
pub mod hooks;
pub mod key;
pub mod laws;
pub mod layout;
pub mod multimap;
pub mod router;
pub mod runtime;
pub mod value;
