//! Identity tokens used to match old instances to new elements across
//! updates of a sibling list.

use vstd::prelude::*;

verus! {

/// A key composed of a declaration-site identifier and an
/// application-supplied disambiguator.
///
/// `site` identifies the place in the declaration that produced the
/// element; `user` lets the application tell logically distinct rows of a
/// list apart (it is `0` when the application supplied none). Two keys are
/// the same identity exactly when both parts agree.
#[derive(Clone, Copy, PartialEq, Eq, Hash, Debug, Structural)]
pub struct ElementKey {
    pub site: u64,
    pub user: u64,
}

impl ElementKey {
    /// A key with no application-supplied disambiguator.
    pub fn new(site: u64) -> (r: ElementKey)
        ensures
            r == (ElementKey { site, user: 0u64 }),
    {
        ElementKey { site, user: 0 }
    }

    /// A key disambiguated by an application-supplied value.
    pub fn with_user(site: u64, user: u64) -> (r: ElementKey)
        ensures
            r == (ElementKey { site, user }),
    {
        ElementKey { site, user }
    }
}

} // verus!
