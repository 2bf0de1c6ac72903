//! A blocklist handle whose snapshot can be replaced as a whole while
//! readers keep using the snapshot they took.

use vstd::prelude::*;
use arc_swap::ArcSwap;
use std::sync::Arc;
use crate::blocklist::Blocklist;

verus! {

/// The swappable snapshot handle. Its field stays hidden: the handle's
/// strategy types are private to arc-swap, so only these functions reach it.
#[verifier::external_body]
pub struct SharedBlocklist {
    current: ArcSwap<Blocklist>,
}

/// The blocklists stored in a handle over its life: the first one and every
/// replacement.
pub uninterp spec fn stored(s: SharedBlocklist) -> Set<Set<Seq<char>>>;

/// Relies on ArcSwap::from_pointee: a handle whose current snapshot is `b`.
#[verifier::external_body]
fn swap_new(b: Blocklist) -> (r: SharedBlocklist)
    ensures
        stored(r).contains(b@),
{
    SharedBlocklist { current: ArcSwap::from_pointee(b) }
}

/// Relies on ArcSwap::load_full: the snapshot current at the time of the
/// call, which is one of those stored in the handle.
#[verifier::external_body]
fn swap_load(s: &SharedBlocklist) -> (r: Arc<Blocklist>)
    ensures
        stored(*s).contains(r@),
{
    s.current.load_full()
}

/// Relies on ArcSwap::store: `b` becomes the current snapshot.
#[verifier::external_body]
fn swap_store(s: &SharedBlocklist, b: Blocklist) {
    s.current.store(Arc::new(b))
}

impl SharedBlocklist {
    /// A handle whose first snapshot is `b`.
    pub fn new(b: Blocklist) -> (r: SharedBlocklist)
        ensures
            stored(r).contains(b@),
    {
        swap_new(b)
    }

    /// The current snapshot: one of the blocklists stored in the handle, never
    /// a mix of two. A reader keeps it whole and unchanged while other
    /// threads replace the handle's snapshot.
    pub fn snapshot(&self) -> (r: Arc<Blocklist>)
        ensures
            stored(*self).contains(r@),
    {
        swap_load(self)
    }

    /// Replaces the snapshot as a whole.
    pub fn replace(&self, b: Blocklist) {
        swap_store(self, b)
    }
}

} // verus!
