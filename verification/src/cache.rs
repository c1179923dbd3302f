//! The process-wide key cache: one current key-set snapshot, shared by all
//! requests and replaced — never edited — on refresh.  The lock discipline
//! (read, check, release, write, re-read) belongs to the application edge;
//! this module holds the protected state and its decisions.  Because a
//! refresh installs a whole new snapshot, a reader that took the previous
//! one keeps it unchanged: `install` hands the old value back intact.

use vstd::prelude::*;

use crate::keys::JwkKeys;

verus! {

/// The cache cell: the key set currently served.
pub struct GoogleJwkKeys {
    pub current: JwkKeys,
}

impl GoogleJwkKeys {
    /// Starts the cache with the key set of the startup fetch; startup
    /// fails upstream if that fetch fails, so a cache always holds keys.
    pub fn load_new(keys: JwkKeys) -> (r: Self)
        ensures
            r.current == keys,
    {
        GoogleJwkKeys { current: keys }
    }

    /// The snapshot currently served.
    pub fn latest_keys(&self) -> (r: &JwkKeys)
        ensures
            r == self.current,
    {
        &self.current
    }

    /// Whether the held snapshot has to be refreshed at time `now`:
    /// exactly when it is no longer valid.
    pub fn needs_refresh(&self, now: u64) -> (r: bool)
        ensures
            r == !(now < self.current.created + self.current.validity),
    {
        !self.current.is_still_valid(now)
    }

    /// Installs a freshly fetched snapshot and hands back the one it
    /// replaces, unchanged: nothing is edited in place, so any reader
    /// still holding the previous snapshot sees exactly this value.
    pub fn install(&mut self, fresh: JwkKeys) -> (prev: JwkKeys)
        ensures
            final(self).current == fresh,
            prev == old(self).current,
    {
        let mut swapped = fresh;
        core::mem::swap(&mut self.current, &mut swapped);
        swapped
    }
}

} // verus!
