use vstd::prelude::*;
use vstd::rwlock::RwLock;

verus! {

/// The shared selection slot: the one value the interactive loop and the
/// retrieval responder both touch. It holds the path currently exposed for
/// retrieval, or nothing, behind a verified reader-writer lock, so the two
/// control flows may call `set`, `get` and `clear` concurrently with no
/// further coordination: a reader observes either the previous or the next
/// fully written value, never a partial one, and the most recent write
/// wins. No other code path may reach the guarded value; the lock is held
/// only long enough to copy the path, never while a file streams.
pub struct SharedSelectionSlot {
    lock: RwLock<Option<String>, spec_fn(Option<String>) -> bool>,
}

impl SharedSelectionSlot {
    /// Any optional path may sit in the slot.
    #[verifier::type_invariant]
    spec fn wf(self) -> bool {
        forall|v: Option<String>| self.lock.inv(v)
    }

    /// A fresh slot, holding no selection.
    pub fn new() -> Self {
        let ghost pred = |v: Option<String>| true;
        SharedSelectionSlot { lock: RwLock::new(None, Ghost(pred)) }
    }

    /// Stores `path` as the current selection, replacing any prior value,
    /// under mutual exclusion.
    pub fn set(&self, path: String) {
        proof {
            use_type_invariant(self);
        }
        let (_prev, handle) = self.lock.acquire_write();
        handle.release_write(Some(path));
    }

    /// A copy of the current selection under mutual exclusion: the lock is
    /// held only for the copy, so this never blocks behind a streaming
    /// read.
    pub fn get(&self) -> Option<String> {
        let handle = self.lock.acquire_read();
        let r = match handle.borrow() {
            Some(p) => Some(p.clone()),
            None => None,
        };
        handle.release_read();
        r
    }

    /// Empties the slot, under mutual exclusion: used when retrieval is
    /// disabled or nothing has been selected yet.
    pub fn clear(&self) {
        proof {
            use_type_invariant(self);
        }
        let (_prev, handle) = self.lock.acquire_write();
        handle.release_write(None);
    }
}

} // verus!
