//! The concurrency-safe face of the metric store.
//!
//! A `SharedStore` guards one [`MetricStore`] with a verified reader-writer
//! lock, so a background sampler and any number of concurrent scrape
//! handlers can use it through shared references. The lock's invariant
//! keeps the store well formed — label sets unique — at every release, and
//! the lock itself makes every operation atomic: a snapshot never observes
//! a gauge mid-update.

use vstd::prelude::*;
use vstd::rwlock::RwLock;

use crate::labels::LabelSet;
use crate::store::{entries_view, store_wf, MetricStore};
use crate::value::DecValue;

verus! {

/// The lock invariant: the guarded store is well formed.
pub open spec fn store_inv() -> spec_fn(MetricStore) -> bool {
    |s: MetricStore| s.wf()
}

/// A metric store behind a reader-writer lock, safe for concurrent use
/// through `&self` alone.
pub struct SharedStore {
    lock: RwLock<MetricStore, spec_fn(MetricStore) -> bool>,
}

impl SharedStore {
    /// Every shared store carries the intended lock invariant from its
    /// construction on.
    #[verifier::type_invariant]
    spec fn wf(self) -> bool {
        self.lock.pred() == store_inv()
    }

    /// A fresh, empty shared store.
    pub fn new() -> (r: SharedStore) {
        let s = MetricStore::new();
        proof {
            assert(store_inv()(s));
        }
        SharedStore { lock: RwLock::new(s, Ghost(store_inv())) }
    }

    /// Returns a handle for `labels`, creating its gauge at zero first if
    /// no entry carries these labels yet. Handles stay valid for the life
    /// of the store: entries are never removed.
    pub fn get_or_create(&self, labels: &LabelSet) -> (h: usize) {
        proof {
            use_type_invariant(&*self);
        }
        let (mut store, handle) = self.lock.acquire_write();
        proof {
            assert(store_inv()(store));
        }
        let h = store.get_or_create(labels);
        proof {
            assert(store_inv()(store));
        }
        handle.release_write(store);
        h
    }

    /// Overwrites the gauge behind handle `h`, if the handle is in range;
    /// last writer wins. A handle from `get_or_create` on this store is
    /// always in range.
    pub fn set(&self, h: usize, value: DecValue) {
        proof {
            use_type_invariant(&*self);
        }
        let (mut store, handle) = self.lock.acquire_write();
        proof {
            assert(store_inv()(store));
        }
        if h < store.len() {
            store.set(h, value);
        }
        proof {
            assert(store_inv()(store));
        }
        handle.release_write(store);
    }

    /// Looks up — or creates — the gauge for `labels` and overwrites it in
    /// one atomic step.
    pub fn set_labeled(&self, labels: &LabelSet, value: DecValue) {
        proof {
            use_type_invariant(&*self);
        }
        let (mut store, handle) = self.lock.acquire_write();
        proof {
            assert(store_inv()(store));
        }
        let h = store.get_or_create(labels);
        store.set(h, value);
        proof {
            assert(store_inv()(store));
        }
        handle.release_write(store);
    }

    /// A point-in-time consistent copy of every entry, taken under the
    /// read lock: it reflects, per gauge, the last `set` completed before
    /// the copy, and no write can tear it afterwards.
    pub fn snapshot(&self) -> (snap: Vec<(LabelSet, DecValue)>)
        ensures
            store_wf(entries_view(snap@)),
    {
        proof {
            use_type_invariant(&*self);
        }
        let read_handle = self.lock.acquire_read();
        let store = read_handle.borrow();
        proof {
            assert(store_inv()(*store));
        }
        let snap = store.snapshot();
        read_handle.release_read();
        snap
    }
}

} // verus!
