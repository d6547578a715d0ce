//! The store: who it is, how it is tuned, and what it knows of prefixes.

use crate::config::{StoreIdentity, Tuning};
use crate::prefixes::PrefixCaches;
use vstd::prelude::*;

verus! {

/// A log store on an object store.
#[derive(Debug)]
pub struct DynoStore {
    pub identity: StoreIdentity,
    pub tuning: Tuning,
    /// What is known of prefixes; the markers of retired ones as they are stored.
    pub prefixes: PrefixCaches<Vec<u8>>,
}

impl DynoStore {
    pub open spec fn wf(&self) -> bool {
        self.prefixes.wf()
    }

    /// A store that knows nothing of any prefix yet.
    pub fn new(identity: StoreIdentity, tuning: Tuning) -> (store: Self)
        ensures
            store.wf(),
            store.identity == identity,
            store.tuning == tuning,
            store.prefixes.unpoisoned(),
            store.prefixes.knows_nothing(),
    {
        DynoStore { identity, tuning, prefixes: PrefixCaches::new() }
    }
}

} // verus!
