//! The placeholder backend.
use vstd::prelude::*;

verus! {

/// A repository that holds nothing and syncs with nothing.
#[derive(Clone, Copy, Debug, PartialEq, Eq, Structural)]
pub struct DummyRepo;

impl Default for DummyRepo {
    fn default() -> (r: Self)
        ensures
            r == DummyRepo,
    {
        DummyRepo
    }
}

} // verus!
