//! The package store: whether a path can serve as one.
use vstd::prelude::*;

verus! {

/// What to make of a path that was given as the package store.
#[derive(Clone, Copy, Debug, PartialEq, Eq, Structural)]
pub enum StoreCheck {
    /// The path is a directory: use it.
    Usable,
    /// Nothing is at the path, but its parent is a directory: make the store.
    Create,
    /// The path is empty.
    Undefined,
    /// Something that is no directory is at the path.
    NotADirectory,
    /// Nothing is at the path, and its parent is no directory.
    NoParent,
}

/// The verdict on a store path, from what is known of it: whether the path
/// is empty, is a directory, exists at all, and whether its parent is a
/// directory. The first of these that settles the matter does.
pub open spec fn store_check(empty: bool, is_dir: bool, exists: bool, parent_is_dir: bool) -> StoreCheck {
    if empty {
        StoreCheck::Undefined
    } else if is_dir {
        StoreCheck::Usable
    } else if exists {
        StoreCheck::NotADirectory
    } else if parent_is_dir {
        StoreCheck::Create
    } else {
        StoreCheck::NoParent
    }
}

/// Judges a store path.
pub fn check_store(empty: bool, is_dir: bool, exists: bool, parent_is_dir: bool) -> (r: StoreCheck)
    ensures
        r == store_check(empty, is_dir, exists, parent_is_dir),
{
    if empty {
        StoreCheck::Undefined
    } else if is_dir {
        StoreCheck::Usable
    } else if exists {
        StoreCheck::NotADirectory
    } else if parent_is_dir {
        StoreCheck::Create
    } else {
        StoreCheck::NoParent
    }
}

} // verus!
