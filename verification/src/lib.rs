//! The configuration of the storm package manager: the configuration
//! document and paths into it, the registry of package repositories, and
//! package identifiers.
use vstd::prelude::*;

pub mod codec;
pub mod config;
pub mod package;
pub mod path;
pub mod repo;
pub mod sandbox;
pub mod store;
pub mod text;
pub mod value;

verus! {

} // verus!
