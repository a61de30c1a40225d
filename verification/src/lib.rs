//! Namespaces: a uniform way to isolate and share system resources between
//! execution domains.
//!
//! A resource type is described once, in a [`Registry`], by a [`Resource`]
//! descriptor. A [`Namespace`] bundles one reference-counted cell per
//! descriptor; the cells live in a [`ResHeap`] and may be shared between
//! namespaces until a slot is given a cell of its own.
//!
//! For a unikernel there is one global namespace, so all threads share the
//! same resources. For a monolithic kernel each process has a namespace of its
//! own. For containers, resources can be grouped into a namespace as well.

pub mod arc;
pub mod def;
pub mod error;
pub mod layout;
pub mod ns;

pub use arc::{ResArc, ResHeap, ResInner};
pub use def::{Registry, ResWrapper, Resource};
pub use error::NsError;
pub use layout::Layout;
pub use ns::Namespace;

use vstd::prelude::*;

verus! {

/// The interface through which the surrounding kernel says which namespace is
/// the current one. This crate declares it and leaves its methods to the
/// kernel.
pub trait AxNsIf {

}

} // verus!
