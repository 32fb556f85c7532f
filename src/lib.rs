//! A pending-resource tracker for a reactive runtime: a suspense context
//! counts the asynchronous resources that are still outstanding under it and
//! records which ones, and applies every change in a deferred batch so that
//! readers never see the count and the id set disagree about a call.
use vstd::prelude::*;

pub mod laws;
pub mod model;
pub mod resource;
pub mod runtime;
pub mod suspense;

pub use model::{Change, Microtask};
pub use resource::ResourceId;
pub use runtime::{CountReader, IdsReader, Runtime, Scope, ScopeDisposed};
pub use suspense::SuspenseContext;

verus! {

} // verus!
