//! The verified core of a local document assistant: fictive identities and their
//! sessions, a deny-by-default RBAC/ACL policy, audited document reads, lexical
//! retrieval and chat preparation restricted to permitted documents, the decisions
//! of the local HTTP surface, and the checks of the indexing and build tools.
//!
//! Everything that touches the network, the file system or the clock is done by
//! the caller, which hands plain values to these functions.
use vstd::prelude::*;

pub mod application;
pub mod assets;
pub mod bootstrap;
pub mod contracts;
pub mod display;
pub mod indexing;
pub mod json;
pub mod laws;
pub mod outgoing;
pub mod page;
pub mod policy;
pub mod retrieval;
pub mod semantic;
pub mod sessions;
pub mod storage;
pub mod text;
pub mod tooling;
pub mod transport;

verus! {

} // verus!
