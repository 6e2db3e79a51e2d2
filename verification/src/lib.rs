//! NGAC-inspired authorization: an attribute-matching policy graph with a
//! point check (`evaluate`) and a list-filter resolution (`scope`) that
//! provably agree, an event-sourced aggregate that records every policy
//! change, and time-travel queries over the recorded history.
pub mod aggregate;
pub mod attrs;
pub mod graph;
pub mod pep;
pub mod time_travel;

pub use aggregate::{
    apply, handle_command, PolicyActor, PolicyApplyError, PolicyCommand, PolicyCommandError,
    PolicyEvent, PolicyState, POLICY_AGGREGATE_ID,
};
pub use attrs::AttrMap;
pub use graph::{
    Association, AssociationTarget, AttributeMatcher, NodeId, ObjectAttribute, PolicyClass,
    PolicyGraph, PolicyView, UserAttribute,
};
pub use pep::{
    evaluate, reachable, scope, AccessRequest, AccessScope, Decision, Reach, ScopeConstraint,
    ScopeRequest,
};
pub use time_travel::{
    evaluate_historical, reachable_historical, scope_historical, version_at, EventStamp,
};
