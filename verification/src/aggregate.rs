//! The decisions of the event-sourced policy aggregate: commands are
//! validated against the current state and turned into events, and events
//! are applied to rebuild the policy graph.
use vstd::prelude::*;

use crate::graph::{
    keys_match, lemma_filter_idempotent, lemma_filter_keeps_unique, lemma_filter_push,
    lemma_remove_grant, lemma_upsert_single_grant, same_grant, assoc_pairs_unique, Association, AssociationTarget, AttributeMatcher,
    GraphModel, NodeId, ObjectAttribute, PolicyClass, PolicyGraph, UserAttribute,
};

verus! {

broadcast use vstd::seq_lib::group_seq_properties;

/// The well-known fixed id of the single policy aggregate
/// (`a1b2c3d4-e5f6-7890-abcd-ef1234567890`).
pub const POLICY_AGGREGATE_ID: NodeId = 0xa1b2c3d4_e5f6_7890_abcd_ef1234567890u128;

/// Credentials for policy commands, carrying the actor id for audit.
#[derive(Debug, Clone, Copy, PartialEq, Eq, Structural)]
pub struct PolicyActor {
    /// The unique identifier of the actor performing the policy mutation.
    pub id: NodeId,
}

/// Commands that mutate the policy graph.
#[derive(Debug, Clone)]
pub enum PolicyCommand {
    /// Create a user attribute node.
    CreateUserAttribute {
        /// The id of the user attribute.
        id: NodeId,
        /// Human-readable name.
        name: String,
        /// Matcher selecting the subjects that fall under it.
        matcher: AttributeMatcher,
    },
    /// Create an object attribute node.
    CreateObjectAttribute {
        /// The id of the object attribute.
        id: NodeId,
        /// Human-readable name.
        name: String,
        /// The resource type it applies to.
        resource_type: String,
        /// Matcher selecting the resources that fall under it.
        matcher: AttributeMatcher,
    },
    /// Create a policy class node.
    CreatePolicyClass {
        /// The id of the policy class.
        id: NodeId,
        /// Human-readable name.
        name: String,
    },
    /// Set the operation set of the grant from `ua_id` to `target`: an
    /// existing association for the same pair is replaced (upsert).
    CreateAssociation {
        /// The user attribute the association originates from.
        ua_id: NodeId,
        /// The target of the grant.
        target: AssociationTarget,
        /// The permitted operations.
        operations: Vec<String>,
    },
    /// Remove the grant from `ua_id` to `target`.
    RemoveAssociation {
        /// The user attribute of the association to remove.
        ua_id: NodeId,
        /// The target of the association to remove.
        target: AssociationTarget,
    },
    /// Assign an object attribute to a policy class.
    AssignOaToPc {
        /// The object attribute to assign.
        oa_id: NodeId,
        /// The policy class to assign to.
        pc_id: NodeId,
    },
    /// Remove an OA→PC assignment.
    UnassignOaFromPc {
        /// The object attribute to unassign.
        oa_id: NodeId,
        /// The policy class to unassign from.
        pc_id: NodeId,
    },
    /// Delete a user attribute node and every association from it.
    DeleteUserAttribute {
        /// The id of the user attribute to delete.
        id: NodeId,
    },
    /// Delete an object attribute node, the associations aimed at it and
    /// its assignment edges.
    DeleteObjectAttribute {
        /// The id of the object attribute to delete.
        id: NodeId,
    },
    /// Delete a policy class node, the associations aimed at it and its
    /// assignment edges.
    DeletePolicyClass {
        /// The id of the policy class to delete.
        id: NodeId,
    },
}

/// Events emitted by the policy aggregate; they mirror the commands one for
/// one and carry exactly the data needed to replay the graph mutation.
#[derive(Debug, Clone)]
pub enum PolicyEvent {
    /// A user attribute node was created.
    UserAttributeCreated {
        /// The id of the user attribute.
        id: NodeId,
        /// Human-readable name.
        name: String,
        /// Matcher selecting the subjects that fall under it.
        matcher: AttributeMatcher,
    },
    /// An object attribute node was created.
    ObjectAttributeCreated {
        /// The id of the object attribute.
        id: NodeId,
        /// Human-readable name.
        name: String,
        /// The resource type it applies to.
        resource_type: String,
        /// Matcher selecting the resources that fall under it.
        matcher: AttributeMatcher,
    },
    /// A policy class node was created.
    PolicyClassCreated {
        /// The id of the policy class.
        id: NodeId,
        /// Human-readable name.
        name: String,
    },
    /// A permission association was created (or its operations replaced).
    AssociationCreated {
        /// The user attribute the association originates from.
        ua_id: NodeId,
        /// The target of the grant.
        target: AssociationTarget,
        /// The permitted operations.
        operations: Vec<String>,
    },
    /// A permission association was removed.
    AssociationRemoved {
        /// The user attribute of the removed association.
        ua_id: NodeId,
        /// The target of the removed association.
        target: AssociationTarget,
    },
    /// An object attribute was assigned to a policy class.
    OaAssignedToPc {
        /// The assigned object attribute.
        oa_id: NodeId,
        /// The policy class assigned to.
        pc_id: NodeId,
    },
    /// An object attribute was unassigned from a policy class.
    OaUnassignedFromPc {
        /// The unassigned object attribute.
        oa_id: NodeId,
        /// The policy class unassigned from.
        pc_id: NodeId,
    },
    /// A user attribute node was deleted.
    UserAttributeDeleted {
        /// The id of the deleted user attribute.
        id: NodeId,
    },
    /// An object attribute node was deleted.
    ObjectAttributeDeleted {
        /// The id of the deleted object attribute.
        id: NodeId,
    },
    /// A policy class node was deleted.
    PolicyClassDeleted {
        /// The id of the deleted policy class.
        id: NodeId,
    },
}

impl PolicyEvent {
    /// The name of the event's variant, as recorded in the event stream.
    pub fn event_type(&self) -> (r: &'static str)
        ensures
            r@ == event_type_name(*self),
    {
        match self {
            PolicyEvent::UserAttributeCreated { .. } => "UserAttributeCreated",
            PolicyEvent::ObjectAttributeCreated { .. } => "ObjectAttributeCreated",
            PolicyEvent::PolicyClassCreated { .. } => "PolicyClassCreated",
            PolicyEvent::AssociationCreated { .. } => "AssociationCreated",
            PolicyEvent::AssociationRemoved { .. } => "AssociationRemoved",
            PolicyEvent::OaAssignedToPc { .. } => "OaAssignedToPc",
            PolicyEvent::OaUnassignedFromPc { .. } => "OaUnassignedFromPc",
            PolicyEvent::UserAttributeDeleted { .. } => "UserAttributeDeleted",
            PolicyEvent::ObjectAttributeDeleted { .. } => "ObjectAttributeDeleted",
            PolicyEvent::PolicyClassDeleted { .. } => "PolicyClassDeleted",
        }
    }
}

/// The variant name of an event.
pub open spec fn event_type_name(e: PolicyEvent) -> Seq<char> {
    match e {
        PolicyEvent::UserAttributeCreated { .. } => "UserAttributeCreated"@,
        PolicyEvent::ObjectAttributeCreated { .. } => "ObjectAttributeCreated"@,
        PolicyEvent::PolicyClassCreated { .. } => "PolicyClassCreated"@,
        PolicyEvent::AssociationCreated { .. } => "AssociationCreated"@,
        PolicyEvent::AssociationRemoved { .. } => "AssociationRemoved"@,
        PolicyEvent::OaAssignedToPc { .. } => "OaAssignedToPc"@,
        PolicyEvent::OaUnassignedFromPc { .. } => "OaUnassignedFromPc"@,
        PolicyEvent::UserAttributeDeleted { .. } => "UserAttributeDeleted"@,
        PolicyEvent::ObjectAttributeDeleted { .. } => "ObjectAttributeDeleted"@,
        PolicyEvent::PolicyClassDeleted { .. } => "PolicyClassDeleted"@,
    }
}

/// The persisted state of the policy aggregate: the policy graph and the
/// stream version it reflects.
#[derive(Debug, Clone)]
pub struct PolicyState {
    /// The current policy graph; verified callers read it through `graph()`.
    pub graph: PolicyGraph,
    version: u64,
}

impl PolicyState {
    /// The policy graph of the state.
    pub closed spec fn spec_graph(&self) -> PolicyGraph {
        self.graph
    }

    /// The stream version of the state.
    pub closed spec fn spec_version(&self) -> u64 {
        self.version
    }

    /// Creates a state holding `graph` at stream version `version`.
    pub fn new(graph: PolicyGraph, version: u64) -> (r: PolicyState)
        ensures
            r.spec_graph() == graph,
            r.spec_version() == version,
    {
        PolicyState { graph, version }
    }

    /// The policy graph of the state, for evaluation.
    pub fn graph(&self) -> (r: &PolicyGraph)
        ensures
            *r == self.spec_graph(),
    {
        &self.graph
    }

    /// The id of the aggregate this state belongs to.
    pub fn get_id(&self) -> (r: NodeId)
        ensures
            r == POLICY_AGGREGATE_ID,
    {
        POLICY_AGGREGATE_ID
    }

    /// The stream version of the state.
    pub fn get_version(&self) -> (r: u64)
        ensures
            r == self.spec_version(),
    {
        self.version
    }

    /// Sets the stream version of the state.
    pub fn set_version(&mut self, version: u64)
        ensures
            final(self).spec_version() == version,
            final(self).spec_graph() == old(self).spec_graph(),
    {
        self.version = version;
    }
}

/// Why an event could not be applied.
#[derive(Debug, Clone, Copy, PartialEq, Eq, Structural)]
pub enum PolicyApplyError {
    /// The event carries no data (a purged event). Purging policy events is
    /// not supported: replay fails closed rather than skipping the grant.
    MissingEventData(NodeId),
}

/// Why a command was rejected.
#[derive(Debug, Clone, Copy, PartialEq, Eq, Structural)]
pub enum PolicyCommandError {
    /// A referenced user attribute does not exist in the graph.
    UserAttributeNotFound(NodeId),
    /// A referenced object attribute does not exist in the graph.
    ObjectAttributeNotFound(NodeId),
    /// A referenced policy class does not exist in the graph.
    PolicyClassNotFound(NodeId),
}

/// The event a command produces once it is accepted.
pub open spec fn event_for(cmd: PolicyCommand) -> PolicyEvent {
    match cmd {
        PolicyCommand::CreateUserAttribute { id, name, matcher } => PolicyEvent::UserAttributeCreated {
            id,
            name,
            matcher,
        },
        PolicyCommand::CreateObjectAttribute { id, name, resource_type, matcher } =>
            PolicyEvent::ObjectAttributeCreated { id, name, resource_type, matcher },
        PolicyCommand::CreatePolicyClass { id, name } => PolicyEvent::PolicyClassCreated { id, name },
        PolicyCommand::CreateAssociation { ua_id, target, operations } =>
            PolicyEvent::AssociationCreated { ua_id, target, operations },
        PolicyCommand::RemoveAssociation { ua_id, target } => PolicyEvent::AssociationRemoved {
            ua_id,
            target,
        },
        PolicyCommand::AssignOaToPc { oa_id, pc_id } => PolicyEvent::OaAssignedToPc { oa_id, pc_id },
        PolicyCommand::UnassignOaFromPc { oa_id, pc_id } => PolicyEvent::OaUnassignedFromPc {
            oa_id,
            pc_id,
        },
        PolicyCommand::DeleteUserAttribute { id } => PolicyEvent::UserAttributeDeleted { id },
        PolicyCommand::DeleteObjectAttribute { id } => PolicyEvent::ObjectAttributeDeleted { id },
        PolicyCommand::DeletePolicyClass { id } => PolicyEvent::PolicyClassDeleted { id },
    }
}

/// The error for a grant command on `(ua_id, target)`: the user attribute
/// is checked first, then the target.
pub open spec fn grant_error(
    g: Option<GraphModel>,
    ua_id: NodeId,
    target: AssociationTarget,
) -> Option<PolicyCommandError> {
    match g {
        Option::None => Some(PolicyCommandError::UserAttributeNotFound(ua_id)),
        Some(m) => if !m.uas.contains_key(ua_id) {
            Some(PolicyCommandError::UserAttributeNotFound(ua_id))
        } else {
            match target {
                AssociationTarget::ObjectAttribute(oa_id) => if !m.oas.contains_key(oa_id) {
                    Some(PolicyCommandError::ObjectAttributeNotFound(oa_id))
                } else {
                    Option::None
                },
                AssociationTarget::PolicyClass(pc_id) => if !m.pcs.contains_key(pc_id) {
                    Some(PolicyCommandError::PolicyClassNotFound(pc_id))
                } else {
                    Option::None
                },
            }
        },
    }
}

/// The error for an assignment command on `(oa_id, pc_id)`: the object
/// attribute is checked first, then the policy class.
pub open spec fn edge_error(g: Option<GraphModel>, oa_id: NodeId, pc_id: NodeId) -> Option<
    PolicyCommandError,
> {
    match g {
        Option::None => Some(PolicyCommandError::ObjectAttributeNotFound(oa_id)),
        Some(m) => if !m.oas.contains_key(oa_id) {
            Some(PolicyCommandError::ObjectAttributeNotFound(oa_id))
        } else if !m.pcs.contains_key(pc_id) {
            Some(PolicyCommandError::PolicyClassNotFound(pc_id))
        } else {
            Option::None
        },
    }
}

/// Why the aggregate rejects `cmd` against the graph `g` (`None` for an
/// uninitialised aggregate), or `None` when it accepts it. Creation commands
/// are always accepted; the others require the nodes they reference.
pub open spec fn command_error(g: Option<GraphModel>, cmd: PolicyCommand) -> Option<
    PolicyCommandError,
> {
    match cmd {
        PolicyCommand::CreateUserAttribute { .. } => Option::None,
        PolicyCommand::CreateObjectAttribute { .. } => Option::None,
        PolicyCommand::CreatePolicyClass { .. } => Option::None,
        PolicyCommand::CreateAssociation { ua_id, target, .. } => grant_error(g, ua_id, target),
        PolicyCommand::RemoveAssociation { ua_id, target } => grant_error(g, ua_id, target),
        PolicyCommand::AssignOaToPc { oa_id, pc_id } => edge_error(g, oa_id, pc_id),
        PolicyCommand::UnassignOaFromPc { oa_id, pc_id } => edge_error(g, oa_id, pc_id),
        PolicyCommand::DeleteUserAttribute { id } => match g {
            Some(m) if m.uas.contains_key(id) => Option::None,
            _ => Some(PolicyCommandError::UserAttributeNotFound(id)),
        },
        PolicyCommand::DeleteObjectAttribute { id } => match g {
            Some(m) if m.oas.contains_key(id) => Option::None,
            _ => Some(PolicyCommandError::ObjectAttributeNotFound(id)),
        },
        PolicyCommand::DeletePolicyClass { id } => match g {
            Some(m) if m.pcs.contains_key(id) => Option::None,
            _ => Some(PolicyCommandError::PolicyClassNotFound(id)),
        },
    }
}

/// The graph model of an aggregate state, `None` when uninitialised.
pub open spec fn state_graph(state: Option<PolicyState>) -> Option<GraphModel> {
    match state {
        Some(s) => Some(s.spec_graph()@),
        Option::None => Option::None,
    }
}


/// The error for a grant command on `(ua_id, target)` against `graph`.
fn check_grant(graph: &PolicyGraph, ua_id: NodeId, target: &AssociationTarget) -> (r: Option<
    PolicyCommandError,
>)
    ensures
        r == grant_error(Some(graph@), ua_id, *target),
{
    if !graph.contains_ua(ua_id) {
        return Some(PolicyCommandError::UserAttributeNotFound(ua_id));
    }
    match target {
        AssociationTarget::ObjectAttribute(oa_id) => {
            if !graph.contains_oa(*oa_id) {
                return Some(PolicyCommandError::ObjectAttributeNotFound(*oa_id));
            }
        },
        AssociationTarget::PolicyClass(pc_id) => {
            if !graph.contains_pc(*pc_id) {
                return Some(PolicyCommandError::PolicyClassNotFound(*pc_id));
            }
        },
    }
    None
}

/// The error for an assignment command on `(oa_id, pc_id)` against `graph`.
fn check_edge(graph: &PolicyGraph, oa_id: NodeId, pc_id: NodeId) -> (r: Option<PolicyCommandError>)
    ensures
        r == edge_error(Some(graph@), oa_id, pc_id),
{
    if !graph.contains_oa(oa_id) {
        return Some(PolicyCommandError::ObjectAttributeNotFound(oa_id));
    }
    if !graph.contains_pc(pc_id) {
        return Some(PolicyCommandError::PolicyClassNotFound(pc_id));
    }
    None
}

/// Validates `command` against the aggregate state and produces the event
/// that records it.
///
/// Creation commands are accepted against any state, including an
/// uninitialised one. Commands that reference nodes fail with the
/// `NotFound` error of the first missing node: the user attribute, then the
/// target, for association commands; the object attribute, then the policy
/// class, for assignment commands; the node itself for deletions. Against an
/// uninitialised aggregate every such command fails on its first reference.
pub fn handle_command(state: &Option<PolicyState>, command: PolicyCommand) -> (r: Result<
    PolicyEvent,
    PolicyCommandError,
>)
    ensures
        r == (match command_error(state_graph(*state), command) {
            Some(e) => Err(e),
            Option::None => Ok(event_for(command)),
        }),
{
    match command {
        PolicyCommand::CreateUserAttribute { id, name, matcher } => {
            Ok(PolicyEvent::UserAttributeCreated { id, name, matcher })
        },
        PolicyCommand::CreateObjectAttribute { id, name, resource_type, matcher } => {
            Ok(PolicyEvent::ObjectAttributeCreated { id, name, resource_type, matcher })
        },
        PolicyCommand::CreatePolicyClass { id, name } => {
            Ok(PolicyEvent::PolicyClassCreated { id, name })
        },
        PolicyCommand::CreateAssociation { ua_id, target, operations } => {
            match state {
                Option::None => Err(PolicyCommandError::UserAttributeNotFound(ua_id)),
                Some(s) => match check_grant(&s.graph, ua_id, &target) {
                    Some(e) => Err(e),
                    Option::None => Ok(PolicyEvent::AssociationCreated { ua_id, target, operations }),
                },
            }
        },
        PolicyCommand::RemoveAssociation { ua_id, target } => {
            match state {
                Option::None => Err(PolicyCommandError::UserAttributeNotFound(ua_id)),
                Some(s) => match check_grant(&s.graph, ua_id, &target) {
                    Some(e) => Err(e),
                    Option::None => Ok(PolicyEvent::AssociationRemoved { ua_id, target }),
                },
            }
        },
        PolicyCommand::AssignOaToPc { oa_id, pc_id } => {
            match state {
                Option::None => Err(PolicyCommandError::ObjectAttributeNotFound(oa_id)),
                Some(s) => match check_edge(&s.graph, oa_id, pc_id) {
                    Some(e) => Err(e),
                    Option::None => Ok(PolicyEvent::OaAssignedToPc { oa_id, pc_id }),
                },
            }
        },
        PolicyCommand::UnassignOaFromPc { oa_id, pc_id } => {
            match state {
                Option::None => Err(PolicyCommandError::ObjectAttributeNotFound(oa_id)),
                Some(s) => match check_edge(&s.graph, oa_id, pc_id) {
                    Some(e) => Err(e),
                    Option::None => Ok(PolicyEvent::OaUnassignedFromPc { oa_id, pc_id }),
                },
            }
        },
        PolicyCommand::DeleteUserAttribute { id } => {
            match state {
                Some(s) if s.graph.contains_ua(id) => Ok(PolicyEvent::UserAttributeDeleted { id }),
                _ => Err(PolicyCommandError::UserAttributeNotFound(id)),
            }
        },
        PolicyCommand::DeleteObjectAttribute { id } => {
            match state {
                Some(s) if s.graph.contains_oa(id) => Ok(PolicyEvent::ObjectAttributeDeleted { id }),
                _ => Err(PolicyCommandError::ObjectAttributeNotFound(id)),
            }
        },
        PolicyCommand::DeletePolicyClass { id } => {
            match state {
                Some(s) if s.graph.contains_pc(id) => Ok(PolicyEvent::PolicyClassDeleted { id }),
                _ => Err(PolicyCommandError::PolicyClassNotFound(id)),
            }
        },
    }
}


/// The graph that results from applying event `e` to the graph `m`; each
/// event performs the mutation of the `PolicyGraph` method it records.
pub open spec fn event_effect(m: GraphModel, e: PolicyEvent) -> GraphModel {
    match e {
        PolicyEvent::UserAttributeCreated { id, name, matcher } => GraphModel {
            uas: m.uas.insert(id, UserAttribute { id, name, matcher }),
            ..m
        },
        PolicyEvent::ObjectAttributeCreated { id, name, resource_type, matcher } => GraphModel {
            oas: m.oas.insert(id, ObjectAttribute { id, name, resource_type, matcher }),
            ..m
        },
        PolicyEvent::PolicyClassCreated { id, name } => GraphModel {
            pcs: m.pcs.insert(id, PolicyClass { id, name }),
            ..m
        },
        PolicyEvent::AssociationCreated { ua_id, target, operations } => GraphModel {
            assocs: m.assocs.filter(|a: Association| !same_grant(a, ua_id, target)).push(
                Association { ua_id, target, operations },
            ),
            ..m
        },
        PolicyEvent::AssociationRemoved { ua_id, target } => GraphModel {
            assocs: m.assocs.filter(|a: Association| !same_grant(a, ua_id, target)),
            ..m
        },
        PolicyEvent::OaAssignedToPc { oa_id, pc_id } => GraphModel {
            assignments: m.assignments.insert((oa_id, pc_id)),
            ..m
        },
        PolicyEvent::OaUnassignedFromPc { oa_id, pc_id } => GraphModel {
            assignments: m.assignments.remove((oa_id, pc_id)),
            ..m
        },
        PolicyEvent::UserAttributeDeleted { id } => GraphModel {
            uas: m.uas.remove(id),
            assocs: m.assocs.filter(|a: Association| a.ua_id != id),
            ..m
        },
        PolicyEvent::ObjectAttributeDeleted { id } => GraphModel {
            oas: m.oas.remove(id),
            assocs: m.assocs.filter(
                |a: Association| a.target != AssociationTarget::ObjectAttribute(id),
            ),
            assignments: m.assignments.filter(|e: (NodeId, NodeId)| e.0 != id),
            ..m
        },
        PolicyEvent::PolicyClassDeleted { id } => GraphModel {
            pcs: m.pcs.remove(id),
            assocs: m.assocs.filter(|a: Association| a.target != AssociationTarget::PolicyClass(id)),
            assignments: m.assignments.filter(|e: (NodeId, NodeId)| e.1 != id),
            ..m
        },
    }
}

/// The empty graph model.
pub open spec fn empty_model() -> GraphModel {
    GraphModel {
        uas: Map::empty(),
        oas: Map::empty(),
        pcs: Map::empty(),
        assocs: Seq::empty(),
        assignments: Set::empty(),
    }
}

/// The graph an event is applied to: the state's graph, or the empty graph
/// for an uninitialised aggregate.
pub open spec fn base_graph(state: Option<PolicyState>) -> GraphModel {
    match state {
        Some(s) => s.spec_graph()@,
        Option::None => empty_model(),
    }
}

/// The well-formedness of a graph model: nodes stored under their own ids
/// and at most one association per `(ua_id, target)` pair.
pub open spec fn model_wf(m: GraphModel) -> bool {
    keys_match(m) && assoc_pairs_unique(m.assocs)
}

/// Applies an event (its id and its data) to the aggregate state.
///
/// An uninitialised state starts from an empty graph at version 0. An
/// event without data (a purged event) fails with `MissingEventData`
/// carrying the event id; otherwise the graph mutation the event records is
/// performed and the version is left unchanged.
pub fn apply(state: Option<PolicyState>, event_id: NodeId, data: Option<PolicyEvent>) -> (r: Result<
    PolicyState,
    PolicyApplyError,
>)
    ensures
        match data {
            Option::None => r == Err::<PolicyState, PolicyApplyError>(
                PolicyApplyError::MissingEventData(event_id),
            ),
            Some(e) => r matches Ok(s) && s.spec_graph()@ == event_effect(base_graph(state), e)
                && s.spec_version() == (match state {
                Some(st) => st.spec_version(),
                Option::None => 0,
            }) && s.spec_graph().wf(),
        },
{
    let mut st = match state {
        Some(s) => s,
        Option::None => PolicyState { graph: PolicyGraph::new(), version: 0 },
    };
    let e = match data {
        Some(e) => e,
        Option::None => {
            return Err(PolicyApplyError::MissingEventData(event_id));
        },
    };
    match e {
        PolicyEvent::UserAttributeCreated { id, name, matcher } => {
            st.graph.add_ua(UserAttribute { id, name, matcher });
        },
        PolicyEvent::ObjectAttributeCreated { id, name, resource_type, matcher } => {
            st.graph.add_oa(ObjectAttribute { id, name, resource_type, matcher });
        },
        PolicyEvent::PolicyClassCreated { id, name } => {
            st.graph.add_pc(PolicyClass { id, name });
        },
        PolicyEvent::AssociationCreated { ua_id, target, operations } => {
            st.graph.add_association(Association { ua_id, target, operations });
        },
        PolicyEvent::AssociationRemoved { ua_id, target } => {
            st.graph.remove_association(ua_id, &target);
        },
        PolicyEvent::OaAssignedToPc { oa_id, pc_id } => {
            st.graph.assign_oa_to_pc(oa_id, pc_id);
        },
        PolicyEvent::OaUnassignedFromPc { oa_id, pc_id } => {
            st.graph.unassign_oa_from_pc(oa_id, pc_id);
        },
        PolicyEvent::UserAttributeDeleted { id } => {
            st.graph.remove_ua(id);
        },
        PolicyEvent::ObjectAttributeDeleted { id } => {
            st.graph.remove_oa(id);
        },
        PolicyEvent::PolicyClassDeleted { id } => {
            st.graph.remove_pc(id);
        },
    }
    proof {
        use_type_invariant(&st.graph);
    }
    Ok(st)
}


/// The graph obtained by replaying `events`, in order, on the graph `m`.
pub open spec fn replay(m: GraphModel, events: Seq<PolicyEvent>) -> GraphModel
    decreases events.len(),
{
    if events.len() == 0 {
        m
    } else {
        event_effect(replay(m, events.drop_last()), events.last())
    }
}

/// Every event keeps a well-formed graph well-formed.
pub proof fn lemma_event_preserves_wf(m: GraphModel, e: PolicyEvent)
    requires
        model_wf(m),
    ensures
        model_wf(event_effect(m, e)),
{
    match e {
        PolicyEvent::AssociationCreated { ua_id, target, operations } => {
            lemma_upsert_single_grant(m.assocs, Association { ua_id, target, operations });
        },
        PolicyEvent::AssociationRemoved { ua_id, target } => {
            lemma_filter_keeps_unique(
                m.assocs,
                |a: Association| !same_grant(a, ua_id, target),
            );
        },
        PolicyEvent::UserAttributeDeleted { id } => {
            lemma_filter_keeps_unique(m.assocs, |a: Association| a.ua_id != id);
        },
        PolicyEvent::ObjectAttributeDeleted { id } => {
            lemma_filter_keeps_unique(
                m.assocs,
                |a: Association| a.target != AssociationTarget::ObjectAttribute(id),
            );
        },
        PolicyEvent::PolicyClassDeleted { id } => {
            lemma_filter_keeps_unique(
                m.assocs,
                |a: Association| a.target != AssociationTarget::PolicyClass(id),
            );
        },
        _ => {},
    }
}

/// Replaying any event log on a well-formed graph (the empty graph among
/// them) yields a well-formed graph: every node is stored under its own id
/// and at most one association exists per `(ua_id, target)` pair.
pub proof fn lemma_replay_preserves_wf(m: GraphModel, events: Seq<PolicyEvent>)
    requires
        model_wf(m),
    ensures
        model_wf(replay(m, events)),
    decreases events.len(),
{
    if events.len() > 0 {
        lemma_replay_preserves_wf(m, events.drop_last());
        lemma_event_preserves_wf(replay(m, events.drop_last()), events.last());
    }
}

/// Replay coherence of grants: replaying `AssociationCreated` twice for the
/// same `(ua_id, target)` pair leaves exactly one association for the pair,
/// carrying the second operation set; a following `AssociationRemoved`
/// leaves none, and associations for other pairs are the ones the graph
/// had before.
pub proof fn lemma_grant_replay_coherent(
    m: GraphModel,
    ua_id: NodeId,
    target: AssociationTarget,
    first: Vec<String>,
    second: Vec<String>,
)
    ensures
        ({
            let m1 = event_effect(
                m,
                PolicyEvent::AssociationCreated { ua_id, target, operations: first },
            );
            let m2 = event_effect(
                m1,
                PolicyEvent::AssociationCreated { ua_id, target, operations: second },
            );
            let m3 = event_effect(m2, PolicyEvent::AssociationRemoved { ua_id, target });
            let others = m.assocs.filter(|a: Association| !same_grant(a, ua_id, target));
            &&& m2.assocs == others.push(Association { ua_id, target, operations: second })
            &&& m3.assocs == others
            &&& forall|i: int| 0 <= i < m3.assocs.len() ==> !same_grant(#[trigger] m3.assocs[i], ua_id, target)
        }),
{
    let keep = |a: Association| !same_grant(a, ua_id, target);
    let others = m.assocs.filter(keep);
    let a1 = Association { ua_id, target, operations: first };
    let a2 = Association { ua_id, target, operations: second };
    lemma_filter_push(others, a1, keep);
    lemma_filter_idempotent(m.assocs, keep);
    lemma_filter_push(others, a2, keep);
    lemma_remove_grant(others.push(a2), ua_id, target);
}

/// Deleting a user attribute removes it and every association from it;
/// every association from another user attribute is kept.
pub proof fn lemma_ua_deletion_cascades(m: GraphModel, id: NodeId)
    ensures
        ({
            let r = event_effect(m, PolicyEvent::UserAttributeDeleted { id });
            &&& !r.uas.contains_key(id)
            &&& forall|i: int| 0 <= i < r.assocs.len() ==> (#[trigger] r.assocs[i]).ua_id != id
            &&& forall|a: Association| a.ua_id != id ==> (r.assocs.contains(a) <==> m.assocs.contains(a))
        }),
{
    lemma_filter_exact(m.assocs, |a: Association| a.ua_id != id);
}

/// Deleting an object attribute removes it, every association aimed at it
/// and every assignment edge leaving it; everything else is kept.
pub proof fn lemma_oa_deletion_cascades(m: GraphModel, id: NodeId)
    ensures
        ({
            let r = event_effect(m, PolicyEvent::ObjectAttributeDeleted { id });
            &&& !r.oas.contains_key(id)
            &&& forall|i: int|
                0 <= i < r.assocs.len() ==> (#[trigger] r.assocs[i]).target
                    != AssociationTarget::ObjectAttribute(id)
            &&& forall|a: Association|
                a.target != AssociationTarget::ObjectAttribute(id) ==> (r.assocs.contains(a)
                    <==> m.assocs.contains(a))
            &&& forall|e: (NodeId, NodeId)|
                #[trigger] r.assignments.contains(e) <==> (m.assignments.contains(e) && e.0 != id)
        }),
{
    lemma_filter_exact(m.assocs, |a: Association| a.target != AssociationTarget::ObjectAttribute(id));
}

/// Deleting a policy class removes it, every association aimed at it and
/// every assignment edge reaching it; everything else is kept.
pub proof fn lemma_pc_deletion_cascades(m: GraphModel, id: NodeId)
    ensures
        ({
            let r = event_effect(m, PolicyEvent::PolicyClassDeleted { id });
            &&& !r.pcs.contains_key(id)
            &&& forall|i: int|
                0 <= i < r.assocs.len() ==> (#[trigger] r.assocs[i]).target
                    != AssociationTarget::PolicyClass(id)
            &&& forall|a: Association|
                a.target != AssociationTarget::PolicyClass(id) ==> (r.assocs.contains(a)
                    <==> m.assocs.contains(a))
            &&& forall|e: (NodeId, NodeId)|
                #[trigger] r.assignments.contains(e) <==> (m.assignments.contains(e) && e.1 != id)
        }),
{
    lemma_filter_exact(m.assocs, |a: Association| a.target != AssociationTarget::PolicyClass(id));
}

/// A filtered sequence holds exactly the elements of the original that pass.
proof fn lemma_filter_exact<A>(s: Seq<A>, keep: spec_fn(A) -> bool)
    ensures
        forall|i: int| 0 <= i < s.filter(keep).len() ==> keep(#[trigger] s.filter(keep)[i]),
        forall|x: A| keep(x) ==> (s.filter(keep).contains(x) <==> s.contains(x)),
{
    assert forall|i: int| 0 <= i < s.filter(keep).len() implies keep(#[trigger] s.filter(keep)[i]) by {
        s.lemma_filter_pred(keep, i);
    }
    assert forall|x: A| keep(x) implies (s.filter(keep).contains(x) <==> s.contains(x)) by {
        if s.filter(keep).contains(x) {
            crate::graph::lemma_filter_subset(s, keep, x);
        }
        if s.contains(x) {
            let i = choose|i: int| 0 <= i < s.len() && s[i] == x;
            s.lemma_filter_contains(keep, i);
        }
    }
}

/// OA→PC assignment is a set operation: assigning twice is assigning once,
/// and unassigning after assigning leaves the edge absent with all other
/// edges as before.
pub proof fn lemma_assignment_set_semantics(m: GraphModel, oa_id: NodeId, pc_id: NodeId)
    ensures
        ({
            let assign = PolicyEvent::OaAssignedToPc { oa_id, pc_id };
            let unassign = PolicyEvent::OaUnassignedFromPc { oa_id, pc_id };
            &&& event_effect(event_effect(m, assign), assign) == event_effect(m, assign)
            &&& event_effect(event_effect(m, assign), unassign) == event_effect(m, unassign)
            &&& !event_effect(m, unassign).assignments.contains((oa_id, pc_id))
        }),
{
    let assign = PolicyEvent::OaAssignedToPc { oa_id, pc_id };
    let unassign = PolicyEvent::OaUnassignedFromPc { oa_id, pc_id };
    assert(event_effect(event_effect(m, assign), assign).assignments =~= event_effect(
        m,
        assign,
    ).assignments);
    assert(event_effect(event_effect(m, assign), unassign).assignments =~= event_effect(
        m,
        unassign,
    ).assignments);
}


/// Command validation: creation commands are always accepted; a grant
/// command (create or remove an association) is accepted exactly when the
/// graph holds its user attribute and its target node, an assignment command
/// exactly when the graph holds its object attribute and policy class, and
/// a deletion exactly when the graph holds the node. When one is rejected,
/// the error names the first missing node: the user attribute before the
/// target, the object attribute before the policy class.
pub proof fn lemma_command_validation(g: Option<GraphModel>, c: PolicyCommand)
    ensures
        match c {
            PolicyCommand::CreateUserAttribute { .. } => command_error(g, c) is None,
            PolicyCommand::CreateObjectAttribute { .. } => command_error(g, c) is None,
            PolicyCommand::CreatePolicyClass { .. } => command_error(g, c) is None,
            PolicyCommand::CreateAssociation { ua_id, target, .. } => match g {
                Option::None => command_error(g, c) == Some(
                    PolicyCommandError::UserAttributeNotFound(ua_id),
                ),
                Some(m) => if !m.uas.contains_key(ua_id) {
                    command_error(g, c) == Some(PolicyCommandError::UserAttributeNotFound(ua_id))
                } else {
                    match target {
                        AssociationTarget::ObjectAttribute(o) => if m.oas.contains_key(o) {
                            command_error(g, c) is None
                        } else {
                            command_error(g, c) == Some(
                                PolicyCommandError::ObjectAttributeNotFound(o),
                            )
                        },
                        AssociationTarget::PolicyClass(p) => if m.pcs.contains_key(p) {
                            command_error(g, c) is None
                        } else {
                            command_error(g, c) == Some(PolicyCommandError::PolicyClassNotFound(p))
                        },
                    }
                },
            },
            PolicyCommand::RemoveAssociation { ua_id, target } => match g {
                Option::None => command_error(g, c) == Some(
                    PolicyCommandError::UserAttributeNotFound(ua_id),
                ),
                Some(m) => if !m.uas.contains_key(ua_id) {
                    command_error(g, c) == Some(PolicyCommandError::UserAttributeNotFound(ua_id))
                } else {
                    match target {
                        AssociationTarget::ObjectAttribute(o) => if m.oas.contains_key(o) {
                            command_error(g, c) is None
                        } else {
                            command_error(g, c) == Some(
                                PolicyCommandError::ObjectAttributeNotFound(o),
                            )
                        },
                        AssociationTarget::PolicyClass(p) => if m.pcs.contains_key(p) {
                            command_error(g, c) is None
                        } else {
                            command_error(g, c) == Some(PolicyCommandError::PolicyClassNotFound(p))
                        },
                    }
                },
            },
            PolicyCommand::AssignOaToPc { oa_id, pc_id } => match g {
                Option::None => command_error(g, c) == Some(
                    PolicyCommandError::ObjectAttributeNotFound(oa_id),
                ),
                Some(m) => if !m.oas.contains_key(oa_id) {
                    command_error(g, c) == Some(PolicyCommandError::ObjectAttributeNotFound(oa_id))
                } else if !m.pcs.contains_key(pc_id) {
                    command_error(g, c) == Some(PolicyCommandError::PolicyClassNotFound(pc_id))
                } else {
                    command_error(g, c) is None
                },
            },
            PolicyCommand::UnassignOaFromPc { oa_id, pc_id } => match g {
                Option::None => command_error(g, c) == Some(
                    PolicyCommandError::ObjectAttributeNotFound(oa_id),
                ),
                Some(m) => if !m.oas.contains_key(oa_id) {
                    command_error(g, c) == Some(PolicyCommandError::ObjectAttributeNotFound(oa_id))
                } else if !m.pcs.contains_key(pc_id) {
                    command_error(g, c) == Some(PolicyCommandError::PolicyClassNotFound(pc_id))
                } else {
                    command_error(g, c) is None
                },
            },
            PolicyCommand::DeleteUserAttribute { id } => (command_error(g, c) is None <==> (g is Some
                && g->0.uas.contains_key(id))) && (!(command_error(g, c) is None) ==> command_error(
                g,
                c,
            ) == Some(PolicyCommandError::UserAttributeNotFound(id))),
            PolicyCommand::DeleteObjectAttribute { id } => (command_error(g, c) is None <==> (g is Some
                && g->0.oas.contains_key(id))) && (!(command_error(g, c) is None) ==> command_error(
                g,
                c,
            ) == Some(PolicyCommandError::ObjectAttributeNotFound(id))),
            PolicyCommand::DeletePolicyClass { id } => (command_error(g, c) is None <==> (g is Some
                && g->0.pcs.contains_key(id))) && (!(command_error(g, c) is None) ==> command_error(
                g,
                c,
            ) == Some(PolicyCommandError::PolicyClassNotFound(id))),
        },
{
}

/// What an accepted command does to the graph once its event is applied:
/// a creation installs exactly the node the command describes (its id,
/// name, resource type and matcher) and touches nothing else; a grant sets
/// the operations of exactly its `(user attribute, target)` pair; a
/// revocation removes exactly that pair; an assignment adds exactly its
/// edge and an unassignment removes exactly its edge, whatever other edges
/// the object attribute has; the event names the same data as the command.
pub proof fn lemma_commands_take_effect(m: GraphModel, c: PolicyCommand)
    ensures
        ({
            let e = event_for(c);
            let r = event_effect(m, e);
            match c {
                PolicyCommand::CreateUserAttribute { id, name, matcher } => {
                    &&& e is UserAttributeCreated
                    &&& e->UserAttributeCreated_id == id
                    &&& e->UserAttributeCreated_name == name
                    &&& e->UserAttributeCreated_matcher == matcher
                    &&& r.uas.contains_key(id)
                    &&& r.uas[id] == (UserAttribute { id, name, matcher })
                    &&& r.uas.remove(id) == m.uas.remove(id)
                    &&& r.oas == m.oas && r.pcs == m.pcs
                    &&& r.assocs == m.assocs && r.assignments == m.assignments
                },
                PolicyCommand::CreateObjectAttribute { id, name, resource_type, matcher } => {
                    &&& e is ObjectAttributeCreated
                    &&& e->ObjectAttributeCreated_id == id
                    &&& e->ObjectAttributeCreated_name == name
                    &&& e->ObjectAttributeCreated_resource_type == resource_type
                    &&& e->ObjectAttributeCreated_matcher == matcher
                    &&& r.oas.contains_key(id)
                    &&& r.oas[id] == (ObjectAttribute { id, name, resource_type, matcher })
                    &&& r.oas.remove(id) == m.oas.remove(id)
                    &&& r.uas == m.uas && r.pcs == m.pcs
                    &&& r.assocs == m.assocs && r.assignments == m.assignments
                },
                PolicyCommand::CreatePolicyClass { id, name } => {
                    &&& e is PolicyClassCreated
                    &&& e->PolicyClassCreated_id == id
                    &&& e->PolicyClassCreated_name == name
                    &&& r.pcs.contains_key(id)
                    &&& r.pcs[id] == (PolicyClass { id, name })
                    &&& r.pcs.remove(id) == m.pcs.remove(id)
                    &&& r.uas == m.uas && r.oas == m.oas
                    &&& r.assocs == m.assocs && r.assignments == m.assignments
                },
                PolicyCommand::CreateAssociation { ua_id, target, operations } => {
                    &&& r.assocs.contains(Association { ua_id, target, operations })
                    &&& forall|i: int|
                        0 <= i < r.assocs.len() && #[trigger] same_grant(r.assocs[i], ua_id, target)
                            ==> r.assocs[i] == (Association { ua_id, target, operations })
                    &&& forall|a: Association|
                        !same_grant(a, ua_id, target) ==> (r.assocs.contains(a)
                            <==> m.assocs.contains(a))
                    &&& r.uas == m.uas && r.oas == m.oas && r.pcs == m.pcs
                    &&& r.assignments == m.assignments
                },
                PolicyCommand::RemoveAssociation { ua_id, target } => {
                    &&& forall|i: int|
                        0 <= i < r.assocs.len() ==> !same_grant(#[trigger] r.assocs[i], ua_id, target)
                    &&& forall|a: Association|
                        !same_grant(a, ua_id, target) ==> (r.assocs.contains(a)
                            <==> m.assocs.contains(a))
                    &&& r.uas == m.uas && r.oas == m.oas && r.pcs == m.pcs
                    &&& r.assignments == m.assignments
                },
                PolicyCommand::AssignOaToPc { oa_id, pc_id } => {
                    &&& r.assignments.contains((oa_id, pc_id))
                    &&& forall|x: (NodeId, NodeId)|
                        x != (oa_id, pc_id) ==> (#[trigger] r.assignments.contains(x)
                            <==> m.assignments.contains(x))
                    &&& r.uas == m.uas && r.oas == m.oas && r.pcs == m.pcs
                    &&& r.assocs == m.assocs
                },
                PolicyCommand::UnassignOaFromPc { oa_id, pc_id } => {
                    &&& !r.assignments.contains((oa_id, pc_id))
                    &&& forall|x: (NodeId, NodeId)|
                        x != (oa_id, pc_id) ==> (#[trigger] r.assignments.contains(x)
                            <==> m.assignments.contains(x))
                    &&& r.uas == m.uas && r.oas == m.oas && r.pcs == m.pcs
                    &&& r.assocs == m.assocs
                },
                PolicyCommand::DeleteUserAttribute { id } => {
                    &&& !r.uas.contains_key(id)
                    &&& r.uas.remove(id) == m.uas.remove(id)
                    &&& r.oas == m.oas && r.pcs == m.pcs && r.assignments == m.assignments
                },
                PolicyCommand::DeleteObjectAttribute { id } => {
                    &&& !r.oas.contains_key(id)
                    &&& r.oas.remove(id) == m.oas.remove(id)
                    &&& r.uas == m.uas && r.pcs == m.pcs
                },
                PolicyCommand::DeletePolicyClass { id } => {
                    &&& !r.pcs.contains_key(id)
                    &&& r.pcs.remove(id) == m.pcs.remove(id)
                    &&& r.uas == m.uas && r.oas == m.oas
                },
            }
        }),
{
    match c {
        PolicyCommand::CreateUserAttribute { id, .. } => {
            assert(event_effect(m, event_for(c)).uas.remove(id) =~= m.uas.remove(id));
        },
        PolicyCommand::CreateObjectAttribute { id, .. } => {
            assert(event_effect(m, event_for(c)).oas.remove(id) =~= m.oas.remove(id));
        },
        PolicyCommand::CreatePolicyClass { id, .. } => {
            assert(event_effect(m, event_for(c)).pcs.remove(id) =~= m.pcs.remove(id));
        },
        PolicyCommand::CreateAssociation { ua_id, target, operations } => {
            lemma_upsert_single_grant(m.assocs, Association { ua_id, target, operations });
        },
        PolicyCommand::RemoveAssociation { ua_id, target } => {
            lemma_remove_grant(m.assocs, ua_id, target);
        },
        PolicyCommand::DeleteUserAttribute { id } => {
            assert(event_effect(m, event_for(c)).uas.remove(id) =~= m.uas.remove(id));
        },
        PolicyCommand::DeleteObjectAttribute { id } => {
            assert(event_effect(m, event_for(c)).oas.remove(id) =~= m.oas.remove(id));
        },
        PolicyCommand::DeletePolicyClass { id } => {
            assert(event_effect(m, event_for(c)).pcs.remove(id) =~= m.pcs.remove(id));
        },
        _ => {},
    }
}

} // verus!
