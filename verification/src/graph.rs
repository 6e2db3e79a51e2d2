//! The policy graph: node types, associations, the read-only
//! [`PolicyView`] interface and the in-memory [`PolicyGraph`].
use std::collections::HashMap;
use vstd::std_specs::iter::IteratorSpec;
use vstd::prelude::*;

use crate::attrs::{co_member, shares_value, str_seq_has, AttrMap};

verus! {

broadcast use {vstd::std_specs::hash::group_hash_axioms, vstd::seq_lib::group_seq_properties};

/// Identifier of a policy graph node (the 128 bits of a UUID).
pub type NodeId = u128;

/// Determines how an attribute node matches a set of subject or resource
/// attributes.
#[derive(Debug, Clone, PartialEq, Eq)]
pub enum AttributeMatcher {
    /// Wildcard matcher: matches any attribute map, including the **empty
    /// map**.
    ///
    /// An `All`-matcher user attribute therefore matches a subject that
    /// carries no attributes, which cannot be told apart from an
    /// unauthenticated request. Applications must authenticate callers before
    /// evaluating requests for non-public resources.
    All,
    /// Matches when the attribute map holds `key` and its value set shares
    /// at least one value with `values`.
    Matching {
        /// The attribute key to look up in the input map.
        key: String,
        /// The acceptable values.
        values: Vec<String>,
    },
    /// Co-membership: matches a resource when the resource's value set for
    /// `resource_key` shares a value with the requesting subject's value set
    /// for `subject_key` (same-org or same-owner constraints without
    /// enumerating values in the graph).
    ///
    /// It relates a resource to a subject, so it only matches object
    /// attributes; as a user attribute matcher, where there is no resource,
    /// it matches no subject.
    Relative {
        /// The resource attribute key.
        resource_key: String,
        /// The subject attribute key.
        subject_key: String,
    },
}

impl AttributeMatcher {
    /// Whether this matcher admits the attribute map `attrs` on its own (as
    /// a user attribute matcher admits a subject).
    pub open spec fn spec_matches(&self, attrs: Map<Seq<char>, Set<Seq<char>>>) -> bool {
        match self {
            AttributeMatcher::All => true,
            AttributeMatcher::Matching { key, values } => shares_value(attrs, key@, values@),
            AttributeMatcher::Relative { .. } => false,
        }
    }

    /// Whether this matcher, as an object attribute matcher, admits a
    /// resource with attributes `resource` requested by a subject with
    /// attributes `subject`.
    pub open spec fn spec_matches_resource(
        &self,
        resource: Map<Seq<char>, Set<Seq<char>>>,
        subject: Map<Seq<char>, Set<Seq<char>>>,
    ) -> bool {
        match self {
            AttributeMatcher::All => true,
            AttributeMatcher::Matching { key, values } => shares_value(resource, key@, values@),
            AttributeMatcher::Relative { resource_key, subject_key } => co_member(
                resource,
                resource_key@,
                subject,
                subject_key@,
            ),
        }
    }

    /// Tests whether the given attribute map satisfies this matcher.
    ///
    /// `All` always matches. `Matching` matches when `attrs` holds `key` and
    /// the value set of that key has a non-empty intersection with the
    /// matcher's `values`; a key mapped to an empty set behaves exactly like
    /// an absent key. `Relative` needs a subject and a resource and matches
    /// no single map.
    pub fn matches(&self, attrs: &AttrMap) -> (r: bool)
        ensures
            r == self.spec_matches(attrs@),
    {
        match self {
            AttributeMatcher::All => true,
            AttributeMatcher::Matching { key, values } => attrs.shares_value_with(key, values),
            AttributeMatcher::Relative { .. } => false,
        }
    }

    /// Tests whether a resource with attributes `resource`, requested by a
    /// subject with attributes `subject`, satisfies this object attribute
    /// matcher: as `matches` on the resource for `All` and `Matching`, and
    /// for `Relative` when the resource's values for `resource_key` and the
    /// subject's values for `subject_key` intersect.
    pub fn matches_resource(&self, resource: &AttrMap, subject: &AttrMap) -> (r: bool)
        ensures
            r == self.spec_matches_resource(resource@, subject@),
    {
        match self {
            AttributeMatcher::All => true,
            AttributeMatcher::Matching { key, values } => resource.shares_value_with(key, values),
            AttributeMatcher::Relative { resource_key, subject_key } => {
                let subject_values = subject.values_of(subject_key);
                let r = resource.shares_value_with(resource_key, &subject_values);
                proof {
                    if r {
                        let v = choose|v: Seq<char>| #[trigger]
                            resource@[resource_key@].contains(v) && str_seq_has(subject_values@, v);
                        assert(str_seq_has(subject_values@, v));
                    }
                    if co_member(resource@, resource_key@, subject@, subject_key@) {
                        let v = choose|v: Seq<char>| #[trigger]
                            resource@[resource_key@].contains(v) && subject@[subject_key@].contains(v);
                        assert(str_seq_has(subject_values@, v));
                    }
                }
                r
            },
        }
    }
}

/// A user attribute node: a role, group or subject category.
#[derive(Debug, Clone)]
pub struct UserAttribute {
    /// Unique identifier of this user attribute.
    pub id: NodeId,
    /// Human-readable name.
    pub name: String,
    /// Determines which subjects fall under this user attribute.
    pub matcher: AttributeMatcher,
}

/// An object attribute node: a resource scope.
#[derive(Debug, Clone)]
pub struct ObjectAttribute {
    /// Unique identifier of this object attribute.
    pub id: NodeId,
    /// Human-readable name.
    pub name: String,
    /// The kind of resource this object attribute applies to.
    pub resource_type: String,
    /// Determines which resources of `resource_type` fall under it.
    pub matcher: AttributeMatcher,
}

/// A policy class node: a top-level policy scope grouping object attributes.
#[derive(Debug, Clone)]
pub struct PolicyClass {
    /// Unique identifier of this policy class.
    pub id: NodeId,
    /// Human-readable name.
    pub name: String,
}

/// The target of an association: an object attribute or a policy class.
#[derive(Debug, Clone, Copy, PartialEq, Eq, Structural, Hash)]
pub enum AssociationTarget {
    /// The association targets an object attribute.
    ObjectAttribute(NodeId),
    /// The association targets a policy class, standing for every object
    /// attribute assigned to it.
    PolicyClass(NodeId),
}

/// A permission grant from a user attribute to a target, carrying the set of
/// permitted operations.
#[derive(Debug, Clone)]
pub struct Association {
    /// The user attribute this association originates from.
    pub ua_id: NodeId,
    /// The target of this permission grant.
    pub target: AssociationTarget,
    /// The operations permitted by this association, read as a set.
    pub operations: Vec<String>,
}

/// Whether the association `a` grants the operation named `op`.
pub open spec fn grants_op(a: Association, op: Seq<char>) -> bool {
    str_seq_has(a.operations@, op)
}

/// The mathematical content of a policy graph.
pub struct GraphModel {
    /// User attributes by id.
    pub uas: Map<NodeId, UserAttribute>,
    /// Object attributes by id.
    pub oas: Map<NodeId, ObjectAttribute>,
    /// Policy classes by id.
    pub pcs: Map<NodeId, PolicyClass>,
    /// Associations, in insertion order.
    pub assocs: Seq<Association>,
    /// OA→PC assignment edges `(oa_id, pc_id)`.
    pub assignments: Set<(NodeId, NodeId)>,
}

/// `true` when no two associations share the same `(ua_id, target)` pair.
pub open spec fn assoc_pairs_unique(s: Seq<Association>) -> bool {
    forall|i: int, j: int|
        0 <= i < j < s.len() ==> !((#[trigger] s[i]).ua_id == (#[trigger] s[j]).ua_id
            && s[i].target == s[j].target)
}

/// `true` when every node is stored under its own id.
pub open spec fn keys_match(m: GraphModel) -> bool {
    &&& forall|k: NodeId| #[trigger] m.uas.contains_key(k) ==> m.uas[k].id == k
    &&& forall|k: NodeId| #[trigger] m.oas.contains_key(k) ==> m.oas[k].id == k
    &&& forall|k: NodeId| #[trigger] m.pcs.contains_key(k) ==> m.pcs[k].id == k
}

/// Whether association `a` has identity `(ua_id, target)`.
pub open spec fn same_grant(a: Association, ua_id: NodeId, target: AssociationTarget) -> bool {
    a.ua_id == ua_id && a.target == target
}

/// Read-only view into a policy graph for authorization queries.
///
/// `evaluate` and `scope` are written over this interface. Its spec
/// functions give the mathematical content that the query methods answer
/// from.
pub trait PolicyView {
    /// The user attributes of the graph.
    spec fn ua_values(&self) -> Set<UserAttribute>;

    /// The associations of the graph.
    spec fn assoc_values(&self) -> Set<Association>;

    /// The object attributes of the graph, by id.
    spec fn oa_entries(&self) -> Map<NodeId, ObjectAttribute>;

    /// The OA→PC assignment edges `(oa_id, pc_id)`.
    spec fn oa_pc_edges(&self) -> Set<(NodeId, NodeId)>;

    /// Returns the user attributes whose matcher matches `subject_attrs`.
    fn matching_uas(&self, subject_attrs: &AttrMap) -> (r: Vec<&UserAttribute>)
        ensures
            forall|i: int|
                0 <= i < r@.len() ==> self.ua_values().contains(*r@[i])
                    && r@[i].matcher.spec_matches(subject_attrs@),
            forall|ua: UserAttribute|
                #[trigger] self.ua_values().contains(ua) && ua.matcher.spec_matches(
                    subject_attrs@,
                ) ==> exists|i: int| 0 <= i < r@.len() && *r@[i] == ua,
    ;

    /// Returns the associations originating from the user attribute `ua_id`.
    fn associations_for_ua(&self, ua_id: NodeId) -> (r: Vec<&Association>)
        ensures
            forall|i: int|
                0 <= i < r@.len() ==> self.assoc_values().contains(*r@[i]) && r@[i].ua_id
                    == ua_id,
            forall|a: Association|
                #[trigger] self.assoc_values().contains(a) && a.ua_id == ua_id ==> exists|i: int|
                    0 <= i < r@.len() && *r@[i] == a,
    ;

    /// Looks up an object attribute by id.
    fn get_oa(&self, oa_id: NodeId) -> (r: Option<&ObjectAttribute>)
        ensures
            match r {
                Some(oa) => self.oa_entries().contains_key(oa_id) && *oa == self.oa_entries()[oa_id],
                None => !self.oa_entries().contains_key(oa_id),
            },
    ;

    /// Returns the object attributes assigned to the policy class `pc_id`
    /// whose resource type is `resource_type`.
    fn oas_for_pc(&self, pc_id: NodeId, resource_type: &str) -> (r: Vec<&ObjectAttribute>)
        ensures
            forall|i: int|
                0 <= i < r@.len() ==> pc_member(self.oa_pc_edges(), self.oa_entries(), pc_id, resource_type@, *r@[i]),
            forall|oa: ObjectAttribute|
                #[trigger] pc_member(self.oa_pc_edges(), self.oa_entries(), pc_id, resource_type@, oa) ==> exists|i: int|
                    0 <= i < r@.len() && *r@[i] == oa,
    ;
}

/// Whether `oa` is an object attribute of type `rt` assigned to `pc_id`,
/// given the assignment edges and the object attributes by id.
pub open spec fn pc_member(
    edges: Set<(NodeId, NodeId)>,
    oas: Map<NodeId, ObjectAttribute>,
    pc_id: NodeId,
    rt: Seq<char>,
    oa: ObjectAttribute,
) -> bool {
    exists|oa_id: NodeId|
        #![trigger edges.contains((oa_id, pc_id))]
        edges.contains((oa_id, pc_id)) && oas.contains_key(oa_id) && oas[oa_id] == oa
            && oa.resource_type@ == rt
}

/// What an association-pruning pass removes.
enum AssocSelector {
    /// The association with exactly this `(ua_id, target)` identity.
    Grant(NodeId, AssociationTarget),
    /// Every association originating from this user attribute.
    FromUa(NodeId),
    /// Every association aimed at this target.
    ToTarget(AssociationTarget),
}

impl AssocSelector {
    spec fn selects(self, a: Association) -> bool {
        match self {
            AssocSelector::Grant(u, t) => same_grant(a, u, t),
            AssocSelector::FromUa(u) => a.ua_id == u,
            AssocSelector::ToTarget(t) => a.target == t,
        }
    }

    fn test(&self, a: &Association) -> (r: bool)
        ensures
            r == self.selects(*a),
    {
        match self {
            AssocSelector::Grant(u, t) => a.ua_id == *u && a.target == *t,
            AssocSelector::FromUa(u) => a.ua_id == *u,
            AssocSelector::ToTarget(t) => a.target == *t,
        }
    }
}

/// What an assignment-pruning pass removes.
enum EdgeSelector {
    /// Exactly this `(oa_id, pc_id)` edge.
    Edge(NodeId, NodeId),
    /// Every edge leaving this object attribute.
    FromOa(NodeId),
    /// Every edge reaching this policy class.
    ToPc(NodeId),
}

impl EdgeSelector {
    spec fn selects(self, e: (NodeId, NodeId)) -> bool {
        match self {
            EdgeSelector::Edge(o, p) => e == (o, p),
            EdgeSelector::FromOa(o) => e.0 == o,
            EdgeSelector::ToPc(p) => e.1 == p,
        }
    }

    fn test(&self, e: &(NodeId, NodeId)) -> (r: bool)
        ensures
            r == self.selects(*e),
    {
        match self {
            EdgeSelector::Edge(o, p) => e.0 == *o && e.1 == *p,
            EdgeSelector::FromOa(o) => e.0 == *o,
            EdgeSelector::ToPc(p) => e.1 == *p,
        }
    }
}

/// Filtering a one-longer prefix adds the new element exactly when it passes.
proof fn lemma_filter_take_step<A>(s: Seq<A>, j: int, keep: spec_fn(A) -> bool)
    requires
        0 <= j < s.len(),
    ensures
        s.take(j + 1).filter(keep) == (if keep(s[j]) {
            s.take(j).filter(keep).push(s[j])
        } else {
            s.take(j).filter(keep)
        }),
{
    reveal(Seq::filter);
    assert(s.take(j + 1).drop_last() =~= s.take(j));
    assert(s.take(j + 1).last() == s[j]);
}

/// Removes from `v` every association that `sel` selects, keeping the order
/// of the others.
fn prune_assocs(v: &mut Vec<Association>, sel: &AssocSelector)
    ensures
        final(v)@ == old(v)@.filter(|a: Association| !sel.selects(a)),
{
    let ghost orig = v@;
    let ghost keep = |a: Association| !sel.selects(a);
    let mut i: usize = 0;
    let ghost mut j: int = 0;
    while i < v.len()
        invariant
            0 <= j <= orig.len(),
            keep == (|a: Association| !sel.selects(a)),
            v@ == orig.take(j).filter(keep) + orig.skip(j),
            i == orig.take(j).filter(keep).len(),
        decreases v@.len() - i,
    {
        proof {
            lemma_filter_take_step(orig, j, keep);
            assert(v@[i as int] == orig[j]);
        }
        if sel.test(&v[i]) {
            v.remove(i);
            proof {
                assert(v@ =~= orig.take(j + 1).filter(keep) + orig.skip(j + 1));
            }
        } else {
            i = i + 1;
            proof {
                assert(v@ =~= orig.take(j + 1).filter(keep) + orig.skip(j + 1));
            }
        }
        proof {
            j = j + 1;
        }
    }
    proof {
        assert(orig.take(j).filter(keep).len() <= orig.take(j).len()) by {
            orig.take(j).lemma_filter_len(keep);
        }
        assert(j == orig.len());
        assert(orig.take(j) =~= orig);
        assert(v@ =~= orig.filter(keep));
    }
}

/// Removes from `v` every edge that `sel` selects, keeping the order of the
/// others.
fn prune_edges(v: &mut Vec<(NodeId, NodeId)>, sel: &EdgeSelector)
    ensures
        final(v)@ == old(v)@.filter(|e: (NodeId, NodeId)| !sel.selects(e)),
{
    let ghost orig = v@;
    let ghost keep = |e: (NodeId, NodeId)| !sel.selects(e);
    let mut i: usize = 0;
    let ghost mut j: int = 0;
    while i < v.len()
        invariant
            0 <= j <= orig.len(),
            keep == (|e: (NodeId, NodeId)| !sel.selects(e)),
            v@ == orig.take(j).filter(keep) + orig.skip(j),
            i == orig.take(j).filter(keep).len(),
        decreases v@.len() - i,
    {
        proof {
            lemma_filter_take_step(orig, j, keep);
            assert(v@[i as int] == orig[j]);
        }
        if sel.test(&v[i]) {
            v.remove(i);
            proof {
                assert(v@ =~= orig.take(j + 1).filter(keep) + orig.skip(j + 1));
            }
        } else {
            i = i + 1;
            proof {
                assert(v@ =~= orig.take(j + 1).filter(keep) + orig.skip(j + 1));
            }
        }
        proof {
            j = j + 1;
        }
    }
    proof {
        assert(orig.take(j).filter(keep).len() <= orig.take(j).len()) by {
            orig.take(j).lemma_filter_len(keep);
        }
        assert(j == orig.len());
        assert(orig.take(j) =~= orig);
        assert(v@ =~= orig.filter(keep));
    }
}

/// Concrete in-memory policy graph.
///
/// Stores the user attributes, object attributes and policy classes by id,
/// the associations, and the OA→PC assignment edges. Mutation methods never
/// fail: nodes are inserted or overwritten by id, associations are upserted
/// by `(ua_id, target)`, and assignments behave as a set.
#[derive(Debug)]
pub struct PolicyGraph {
    user_attributes: HashMap<NodeId, UserAttribute>,
    object_attributes: HashMap<NodeId, ObjectAttribute>,
    policy_classes: HashMap<NodeId, PolicyClass>,
    associations: Vec<Association>,
    oa_pc_assignments: Vec<(NodeId, NodeId)>,
}

impl View for PolicyGraph {
    type V = GraphModel;

    closed spec fn view(&self) -> GraphModel {
        GraphModel {
            uas: self.user_attributes@,
            oas: self.object_attributes@,
            pcs: self.policy_classes@,
            assocs: self.associations@,
            assignments: self.oa_pc_assignments@.to_set(),
        }
    }
}

impl PolicyGraph {
    /// The graph's invariant: every node is stored under its own id, and at
    /// most one association exists per `(ua_id, target)` pair.
    pub open spec fn wf(&self) -> bool {
        &&& keys_match(self@)
        &&& assoc_pairs_unique(self@.assocs)
    }

    /// Every graph value is well-formed.
    #[verifier::type_invariant]
    pub(crate) closed spec fn graph_invariant(self) -> bool {
        self.wf()
    }

    /// Creates a new, empty policy graph.
    pub fn new() -> (g: PolicyGraph)
        ensures
            g@.uas == Map::<NodeId, UserAttribute>::empty(),
            g@.oas == Map::<NodeId, ObjectAttribute>::empty(),
            g@.pcs == Map::<NodeId, PolicyClass>::empty(),
            g@.assocs == Seq::<Association>::empty(),
            g@.assignments == Set::<(NodeId, NodeId)>::empty(),
            g.wf(),
    {
        let g = PolicyGraph {
            user_attributes: HashMap::new(),
            object_attributes: HashMap::new(),
            policy_classes: HashMap::new(),
            associations: Vec::new(),
            oa_pc_assignments: Vec::new(),
        };
        assert(g@.assignments =~= Set::<(NodeId, NodeId)>::empty());
        g
    }

    /// Inserts a user attribute, replacing any with the same id.
    pub fn add_ua(&mut self, ua: UserAttribute)
        ensures
            final(self)@ == (GraphModel { uas: old(self)@.uas.insert(ua.id, ua), ..old(self)@ }),
            final(self).wf(),
    {
        proof {
            use_type_invariant(&*self);
        }
        let mut uas: HashMap<NodeId, UserAttribute> = HashMap::new();
        std::mem::swap(&mut uas, &mut self.user_attributes);
        uas.insert(ua.id, ua);
        self.user_attributes = uas;
    }

    /// Inserts an object attribute, replacing any with the same id.
    pub fn add_oa(&mut self, oa: ObjectAttribute)
        ensures
            final(self)@ == (GraphModel { oas: old(self)@.oas.insert(oa.id, oa), ..old(self)@ }),
            final(self).wf(),
    {
        proof {
            use_type_invariant(&*self);
        }
        let mut oas: HashMap<NodeId, ObjectAttribute> = HashMap::new();
        std::mem::swap(&mut oas, &mut self.object_attributes);
        oas.insert(oa.id, oa);
        self.object_attributes = oas;
    }

    /// Inserts a policy class, replacing any with the same id.
    pub fn add_pc(&mut self, pc: PolicyClass)
        ensures
            final(self)@ == (GraphModel { pcs: old(self)@.pcs.insert(pc.id, pc), ..old(self)@ }),
            final(self).wf(),
    {
        proof {
            use_type_invariant(&*self);
        }
        let mut pcs: HashMap<NodeId, PolicyClass> = HashMap::new();
        std::mem::swap(&mut pcs, &mut self.policy_classes);
        pcs.insert(pc.id, pc);
        self.policy_classes = pcs;
    }

    /// Upserts an association: any association with the same
    /// `(ua_id, target)` pair is replaced by `assoc`, so the second add's
    /// operation set wins and at most one association exists per pair.
    pub fn add_association(&mut self, assoc: Association)
        ensures
            final(self)@ == (GraphModel {
                assocs: old(self)@.assocs.filter(
                    |a: Association| !same_grant(a, assoc.ua_id, assoc.target),
                ).push(assoc),
                ..old(self)@
            }),
            final(self).wf(),
    {
        proof {
            use_type_invariant(&*self);
        }
        let sel = AssocSelector::Grant(assoc.ua_id, assoc.target);
        let mut assocs: Vec<Association> = Vec::new();
        std::mem::swap(&mut assocs, &mut self.associations);
        prune_assocs(&mut assocs, &sel);
        let ghost pruned = assocs@;
        proof {
            let keep = |a: Association| !same_grant(a, assoc.ua_id, assoc.target);
            assert(keep == (|a: Association| !sel.selects(a)));
            old(self).associations@.lemma_filter_len(keep);
            assert forall|i: int| 0 <= i < pruned.len() implies keep(pruned[i]) by {
                old(self).associations@.lemma_filter_pred(keep, i);
            }
            lemma_filter_keeps_unique(old(self).associations@, keep);
        }
        assocs.push(assoc);
        self.associations = assocs;
    }

    /// Removes the association with identity `(ua_id, target)`; a no-op when
    /// there is none.
    pub fn remove_association(&mut self, ua_id: NodeId, target: &AssociationTarget)
        ensures
            final(self)@ == (GraphModel {
                assocs: old(self)@.assocs.filter(|a: Association| !same_grant(a, ua_id, *target)),
                ..old(self)@
            }),
            final(self).wf(),
    {
        proof {
            use_type_invariant(&*self);
        }
        let sel = AssocSelector::Grant(ua_id, *target);
        let mut assocs: Vec<Association> = Vec::new();
        std::mem::swap(&mut assocs, &mut self.associations);
        prune_assocs(&mut assocs, &sel);
        proof {
            let keep = |a: Association| !same_grant(a, ua_id, *target);
            assert(keep == (|a: Association| !sel.selects(a)));
            lemma_filter_keeps_unique(old(self).associations@, keep);
        }
        self.associations = assocs;
    }

    /// Adds the OA→PC assignment edge `(oa_id, pc_id)`; a no-op when present.
    pub fn assign_oa_to_pc(&mut self, oa_id: NodeId, pc_id: NodeId)
        ensures
            final(self)@ == (GraphModel {
                assignments: old(self)@.assignments.insert((oa_id, pc_id)),
                ..old(self)@
            }),
            final(self).wf(),
    {
        proof {
            use_type_invariant(&*self);
        }
        let mut i: usize = 0;
        while i < self.oa_pc_assignments.len()
            invariant
                0 <= i <= self.oa_pc_assignments@.len(),
                self.oa_pc_assignments@ == old(self).oa_pc_assignments@,
                self.user_attributes == old(self).user_attributes,
                self.object_attributes == old(self).object_attributes,
                self.policy_classes == old(self).policy_classes,
                self.associations == old(self).associations,
                old(self).wf(),
                forall|k: int| 0 <= k < i ==> #[trigger] self.oa_pc_assignments@[k] != (oa_id, pc_id),
            decreases self.oa_pc_assignments@.len() - i,
        {
            let e = self.oa_pc_assignments[i];
            if e.0 == oa_id && e.1 == pc_id {
                proof {
                    assert(self@.assignments =~= old(self)@.assignments.insert((oa_id, pc_id)));
                }
                return;
            }
            i = i + 1;
        }
        let mut edges: Vec<(NodeId, NodeId)> = Vec::new();
        std::mem::swap(&mut edges, &mut self.oa_pc_assignments);
        edges.push((oa_id, pc_id));
        self.oa_pc_assignments = edges;
        proof {
            assert(self.oa_pc_assignments@.to_set() =~= old(self).oa_pc_assignments@.to_set().insert(
                (oa_id, pc_id),
            )) by {
                assert(self.oa_pc_assignments@ == old(self).oa_pc_assignments@.push((oa_id, pc_id)));
                old(self).oa_pc_assignments@.lemma_push_to_set_commute((oa_id, pc_id));
            }
        }
    }

    /// Removes the OA→PC assignment edge `(oa_id, pc_id)`; a no-op when absent.
    pub fn unassign_oa_from_pc(&mut self, oa_id: NodeId, pc_id: NodeId)
        ensures
            final(self)@ == (GraphModel {
                assignments: old(self)@.assignments.remove((oa_id, pc_id)),
                ..old(self)@
            }),
            final(self).wf(),
    {
        proof {
            use_type_invariant(&*self);
        }
        let sel = EdgeSelector::Edge(oa_id, pc_id);
        let mut edges: Vec<(NodeId, NodeId)> = Vec::new();
        std::mem::swap(&mut edges, &mut self.oa_pc_assignments);
        prune_edges(&mut edges, &sel);
        self.oa_pc_assignments = edges;
        proof {
            let keep = |e: (NodeId, NodeId)| !sel.selects(e);
            lemma_filter_to_set(old(self).oa_pc_assignments@, keep);
            assert(self@.assignments =~= old(self)@.assignments.remove((oa_id, pc_id)));
        }
    }

    /// Deletes a user attribute and every association originating from it.
    pub fn remove_ua(&mut self, id: NodeId)
        ensures
            final(self)@ == (GraphModel {
                uas: old(self)@.uas.remove(id),
                assocs: old(self)@.assocs.filter(|a: Association| a.ua_id != id),
                ..old(self)@
            }),
            final(self).wf(),
    {
        proof {
            use_type_invariant(&*self);
        }
        let mut uas: HashMap<NodeId, UserAttribute> = HashMap::new();
        std::mem::swap(&mut uas, &mut self.user_attributes);
        uas.remove(&id);
        let sel = AssocSelector::FromUa(id);
        let mut assocs: Vec<Association> = Vec::new();
        std::mem::swap(&mut assocs, &mut self.associations);
        prune_assocs(&mut assocs, &sel);
        proof {
            let keep = |a: Association| a.ua_id != id;
            assert(keep == (|a: Association| !sel.selects(a)));
            lemma_filter_keeps_unique(old(self).associations@, keep);
        }
        self.user_attributes = uas;
        self.associations = assocs;
    }

    /// Deletes an object attribute, every association aimed at it and every
    /// assignment edge leaving it.
    pub fn remove_oa(&mut self, id: NodeId)
        ensures
            final(self)@ == (GraphModel {
                oas: old(self)@.oas.remove(id),
                assocs: old(self)@.assocs.filter(
                    |a: Association| a.target != AssociationTarget::ObjectAttribute(id),
                ),
                assignments: old(self)@.assignments.filter(|e: (NodeId, NodeId)| e.0 != id),
                ..old(self)@
            }),
            final(self).wf(),
    {
        proof {
            use_type_invariant(&*self);
        }
        let mut oas: HashMap<NodeId, ObjectAttribute> = HashMap::new();
        std::mem::swap(&mut oas, &mut self.object_attributes);
        oas.remove(&id);
        let sel = AssocSelector::ToTarget(AssociationTarget::ObjectAttribute(id));
        let mut assocs: Vec<Association> = Vec::new();
        std::mem::swap(&mut assocs, &mut self.associations);
        prune_assocs(&mut assocs, &sel);
        let esel = EdgeSelector::FromOa(id);
        let mut edges: Vec<(NodeId, NodeId)> = Vec::new();
        std::mem::swap(&mut edges, &mut self.oa_pc_assignments);
        prune_edges(&mut edges, &esel);
        proof {
            let keep = |a: Association| a.target != AssociationTarget::ObjectAttribute(id);
            assert(keep == (|a: Association| !sel.selects(a)));
            lemma_filter_keeps_unique(old(self).associations@, keep);
        }
        self.object_attributes = oas;
        self.associations = assocs;
        self.oa_pc_assignments = edges;
        proof {
            let ekeep = |e: (NodeId, NodeId)| !esel.selects(e);
            lemma_filter_to_set(old(self).oa_pc_assignments@, ekeep);
            assert(self@.assignments =~= old(self)@.assignments.filter(
                |e: (NodeId, NodeId)| e.0 != id,
            ));
        }
    }

    /// Deletes a policy class, every association aimed at it and every
    /// assignment edge reaching it.
    pub fn remove_pc(&mut self, id: NodeId)
        ensures
            final(self)@ == (GraphModel {
                pcs: old(self)@.pcs.remove(id),
                assocs: old(self)@.assocs.filter(
                    |a: Association| a.target != AssociationTarget::PolicyClass(id),
                ),
                assignments: old(self)@.assignments.filter(|e: (NodeId, NodeId)| e.1 != id),
                ..old(self)@
            }),
            final(self).wf(),
    {
        proof {
            use_type_invariant(&*self);
        }
        let mut pcs: HashMap<NodeId, PolicyClass> = HashMap::new();
        std::mem::swap(&mut pcs, &mut self.policy_classes);
        pcs.remove(&id);
        let sel = AssocSelector::ToTarget(AssociationTarget::PolicyClass(id));
        let mut assocs: Vec<Association> = Vec::new();
        std::mem::swap(&mut assocs, &mut self.associations);
        prune_assocs(&mut assocs, &sel);
        let esel = EdgeSelector::ToPc(id);
        let mut edges: Vec<(NodeId, NodeId)> = Vec::new();
        std::mem::swap(&mut edges, &mut self.oa_pc_assignments);
        prune_edges(&mut edges, &esel);
        proof {
            let keep = |a: Association| a.target != AssociationTarget::PolicyClass(id);
            assert(keep == (|a: Association| !sel.selects(a)));
            lemma_filter_keeps_unique(old(self).associations@, keep);
        }
        self.policy_classes = pcs;
        self.associations = assocs;
        self.oa_pc_assignments = edges;
        proof {
            let ekeep = |e: (NodeId, NodeId)| !esel.selects(e);
            lemma_filter_to_set(old(self).oa_pc_assignments@, ekeep);
            assert(self@.assignments =~= old(self)@.assignments.filter(
                |e: (NodeId, NodeId)| e.1 != id,
            ));
        }
    }
}

/// Filtering a sequence of associations keeps their pair identities
/// distinct.
pub proof fn lemma_filter_keeps_unique(s: Seq<Association>, keep: spec_fn(Association) -> bool)
    requires
        assoc_pairs_unique(s),
    ensures
        assoc_pairs_unique(s.filter(keep)),
    decreases s.len(),
{
    reveal(Seq::filter);
    if s.len() > 0 {
        let init = s.drop_last();
        assert(assoc_pairs_unique(init)) by {
            assert forall|i: int, j: int| 0 <= i < j < init.len() implies !((#[trigger] init[i]).ua_id
                == (#[trigger] init[j]).ua_id && init[i].target == init[j].target) by {
                assert(init[i] == s[i] && init[j] == s[j]);
            }
        }
        lemma_filter_keeps_unique(init, keep);
        let f = init.filter(keep);
        if keep(s.last()) {
            let r = f.push(s.last());
            assert forall|i: int, j: int| 0 <= i < j < r.len() implies !((#[trigger] r[i]).ua_id
                == (#[trigger] r[j]).ua_id && r[i].target == r[j].target) by {
                if j == r.len() - 1 {
                    assert(f.contains(r[i]));
                    lemma_filter_subset(init, keep, r[i]);
                    let m = choose|m: int| 0 <= m < init.len() && init[m] == r[i];
                    assert(s[m] == r[i]);
                    assert(s[s.len() - 1] == r[j]);
                }
            }
        }
    }
}

/// Every element of a filtered sequence comes from the original.
pub proof fn lemma_filter_subset<A>(s: Seq<A>, keep: spec_fn(A) -> bool, x: A)
    requires
        s.filter(keep).contains(x),
    ensures
        s.contains(x),
        keep(x),
    decreases s.len(),
{
    reveal(Seq::filter);
    if s.len() > 0 {
        let f = s.drop_last().filter(keep);
        if keep(s.last()) && x == s.last() {
        } else {
            if keep(s.last()) {
                let k = choose|k: int| 0 <= k < s.filter(keep).len() && s.filter(keep)[k] == x;
                assert(k < f.len());
                assert(f[k] == x);
            }
            lemma_filter_subset(s.drop_last(), keep, x);
            let m = choose|m: int| 0 <= m < s.drop_last().len() && s.drop_last()[m] == x;
            assert(s[m] == x);
        }
    } else {
    }
}

/// The set of a filtered sequence is the filtered set.
proof fn lemma_filter_to_set<A>(s: Seq<A>, keep: spec_fn(A) -> bool)
    ensures
        s.filter(keep).to_set() == s.to_set().filter(keep),
{
    assert forall|x: A| s.filter(keep).to_set().contains(x) <==> s.to_set().filter(keep).contains(
        x,
    ) by {
        if s.filter(keep).contains(x) {
            lemma_filter_subset(s, keep, x);
        }
        if s.contains(x) && keep(x) {
            let i = choose|i: int| 0 <= i < s.len() && s[i] == x;
            s.lemma_filter_contains(keep, i);
        }
    }
    assert(s.filter(keep).to_set() =~= s.to_set().filter(keep));
}


impl PolicyGraph {
    /// Whether a user attribute with id `id` exists.
    pub fn contains_ua(&self, id: NodeId) -> (r: bool)
        ensures
            r == self@.uas.contains_key(id),
    {
        self.user_attributes.contains_key(&id)
    }

    /// Whether an object attribute with id `id` exists.
    pub fn contains_oa(&self, id: NodeId) -> (r: bool)
        ensures
            r == self@.oas.contains_key(id),
    {
        self.object_attributes.contains_key(&id)
    }

    /// Whether a policy class with id `id` exists.
    pub fn contains_pc(&self, id: NodeId) -> (r: bool)
        ensures
            r == self@.pcs.contains_key(id),
    {
        self.policy_classes.contains_key(&id)
    }

    /// Looks up a user attribute by id.
    pub fn get_ua(&self, id: NodeId) -> (r: Option<&UserAttribute>)
        ensures
            match r {
                Some(ua) => self@.uas.contains_key(id) && *ua == self@.uas[id],
                None => !self@.uas.contains_key(id),
            },
    {
        self.user_attributes.get(&id)
    }

    /// Looks up a policy class by id.
    pub fn get_pc(&self, id: NodeId) -> (r: Option<&PolicyClass>)
        ensures
            match r {
                Some(pc) => self@.pcs.contains_key(id) && *pc == self@.pcs[id],
                None => !self@.pcs.contains_key(id),
            },
    {
        self.policy_classes.get(&id)
    }

    /// Every user attribute of the graph, in no particular order.
    pub fn user_attribute_list(&self) -> (r: Vec<&UserAttribute>)
        ensures
            forall|i: int| 0 <= i < r@.len() ==> self@.uas.values().contains(*r@[i]),
            forall|u: UserAttribute|
                #[trigger] self@.uas.values().contains(u) ==> exists|i: int|
                    0 <= i < r@.len() && *r@[i] == u,
            forall|a: int, b: int|
                #![trigger r@[a], r@[b]]
                0 <= a < b < r@.len() ==> r@[a].id != r@[b].id,
    {
        proof {
            use_type_invariant(self);
        }
        let mut r: Vec<&UserAttribute> = Vec::new();
        let ghost m = self.user_attributes@;
        let entries = self.user_attributes.iter();
        let ghost s = entries.remaining();
        proof {
            assert(s.no_duplicates());
        }
        let ghost mut n: int = 0;
        for (_k, ua) in it: entries
            invariant
                m == self.user_attributes@,
                m == self@.uas,
                it.seq() == s,
                n == it.index(),
                s.no_duplicates(),
                forall|i: int|
                    #![trigger s[i]]
                    0 <= i < s.len() ==> m.contains_key(*s[i].0) && m[*s[i].0] == *s[i].1,
                forall|a: int|
                    #![trigger r@[a]]
                    0 <= a < r@.len() ==> r@[a] == s[a].1,
                r@.len() == n,
                forall|i: int| 0 <= i < r@.len() ==> m.values().contains(*r@[i]),
                forall|j: int| 0 <= j < n ==> r@.contains(s[j].1),
        {
            proof {
                assert(m.contains_key(*s[n].0));
                assert(m[*_k] == *ua);
            }
            r.push(ua);
            proof {
                n = n + 1;
            }
        }
        proof {
            assert forall|u: UserAttribute| #[trigger] m.values().contains(u) implies exists|i: int|
                0 <= i < r@.len() && *r@[i] == u by {
                let k = choose|k: NodeId| m.contains_key(k) && m[k] == u;
                assert(s.contains((&k, &m[k])));
                let j = choose|j: int| 0 <= j < s.len() && s[j] == (&k, &m[k]);
                assert(r@.contains(s[j].1));
            }
            assert forall|a: int, b: int|
                #![trigger r@[a], r@[b]]
                0 <= a < b < r@.len() implies r@[a].id != r@[b].id by {
                assert(s[a] != s[b]);
                if *s[a].0 == *s[b].0 {
                    assert(s[a] == s[b]);
                }
            }
        }
        r
    }

    /// Every object attribute of the graph, in no particular order.
    pub fn object_attribute_list(&self) -> (r: Vec<&ObjectAttribute>)
        ensures
            forall|i: int| 0 <= i < r@.len() ==> self@.oas.values().contains(*r@[i]),
            forall|o: ObjectAttribute|
                #[trigger] self@.oas.values().contains(o) ==> exists|i: int|
                    0 <= i < r@.len() && *r@[i] == o,
            forall|a: int, b: int|
                #![trigger r@[a], r@[b]]
                0 <= a < b < r@.len() ==> r@[a].id != r@[b].id,
    {
        proof {
            use_type_invariant(self);
        }
        let mut r: Vec<&ObjectAttribute> = Vec::new();
        let ghost m = self.object_attributes@;
        let entries = self.object_attributes.iter();
        let ghost s = entries.remaining();
        proof {
            assert(s.no_duplicates());
        }
        let ghost mut n: int = 0;
        for (_k, oa) in it: entries
            invariant
                m == self.object_attributes@,
                m == self@.oas,
                it.seq() == s,
                n == it.index(),
                s.no_duplicates(),
                forall|i: int|
                    #![trigger s[i]]
                    0 <= i < s.len() ==> m.contains_key(*s[i].0) && m[*s[i].0] == *s[i].1,
                forall|a: int|
                    #![trigger r@[a]]
                    0 <= a < r@.len() ==> r@[a] == s[a].1,
                r@.len() == n,
                forall|i: int| 0 <= i < r@.len() ==> m.values().contains(*r@[i]),
                forall|j: int| 0 <= j < n ==> r@.contains(s[j].1),
        {
            proof {
                assert(m.contains_key(*s[n].0));
                assert(m[*_k] == *oa);
            }
            r.push(oa);
            proof {
                n = n + 1;
            }
        }
        proof {
            assert forall|o: ObjectAttribute| #[trigger] m.values().contains(o) implies exists|i: int|
                0 <= i < r@.len() && *r@[i] == o by {
                let k = choose|k: NodeId| m.contains_key(k) && m[k] == o;
                assert(s.contains((&k, &m[k])));
                let j = choose|j: int| 0 <= j < s.len() && s[j] == (&k, &m[k]);
                assert(r@.contains(s[j].1));
            }
            assert forall|a: int, b: int|
                #![trigger r@[a], r@[b]]
                0 <= a < b < r@.len() implies r@[a].id != r@[b].id by {
                assert(s[a] != s[b]);
                if *s[a].0 == *s[b].0 {
                    assert(s[a] == s[b]);
                }
            }
        }
        r
    }

    /// Every policy class of the graph, in no particular order.
    pub fn policy_class_list(&self) -> (r: Vec<&PolicyClass>)
        ensures
            forall|i: int| 0 <= i < r@.len() ==> self@.pcs.values().contains(*r@[i]),
            forall|p: PolicyClass|
                #[trigger] self@.pcs.values().contains(p) ==> exists|i: int|
                    0 <= i < r@.len() && *r@[i] == p,
            forall|a: int, b: int|
                #![trigger r@[a], r@[b]]
                0 <= a < b < r@.len() ==> r@[a].id != r@[b].id,
    {
        proof {
            use_type_invariant(self);
        }
        let mut r: Vec<&PolicyClass> = Vec::new();
        let ghost m = self.policy_classes@;
        let entries = self.policy_classes.iter();
        let ghost s = entries.remaining();
        proof {
            assert(s.no_duplicates());
        }
        let ghost mut n: int = 0;
        for (_k, pc) in it: entries
            invariant
                m == self.policy_classes@,
                m == self@.pcs,
                it.seq() == s,
                n == it.index(),
                s.no_duplicates(),
                forall|i: int|
                    #![trigger s[i]]
                    0 <= i < s.len() ==> m.contains_key(*s[i].0) && m[*s[i].0] == *s[i].1,
                forall|a: int|
                    #![trigger r@[a]]
                    0 <= a < r@.len() ==> r@[a] == s[a].1,
                r@.len() == n,
                forall|i: int| 0 <= i < r@.len() ==> m.values().contains(*r@[i]),
                forall|j: int| 0 <= j < n ==> r@.contains(s[j].1),
        {
            proof {
                assert(m.contains_key(*s[n].0));
                assert(m[*_k] == *pc);
            }
            r.push(pc);
            proof {
                n = n + 1;
            }
        }
        proof {
            assert forall|p: PolicyClass| #[trigger] m.values().contains(p) implies exists|i: int|
                0 <= i < r@.len() && *r@[i] == p by {
                let k = choose|k: NodeId| m.contains_key(k) && m[k] == p;
                assert(s.contains((&k, &m[k])));
                let j = choose|j: int| 0 <= j < s.len() && s[j] == (&k, &m[k]);
                assert(r@.contains(s[j].1));
            }
            assert forall|a: int, b: int|
                #![trigger r@[a], r@[b]]
                0 <= a < b < r@.len() implies r@[a].id != r@[b].id by {
                assert(s[a] != s[b]);
                if *s[a].0 == *s[b].0 {
                    assert(s[a] == s[b]);
                }
            }
        }
        r
    }

    /// The associations of the graph, in insertion order.
    pub fn association_list(&self) -> (r: &Vec<Association>)
        ensures
            r@ == self@.assocs,
    {
        &self.associations
    }

    /// The OA→PC assignment edges `(oa_id, pc_id)` of the graph.
    pub fn assignment_list(&self) -> (r: &Vec<(NodeId, NodeId)>)
        ensures
            r@.to_set() == self@.assignments,
    {
        &self.oa_pc_assignments
    }

    /// The number of user attributes.
    pub fn ua_count(&self) -> (r: usize)
        ensures
            r == self@.uas.len(),
    {
        self.user_attributes.len()
    }

    /// The number of object attributes.
    pub fn oa_count(&self) -> (r: usize)
        ensures
            r == self@.oas.len(),
    {
        self.object_attributes.len()
    }

    /// The number of policy classes.
    pub fn pc_count(&self) -> (r: usize)
        ensures
            r == self@.pcs.len(),
    {
        self.policy_classes.len()
    }
}

/// A copy of `s`, string by string.
fn copy_strings(s: &Vec<String>) -> (r: Vec<String>)
    ensures
        r@ == s@,
{
    let mut r: Vec<String> = Vec::new();
    let mut i: usize = 0;
    while i < s.len()
        invariant
            0 <= i <= s@.len(),
            r@ == s@.take(i as int),
        decreases s@.len() - i,
    {
        r.push(s[i].clone());
        proof {
            assert(r@ =~= s@.take(i + 1));
        }
        i = i + 1;
    }
    proof {
        assert(s@.take(i as int) =~= s@);
    }
    r
}

/// Whether `a` and `b` hold, position by position, associations with the
/// same user attribute, target and operations.
pub open spec fn same_grants(a: Seq<Association>, b: Seq<Association>) -> bool {
    &&& a.len() == b.len()
    &&& forall|i: int|
        #![trigger a[i], b[i]]
        0 <= i < a.len() ==> a[i].ua_id == b[i].ua_id && a[i].target == b[i].target
            && a[i].operations@ == b[i].operations@
}

/// A copy of `v`, association by association.
fn copy_associations(v: &Vec<Association>) -> (r: Vec<Association>)
    ensures
        same_grants(r@, v@),
{
    let mut r: Vec<Association> = Vec::new();
    let mut i: usize = 0;
    while i < v.len()
        invariant
            0 <= i <= v@.len(),
            r@.len() == i,
            forall|k: int|
                #![trigger r@[k]]
                0 <= k < i ==> r@[k].ua_id == v@[k].ua_id && r@[k].target == v@[k].target
                    && r@[k].operations@ == v@[k].operations@,
        decreases v@.len() - i,
    {
        let a = &v[i];
        r.push(
            Association { ua_id: a.ua_id, target: a.target, operations: copy_strings(&a.operations) },
        );
        i = i + 1;
    }
    r
}

/// A copy of `v`, edge by edge.
fn copy_edges(v: &Vec<(NodeId, NodeId)>) -> (r: Vec<(NodeId, NodeId)>)
    ensures
        r@ == v@,
{
    let mut r: Vec<(NodeId, NodeId)> = Vec::new();
    let mut i: usize = 0;
    while i < v.len()
        invariant
            0 <= i <= v@.len(),
            r@ == v@.take(i as int),
        decreases v@.len() - i,
    {
        r.push(v[i]);
        proof {
            assert(r@ =~= v@.take(i + 1));
        }
        i = i + 1;
    }
    proof {
        assert(v@.take(i as int) =~= v@);
    }
    r
}

impl Clone for PolicyGraph {
    /// A copy of the graph: the same nodes and assignment edges, and
    /// associations with the same user attributes, targets and operations.
    fn clone(&self) -> (r: PolicyGraph)
        ensures
            r@.uas == self@.uas,
            r@.oas == self@.oas,
            r@.pcs == self@.pcs,
            r@.assignments == self@.assignments,
            same_grants(r@.assocs, self@.assocs),
    {
        proof {
            use_type_invariant(self);
        }
        let assocs = copy_associations(&self.associations);
        proof {
            assert forall|i: int, j: int| 0 <= i < j < assocs@.len() implies !((#[trigger] assocs@[i]).ua_id
                == (#[trigger] assocs@[j]).ua_id && assocs@[i].target == assocs@[j].target) by {
                assert(self.associations@[i].ua_id == assocs@[i].ua_id);
                assert(self.associations@[j].ua_id == assocs@[j].ua_id);
            }
        }
        let uas = self.user_attributes.clone();
        let oas = self.object_attributes.clone();
        let pcs = self.policy_classes.clone();
        let edges = copy_edges(&self.oa_pc_assignments);
        assert(self@.uas == uas@ && self@.oas == oas@ && self@.pcs == pcs@);
        assert forall|k: NodeId| #[trigger] uas@.contains_key(k) implies uas@[k].id == k by {
            assert(self@.uas.contains_key(k));
        }
        assert forall|k: NodeId| #[trigger] oas@.contains_key(k) implies oas@[k].id == k by {
            assert(self@.oas.contains_key(k));
        }
        assert forall|k: NodeId| #[trigger] pcs@.contains_key(k) implies pcs@[k].id == k by {
            assert(self@.pcs.contains_key(k));
        }
        let g = PolicyGraph {
            user_attributes: uas,
            object_attributes: oas,
            policy_classes: pcs,
            associations: assocs,
            oa_pc_assignments: edges,
        };
        g
    }
}

impl Default for PolicyGraph {
    /// An empty policy graph, as `PolicyGraph::new` creates.
    fn default() -> (g: PolicyGraph)
        ensures
            g@.uas == Map::<NodeId, UserAttribute>::empty(),
            g@.oas == Map::<NodeId, ObjectAttribute>::empty(),
            g@.pcs == Map::<NodeId, PolicyClass>::empty(),
            g@.assocs == Seq::<Association>::empty(),
            g@.assignments == Set::<(NodeId, NodeId)>::empty(),
            g.wf(),
    {
        PolicyGraph::new()
    }
}

impl PolicyView for PolicyGraph {
    open spec fn ua_values(&self) -> Set<UserAttribute> {
        self@.uas.values()
    }

    open spec fn assoc_values(&self) -> Set<Association> {
        self@.assocs.to_set()
    }

    open spec fn oa_entries(&self) -> Map<NodeId, ObjectAttribute> {
        self@.oas
    }

    open spec fn oa_pc_edges(&self) -> Set<(NodeId, NodeId)> {
        self@.assignments
    }

    fn matching_uas(&self, subject_attrs: &AttrMap) -> (r: Vec<&UserAttribute>)
        ensures
            forall|a: int, b: int|
                #![trigger r@[a], r@[b]]
                0 <= a < b < r@.len() ==> r@[a].id != r@[b].id,
    {
        proof {
            use_type_invariant(self);
        }
        let mut r: Vec<&UserAttribute> = Vec::new();
        let ghost m = self.user_attributes@;
        let entries = self.user_attributes.iter();
        let ghost s = entries.remaining();
        proof {
            assert(s.no_duplicates());
        }
        let ghost mut idx: Seq<int> = Seq::empty();
        let ghost mut n: int = 0;
        for (_k, ua) in it: entries
            invariant
                m == self.user_attributes@,
                m == self@.uas,
                it.seq() == s,
                n == it.index(),
                s.no_duplicates(),
                s.len() == m.dom().len(),
                forall|i: int|
                    #![trigger s[i]]
                    0 <= i < s.len() ==> m.contains_key(*s[i].0) && m[*s[i].0] == *s[i].1,
                idx.len() == r@.len(),
                forall|a: int|
                    #![trigger idx[a]]
                    0 <= a < idx.len() ==> 0 <= idx[a] < n && r@[a] == s[idx[a]].1,
                forall|a: int, b: int|
                    #![trigger idx[a], idx[b]]
                    0 <= a < b < idx.len() ==> idx[a] < idx[b],
                forall|i: int|
                    0 <= i < r@.len() ==> m.values().contains(*r@[i])
                        && r@[i].matcher.spec_matches(subject_attrs@),
                forall|j: int|
                    0 <= j < n && (*s[j].1).matcher.spec_matches(subject_attrs@) ==> r@.contains(
                        s[j].1,
                    ),
        {
            proof {
                assert(m.contains_key(*s[n].0));
                assert(m[*_k] == *ua);
            }
            if ua.matcher.matches(subject_attrs) {
                r.push(ua);
                proof {
                    idx = idx.push(n);
                }
            }
            proof {
                n = n + 1;
            }
        }
        proof {
            assert forall|u: UserAttribute|
                #[trigger] m.values().contains(u) && u.matcher.spec_matches(
                    subject_attrs@,
                ) implies exists|i: int| 0 <= i < r@.len() && *r@[i] == u by {
                let k = choose|k: NodeId| m.contains_key(k) && m[k] == u;
                assert(s.contains((&k, &m[k])));
                let j = choose|j: int| 0 <= j < s.len() && s[j] == (&k, &m[k]);
                assert(r@.contains(s[j].1));
            }
            assert forall|a: int, b: int|
                #![trigger r@[a], r@[b]]
                0 <= a < b < r@.len() implies r@[a].id != r@[b].id by {
                let (ia, ib) = (idx[a], idx[b]);
                assert(ia < ib);
                assert(s[ia] != s[ib]);
                assert(m.contains_key(*s[ia].0) && m[*s[ia].0] == *s[ia].1);
                assert(m.contains_key(*s[ib].0) && m[*s[ib].0] == *s[ib].1);
                if *s[ia].0 == *s[ib].0 {
                    assert(s[ia] == s[ib]);
                }
                assert(r@[a].id == *s[ia].0);
                assert(r@[b].id == *s[ib].0);
            }
        }
        r
    }

    fn associations_for_ua(&self, ua_id: NodeId) -> (r: Vec<&Association>)
        ensures
            r@.len() == self@.assocs.filter(|a: Association| a.ua_id == ua_id).len(),
            forall|i: int|
                0 <= i < r@.len() ==> *r@[i] == self@.assocs.filter(
                    |a: Association| a.ua_id == ua_id,
                )[i],
    {
        let ghost keep = |a: Association| a.ua_id == ua_id;
        let ghost all = self.associations@;
        let mut r: Vec<&Association> = Vec::new();
        let mut i: usize = 0;
        while i < self.associations.len()
            invariant
                0 <= i <= all.len(),
                all == self.associations@,
                all == self@.assocs,
                keep == (|a: Association| a.ua_id == ua_id),
                r@.len() == all.take(i as int).filter(keep).len(),
                forall|k: int| 0 <= k < r@.len() ==> *r@[k] == all.take(i as int).filter(keep)[k],
            decreases all.len() - i,
        {
            proof {
                lemma_filter_take_step(all, i as int, keep);
            }
            let a = &self.associations[i];
            if a.ua_id == ua_id {
                r.push(a);
            }
            i = i + 1;
        }
        proof {
            assert(all.take(i as int) =~= all);
            let f = all.filter(keep);
            assert forall|j: int| 0 <= j < r@.len() implies self.assoc_values().contains(*r@[j])
                && r@[j].ua_id == ua_id by {
                all.lemma_filter_pred(keep, j);
                lemma_filter_subset(all, keep, f[j]);
            }
            assert forall|a: Association|
                #[trigger] self.assoc_values().contains(a) && a.ua_id == ua_id implies exists|j: int|
                0 <= j < r@.len() && *r@[j] == a by {
                let m = choose|m: int| 0 <= m < all.len() && all[m] == a;
                all.lemma_filter_contains(keep, m);
                let j = choose|j: int| 0 <= j < f.len() && f[j] == a;
                assert(*r@[j] == a);
            }
        }
        r
    }

    fn get_oa(&self, oa_id: NodeId) -> (r: Option<&ObjectAttribute>) {
        self.object_attributes.get(&oa_id)
    }

    fn oas_for_pc(&self, pc_id: NodeId, resource_type: &str) -> (r: Vec<&ObjectAttribute>)
        ensures
            forall|a: int, b: int|
                #![trigger r@[a], r@[b]]
                0 <= a < b < r@.len() ==> r@[a].id != r@[b].id,
    {
        proof {
            use_type_invariant(self);
        }
        let rt: String = resource_type.to_owned();
        let ghost edges = self.oa_pc_assignments@;
        let ghost oas = self.object_attributes@;
        let mut r: Vec<&ObjectAttribute> = Vec::new();
        let mut seen: Vec<NodeId> = Vec::new();
        let mut i: usize = 0;
        while i < self.oa_pc_assignments.len()
            invariant
                0 <= i <= edges.len(),
                edges == self.oa_pc_assignments@,
                seen@.len() == r@.len(),
                forall|k: int|
                    #![trigger seen@[k]]
                    0 <= k < seen@.len() ==> oas.contains_key(seen@[k]) && *r@[k] == oas[seen@[k]],
                forall|a: int, b: int|
                    #![trigger seen@[a], seen@[b]]
                    0 <= a < b < seen@.len() ==> seen@[a] != seen@[b],
                oas == self.object_attributes@,
                oas == self.oa_entries(),
                edges.to_set() == self.oa_pc_edges(),
                rt@ == resource_type@,
                forall|k: int|
                    0 <= k < r@.len() ==> pc_member(
                        self.oa_pc_edges(),
                        self.oa_entries(),
                        pc_id,
                        resource_type@,
                        *r@[k],
                    ),
                forall|j: int|
                    0 <= j < i && (#[trigger] edges[j]).1 == pc_id && oas.contains_key(edges[j].0)
                        && oas[edges[j].0].resource_type@ == resource_type@ ==> exists|k: int|
                        0 <= k < r@.len() && *r@[k] == oas[edges[j].0],
            decreases edges.len() - i,
        {
            let e = self.oa_pc_assignments[i];
            let ghost old_r = r@;
            let ghost old_seen = seen@;
            if e.1 == pc_id && contains_id(&seen, e.0) {
                proof {
                    let k = choose|k: int| 0 <= k < seen@.len() && seen@[k] == e.0;
                    assert(*r@[k] == oas[seen@[k]]);
                }
            } else if e.1 == pc_id {
                match self.object_attributes.get(&e.0) {
                    Some(oa) => {
                        if oa.resource_type == rt {
                            proof {
                                assert(edges.to_set().contains(edges[i as int]));
                                assert(pc_member(
                                    self.oa_pc_edges(),
                                    self.oa_entries(),
                                    pc_id,
                                    resource_type@,
                                    *oa,
                                ));
                            }
                            r.push(oa);
                            seen.push(e.0);
                            proof {
                                assert(*r@[r@.len() - 1] == *oa);
                                assert forall|k: int|
                                    #![trigger seen@[k]]
                                    0 <= k < seen@.len() implies oas.contains_key(seen@[k])
                                        && *r@[k] == oas[seen@[k]] by {
                                    if k < old_seen.len() {
                                        assert(seen@[k] == old_seen[k]);
                                        assert(r@[k] == old_r[k]);
                                    }
                                }
                                assert forall|a: int, b: int|
                                    #![trigger seen@[a], seen@[b]]
                                    0 <= a < b < seen@.len() implies seen@[a] != seen@[b] by {
                                    if b == old_seen.len() {
                                        assert(seen@[a] == old_seen[a]);
                                        assert(!old_seen.contains(e.0));
                                    } else {
                                        assert(seen@[a] == old_seen[a] && seen@[b] == old_seen[b]);
                                    }
                                }
                            }
                        }
                    },
                    None => {},
                }
            }
            proof {
                assert forall|j: int|
                    0 <= j < i + 1 && (#[trigger] edges[j]).1 == pc_id && oas.contains_key(
                        edges[j].0,
                    ) && oas[edges[j].0].resource_type@ == resource_type@ implies exists|k: int|
                    0 <= k < r@.len() && *r@[k] == oas[edges[j].0] by {
                    if j < i {
                        let k = choose|k: int| 0 <= k < old_r.len() && *old_r[k] == oas[edges[j].0];
                        assert(r@[k] == old_r[k]);
                    } else if old_seen.contains(edges[j].0) {
                        let k = choose|k: int| 0 <= k < old_seen.len() && old_seen[k] == edges[j].0;
                        assert(*old_r[k] == oas[old_seen[k]]);
                        assert(r@[k] == old_r[k]);
                    } else {
                        assert(*r@[r@.len() - 1] == oas[edges[j].0]);
                    }
                }
            }
            i = i + 1;
        }
        proof {
            assert forall|oa: ObjectAttribute|
                #[trigger] pc_member(
                    self.oa_pc_edges(),
                    self.oa_entries(),
                    pc_id,
                    resource_type@,
                    oa,
                ) implies exists|k: int| 0 <= k < r@.len() && *r@[k] == oa by {
                let oa_id = choose|oa_id: NodeId|
                    #![trigger self.oa_pc_edges().contains((oa_id, pc_id))]
                    self.oa_pc_edges().contains((oa_id, pc_id)) && oas.contains_key(oa_id)
                        && oas[oa_id] == oa && oa.resource_type@ == resource_type@;
                let j = choose|j: int| 0 <= j < edges.len() && edges[j] == (oa_id, pc_id);
                assert(edges[j].1 == pc_id);
            }
            assert forall|a: int, b: int|
                #![trigger r@[a], r@[b]]
                0 <= a < b < r@.len() implies r@[a].id != r@[b].id by {
                assert(seen@[a] != seen@[b]);
                assert(oas.contains_key(seen@[a]) && *r@[a] == oas[seen@[a]]);
                assert(oas.contains_key(seen@[b]) && *r@[b] == oas[seen@[b]]);
            }
        }
        r
    }
}

/// Whether `id` occurs in `ids`.
fn contains_id(ids: &Vec<NodeId>, id: NodeId) -> (r: bool)
    ensures
        r == ids@.contains(id),
{
    let mut i: usize = 0;
    while i < ids.len()
        invariant
            0 <= i <= ids@.len(),
            forall|k: int| 0 <= k < i ==> ids@[k] != id,
        decreases ids@.len() - i,
    {
        if ids[i] == id {
            return true;
        }
        i = i + 1;
    }
    false
}


/// Filtering a sequence extended by one element.
pub proof fn lemma_filter_push<A>(s: Seq<A>, x: A, keep: spec_fn(A) -> bool)
    ensures
        s.push(x).filter(keep) == (if keep(x) {
            s.filter(keep).push(x)
        } else {
            s.filter(keep)
        }),
{
    reveal(Seq::filter);
    assert(s.push(x).drop_last() =~= s);
}

/// Filtering twice by the same predicate is filtering once.
pub proof fn lemma_filter_idempotent<A>(s: Seq<A>, keep: spec_fn(A) -> bool)
    ensures
        s.filter(keep).filter(keep) == s.filter(keep),
    decreases s.len(),
{
    reveal(Seq::filter);
    if s.len() > 0 {
        lemma_filter_idempotent(s.drop_last(), keep);
        if keep(s.last()) {
            lemma_filter_push(s.drop_last().filter(keep), s.last(), keep);
        }
    }
}

/// Association upsert: after `add_association(assoc)` on associations `s`,
/// the only association with `assoc`'s `(ua_id, target)` identity is
/// `assoc` itself (the new operation set wins), it is present, every
/// association with another identity is kept, and pair identities stay
/// distinct.
pub proof fn lemma_upsert_single_grant(s: Seq<Association>, assoc: Association)
    ensures
        ({
            let r = s.filter(|a: Association| !same_grant(a, assoc.ua_id, assoc.target)).push(
                assoc,
            );
            &&& r.contains(assoc)
            &&& forall|i: int|
                0 <= i < r.len() && same_grant(#[trigger] r[i], assoc.ua_id, assoc.target) ==> r[i]
                    == assoc
            &&& forall|a: Association|
                !same_grant(a, assoc.ua_id, assoc.target) ==> (r.contains(a) <==> s.contains(a))
            &&& assoc_pairs_unique(s) ==> assoc_pairs_unique(r)
        }),
{
    let keep = |a: Association| !same_grant(a, assoc.ua_id, assoc.target);
    let f = s.filter(keep);
    let r = f.push(assoc);
    assert(r[r.len() - 1] == assoc);
    assert forall|i: int|
        0 <= i < r.len() && same_grant(#[trigger] r[i], assoc.ua_id, assoc.target) implies r[i]
        == assoc by {
        if i < f.len() {
            s.lemma_filter_pred(keep, i);
            assert(r[i] == f[i]);
        }
    }
    assert forall|a: Association| !same_grant(a, assoc.ua_id, assoc.target) implies (r.contains(a)
        <==> s.contains(a)) by {
        if r.contains(a) {
            let i = choose|i: int| 0 <= i < r.len() && r[i] == a;
            assert(i < f.len());
            assert(f.contains(a));
            lemma_filter_subset(s, keep, a);
        }
        if s.contains(a) {
            let i = choose|i: int| 0 <= i < s.len() && s[i] == a;
            s.lemma_filter_contains(keep, i);
            let j = choose|j: int| 0 <= j < f.len() && f[j] == a;
            assert(r[j] == a);
        }
    }
    if assoc_pairs_unique(s) {
        lemma_filter_keeps_unique(s, keep);
        assert forall|i: int, j: int| 0 <= i < j < r.len() implies !((#[trigger] r[i]).ua_id == (
        #[trigger] r[j]).ua_id && r[i].target == r[j].target) by {
            if j == r.len() - 1 {
                s.lemma_filter_pred(keep, i);
                assert(r[i] == f[i]);
            } else {
                assert(r[i] == f[i] && r[j] == f[j]);
            }
        }
    }
}

/// Association removal: after `remove_association(ua_id, target)` no
/// association with that identity is left and every other association is
/// kept.
pub proof fn lemma_remove_grant(s: Seq<Association>, ua_id: NodeId, target: AssociationTarget)
    ensures
        ({
            let r = s.filter(|a: Association| !same_grant(a, ua_id, target));
            &&& forall|i: int| 0 <= i < r.len() ==> !same_grant(#[trigger] r[i], ua_id, target)
            &&& forall|a: Association|
                !same_grant(a, ua_id, target) ==> (r.contains(a) <==> s.contains(a))
        }),
{
    let keep = |a: Association| !same_grant(a, ua_id, target);
    let r = s.filter(keep);
    assert forall|i: int| 0 <= i < r.len() implies !same_grant(#[trigger] r[i], ua_id, target) by {
        s.lemma_filter_pred(keep, i);
    }
    assert forall|a: Association| !same_grant(a, ua_id, target) implies (r.contains(a)
        <==> s.contains(a)) by {
        if r.contains(a) {
            lemma_filter_subset(s, keep, a);
        }
        if s.contains(a) {
            let i = choose|i: int| 0 <= i < s.len() && s[i] == a;
            s.lemma_filter_contains(keep, i);
        }
    }
}

} // verus!
