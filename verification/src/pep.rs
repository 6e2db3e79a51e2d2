//! The policy enforcement point: point checks with [`evaluate`] and
//! list-filter resolution with [`scope`].
use vstd::prelude::*;

use crate::attrs::{co_member, contains_str, shares_value, str_seq_has, AttrMap};
use crate::graph::{
    grants_op, lemma_filter_push, pc_member, Association, AssociationTarget, AttributeMatcher, NodeId,
    ObjectAttribute, PolicyView, UserAttribute,
};

verus! {

broadcast use vstd::seq_lib::group_seq_properties;

/// The outcome of a point authorization check.
#[derive(Debug, Clone, Copy, PartialEq, Eq, Structural)]
pub enum Decision {
    /// The subject may perform the operation on the resource.
    Allow,
    /// The subject may not perform the operation on the resource.
    Deny,
}

/// Whether association target `target` reaches object attribute `oa` of
/// resource type `rt`: directly for an object attribute target, through an
/// assignment edge for a policy class target.
pub open spec fn reaches<V: PolicyView>(
    view: &V,
    target: AssociationTarget,
    rt: Seq<char>,
    oa: ObjectAttribute,
) -> bool {
    match target {
        AssociationTarget::ObjectAttribute(id) => {
            &&& view.oa_entries().contains_key(id)
            &&& view.oa_entries()[id] == oa
            &&& oa.resource_type@ == rt
        },
        AssociationTarget::PolicyClass(pc_id) => pc_member(
            view.oa_pc_edges(),
            view.oa_entries(),
            pc_id,
            rt,
            oa,
        ),
    }
}

/// A grant path: a user attribute matching the subject, one of its
/// associations carrying the operation, and an object attribute of the
/// resource type that the association reaches.
pub open spec fn grant_path<V: PolicyView>(
    view: &V,
    subject: Map<Seq<char>, Set<Seq<char>>>,
    op: Seq<char>,
    rt: Seq<char>,
    ua: UserAttribute,
    a: Association,
    oa: ObjectAttribute,
) -> bool {
    &&& view.ua_values().contains(ua)
    &&& ua.matcher.spec_matches(subject)
    &&& view.assoc_values().contains(a)
    &&& a.ua_id == ua.id
    &&& grants_op(a, op)
    &&& reaches(view, a.target, rt, oa)
}

/// Whether `oa` is reachable by the subject for the operation and resource
/// type through some grant path.
pub open spec fn candidate<V: PolicyView>(
    view: &V,
    subject: Map<Seq<char>, Set<Seq<char>>>,
    op: Seq<char>,
    rt: Seq<char>,
    oa: ObjectAttribute,
) -> bool {
    exists|ua: UserAttribute, a: Association| #[trigger] grant_path(view, subject, op, rt, ua, a, oa)
}

/// The authorization relation: some object attribute reachable by the
/// subject for the operation and resource type admits the resource.
pub open spec fn allows<V: PolicyView>(
    view: &V,
    subject: Map<Seq<char>, Set<Seq<char>>>,
    op: Seq<char>,
    rt: Seq<char>,
    resource: Map<Seq<char>, Set<Seq<char>>>,
) -> bool {
    exists|oa: ObjectAttribute| #[trigger]
        candidate(view, subject, op, rt, oa) && oa.matcher.spec_matches_resource(resource, subject)
}

/// A point-check request.
///
/// The operation and resource type are constructor arguments; attribute maps
/// default to empty (fail-closed) until set with the consuming setters.
#[derive(Debug, Clone)]
pub struct AccessRequest {
    subject_attrs: AttrMap,
    operation: String,
    resource_type: String,
    resource_attrs: AttrMap,
}

impl AccessRequest {
    /// The subject's attributes.
    pub closed spec fn spec_subject(&self) -> Map<Seq<char>, Set<Seq<char>>> {
        self.subject_attrs@
    }

    /// The requested operation.
    pub closed spec fn spec_operation(&self) -> Seq<char> {
        self.operation@
    }

    /// The requested resource type.
    pub closed spec fn spec_resource_type(&self) -> Seq<char> {
        self.resource_type@
    }

    /// The resource's attributes.
    pub closed spec fn spec_resource(&self) -> Map<Seq<char>, Set<Seq<char>>> {
        self.resource_attrs@
    }

    /// Creates a request for `operation` on a resource of `resource_type`,
    /// with empty subject and resource attributes.
    pub fn new(operation: &str, resource_type: &str) -> (r: AccessRequest)
        ensures
            r.spec_operation() == operation@,
            r.spec_resource_type() == resource_type@,
            r.spec_subject() == Map::<Seq<char>, Set<Seq<char>>>::empty(),
            r.spec_resource() == Map::<Seq<char>, Set<Seq<char>>>::empty(),
    {
        AccessRequest {
            subject_attrs: AttrMap::new(),
            operation: operation.to_owned(),
            resource_type: resource_type.to_owned(),
            resource_attrs: AttrMap::new(),
        }
    }

    /// The requested operation.
    pub fn operation(&self) -> (r: &String)
        ensures
            r@ == self.spec_operation(),
    {
        &self.operation
    }

    /// The requested resource type.
    pub fn resource_type(&self) -> (r: &String)
        ensures
            r@ == self.spec_resource_type(),
    {
        &self.resource_type
    }

    /// The subject's attributes.
    pub fn subject_attributes(&self) -> (r: &AttrMap)
        ensures
            r@ == self.spec_subject(),
    {
        &self.subject_attrs
    }

    /// The resource's attributes.
    pub fn resource_attributes(&self) -> (r: &AttrMap)
        ensures
            r@ == self.spec_resource(),
    {
        &self.resource_attrs
    }

    /// Sets the subject's attributes (consuming setter).
    pub fn subject_attrs(self, attrs: AttrMap) -> (r: AccessRequest)
        ensures
            r.spec_subject() == attrs@,
            r.spec_operation() == self.spec_operation(),
            r.spec_resource_type() == self.spec_resource_type(),
            r.spec_resource() == self.spec_resource(),
    {
        AccessRequest { subject_attrs: attrs, ..self }
    }

    /// Sets the resource's attributes (consuming setter).
    pub fn resource_attrs(self, attrs: AttrMap) -> (r: AccessRequest)
        ensures
            r.spec_resource() == attrs@,
            r.spec_operation() == self.spec_operation(),
            r.spec_resource_type() == self.spec_resource_type(),
            r.spec_subject() == self.spec_subject(),
    {
        AccessRequest { resource_attrs: attrs, ..self }
    }
}

/// Evaluates whether the subject of `request` may perform the requested
/// operation on the described resource.
///
/// Returns `Allow` exactly when some user attribute matching the subject has
/// an association carrying the operation whose target reaches an object
/// attribute of the requested resource type that matches the resource: an
/// object attribute target directly (a dangling reference grants nothing),
/// a policy class target through the object attributes assigned to it.
/// Returns `Deny` otherwise (fail-closed).
#[verifier::loop_isolation(false)]
pub fn evaluate<V: PolicyView>(view: &V, request: &AccessRequest) -> (d: Decision)
    ensures
        (d == Decision::Allow) <==> allows(
            view,
            request.spec_subject(),
            request.spec_operation(),
            request.spec_resource_type(),
            request.spec_resource(),
        ),
{
    let ghost subj = request.subject_attrs@;
    let ghost op = request.operation@;
    let ghost rt = request.resource_type@;
    let ghost res = request.resource_attrs@;
    let uas = view.matching_uas(&request.subject_attrs);
    let mut i: usize = 0;
    while i < uas.len()
        invariant
            0 <= i <= uas@.len(),
            forall|k: int, a: Association, oa: ObjectAttribute|
                0 <= k < i && #[trigger] grant_path(view, subj, op, rt, *uas@[k], a, oa)
                    ==> !oa.matcher.spec_matches_resource(res, subj),
        decreases uas@.len() - i,
    {
        let ua = uas[i];
        let assocs = view.associations_for_ua(ua.id);
        let mut j: usize = 0;
        while j < assocs.len()
            invariant
                0 <= j <= assocs@.len(),
                forall|m: int, oa: ObjectAttribute|
                    0 <= m < j && grants_op(*assocs@[m], op) && #[trigger] reaches(
                        view,
                        assocs@[m].target,
                        rt,
                        oa,
                    ) ==> !oa.matcher.spec_matches_resource(res, subj),
            decreases assocs@.len() - j,
        {
            let a = assocs[j];
            if contains_str(&a.operations, &request.operation) {
                match &a.target {
                    AssociationTarget::ObjectAttribute(oa_id) => {
                        match view.get_oa(*oa_id) {
                            Some(oa) => {
                                if oa.resource_type == request.resource_type
                                    && oa.matcher.matches_resource(
                                    &request.resource_attrs,
                                    &request.subject_attrs,
                                ) {
                                    proof {
                                        assert(grant_path(view, subj, op, rt, *ua, *a, *oa));
                                        assert(candidate(view, subj, op, rt, *oa));
                                    }
                                    return Decision::Allow;
                                }
                            },
                            None => {},
                        }
                    },
                    AssociationTarget::PolicyClass(pc_id) => {
                        let oas = view.oas_for_pc(*pc_id, request.resource_type.as_str());
                        let mut k: usize = 0;
                        while k < oas.len()
                            invariant
                                0 <= k <= oas@.len(),
                                forall|m: int|
                                    0 <= m < k ==> !(#[trigger] oas@[m]).matcher.spec_matches_resource(
                                        res,
                                        subj,
                                    ),
                            decreases oas@.len() - k,
                        {
                            if oas[k].matcher.matches_resource(
                                &request.resource_attrs,
                                &request.subject_attrs,
                            ) {
                                proof {
                                    let oa = *oas@[k as int];
                                    assert(reaches(view, a.target, rt, oa));
                                    assert(grant_path(view, subj, op, rt, *ua, *a, oa));
                                    assert(candidate(view, subj, op, rt, oa));
                                }
                                return Decision::Allow;
                            }
                            k = k + 1;
                        }
                        proof {
                            assert forall|oa: ObjectAttribute|
                                #[trigger] reaches(view, a.target, rt, oa) implies !oa.matcher.spec_matches_resource(
                                res,
                                subj,
                            ) by {
                                let m = choose|m: int| 0 <= m < oas@.len() && *oas@[m] == oa;
                                assert(!oas@[m].matcher.spec_matches_resource(res, subj));
                            }
                        }
                    },
                }
            }
            j = j + 1;
        }
        proof {
            assert forall|a: Association, oa: ObjectAttribute|
                #[trigger] grant_path(view, subj, op, rt, *uas@[i as int], a, oa) implies !oa.matcher.spec_matches_resource(
                res,
                subj,
            ) by {
                assert(view.assoc_values().contains(a) && a.ua_id == ua.id);
                let m = choose|m: int| 0 <= m < assocs@.len() && *assocs@[m] == a;
                assert(reaches(view, assocs@[m].target, rt, oa));
            }
        }
        i = i + 1;
    }
    proof {
        if allows(view, subj, op, rt, res) {
            let oa = choose|oa: ObjectAttribute| #[trigger]
                candidate(view, subj, op, rt, oa) && oa.matcher.spec_matches_resource(res, subj);
            let (ua, a) = choose|ua: UserAttribute, a: Association| #[trigger]
                grant_path(view, subj, op, rt, ua, a, oa);
            assert(view.ua_values().contains(ua) && ua.matcher.spec_matches(subj));
            let k = choose|k: int| 0 <= k < uas@.len() && *uas@[k] == ua;
            assert(grant_path(view, subj, op, rt, *uas@[k], a, oa));
        }
    }
    Decision::Deny
}


/// A scope-resolution request for list-query filter injection.
///
/// The operation and resource type are constructor arguments; the subject's
/// attributes default to empty (fail-closed) until set.
#[derive(Debug, Clone)]
pub struct ScopeRequest {
    subject_attrs: AttrMap,
    operation: String,
    resource_type: String,
}

impl ScopeRequest {
    /// The subject's attributes.
    pub closed spec fn spec_subject(&self) -> Map<Seq<char>, Set<Seq<char>>> {
        self.subject_attrs@
    }

    /// The requested operation.
    pub closed spec fn spec_operation(&self) -> Seq<char> {
        self.operation@
    }

    /// The requested resource type.
    pub closed spec fn spec_resource_type(&self) -> Seq<char> {
        self.resource_type@
    }

    /// Creates a scope request for `operation` on resources of
    /// `resource_type`, with empty subject attributes.
    pub fn new(operation: &str, resource_type: &str) -> (r: ScopeRequest)
        ensures
            r.spec_operation() == operation@,
            r.spec_resource_type() == resource_type@,
            r.spec_subject() == Map::<Seq<char>, Set<Seq<char>>>::empty(),
    {
        ScopeRequest {
            subject_attrs: AttrMap::new(),
            operation: operation.to_owned(),
            resource_type: resource_type.to_owned(),
        }
    }

    /// Sets the subject's attributes (consuming setter).
    pub fn subject_attrs(self, attrs: AttrMap) -> (r: ScopeRequest)
        ensures
            r.spec_subject() == attrs@,
            r.spec_operation() == self.spec_operation(),
            r.spec_resource_type() == self.spec_resource_type(),
    {
        ScopeRequest { subject_attrs: attrs, ..self }
    }
}

/// One attribute constraint for list-query filter injection.
#[derive(Debug, Clone, PartialEq, Eq)]
pub enum ScopeConstraint {
    /// The resource's attribute `key` must have a value in `values`
    /// (translates to `key IN (values...)`).
    Attribute {
        /// The resource attribute key to filter on.
        key: String,
        /// The acceptable values for that key.
        values: Vec<String>,
    },
}

/// The resolved access scope for a subject, operation and resource type.
#[derive(Debug, Clone, PartialEq, Eq)]
pub enum AccessScope {
    /// No filter needed: the subject may access every resource of the type.
    Unrestricted,
    /// OR-combined constraints: a union of access paths, never an
    /// intersection. A resource is in scope when it satisfies at least one.
    Constrained(Vec<ScopeConstraint>),
    /// No access: the application should return an empty result set.
    NoAccess,
}

/// The key a non-wildcard matcher constrains: `key` for `Matching`,
/// `resource_key` for `Relative`.
pub open spec fn matcher_key(m: AttributeMatcher) -> Seq<char> {
    match m {
        AttributeMatcher::All => Seq::empty(),
        AttributeMatcher::Matching { key, .. } => key@,
        AttributeMatcher::Relative { resource_key, .. } => resource_key@,
    }
}

/// Whether `m` is a non-wildcard matcher constraining the resource key `k`.
pub open spec fn keyed(m: AttributeMatcher, k: Seq<char>) -> bool {
    !(m is All) && matcher_key(m) == k
}

/// Whether `m`, resolved for a subject with attributes `subject`, accepts
/// the value `v` for the resource key `k`: a `Matching` matcher on `k` lists
/// `v`; a `Relative` matcher on `k` finds `v` among the subject's values for
/// its subject key.
pub open spec fn keyed_value(
    m: AttributeMatcher,
    subject: Map<Seq<char>, Set<Seq<char>>>,
    k: Seq<char>,
    v: Seq<char>,
) -> bool {
    match m {
        AttributeMatcher::All => false,
        AttributeMatcher::Matching { key, values } => key@ == k && str_seq_has(values@, v),
        AttributeMatcher::Relative { resource_key, subject_key } => resource_key@ == k
            && subject.contains_key(subject_key@) && subject[subject_key@].contains(v),
    }
}

/// Whether the constraints `cs` are exactly the merged constraints of the
/// object attributes satisfying `cand`, resolved for the subject `subject`:
/// one constraint per distinct key, in no particular order, whose values
/// are the union (without repeats) of the values that every such object
/// attribute's matcher on that key accepts.
pub open spec fn merged_constraints(
    cand: spec_fn(ObjectAttribute) -> bool,
    subject: Map<Seq<char>, Set<Seq<char>>>,
    cs: Seq<ScopeConstraint>,
) -> bool {
    &&& forall|i: int, j: int|
        0 <= i < j < cs.len() ==> (#[trigger] cs[i])->key@ != (#[trigger] cs[j])->key@
    &&& forall|i: int| 0 <= i < cs.len() ==> #[trigger] key_reached(cand, cs[i]->key@)
    &&& forall|oa: ObjectAttribute, k: Seq<char>|
        #[trigger] cand(oa) && #[trigger] keyed(oa.matcher, k) ==> exists|i: int|
            0 <= i < cs.len() && (#[trigger] cs[i])->key@ == k
    &&& forall|i: int, v: Seq<char>|
        0 <= i < cs.len() ==> (#[trigger] str_seq_has(cs[i]->values@, v) <==> exists|
            oa: ObjectAttribute,
        | #[trigger] cand(oa) && keyed_value(oa.matcher, subject, cs[i]->key@, v))
    &&& forall|i: int| 0 <= i < cs.len() ==> str_set_distinct(#[trigger] cs[i]->values@)
}

/// Whether some object attribute satisfying `cand` has a non-wildcard
/// matcher on key `k`.
pub open spec fn key_reached(cand: spec_fn(ObjectAttribute) -> bool, k: Seq<char>) -> bool {
    exists|oa: ObjectAttribute| #[trigger] cand(oa) && keyed(oa.matcher, k)
}

/// `true` when no two elements of `s` have the same character sequence.
pub open spec fn str_set_distinct(s: Seq<String>) -> bool {
    crate::attrs::str_seq_distinct(s)
}

/// The character sequences of the strings of `s`, in order.
pub open spec fn str_views(s: Seq<String>) -> Seq<Seq<char>> {
    s.map_values(|x: String| x@)
}

/// `acc` followed by the elements of `src` that are new, in their order:
/// each element of `src` is appended unless it is already present.
pub open spec fn append_new(acc: Seq<Seq<char>>, src: Seq<Seq<char>>) -> Seq<Seq<char>>
    decreases src.len(),
{
    if src.len() == 0 {
        acc
    } else {
        let prev = append_new(acc, src.drop_last());
        if prev.contains(src.last()) {
            prev
        } else {
            prev.push(src.last())
        }
    }
}

/// The elements of `s` in first-seen order, repeats removed.
pub open spec fn first_seen(s: Seq<Seq<char>>) -> Seq<Seq<char>> {
    append_new(Seq::empty(), s)
}

/// Membership in the views of `s` is membership by character sequence.
proof fn lemma_str_views_contains(s: Seq<String>, v: Seq<char>)
    ensures
        str_views(s).contains(v) <==> str_seq_has(s, v),
{
    if str_views(s).contains(v) {
        let i = choose|i: int| 0 <= i < str_views(s).len() && str_views(s)[i] == v;
        assert(s[i]@ == v);
    }
    if str_seq_has(s, v) {
        let i = choose|i: int| 0 <= i < s.len() && (#[trigger] s[i])@ == v;
        assert(str_views(s)[i] == v);
    }
}

/// `append_new` keeps every element of `acc` and of `src`.
proof fn lemma_append_new_contains(acc: Seq<Seq<char>>, src: Seq<Seq<char>>)
    ensures
        forall|x: Seq<char>| #[trigger] acc.contains(x) ==> append_new(acc, src).contains(x),
        forall|i: int| 0 <= i < src.len() ==> append_new(acc, src).contains(#[trigger] src[i]),
    decreases src.len(),
{
    if src.len() > 0 {
        lemma_append_new_contains(acc, src.drop_last());
        let prev = append_new(acc, src.drop_last());
        assert forall|x: Seq<char>| #[trigger] prev.contains(x) implies append_new(acc, src).contains(x) by {
            if !prev.contains(src.last()) {
                let k = choose|k: int| 0 <= k < prev.len() && prev[k] == x;
                assert(prev.push(src.last())[k] == x);
            }
        }
        assert forall|i: int| 0 <= i < src.len() implies append_new(acc, src).contains(#[trigger] src[i]) by {
            if i < src.len() - 1 {
                assert(src.drop_last()[i] == src[i]);
                assert(prev.contains(src[i]));
            } else if !prev.contains(src.last()) {
                assert(prev.push(src.last())[prev.len() as int] == src.last());
            }
        }
    }
}

/// Appending elements that are all present already changes nothing.
proof fn lemma_append_new_present(acc: Seq<Seq<char>>, src: Seq<Seq<char>>)
    requires
        forall|i: int| 0 <= i < src.len() ==> acc.contains(#[trigger] src[i]),
    ensures
        append_new(acc, src) == acc,
    decreases src.len(),
{
    if src.len() > 0 {
        assert forall|i: int| 0 <= i < src.drop_last().len() implies acc.contains(
            #[trigger] src.drop_last()[i],
        ) by {
            assert(src.drop_last()[i] == src[i]);
        }
        lemma_append_new_present(acc, src.drop_last());
        assert(acc.contains(src[src.len() - 1]));
    }
}

/// Merging a sequence into its own first-seen order changes nothing.
proof fn lemma_first_seen_absorbs(s: Seq<Seq<char>>)
    ensures
        append_new(first_seen(s), s) == first_seen(s),
{
    lemma_append_new_contains(Seq::empty(), s);
    lemma_append_new_present(first_seen(s), s);
}

/// What `scope` returns for a subject, operation and resource type:
/// `Unrestricted` when some reachable object attribute has an `All`
/// matcher; `NoAccess` when no object attribute is reachable; otherwise the
/// merged constraints of the reachable object attributes.
pub open spec fn scope_result<V: PolicyView>(
    view: &V,
    subject: Map<Seq<char>, Set<Seq<char>>>,
    op: Seq<char>,
    rt: Seq<char>,
    s: AccessScope,
) -> bool {
    let cand = |oa: ObjectAttribute| candidate(view, subject, op, rt, oa);
    if exists|oa: ObjectAttribute| #[trigger] cand(oa) && oa.matcher is All {
        s == AccessScope::Unrestricted
    } else if !exists|oa: ObjectAttribute| #[trigger] cand(oa) {
        s == AccessScope::NoAccess
    } else {
        s matches AccessScope::Constrained(cs) && merged_constraints(cand, subject, cs@)
    }
}

/// Whether the scope `s` admits a resource with attributes `resource`.
pub open spec fn spec_admits(s: AccessScope, resource: Map<Seq<char>, Set<Seq<char>>>) -> bool {
    match s {
        AccessScope::Unrestricted => true,
        AccessScope::NoAccess => false,
        AccessScope::Constrained(cs) => exists|i: int|
            0 <= i < cs@.len() && #[trigger] shares_value(resource, cs@[i]->key@, cs@[i]->values@),
    }
}

impl AccessScope {
    /// Tests whether a resource with attributes `resource_attrs` is in this
    /// scope: always for `Unrestricted`, never for `NoAccess`, and for
    /// `Constrained` when the resource's value set for some constraint's key
    /// shares a value with that constraint's values.
    pub fn admits(&self, resource_attrs: &AttrMap) -> (r: bool)
        ensures
            r == spec_admits(*self, resource_attrs@),
    {
        match self {
            AccessScope::Unrestricted => true,
            AccessScope::NoAccess => false,
            AccessScope::Constrained(cs) => {
                let mut i: usize = 0;
                while i < cs.len()
                    invariant
                        0 <= i <= cs@.len(),
                        *self == AccessScope::Constrained(*cs),
                        forall|m: int|
                            0 <= m < i ==> !#[trigger] shares_value(
                                resource_attrs@,
                                cs@[m]->key@,
                                cs@[m]->values@,
                            ),
                    decreases cs@.len() - i,
                {
                    match &cs[i] {
                        ScopeConstraint::Attribute { key, values } => {
                            if resource_attrs.shares_value_with(key, values) {
                                proof {
                                    assert(shares_value(
                                        resource_attrs@,
                                        cs@[i as int]->key@,
                                        cs@[i as int]->values@,
                                    ));
                                    let ghost sc = *self;
                                    assert(sc matches AccessScope::Constrained(cs2) && cs2@ == cs@);
                                    assert(exists|j: int|
                                        0 <= j < cs@.len() && #[trigger] shares_value(
                                            resource_attrs@,
                                            cs@[j]->key@,
                                            cs@[j]->values@,
                                        ));
                                    assert(spec_admits(sc, resource_attrs@));
                                }
                                return true;
                            }
                        },
                    }
                    i = i + 1;
                }
                false
            },
        }
    }
}


/// Collects the object attributes reachable by the subject for the
/// operation and resource type, through user attribute → object attribute
/// associations and through policy class expansion.
#[verifier::loop_isolation(false)]
fn collect_candidates<'a, V: PolicyView>(
    view: &'a V,
    subject_attrs: &AttrMap,
    operation: &String,
    resource_type: &String,
) -> (r: Vec<&'a ObjectAttribute>)
    ensures
        forall|m: int|
            0 <= m < r@.len() ==> candidate(
                view,
                subject_attrs@,
                operation@,
                resource_type@,
                *r@[m],
            ),
        forall|oa: ObjectAttribute|
            #[trigger] candidate(view, subject_attrs@, operation@, resource_type@, oa)
                ==> r@.contains(&oa),
{
    let ghost subj = subject_attrs@;
    let ghost op = operation@;
    let ghost rt = resource_type@;
    let uas = view.matching_uas(subject_attrs);
    let mut cands: Vec<&ObjectAttribute> = Vec::new();
    let mut i: usize = 0;
    while i < uas.len()
        invariant
            0 <= i <= uas@.len(),
            forall|m: int| 0 <= m < cands@.len() ==> candidate(view, subj, op, rt, *cands@[m]),
            forall|k: int, a: Association, oa: ObjectAttribute|
                0 <= k < i && #[trigger] grant_path(view, subj, op, rt, *uas@[k], a, oa)
                    ==> cands@.contains(&oa),
        decreases uas@.len() - i,
    {
        let ua = uas[i];
        let assocs = view.associations_for_ua(ua.id);
        let mut j: usize = 0;
        while j < assocs.len()
            invariant
                0 <= j <= assocs@.len(),
                forall|m: int| 0 <= m < cands@.len() ==> candidate(view, subj, op, rt, *cands@[m]),
                forall|k: int, a: Association, oa: ObjectAttribute|
                    0 <= k < i && #[trigger] grant_path(view, subj, op, rt, *uas@[k], a, oa)
                        ==> cands@.contains(&oa),
                forall|m: int, oa: ObjectAttribute|
                    0 <= m < j && grants_op(*assocs@[m], op) && #[trigger] reaches(
                        view,
                        assocs@[m].target,
                        rt,
                        oa,
                    ) ==> cands@.contains(&oa),
            decreases assocs@.len() - j,
        {
            let a = assocs[j];
            if contains_str(&a.operations, operation) {
                match &a.target {
                    AssociationTarget::ObjectAttribute(oa_id) => {
                        match view.get_oa(*oa_id) {
                            Some(oa) => {
                                if oa.resource_type == *resource_type {
                                    proof {
                                        assert(grant_path(view, subj, op, rt, *ua, *a, *oa));
                                    }
                                    cands.push(oa);
                                }
                            },
                            None => {},
                        }
                    },
                    AssociationTarget::PolicyClass(pc_id) => {
                        let oas = view.oas_for_pc(*pc_id, resource_type.as_str());
                        let mut k: usize = 0;
                        let ghost before = cands@;
                        while k < oas.len()
                            invariant
                                0 <= k <= oas@.len(),
                                cands@ == before + oas@.take(k as int),
                                forall|m: int|
                                    0 <= m < cands@.len() ==> candidate(
                                        view,
                                        subj,
                                        op,
                                        rt,
                                        *cands@[m],
                                    ),
                            decreases oas@.len() - k,
                        {
                            proof {
                                let oa = *oas@[k as int];
                                assert(reaches(view, a.target, rt, oa));
                                assert(grant_path(view, subj, op, rt, *ua, *a, oa));
                            }
                            cands.push(oas[k]);
                            proof {
                                assert(cands@ =~= before + oas@.take(k + 1));
                            }
                            k = k + 1;
                        }
                        proof {
                            assert(oas@.take(k as int) =~= oas@);
                            assert forall|x: &ObjectAttribute| #[trigger]
                                before.contains(x) implies cands@.contains(x) by {
                                let m = choose|m: int| 0 <= m < before.len() && before[m] == x;
                                assert(cands@[m] == x);
                            }
                            assert forall|oa: ObjectAttribute|
                                #[trigger] reaches(view, a.target, rt, oa) implies cands@.contains(
                                &oa,
                            ) by {
                                let m = choose|m: int| 0 <= m < oas@.len() && *oas@[m] == oa;
                                assert(cands@[before.len() + m] == oas@[m]);
                            }
                        }
                    },
                }
            }
            j = j + 1;
        }
        proof {
            assert forall|a: Association, oa: ObjectAttribute|
                #[trigger] grant_path(view, subj, op, rt, *uas@[i as int], a, oa) implies cands@.contains(
                &oa,
            ) by {
                assert(view.assoc_values().contains(a) && a.ua_id == ua.id);
                let m = choose|m: int| 0 <= m < assocs@.len() && *assocs@[m] == a;
                assert(reaches(view, assocs@[m].target, rt, oa));
            }
        }
        i = i + 1;
    }
    proof {
        assert forall|oa: ObjectAttribute|
            #[trigger] candidate(view, subj, op, rt, oa) implies cands@.contains(&oa) by {
            let (ua, a) = choose|ua: UserAttribute, a: Association| #[trigger]
                grant_path(view, subj, op, rt, ua, a, oa);
            let k = choose|k: int| 0 <= k < uas@.len() && *uas@[k] == ua;
            assert(grant_path(view, subj, op, rt, *uas@[k], a, oa));
        }
    }
    cands
}


/// Whether some object attribute in `cands` has an `All` matcher.
fn find_all(cands: &Vec<&ObjectAttribute>) -> (r: bool)
    ensures
        r == exists|m: int| 0 <= m < cands@.len() && (#[trigger] cands@[m]).matcher is All,
{
    let mut i: usize = 0;
    while i < cands.len()
        invariant
            0 <= i <= cands@.len(),
            forall|m: int| 0 <= m < i ==> !((#[trigger] cands@[m]).matcher is All),
        decreases cands@.len() - i,
    {
        match &cands[i].matcher {
            AttributeMatcher::All => {
                return true;
            },
            _ => {},
        }
        i = i + 1;
    }
    false
}

/// Whether some object attribute of `cands` has a non-wildcard matcher on
/// `k`.
pub open spec fn key_origin(cands: Seq<&ObjectAttribute>, k: Seq<char>) -> bool {
    exists|m: int| 0 <= m < cands.len() && #[trigger] keyed(cands[m].matcher, k)
}

/// The resource key that `m` constrains, `None` for the wildcard.
fn constraint_key(m: &AttributeMatcher) -> (r: Option<&String>)
    ensures
        match r {
            Some(k) => !(*m is All) && k@ == matcher_key(*m),
            None => *m is All,
        },
{
    match m {
        AttributeMatcher::All => None,
        AttributeMatcher::Matching { key, .. } => Some(key),
        AttributeMatcher::Relative { resource_key, .. } => Some(resource_key),
    }
}

/// The distinct keys that the non-wildcard matchers in `cands` constrain,
/// in first-seen order.
fn distinct_keys(cands: &Vec<&ObjectAttribute>) -> (keys: Vec<String>)
    ensures
        str_set_distinct(keys@),
        forall|q: int|
            0 <= q < keys@.len() ==> #[trigger] key_origin(cands@, keys@[q]@),
        forall|m: int, k: Seq<char>|
            0 <= m < cands@.len() && #[trigger] keyed(cands@[m].matcher, k) ==> str_seq_has(
                keys@,
                k,
            ),
{
    let mut keys: Vec<String> = Vec::new();
    let ghost mut origin: Seq<int> = Seq::empty();
    let mut i: usize = 0;
    while i < cands.len()
        invariant
            0 <= i <= cands@.len(),
            str_set_distinct(keys@),
            origin.len() == keys@.len(),
            forall|q: int|
                #![trigger origin[q]]
                0 <= q < keys@.len() ==> 0 <= origin[q] < i && keyed(
                    cands@[origin[q]].matcher,
                    keys@[q]@,
                ),
            forall|m: int, k: Seq<char>|
                0 <= m < i && #[trigger] keyed(cands@[m].matcher, k) ==> str_seq_has(keys@, k),
        decreases cands@.len() - i,
    {
        match constraint_key(&cands[i].matcher) {
            None => {},
            Some(key) => {
                if !contains_str(&keys, key) {
                    let ghost before = keys@;
                    keys.push(key.clone());
                    proof {
                        let ghost old_origin = origin;
                        origin = origin.push(i as int);
                        assert(keyed(cands@[i as int].matcher, key@));
                        assert(keys@[before.len() as int] == *key);
                        assert forall|q: int|
                            #![trigger origin[q]]
                            0 <= q < keys@.len() implies 0 <= origin[q] < i + 1 && keyed(
                                cands@[origin[q]].matcher,
                                keys@[q]@,
                            ) by {
                            if q < before.len() {
                                assert(keys@[q] == before[q]);
                                assert(origin[q] == old_origin[q]);
                            }
                        }
                        assert forall|m: int, k: Seq<char>|
                            0 <= m < i + 1 && #[trigger] keyed(cands@[m].matcher, k) implies str_seq_has(
                            keys@,
                            k,
                        ) by {
                            if m < i {
                                let q = choose|q: int| 0 <= q < before.len() && before[q]@ == k;
                                assert(keys@[q] == before[q]);
                            } else {
                                assert(keys@[before.len() as int]@ == k);
                            }
                        }
                    }
                } else {
                    proof {
                        assert forall|m: int, k: Seq<char>|
                            0 <= m < i + 1 && #[trigger] keyed(cands@[m].matcher, k) implies str_seq_has(
                            keys@,
                            k,
                        ) by {
                            if m == i {
                                assert(k == key@);
                            }
                        }
                    }
                }
            },
        }
        i = i + 1;
    }
    proof {
        assert forall|q: int| 0 <= q < keys@.len() implies #[trigger] key_origin(cands@, keys@[q]@) by {
            let m = origin[q];
            assert(0 <= m < cands@.len());
            assert(keyed(cands@[m].matcher, keys@[q]@));
        }
    }
    keys
}

/// Appends to `vals` each string of `src` that `vals` does not hold yet.
fn add_all_distinct(vals: &mut Vec<String>, src: &Vec<String>)
    requires
        str_set_distinct(old(vals)@),
    ensures
        str_set_distinct(final(vals)@),
        forall|v: Seq<char>|
            #[trigger] str_seq_has(final(vals)@, v) <==> (str_seq_has(old(vals)@, v) || str_seq_has(
                src@,
                v,
            )),
        str_views(final(vals)@) == append_new(str_views(old(vals)@), str_views(src@)),
{
    let ghost orig = vals@;
    let mut j: usize = 0;
    while j < src.len()
        invariant
            0 <= j <= src@.len(),
            str_set_distinct(vals@),
            forall|v: Seq<char>|
                #[trigger] str_seq_has(vals@, v) <==> (str_seq_has(orig, v) || str_seq_has(
                    src@.take(j as int),
                    v,
                )),
            str_views(vals@) == append_new(str_views(orig), str_views(src@.take(j as int))),
        decreases src@.len() - j,
    {
        let ghost before = vals@;
        proof {
            let sv = str_views(src@.take(j + 1));
            assert(sv.drop_last() =~= str_views(src@.take(j as int)));
            assert(sv.last() == src@[j as int]@);
            lemma_str_views_contains(before, src@[j as int]@);
        }
        if !contains_str(vals, &src[j]) {
            vals.push(src[j].clone());
            proof {
                assert forall|a: int, b: int|
                    0 <= a < b < vals@.len() implies (#[trigger] vals@[a])@ != (#[trigger] vals@[b])@ by {
                    if b == before.len() {
                        assert(vals@[a] == before[a]);
                    } else {
                        assert(vals@[a] == before[a] && vals@[b] == before[b]);
                    }
                }
            }
        }
        proof {
            assert(src@.take(j + 1) =~= src@.take(j as int).push(src@[j as int]));
            assert forall|v: Seq<char>|
                #[trigger] str_seq_has(vals@, v) <==> (str_seq_has(orig, v) || str_seq_has(
                    src@.take(j + 1),
                    v,
                )) by {
                let t = src@.take(j as int);
                let t1 = src@.take(j + 1);
                if str_seq_has(t, v) {
                    let p = choose|p: int| 0 <= p < t.len() && (#[trigger] t[p])@ == v;
                    assert(t1[p] == t[p]);
                }
                if str_seq_has(t1, v) {
                    let p = choose|p: int| 0 <= p < t1.len() && (#[trigger] t1[p])@ == v;
                    if p < j {
                        assert(t[p] == t1[p]);
                    } else {
                        assert(t1[p] == src@[j as int]);
                    }
                }
                if str_seq_has(before, v) {
                    let q = choose|q: int| 0 <= q < before.len() && (#[trigger] before[q])@ == v;
                    assert(vals@[q] == before[q]);
                }
                if str_seq_has(vals@, v) && !str_seq_has(before, v) {
                    let q = choose|q: int| 0 <= q < vals@.len() && (#[trigger] vals@[q])@ == v;
                    if q < before.len() {
                        assert(vals@[q] == before[q]);
                    }
                    assert(vals@[q] == src@[j as int]);
                    assert(t1[j as int] == src@[j as int]);
                }
                if v == src@[j as int]@ && !str_seq_has(before, v) {
                    assert(vals@[before.len() as int] == src@[j as int]);
                }
            }
            assert(str_views(vals@) =~= append_new(str_views(orig), str_views(src@.take(j + 1))));
        }
        j = j + 1;
    }
    proof {
        assert(src@.take(j as int) =~= src@);
    }
}

/// Whether `cands` is non-empty and every one of its object attributes has
/// the same `Matching` matcher, on the key `key`.
pub open spec fn uniform_matching(cands: Seq<&ObjectAttribute>, key: Seq<char>) -> bool {
    &&& cands.len() > 0
    &&& forall|m: int| 0 <= m < cands.len() ==> (#[trigger] cands[m]).matcher == cands[0].matcher
    &&& cands[0].matcher is Matching
    &&& cands[0].matcher->key@ == key
}

/// The union of the values that the matchers in `cands` constraining `key`
/// accept, resolved for the subject `subject`, without repeats, in
/// first-seen order.
fn merged_values(cands: &Vec<&ObjectAttribute>, key: &String, subject: &AttrMap) -> (vals: Vec<
    String,
>)
    ensures
        str_set_distinct(vals@),
        forall|v: Seq<char>|
            #[trigger] str_seq_has(vals@, v) <==> exists|m: int|
                0 <= m < cands@.len() && #[trigger] keyed_value(
                    cands@[m].matcher,
                    subject@,
                    key@,
                    v,
                ),
        uniform_matching(cands@, key@) ==> str_views(vals@) == first_seen(
            str_views(cands@[0].matcher->values@),
        ),
{
    let ghost uniform = uniform_matching(cands@, key@);
    let mut vals: Vec<String> = Vec::new();
    let mut i: usize = 0;
    while i < cands.len()
        invariant
            0 <= i <= cands@.len(),
            uniform == uniform_matching(cands@, key@),
            uniform && i == 0 ==> vals@.len() == 0,
            uniform && i > 0 ==> str_views(vals@) == first_seen(
                str_views(cands@[0].matcher->values@),
            ),
            str_set_distinct(vals@),
            forall|v: Seq<char>|
                #[trigger] str_seq_has(vals@, v) <==> exists|m: int|
                    0 <= m < i && #[trigger] keyed_value(cands@[m].matcher, subject@, key@, v),
        decreases cands@.len() - i,
    {
        let ghost before = vals@;
        let ghost mi = cands@[i as int].matcher;
        match &cands[i].matcher {
            AttributeMatcher::All => {},
            AttributeMatcher::Matching { key: k, values } => {
                if *k == *key {
                    add_all_distinct(&mut vals, values);
                    proof {
                        if uniform {
                            assert(cands@[i as int].matcher == cands@[0].matcher);
                            let vs = str_views(cands@[0].matcher->values@);
                            if i == 0 {
                                assert(str_views(before) =~= Seq::<Seq<char>>::empty());
                            } else {
                                lemma_first_seen_absorbs(vs);
                            }
                        }
                    }
                }
            },
            AttributeMatcher::Relative { resource_key, subject_key } => {
                if *resource_key == *key {
                    let subject_values = subject.values_of(subject_key);
                    add_all_distinct(&mut vals, &subject_values);
                }
            },
        }
        proof {
            assert forall|v: Seq<char>|
                #[trigger] str_seq_has(vals@, v) <==> exists|m: int|
                    0 <= m < i + 1 && #[trigger] keyed_value(cands@[m].matcher, subject@, key@, v) by {
                if str_seq_has(vals@, v) && !str_seq_has(before, v) {
                    assert(keyed_value(mi, subject@, key@, v));
                }
                if keyed_value(mi, subject@, key@, v) {
                    assert(str_seq_has(vals@, v));
                }
            }
        }
        i = i + 1;
    }
    vals
}

/// Resolves the access scope of the subject of `request` for the requested
/// operation and resource type, for list-query filter injection.
///
/// Collects every object attribute reachable through a user attribute
/// matching the subject and an association carrying the operation (a policy
/// class target stands for the object attributes of the resource type
/// assigned to it). Returns `Unrestricted` when one of them has an `All`
/// matcher, `NoAccess` when there is none, and otherwise one constraint per
/// distinct constrained key whose values are the union of the values the
/// matchers on that key accept; a `Relative` matcher is resolved against
/// the subject's values for its subject key. Keys and values come in
/// first-seen order; in particular, when the only reachable object
/// attribute has a `Matching` matcher, its values keep their listed order,
/// repeats removed.
pub fn scope<V: PolicyView>(view: &V, request: &ScopeRequest) -> (r: AccessScope)
    ensures
        scope_result(
            view,
            request.spec_subject(),
            request.spec_operation(),
            request.spec_resource_type(),
            r,
        ),
        sole_matching_scope(
            view,
            request.spec_subject(),
            request.spec_operation(),
            request.spec_resource_type(),
            r,
        ),
{
    resolve_scope(view, &request.subject_attrs, &request.operation, &request.resource_type)
}

/// Whether `s` is, when exactly one object attribute is reachable and its
/// matcher is `Matching { key, values }`, the single constraint on `key`
/// whose values are the matcher's values in their listed order, repeats
/// removed.
pub open spec fn sole_matching_scope<V: PolicyView>(
    view: &V,
    subject: Map<Seq<char>, Set<Seq<char>>>,
    op: Seq<char>,
    rt: Seq<char>,
    s: AccessScope,
) -> bool {
    forall|oa: ObjectAttribute|
        #[trigger] candidate(view, subject, op, rt, oa) && oa.matcher is Matching && (forall|
            o: ObjectAttribute,
        | #[trigger] candidate(view, subject, op, rt, o) ==> o == oa) ==> {
            &&& s is Constrained
            &&& s->Constrained_0@.len() == 1
            &&& s->Constrained_0@[0]->key@ == oa.matcher->key@
            &&& str_views(s->Constrained_0@[0]->values@) == first_seen(
                str_views(oa.matcher->values@),
            )
        }
}

/// The scope of a subject with attributes `subject_attrs` for `operation`
/// on resources of `resource_type`, as `scope` resolves it.
fn resolve_scope<V: PolicyView>(
    view: &V,
    subject_attrs: &AttrMap,
    operation: &String,
    resource_type: &String,
) -> (r: AccessScope)
    ensures
        scope_result(view, subject_attrs@, operation@, resource_type@, r),
        sole_matching_scope(view, subject_attrs@, operation@, resource_type@, r),
{
    let ghost subj = subject_attrs@;
    let ghost op = operation@;
    let ghost rt = resource_type@;
    let ghost cand = |oa: ObjectAttribute| candidate(view, subj, op, rt, oa);
    let cands = collect_candidates(
        view,
        subject_attrs,
        operation,
        resource_type,
    );
    if find_all(&cands) {
        proof {
            let m = choose|m: int| 0 <= m < cands@.len() && (#[trigger] cands@[m]).matcher is All;
            assert(cand(*cands@[m]) && cands@[m].matcher is All);
            assert forall|oa: ObjectAttribute|
                #[trigger] candidate(view, subj, op, rt, oa) && oa.matcher is Matching implies !(
                forall|o: ObjectAttribute| #[trigger] candidate(view, subj, op, rt, o) ==> o == oa) by {
                assert(candidate(view, subj, op, rt, *cands@[m]));
            }
        }
        return AccessScope::Unrestricted;
    }
    proof {
        assert forall|oa: ObjectAttribute| #[trigger] cand(oa) implies !(oa.matcher is All) by {
            assert(cands@.contains(&oa));
        }
    }
    let keys = distinct_keys(&cands);
    let ghost sole = exists|oa: ObjectAttribute|
        #[trigger] cand(oa) && oa.matcher is Matching && (forall|o: ObjectAttribute|
            #[trigger] cand(o) ==> o == oa);
    let ghost oa0 = choose|oa: ObjectAttribute|
        #[trigger] cand(oa) && oa.matcher is Matching && (forall|o: ObjectAttribute|
            #[trigger] cand(o) ==> o == oa);
    proof {
        if sole {
            assert forall|m: int| 0 <= m < cands@.len() implies *cands@[m] == oa0 by {
                assert(cand(*cands@[m]));
            }
            assert(cands@.contains(&oa0));
            assert forall|p: int| 0 <= p < keys@.len() implies keys@[p]@ == oa0.matcher->key@ by {
                assert(key_origin(cands@, keys@[p]@));
                let m = choose|m: int| 0 <= m < cands@.len() && #[trigger] keyed(cands@[m].matcher, keys@[p]@);
                assert(*cands@[m] == oa0);
            }
            let m0 = choose|m: int| 0 <= m < cands@.len() && cands@[m] == &oa0;
            assert(keyed(cands@[m0].matcher, oa0.matcher->key@));
            if keys@.len() > 1 {
                assert(keys@[0]@ == keys@[1]@);
            }
        }
    }
    if keys.len() == 0 {
        proof {
            assert forall|oa: ObjectAttribute| !#[trigger] cand(oa) by {
                if cand(oa) {
                    assert(cands@.contains(&oa));
                    let m = choose|m: int| 0 <= m < cands@.len() && cands@[m] == &oa;
                    assert(keyed(cands@[m].matcher, matcher_key(oa.matcher)));
                }
            }
            assert forall|oa: ObjectAttribute| !#[trigger] candidate(view, subj, op, rt, oa) by {
                assert(!cand(oa));
            }
        }
        return AccessScope::NoAccess;
    }
    let mut constraints: Vec<ScopeConstraint> = Vec::new();
    let mut q: usize = 0;
    while q < keys.len()
        invariant
            0 <= q <= keys@.len(),
            constraints@.len() == q,
            subj == subject_attrs@,
            sole ==> keys@.len() == 1 && cands@.len() > 0 && (forall|m: int|
                0 <= m < cands@.len() ==> *cands@[m] == oa0) && oa0.matcher is Matching && (forall|
                p: int,
            | 0 <= p < keys@.len() ==> keys@[p]@ == oa0.matcher->key@) && (forall|p: int|
                0 <= p < q ==> str_views(constraints@[p]->values@) == first_seen(
                    str_views(oa0.matcher->values@),
                )),
            forall|p: int|
                #![trigger constraints@[p]]
                0 <= p < q ==> constraints@[p]->key@ == keys@[p]@ && str_set_distinct(
                    constraints@[p]->values@,
                ) && forall|v: Seq<char>|
                    #[trigger] str_seq_has(constraints@[p]->values@, v) <==> exists|m: int|
                        0 <= m < cands@.len() && #[trigger] keyed_value(
                            cands@[m].matcher,
                            subj,
                            keys@[p]@,
                            v,
                        ),
        decreases keys@.len() - q,
    {
        let values = merged_values(&cands, &keys[q], subject_attrs);
        proof {
            if sole {
                assert(cands@[0] == &oa0);
                assert(uniform_matching(cands@, keys@[q as int]@));
            }
        }
        let ghost before = constraints@;
        constraints.push(ScopeConstraint::Attribute { key: keys[q].clone(), values });
        proof {
            if sole {
                assert forall|p: int| 0 <= p < q + 1 implies str_views(constraints@[p]->values@)
                    == first_seen(str_views(oa0.matcher->values@)) by {
                    if p < q {
                        assert(constraints@[p] == before[p]);
                    }
                }
            }
        }
        q = q + 1;
    }
    proof {
        let cs = constraints@;
        assert forall|i: int, j: int| 0 <= i < j < cs.len() implies (#[trigger] cs[i])->key@ != (
        #[trigger] cs[j])->key@ by {
            assert(keys@[i]@ != keys@[j]@);
        }
        assert forall|i: int| 0 <= i < cs.len() implies #[trigger] key_reached(cand, cs[i]->key@) by {
            assert(key_origin(cands@, keys@[i]@));
            let m = choose|m: int| 0 <= m < cands@.len() && #[trigger] keyed(cands@[m].matcher, keys@[i]@);
            assert(cand(*cands@[m]));
            assert(keyed(cands@[m].matcher, cs[i]->key@));
        }
        assert forall|oa: ObjectAttribute, k: Seq<char>|
            #[trigger] cand(oa) && #[trigger] keyed(oa.matcher, k) implies exists|i: int|
            0 <= i < cs.len() && (#[trigger] cs[i])->key@ == k by {
            assert(cands@.contains(&oa));
            let m = choose|m: int| 0 <= m < cands@.len() && cands@[m] == &oa;
            assert(keyed(cands@[m].matcher, k));
            let p = choose|p: int| 0 <= p < keys@.len() && keys@[p]@ == k;
            assert(cs[p]->key@ == k);
        }
        assert forall|i: int, v: Seq<char>|
            0 <= i < cs.len() implies (#[trigger] str_seq_has(cs[i]->values@, v) <==> exists|
                oa: ObjectAttribute,
            | #[trigger] cand(oa) && keyed_value(oa.matcher, subj, cs[i]->key@, v)) by {
            if str_seq_has(cs[i]->values@, v) {
                let m = choose|m: int|
                    0 <= m < cands@.len() && #[trigger] keyed_value(cands@[m].matcher, subj, keys@[i]@, v);
                assert(cand(*cands@[m]));
                assert(keyed_value(cands@[m].matcher, subj, cs[i]->key@, v));
            }
            if exists|oa: ObjectAttribute| #[trigger]
                cand(oa) && keyed_value(oa.matcher, subj, cs[i]->key@, v) {
                let oa = choose|oa: ObjectAttribute| #[trigger]
                    cand(oa) && keyed_value(oa.matcher, subj, cs[i]->key@, v);
                assert(cands@.contains(&oa));
                let m = choose|m: int| 0 <= m < cands@.len() && cands@[m] == &oa;
                assert(keyed_value(cands@[m].matcher, subj, keys@[i]@, v));
            }
        }
        assert forall|i: int| 0 <= i < cs.len() implies str_set_distinct(#[trigger] cs[i]->values@) by {
            assert(str_set_distinct(cs[i]->values@));
        }
        assert(merged_constraints(cand, subj, cs));
        assert(key_origin(cands@, keys@[0]@));
        let m = choose|m: int| 0 <= m < cands@.len() && #[trigger] keyed(cands@[m].matcher, keys@[0]@);
        assert(cand(*cands@[m]));
    }
    AccessScope::Constrained(constraints)
}

/// One entry of an access enumeration: an operation on a resource type and
/// the scope the subject holds for it.
#[derive(Debug, Clone, PartialEq, Eq)]
pub struct Reach {
    /// The operation.
    pub operation: String,
    /// The resource type.
    pub resource_type: String,
    /// The subject's scope for the operation on the resource type.
    pub scope: AccessScope,
}

/// Whether the subject reaches some object attribute for `op` on resources
/// of type `rt`.
pub open spec fn reaches_some<V: PolicyView>(
    view: &V,
    subject: Map<Seq<char>, Set<Seq<char>>>,
    op: Seq<char>,
    rt: Seq<char>,
) -> bool {
    exists|oa: ObjectAttribute| #[trigger] candidate(view, subject, op, rt, oa)
}

/// The operation and resource type of a vocabulary entry.
pub open spec fn entry_key(e: (String, String)) -> (Seq<char>, Seq<char>) {
    (e.0@, e.1@)
}

/// The operation and resource type of an enumeration entry.
pub open spec fn reach_key(r: Reach) -> (Seq<char>, Seq<char>) {
    (r.operation@, r.resource_type@)
}

/// Enumerates what a subject with attributes `subject_attrs` can reach:
/// `scope` swept over `vocabulary`, a list of `(operation, resource type)`
/// pairs. Keeps, in vocabulary order, every pair whose scope is not
/// `NoAccess`, with that scope.
pub fn reachable<V: PolicyView>(
    view: &V,
    subject_attrs: &AttrMap,
    vocabulary: &Vec<(String, String)>,
) -> (r: Vec<Reach>)
    ensures
        r@.map_values(|x: Reach| reach_key(x)) == vocabulary@.map_values(
            |e: (String, String)| entry_key(e),
        ).filter(|k: (Seq<char>, Seq<char>)| reaches_some(view, subject_attrs@, k.0, k.1)),
        forall|i: int|
            #![trigger r@[i]]
            0 <= i < r@.len() ==> scope_result(
                view,
                subject_attrs@,
                r@[i].operation@,
                r@[i].resource_type@,
                r@[i].scope,
            ),
{
    let ghost keyf = |e: (String, String)| entry_key(e);
    let ghost pred = |k: (Seq<char>, Seq<char>)| reaches_some(view, subject_attrs@, k.0, k.1);
    let ghost rk = |x: Reach| reach_key(x);
    let mut r: Vec<Reach> = Vec::new();
    let mut i: usize = 0;
    while i < vocabulary.len()
        invariant
            0 <= i <= vocabulary@.len(),
            keyf == (|e: (String, String)| entry_key(e)),
            pred == (|k: (Seq<char>, Seq<char>)| reaches_some(view, subject_attrs@, k.0, k.1)),
            rk == (|x: Reach| reach_key(x)),
            r@.map_values(rk) == vocabulary@.take(i as int).map_values(keyf).filter(pred),
            forall|m: int|
                #![trigger r@[m]]
                0 <= m < r@.len() ==> scope_result(
                    view,
                    subject_attrs@,
                    r@[m].operation@,
                    r@[m].resource_type@,
                    r@[m].scope,
                ),
        decreases vocabulary@.len() - i,
    {
        let op = &vocabulary[i].0;
        let rt = &vocabulary[i].1;
        let s = resolve_scope(view, subject_attrs, op, rt);
        let ghost e = vocabulary@[i as int];
        proof {
            assert(vocabulary@.take(i + 1).map_values(keyf) =~= vocabulary@.take(
                i as int,
            ).map_values(keyf).push(keyf(e)));
            lemma_filter_push(vocabulary@.take(i as int).map_values(keyf), keyf(e), pred);
            assert(keyf(e) == (op@, rt@));
        }
        match s {
            AccessScope::NoAccess => {
                proof {
                    if reaches_some(view, subject_attrs@, op@, rt@) {
                        let oa = choose|oa: ObjectAttribute| #[trigger]
                            candidate(view, subject_attrs@, op@, rt@, oa);
                        assert((|oa: ObjectAttribute| candidate(view, subject_attrs@, op@, rt@, oa))(oa));
                    }
                    assert(!pred(keyf(e)));
                }
            },
            _ => {
                let ghost before = r@;
                proof {
                    assert(reaches_some(view, subject_attrs@, op@, rt@));
                    assert(pred(keyf(e)));
                }
                r.push(Reach { operation: op.clone(), resource_type: rt.clone(), scope: s });
                proof {
                    assert(r@.map_values(rk) =~= before.map_values(rk).push(keyf(e)));
                }
            },
        }
        i = i + 1;
    }
    proof {
        assert(vocabulary@.take(i as int) =~= vocabulary@);
    }
    r
}

/// A non-wildcard matcher admits a resource exactly when the resource's
/// value set for the matcher's key holds a value that the matcher, resolved
/// for the subject, accepts.
proof fn lemma_matches_through_key(
    m: AttributeMatcher,
    resource: Map<Seq<char>, Set<Seq<char>>>,
    subject: Map<Seq<char>, Set<Seq<char>>>,
)
    requires
        !(m is All),
    ensures
        m.spec_matches_resource(resource, subject) <==> (resource.contains_key(matcher_key(m))
            && exists|v: Seq<char>| #[trigger]
            resource[matcher_key(m)].contains(v) && keyed_value(m, subject, matcher_key(m), v)),
{
    let k = matcher_key(m);
    if m.spec_matches_resource(resource, subject) {
        match m {
            AttributeMatcher::All => {},
            AttributeMatcher::Matching { key, values } => {
                let v = choose|v: Seq<char>| #[trigger]
                    resource[key@].contains(v) && str_seq_has(values@, v);
                assert(keyed_value(m, subject, k, v));
            },
            AttributeMatcher::Relative { resource_key, subject_key } => {
                let v = choose|v: Seq<char>| #[trigger]
                    resource[resource_key@].contains(v) && subject[subject_key@].contains(v);
                assert(keyed_value(m, subject, k, v));
            },
        }
    }
    if resource.contains_key(k) && exists|v: Seq<char>| #[trigger]
        resource[k].contains(v) && keyed_value(m, subject, k, v) {
        let v = choose|v: Seq<char>| #[trigger] resource[k].contains(v) && keyed_value(m, subject, k, v);
        match m {
            AttributeMatcher::All => {},
            AttributeMatcher::Matching { key, values } => {
                assert(resource[key@].contains(v) && str_seq_has(values@, v));
            },
            AttributeMatcher::Relative { resource_key, subject_key } => {
                assert(resource[resource_key@].contains(v) && subject[subject_key@].contains(v));
            },
        }
    }
}

/// Scope soundness: for every subject, operation and resource type, a
/// resource is admitted by the scope that `scope` resolves exactly when
/// `evaluate` allows the subject the operation on that resource.
pub proof fn lemma_scope_agrees_with_evaluate<V: PolicyView>(
    view: &V,
    subject: Map<Seq<char>, Set<Seq<char>>>,
    op: Seq<char>,
    rt: Seq<char>,
    s: AccessScope,
    resource: Map<Seq<char>, Set<Seq<char>>>,
)
    requires
        scope_result(view, subject, op, rt, s),
    ensures
        spec_admits(s, resource) <==> allows(view, subject, op, rt, resource),
{
    let cand = |oa: ObjectAttribute| candidate(view, subject, op, rt, oa);
    if exists|oa: ObjectAttribute| #[trigger] cand(oa) && oa.matcher is All {
        let oa = choose|oa: ObjectAttribute| #[trigger] cand(oa) && oa.matcher is All;
        assert(candidate(view, subject, op, rt, oa) && oa.matcher.spec_matches_resource(
            resource,
            subject,
        ));
    } else if !exists|oa: ObjectAttribute| #[trigger] cand(oa) {
        assert(!allows(view, subject, op, rt, resource)) by {
            if allows(view, subject, op, rt, resource) {
                let oa = choose|oa: ObjectAttribute| #[trigger]
                    candidate(view, subject, op, rt, oa) && oa.matcher.spec_matches_resource(
                        resource,
                        subject,
                    );
                assert(cand(oa));
            }
        }
    } else {
        let cs = s->Constrained_0@;
        assert(merged_constraints(cand, subject, cs));
        if spec_admits(s, resource) {
            let i = choose|i: int|
                0 <= i < cs.len() && #[trigger] shares_value(resource, cs[i]->key@, cs[i]->values@);
            let v = choose|v: Seq<char>| #[trigger]
                resource[cs[i]->key@].contains(v) && str_seq_has(cs[i]->values@, v);
            assert(str_seq_has(cs[i]->values@, v));
            let oa = choose|oa: ObjectAttribute| #[trigger]
                cand(oa) && keyed_value(oa.matcher, subject, cs[i]->key@, v);
            assert(!(oa.matcher is All));
            assert(matcher_key(oa.matcher) == cs[i]->key@);
            lemma_matches_through_key(oa.matcher, resource, subject);
            assert(oa.matcher.spec_matches_resource(resource, subject));
            assert(candidate(view, subject, op, rt, oa));
        }
        if allows(view, subject, op, rt, resource) {
            let oa = choose|oa: ObjectAttribute| #[trigger]
                candidate(view, subject, op, rt, oa) && oa.matcher.spec_matches_resource(
                    resource,
                    subject,
                );
            assert(cand(oa));
            assert(!(oa.matcher is All));
            let k = matcher_key(oa.matcher);
            assert(keyed(oa.matcher, k));
            let i = choose|i: int| 0 <= i < cs.len() && (#[trigger] cs[i])->key@ == k;
            lemma_matches_through_key(oa.matcher, resource, subject);
            let v = choose|v: Seq<char>| #[trigger]
                resource[k].contains(v) && keyed_value(oa.matcher, subject, k, v);
            assert(keyed_value(oa.matcher, subject, cs[i]->key@, v));
            assert(str_seq_has(cs[i]->values@, v));
            assert(shares_value(resource, cs[i]->key@, cs[i]->values@));
        }
    }
}

/// A key mapped to an empty value set behaves exactly like an absent key,
/// in a subject's attributes and in a resource's: no matcher tells the two
/// apart.
pub proof fn lemma_empty_value_set_is_absent_key(
    m: AttributeMatcher,
    attrs: Map<Seq<char>, Set<Seq<char>>>,
    other: Map<Seq<char>, Set<Seq<char>>>,
    k: Seq<char>,
)
    ensures
        m.spec_matches(attrs.insert(k, Set::empty())) == m.spec_matches(attrs.remove(k)),
        m.spec_matches_resource(attrs.insert(k, Set::empty()), other) == m.spec_matches_resource(
            attrs.remove(k),
            other,
        ),
        m.spec_matches_resource(other, attrs.insert(k, Set::empty())) == m.spec_matches_resource(
            other,
            attrs.remove(k),
        ),
{
    let with_empty = attrs.insert(k, Set::<Seq<char>>::empty());
    let without = attrs.remove(k);
    assert forall|j: Seq<char>| j != k implies with_empty.contains_key(j) == without.contains_key(j)
        && (with_empty.contains_key(j) ==> with_empty[j] == without[j]) by {}
    match m {
        AttributeMatcher::All => {},
        AttributeMatcher::Matching { key, values } => {
            if key@ == k {
                assert(!shares_value(with_empty, key@, values@));
            } else {
                assert(with_empty.contains_key(key@) == without.contains_key(key@));
            }
        },
        AttributeMatcher::Relative { resource_key, subject_key } => {
            if resource_key@ == k {
                assert(!co_member(with_empty, resource_key@, other, subject_key@));
            } else {
                assert(with_empty.contains_key(resource_key@) == without.contains_key(resource_key@));
            }
            if subject_key@ == k {
                assert(!co_member(other, resource_key@, with_empty, subject_key@));
            } else {
                assert(with_empty.contains_key(subject_key@) == without.contains_key(subject_key@));
            }
        },
    }
}

/// The `All` matcher admits every attribute map, the empty map included;
/// every other matcher admits no empty subject and no empty resource.
pub proof fn lemma_matcher_on_empty_map(
    m: AttributeMatcher,
    attrs: Map<Seq<char>, Set<Seq<char>>>,
    other: Map<Seq<char>, Set<Seq<char>>>,
)
    ensures
        m is All ==> m.spec_matches(attrs) && m.spec_matches_resource(attrs, other),
        !(m is All) ==> !m.spec_matches(Map::empty()),
        !(m is All) ==> !m.spec_matches_resource(Map::empty(), other),
{
}

/// A policy class grant stands for grants to the object attributes assigned
/// to the class: it reaches exactly the object attributes that an object
/// attribute grant to one of the assigned object attributes would reach.
pub proof fn lemma_pc_grant_is_union_of_oa_grants<V: PolicyView>(
    view: &V,
    pc_id: NodeId,
    rt: Seq<char>,
    oa: ObjectAttribute,
)
    ensures
        reaches(view, AssociationTarget::PolicyClass(pc_id), rt, oa) <==> exists|oa_id: NodeId|
            #[trigger] view.oa_pc_edges().contains((oa_id, pc_id)) && reaches(
                view,
                AssociationTarget::ObjectAttribute(oa_id),
                rt,
                oa,
            ),
{
}

/// Fail-closed: when no user attribute matches the subject, no resource is
/// allowed and the scope is `NoAccess`.
pub proof fn lemma_no_matching_ua_grants_nothing<V: PolicyView>(
    view: &V,
    subject: Map<Seq<char>, Set<Seq<char>>>,
    op: Seq<char>,
    rt: Seq<char>,
    resource: Map<Seq<char>, Set<Seq<char>>>,
    s: AccessScope,
)
    requires
        forall|ua: UserAttribute| #[trigger] view.ua_values().contains(ua) ==> !ua.matcher.spec_matches(subject),
    ensures
        !allows(view, subject, op, rt, resource),
        scope_result(view, subject, op, rt, s) ==> s == AccessScope::NoAccess,
{
    assert forall|oa: ObjectAttribute| !#[trigger] candidate(view, subject, op, rt, oa) by {
        if candidate(view, subject, op, rt, oa) {
            let (ua, a) = choose|ua: UserAttribute, a: Association| #[trigger]
                grant_path(view, subject, op, rt, ua, a, oa);
        }
    }
}


/// A resolved scope is never an empty `Constrained`: a `Constrained` scope
/// carries at least one constraint, so "no access" is always `NoAccess`.
pub proof fn lemma_constrained_scope_is_nonempty<V: PolicyView>(
    view: &V,
    subject: Map<Seq<char>, Set<Seq<char>>>,
    op: Seq<char>,
    rt: Seq<char>,
    s: AccessScope,
)
    requires
        scope_result(view, subject, op, rt, s),
    ensures
        s matches AccessScope::Constrained(cs) ==> cs@.len() > 0,
{
    let cand = |oa: ObjectAttribute| candidate(view, subject, op, rt, oa);
    if let AccessScope::Constrained(cs) = s {
        let oa = choose|oa: ObjectAttribute| #[trigger] cand(oa);
        assert(!(oa.matcher is All));
        let k = matcher_key(oa.matcher);
        assert(keyed(oa.matcher, k));
        let i = choose|i: int| 0 <= i < cs@.len() && (#[trigger] cs@[i])->key@ == k;
    }
}


/// Enumeration completeness: whenever `evaluate` allows a subject an
/// operation on some resource of a type, the pair is one that `reachable`
/// keeps for the subject.
pub proof fn lemma_allowed_pairs_are_reachable<V: PolicyView>(
    view: &V,
    subject: Map<Seq<char>, Set<Seq<char>>>,
    op: Seq<char>,
    rt: Seq<char>,
    resource: Map<Seq<char>, Set<Seq<char>>>,
)
    ensures
        allows(view, subject, op, rt, resource) ==> reaches_some(view, subject, op, rt),
{
}

} // verus!
