use std::collections::HashSet;

use sentinel_core::{
    AccessRequest, Association, AssociationTarget, AttrMap, AttributeMatcher, Decision, NodeId,
    ObjectAttribute, PolicyClass, PolicyGraph, PolicyView, UserAttribute,
};
use uuid::Uuid;

/// A fresh random node id.
fn new_id() -> NodeId {
    Uuid::new_v4().as_u128()
}

/// Builds a multi-valued attribute map from key-value pairs.
fn attrs(pairs: &[(&str, &[&str])]) -> AttrMap {
    let mut m = AttrMap::new();
    for (k, vs) in pairs {
        m.insert(k.to_string(), vs.iter().map(|v| v.to_string()).collect());
    }
    m
}

fn ops(names: &[&str]) -> Vec<String> {
    names.iter().map(|s| s.to_string()).collect()
}

fn has_op(a: &Association, op: &str) -> bool {
    a.operations.contains(&op.to_string())
}

// --- AttributeMatcher::All tests ---

#[test]
fn all_matcher_matches_empty_attrs() {
    let matcher = AttributeMatcher::All;
    assert!(matcher.matches(&AttrMap::new()));
}

#[test]
fn all_matcher_matches_any_attrs() {
    let matcher = AttributeMatcher::All;
    let attrs = attrs(&[("key", &["value"])]);
    assert!(matcher.matches(&attrs));
}

// --- AttributeMatcher::Matching tests ---

#[test]
fn matching_matcher_matches_when_key_and_value_present() {
    let matcher = AttributeMatcher::Matching {
        key: "org_id".to_string(),
        values: vec!["alpha".to_string()],
    };
    let attrs = attrs(&[("org_id", &["alpha"])]);
    assert!(matcher.matches(&attrs));
}

#[test]
fn matching_matcher_no_match_when_key_missing() {
    let matcher = AttributeMatcher::Matching {
        key: "org_id".to_string(),
        values: vec!["alpha".to_string()],
    };
    let attrs = attrs(&[("other", &["alpha"])]);
    assert!(!matcher.matches(&attrs));
}

#[test]
fn matching_matcher_no_match_when_value_differs() {
    let matcher = AttributeMatcher::Matching {
        key: "org_id".to_string(),
        values: vec!["alpha".to_string()],
    };
    let attrs = attrs(&[("org_id", &["beta"])]);
    assert!(!matcher.matches(&attrs));
}

#[test]
fn matching_matcher_matches_any_of_multiple_values() {
    let matcher = AttributeMatcher::Matching {
        key: "org_id".to_string(),
        values: vec!["alpha".to_string(), "beta".to_string()],
    };
    let attrs = attrs(&[("org_id", &["beta"])]);
    assert!(matcher.matches(&attrs));
}

#[test]
fn matching_matcher_no_match_on_empty_attrs() {
    let matcher = AttributeMatcher::Matching {
        key: "org_id".to_string(),
        values: vec!["alpha".to_string()],
    };
    assert!(!matcher.matches(&AttrMap::new()));
}

#[test]
fn matching_matcher_no_match_with_empty_values() {
    let matcher = AttributeMatcher::Matching {
        key: "org_id".to_string(),
        values: vec![],
    };
    let attrs = attrs(&[("org_id", &["alpha"])]);
    assert!(!matcher.matches(&attrs));
}

// --- multi-valued intersection semantics ---

#[test]
fn matches_multivalued_intersection_match() {
    let matcher = AttributeMatcher::Matching {
        key: "org_id".to_string(),
        values: vec!["alpha".to_string()],
    };
    assert!(matcher.matches(&attrs(&[("org_id", &["alpha", "beta"])])));
}

#[test]
fn matches_multivalued_disjoint_no_match() {
    let matcher = AttributeMatcher::Matching {
        key: "org_id".to_string(),
        values: vec!["alpha".to_string()],
    };
    assert!(!matcher.matches(&attrs(&[("org_id", &["gamma"])])));
}

#[test]
fn matches_empty_set_no_match() {
    let matcher = AttributeMatcher::Matching {
        key: "org_id".to_string(),
        values: vec!["alpha".to_string()],
    };
    assert!(!matcher.matches(&attrs(&[("org_id", &[])])));
}

#[test]
fn all_matcher_unchanged_with_multivalued_signature() {
    let matcher = AttributeMatcher::All;
    assert!(matcher.matches(&AttrMap::new()));
    assert!(matcher.matches(&attrs(&[("org_id", &["alpha", "beta"])])));
}

#[test]
fn matching_uas_multivalued_subject_intersection() {
    let mut graph = PolicyGraph::new();
    let ua = UserAttribute {
        id: new_id(),
        name: "org_alpha_members".to_string(),
        matcher: AttributeMatcher::Matching {
            key: "org_id".to_string(),
            values: vec!["alpha".to_string()],
        },
    };
    graph.add_ua(ua.clone());
    let subject = attrs(&[("org_id", &["alpha", "beta"])]);
    let matching = graph.matching_uas(&subject);
    assert_eq!(matching.len(), 1);
    assert_eq!(matching[0].id, ua.id);
}

// --- PartialEq tests ---

#[test]
fn all_matchers_are_equal() {
    assert_eq!(AttributeMatcher::All, AttributeMatcher::All);
}

#[test]
fn matching_matchers_equal_with_same_fields() {
    let m1 = AttributeMatcher::Matching {
        key: "k".to_string(),
        values: vec!["v".to_string()],
    };
    let m2 = AttributeMatcher::Matching {
        key: "k".to_string(),
        values: vec!["v".to_string()],
    };
    assert_eq!(m1, m2);
}

#[test]
fn different_matchers_not_equal() {
    let all = AttributeMatcher::All;
    let matching = AttributeMatcher::Matching {
        key: "k".to_string(),
        values: vec!["v".to_string()],
    };
    assert_ne!(all, matching);
}

#[test]
fn matching_matchers_not_equal_with_different_keys() {
    let m1 = AttributeMatcher::Matching {
        key: "k1".to_string(),
        values: vec!["v".to_string()],
    };
    let m2 = AttributeMatcher::Matching {
        key: "k2".to_string(),
        values: vec!["v".to_string()],
    };
    assert_ne!(m1, m2);
}

// --- UserAttribute tests ---

#[test]
fn user_attribute_construction_with_all_matcher() {
    let id = new_id();
    let ua = UserAttribute {
        id,
        name: "admins".to_string(),
        matcher: AttributeMatcher::All,
    };
    assert_eq!(ua.id, id);
    assert_eq!(ua.name, "admins");
    assert_eq!(ua.matcher, AttributeMatcher::All);
}

#[test]
fn user_attribute_construction_with_matching_matcher() {
    let id = new_id();
    let ua = UserAttribute {
        id,
        name: "org_alpha_members".to_string(),
        matcher: AttributeMatcher::Matching {
            key: "org_id".to_string(),
            values: vec!["alpha".to_string()],
        },
    };
    assert_eq!(ua.id, id);
    assert_eq!(ua.name, "org_alpha_members");
    assert_eq!(
        ua.matcher,
        AttributeMatcher::Matching {
            key: "org_id".to_string(),
            values: vec!["alpha".to_string()],
        }
    );
}

#[test]
fn user_attribute_clone() {
    let ua = UserAttribute {
        id: new_id(),
        name: "admins".to_string(),
        matcher: AttributeMatcher::All,
    };
    let cloned = ua.clone();
    assert_eq!(cloned.id, ua.id);
    assert_eq!(cloned.name, ua.name);
}

#[test]
fn user_attribute_debug() {
    let ua = UserAttribute {
        id: new_id(),
        name: "admins".to_string(),
        matcher: AttributeMatcher::All,
    };
    let debug_str = format!("{:?}", ua);
    assert!(debug_str.contains("UserAttribute"));
    assert!(debug_str.contains("admins"));
}

// --- ObjectAttribute tests ---

#[test]
fn object_attribute_construction() {
    let id = new_id();
    let oa = ObjectAttribute {
        id,
        name: "alpha_jobs".to_string(),
        resource_type: "job".to_string(),
        matcher: AttributeMatcher::Matching {
            key: "organization_id".to_string(),
            values: vec!["alpha-id".to_string()],
        },
    };
    assert_eq!(oa.id, id);
    assert_eq!(oa.name, "alpha_jobs");
    assert_eq!(oa.resource_type, "job");
    assert_eq!(
        oa.matcher,
        AttributeMatcher::Matching {
            key: "organization_id".to_string(),
            values: vec!["alpha-id".to_string()],
        }
    );
}

#[test]
fn object_attribute_with_all_matcher() {
    let oa = ObjectAttribute {
        id: new_id(),
        name: "all_jobs".to_string(),
        resource_type: "job".to_string(),
        matcher: AttributeMatcher::All,
    };
    assert_eq!(oa.resource_type, "job");
    assert_eq!(oa.matcher, AttributeMatcher::All);
}

#[test]
fn object_attribute_clone() {
    let oa = ObjectAttribute {
        id: new_id(),
        name: "alpha_jobs".to_string(),
        resource_type: "job".to_string(),
        matcher: AttributeMatcher::All,
    };
    let cloned = oa.clone();
    assert_eq!(cloned.id, oa.id);
    assert_eq!(cloned.name, oa.name);
    assert_eq!(cloned.resource_type, oa.resource_type);
}

#[test]
fn object_attribute_debug() {
    let oa = ObjectAttribute {
        id: new_id(),
        name: "alpha_jobs".to_string(),
        resource_type: "job".to_string(),
        matcher: AttributeMatcher::All,
    };
    let debug_str = format!("{:?}", oa);
    assert!(debug_str.contains("ObjectAttribute"));
    assert!(debug_str.contains("alpha_jobs"));
    assert!(debug_str.contains("job"));
}

// --- PolicyClass tests ---

#[test]
fn policy_class_construction() {
    let id = new_id();
    let pc = PolicyClass {
        id,
        name: "platform_policy".to_string(),
    };
    assert_eq!(pc.id, id);
    assert_eq!(pc.name, "platform_policy");
}

#[test]
fn policy_class_clone() {
    let pc = PolicyClass {
        id: new_id(),
        name: "org_policy".to_string(),
    };
    let cloned = pc.clone();
    assert_eq!(cloned.id, pc.id);
    assert_eq!(cloned.name, pc.name);
}

#[test]
fn policy_class_debug() {
    let pc = PolicyClass {
        id: new_id(),
        name: "platform_policy".to_string(),
    };
    let debug_str = format!("{:?}", pc);
    assert!(debug_str.contains("PolicyClass"));
    assert!(debug_str.contains("platform_policy"));
}

// --- AssociationTarget tests ---

#[test]
fn association_target_object_attribute_variant() {
    let oa_id = new_id();
    let target = AssociationTarget::ObjectAttribute(oa_id);
    assert_eq!(target, AssociationTarget::ObjectAttribute(oa_id));
}

#[test]
fn association_target_policy_class_variant() {
    let pc_id = new_id();
    let target = AssociationTarget::PolicyClass(pc_id);
    assert_eq!(target, AssociationTarget::PolicyClass(pc_id));
}

#[test]
fn association_target_equality() {
    let id = new_id();
    let t1 = AssociationTarget::ObjectAttribute(id);
    let t2 = AssociationTarget::ObjectAttribute(id);
    let t3 = AssociationTarget::PolicyClass(id);
    assert_eq!(t1, t2);
    assert_ne!(t1, t3);
}

#[test]
fn association_target_clone() {
    let target = AssociationTarget::ObjectAttribute(new_id());
    let cloned = target.clone();
    assert_eq!(target, cloned);
}

#[test]
fn association_target_debug() {
    let target = AssociationTarget::PolicyClass(new_id());
    let debug_str = format!("{:?}", target);
    assert!(debug_str.contains("PolicyClass"));
}

// --- Association tests ---

#[test]
fn association_construction() {
    let ua_id = new_id();
    let oa_id = new_id();
    let operations = ops(&["read", "write"]);
    let assoc = Association {
        ua_id,
        target: AssociationTarget::ObjectAttribute(oa_id),
        operations: operations.clone(),
    };
    assert_eq!(assoc.ua_id, ua_id);
    assert_eq!(assoc.target, AssociationTarget::ObjectAttribute(oa_id));
    assert_eq!(assoc.operations, operations);
}

#[test]
fn association_with_policy_class_target() {
    let ua_id = new_id();
    let pc_id = new_id();
    let operations = ops(&["admin"]);
    let assoc = Association {
        ua_id,
        target: AssociationTarget::PolicyClass(pc_id),
        operations: operations.clone(),
    };
    assert_eq!(assoc.target, AssociationTarget::PolicyClass(pc_id));
    assert_eq!(assoc.operations, operations);
}

#[test]
fn association_with_empty_operations() {
    let assoc = Association {
        ua_id: new_id(),
        target: AssociationTarget::ObjectAttribute(new_id()),
        operations: Vec::new(),
    };
    assert!(assoc.operations.is_empty());
}

#[test]
fn association_clone() {
    let assoc = Association {
        ua_id: new_id(),
        target: AssociationTarget::ObjectAttribute(new_id()),
        operations: ops(&["read"]),
    };
    let cloned = assoc.clone();
    assert_eq!(cloned.ua_id, assoc.ua_id);
    assert_eq!(cloned.target, assoc.target);
    assert_eq!(cloned.operations, assoc.operations);
}

#[test]
fn association_debug() {
    let assoc = Association {
        ua_id: new_id(),
        target: AssociationTarget::ObjectAttribute(new_id()),
        operations: ops(&["read"]),
    };
    let debug_str = format!("{:?}", assoc);
    assert!(debug_str.contains("Association"));
    assert!(debug_str.contains("read"));
}

// --- PolicyGraph::new() tests ---

#[test]
fn policy_graph_new_creates_empty_graph() {
    let graph = PolicyGraph::new();
    let subject_attrs = AttrMap::new();
    let matching = graph.matching_uas(&subject_attrs);
    assert!(matching.is_empty());
}

#[test]
fn policy_graph_new_has_no_associations() {
    let graph = PolicyGraph::new();
    let ua_id = new_id();
    let assocs = graph.associations_for_ua(ua_id);
    assert!(assocs.is_empty());
}

#[test]
fn policy_graph_new_get_oa_returns_none() {
    let graph = PolicyGraph::new();
    assert!(graph.get_oa(new_id()).is_none());
}

#[test]
fn policy_graph_new_oas_for_pc_returns_empty() {
    let graph = PolicyGraph::new();
    let pc_id = new_id();
    let oas = graph.oas_for_pc(pc_id, "job");
    assert!(oas.is_empty());
}

#[test]
fn policy_graph_debug() {
    let graph = PolicyGraph::new();
    let debug_str = format!("{:?}", graph);
    assert!(debug_str.contains("PolicyGraph"));
}

#[test]
fn policy_graph_clone() {
    let graph = PolicyGraph::new();
    let cloned = graph.clone();
    assert!(cloned.matching_uas(&AttrMap::new()).is_empty());
}

#[test]
fn policy_graph_default() {
    let graph = PolicyGraph::default();
    assert!(graph.matching_uas(&AttrMap::new()).is_empty());
}

// --- add_ua tests ---

#[test]
fn add_ua_inserts_user_attribute() {
    let mut graph = PolicyGraph::new();
    let ua = UserAttribute {
        id: new_id(),
        name: "admins".to_string(),
        matcher: AttributeMatcher::All,
    };
    graph.add_ua(ua.clone());
    let attrs = AttrMap::new();
    let matching = graph.matching_uas(&attrs);
    assert_eq!(matching.len(), 1);
    assert_eq!(matching[0].id, ua.id);
    assert_eq!(matching[0].name, "admins");
}

#[test]
fn add_ua_overwrites_existing_with_same_id() {
    let mut graph = PolicyGraph::new();
    let id = new_id();
    let ua1 = UserAttribute {
        id,
        name: "original".to_string(),
        matcher: AttributeMatcher::All,
    };
    let ua2 = UserAttribute {
        id,
        name: "updated".to_string(),
        matcher: AttributeMatcher::All,
    };
    graph.add_ua(ua1);
    graph.add_ua(ua2);
    let matching = graph.matching_uas(&AttrMap::new());
    assert_eq!(matching.len(), 1);
    assert_eq!(matching[0].name, "updated");
}

// --- add_oa tests ---

#[test]
fn add_oa_inserts_object_attribute() {
    let mut graph = PolicyGraph::new();
    let oa = ObjectAttribute {
        id: new_id(),
        name: "alpha_jobs".to_string(),
        resource_type: "job".to_string(),
        matcher: AttributeMatcher::All,
    };
    graph.add_oa(oa.clone());
    let found = graph.get_oa(oa.id);
    assert!(found.is_some());
    assert_eq!(found.unwrap().name, "alpha_jobs");
}

#[test]
fn add_oa_overwrites_existing_with_same_id() {
    let mut graph = PolicyGraph::new();
    let id = new_id();
    let oa1 = ObjectAttribute {
        id,
        name: "original".to_string(),
        resource_type: "job".to_string(),
        matcher: AttributeMatcher::All,
    };
    let oa2 = ObjectAttribute {
        id,
        name: "updated".to_string(),
        resource_type: "job".to_string(),
        matcher: AttributeMatcher::All,
    };
    graph.add_oa(oa1);
    graph.add_oa(oa2);
    let found = graph.get_oa(id).unwrap();
    assert_eq!(found.name, "updated");
}

// --- add_pc tests ---

#[test]
fn add_pc_inserts_policy_class() {
    let mut graph = PolicyGraph::new();
    let pc = PolicyClass {
        id: new_id(),
        name: "platform_policy".to_string(),
    };
    let oa = ObjectAttribute {
        id: new_id(),
        name: "all_jobs".to_string(),
        resource_type: "job".to_string(),
        matcher: AttributeMatcher::All,
    };
    graph.add_pc(pc.clone());
    graph.add_oa(oa.clone());
    graph.assign_oa_to_pc(oa.id, pc.id);
    let oas = graph.oas_for_pc(pc.id, "job");
    assert_eq!(oas.len(), 1);
    assert_eq!(oas[0].id, oa.id);
}

#[test]
fn add_pc_overwrites_existing_with_same_id() {
    let mut graph = PolicyGraph::new();
    let id = new_id();
    let pc1 = PolicyClass {
        id,
        name: "original".to_string(),
    };
    let pc2 = PolicyClass {
        id,
        name: "updated".to_string(),
    };
    graph.add_pc(pc1);
    graph.add_pc(pc2);
    assert_eq!(graph.pc_count(), 1);
    assert_eq!(graph.get_pc(id).unwrap().name, "updated");
}

// --- add_association tests ---

#[test]
fn add_association_appends_association() {
    let mut graph = PolicyGraph::new();
    let ua_id = new_id();
    let oa_id = new_id();
    let assoc = Association {
        ua_id,
        target: AssociationTarget::ObjectAttribute(oa_id),
        operations: ops(&["read"]),
    };
    graph.add_association(assoc);
    let found = graph.associations_for_ua(ua_id);
    assert_eq!(found.len(), 1);
    assert_eq!(found[0].target, AssociationTarget::ObjectAttribute(oa_id));
    assert!(has_op(found[0], "read"));
}

#[test]
fn add_association_allows_multiple_for_same_ua() {
    let mut graph = PolicyGraph::new();
    let ua_id = new_id();
    let oa_id1 = new_id();
    let oa_id2 = new_id();
    graph.add_association(Association {
        ua_id,
        target: AssociationTarget::ObjectAttribute(oa_id1),
        operations: ops(&["read"]),
    });
    graph.add_association(Association {
        ua_id,
        target: AssociationTarget::ObjectAttribute(oa_id2),
        operations: ops(&["write"]),
    });
    let found = graph.associations_for_ua(ua_id);
    assert_eq!(found.len(), 2);
}

#[test]
fn add_association_with_policy_class_target() {
    let mut graph = PolicyGraph::new();
    let ua_id = new_id();
    let pc_id = new_id();
    let assoc = Association {
        ua_id,
        target: AssociationTarget::PolicyClass(pc_id),
        operations: ops(&["admin"]),
    };
    graph.add_association(assoc);
    let found = graph.associations_for_ua(ua_id);
    assert_eq!(found.len(), 1);
    assert_eq!(found[0].target, AssociationTarget::PolicyClass(pc_id));
}

#[test]
fn add_association_duplicate_upserts_replacing_existing() {
    let mut graph = PolicyGraph::new();
    let ua_id = new_id();
    let oa_id = new_id();
    graph.add_association(Association {
        ua_id,
        target: AssociationTarget::ObjectAttribute(oa_id),
        operations: ops(&["read"]),
    });
    graph.add_association(Association {
        ua_id,
        target: AssociationTarget::ObjectAttribute(oa_id),
        operations: ops(&["write"]),
    });
    let found = graph.associations_for_ua(ua_id);
    assert_eq!(found.len(), 1);
    assert!(has_op(found[0], "write"));
    assert!(!has_op(found[0], "read"));
}

#[test]
fn add_association_same_target_upserts_second_wins() {
    let mut graph = PolicyGraph::new();
    let ua_id = new_id();
    let oa_id = new_id();
    graph.add_association(Association {
        ua_id,
        target: AssociationTarget::ObjectAttribute(oa_id),
        operations: ops(&["read"]),
    });
    graph.add_association(Association {
        ua_id,
        target: AssociationTarget::ObjectAttribute(oa_id),
        operations: ops(&["write"]),
    });
    let found = graph.associations_for_ua(ua_id);
    assert_eq!(found.len(), 1);
    assert!(has_op(found[0], "write"));
    assert!(!has_op(found[0], "read"));
}

// --- remove_association tests ---

#[test]
fn remove_association_removes_matching_association() {
    let mut graph = PolicyGraph::new();
    let ua_id = new_id();
    let oa_id = new_id();
    graph.add_association(Association {
        ua_id,
        target: AssociationTarget::ObjectAttribute(oa_id),
        operations: ops(&["read"]),
    });
    graph.remove_association(ua_id, &AssociationTarget::ObjectAttribute(oa_id));
    let found = graph.associations_for_ua(ua_id);
    assert!(found.is_empty());
}

#[test]
fn remove_association_leaves_other_associations_intact() {
    let mut graph = PolicyGraph::new();
    let ua_id = new_id();
    let oa_id1 = new_id();
    let oa_id2 = new_id();
    graph.add_association(Association {
        ua_id,
        target: AssociationTarget::ObjectAttribute(oa_id1),
        operations: ops(&["read"]),
    });
    graph.add_association(Association {
        ua_id,
        target: AssociationTarget::ObjectAttribute(oa_id2),
        operations: ops(&["write"]),
    });
    graph.remove_association(ua_id, &AssociationTarget::ObjectAttribute(oa_id1));
    let found = graph.associations_for_ua(ua_id);
    assert_eq!(found.len(), 1);
    assert_eq!(found[0].target, AssociationTarget::ObjectAttribute(oa_id2));
}

#[test]
fn remove_association_noop_when_not_found() {
    let mut graph = PolicyGraph::new();
    let ua_id = new_id();
    let oa_id = new_id();
    graph.remove_association(ua_id, &AssociationTarget::ObjectAttribute(oa_id));
    assert!(graph.associations_for_ua(ua_id).is_empty());
}

#[test]
fn remove_association_matches_on_both_ua_id_and_target() {
    let mut graph = PolicyGraph::new();
    let ua_id1 = new_id();
    let ua_id2 = new_id();
    let oa_id = new_id();
    graph.add_association(Association {
        ua_id: ua_id1,
        target: AssociationTarget::ObjectAttribute(oa_id),
        operations: ops(&["read"]),
    });
    graph.add_association(Association {
        ua_id: ua_id2,
        target: AssociationTarget::ObjectAttribute(oa_id),
        operations: ops(&["write"]),
    });
    graph.remove_association(ua_id1, &AssociationTarget::ObjectAttribute(oa_id));
    assert!(graph.associations_for_ua(ua_id1).is_empty());
    assert_eq!(graph.associations_for_ua(ua_id2).len(), 1);
}

// --- assign_oa_to_pc tests ---

fn job_oa(name: &str) -> ObjectAttribute {
    ObjectAttribute {
        id: new_id(),
        name: name.to_string(),
        resource_type: "job".to_string(),
        matcher: AttributeMatcher::All,
    }
}

fn pc(name: &str) -> PolicyClass {
    PolicyClass {
        id: new_id(),
        name: name.to_string(),
    }
}

#[test]
fn assign_oa_to_pc_creates_assignment() {
    let mut graph = PolicyGraph::new();
    let oa = job_oa("alpha_jobs");
    let pc = pc("platform_policy");
    graph.add_oa(oa.clone());
    graph.add_pc(pc.clone());
    graph.assign_oa_to_pc(oa.id, pc.id);
    let oas = graph.oas_for_pc(pc.id, "job");
    assert_eq!(oas.len(), 1);
    assert_eq!(oas[0].id, oa.id);
}

#[test]
fn assign_oa_to_pc_duplicate_is_noop() {
    let mut graph = PolicyGraph::new();
    let oa = job_oa("alpha_jobs");
    let pc = pc("platform_policy");
    graph.add_oa(oa.clone());
    graph.add_pc(pc.clone());
    graph.assign_oa_to_pc(oa.id, pc.id);
    graph.assign_oa_to_pc(oa.id, pc.id);
    let oas = graph.oas_for_pc(pc.id, "job");
    assert_eq!(oas.len(), 1);
}

#[test]
fn assign_multiple_oas_to_same_pc() {
    let mut graph = PolicyGraph::new();
    let oa1 = job_oa("alpha_jobs");
    let oa2 = job_oa("beta_jobs");
    let pc = pc("platform_policy");
    graph.add_oa(oa1.clone());
    graph.add_oa(oa2.clone());
    graph.add_pc(pc.clone());
    graph.assign_oa_to_pc(oa1.id, pc.id);
    graph.assign_oa_to_pc(oa2.id, pc.id);
    let oas = graph.oas_for_pc(pc.id, "job");
    assert_eq!(oas.len(), 2);
}

// --- unassign_oa_from_pc tests ---

#[test]
fn unassign_oa_from_pc_removes_assignment() {
    let mut graph = PolicyGraph::new();
    let oa = job_oa("alpha_jobs");
    let pc = pc("platform_policy");
    graph.add_oa(oa.clone());
    graph.add_pc(pc.clone());
    graph.assign_oa_to_pc(oa.id, pc.id);
    graph.unassign_oa_from_pc(oa.id, pc.id);
    let oas = graph.oas_for_pc(pc.id, "job");
    assert!(oas.is_empty());
}

#[test]
fn unassign_oa_from_pc_noop_when_not_assigned() {
    let mut graph = PolicyGraph::new();
    let oa_id = new_id();
    let pc_id = new_id();
    graph.unassign_oa_from_pc(oa_id, pc_id);
    assert!(graph.oas_for_pc(pc_id, "job").is_empty());
}

#[test]
fn unassign_oa_from_pc_leaves_other_assignments_intact() {
    let mut graph = PolicyGraph::new();
    let oa1 = job_oa("alpha_jobs");
    let oa2 = job_oa("beta_jobs");
    let pc = pc("platform_policy");
    graph.add_oa(oa1.clone());
    graph.add_oa(oa2.clone());
    graph.add_pc(pc.clone());
    graph.assign_oa_to_pc(oa1.id, pc.id);
    graph.assign_oa_to_pc(oa2.id, pc.id);
    graph.unassign_oa_from_pc(oa1.id, pc.id);
    let oas = graph.oas_for_pc(pc.id, "job");
    assert_eq!(oas.len(), 1);
    assert_eq!(oas[0].id, oa2.id);
}

// --- matching_uas query tests ---

fn matching_ua(name: &str, key: &str, values: &[&str]) -> UserAttribute {
    UserAttribute {
        id: new_id(),
        name: name.to_string(),
        matcher: AttributeMatcher::Matching {
            key: key.to_string(),
            values: values.iter().map(|v| v.to_string()).collect(),
        },
    }
}

fn matching_oa(name: &str, rt: &str, key: &str, values: &[&str]) -> ObjectAttribute {
    ObjectAttribute {
        id: new_id(),
        name: name.to_string(),
        resource_type: rt.to_string(),
        matcher: AttributeMatcher::Matching {
            key: key.to_string(),
            values: values.iter().map(|v| v.to_string()).collect(),
        },
    }
}

#[test]
fn matching_uas_returns_only_matching_uas() {
    let mut graph = PolicyGraph::new();
    let ua_all = UserAttribute {
        id: new_id(),
        name: "everyone".to_string(),
        matcher: AttributeMatcher::All,
    };
    let ua_alpha = matching_ua("org_alpha_members", "org_id", &["alpha"]);
    let ua_beta = matching_ua("org_beta_members", "org_id", &["beta"]);
    graph.add_ua(ua_all.clone());
    graph.add_ua(ua_alpha.clone());
    graph.add_ua(ua_beta.clone());

    let alpha_subject = attrs(&[("org_id", &["alpha"])]);
    let matching = graph.matching_uas(&alpha_subject);

    assert_eq!(matching.len(), 2);
    let ids: HashSet<NodeId> = matching.iter().map(|ua| ua.id).collect();
    assert!(ids.contains(&ua_all.id));
    assert!(ids.contains(&ua_alpha.id));
    assert!(!ids.contains(&ua_beta.id));
}

#[test]
fn matching_uas_all_matcher_always_included() {
    let mut graph = PolicyGraph::new();
    let ua_all = UserAttribute {
        id: new_id(),
        name: "everyone".to_string(),
        matcher: AttributeMatcher::All,
    };
    graph.add_ua(ua_all.clone());

    let m1 = graph.matching_uas(&AttrMap::new());
    assert_eq!(m1.len(), 1);
    assert_eq!(m1[0].id, ua_all.id);

    let m2 = graph.matching_uas(&attrs(&[("org_id", &["whatever"])]));
    assert_eq!(m2.len(), 1);
    assert_eq!(m2[0].id, ua_all.id);
}

#[test]
fn matching_uas_returns_empty_when_no_match() {
    let mut graph = PolicyGraph::new();
    let ua = matching_ua("org_alpha_members", "org_id", &["alpha"]);
    graph.add_ua(ua);

    let gamma_subject = attrs(&[("org_id", &["gamma"])]);
    assert!(graph.matching_uas(&gamma_subject).is_empty());
}

#[test]
fn matching_uas_returns_all_matching_uas() {
    let mut graph = PolicyGraph::new();
    let ua1 = UserAttribute {
        id: new_id(),
        name: "everyone".to_string(),
        matcher: AttributeMatcher::All,
    };
    let ua2 = UserAttribute {
        id: new_id(),
        name: "also_everyone".to_string(),
        matcher: AttributeMatcher::All,
    };
    graph.add_ua(ua1.clone());
    graph.add_ua(ua2.clone());

    let matching = graph.matching_uas(&AttrMap::new());
    assert_eq!(matching.len(), 2);
}

#[test]
fn matching_uas_multi_value_matcher() {
    let mut graph = PolicyGraph::new();
    let ua = matching_ua("multi_org", "org_id", &["alpha", "beta", "gamma"]);
    graph.add_ua(ua.clone());

    let beta_subject = attrs(&[("org_id", &["beta"])]);
    let matching = graph.matching_uas(&beta_subject);
    assert_eq!(matching.len(), 1);
    assert_eq!(matching[0].id, ua.id);
}

#[test]
fn matching_uas_ignores_extra_subject_attrs() {
    let mut graph = PolicyGraph::new();
    let ua = matching_ua("org_alpha_members", "org_id", &["alpha"]);
    graph.add_ua(ua.clone());

    let subject_with_extras = attrs(&[
        ("org_id", &["alpha"]),
        ("role", &["admin"]),
        ("department", &["engineering"]),
    ]);
    let matching = graph.matching_uas(&subject_with_extras);
    assert_eq!(matching.len(), 1);
    assert_eq!(matching[0].id, ua.id);
}

// --- associations_for_ua query tests ---

#[test]
fn associations_for_ua_filters_by_ua_id() {
    let mut graph = PolicyGraph::new();
    let ua_id1 = new_id();
    let ua_id2 = new_id();
    let oa_id = new_id();
    graph.add_association(Association {
        ua_id: ua_id1,
        target: AssociationTarget::ObjectAttribute(oa_id),
        operations: ops(&["read"]),
    });
    graph.add_association(Association {
        ua_id: ua_id2,
        target: AssociationTarget::ObjectAttribute(oa_id),
        operations: ops(&["write"]),
    });

    let assocs1 = graph.associations_for_ua(ua_id1);
    assert_eq!(assocs1.len(), 1);
    assert!(has_op(assocs1[0], "read"));

    let assocs2 = graph.associations_for_ua(ua_id2);
    assert_eq!(assocs2.len(), 1);
    assert!(has_op(assocs2[0], "write"));
}

#[test]
fn associations_for_ua_empty_for_unknown_ua() {
    let mut graph = PolicyGraph::new();
    let ua_id = new_id();
    let other_ua_id = new_id();
    graph.add_association(Association {
        ua_id: other_ua_id,
        target: AssociationTarget::ObjectAttribute(new_id()),
        operations: ops(&["read"]),
    });

    assert!(graph.associations_for_ua(ua_id).is_empty());
}

#[test]
fn associations_for_ua_returns_mixed_target_types() {
    let mut graph = PolicyGraph::new();
    let ua_id = new_id();
    let oa_id = new_id();
    let pc_id = new_id();
    graph.add_association(Association {
        ua_id,
        target: AssociationTarget::ObjectAttribute(oa_id),
        operations: ops(&["read"]),
    });
    graph.add_association(Association {
        ua_id,
        target: AssociationTarget::PolicyClass(pc_id),
        operations: ops(&["admin"]),
    });

    let assocs = graph.associations_for_ua(ua_id);
    assert_eq!(assocs.len(), 2);
    let targets: Vec<&AssociationTarget> = assocs.iter().map(|a| &a.target).collect();
    assert!(targets.contains(&&AssociationTarget::ObjectAttribute(oa_id)));
    assert!(targets.contains(&&AssociationTarget::PolicyClass(pc_id)));
}

// --- get_oa query tests ---

#[test]
fn get_oa_returns_correct_oa_among_multiple() {
    let mut graph = PolicyGraph::new();
    let oa1 = matching_oa("alpha_jobs", "job", "org_id", &["alpha"]);
    let oa2 = ObjectAttribute {
        id: new_id(),
        name: "beta_docs".to_string(),
        resource_type: "document".to_string(),
        matcher: AttributeMatcher::All,
    };
    graph.add_oa(oa1.clone());
    graph.add_oa(oa2.clone());

    let found1 = graph.get_oa(oa1.id);
    assert!(found1.is_some());
    assert_eq!(found1.unwrap().name, "alpha_jobs");
    assert_eq!(found1.unwrap().resource_type, "job");

    let found2 = graph.get_oa(oa2.id);
    assert!(found2.is_some());
    assert_eq!(found2.unwrap().name, "beta_docs");

    assert!(graph.get_oa(new_id()).is_none());
}

#[test]
fn get_oa_none_on_empty_graph() {
    let graph = PolicyGraph::new();
    assert!(graph.get_oa(new_id()).is_none());
}

// --- oas_for_pc query tests ---

#[test]
fn oas_for_pc_filters_by_resource_type() {
    let mut graph = PolicyGraph::new();
    let pc = pc("platform_policy");
    let oa_job = job_oa("all_jobs");
    let oa_doc = ObjectAttribute {
        id: new_id(),
        name: "all_docs".to_string(),
        resource_type: "document".to_string(),
        matcher: AttributeMatcher::All,
    };
    graph.add_pc(pc.clone());
    graph.add_oa(oa_job.clone());
    graph.add_oa(oa_doc.clone());
    graph.assign_oa_to_pc(oa_job.id, pc.id);
    graph.assign_oa_to_pc(oa_doc.id, pc.id);

    let jobs = graph.oas_for_pc(pc.id, "job");
    assert_eq!(jobs.len(), 1);
    assert_eq!(jobs[0].id, oa_job.id);

    let docs = graph.oas_for_pc(pc.id, "document");
    assert_eq!(docs.len(), 1);
    assert_eq!(docs[0].id, oa_doc.id);

    let widgets = graph.oas_for_pc(pc.id, "widget");
    assert!(widgets.is_empty());
}

#[test]
fn oas_for_pc_filters_by_pc_id() {
    let mut graph = PolicyGraph::new();
    let pc1 = pc("org_alpha_policy");
    let pc2 = pc("org_beta_policy");
    let oa_alpha = matching_oa("alpha_jobs", "job", "org_id", &["alpha"]);
    let oa_beta = matching_oa("beta_jobs", "job", "org_id", &["beta"]);
    graph.add_pc(pc1.clone());
    graph.add_pc(pc2.clone());
    graph.add_oa(oa_alpha.clone());
    graph.add_oa(oa_beta.clone());
    graph.assign_oa_to_pc(oa_alpha.id, pc1.id);
    graph.assign_oa_to_pc(oa_beta.id, pc2.id);

    let alpha_jobs = graph.oas_for_pc(pc1.id, "job");
    assert_eq!(alpha_jobs.len(), 1);
    assert_eq!(alpha_jobs[0].id, oa_alpha.id);

    let beta_jobs = graph.oas_for_pc(pc2.id, "job");
    assert_eq!(beta_jobs.len(), 1);
    assert_eq!(beta_jobs[0].id, oa_beta.id);
}

#[test]
fn oas_for_pc_excludes_unassigned_oas() {
    let mut graph = PolicyGraph::new();
    let pc = pc("platform_policy");
    let oa_assigned = job_oa("assigned_jobs");
    let oa_unassigned = job_oa("unassigned_jobs");
    graph.add_pc(pc.clone());
    graph.add_oa(oa_assigned.clone());
    graph.add_oa(oa_unassigned.clone());
    graph.assign_oa_to_pc(oa_assigned.id, pc.id);

    let jobs = graph.oas_for_pc(pc.id, "job");
    assert_eq!(jobs.len(), 1);
    assert_eq!(jobs[0].id, oa_assigned.id);
}

#[test]
fn oas_for_pc_empty_for_nonexistent_pc() {
    let mut graph = PolicyGraph::new();
    let oa = job_oa("alpha_jobs");
    graph.add_oa(oa.clone());
    assert!(graph.oas_for_pc(new_id(), "job").is_empty());
}

#[test]
fn oas_for_pc_oa_assigned_to_multiple_pcs() {
    let mut graph = PolicyGraph::new();
    let pc1 = pc("policy_a");
    let pc2 = pc("policy_b");
    let oa = job_oa("shared_jobs");
    graph.add_pc(pc1.clone());
    graph.add_pc(pc2.clone());
    graph.add_oa(oa.clone());
    graph.assign_oa_to_pc(oa.id, pc1.id);
    graph.assign_oa_to_pc(oa.id, pc2.id);

    let from_pc1 = graph.oas_for_pc(pc1.id, "job");
    assert_eq!(from_pc1.len(), 1);
    assert_eq!(from_pc1[0].id, oa.id);

    let from_pc2 = graph.oas_for_pc(pc2.id, "job");
    assert_eq!(from_pc2.len(), 1);
    assert_eq!(from_pc2[0].id, oa.id);
}

#[test]
fn policy_view_multi_org_scenario() {
    let mut graph = PolicyGraph::new();

    let pc_alpha = pc("org_alpha_policy");
    let pc_beta = pc("org_beta_policy");
    graph.add_pc(pc_alpha.clone());
    graph.add_pc(pc_beta.clone());

    let ua_alpha_members = matching_ua("alpha_members", "org_id", &["alpha"]);
    let ua_beta_members = matching_ua("beta_members", "org_id", &["beta"]);
    let ua_admins = matching_ua("platform_admins", "role", &["admin"]);
    graph.add_ua(ua_alpha_members.clone());
    graph.add_ua(ua_beta_members.clone());
    graph.add_ua(ua_admins.clone());

    let oa_alpha_jobs = matching_oa("alpha_jobs", "job", "org_id", &["alpha"]);
    let oa_beta_jobs = matching_oa("beta_jobs", "job", "org_id", &["beta"]);
    let oa_alpha_docs = matching_oa("alpha_docs", "document", "org_id", &["alpha"]);
    graph.add_oa(oa_alpha_jobs.clone());
    graph.add_oa(oa_beta_jobs.clone());
    graph.add_oa(oa_alpha_docs.clone());

    graph.assign_oa_to_pc(oa_alpha_jobs.id, pc_alpha.id);
    graph.assign_oa_to_pc(oa_alpha_docs.id, pc_alpha.id);
    graph.assign_oa_to_pc(oa_beta_jobs.id, pc_beta.id);

    graph.add_association(Association {
        ua_id: ua_alpha_members.id,
        target: AssociationTarget::ObjectAttribute(oa_alpha_jobs.id),
        operations: ops(&["read", "write"]),
    });
    graph.add_association(Association {
        ua_id: ua_alpha_members.id,
        target: AssociationTarget::ObjectAttribute(oa_alpha_docs.id),
        operations: ops(&["read"]),
    });
    graph.add_association(Association {
        ua_id: ua_beta_members.id,
        target: AssociationTarget::ObjectAttribute(oa_beta_jobs.id),
        operations: ops(&["read"]),
    });
    graph.add_association(Association {
        ua_id: ua_admins.id,
        target: AssociationTarget::PolicyClass(pc_alpha.id),
        operations: ops(&["read", "write", "delete"]),
    });

    let alpha_uas = graph.matching_uas(&attrs(&[("org_id", &["alpha"])]));
    assert_eq!(alpha_uas.len(), 1);
    assert_eq!(alpha_uas[0].id, ua_alpha_members.id);

    let admin_uas = graph.matching_uas(&attrs(&[("role", &["admin"])]));
    assert_eq!(admin_uas.len(), 1);
    assert_eq!(admin_uas[0].id, ua_admins.id);

    let alpha_admin_uas =
        graph.matching_uas(&attrs(&[("org_id", &["alpha"]), ("role", &["admin"])]));
    assert_eq!(alpha_admin_uas.len(), 2);
    let ua_ids: HashSet<NodeId> = alpha_admin_uas.iter().map(|ua| ua.id).collect();
    assert!(ua_ids.contains(&ua_alpha_members.id));
    assert!(ua_ids.contains(&ua_admins.id));

    assert!(graph.matching_uas(&attrs(&[("org_id", &["gamma"])])).is_empty());

    let alpha_assocs = graph.associations_for_ua(ua_alpha_members.id);
    assert_eq!(alpha_assocs.len(), 2);

    let beta_assocs = graph.associations_for_ua(ua_beta_members.id);
    assert_eq!(beta_assocs.len(), 1);
    assert_eq!(
        beta_assocs[0].target,
        AssociationTarget::ObjectAttribute(oa_beta_jobs.id)
    );

    let admin_assocs = graph.associations_for_ua(ua_admins.id);
    assert_eq!(admin_assocs.len(), 1);
    assert_eq!(
        admin_assocs[0].target,
        AssociationTarget::PolicyClass(pc_alpha.id)
    );
    assert!(has_op(admin_assocs[0], "delete"));

    let oa = graph.get_oa(oa_alpha_jobs.id).unwrap();
    assert_eq!(oa.name, "alpha_jobs");
    assert_eq!(oa.resource_type, "job");

    let oa_doc = graph.get_oa(oa_alpha_docs.id).unwrap();
    assert_eq!(oa_doc.resource_type, "document");

    assert!(graph.get_oa(new_id()).is_none());

    let alpha_pc_jobs = graph.oas_for_pc(pc_alpha.id, "job");
    assert_eq!(alpha_pc_jobs.len(), 1);
    assert_eq!(alpha_pc_jobs[0].id, oa_alpha_jobs.id);

    let alpha_pc_docs = graph.oas_for_pc(pc_alpha.id, "document");
    assert_eq!(alpha_pc_docs.len(), 1);
    assert_eq!(alpha_pc_docs[0].id, oa_alpha_docs.id);

    let beta_pc_jobs = graph.oas_for_pc(pc_beta.id, "job");
    assert_eq!(beta_pc_jobs.len(), 1);
    assert_eq!(beta_pc_jobs[0].id, oa_beta_jobs.id);

    assert!(graph.oas_for_pc(pc_beta.id, "document").is_empty());
}

// --- deletion cascades ---

#[test]
fn remove_ua_cascades_its_associations() {
    let mut graph = PolicyGraph::new();
    let ua = matching_ua("members", "org_id", &["alpha"]);
    let other = matching_ua("others", "org_id", &["beta"]);
    let oa_id = new_id();
    graph.add_ua(ua.clone());
    graph.add_ua(other.clone());
    graph.add_association(Association {
        ua_id: ua.id,
        target: AssociationTarget::ObjectAttribute(oa_id),
        operations: ops(&["read"]),
    });
    graph.add_association(Association {
        ua_id: other.id,
        target: AssociationTarget::ObjectAttribute(oa_id),
        operations: ops(&["read"]),
    });
    graph.remove_ua(ua.id);
    assert!(!graph.contains_ua(ua.id));
    assert!(graph.associations_for_ua(ua.id).is_empty());
    assert_eq!(graph.associations_for_ua(other.id).len(), 1);
    assert_eq!(graph.ua_count(), 1);
}

#[test]
fn remove_oa_cascades_associations_and_assignments() {
    let mut graph = PolicyGraph::new();
    let ua_id = new_id();
    let oa = job_oa("alpha_jobs");
    let kept = job_oa("beta_jobs");
    let pc = pc("platform");
    graph.add_oa(oa.clone());
    graph.add_oa(kept.clone());
    graph.add_pc(pc.clone());
    graph.assign_oa_to_pc(oa.id, pc.id);
    graph.assign_oa_to_pc(kept.id, pc.id);
    graph.add_association(Association {
        ua_id,
        target: AssociationTarget::ObjectAttribute(oa.id),
        operations: ops(&["read"]),
    });
    graph.add_association(Association {
        ua_id,
        target: AssociationTarget::PolicyClass(pc.id),
        operations: ops(&["read"]),
    });
    graph.remove_oa(oa.id);
    assert!(!graph.contains_oa(oa.id));
    let remaining = graph.associations_for_ua(ua_id);
    assert_eq!(remaining.len(), 1);
    assert_eq!(remaining[0].target, AssociationTarget::PolicyClass(pc.id));
    let jobs = graph.oas_for_pc(pc.id, "job");
    assert_eq!(jobs.len(), 1);
    assert_eq!(jobs[0].id, kept.id);
    assert_eq!(graph.oa_count(), 1);
}

#[test]
fn remove_pc_cascades_associations_and_assignments() {
    let mut graph = PolicyGraph::new();
    let ua_id = new_id();
    let oa = job_oa("alpha_jobs");
    let pc = pc("platform");
    graph.add_oa(oa.clone());
    graph.add_pc(pc.clone());
    graph.assign_oa_to_pc(oa.id, pc.id);
    graph.add_association(Association {
        ua_id,
        target: AssociationTarget::PolicyClass(pc.id),
        operations: ops(&["admin"]),
    });
    graph.remove_pc(pc.id);
    assert!(!graph.contains_pc(pc.id));
    assert!(graph.get_pc(pc.id).is_none());
    assert!(graph.associations_for_ua(ua_id).is_empty());
    assert!(graph.contains_oa(oa.id));
    assert!(graph.oas_for_pc(pc.id, "job").is_empty());
}

// --- attribute maps ---

#[test]
fn attr_map_insert_replaces_value_set() {
    let mut m = AttrMap::new();
    assert!(m.is_empty());
    m.insert("org_id".to_string(), vec!["alpha".to_string()]);
    m.insert("org_id".to_string(), vec!["beta".to_string()]);
    assert!(!m.is_empty());
    assert!(!m.shares_value_with(&"org_id".to_string(), &vec!["alpha".to_string()]));
    assert!(m.shares_value_with(&"org_id".to_string(), &vec!["beta".to_string()]));
}

#[test]
fn attr_map_empty_value_set_behaves_like_absent_key() {
    let matcher = AttributeMatcher::Matching {
        key: "org_id".to_string(),
        values: vec!["alpha".to_string()],
    };
    let with_empty = attrs(&[("org_id", &[]), ("role", &["admin"])]);
    let without = attrs(&[("role", &["admin"])]);
    assert_eq!(matcher.matches(&with_empty), matcher.matches(&without));
    assert!(!matcher.matches(&with_empty));
    assert!(AttributeMatcher::All.matches(&with_empty));
}

// --- request and decision types ---

#[test]
fn access_request_new_has_empty_attrs() {
    let req = AccessRequest::new("read", "job");
    assert_eq!(req.operation(), "read");
    assert_eq!(req.resource_type(), "job");
    assert!(req.subject_attributes().is_empty());
    assert!(req.resource_attributes().is_empty());
}

#[test]
fn access_request_setters_chain_in_any_order() {
    let s = attrs(&[("role", &["admin"])]);
    let r = attrs(&[("org_id", &["alpha"])]);
    let req1 = AccessRequest::new("write", "doc")
        .subject_attrs(s.clone())
        .resource_attrs(r.clone());
    let req2 = AccessRequest::new("write", "doc")
        .resource_attrs(r.clone())
        .subject_attrs(s.clone());
    assert_eq!(req1.subject_attributes(), req2.subject_attributes());
    assert_eq!(req1.resource_attributes(), req2.resource_attributes());
}

#[test]
fn decision_allow_and_deny_are_not_equal() {
    assert_ne!(Decision::Allow, Decision::Deny);
}

#[test]
fn decision_is_copy() {
    let d = Decision::Allow;
    let d2 = d;
    assert_eq!(d, d2);
}

#[test]
fn decision_debug() {
    assert!(format!("{:?}", Decision::Allow).contains("Allow"));
    assert!(format!("{:?}", Decision::Deny).contains("Deny"));
}

#[test]
fn graph_lists_expose_every_node_edge_and_association() {
    let mut graph = PolicyGraph::new();
    let ua = UserAttribute {
        id: new_id(),
        name: "admins".to_string(),
        matcher: AttributeMatcher::All,
    };
    let oa1 = ObjectAttribute {
        id: new_id(),
        name: "jobs".to_string(),
        resource_type: "job".to_string(),
        matcher: AttributeMatcher::All,
    };
    let oa2 = ObjectAttribute {
        id: new_id(),
        name: "docs".to_string(),
        resource_type: "document".to_string(),
        matcher: AttributeMatcher::All,
    };
    let pc = PolicyClass {
        id: new_id(),
        name: "platform".to_string(),
    };
    graph.add_ua(ua.clone());
    graph.add_oa(oa1.clone());
    graph.add_oa(oa2.clone());
    graph.add_pc(pc.clone());
    graph.assign_oa_to_pc(oa1.id, pc.id);
    graph.assign_oa_to_pc(oa1.id, pc.id);
    graph.add_association(Association {
        ua_id: ua.id,
        target: AssociationTarget::PolicyClass(pc.id),
        operations: ops(&["read"]),
    });

    let uas = graph.user_attribute_list();
    assert_eq!(uas.len(), 1);
    assert_eq!(uas[0].id, ua.id);
    let oa_ids: HashSet<NodeId> = graph.object_attribute_list().iter().map(|o| o.id).collect();
    assert_eq!(oa_ids, HashSet::from([oa1.id, oa2.id]));
    let pcs = graph.policy_class_list();
    assert_eq!(pcs.len(), 1);
    assert_eq!(pcs[0].name, "platform");
    let assocs = graph.association_list();
    assert_eq!(assocs.len(), 1);
    assert_eq!(assocs[0].target, AssociationTarget::PolicyClass(pc.id));
    let edges: HashSet<(NodeId, NodeId)> = graph.assignment_list().iter().copied().collect();
    assert_eq!(edges, HashSet::from([(oa1.id, pc.id)]));
}

#[test]
fn graph_lists_are_empty_for_new_graph() {
    let graph = PolicyGraph::new();
    assert!(graph.user_attribute_list().is_empty());
    assert!(graph.object_attribute_list().is_empty());
    assert!(graph.policy_class_list().is_empty());
    assert!(graph.association_list().is_empty());
    assert!(graph.assignment_list().is_empty());
}

#[test]
fn attr_map_equality_ignores_insertion_order_and_repeats() {
    let mut a = AttrMap::new();
    a.insert("org_id".to_string(), vec!["alpha".to_string(), "beta".to_string()]);
    a.insert("role".to_string(), vec!["admin".to_string()]);
    let mut b = AttrMap::new();
    b.insert("role".to_string(), vec!["admin".to_string(), "admin".to_string()]);
    b.insert("org_id".to_string(), vec!["beta".to_string(), "alpha".to_string()]);
    assert!(a.same_attrs(&b));
    assert_eq!(a, b);
    b.insert("role".to_string(), vec!["member".to_string()]);
    assert!(!a.same_attrs(&b));
    assert_ne!(a, b);
    let mut c = AttrMap::new();
    c.insert("org_id".to_string(), vec!["alpha".to_string(), "beta".to_string()]);
    assert_ne!(a, c);
    let mut d = AttrMap::new();
    d.insert("org_id".to_string(), Vec::new());
    assert_ne!(d, AttrMap::new());
}

#[test]
fn oas_for_pc_lists_each_object_attribute_once() {
    let mut graph = PolicyGraph::new();
    let pc_id = new_id();
    graph.add_pc(PolicyClass {
        id: pc_id,
        name: "platform_policy".to_string(),
    });
    let job = ObjectAttribute {
        id: new_id(),
        name: "all_jobs".to_string(),
        resource_type: "job".to_string(),
        matcher: AttributeMatcher::All,
    };
    graph.add_oa(job.clone());
    graph.assign_oa_to_pc(job.id, pc_id);
    graph.assign_oa_to_pc(job.id, pc_id);
    graph.add_oa(job.clone());
    let oas = graph.oas_for_pc(pc_id, "job");
    assert_eq!(oas.len(), 1);
    assert_eq!(oas[0].id, job.id);
}

#[test]
fn matching_uas_lists_each_user_attribute_once() {
    let mut graph = PolicyGraph::new();
    let ua = UserAttribute {
        id: new_id(),
        name: "everyone".to_string(),
        matcher: AttributeMatcher::All,
    };
    graph.add_ua(ua.clone());
    graph.add_ua(ua.clone());
    let uas = graph.matching_uas(&AttrMap::new());
    assert_eq!(uas.len(), 1);
    assert_eq!(uas[0].id, ua.id);
}
