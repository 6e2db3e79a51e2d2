//! Time-travel authorization: translating an instant into a policy stream
//! version, and answering authorization queries against the policy graph
//! as it existed then.
use vstd::prelude::*;

use crate::graph::{PolicyGraph, PolicyView};
use crate::attrs::AttrMap;
use crate::pep::{
    allows, entry_key, evaluate, lemma_scope_agrees_with_evaluate, reach_key, reachable,
    reaches_some, scope, scope_result, sole_matching_scope, spec_admits, AccessRequest,
    AccessScope, Decision, Reach, ScopeRequest,
};

verus! {

/// An event's place in the policy stream: its stream version and its
/// creation time in nanoseconds since the Unix epoch.
#[derive(Debug, Clone, Copy, PartialEq, Eq, Structural)]
pub struct EventStamp {
    /// The stream version of the event.
    pub stream_version: u64,
    /// The creation time of the event, in nanoseconds since the Unix epoch.
    pub created_at: i128,
}

/// Whether the first `p` events of `s` were all created at or before `t`.
pub open spec fn prefix_before(s: Seq<EventStamp>, p: int, t: i128) -> bool {
    forall|i: int| 0 <= i < p ==> (#[trigger] s[i]).created_at <= t
}

/// Whether `r` is the policy version at instant `t` for the stream
/// `events`: the version of the last event of the longest prefix of
/// events all created at or before `t`, or `None` when that prefix is
/// empty.
pub open spec fn version_at_result(events: Seq<EventStamp>, t: i128, r: Option<u64>) -> bool {
    match r {
        Option::None => events.len() == 0 || events[0].created_at > t,
        Some(v) => exists|p: int|
            1 <= p <= events.len() && prefix_before(events, p, t) && (p == events.len()
                || events[p].created_at > t) && v == #[trigger] events[p - 1].stream_version,
    }
}

/// The stream version of the policy at instant `t`, given the events of the
/// stream in ascending stream-version order.
///
/// Takes the longest contiguous prefix of events created at or before `t`
/// and returns the version of its last event, or `None` when the first
/// event already postdates `t` (or there is none). An event with a later
/// timestamp ends the prefix even when events after it are earlier (clock
/// skew), so a historical view never includes a later-stamped event.
pub fn version_at(events: &Vec<EventStamp>, t: i128) -> (r: Option<u64>)
    ensures
        version_at_result(events@, t, r),
{
    let mut version: Option<u64> = None;
    let mut i: usize = 0;
    while i < events.len()
        invariant
            0 <= i <= events@.len(),
            prefix_before(events@, i as int, t),
            i == 0 ==> version is None,
            i > 0 ==> version == Some(events@[i - 1].stream_version),
        ensures
            i == events@.len() || events@[i as int].created_at > t,
        decreases events@.len() - i,
    {
        if events[i].created_at > t {
            break;
        }
        version = Some(events[i].stream_version);
        i = i + 1;
    }
    proof {
        if i > 0 {
            assert(events@[i - 1].stream_version == version->0);
            assert(prefix_before(events@, i as int, t));
        }
    }
    version
}

/// Present-day equivalence: at an instant no earlier than every recorded
/// policy event, the policy version is the version of the last event, so a
/// historical query then sees the present-day policy.
pub proof fn lemma_version_at_present(events: Seq<EventStamp>, t: i128, r: Option<u64>)
    requires
        version_at_result(events, t, r),
        events.len() > 0,
        forall|i: int| 0 <= i < events.len() ==> (#[trigger] events[i]).created_at <= t,
    ensures
        r == Some(events[events.len() - 1].stream_version),
{
    if let Some(v) = r {
        let p = choose|p: int|
            1 <= p <= events.len() && prefix_before(events, p, t) && (p == events.len()
                || events[p].created_at > t) && v == #[trigger] events[p - 1].stream_version;
        if p < events.len() {
            assert(events[p].created_at <= t);
        }
    } else {
        assert(events[0].created_at <= t);
    }
}

/// `None` before every version, then versions in their order.
pub open spec fn version_le(a: Option<u64>, b: Option<u64>) -> bool {
    match (a, b) {
        (Option::None, _) => true,
        (Some(_), Option::None) => false,
        (Some(x), Some(y)) => x <= y,
    }
}

/// Monotonicity in time: on a stream whose versions ascend, the policy
/// version at a later instant is never earlier than at an earlier instant
/// (and is never `None` when the earlier one is not).
pub proof fn lemma_version_at_monotone(
    events: Seq<EventStamp>,
    t1: i128,
    t2: i128,
    r1: Option<u64>,
    r2: Option<u64>,
)
    requires
        forall|i: int, j: int|
            0 <= i <= j < events.len() ==> (#[trigger] events[i]).stream_version
                <= (#[trigger] events[j]).stream_version,
        t1 <= t2,
        version_at_result(events, t1, r1),
        version_at_result(events, t2, r2),
    ensures
        version_le(r1, r2),
{
    if let Some(v1) = r1 {
        let p1 = choose|p: int|
            1 <= p <= events.len() && prefix_before(events, p, t1) && (p == events.len()
                || events[p].created_at > t1) && v1 == #[trigger] events[p - 1].stream_version;
        assert(events[0].created_at <= t1);
        if let Some(v2) = r2 {
            let p2 = choose|p: int|
                1 <= p <= events.len() && prefix_before(events, p, t2) && (p == events.len()
                    || events[p].created_at > t2) && v2 == #[trigger] events[p - 1].stream_version;
            if p2 < p1 {
                assert(events[p2].created_at <= t1);
            }
            assert(events[p1 - 1].stream_version <= events[p2 - 1].stream_version);
        }
    }
}

/// Evaluates `request` against the policy graph as it existed at some
/// instant: `graph` is `None` when the instant predates the first policy
/// event, and nothing is authorized then (`Deny`).
pub fn evaluate_historical(graph: &Option<PolicyGraph>, request: &AccessRequest) -> (d: Decision)
    ensures
        match graph {
            Some(g) => (d == Decision::Allow) <==> allows(
                g,
                request.spec_subject(),
                request.spec_operation(),
                request.spec_resource_type(),
                request.spec_resource(),
            ),
            Option::None => d == Decision::Deny,
        },
{
    match graph {
        Some(g) => evaluate(g, request),
        Option::None => Decision::Deny,
    }
}

/// Resolves the scope of `request` against the policy graph as it existed at
/// some instant: `graph` is `None` when the instant predates the first
/// policy event, and the scope is then `NoAccess`.
pub fn scope_historical(graph: &Option<PolicyGraph>, request: &ScopeRequest) -> (r: AccessScope)
    ensures
        match graph {
            Some(g) => scope_result(
                g,
                request.spec_subject(),
                request.spec_operation(),
                request.spec_resource_type(),
                r,
            ) && sole_matching_scope(
                g,
                request.spec_subject(),
                request.spec_operation(),
                request.spec_resource_type(),
                r,
            ),
            Option::None => r == AccessScope::NoAccess,
        },
{
    match graph {
        Some(g) => scope(g, request),
        Option::None => AccessScope::NoAccess,
    }
}

/// Enumerates what a subject could reach at some instant: `reachable`
/// against the policy graph as it existed then; nothing when the instant
/// predates the first policy event (`graph` is `None`).
pub fn reachable_historical(
    graph: &Option<PolicyGraph>,
    subject_attrs: &AttrMap,
    vocabulary: &Vec<(String, String)>,
) -> (r: Vec<Reach>)
    ensures
        match graph {
            Some(g) => {
                &&& r@.map_values(|x: Reach| reach_key(x)) == vocabulary@.map_values(
                    |e: (String, String)| entry_key(e),
                ).filter(|k: (Seq<char>, Seq<char>)| reaches_some(g, subject_attrs@, k.0, k.1))
                &&& forall|i: int|
                    #![trigger r@[i]]
                    0 <= i < r@.len() ==> scope_result(
                        g,
                        subject_attrs@,
                        r@[i].operation@,
                        r@[i].resource_type@,
                        r@[i].scope,
                    )
            },
            Option::None => r@.len() == 0,
        },
{
    match graph {
        Some(g) => reachable(g, subject_attrs, vocabulary),
        Option::None => Vec::new(),
    }
}

/// Scope soundness over history: at every instant, including one before the
/// first policy event, a resource is admitted by the scope that
/// `scope_historical` resolves exactly when `evaluate_historical` allows the
/// subject the operation on it.
pub proof fn lemma_historical_scope_agrees_with_evaluate(
    graph: Option<PolicyGraph>,
    subject: Map<Seq<char>, Set<Seq<char>>>,
    op: Seq<char>,
    rt: Seq<char>,
    s: AccessScope,
    resource: Map<Seq<char>, Set<Seq<char>>>,
)
    requires
        match graph {
            Some(g) => scope_result(&g, subject, op, rt, s),
            Option::None => s == AccessScope::NoAccess,
        },
    ensures
        spec_admits(s, resource) <==> match graph {
            Some(g) => allows(&g, subject, op, rt, resource),
            Option::None => false,
        },
{
    if let Some(g) = graph {
        lemma_scope_agrees_with_evaluate(&g, subject, op, rt, s, resource);
    }
}

} // verus!
