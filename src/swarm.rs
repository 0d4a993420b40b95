//! Decisions of the swarm driver: resolving the configured listen addresses,
//! folding the per-address outcomes into a start decision, and dispatching
//! events while the node runs.
//!
//! Binding and waiting for events are done by the caller; this module only
//! decides, from plain values, what follows.

use vstd::prelude::*;
use crate::address::{parse_listen_address, resolve, AddressError, Layer, NetworkAddress};

verus! {

/// What became of one configured listen address.
#[derive(Debug, Clone, Copy, PartialEq, Eq, Structural)]
pub enum ListenOutcome {
    /// The address resolved and the transport listens on it.
    Bound,
    /// The address text could not be resolved.
    ParseFailed(AddressError),
    /// The address resolved but the transport refused to listen on it.
    BindFailed,
}

/// Aggregate of the listen outcomes of a startup in which at least one
/// address was bound.
#[derive(Debug, Clone, Copy, PartialEq, Eq, Structural)]
pub struct ListenReport {
    /// Addresses the node listens on.
    pub bound: usize,
    /// Addresses that failed to resolve or to bind.
    pub failed: usize,
}

/// The node cannot start.
#[derive(Debug, Clone, Copy, PartialEq, Eq, Structural)]
pub enum StartupError {
    /// Not one configured address could be listened on.
    NoAddressBound,
}

/// The outcome for an address text, given whether the transport accepts a
/// bind on the address it resolves to.
pub open spec fn outcome_spec(addr: Seq<char>, bind_ok: bool) -> ListenOutcome {
    match resolve(addr) {
        Err(e) => ListenOutcome::ParseFailed(e),
        Ok(_) => if bind_ok {
            ListenOutcome::Bound
        } else {
            ListenOutcome::BindFailed
        },
    }
}

/// Number of `Bound` outcomes.
pub open spec fn count_bound(s: Seq<ListenOutcome>) -> nat
    decreases s.len(),
{
    if s.len() == 0 {
        0
    } else {
        count_bound(s.drop_last()) + if s.last() == ListenOutcome::Bound {
            1nat
        } else {
            0nat
        }
    }
}

/// The start decision for a list of outcomes: the node starts if and only if
/// at least one address was bound.
pub open spec fn summary_spec(s: Seq<ListenOutcome>) -> Result<ListenReport, StartupError> {
    if count_bound(s) == 0 {
        Err(StartupError::NoAddressBound)
    } else {
        Ok(ListenReport { bound: count_bound(s) as usize, failed: (s.len() - count_bound(s)) as usize })
    }
}

/// The outcomes of a startup over address texts `addrs`, where `binds[i]`
/// says whether a bind on the `i`-th resolved address succeeds.
pub open spec fn startup_outcomes(addrs: Seq<Seq<char>>, binds: Seq<bool>) -> Seq<ListenOutcome> {
    Seq::new(addrs.len(), |i: int| outcome_spec(addrs[i], binds[i]))
}

proof fn lemma_count_none(s: Seq<ListenOutcome>)
    requires
        forall|i: int| 0 <= i < s.len() ==> #[trigger] s[i] != ListenOutcome::Bound,
    ensures
        count_bound(s) == 0,
    decreases s.len(),
{
    if s.len() > 0 {
        lemma_count_none(s.drop_last());
    }
}

proof fn lemma_count_one(s: Seq<ListenOutcome>, k: int)
    requires
        0 <= k < s.len(),
        s[k] == ListenOutcome::Bound,
        forall|i: int| 0 <= i < s.len() && i != k ==> #[trigger] s[i] != ListenOutcome::Bound,
    ensures
        count_bound(s) == 1,
    decreases s.len(),
{
    let p = s.drop_last();
    if k == s.len() - 1 {
        lemma_count_none(p);
    } else {
        lemma_count_one(p, k);
    }
}

proof fn lemma_stopped_stays(events: Seq<NodeEvent>)
    ensures
        run_spec(DriverState::Stopped, events) == DriverState::Stopped,
    decreases events.len(),
{
    if events.len() > 0 {
        lemma_stopped_stays(events.drop_last());
    }
}

/// When exactly one configured address resolves and can be bound and every
/// other one fails to resolve, the node starts, reporting one bound address
/// and every other address as failed to resolve.
pub proof fn law_single_bindable_address(addrs: Seq<Seq<char>>, binds: Seq<bool>, k: int)
    requires
        addrs.len() == binds.len(),
        addrs.len() <= usize::MAX,
        0 <= k < addrs.len(),
        resolve(addrs[k]) is Ok,
        binds[k],
        forall|i: int| 0 <= i < addrs.len() && i != k ==> #[trigger] resolve(addrs[i]) is Err,
    ensures
        summary_spec(startup_outcomes(addrs, binds)) == Ok::<ListenReport, StartupError>(
            ListenReport { bound: 1, failed: (addrs.len() - 1) as usize },
        ),
        forall|i: int|
            0 <= i < addrs.len() && i != k ==> #[trigger] startup_outcomes(addrs, binds)[i] is ParseFailed,
{
    let s = startup_outcomes(addrs, binds);
    assert forall|i: int| 0 <= i < s.len() && i != k implies #[trigger] s[i] != ListenOutcome::Bound by {
        assert(resolve(addrs[i]) is Err);
    }
    lemma_count_one(s, k);
}

/// When every configured address fails to resolve or to bind, the node does
/// not start: the decision is the single aggregate error, and the driver stays
/// stopped whatever events follow, so the event loop never runs.
pub proof fn law_no_bindable_address(addrs: Seq<Seq<char>>, binds: Seq<bool>)
    requires
        addrs.len() == binds.len(),
        forall|i: int| 0 <= i < addrs.len() ==> #[trigger] resolve(addrs[i]) is Err || !binds[i],
    ensures
        summary_spec(startup_outcomes(addrs, binds)) == Err::<ListenReport, StartupError>(
            StartupError::NoAddressBound,
        ),
        forall|events: Seq<NodeEvent>|
            #[trigger] run_spec(after_listen_spec(summary_spec(startup_outcomes(addrs, binds))), events)
                == DriverState::Stopped,
{
    let s = startup_outcomes(addrs, binds);
    assert forall|i: int| 0 <= i < s.len() implies #[trigger] s[i] != ListenOutcome::Bound by {
        assert(resolve(addrs[i]) is Err || !binds[i]);
    }
    lemma_count_none(s);
    assert forall|events: Seq<NodeEvent>|
        #[trigger] run_spec(after_listen_spec(summary_spec(s)), events) == DriverState::Stopped by {
        lemma_stopped_stays(events);
    }
}

/// Resolves every configured listen address, keeping their order.
pub fn resolve_all(addrs: &Vec<String>) -> (r: Vec<Result<NetworkAddress, AddressError>>)
    ensures
        r@.len() == addrs@.len(),
        forall|i: int|
            0 <= i < r@.len() ==> match #[trigger] r@[i] {
                Ok(a) => resolve(addrs@[i]@) == Ok::<Seq<Layer>, AddressError>(a@),
                Err(e) => resolve(addrs@[i]@) == Err::<Seq<Layer>, AddressError>(e),
            },
{
    let mut r: Vec<Result<NetworkAddress, AddressError>> = Vec::new();
    let mut i: usize = 0;
    while i < addrs.len()
        invariant
            i <= addrs@.len(),
            r@.len() == i,
            forall|j: int|
                0 <= j < i ==> match #[trigger] r@[j] {
                    Ok(a) => resolve(addrs@[j]@) == Ok::<Seq<Layer>, AddressError>(a@),
                    Err(e) => resolve(addrs@[j]@) == Err::<Seq<Layer>, AddressError>(e),
                },
        decreases addrs@.len() - i,
    {
        let p = parse_listen_address(addrs[i].as_str());
        r.push(p);
        i += 1;
    }
    r
}

/// The outcome for one resolved (or unresolved) address, given whether the
/// transport accepted the bind. `bind_ok` is ignored for an unresolved one.
pub fn listen_outcome(parsed: &Result<NetworkAddress, AddressError>, bind_ok: bool) -> (r: ListenOutcome)
    ensures
        r == (match parsed {
            Err(e) => ListenOutcome::ParseFailed(*e),
            Ok(_) => if bind_ok {
                ListenOutcome::Bound
            } else {
                ListenOutcome::BindFailed
            },
        }),
{
    match parsed {
        Err(e) => ListenOutcome::ParseFailed(*e),
        Ok(_) => if bind_ok {
            ListenOutcome::Bound
        } else {
            ListenOutcome::BindFailed
        },
    }
}

/// Folds the per-address outcomes into the start decision: a report when at
/// least one address was bound, `NoAddressBound` otherwise.
pub fn summarize_listen(outcomes: &Vec<ListenOutcome>) -> (r: Result<ListenReport, StartupError>)
    ensures
        r == summary_spec(outcomes@),
{
    let mut bound: usize = 0;
    let mut i: usize = 0;
    while i < outcomes.len()
        invariant
            i <= outcomes@.len(),
            bound == count_bound(outcomes@.subrange(0, i as int)),
            bound <= i,
        decreases outcomes@.len() - i,
    {
        assert(outcomes@.subrange(0, i + 1).drop_last() =~= outcomes@.subrange(0, i as int));
        if outcomes[i] == ListenOutcome::Bound {
            bound += 1;
        }
        i += 1;
    }
    assert(outcomes@.subrange(0, outcomes@.len() as int) =~= outcomes@);
    if bound == 0 {
        Err(StartupError::NoAddressBound)
    } else {
        Ok(ListenReport { bound, failed: outcomes.len() - bound })
    }
}

/// Which composed behaviour an event comes from.
#[derive(Debug, Clone, Copy, PartialEq, Eq, Structural)]
pub enum BehaviourKind {
    Ping,
    Kademlia,
    Mdns,
    Identify,
    Autonat,
}

/// An event delivered to the running node.
#[derive(Debug, Clone, PartialEq, Eq)]
pub enum NodeEvent {
    /// The transport confirmed a new listening address (its text).
    NewListenAddr(String),
    /// A composed behaviour reported something (its description).
    Behaviour(BehaviourKind, String),
    /// A transport-level event of no interest to the node.
    Other,
    /// The operator asked the node to stop.
    Shutdown,
}

/// States of the driver.
#[derive(Debug, Clone, Copy, PartialEq, Eq, Structural)]
pub enum DriverState {
    Unbound,
    /// Listening on every configured address (`full`) or on some of them.
    Listening { full: bool },
    Running,
    Stopped,
}

/// What the caller does in answer to an event.
#[derive(Debug, Clone, PartialEq, Eq)]
pub enum Action {
    /// Record that the node now listens on this address.
    ReportListening(String),
    /// Record a behaviour's event.
    ReportBehaviour(BehaviourKind, String),
    /// Nothing to do.
    Ignore,
    /// Leave the event loop.
    Stop,
}

/// The state after the listen phase: listening when the start decision is
/// positive, stopped otherwise.
pub open spec fn after_listen_spec(decision: Result<ListenReport, StartupError>) -> DriverState {
    match decision {
        Ok(rep) => DriverState::Listening { full: rep.failed == 0 },
        Err(_) => DriverState::Stopped,
    }
}

/// One step of the driver. The event loop runs only after a successful listen
/// phase, and a shutdown ends it.
pub open spec fn step_spec(s: DriverState, e: NodeEvent) -> (DriverState, Action) {
    match s {
        DriverState::Listening { .. } => match e {
            NodeEvent::Shutdown => (DriverState::Stopped, Action::Stop),
            NodeEvent::NewListenAddr(a) => (DriverState::Running, Action::ReportListening(a)),
            NodeEvent::Behaviour(k, d) => (DriverState::Running, Action::ReportBehaviour(k, d)),
            NodeEvent::Other => (DriverState::Running, Action::Ignore),
        },
        DriverState::Running => match e {
            NodeEvent::Shutdown => (DriverState::Stopped, Action::Stop),
            NodeEvent::NewListenAddr(a) => (DriverState::Running, Action::ReportListening(a)),
            NodeEvent::Behaviour(k, d) => (DriverState::Running, Action::ReportBehaviour(k, d)),
            NodeEvent::Other => (DriverState::Running, Action::Ignore),
        },
        DriverState::Unbound => (DriverState::Unbound, Action::Ignore),
        DriverState::Stopped => (DriverState::Stopped, Action::Ignore),
    }
}

/// The state after a sequence of events.
pub open spec fn run_spec(s: DriverState, events: Seq<NodeEvent>) -> DriverState
    decreases events.len(),
{
    if events.len() == 0 {
        s
    } else {
        step_spec(run_spec(s, events.drop_last()), events.last()).0
    }
}

/// The state in which the listen phase leaves the driver.
pub fn after_listen(decision: &Result<ListenReport, StartupError>) -> (r: DriverState)
    ensures
        r == after_listen_spec(*decision),
{
    match decision {
        Ok(rep) => DriverState::Listening { full: rep.failed == 0 },
        Err(_) => DriverState::Stopped,
    }
}

/// Dispatches one event: the next state and what the caller should do.
pub fn step(s: DriverState, e: NodeEvent) -> (r: (DriverState, Action))
    ensures
        r == step_spec(s, e),
{
    match s {
        DriverState::Listening { .. } | DriverState::Running => match e {
            NodeEvent::Shutdown => (DriverState::Stopped, Action::Stop),
            NodeEvent::NewListenAddr(a) => (DriverState::Running, Action::ReportListening(a)),
            NodeEvent::Behaviour(k, d) => (DriverState::Running, Action::ReportBehaviour(k, d)),
            NodeEvent::Other => (DriverState::Running, Action::Ignore),
        },
        DriverState::Unbound => (DriverState::Unbound, Action::Ignore),
        DriverState::Stopped => (DriverState::Stopped, Action::Ignore),
    }
}

/// Whether the event loop is active in state `s`.
pub fn is_running(s: DriverState) -> (r: bool)
    ensures
        r == (s == DriverState::Running),
{
    match s {
        DriverState::Running => true,
        _ => false,
    }
}

} // verus!
