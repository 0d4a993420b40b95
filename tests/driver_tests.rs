use xchangefs::address::AddressError;
use xchangefs::swarm::{
    after_listen, is_running, listen_outcome, resolve_all, step, summarize_listen, Action,
    BehaviourKind, DriverState, ListenOutcome, ListenReport, NodeEvent, StartupError,
};

fn outcomes_for(addrs: &[&str], binds: &[bool]) -> Vec<ListenOutcome> {
    let owned: Vec<String> = addrs.iter().map(|a| a.to_string()).collect();
    let parsed = resolve_all(&owned);
    parsed.iter().zip(binds.iter()).map(|(p, b)| listen_outcome(p, *b)).collect()
}

#[test]
fn one_good_address_among_malformed_starts() {
    let outcomes = outcomes_for(&["nonsense", "127.0.0.1:4001", "1.2.3.4:x", "[zz::1]:5"], &[true, true, true, true]);
    assert_eq!(outcomes[1], ListenOutcome::Bound);
    assert_eq!(outcomes[0], ListenOutcome::ParseFailed(AddressError::MalformedEndpoint));
    assert_eq!(outcomes[2], ListenOutcome::ParseFailed(AddressError::InvalidPort));
    assert_eq!(outcomes[3], ListenOutcome::ParseFailed(AddressError::InvalidIp));
    let decision = summarize_listen(&outcomes);
    assert_eq!(decision, Ok(ListenReport { bound: 1, failed: 3 }));
    assert_eq!(after_listen(&decision), DriverState::Listening { full: false });
}

#[test]
fn all_bound_is_full() {
    let outcomes = outcomes_for(&["127.0.0.1:1", "[::1]:2"], &[true, true]);
    let decision = summarize_listen(&outcomes);
    assert_eq!(decision, Ok(ListenReport { bound: 2, failed: 0 }));
    assert_eq!(after_listen(&decision), DriverState::Listening { full: true });
}

#[test]
fn all_malformed_fails_and_never_runs() {
    let outcomes = outcomes_for(&["a", "b:c", ""], &[true, true, true]);
    let decision = summarize_listen(&outcomes);
    assert_eq!(decision, Err(StartupError::NoAddressBound));
    let mut s = after_listen(&decision);
    assert_eq!(s, DriverState::Stopped);
    for e in [NodeEvent::NewListenAddr("x".to_string()), NodeEvent::Other] {
        let (next, action) = step(s, e);
        assert_eq!(action, Action::Ignore);
        s = next;
        assert!(!is_running(s));
    }
}

#[test]
fn all_binds_failing_fails() {
    let outcomes = outcomes_for(&["127.0.0.1:1", "[::1]:2"], &[false, false]);
    assert_eq!(outcomes, vec![ListenOutcome::BindFailed, ListenOutcome::BindFailed]);
    assert_eq!(summarize_listen(&outcomes), Err(StartupError::NoAddressBound));
}

#[test]
fn empty_address_list_fails() {
    assert_eq!(summarize_listen(&Vec::new()), Err(StartupError::NoAddressBound));
}

#[test]
fn running_loop_dispatches_and_stops() {
    let s = DriverState::Listening { full: true };
    let (s, a) = step(s, NodeEvent::NewListenAddr("/ip4/127.0.0.1/udp/1/quic-v1".to_string()));
    assert_eq!(s, DriverState::Running);
    assert_eq!(a, Action::ReportListening("/ip4/127.0.0.1/udp/1/quic-v1".to_string()));
    assert!(is_running(s));
    let (s, a) = step(s, NodeEvent::Behaviour(BehaviourKind::Mdns, "discovered".to_string()));
    assert_eq!(a, Action::ReportBehaviour(BehaviourKind::Mdns, "discovered".to_string()));
    let (s, a) = step(s, NodeEvent::Other);
    assert_eq!((s, a), (DriverState::Running, Action::Ignore));
    let (s, a) = step(s, NodeEvent::Shutdown);
    assert_eq!((s, a), (DriverState::Stopped, Action::Stop));
    let (s, a) = step(s, NodeEvent::Other);
    assert_eq!((s, a), (DriverState::Stopped, Action::Ignore));
}
