use recreate::browser::executable::{find, PathProbe};
use recreate::browser::retry::{reconnectable, transport_lost, Failure, IoKind};

fn wrapped(kind: IoKind, message: &str) -> Failure {
    Failure {
        message: format!("Runtime.evaluate: IO error: {message}"),
        kinds: vec![kind],
    }
}

fn plain(message: &str) -> Failure {
    Failure {
        message: message.into(),
        kinds: Vec::new(),
    }
}

#[test]
fn windows_forcibly_closed_connection_is_retried() {
    let error = wrapped(
        IoKind::ConnectionReset,
        "An existing connection was forcibly closed by the remote host. (os error 10054)",
    );
    assert!(reconnectable(&error));
}

#[test]
fn every_dropped_transport_kind_is_retried() {
    for kind in [
        IoKind::ConnectionReset,
        IoKind::ConnectionAborted,
        IoKind::BrokenPipe,
        IoKind::UnexpectedEof,
        IoKind::NotConnected,
    ] {
        assert!(reconnectable(&wrapped(kind, "dropped")), "{kind:?}");
    }
}

#[test]
fn stalled_and_disconnected_commands_are_retried() {
    assert!(reconnectable(&plain("CDP command timed out: Runtime.evaluate")));
    assert!(reconnectable(&plain("CDP disconnected")));
}

#[test]
fn a_browser_that_is_gone_is_reported_but_never_retried() {
    let refused = wrapped(
        IoKind::ConnectionRefused,
        "No connection could be made because the target machine actively refused it.",
    );
    assert!(transport_lost(&refused));
    assert!(!reconnectable(&refused));
}

#[test]
fn a_lost_transport_is_distinguished_from_a_stalled_command() {
    assert!(transport_lost(&wrapped(IoKind::ConnectionReset, "gone")));
    assert!(!transport_lost(&plain("CDP command timed out: Runtime.evaluate")));
}

#[test]
fn a_real_protocol_error_is_not_retried() {
    let error = plain("Runtime.evaluate: invalid parameters");
    assert!(!reconnectable(&error));
    assert!(!reconnectable(&wrapped(IoKind::Other, "refused")));
}

#[test]
fn the_first_existing_candidate_is_the_browser() {
    let candidates = vec![
        PathProbe {
            path: "/usr/bin/google-chrome".into(),
            exists: false,
        },
        PathProbe {
            path: "/usr/bin/chromium".into(),
            exists: true,
        },
        PathProbe {
            path: "/usr/bin/microsoft-edge".into(),
            exists: true,
        },
    ];
    assert_eq!(find(&candidates).as_deref(), Some("/usr/bin/chromium"));
    assert_eq!(find(&Vec::new()), None);
}
