use jftermd::args::{parse_args, Args};
use jftermd::daemon::{
    redirect_std, unlink_stale_socket, AcquireAction, AcquireEvent, Acquisition, RedirectPlan,
};

fn strings(parts: &[&str]) -> Vec<String> {
    parts.iter().map(|s| s.to_string()).collect()
}

#[test]
fn a_free_socket_is_bound() {
    let mut a = Acquisition::new(1000);
    assert_eq!(a.acquire_daemon(AcquireEvent::Succeeded), AcquireAction::Bind);
    assert_eq!(a.acquire_daemon(AcquireEvent::Succeeded), AcquireAction::Serve);
}

#[test]
fn a_held_lock_means_already_running() {
    let mut a = Acquisition::new(1000);
    assert_eq!(a.acquire_daemon(AcquireEvent::LockHeld), AcquireAction::AlreadyRunning);
    let mut a = Acquisition::new(1000);
    assert_eq!(a.acquire_daemon(AcquireEvent::Failed), AcquireAction::Fail);
}

#[test]
fn a_stale_socket_is_removed_and_bound_again() {
    let mut a = Acquisition::new(1000);
    a.acquire_daemon(AcquireEvent::Succeeded);
    assert_eq!(a.acquire_daemon(AcquireEvent::AddressInUse), AcquireAction::Inspect);
    let own = AcquireEvent::Leftover { is_socket: true, owner: 1000 };
    assert_eq!(a.acquire_daemon(own), AcquireAction::Unlink);
    assert_eq!(a.acquire_daemon(AcquireEvent::Succeeded), AcquireAction::Bind);
    assert_eq!(a.acquire_daemon(AcquireEvent::Succeeded), AcquireAction::Serve);
}

#[test]
fn a_second_address_in_use_fails() {
    let mut a = Acquisition::new(1000);
    a.acquire_daemon(AcquireEvent::Succeeded);
    a.acquire_daemon(AcquireEvent::AddressInUse);
    a.acquire_daemon(AcquireEvent::Leftover { is_socket: true, owner: 1000 });
    a.acquire_daemon(AcquireEvent::Succeeded);
    assert_eq!(a.acquire_daemon(AcquireEvent::AddressInUse), AcquireAction::Fail);
}

#[test]
fn only_own_sockets_are_removed() {
    assert_eq!(unlink_stale_socket(false, 1000, 1000), AcquireAction::RefuseNonSocket);
    assert_eq!(unlink_stale_socket(true, 0, 1000), AcquireAction::RefuseForeign);
    assert_eq!(unlink_stale_socket(true, 1000, 1000), AcquireAction::Unlink);
    let mut a = Acquisition::new(1000);
    a.acquire_daemon(AcquireEvent::Succeeded);
    a.acquire_daemon(AcquireEvent::AddressInUse);
    let file = AcquireEvent::Leftover { is_socket: false, owner: 1000 };
    assert_eq!(a.acquire_daemon(file), AcquireAction::RefuseNonSocket);
}

#[test]
fn standard_streams_are_redirected() {
    assert_eq!(
        redirect_std(5),
        RedirectPlan { targets: vec![0, 1, 2], close_source: true }
    );
    assert_eq!(
        redirect_std(1),
        RedirectPlan { targets: vec![0, 2], close_source: false }
    );
}

#[test]
fn command_line() {
    let args = parse_args(&strings(&["--foreground", "--socket", "/s", "what"]));
    assert_eq!(
        args,
        Args {
            foreground: true,
            socket: Some("/s".to_string()),
            unknown: strings(&["what"]),
        }
    );
    let args = parse_args(&strings(&["-f"]));
    assert!(args.foreground);
    assert_eq!(args.socket, None);
    // The argument behind --socket is its value, whatever it is.
    let args = parse_args(&strings(&["--socket", "-f", "--socket"]));
    assert!(!args.foreground);
    assert_eq!(args.socket, None);
    let args = parse_args(&strings(&["--socket", "a", "--socket", "b"]));
    assert_eq!(args.socket, Some("b".to_string()));
    assert!(args.unknown.is_empty());
}
