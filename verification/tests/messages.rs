use nixly_launcher::apptoggle::{
    is_dead_socket, parse_arg, recover, wait_step, Recovery, Wait, DAEMON_START_TIMEOUT,
    RETRY_INTERVAL,
};
use nixly_launcher::filepath::FilePath;
use nixly_launcher::protocol::{lock_path, socket_path, Command, ErrorKind};
use nixly_launcher::socket::{already_running, lock_outcome};

const ALL: [Command; 4] = [Command::Toggle, Command::Show, Command::Hide, Command::Quit];

const ERRORS: [ErrorKind; 6] = [
    ErrorKind::AddrInUse,
    ErrorKind::NotFound,
    ErrorKind::ConnectionRefused,
    ErrorKind::UnexpectedEof,
    ErrorKind::InvalidData,
    ErrorKind::Other,
];

fn text(p: FilePath) -> String {
    String::from_utf8(p.bytes).unwrap()
}

#[test]
fn commands_survive_the_wire() {
    let mut wire = Vec::new();
    for c in ALL {
        c.write_to(&mut wire);
    }
    assert_eq!(wire, vec![1, 2, 3, 4]);
    for (b, c) in wire.into_iter().zip(ALL) {
        assert_eq!(Command::read_from(Ok(b)), Ok(Some(c)));
    }
}

#[test]
fn other_bytes_are_no_commands() {
    for b in 0..=255u8 {
        assert_eq!(Command::from_byte(b).is_some(), (1..=4).contains(&b));
    }
}

#[test]
fn a_connection_without_a_byte_carries_no_command() {
    for e in ERRORS {
        let expected = if e == ErrorKind::UnexpectedEof { Ok(None) } else { Err(e) };
        assert_eq!(Command::read_from(Err(e)), expected);
    }
}

#[test]
fn run_time_files() {
    assert_eq!(text(socket_path(None)), "/tmp/nixly_launcher.sock");
    assert_eq!(text(lock_path(None)), "/tmp/nixly_launcher.lock");
    let dir = || Some(FilePath::new("/run/user/1000"));
    assert_eq!(text(socket_path(dir())), "/run/user/1000/nixly_launcher.sock");
    assert_eq!(text(lock_path(dir())), "/run/user/1000/nixly_launcher.lock");
}

#[test]
fn only_an_address_in_use_means_another_daemon() {
    for e in ERRORS {
        assert_eq!(already_running(e), e == ErrorKind::AddrInUse);
    }
    assert_eq!(lock_outcome(true), Ok(()));
    assert_eq!(lock_outcome(false), Err(ErrorKind::AddrInUse));
}

#[test]
fn arguments_name_commands() {
    assert_eq!(parse_arg(None), Some(Command::Toggle));
    assert_eq!(parse_arg(Some("toggle")), Some(Command::Toggle));
    assert_eq!(parse_arg(Some("show")), Some(Command::Show));
    assert_eq!(parse_arg(Some("hide")), Some(Command::Hide));
    assert_eq!(parse_arg(Some("quit")), Some(Command::Quit));
    assert_eq!(parse_arg(Some("Toggle")), None);
    assert_eq!(parse_arg(Some("")), None);
}

#[test]
fn a_daemon_is_started_only_where_none_is() {
    for e in ERRORS {
        let dead = e == ErrorKind::NotFound || e == ErrorKind::ConnectionRefused;
        assert_eq!(is_dead_socket(e), dead);
        for c in ALL {
            let expected = if !dead {
                Recovery::GiveUp
            } else if c == Command::Hide || c == Command::Quit {
                Recovery::Fail
            } else {
                Recovery::StartDaemon
            };
            assert_eq!(recover(c, e), expected);
        }
    }
}

#[test]
fn waiting_for_a_daemon_ends() {
    assert_eq!(wait_step(false, 0), Wait::RetryAfter(RETRY_INTERVAL));
    assert_eq!(wait_step(false, DAEMON_START_TIMEOUT - 1), Wait::RetryAfter(50));
    assert_eq!(wait_step(false, DAEMON_START_TIMEOUT), Wait::TimedOut);
    assert_eq!(wait_step(true, 10_000), Wait::Connected);
}
