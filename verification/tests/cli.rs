//! Client-side interpretation of daemon answers and start/stop decisions.

use lanyard_ssh_agent::backend::Source;
use lanyard_ssh_agent::cli::{
    expect_update, instance_lock_held, runtime_directory, shutdown_outcome, status_line,
    status_report, takeover, CliError, Occupant, Removal, ShutdownOutcome, StatusReport, Takeover,
};
use lanyard_ssh_agent::control::{CandidateStatus, Response};
use lanyard_ssh_agent::proxy::ErrorKind;

fn candidate(path: &[u8], source: Source, reachable: bool) -> CandidateStatus {
    CandidateStatus { path: path.to_vec(), source, reachable }
}

#[test]
fn mutation_answers_are_checked() {
    assert_eq!(expect_update(Response::Updated { changed: false }), Ok(()));
    assert_eq!(
        expect_update(Response::Error { message: "invalid request: eof".to_owned() }),
        Err(CliError { kind: ErrorKind::Other, message: "invalid request: eof".to_owned() })
    );
    assert_eq!(
        expect_update(Response::Status { candidates: Vec::new() }),
        Err(CliError {
            kind: ErrorKind::InvalidData,
            message: "daemon returned status for a mutation".to_owned()
        })
    );
}

#[test]
fn status_lines_are_tab_separated() {
    assert_eq!(
        status_line(&candidate(b"/tmp/a.sock", Source::Registered, true)),
        b"registered\tready\t/tmp/a.sock".to_vec()
    );
    assert_eq!(
        status_line(&candidate(b"/tmp/ssh-x/agent.1", Source::Discovered, false)),
        b"discovered\tdown\t/tmp/ssh-x/agent.1".to_vec()
    );
    assert_eq!(
        status_line(&candidate(b"/op.sock", Source::Fallback, true)),
        b"fallback\tready\t/op.sock".to_vec()
    );
}

#[test]
fn status_answers_become_reports() {
    let candidates = vec![
        candidate(b"/a", Source::Registered, true),
        candidate(b"/fallback", Source::Fallback, false),
    ];
    assert_eq!(
        status_report(Response::Status { candidates: candidates.clone() }, false),
        Ok(StatusReport::Lines {
            lines: vec![
                b"registered\tready\t/a".to_vec(),
                b"fallback\tdown\t/fallback".to_vec()
            ]
        })
    );
    assert_eq!(
        status_report(Response::Status { candidates: candidates.clone() }, true),
        Ok(StatusReport::Json { candidates })
    );
    assert_eq!(
        status_report(Response::Error { message: "boom".to_owned() }, true),
        Err(CliError { kind: ErrorKind::Other, message: "boom".to_owned() })
    );
    assert_eq!(
        status_report(Response::Updated { changed: true }, false),
        Err(CliError {
            kind: ErrorKind::InvalidData,
            message: "daemon returned mutation result for status".to_owned()
        })
    );
}

#[test]
fn the_runtime_directory_must_be_set_and_non_empty() {
    assert_eq!(runtime_directory(Some(b"/run/user/1000".to_vec())), Ok(b"/run/user/1000".to_vec()));
    let missing = CliError { kind: ErrorKind::NotFound, message: "XDG_RUNTIME_DIR is not set".to_owned() };
    assert_eq!(runtime_directory(Some(Vec::new())), Err(missing));
    assert_eq!(
        runtime_directory(None),
        Err(CliError { kind: ErrorKind::NotFound, message: "XDG_RUNTIME_DIR is not set".to_owned() })
    );
}

#[test]
fn shutdown_reports_the_first_real_failure() {
    assert_eq!(shutdown_outcome(true, Removal::Failed, Removal::Failed), ShutdownOutcome::ServeFailed);
    assert_eq!(shutdown_outcome(false, Removal::Failed, Removal::Failed), ShutdownOutcome::AgentCleanupFailed);
    assert_eq!(shutdown_outcome(false, Removal::NotFound, Removal::Failed), ShutdownOutcome::ControlCleanupFailed);
    assert_eq!(shutdown_outcome(false, Removal::Removed, Removal::NotFound), ShutdownOutcome::Clean);
    assert_eq!(shutdown_outcome(false, Removal::NotFound, Removal::NotFound), ShutdownOutcome::Clean);
}

#[test]
fn occupied_socket_paths_are_taken_over_only_when_stale() {
    assert_eq!(takeover(Occupant::Listening), Takeover::RefuseLive);
    assert_eq!(takeover(Occupant::StaleSocket), Takeover::ReplaceStale);
    assert_eq!(takeover(Occupant::OtherFile), Takeover::RefuseNonSocket);
    assert_eq!(takeover(Occupant::Missing), Takeover::Rebind);
    assert_eq!(takeover(Occupant::Unreadable), Takeover::Propagate);
    assert_eq!(
        Takeover::RefuseLive.refusal(),
        Some(CliError {
            kind: ErrorKind::AddrInUse,
            message: "another Lanyard-compatible agent is already listening".to_owned()
        })
    );
    assert_eq!(
        Takeover::RefuseNonSocket.refusal(),
        Some(CliError {
            kind: ErrorKind::AlreadyExists,
            message: "refusing to replace a non-socket path".to_owned()
        })
    );
    assert_eq!(Takeover::ReplaceStale.refusal(), None);
    assert_eq!(
        instance_lock_held(),
        CliError {
            kind: ErrorKind::AddrInUse,
            message: "another Lanyard instance owns the runtime directory".to_owned()
        }
    );
}
