//! Decisions of the command-line client and of the daemon's start and stop.
//!
//! The shell performs the socket and filesystem work; these functions decide
//! what a daemon answer means to the user, how status lines read, and which
//! error a start-up or shutdown step reports.
use vstd::prelude::*;

use crate::backend::Source;
use crate::control::{status_views, CandidateStatus, CandidateStatusModel, Response, ResponseModel};
use crate::proxy::ErrorKind;

verus! {

/// An error reported to the user, with the I/O error kind it is raised as.
#[derive(Debug, PartialEq, Eq)]
pub struct CliError {
    /// The kind of the I/O error.
    pub kind: ErrorKind,
    /// The human-readable description.
    pub message: String,
}

/// A client error as the specifications see it.
pub ghost struct CliErrorModel {
    pub kind: ErrorKind,
    pub message: Seq<char>,
}

impl View for CliError {
    type V = CliErrorModel;

    open spec fn view(&self) -> CliErrorModel {
        CliErrorModel { kind: self.kind, message: self.message@ }
    }
}

/// The view of a client result.
pub open spec fn result_view<T, V>(result: Result<T, CliError>, value: spec_fn(T) -> V) -> Result<
    V,
    CliErrorModel,
> {
    match result {
        Ok(inner) => Ok(value(inner)),
        Err(error) => Err(error@),
    }
}

/// What a mutation answer (`register`, `unregister`) means to the client.
pub open spec fn spec_expect_update(response: ResponseModel) -> Result<(), CliErrorModel> {
    match response {
        ResponseModel::Updated { .. } => Ok(()),
        ResponseModel::Error { message } => Err(CliErrorModel { kind: ErrorKind::Other, message }),
        ResponseModel::Status { .. } => Err(
            CliErrorModel {
                kind: ErrorKind::InvalidData,
                message: "daemon returned status for a mutation"@,
            },
        ),
    }
}

/// Checks the daemon's answer to a mutation request.
pub fn expect_update(response: Response) -> (outcome: Result<(), CliError>)
    ensures
        result_view(outcome, |unit: ()| unit) == spec_expect_update(response@),
{
    match response {
        Response::Updated { .. } => Ok(()),
        Response::Error { message } => Err(CliError { kind: ErrorKind::Other, message }),
        Response::Status { .. } => Err(
            CliError {
                kind: ErrorKind::InvalidData,
                message: "daemon returned status for a mutation".to_owned(),
            },
        ),
    }
}

/// The ASCII name of a candidate source.
pub open spec fn source_name(source: Source) -> Seq<u8> {
    match source {
        Source::Registered => seq![114u8, 101, 103, 105, 115, 116, 101, 114, 101, 100],
        Source::Discovered => seq![100u8, 105, 115, 99, 111, 118, 101, 114, 101, 100],
        Source::Fallback => seq![102u8, 97, 108, 108, 98, 97, 99, 107],
    }
}

/// `ready` for a reachable candidate, `down` otherwise.
pub open spec fn readiness_name(reachable: bool) -> Seq<u8> {
    if reachable {
        seq![114u8, 101, 97, 100, 121]
    } else {
        seq![100u8, 111, 119, 110]
    }
}

/// The tab that separates status columns.
pub const TAB: u8 = 9;

/// One human-readable status line: source, readiness and path, tab-separated.
pub open spec fn spec_status_line(candidate: CandidateStatusModel) -> Seq<u8> {
    source_name(candidate.source) + seq![TAB] + readiness_name(candidate.reachable) + seq![TAB]
        + candidate.path
}

fn source_name_bytes(source: Source) -> (name: Vec<u8>)
    ensures
        name@ == source_name(source),
{
    let name = match source {
        Source::Registered => vec![114u8, 101, 103, 105, 115, 116, 101, 114, 101, 100],
        Source::Discovered => vec![100u8, 105, 115, 99, 111, 118, 101, 114, 101, 100],
        Source::Fallback => vec![102u8, 97, 108, 108, 98, 97, 99, 107],
    };
    assert(name@ =~= source_name(source));
    name
}

fn readiness_bytes(reachable: bool) -> (name: Vec<u8>)
    ensures
        name@ == readiness_name(reachable),
{
    let name = if reachable {
        vec![114u8, 101, 97, 100, 121]
    } else {
        vec![100u8, 111, 119, 110]
    };
    assert(name@ =~= readiness_name(reachable));
    name
}

/// Formats one candidate as a status line (the path is raw bytes).
pub fn status_line(candidate: &CandidateStatus) -> (line: Vec<u8>)
    ensures
        line@ == spec_status_line(candidate@),
{
    let mut line = source_name_bytes(candidate.source);
    line.push(TAB);
    let mut readiness = readiness_bytes(candidate.reachable);
    line.append(&mut readiness);
    line.push(TAB);
    let mut index: usize = 0;
    let ghost start = line@;
    while index < candidate.path.len()
        invariant
            index <= candidate.path@.len(),
            line@ == start + candidate.path@.take(index as int),
        decreases candidate.path@.len() - index,
    {
        line.push(candidate.path[index]);
        assert(candidate.path@.take(index as int + 1) =~= candidate.path@.take(index as int).push(
            candidate.path@[index as int],
        ));
        index = index + 1;
    }
    assert(candidate.path@.take(index as int) =~= candidate.path@);
    assert(line@ =~= spec_status_line(candidate@));
    line
}

/// How a status answer is shown.
#[derive(Debug, PartialEq, Eq)]
pub enum StatusReport {
    /// Print the status answer as one JSON line.
    Json {
        /// The candidates of the answer.
        candidates: Vec<CandidateStatus>,
    },
    /// Print one line per candidate.
    Lines {
        /// The lines, in candidate order.
        lines: Vec<Vec<u8>>,
    },
}

/// A status report as the specifications see it.
pub ghost enum StatusReportModel {
    Json { candidates: Seq<CandidateStatusModel> },
    Lines { lines: Seq<Seq<u8>> },
}

impl View for StatusReport {
    type V = StatusReportModel;

    open spec fn view(&self) -> StatusReportModel {
        match self {
            StatusReport::Json { candidates } => StatusReportModel::Json {
                candidates: status_views(candidates@),
            },
            StatusReport::Lines { lines } => StatusReportModel::Lines {
                lines: lines@.map_values(|line: Vec<u8>| line@),
            },
        }
    }
}

/// What a status answer means to the client.
pub open spec fn spec_status_report(response: ResponseModel, json: bool) -> Result<
    StatusReportModel,
    CliErrorModel,
> {
    match response {
        ResponseModel::Status { candidates } => if json {
            Ok(StatusReportModel::Json { candidates })
        } else {
            Ok(
                StatusReportModel::Lines {
                    lines: candidates.map_values(
                        |candidate: CandidateStatusModel| spec_status_line(candidate),
                    ),
                },
            )
        },
        ResponseModel::Error { message } => Err(CliErrorModel { kind: ErrorKind::Other, message }),
        ResponseModel::Updated { .. } => Err(
            CliErrorModel {
                kind: ErrorKind::InvalidData,
                message: "daemon returned mutation result for status"@,
            },
        ),
    }
}

/// Turns the daemon's answer to a status request into what the client prints.
pub fn status_report(response: Response, json: bool) -> (report: Result<StatusReport, CliError>)
    ensures
        result_view(report, |shown: StatusReport| shown@) == spec_status_report(response@, json),
{
    match response {
        Response::Status { candidates } => {
            if json {
                return Ok(StatusReport::Json { candidates });
            }
            let mut lines: Vec<Vec<u8>> = Vec::new();
            let mut index: usize = 0;
            let ghost views = status_views(candidates@);
            while index < candidates.len()
                invariant
                    index <= candidates@.len(),
                    views == status_views(candidates@),
                    lines@.map_values(|line: Vec<u8>| line@) == views.take(index as int).map_values(
                        |candidate: CandidateStatusModel| spec_status_line(candidate),
                    ),
                decreases candidates@.len() - index,
            {
                let line = status_line(&candidates[index]);
                let ghost earlier = lines@.map_values(|line: Vec<u8>| line@);
                lines.push(line);
                assert(lines@.map_values(|line: Vec<u8>| line@) =~= earlier.push(line@));
                assert(views.take(index as int + 1).map_values(
                    |candidate: CandidateStatusModel| spec_status_line(candidate),
                ) =~= views.take(index as int).map_values(
                    |candidate: CandidateStatusModel| spec_status_line(candidate),
                ).push(spec_status_line(views[index as int])));
                index = index + 1;
            }
            assert(views.take(index as int) =~= views);
            Ok(StatusReport::Lines { lines })
        },
        Response::Error { message } => Err(CliError { kind: ErrorKind::Other, message }),
        Response::Updated { .. } => Err(
            CliError {
                kind: ErrorKind::InvalidData,
                message: "daemon returned mutation result for status".to_owned(),
            },
        ),
    }
}

/// The runtime directory named by `XDG_RUNTIME_DIR`, which must be set and non-empty.
pub open spec fn spec_runtime_directory(value: Option<Seq<u8>>) -> Result<Seq<u8>, CliErrorModel> {
    match value {
        Some(directory) => if directory.len() > 0 {
            Ok(directory)
        } else {
            Err(
                CliErrorModel { kind: ErrorKind::NotFound, message: "XDG_RUNTIME_DIR is not set"@ },
            )
        },
        None => Err(
            CliErrorModel { kind: ErrorKind::NotFound, message: "XDG_RUNTIME_DIR is not set"@ },
        ),
    }
}

/// Chooses the runtime directory from the value of `XDG_RUNTIME_DIR`.
pub fn runtime_directory(value: Option<Vec<u8>>) -> (directory: Result<Vec<u8>, CliError>)
    ensures
        result_view(directory, |path: Vec<u8>| path@) == spec_runtime_directory(
            match value {
                Some(bytes) => Some(bytes@),
                None => None,
            },
        ),
{
    match value {
        Some(directory) => {
            if directory.len() > 0 {
                Ok(directory)
            } else {
                Err(
                    CliError {
                        kind: ErrorKind::NotFound,
                        message: "XDG_RUNTIME_DIR is not set".to_owned(),
                    },
                )
            }
        },
        None => Err(
            CliError { kind: ErrorKind::NotFound, message: "XDG_RUNTIME_DIR is not set".to_owned() },
        ),
    }
}

/// The outcome of removing a socket file.
#[derive(Clone, Copy, Debug, PartialEq, Eq, Structural)]
pub enum Removal {
    /// The file was removed.
    Removed,
    /// There was nothing to remove.
    NotFound,
    /// Removing failed for another reason.
    Failed,
}

/// Which result a stopped daemon reports.
#[derive(Clone, Copy, Debug, PartialEq, Eq, Structural)]
pub enum ShutdownOutcome {
    /// Serving failed: report that error.
    ServeFailed,
    /// Removing the agent socket failed: report that error.
    AgentCleanupFailed,
    /// Removing the control socket failed: report that error.
    ControlCleanupFailed,
    /// Everything stopped cleanly.
    Clean,
}

/// A serving error wins; otherwise the first socket that failed to be removed
/// for a reason other than being already gone.
pub fn shutdown_outcome(serve_failed: bool, agent: Removal, control: Removal) -> (outcome:
    ShutdownOutcome)
    ensures
        serve_failed ==> outcome == ShutdownOutcome::ServeFailed,
        !serve_failed && agent == Removal::Failed ==> outcome
            == ShutdownOutcome::AgentCleanupFailed,
        !serve_failed && agent != Removal::Failed && control == Removal::Failed ==> outcome
            == ShutdownOutcome::ControlCleanupFailed,
        !serve_failed && agent != Removal::Failed && control != Removal::Failed ==> outcome
            == ShutdownOutcome::Clean,
{
    if serve_failed {
        ShutdownOutcome::ServeFailed
    } else if agent == Removal::Failed {
        ShutdownOutcome::AgentCleanupFailed
    } else if control == Removal::Failed {
        ShutdownOutcome::ControlCleanupFailed
    } else {
        ShutdownOutcome::Clean
    }
}

/// What occupies a socket path that could not be bound.
#[derive(Clone, Copy, Debug, PartialEq, Eq, Structural)]
pub enum Occupant {
    /// A live listener accepted a connection.
    Listening,
    /// A socket file that nothing listens on.
    StaleSocket,
    /// A file that is not a socket.
    OtherFile,
    /// Nothing is there any more.
    Missing,
    /// The path could not be inspected; that error is reported.
    Unreadable,
}

/// How to continue after the socket path was found occupied.
#[derive(Clone, Copy, Debug, PartialEq, Eq, Structural)]
pub enum Takeover {
    /// Remove the stale socket and bind again.
    ReplaceStale,
    /// Bind again without removing anything.
    Rebind,
    /// Give up, reporting `AddrInUse`: another agent is listening.
    RefuseLive,
    /// Give up, reporting `AlreadyExists`: the path is not a socket.
    RefuseNonSocket,
    /// Give up, reporting the inspection error.
    Propagate,
}

/// A live listener and non-socket files are never replaced; only a stale
/// socket is removed.
pub fn takeover(occupant: Occupant) -> (step: Takeover)
    ensures
        occupant == Occupant::Listening <==> step == Takeover::RefuseLive,
        occupant == Occupant::StaleSocket <==> step == Takeover::ReplaceStale,
        occupant == Occupant::OtherFile <==> step == Takeover::RefuseNonSocket,
        occupant == Occupant::Missing <==> step == Takeover::Rebind,
        occupant == Occupant::Unreadable <==> step == Takeover::Propagate,
{
    match occupant {
        Occupant::Listening => Takeover::RefuseLive,
        Occupant::StaleSocket => Takeover::ReplaceStale,
        Occupant::OtherFile => Takeover::RefuseNonSocket,
        Occupant::Missing => Takeover::Rebind,
        Occupant::Unreadable => Takeover::Propagate,
    }
}

impl Takeover {
    /// The error reported when the takeover gives up with an error of its own.
    pub fn refusal(self) -> (error: Option<CliError>)
        ensures
            self == Takeover::RefuseLive ==> (error matches Some(e) && e@ == (CliErrorModel {
                kind: ErrorKind::AddrInUse,
                message: "another Lanyard-compatible agent is already listening"@,
            })),
            self == Takeover::RefuseNonSocket ==> (error matches Some(e) && e@ == (CliErrorModel {
                kind: ErrorKind::AlreadyExists,
                message: "refusing to replace a non-socket path"@,
            })),
            self != Takeover::RefuseLive && self != Takeover::RefuseNonSocket ==> error is None,
    {
        match self {
            Takeover::RefuseLive => Some(
                CliError {
                    kind: ErrorKind::AddrInUse,
                    message: "another Lanyard-compatible agent is already listening".to_owned(),
                },
            ),
            Takeover::RefuseNonSocket => Some(
                CliError {
                    kind: ErrorKind::AlreadyExists,
                    message: "refusing to replace a non-socket path".to_owned(),
                },
            ),
            _ => None,
        }
    }
}

/// The error reported when another daemon holds the instance lock.
pub fn instance_lock_held() -> (error: CliError)
    ensures
        error@ == (CliErrorModel {
            kind: ErrorKind::AddrInUse,
            message: "another Lanyard instance owns the runtime directory"@,
        }),
{
    CliError {
        kind: ErrorKind::AddrInUse,
        message: "another Lanyard instance owns the runtime directory".to_owned(),
    }
}

} // verus!
