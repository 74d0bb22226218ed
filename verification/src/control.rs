//! Local JSON-lines control protocol for a running Lanyard daemon.
//!
//! The shell reads one line, decodes it as JSON and probes reachability; this
//! module bounds and frames the line, applies registrations, and assembles
//! status answers.
use vstd::prelude::*;

use crate::backend::{
    backend_views, spec_register, spec_unregister, spellings_without, Backend, CandidateModel,
    Registry, RegistryModel, Source,
};
use crate::bytes::copy_bytes;
use crate::paths::spec_normalize_path;
use crate::shared::SharedRegistry;

verus! {

/// Largest accepted control request line, newline included.
pub const MAXIMUM_CONTROL_MESSAGE_BYTES: u64 = 262144;

/// The line feed that ends every control message.
pub const NEWLINE: u8 = 10;

/// A request accepted by the daemon control socket.
#[derive(Clone, Debug, PartialEq, Eq)]
pub enum Request {
    /// Add or refresh an explicit upstream.
    Register {
        /// Upstream Unix socket path.
        path: Vec<u8>,
    },
    /// Remove an explicit upstream.
    Unregister {
        /// Upstream Unix socket path.
        path: Vec<u8>,
    },
    /// Inspect the current ordered candidate set.
    Status,
}

/// A control request as the specifications see it.
pub ghost enum RequestModel {
    Register(Seq<u8>),
    Unregister(Seq<u8>),
    Status,
}

impl View for Request {
    type V = RequestModel;

    open spec fn view(&self) -> RequestModel {
        match self {
            Request::Register { path } => RequestModel::Register(path@),
            Request::Unregister { path } => RequestModel::Unregister(path@),
            Request::Status => RequestModel::Status,
        }
    }
}

/// One candidate in a status response.
#[derive(Clone, Debug, PartialEq, Eq)]
pub struct CandidateStatus {
    /// Socket path.
    pub path: Vec<u8>,
    /// Candidate origin.
    pub source: Source,
    /// Whether a connection succeeds at status time.
    pub reachable: bool,
}

/// A candidate status as the specifications see it.
pub ghost struct CandidateStatusModel {
    pub path: Seq<u8>,
    pub source: Source,
    pub reachable: bool,
}

impl View for CandidateStatus {
    type V = CandidateStatusModel;

    open spec fn view(&self) -> CandidateStatusModel {
        CandidateStatusModel { path: self.path@, source: self.source, reachable: self.reachable }
    }
}

/// A response returned by the daemon control socket.
#[derive(Clone, Debug, PartialEq, Eq)]
pub enum Response {
    /// Mutation acknowledgement.
    Updated {
        /// Whether daemon state changed.
        changed: bool,
    },
    /// Ordered upstream state.
    Status {
        /// Candidates in routing priority order.
        candidates: Vec<CandidateStatus>,
    },
    /// Invalid request or daemon error.
    Error {
        /// Human-readable failure description.
        message: String,
    },
}

/// A control response as the specifications see it.
pub ghost enum ResponseModel {
    Updated { changed: bool },
    Status { candidates: Seq<CandidateStatusModel> },
    Error { message: Seq<char> },
}

/// The views of a sequence of candidate statuses.
pub open spec fn status_views(candidates: Seq<CandidateStatus>) -> Seq<CandidateStatusModel> {
    candidates.map_values(|candidate: CandidateStatus| candidate@)
}

impl View for Response {
    type V = ResponseModel;

    open spec fn view(&self) -> ResponseModel {
        match self {
            Response::Updated { changed } => ResponseModel::Updated { changed: *changed },
            Response::Status { candidates } => ResponseModel::Status {
                candidates: status_views(candidates@),
            },
            Response::Error { message } => ResponseModel::Error { message: message@ },
        }
    }
}

/// Why a control line was refused before decoding.
#[derive(Clone, Copy, Debug, PartialEq, Eq, Structural)]
pub enum LineFault {
    /// The line is longer than `MAXIMUM_CONTROL_MESSAGE_BYTES`.
    TooLarge,
    /// The line does not end with a newline.
    Unterminated,
}

impl LineFault {
    /// The text reporting this fault.
    pub open spec fn spec_message(self) -> Seq<char> {
        match self {
            LineFault::TooLarge => "control request exceeds protocol bounds"@,
            LineFault::Unterminated => "control request must end with a newline"@,
        }
    }

    /// The error response reporting this fault.
    pub fn response(self) -> (response: Response)
        ensures
            response@ == (ResponseModel::Error { message: self.spec_message() }),
    {
        let message = match self {
            LineFault::TooLarge => "control request exceeds protocol bounds".to_owned(),
            LineFault::Unterminated => "control request must end with a newline".to_owned(),
        };
        Response::Error { message }
    }
}

/// The request body of a control line: the line without its final newline,
/// when it is within bounds and terminated.
pub open spec fn spec_request_body(line: Seq<u8>) -> Result<Seq<u8>, LineFault> {
    if line.len() > MAXIMUM_CONTROL_MESSAGE_BYTES {
        Err(LineFault::TooLarge)
    } else if line.len() > 0 && line.last() == NEWLINE {
        Ok(line.drop_last())
    } else {
        Err(LineFault::Unterminated)
    }
}

/// Bounds and frames one control line as read from the socket.
pub fn request_body(line: &[u8]) -> (body: Result<&[u8], LineFault>)
    ensures
        spec_request_body(line@) == match body {
            Ok(bytes) => Ok(bytes@),
            Err(fault) => Err(fault),
        },
{
    if line.len() as u64 > MAXIMUM_CONTROL_MESSAGE_BYTES {
        return Err(LineFault::TooLarge);
    }
    if line.len() > 0 && line[line.len() - 1] == NEWLINE {
        Ok(vstd::slice::slice_subrange(line, 0, line.len() - 1))
    } else {
        Err(LineFault::Unterminated)
    }
}

/// The effect of a mutation request on a registry and its answer; a status
/// request leaves the registry alone and has no answer here.
pub open spec fn spec_apply_update(registry: RegistryModel, request: RequestModel) -> (
    RegistryModel,
    Option<ResponseModel>,
) {
    match request {
        RequestModel::Register(path) => (
            spec_register(registry, spec_normalize_path(path)),
            Some(ResponseModel::Updated { changed: true }),
        ),
        RequestModel::Unregister(path) => (
            spec_unregister(registry, spec_normalize_path(path)),
            Some(
                ResponseModel::Updated {
                    changed: registry.registered.contains(spec_normalize_path(path)),
                },
            ),
        ),
        RequestModel::Status => (registry, None),
    }
}

/// The model of an optional control response.
pub open spec fn answer_view(response: Option<Response>) -> Option<ResponseModel> {
    match response {
        Some(answer) => Some(answer@),
        None => None,
    }
}

/// Applies a registration or unregistration; `None` for a status request.
pub fn apply_update(registry: &mut Registry, request: Request) -> (response: Option<Response>)
    ensures
        (final(registry)@, match response {
            Some(answer) => Some(answer@),
            None => None,
        }) == spec_apply_update(old(registry)@, request@),
        final(registry).spellings() == match request@ {
            RequestModel::Register(path) => seq![path] + spellings_without(
                old(registry).spellings(),
                spec_normalize_path(path),
            ),
            RequestModel::Unregister(path) => spellings_without(
                old(registry).spellings(),
                spec_normalize_path(path),
            ),
            RequestModel::Status => old(registry).spellings(),
        },
        final(registry).fallback_spelling() == old(registry).fallback_spelling(),
{
    match request {
        Request::Register { path } => {
            registry.register(path);
            Some(Response::Updated { changed: true })
        },
        Request::Unregister { path } => {
            let changed = registry.unregister(path.as_slice());
            Some(Response::Updated { changed })
        },
        Request::Status => None,
    }
}

/// Applies a mutation request to the shared registry with [`apply_update`],
/// under its write lock; `None` for a status request. The answer is that of
/// [`spec_apply_update`] for the registry the lock held.
pub fn dispatch_update(registry: &SharedRegistry, request: Request) -> (response: Option<Response>)
    ensures
        exists|before: RegistryModel|
            before.fallback == registry.fallback() && #[trigger] answer_view(response)
                == spec_apply_update(before, request@).1,
        request@ is Status <==> response is None,
        request@ is Register ==> response == Some(Response::Updated { changed: true }),
        request@ is Unregister ==> response matches Some(Response::Updated { .. }),
{
    let ghost model = request@;
    let response = registry.update(request);
    proof {
        let before = choose|before: RegistryModel|
            before.fallback == registry.fallback() && #[trigger] answer_view(response)
                == spec_apply_update(before, model).1;
        assert(answer_view(response) == spec_apply_update(before, model).1);
    }
    response
}

/// The status entry for a candidate whose probe finished.
pub open spec fn spec_status(candidate: CandidateModel, reachable: bool) -> CandidateStatusModel {
    CandidateStatusModel { path: candidate.0, source: candidate.1, reachable }
}

/// The statuses of the candidates whose probes finished, in candidate order.
pub open spec fn spec_statuses(candidates: Seq<CandidateModel>, probes: Seq<Option<bool>>) -> Seq<
    CandidateStatusModel,
>
    decreases candidates.len(),
{
    if candidates.len() == 0 {
        Seq::empty()
    } else {
        let earlier = spec_statuses(candidates.drop_last(), probes);
        let index = candidates.len() - 1;
        if index < probes.len() && probes[index] is Some {
            earlier.push(spec_status(candidates.last(), probes[index]->0))
        } else {
            earlier
        }
    }
}

/// Assembles a status response from the ordered candidates and their probe
/// outcomes (`None` where a probe did not report).
pub fn status_response(candidates: &Vec<Backend>, probes: &Vec<Option<bool>>) -> (response: Response)
    ensures
        response@ == (ResponseModel::Status {
            candidates: spec_statuses(backend_views(candidates@), probes@),
        }),
{
    let ghost views = backend_views(candidates@);
    let mut statuses: Vec<CandidateStatus> = Vec::new();
    let mut index: usize = 0;
    while index < candidates.len()
        invariant
            index <= candidates@.len(),
            views == backend_views(candidates@),
            status_views(statuses@) == spec_statuses(views.take(index as int), probes@),
        decreases candidates@.len() - index,
    {
        assert(views.take(index as int + 1).drop_last() =~= views.take(index as int));
        assert(views.take(index as int + 1).last() == candidates@[index as int]@);
        if index < probes.len() {
            if let Some(reachable) = probes[index] {
                let candidate = &candidates[index];
                let status = CandidateStatus {
                    path: copy_bytes(candidate.path()),
                    source: candidate.source(),
                    reachable,
                };
                let ghost earlier = status_views(statuses@);
                statuses.push(status);
                assert(status_views(statuses@) =~= earlier.push(status@));
            }
        }
        index = index + 1;
    }
    assert(views.take(index as int) =~= views);
    Response::Status { candidates: statuses }
}

/// A status answer lists exactly the probed candidates, in routing order, each
/// with its own path and source.
pub proof fn law_status_keeps_candidate_order(candidates: Seq<CandidateModel>, probes: Seq<bool>)
    requires
        candidates.len() == probes.len(),
    ensures
        spec_statuses(candidates, probes.map_values(|probe: bool| Some(probe))) == Seq::new(
            candidates.len(),
            |i: int| spec_status(candidates[i], probes[i]),
        ),
    decreases candidates.len(),
{
    let wrapped = probes.map_values(|probe: bool| Some(probe));
    if candidates.len() > 0 {
        law_status_keeps_candidate_order(candidates.drop_last(), probes.drop_last());
        let shorter = probes.drop_last().map_values(|probe: bool| Some(probe));
        lemma_statuses_ignore_later_probes(candidates.drop_last(), shorter, wrapped);
        assert(Seq::new(candidates.len(), |i: int| spec_status(candidates[i], probes[i]))
            =~= Seq::new(
            (candidates.len() - 1) as nat,
            |i: int| spec_status(candidates.drop_last()[i], probes.drop_last()[i]),
        ).push(spec_status(candidates.last(), probes.last())));
    } else {
        assert(Seq::new(candidates.len(), |i: int| spec_status(candidates[i], probes[i]))
            =~= Seq::<CandidateStatusModel>::empty());
    }
}

/// Only the probes at candidate positions matter.
proof fn lemma_statuses_ignore_later_probes(
    candidates: Seq<CandidateModel>,
    probes: Seq<Option<bool>>,
    longer: Seq<Option<bool>>,
)
    requires
        candidates.len() <= probes.len() <= longer.len(),
        forall|i: int| 0 <= i < probes.len() ==> probes[i] == longer[i],
    ensures
        spec_statuses(candidates, probes) == spec_statuses(candidates, longer),
    decreases candidates.len(),
{
    if candidates.len() > 0 {
        lemma_statuses_ignore_later_probes(candidates.drop_last(), probes, longer);
    }
}

} // verus!
