//! The per-connection forwarding state machine.
//!
//! One downstream client talks to Lanyard over one connection. The shell reads
//! frames and performs socket work; this machine decides, for every event, the
//! next state and the single action to perform:
//!
//! - requests that are not forwarded are answered with a failure at once;
//! - every forwarded request is first routed: the shell looks up the ordered
//!   candidate agents (for a signature, the signing order for its key);
//! - with a single candidate, one upstream connection is kept across requests:
//!   every acknowledged session binding is replayed on a new connection before
//!   the request is sent, a failed identity listing or extension is retried
//!   once on a new connection, and a failed signature never is; its answers
//!   are checked as below (identity listings merged, signatures only);
//! - with several candidates, each is tried in order on a fresh connection,
//!   after replaying the bindings: identity listings are merged across all of
//!   them, a signature or an extension answer is taken from the first
//!   candidate that succeeds (a signer is then promoted for its key), and a
//!   session binding is offered to the first reachable candidate only;
//! - a session binding is remembered only when the upstream acknowledged it.
use vstd::prelude::*;

use crate::bytes::{byte_views, bytes_equal, copy_bytes};
use crate::identities::{merge_answers, spec_merge_answers};
use crate::proxy::{
    failure, failure_message, is_extension_answer, query_name, session_bind_name,
    spec_extension_name, is_session_bind, is_sign_response, is_success,
    response_timeout, retry_after_disconnect, should_remember_binding, sign_key,
    spec_is_extension_answer, spec_is_session_bind, spec_is_sign_response, spec_response_timeout,
    spec_retry_after_disconnect, spec_should_remember_binding, spec_sign_key, success_message,
    Timeouts, DEFAULT_MAXIMUM_CANDIDATES, EXTENSION, REQUEST_IDENTITIES, SIGN_REQUEST,
};

verus! {

/// How far an attempt on one of several candidates has got.
pub ghost enum StageModel {
    /// Opening a connection to the candidate.
    Connecting,
    /// Replaying binding number `next` on it.
    Replaying { next: nat },
    /// Waiting for its answer to the request.
    Sending,
}

/// Where a connection stands between two downstream requests.
pub ghost enum PhaseModel {
    /// Waiting for the next downstream request.
    Idle,
    /// Waiting for the candidates that `request` may go to.
    Routing { request: Seq<u8>, timeout: u128 },
    /// Opening the connection to the single candidate for `request`.
    Connecting { request: Seq<u8>, timeout: u128, retrying: bool },
    /// Replaying binding number `next` on a fresh connection to the single candidate.
    Replaying { request: Seq<u8>, timeout: u128, retrying: bool, next: nat },
    /// Waiting for the single candidate's answer to `request`.
    Forwarding { request: Seq<u8>, timeout: u128, retrying: bool },
    /// Trying candidate number `index` of `routes`; `answers` holds the
    /// identity answers gathered from the candidates before it.
    Trying {
        request: Seq<u8>,
        timeout: u128,
        routes: Seq<Seq<u8>>,
        index: nat,
        stage: StageModel,
        answers: Seq<Seq<u8>>,
    },
}

/// The abstract state of one downstream connection.
pub ghost struct SessionModel {
    /// The operation time limits.
    pub timeouts: Timeouts,
    /// The largest message the connection sends downstream.
    pub maximum: usize,
    /// Whether a usable upstream connection is held.
    pub connected: bool,
    /// The agent that the held connection, or the single-candidate attempt, goes to.
    pub upstream: Seq<u8>,
    /// Acknowledged session bindings, in the order they were made.
    pub bindings: Seq<Seq<u8>>,
    /// The current phase.
    pub phase: PhaseModel,
}

/// What happened since the last action.
pub ghost enum EventModel {
    Request(Seq<u8>),
    Routes(Seq<Seq<u8>>),
    Connected,
    ConnectFailed,
    Response(Seq<u8>),
    UpstreamFailed,
}

/// What the shell must do next.
pub ghost enum ActionModel {
    Reply { body: Seq<u8>, disconnect: bool },
    Route { signing_key: Option<Seq<u8>> },
    Connect { path: Seq<u8>, timeout: u128 },
    Send { frame: Seq<u8>, timeout: u128 },
    Promote { key: Seq<u8>, signer: Seq<u8>, body: Seq<u8> },
}

/// An event reported by the shell.
#[derive(Debug)]
pub enum Event {
    /// A downstream request frame arrived.
    Request(Vec<u8>),
    /// The candidate agents for the current request, in the order to try them.
    Routes(Vec<Vec<u8>>),
    /// The upstream connection was opened.
    Connected,
    /// The upstream connection could not be opened in time.
    ConnectFailed,
    /// The upstream answered the last frame sent.
    Response(Vec<u8>),
    /// Sending to or reading from the upstream failed or timed out.
    UpstreamFailed,
}

impl View for Event {
    type V = EventModel;

    open spec fn view(&self) -> EventModel {
        match self {
            Event::Request(request) => EventModel::Request(request@),
            Event::Routes(routes) => EventModel::Routes(byte_views(routes@)),
            Event::Connected => EventModel::Connected,
            Event::ConnectFailed => EventModel::ConnectFailed,
            Event::Response(response) => EventModel::Response(response@),
            Event::UpstreamFailed => EventModel::UpstreamFailed,
        }
    }
}

/// An action for the shell.
#[derive(Debug, PartialEq, Eq)]
pub enum Action {
    /// Write `body` downstream, dropping the upstream connection first when
    /// `disconnect` is set, then wait for the next request.
    Reply { body: Vec<u8>, disconnect: bool },
    /// Look up the candidate agents, in signing order for `signing_key` when
    /// it is set, and report them with [`Event::Routes`].
    Route { signing_key: Option<Vec<u8>> },
    /// Drop any upstream connection and open a new one to `path` within
    /// `timeout` nanoseconds.
    Connect { path: Vec<u8>, timeout: u128 },
    /// Send `frame` upstream and read one answer, all within `timeout` nanoseconds.
    Send { frame: Vec<u8>, timeout: u128 },
    /// Record `signer` as the preferred signer for `key`, drop the upstream
    /// connection, write `body` downstream and wait for the next request.
    Promote { key: Vec<u8>, signer: Vec<u8>, body: Vec<u8> },
}

/// The model of an optional byte string.
pub open spec fn option_view(value: Option<Vec<u8>>) -> Option<Seq<u8>> {
    match value {
        Some(bytes) => Some(bytes@),
        None => None,
    }
}

impl View for Action {
    type V = ActionModel;

    open spec fn view(&self) -> ActionModel {
        match self {
            Action::Reply { body, disconnect } => ActionModel::Reply {
                body: body@,
                disconnect: *disconnect,
            },
            Action::Route { signing_key } => ActionModel::Route {
                signing_key: option_view(*signing_key),
            },
            Action::Connect { path, timeout } => ActionModel::Connect {
                path: path@,
                timeout: *timeout,
            },
            Action::Send { frame, timeout } => ActionModel::Send { frame: frame@, timeout: *timeout },
            Action::Promote { key, signer, body } => ActionModel::Promote {
                key: key@,
                signer: signer@,
                body: body@,
            },
        }
    }
}

enum Stage {
    Connecting,
    Replaying { next: usize },
    Sending,
}

impl View for Stage {
    type V = StageModel;

    closed spec fn view(&self) -> StageModel {
        match self {
            Stage::Connecting => StageModel::Connecting,
            Stage::Replaying { next } => StageModel::Replaying { next: *next as nat },
            Stage::Sending => StageModel::Sending,
        }
    }
}

enum Phase {
    Idle,
    Routing { request: Vec<u8>, timeout: u128 },
    Connecting { request: Vec<u8>, timeout: u128, retrying: bool },
    Replaying { request: Vec<u8>, timeout: u128, retrying: bool, next: usize },
    Forwarding { request: Vec<u8>, timeout: u128, retrying: bool },
    Trying {
        request: Vec<u8>,
        timeout: u128,
        routes: Vec<Vec<u8>>,
        index: usize,
        stage: Stage,
        answers: Vec<Vec<u8>>,
    },
}

impl View for Phase {
    type V = PhaseModel;

    closed spec fn view(&self) -> PhaseModel {
        match self {
            Phase::Idle => PhaseModel::Idle,
            Phase::Routing { request, timeout } => PhaseModel::Routing {
                request: request@,
                timeout: *timeout,
            },
            Phase::Connecting { request, timeout, retrying } => PhaseModel::Connecting {
                request: request@,
                timeout: *timeout,
                retrying: *retrying,
            },
            Phase::Replaying { request, timeout, retrying, next } => PhaseModel::Replaying {
                request: request@,
                timeout: *timeout,
                retrying: *retrying,
                next: *next as nat,
            },
            Phase::Forwarding { request, timeout, retrying } => PhaseModel::Forwarding {
                request: request@,
                timeout: *timeout,
                retrying: *retrying,
            },
            Phase::Trying { request, timeout, routes, index, stage, answers } => PhaseModel::Trying {
                request: request@,
                timeout: *timeout,
                routes: byte_views(routes@),
                index: *index as nat,
                stage: stage@,
                answers: byte_views(answers@),
            },
        }
    }
}

/// Answering with a failure and forgetting the upstream connection.
pub open spec fn spec_fail(session: SessionModel) -> (SessionModel, ActionModel) {
    (
        SessionModel { connected: false, phase: PhaseModel::Idle, ..session },
        ActionModel::Reply { body: failure_message(), disconnect: true },
    )
}

/// Ending a request tried on several candidates: the connection is dropped
/// and `body` is the answer.
pub open spec fn spec_finish(session: SessionModel, body: Seq<u8>) -> (SessionModel, ActionModel) {
    (
        SessionModel { connected: false, phase: PhaseModel::Idle, ..session },
        ActionModel::Reply { body, disconnect: true },
    )
}

/// Whether a downstream request is forwarded at all.
pub open spec fn spec_admissible(session: SessionModel, request: Seq<u8>) -> bool {
    &&& request.len() > 0
    &&& spec_response_timeout(request[0], request, session.timeouts) is Some
    &&& !(spec_is_session_bind(request) && session.bindings.len() >= DEFAULT_MAXIMUM_CANDIDATES)
}

/// Whether a request is a session-binding extension request.
pub open spec fn spec_is_binding_request(request: Seq<u8>) -> bool {
    request.len() > 0 && request[0] == EXTENSION && spec_is_session_bind(request)
}

/// The key whose signing order the candidates of `request` follow: the key of
/// a signing request, none for anything else.
pub open spec fn spec_route_key(request: Seq<u8>) -> Option<Seq<u8>> {
    if request.len() > 0 && request[0] == SIGN_REQUEST {
        spec_sign_key(request)
    } else {
        None
    }
}

/// The reaction to a downstream request while idle.
pub open spec fn spec_accept_request(session: SessionModel, request: Seq<u8>) -> (SessionModel, ActionModel) {
    if !spec_admissible(session, request) {
        (session, ActionModel::Reply { body: failure_message(), disconnect: false })
    } else {
        let timeout = spec_response_timeout(request[0], request, session.timeouts)->0;
        (
            SessionModel { phase: PhaseModel::Routing { request, timeout }, ..session },
            ActionModel::Route { signing_key: spec_route_key(request) },
        )
    }
}

/// Opening a fresh connection to candidate `index` of `routes`.
pub open spec fn spec_try(
    session: SessionModel,
    request: Seq<u8>,
    timeout: u128,
    routes: Seq<Seq<u8>>,
    index: nat,
    answers: Seq<Seq<u8>>,
) -> (SessionModel, ActionModel) {
    (
        SessionModel {
            connected: false,
            phase: PhaseModel::Trying {
                request,
                timeout,
                routes,
                index,
                stage: StageModel::Connecting,
                answers,
            },
            ..session
        },
        ActionModel::Connect { path: routes[index as int], timeout: session.timeouts.spec_connect() },
    )
}

/// The answer to an identity listing gathered from every candidate: the
/// merged answer, or a failure when none can be given.
pub open spec fn spec_union_reply(answers: Seq<Seq<u8>>, maximum: usize) -> Seq<u8> {
    match spec_merge_answers(answers, maximum) {
        Some(merged) => merged,
        None => failure_message(),
    }
}

/// Ending a request once every candidate has been tried.
pub open spec fn spec_conclude(session: SessionModel, request: Seq<u8>, answers: Seq<Seq<u8>>) -> (
    SessionModel,
    ActionModel,
) {
    if request[0] == REQUEST_IDENTITIES {
        spec_finish(session, spec_union_reply(answers, session.maximum))
    } else {
        spec_finish(session, failure_message())
    }
}

/// Moving on from candidate `index`: to the next one, or to the answer.
pub open spec fn spec_advance(
    session: SessionModel,
    request: Seq<u8>,
    timeout: u128,
    routes: Seq<Seq<u8>>,
    index: nat,
    answers: Seq<Seq<u8>>,
) -> (SessionModel, ActionModel) {
    if index + 1 < routes.len() {
        spec_try(session, request, timeout, routes, index + 1, answers)
    } else {
        spec_conclude(session, request, answers)
    }
}

/// The reaction to candidate `index`'s answer to the request.
pub open spec fn spec_try_response(
    session: SessionModel,
    request: Seq<u8>,
    timeout: u128,
    routes: Seq<Seq<u8>>,
    index: nat,
    answers: Seq<Seq<u8>>,
    response: Seq<u8>,
) -> (SessionModel, ActionModel) {
    if request[0] == REQUEST_IDENTITIES {
        spec_advance(session, request, timeout, routes, index, answers.push(response))
    } else if request[0] == SIGN_REQUEST {
        if spec_is_sign_response(response) {
            (
                SessionModel { connected: false, phase: PhaseModel::Idle, ..session },
                match spec_sign_key(request) {
                    Some(key) => ActionModel::Promote { key, signer: routes[index as int], body: response },
                    None => ActionModel::Reply { body: response, disconnect: true },
                },
            )
        } else {
            spec_advance(session, request, timeout, routes, index, answers)
        }
    } else if spec_is_binding_request(request) {
        if response == success_message() {
            spec_finish(SessionModel { bindings: session.bindings.push(request), ..session }, response)
        } else {
            spec_fail(session)
        }
    } else if spec_is_extension_answer(response) {
        spec_finish(session, response)
    } else {
        spec_advance(session, request, timeout, routes, index, answers)
    }
}

/// The answer passed on for `request` when its only candidate answered
/// `response`: an identity listing is merged like the answers of several
/// candidates (a failure when malformed or too large), a signing request is
/// answered only with a signature, and anything else is passed on as is.
pub open spec fn spec_checked_answer(request: Seq<u8>, response: Seq<u8>, maximum: usize) -> Seq<u8> {
    if request.len() > 0 && request[0] == REQUEST_IDENTITIES {
        spec_union_reply(seq![response], maximum)
    } else if request.len() > 0 && request[0] == SIGN_REQUEST {
        if spec_is_sign_response(response) {
            response
        } else {
            failure_message()
        }
    } else {
        response
    }
}

/// Checks the answer of a request's only candidate (see [`spec_checked_answer`]).
pub fn checked_answer(request: &[u8], response: Vec<u8>, maximum: usize) -> (body: Vec<u8>)
    ensures
        body@ == spec_checked_answer(request@, response@, maximum),
        request@.len() > 0 && request@[0] == EXTENSION ==> body@ == response@,
        request@.len() > 0 && request@[0] == SIGN_REQUEST ==> body@ == response@ || body@
            == failure_message(),
{
    if request.len() > 0 && request[0] == REQUEST_IDENTITIES {
        let ghost answer = response@;
        let answers = vec![response];
        assert(byte_views(answers@) =~= seq![answer]);
        match merge_answers(&answers, maximum) {
            Some(merged) => merged,
            None => failure(),
        }
    } else if request.len() > 0 && request[0] == SIGN_REQUEST {
        if is_sign_response(response.as_slice()) {
            response
        } else {
            failure()
        }
    } else {
        response
    }
}

/// Using the candidates found for a request.
pub open spec fn spec_take_routes(
    session: SessionModel,
    request: Seq<u8>,
    timeout: u128,
    routes: Seq<Seq<u8>>,
) -> (SessionModel, ActionModel) {
    if routes.len() == 0 {
        spec_fail(session)
    } else if routes.len() == 1 {
        if session.connected && session.upstream == routes[0] {
            (
                SessionModel {
                    phase: PhaseModel::Forwarding { request, timeout, retrying: false },
                    ..session
                },
                ActionModel::Send { frame: request, timeout },
            )
        } else {
            (
                SessionModel {
                    connected: false,
                    upstream: routes[0],
                    phase: PhaseModel::Connecting { request, timeout, retrying: false },
                    ..session
                },
                ActionModel::Connect { path: routes[0], timeout: session.timeouts.spec_connect() },
            )
        }
    } else {
        spec_try(session, request, timeout, routes, 0, Seq::empty())
    }
}

/// Sending the request itself once every binding is in place.
pub open spec fn spec_send_request(
    session: SessionModel,
    request: Seq<u8>,
    timeout: u128,
    retrying: bool,
) -> (SessionModel, ActionModel) {
    (
        SessionModel {
            connected: true,
            phase: PhaseModel::Forwarding { request, timeout, retrying },
            ..session
        },
        ActionModel::Send { frame: request, timeout },
    )
}

/// Replaying binding `next` on a fresh upstream connection.
pub open spec fn spec_replay(
    session: SessionModel,
    request: Seq<u8>,
    timeout: u128,
    retrying: bool,
    next: nat,
) -> (SessionModel, ActionModel) {
    (
        SessionModel {
            connected: false,
            phase: PhaseModel::Replaying { request, timeout, retrying, next },
            ..session
        },
        ActionModel::Send {
            frame: session.bindings[next as int],
            timeout: session.timeouts.spec_identities(),
        },
    )
}

/// Moving an attempt on one of several candidates to `stage`, sending `frame`.
pub open spec fn spec_try_stage(
    session: SessionModel,
    request: Seq<u8>,
    timeout: u128,
    routes: Seq<Seq<u8>>,
    index: nat,
    answers: Seq<Seq<u8>>,
    stage: StageModel,
) -> (SessionModel, ActionModel) {
    (
        SessionModel {
            phase: PhaseModel::Trying { request, timeout, routes, index, stage, answers },
            ..session
        },
        match stage {
            StageModel::Replaying { next } => ActionModel::Send {
                frame: session.bindings[next as int],
                timeout: session.timeouts.spec_identities(),
            },
            _ => ActionModel::Send { frame: request, timeout },
        },
    )
}

/// The transition function of a connection.
pub open spec fn spec_step(session: SessionModel, event: EventModel) -> (SessionModel, ActionModel) {
    match session.phase {
        PhaseModel::Idle => match event {
            EventModel::Request(request) => spec_accept_request(session, request),
            _ => spec_fail(session),
        },
        PhaseModel::Routing { request, timeout } => match event {
            EventModel::Routes(routes) => spec_take_routes(session, request, timeout, routes),
            _ => spec_fail(session),
        },
        PhaseModel::Connecting { request, timeout, retrying } => match event {
            EventModel::Connected => if session.bindings.len() == 0 {
                spec_send_request(session, request, timeout, retrying)
            } else {
                spec_replay(session, request, timeout, retrying, 0)
            },
            _ => spec_fail(session),
        },
        PhaseModel::Replaying { request, timeout, retrying, next } => match event {
            EventModel::Response(response) => if response != success_message() {
                spec_fail(session)
            } else if next + 1 < session.bindings.len() {
                spec_replay(session, request, timeout, retrying, next + 1)
            } else {
                spec_send_request(session, request, timeout, retrying)
            },
            _ => spec_fail(session),
        },
        PhaseModel::Forwarding { request, timeout, retrying } => match event {
            EventModel::Response(response) => (
                SessionModel {
                    bindings: if spec_should_remember_binding(request, response) {
                        session.bindings.push(request)
                    } else {
                        session.bindings
                    },
                    phase: PhaseModel::Idle,
                    ..session
                },
                ActionModel::Reply {
                    body: spec_checked_answer(request, response, session.maximum),
                    disconnect: false,
                },
            ),
            EventModel::UpstreamFailed => if !retrying && request.len() > 0
                && spec_retry_after_disconnect(request[0]) {
                (
                    SessionModel {
                        connected: false,
                        phase: PhaseModel::Connecting { request, timeout, retrying: true },
                        ..session
                    },
                    ActionModel::Connect {
                        path: session.upstream,
                        timeout: session.timeouts.spec_connect(),
                    },
                )
            } else {
                spec_fail(session)
            },
            _ => spec_fail(session),
        },
        PhaseModel::Trying { request, timeout, routes, index, stage, answers } => match stage {
            StageModel::Connecting => match event {
                EventModel::Connected => if session.bindings.len() == 0 {
                    spec_try_stage(session, request, timeout, routes, index, answers, StageModel::Sending)
                } else {
                    spec_try_stage(
                        session,
                        request,
                        timeout,
                        routes,
                        index,
                        answers,
                        StageModel::Replaying { next: 0 },
                    )
                },
                _ => spec_advance(session, request, timeout, routes, index, answers),
            },
            StageModel::Replaying { next } => match event {
                EventModel::Response(response) => if response != success_message() {
                    spec_advance(session, request, timeout, routes, index, answers)
                } else if next + 1 < session.bindings.len() {
                    spec_try_stage(
                        session,
                        request,
                        timeout,
                        routes,
                        index,
                        answers,
                        StageModel::Replaying { next: next + 1 },
                    )
                } else {
                    spec_try_stage(session, request, timeout, routes, index, answers, StageModel::Sending)
                },
                _ => spec_advance(session, request, timeout, routes, index, answers),
            },
            StageModel::Sending => match event {
                EventModel::Response(response) => spec_try_response(
                    session,
                    request,
                    timeout,
                    routes,
                    index,
                    answers,
                    response,
                ),
                _ => if spec_is_binding_request(request) {
                    spec_fail(session)
                } else {
                    spec_advance(session, request, timeout, routes, index, answers)
                },
            },
        },
    }
}

/// The properties every reachable state has.
pub open spec fn session_invariant(session: SessionModel) -> bool {
    &&& session.bindings.len() <= DEFAULT_MAXIMUM_CANDIDATES
    &&& forall|i: int|
        0 <= i < session.bindings.len() ==> spec_is_session_bind(#[trigger] session.bindings[i])
    &&& match session.phase {
        PhaseModel::Idle => true,
        PhaseModel::Routing { request, .. } => spec_admissible(session, request),
        PhaseModel::Connecting { request, .. } => spec_admissible(session, request),
        PhaseModel::Replaying { request, next, .. } => spec_admissible(session, request) && next
            < session.bindings.len() && !session.connected,
        PhaseModel::Forwarding { request, .. } => spec_admissible(session, request)
            && session.connected,
        PhaseModel::Trying { request, routes, index, stage, .. } => {
            &&& spec_admissible(session, request)
            &&& index < routes.len()
            &&& !session.connected
            &&& stage matches StageModel::Replaying { next } ==> next < session.bindings.len()
        },
    }
}

/// One downstream connection's forwarding state.
pub struct Session {
    timeouts: Timeouts,
    maximum: usize,
    connected: bool,
    upstream: Vec<u8>,
    bindings: Vec<Vec<u8>>,
    phase: Phase,
}

impl View for Session {
    type V = SessionModel;

    closed spec fn view(&self) -> SessionModel {
        SessionModel {
            timeouts: self.timeouts,
            maximum: self.maximum,
            connected: self.connected,
            upstream: self.upstream@,
            bindings: byte_views(self.bindings@),
            phase: self.phase@,
        }
    }
}

impl Session {
    /// Positions inside the current phase stay within what they index.
    #[verifier::type_invariant]
    spec fn positions_in_bounds(self) -> bool {
        match self.phase {
            Phase::Routing { request, .. } => request@.len() > 0,
            Phase::Replaying { next, .. } => next < self.bindings@.len(),
            Phase::Trying { request, routes, index, stage, .. } => {
                &&& request@.len() > 0
                &&& index < routes@.len()
                &&& stage matches Stage::Replaying { next } ==> next < self.bindings@.len()
            },
            _ => true,
        }
    }

    /// A fresh connection: idle, without an upstream and without bindings;
    /// merged identity answers are kept within `maximum` bytes.
    pub fn new(timeouts: Timeouts, maximum: usize) -> (session: Self)
        ensures
            session@ == (SessionModel {
                timeouts,
                maximum,
                connected: false,
                upstream: Seq::empty(),
                bindings: Seq::empty(),
                phase: PhaseModel::Idle,
            }),
    {
        let session = Session {
            timeouts,
            maximum,
            connected: false,
            upstream: Vec::new(),
            bindings: Vec::new(),
            phase: Phase::Idle,
        };
        assert(session@.bindings =~= Seq::<Seq<u8>>::empty());
        session
    }

    /// The number of acknowledged session bindings.
    pub fn binding_count(&self) -> (count: usize)
        ensures
            count == self@.bindings.len(),
    {
        self.bindings.len()
    }

    fn fail(&mut self) -> (action: Action)
        requires
            old(self).phase is Idle,
        ensures
            (final(self)@, action@) == spec_fail(old(self)@),
    {
        self.connected = false;
        Action::Reply { body: failure(), disconnect: true }
    }

    fn finish(&mut self, body: Vec<u8>) -> (action: Action)
        requires
            old(self).phase is Idle,
        ensures
            (final(self)@, action@) == spec_finish(old(self)@, body@),
    {
        self.connected = false;
        Action::Reply { body, disconnect: true }
    }

    fn remember(&mut self, binding: Vec<u8>)
        requires
            old(self).phase is Idle,
        ensures
            final(self).phase is Idle,
            final(self)@ == (SessionModel { bindings: old(self)@.bindings.push(binding@), ..old(self)@ }),
    {
        let mut bindings: Vec<Vec<u8>> = Vec::new();
        std::mem::swap(&mut bindings, &mut self.bindings);
        let ghost previous = byte_views(bindings@);
        bindings.push(binding);
        assert(byte_views(bindings@) =~= previous.push(binding@));
        self.bindings = bindings;
    }

    fn replay(&mut self, request: Vec<u8>, timeout: u128, retrying: bool, next: usize) -> (action: Action)
        requires
            old(self).phase is Idle,
            next < old(self)@.bindings.len(),
        ensures
            (final(self)@, action@) == spec_replay(old(self)@, request@, timeout, retrying, next as nat),
    {
        let frame = copy_bytes(self.bindings[next].as_slice());
        self.connected = false;
        self.phase = Phase::Replaying { request, timeout, retrying, next };
        Action::Send { frame, timeout: self.timeouts.identities() }
    }

    fn send_request(&mut self, request: Vec<u8>, timeout: u128, retrying: bool) -> (action: Action)
        requires
            old(self).phase is Idle,
        ensures
            (final(self)@, action@) == spec_send_request(old(self)@, request@, timeout, retrying),
    {
        let frame = copy_bytes(request.as_slice());
        self.connected = true;
        self.phase = Phase::Forwarding { request, timeout, retrying };
        Action::Send { frame, timeout }
    }

    fn accept_request(&mut self, request: Vec<u8>) -> (action: Action)
        requires
            old(self).phase is Idle,
        ensures
            (final(self)@, action@) == spec_accept_request(old(self)@, request@),
    {
        if request.len() == 0 {
            return Action::Reply { body: failure(), disconnect: false };
        }
        let timeout = match response_timeout(request[0], request.as_slice(), self.timeouts) {
            Some(timeout) => timeout,
            None => {
                return Action::Reply { body: failure(), disconnect: false };
            },
        };
        if is_session_bind(request.as_slice()) && self.bindings.len() >= DEFAULT_MAXIMUM_CANDIDATES {
            return Action::Reply { body: failure(), disconnect: false };
        }
        let signing_key = if request[0] == SIGN_REQUEST {
            sign_key(request.as_slice())
        } else {
            None
        };
        self.phase = Phase::Routing { request, timeout };
        Action::Route { signing_key }
    }

    fn try_route(
        &mut self,
        request: Vec<u8>,
        timeout: u128,
        routes: Vec<Vec<u8>>,
        index: usize,
        answers: Vec<Vec<u8>>,
    ) -> (action: Action)
        requires
            old(self).phase is Idle,
            index < routes@.len(),
            request@.len() > 0,
        ensures
            (final(self)@, action@) == spec_try(
                old(self)@,
                request@,
                timeout,
                byte_views(routes@),
                index as nat,
                byte_views(answers@),
            ),
    {
        let path = copy_bytes(routes[index].as_slice());
        self.connected = false;
        self.phase = Phase::Trying { request, timeout, routes, index, stage: Stage::Connecting, answers };
        Action::Connect { path, timeout: self.timeouts.connect() }
    }

    fn conclude(&mut self, request: Vec<u8>, answers: Vec<Vec<u8>>) -> (action: Action)
        requires
            old(self).phase is Idle,
            request@.len() > 0,
        ensures
            (final(self)@, action@) == spec_conclude(old(self)@, request@, byte_views(answers@)),
    {
        if request[0] == REQUEST_IDENTITIES {
            let body = match merge_answers(&answers, self.maximum) {
                Some(merged) => merged,
                None => failure(),
            };
            self.finish(body)
        } else {
            self.finish(failure())
        }
    }

    fn advance(
        &mut self,
        request: Vec<u8>,
        timeout: u128,
        routes: Vec<Vec<u8>>,
        index: usize,
        answers: Vec<Vec<u8>>,
    ) -> (action: Action)
        requires
            old(self).phase is Idle,
            index < routes@.len(),
            request@.len() > 0,
        ensures
            (final(self)@, action@) == spec_advance(
                old(self)@,
                request@,
                timeout,
                byte_views(routes@),
                index as nat,
                byte_views(answers@),
            ),
    {
        if index < routes.len() - 1 {
            self.try_route(request, timeout, routes, index + 1, answers)
        } else {
            self.conclude(request, answers)
        }
    }

    fn try_stage(
        &mut self,
        request: Vec<u8>,
        timeout: u128,
        routes: Vec<Vec<u8>>,
        index: usize,
        answers: Vec<Vec<u8>>,
        stage: Stage,
    ) -> (action: Action)
        requires
            old(self).phase is Idle,
            index < routes@.len(),
            request@.len() > 0,
            stage matches Stage::Replaying { next } ==> next < old(self)@.bindings.len(),
        ensures
            (final(self)@, action@) == spec_try_stage(
                old(self)@,
                request@,
                timeout,
                byte_views(routes@),
                index as nat,
                byte_views(answers@),
                stage@,
            ),
    {
        let frame = match stage {
            Stage::Replaying { next } => copy_bytes(self.bindings[next].as_slice()),
            _ => copy_bytes(request.as_slice()),
        };
        let limit = match stage {
            Stage::Replaying { .. } => self.timeouts.identities(),
            _ => timeout,
        };
        self.phase = Phase::Trying { request, timeout, routes, index, stage, answers };
        Action::Send { frame, timeout: limit }
    }

    fn try_response(
        &mut self,
        request: Vec<u8>,
        timeout: u128,
        routes: Vec<Vec<u8>>,
        index: usize,
        answers: Vec<Vec<u8>>,
        response: Vec<u8>,
    ) -> (action: Action)
        requires
            old(self).phase is Idle,
            index < routes@.len(),
            request@.len() > 0,
        ensures
            (final(self)@, action@) == spec_try_response(
                old(self)@,
                request@,
                timeout,
                byte_views(routes@),
                index as nat,
                byte_views(answers@),
                response@,
            ),
    {
        if request[0] == REQUEST_IDENTITIES {
            let mut answers = answers;
            let ghost before = byte_views(answers@);
            answers.push(response);
            assert(byte_views(answers@) =~= before.push(response@));
            self.advance(request, timeout, routes, index, answers)
        } else if request[0] == SIGN_REQUEST {
            if is_sign_response(response.as_slice()) {
                self.connected = false;
                match sign_key(request.as_slice()) {
                    Some(key) => {
                        let signer = copy_bytes(routes[index].as_slice());
                        Action::Promote { key, signer, body: response }
                    },
                    None => Action::Reply { body: response, disconnect: true },
                }
            } else {
                self.advance(request, timeout, routes, index, answers)
            }
        } else if request[0] == EXTENSION && is_session_bind(request.as_slice()) {
            if is_success(response.as_slice()) {
                self.remember(request);
                self.finish(response)
            } else {
                self.fail()
            }
        } else if is_extension_answer(response.as_slice()) {
            self.finish(response)
        } else {
            self.advance(request, timeout, routes, index, answers)
        }
    }

    fn take_routes(&mut self, request: Vec<u8>, timeout: u128, routes: Vec<Vec<u8>>) -> (action: Action)
        requires
            old(self).phase is Idle,
            request@.len() > 0,
        ensures
            (final(self)@, action@) == spec_take_routes(
                old(self)@,
                request@,
                timeout,
                byte_views(routes@),
            ),
    {
        if routes.len() == 0 {
            self.fail()
        } else if routes.len() == 1 {
            if self.connected && bytes_equal(self.upstream.as_slice(), routes[0].as_slice()) {
                self.send_request(request, timeout, false)
            } else {
                let path = copy_bytes(routes[0].as_slice());
                self.connected = false;
                self.upstream = copy_bytes(routes[0].as_slice());
                self.phase = Phase::Connecting { request, timeout, retrying: false };
                Action::Connect { path, timeout: self.timeouts.connect() }
            }
        } else {
            let answers: Vec<Vec<u8>> = Vec::new();
            assert(byte_views(answers@) =~= Seq::<Seq<u8>>::empty());
            self.try_route(request, timeout, routes, 0, answers)
        }
    }

    /// Advances the connection by one event and returns the action to perform.
    pub fn step(&mut self, event: Event) -> (action: Action)
        ensures
            (final(self)@, action@) == spec_step(old(self)@, event@),
    {
        proof {
            use_type_invariant(&*self);
        }
        let mut phase = Phase::Idle;
        std::mem::swap(&mut phase, &mut self.phase);
        match phase {
            Phase::Idle => match event {
                Event::Request(request) => self.accept_request(request),
                _ => self.fail(),
            },
            Phase::Routing { request, timeout } => match event {
                Event::Routes(routes) => self.take_routes(request, timeout, routes),
                _ => self.fail(),
            },
            Phase::Connecting { request, timeout, retrying } => match event {
                Event::Connected => {
                    if self.bindings.len() == 0 {
                        self.send_request(request, timeout, retrying)
                    } else {
                        self.replay(request, timeout, retrying, 0)
                    }
                },
                _ => self.fail(),
            },
            Phase::Replaying { request, timeout, retrying, next } => match event {
                Event::Response(response) => {
                    if !is_success(response.as_slice()) {
                        self.fail()
                    } else if next < self.bindings.len() - 1 {
                        self.replay(request, timeout, retrying, next + 1)
                    } else {
                        self.send_request(request, timeout, retrying)
                    }
                },
                _ => self.fail(),
            },
            Phase::Forwarding { request, timeout, retrying } => match event {
                Event::Response(response) => {
                    let remember = should_remember_binding(request.as_slice(), response.as_slice());
                    let body = checked_answer(request.as_slice(), response, self.maximum);
                    if remember {
                        self.remember(request);
                    }
                    Action::Reply { body, disconnect: false }
                },
                Event::UpstreamFailed => {
                    if !retrying && request.len() > 0 && retry_after_disconnect(request[0]) {
                        self.connected = false;
                        self.phase = Phase::Connecting { request, timeout, retrying: true };
                        Action::Connect {
                            path: copy_bytes(self.upstream.as_slice()),
                            timeout: self.timeouts.connect(),
                        }
                    } else {
                        self.fail()
                    }
                },
                _ => self.fail(),
            },
            Phase::Trying { request, timeout, routes, index, stage, answers } => {
                match stage {
                    Stage::Connecting => match event {
                        Event::Connected => {
                            if self.bindings.len() == 0 {
                                self.try_stage(request, timeout, routes, index, answers, Stage::Sending)
                            } else {
                                self.try_stage(
                                    request,
                                    timeout,
                                    routes,
                                    index,
                                    answers,
                                    Stage::Replaying { next: 0 },
                                )
                            }
                        },
                        _ => self.advance(request, timeout, routes, index, answers),
                    },
                    Stage::Replaying { next } => match event {
                        Event::Response(response) => {
                            if !is_success(response.as_slice()) {
                                self.advance(request, timeout, routes, index, answers)
                            } else if next < self.bindings.len() - 1 {
                                self.try_stage(
                                    request,
                                    timeout,
                                    routes,
                                    index,
                                    answers,
                                    Stage::Replaying { next: next + 1 },
                                )
                            } else {
                                self.try_stage(request, timeout, routes, index, answers, Stage::Sending)
                            }
                        },
                        _ => self.advance(request, timeout, routes, index, answers),
                    },
                    Stage::Sending => match event {
                        Event::Response(response) => self.try_response(
                            request,
                            timeout,
                            routes,
                            index,
                            answers,
                            response,
                        ),
                        _ => {
                            if request[0] == EXTENSION && is_session_bind(request.as_slice()) {
                                self.fail()
                            } else {
                                self.advance(request, timeout, routes, index, answers)
                            }
                        },
                    },
                }
            },
        }
    }
}

/// The state and the actions after feeding `events` to the machine in order.
pub open spec fn spec_run(session: SessionModel, events: Seq<EventModel>) -> (SessionModel, Seq<
    ActionModel,
>)
    decreases events.len(),
{
    if events.len() == 0 {
        (session, Seq::empty())
    } else {
        let (before, actions) = spec_run(session, events.drop_last());
        let (after, action) = spec_step(before, events.last());
        (after, actions.push(action))
    }
}

/// A fresh connection satisfies the invariant.
pub proof fn law_new_session_is_valid(timeouts: Timeouts, maximum: usize)
    ensures
        session_invariant(
            SessionModel {
                timeouts,
                maximum,
                connected: false,
                upstream: Seq::empty(),
                bindings: Seq::empty(),
                phase: PhaseModel::Idle,
            },
        ),
{
}

/// Every transition keeps the invariant: at most `DEFAULT_MAXIMUM_CANDIDATES`
/// bindings, all of them session bindings, and in-flight requests admissible.
pub proof fn law_step_preserves_invariant(session: SessionModel, event: EventModel)
    requires
        session_invariant(session),
    ensures
        session_invariant(spec_step(session, event).0),
{
    let next = spec_step(session, event).0;
    assert forall|i: int| 0 <= i < next.bindings.len() implies spec_is_session_bind(
        #[trigger] next.bindings[i],
    ) by {
        if i < session.bindings.len() {
            assert(next.bindings[i] == session.bindings[i]);
        }
    }
}

/// A forwarded request is first routed: the shell is asked for the candidate
/// agents, in the signing order of the key that a signing request names.
pub proof fn law_requests_are_routed(session: SessionModel, request: Seq<u8>)
    requires
        session.phase == PhaseModel::Idle,
        spec_admissible(session, request),
    ensures
        ({
            let (next, action) = spec_step(session, EventModel::Request(request));
            &&& action == ActionModel::Route { signing_key: spec_route_key(request) }
            &&& next.phase matches PhaseModel::Routing { request: routed, .. } && routed == request
            &&& next.bindings == session.bindings
            &&& next.connected == session.connected
        }),
{
}

/// A request that is not forwarded (empty, a mutation, a lock, an unknown
/// extension, or a binding beyond the cap) is answered with a failure without
/// touching the upstream or the state.
pub proof fn law_unforwarded_requests_fail_closed(session: SessionModel, request: Seq<u8>)
    requires
        session.phase == PhaseModel::Idle,
        !spec_admissible(session, request),
    ensures
        spec_step(session, EventModel::Request(request)) == (
            session,
            ActionModel::Reply { body: failure_message(), disconnect: false },
        ),
{
}

/// A signing request whose exchange failed is never sent again: the client
/// gets a failure and the upstream connection is dropped.
pub proof fn law_signing_is_never_retried(session: SessionModel)
    requires
        session.phase matches PhaseModel::Forwarding { request, .. } && request.len() > 0
            && request[0] == crate::proxy::SIGN_REQUEST,
    ensures
        spec_step(session, EventModel::UpstreamFailed) == spec_fail(session),
{
}

/// An identity listing or extension whose exchange failed is retried exactly
/// once, on a new connection.
pub proof fn law_idempotent_requests_are_retried_once(session: SessionModel)
    requires
        session.phase matches PhaseModel::Forwarding { request, .. } && request.len() > 0
            && spec_retry_after_disconnect(request[0]),
    ensures
        ({
            let (next, action) = spec_step(session, EventModel::UpstreamFailed);
            match session.phase {
                PhaseModel::Forwarding { request, timeout, retrying } => if retrying {
                    (next, action) == spec_fail(session)
                } else {
                    &&& action == ActionModel::Connect {
                        path: session.upstream,
                        timeout: session.timeouts.spec_connect(),
                    }
                    &&& next.phase == PhaseModel::Connecting { request, timeout, retrying: true }
                    &&& !next.connected
                    &&& next.bindings == session.bindings
                },
                _ => false,
            }
        }),
{
}

/// Bindings change only by appending a session binding that the upstream
/// acknowledged with a success message.
pub proof fn law_only_acknowledged_bindings_are_remembered(
    session: SessionModel,
    event: EventModel,
)
    ensures
        ({
            let next = spec_step(session, event).0;
            ||| next.bindings == session.bindings
            ||| exists|request: Seq<u8>|
                {
                    &&& #[trigger] spec_is_session_bind(request)
                    &&& (session.phase matches PhaseModel::Forwarding { request: sent, .. }
                        && sent == request) || (session.phase matches PhaseModel::Trying {
                        request: sent,
                        stage: StageModel::Sending,
                        ..
                    } && sent == request)
                    &&& event == EventModel::Response(success_message())
                    &&& next.bindings == session.bindings.push(request)
                }
        }),
{
    let next = spec_step(session, event).0;
    if next.bindings != session.bindings {
        match session.phase {
            PhaseModel::Forwarding { request, .. } => {
                assert(spec_is_session_bind(request));
            },
            PhaseModel::Trying { request, .. } => {
                assert(spec_is_session_bind(request));
            },
            _ => {},
        }
    }
}

/// Replaying `count` acknowledged bindings after a connection is opened.
proof fn lemma_replay_prefix(
    session: SessionModel,
    request: Seq<u8>,
    timeout: u128,
    retrying: bool,
    count: nat,
)
    requires
        session.phase == (PhaseModel::Connecting { request, timeout, retrying }),
        0 < count <= session.bindings.len(),
    ensures
        ({
            let events = seq![EventModel::Connected] + Seq::new(
                (count - 1) as nat,
                |i: int| EventModel::Response(success_message()),
            );
            let (last, actions) = spec_run(session, events);
            &&& last == SessionModel {
                connected: false,
                phase: PhaseModel::Replaying { request, timeout, retrying, next: (count - 1) as nat },
                ..session
            }
            &&& actions == Seq::new(
                count,
                |i: int| ActionModel::Send {
                    frame: session.bindings[i],
                    timeout: session.timeouts.spec_identities(),
                },
            )
        }),
    decreases count,
{
    let events = seq![EventModel::Connected] + Seq::new(
        (count - 1) as nat,
        |i: int| EventModel::Response(success_message()),
    );
    let sends = Seq::new(
        count,
        |i: int| ActionModel::Send {
            frame: session.bindings[i],
            timeout: session.timeouts.spec_identities(),
        },
    );
    if count == 1 {
        let single = seq![EventModel::Connected];
        assert(events =~= single);
        assert(single.drop_last() =~= Seq::<EventModel>::empty());
        assert(spec_run(session, single.drop_last()) == (session, Seq::<ActionModel>::empty()));
        assert(sends =~= Seq::<ActionModel>::empty().push(sends[0]));
    } else {
        lemma_replay_prefix(session, request, timeout, retrying, (count - 1) as nat);
        let shorter = seq![EventModel::Connected] + Seq::new(
            (count - 2) as nat,
            |i: int| EventModel::Response(success_message()),
        );
        assert(events.drop_last() =~= shorter);
        assert(events.last() == EventModel::Response(success_message()));
        let shorter_sends = Seq::new(
            (count - 1) as nat,
            |i: int| ActionModel::Send {
                frame: session.bindings[i],
                timeout: session.timeouts.spec_identities(),
            },
        );
        assert(sends =~= shorter_sends.push(sends[count - 1]));
    }
}

/// After a connection is opened, every remembered binding is replayed in order,
/// and the request itself is sent only once the last one was acknowledged.
pub proof fn law_bindings_are_replayed_before_the_request(
    session: SessionModel,
    request: Seq<u8>,
    timeout: u128,
    retrying: bool,
)
    requires
        session.phase == (PhaseModel::Connecting { request, timeout, retrying }),
    ensures
        ({
            let count = session.bindings.len();
            let events = seq![EventModel::Connected] + Seq::new(
                count,
                |i: int| EventModel::Response(success_message()),
            );
            let (last, actions) = spec_run(session, events.take(count as int + 1));
            &&& last.phase == (PhaseModel::Forwarding { request, timeout, retrying })
            &&& last.connected
            &&& last.bindings == session.bindings
            &&& actions == Seq::new(
                count,
                |i: int| ActionModel::Send {
                    frame: session.bindings[i],
                    timeout: session.timeouts.spec_identities(),
                },
            ).push(ActionModel::Send { frame: request, timeout })
        }),
{
    let count = session.bindings.len();
    let events = seq![EventModel::Connected] + Seq::new(
        count,
        |i: int| EventModel::Response(success_message()),
    );
    let sends = Seq::new(
        count,
        |i: int| ActionModel::Send {
            frame: session.bindings[i],
            timeout: session.timeouts.spec_identities(),
        },
    );
    if count == 0 {
        let single = seq![EventModel::Connected];
        assert(events.take(1) =~= single);
        assert(single.drop_last() =~= Seq::<EventModel>::empty());
        assert(spec_run(session, single.drop_last()) == (session, Seq::<ActionModel>::empty()));
        assert(sends =~= Seq::<ActionModel>::empty());
    } else {
        lemma_replay_prefix(session, request, timeout, retrying, count);
        let prefix = seq![EventModel::Connected] + Seq::new(
            (count - 1) as nat,
            |i: int| EventModel::Response(success_message()),
        );
        assert(events.take(count as int + 1).drop_last() =~= prefix);
        assert(events.take(count as int + 1).last() == EventModel::Response(success_message()));
    }
}


/// Candidates are tried one after the other in route order: from candidate
/// `index`, an event either continues the exchange with it, opens a fresh
/// connection to candidate `index + 1`, or ends the request.
pub proof fn law_candidates_are_tried_in_order(session: SessionModel, event: EventModel)
    requires
        session.phase is Trying,
    ensures
        ({
            let (next, action) = spec_step(session, event);
            match session.phase {
                PhaseModel::Trying { request, routes, index, .. } => {
                    ||| (next.phase matches PhaseModel::Trying {
                        request: same_request,
                        routes: same_routes,
                        index: same_index,
                        ..
                    } && same_request == request && same_routes == routes && same_index == index
                        && action is Send)
                    ||| (next.phase matches PhaseModel::Trying {
                        request: same_request,
                        routes: same_routes,
                        index: next_index,
                        stage: StageModel::Connecting,
                        ..
                    } && same_request == request && same_routes == routes && next_index == index + 1
                        && action == ActionModel::Connect {
                        path: routes[index + 1 as int],
                        timeout: session.timeouts.spec_connect(),
                    } && !next.connected)
                    ||| (next.phase is Idle && !next.connected && (action is Reply
                        || action is Promote))
                },
                _ => false,
            }
        }),
{
}

/// A signing request tried on several candidates is answered either with a
/// failure or with the signature that a candidate returned; a promotion names
/// the key of the request and the candidate that signed.
pub proof fn law_signatures_come_only_from_signers(session: SessionModel, event: EventModel)
    requires
        session.phase matches PhaseModel::Trying { request, .. } && request.len() > 0
            && request[0] == SIGN_REQUEST,
    ensures
        ({
            let action = spec_step(session, event).1;
            match session.phase {
                PhaseModel::Trying { request, routes, index, stage, .. } => match action {
                    ActionModel::Reply { body, .. } => body == failure_message() || (
                    spec_is_sign_response(body) && event == EventModel::Response(body)),
                    ActionModel::Promote { key, signer, body } => {
                        &&& spec_is_sign_response(body)
                        &&& event == EventModel::Response(body)
                        &&& stage is Sending
                        &&& spec_sign_key(request) == Some(key)
                        &&& signer == routes[index as int]
                    },
                    _ => true,
                },
                _ => false,
            }
        }),
{
}

/// A session binding, once sent to a candidate, is never offered to another:
/// whatever that candidate does, the request ends.
pub proof fn law_session_binding_is_offered_once(session: SessionModel, event: EventModel)
    requires
        session.phase matches PhaseModel::Trying { request, stage: StageModel::Sending, .. }
            && spec_is_binding_request(request),
    ensures
        ({
            let (next, action) = spec_step(session, event);
            &&& next.phase is Idle
            &&& action is Reply
        }),
{
}

/// An identity listing is answered only after the last candidate, with the
/// merged answer of every well-formed listing gathered, or with a failure
/// when none was well formed or the union does not fit.
pub proof fn law_identity_listing_is_the_union(session: SessionModel, event: EventModel)
    requires
        session.phase matches PhaseModel::Trying { request, .. } && request.len() > 0
            && request[0] == REQUEST_IDENTITIES,
    ensures
        ({
            let action = spec_step(session, event).1;
            match session.phase {
                PhaseModel::Trying { routes, index, stage, answers, .. } => {
                    let gathered = match (stage, event) {
                        (StageModel::Sending, EventModel::Response(response)) => answers.push(
                            response,
                        ),
                        _ => answers,
                    };
                    &&& !(action is Promote)
                    &&& action is Reply ==> index + 1 >= routes.len() && action
                        == ActionModel::Reply {
                        body: spec_union_reply(gathered, session.maximum),
                        disconnect: true,
                    }
                },
                _ => false,
            }
        }),
{
}

/// An extension query tried on several candidates is answered with the first
/// answer that reports success, or with a failure.
pub proof fn law_queries_relay_only_successful_answers(session: SessionModel, event: EventModel)
    requires
        session.phase matches PhaseModel::Trying { request, .. } && request.len() > 0
            && request[0] == EXTENSION && !spec_is_session_bind(request),
    ensures
        ({
            let action = spec_step(session, event).1;
            &&& !(action is Promote)
            &&& action matches ActionModel::Reply { body, .. } ==> body == failure_message() || (
            spec_is_extension_answer(body) && event == EventModel::Response(body))
        }),
{
}

/// Replaying `count` acknowledged bindings on a candidate after it accepted a
/// connection.
proof fn lemma_try_replay_prefix(session: SessionModel, count: nat)
    requires
        session.phase matches PhaseModel::Trying { stage: StageModel::Connecting, .. },
        0 < count <= session.bindings.len(),
    ensures
        ({
            let events = seq![EventModel::Connected] + Seq::new(
                (count - 1) as nat,
                |i: int| EventModel::Response(success_message()),
            );
            let (last, actions) = spec_run(session, events);
            &&& match session.phase {
                PhaseModel::Trying { request, timeout, routes, index, answers, .. } => last
                    == SessionModel {
                    phase: PhaseModel::Trying {
                        request,
                        timeout,
                        routes,
                        index,
                        stage: StageModel::Replaying { next: (count - 1) as nat },
                        answers,
                    },
                    ..session
                },
                _ => false,
            }
            &&& actions == Seq::new(
                count,
                |i: int| ActionModel::Send {
                    frame: session.bindings[i],
                    timeout: session.timeouts.spec_identities(),
                },
            )
        }),
    decreases count,
{
    let events = seq![EventModel::Connected] + Seq::new(
        (count - 1) as nat,
        |i: int| EventModel::Response(success_message()),
    );
    let sends = Seq::new(
        count,
        |i: int| ActionModel::Send {
            frame: session.bindings[i],
            timeout: session.timeouts.spec_identities(),
        },
    );
    if count == 1 {
        let single = seq![EventModel::Connected];
        assert(events =~= single);
        assert(single.drop_last() =~= Seq::<EventModel>::empty());
        assert(spec_run(session, single.drop_last()) == (session, Seq::<ActionModel>::empty()));
        assert(sends =~= Seq::<ActionModel>::empty().push(sends[0]));
    } else {
        lemma_try_replay_prefix(session, (count - 1) as nat);
        let shorter = seq![EventModel::Connected] + Seq::new(
            (count - 2) as nat,
            |i: int| EventModel::Response(success_message()),
        );
        assert(events.drop_last() =~= shorter);
        assert(events.last() == EventModel::Response(success_message()));
        let shorter_sends = Seq::new(
            (count - 1) as nat,
            |i: int| ActionModel::Send {
                frame: session.bindings[i],
                timeout: session.timeouts.spec_identities(),
            },
        );
        assert(sends =~= shorter_sends.push(sends[count - 1]));
    }
}

/// Every candidate tried for a request gets every remembered binding, in
/// order, before the request itself, on the connection just opened to it.
pub proof fn law_bindings_are_replayed_on_every_candidate(session: SessionModel)
    requires
        session.phase matches PhaseModel::Trying { stage: StageModel::Connecting, .. },
    ensures
        ({
            let count = session.bindings.len();
            let events = seq![EventModel::Connected] + Seq::new(
                count,
                |i: int| EventModel::Response(success_message()),
            );
            let (last, actions) = spec_run(session, events.take(count as int + 1));
            match session.phase {
                PhaseModel::Trying { request, timeout, routes, index, answers, .. } => {
                    &&& last.phase == PhaseModel::Trying {
                        request,
                        timeout,
                        routes,
                        index,
                        stage: StageModel::Sending,
                        answers,
                    }
                    &&& last.bindings == session.bindings
                    &&& actions == Seq::new(
                        count,
                        |i: int| ActionModel::Send {
                            frame: session.bindings[i],
                            timeout: session.timeouts.spec_identities(),
                        },
                    ).push(ActionModel::Send { frame: request, timeout })
                },
                _ => false,
            }
        }),
{
    let count = session.bindings.len();
    let events = seq![EventModel::Connected] + Seq::new(
        count,
        |i: int| EventModel::Response(success_message()),
    );
    let sends = Seq::new(
        count,
        |i: int| ActionModel::Send {
            frame: session.bindings[i],
            timeout: session.timeouts.spec_identities(),
        },
    );
    if count == 0 {
        let single = seq![EventModel::Connected];
        assert(events.take(1) =~= single);
        assert(single.drop_last() =~= Seq::<EventModel>::empty());
        assert(spec_run(session, single.drop_last()) == (session, Seq::<ActionModel>::empty()));
        assert(sends =~= Seq::<ActionModel>::empty());
    } else {
        lemma_try_replay_prefix(session, count);
        let prefix = seq![EventModel::Connected] + Seq::new(
            (count - 1) as nat,
            |i: int| EventModel::Response(success_message()),
        );
        assert(events.take(count as int + 1).drop_last() =~= prefix);
        assert(events.take(count as int + 1).last() == EventModel::Response(success_message()));
    }
}

/// How many more exchanges an attempt on one candidate can take at most.
pub open spec fn attempt_bound(bindings: nat, stage: StageModel) -> nat {
    match stage {
        StageModel::Connecting => bindings + 2,
        StageModel::Replaying { next } => if next < bindings {
            (bindings - next + 1) as nat
        } else {
            1
        },
        StageModel::Sending => 1,
    }
}

/// An upper bound on the events a request in progress can still take before
/// it is answered.
pub open spec fn remaining_events(session: SessionModel) -> nat {
    let bindings = session.bindings.len();
    let retry: nat = bindings + 3;
    match session.phase {
        PhaseModel::Idle => 0,
        PhaseModel::Routing { .. } => 0,
        PhaseModel::Connecting { retrying, .. } => attempt_bound(bindings, StageModel::Connecting)
            + if retrying {
            0
        } else {
            retry
        },
        PhaseModel::Replaying { retrying, next, .. } => attempt_bound(
            bindings,
            StageModel::Replaying { next },
        ) + if retrying {
            0
        } else {
            retry
        },
        PhaseModel::Forwarding { retrying, .. } => attempt_bound(bindings, StageModel::Sending)
            + if retrying {
            0
        } else {
            retry
        },
        PhaseModel::Trying { routes, index, stage, .. } => attempt_bound(bindings, stage) + if index
            + 1 < routes.len() {
            ((routes.len() - index - 1) * retry) as nat
        } else {
            0
        },
    }
}

/// Every forwarded request is answered after finitely many events: routing
/// leaves the routing phase at once, and from then on every event either
/// answers the request or strictly lowers [`remaining_events`].
pub proof fn law_every_request_is_answered(session: SessionModel, event: EventModel)
    requires
        session_invariant(session),
        !(session.phase is Idle),
    ensures
        ({
            let next = spec_step(session, event).0;
            ||| next.phase is Idle
            ||| (session.phase is Routing && !(next.phase is Routing))
            ||| (!(session.phase is Routing) && remaining_events(next) < remaining_events(session))
        }),
{
    let next = spec_step(session, event).0;
    let retry: nat = session.bindings.len() + 3;
    match session.phase {
        PhaseModel::Trying { routes, index, stage, .. } => {
            if !(next.phase is Idle) {
                if let PhaseModel::Trying { index: next_index, .. } = next.phase {
                    if next_index == index + 1 {
                        let left = (routes.len() - index - 1) as nat;
                        assert(left >= 1);
                        assert(left * retry == (left - 1) * retry + retry) by (nonlinear_arith);
                        assert((left - 1) * retry >= 0) by (nonlinear_arith)
                            requires
                                left >= 1,
                        ;
                    }
                }
            }
        },
        _ => {},
    }
}

/// With a single candidate the held connection is kept, but its answers are
/// checked as on the path with several: an identity listing is answered with
/// the merged answer (a failure when it is malformed or too large), and a
/// signing request only with a signature, otherwise with a failure.
pub proof fn law_answers_of_a_single_agent_are_checked(session: SessionModel, response: Seq<u8>)
    requires
        session.phase matches PhaseModel::Forwarding { request, .. } && request.len() > 0,
    ensures
        ({
            let (next, action) = spec_step(session, EventModel::Response(response));
            match session.phase {
                PhaseModel::Forwarding { request, .. } => {
                    &&& next.phase is Idle
                    &&& next.connected == session.connected
                    &&& request[0] == REQUEST_IDENTITIES ==> action == ActionModel::Reply {
                        body: spec_union_reply(seq![response], session.maximum),
                        disconnect: false,
                    }
                    &&& request[0] == SIGN_REQUEST ==> (action matches ActionModel::Reply { body, .. }
                        && (body == failure_message() || (spec_is_sign_response(body) && body
                        == response)))
                },
                _ => false,
            }
        }),
{
}

/// With a single candidate, the answer to an extension request (`query` or a
/// session binding) is passed on exactly as the agent gave it.
pub proof fn law_single_agent_extension_answers_are_relayed(session: SessionModel, response: Seq<u8>)
    requires
        session.phase matches PhaseModel::Forwarding { request, .. } && request.len() > 0
            && request[0] == EXTENSION,
    ensures
        (spec_step(session, EventModel::Response(response)).1 == ActionModel::Reply {
            body: response,
            disconnect: false,
        }),
{
}

/// A request whose message type is neither an identity listing, a signature
/// nor an extension (every mutation, lock and unknown request), or an
/// extension other than `query` and `session-bind@openssh.com`, is answered
/// with a failure at once: no candidate is looked up and nothing changes.
pub proof fn law_only_reads_and_supported_extensions_are_forwarded(
    session: SessionModel,
    request: Seq<u8>,
)
    requires
        session.phase == PhaseModel::Idle,
        request.len() > 0,
        request[0] != REQUEST_IDENTITIES,
        request[0] != SIGN_REQUEST,
        (request[0] == EXTENSION ==> (spec_extension_name(request) != Some(query_name())
            && spec_extension_name(request) != Some(session_bind_name()))),
    ensures
        (spec_step(session, EventModel::Request(request)) == (
            session,
            ActionModel::Reply { body: failure_message(), disconnect: false },
        )),
{
}

} // verus!
