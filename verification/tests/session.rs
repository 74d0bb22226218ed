//! The per-connection forwarding state machine, driven event by event.

use lanyard_ssh_agent::backend::Registry;
use lanyard_ssh_agent::proxy::Timeouts;
use lanyard_ssh_agent::session::{Action, Event, Session};

const UPSTREAM: &[u8] = b"/run/agent.sock";

const REQUEST_IDENTITIES: &[u8] = &[11];
const IDENTITIES_ANSWER: &[u8] = &[12, 0, 0, 0, 0];
const ADD_IDENTITY: &[u8] = &[17];
const FAILURE: &[u8] = &[5];
const SIGN_REQUEST: &[u8] = &[13, 0, 0, 0, 0, 0, 0, 0, 0, 0, 0, 0, 0];
const SIGN_RESPONSE: &[u8] = &[14, 0, 0, 0, 3, b's', b'i', b'g'];
const QUERY_EXTENSION: &[u8] = &[27, 0, 0, 0, 5, b'q', b'u', b'e', b'r', b'y'];
const EXTENSION_RESPONSE: &[u8] = &[6];
const SESSION_BIND_EXTENSION: &[u8] = &[
    27, 0, 0, 0, 24, b's', b'e', b's', b's', b'i', b'o', b'n', b'-', b'b', b'i', b'n', b'd', b'@',
    b'o', b'p', b'e', b'n', b's', b's', b'h', b'.', b'c', b'o', b'm',
];
const UNKNOWN_EXTENSION: &[u8] = &[27, 0, 0, 0, 7, b'u', b'n', b'k', b'n', b'o', b'w', b'n'];

fn timeouts() -> Timeouts {
    Timeouts::new(500, 2_000, 30_000)
}

fn reply(body: &[u8]) -> Action {
    Action::Reply { body: body.to_vec(), disconnect: false }
}

fn failed() -> Action {
    Action::Reply { body: FAILURE.to_vec(), disconnect: true }
}

fn send(frame: &[u8], timeout: u128) -> Action {
    Action::Send { frame: frame.to_vec(), timeout }
}

fn connect() -> Action {
    Action::Connect { path: UPSTREAM.to_vec(), timeout: 500 }
}

fn new_session() -> Session {
    Session::new(timeouts(), 256 * 1024)
}

/// Submits a request whose only candidate is `UPSTREAM`.
fn single(session: &mut Session, frame: &[u8]) -> Action {
    match session.step(Event::Request(frame.to_vec())) {
        Action::Route { signing_key: _ } => session.step(Event::Routes(vec![UPSTREAM.to_vec()])),
        other => other,
    }
}

#[test]
fn unsupported_requests_fail_closed_without_an_upstream() {
    let mut session = new_session();
    assert_eq!(single(&mut session, ADD_IDENTITY), reply(FAILURE));
    assert_eq!(single(&mut session, UNKNOWN_EXTENSION), reply(FAILURE));
    assert_eq!(single(&mut session, &[]), reply(FAILURE));
    assert_eq!(single(&mut session, REQUEST_IDENTITIES), connect());
}

#[test]
fn proxies_read_only_agent_operations_and_rejects_mutation() {
    let mut session = new_session();
    assert_eq!(single(&mut session, ADD_IDENTITY), reply(FAILURE));
    assert_eq!(single(&mut session, REQUEST_IDENTITIES), connect());
    assert_eq!(session.step(Event::Connected), send(REQUEST_IDENTITIES, 2_000));
    assert_eq!(session.step(Event::Response(IDENTITIES_ANSWER.to_vec())), reply(IDENTITIES_ANSWER));

    assert_eq!(single(&mut session, SIGN_REQUEST), send(SIGN_REQUEST, 30_000));
    assert_eq!(session.step(Event::Response(SIGN_RESPONSE.to_vec())), reply(SIGN_RESPONSE));

    assert_eq!(single(&mut session, UNKNOWN_EXTENSION), reply(FAILURE));

    assert_eq!(single(&mut session, QUERY_EXTENSION), send(QUERY_EXTENSION, 2_000));
    assert_eq!(session.step(Event::Response(EXTENSION_RESPONSE.to_vec())), reply(EXTENSION_RESPONSE));
    assert_eq!(session.binding_count(), 0);

    assert_eq!(
        single(&mut session, SESSION_BIND_EXTENSION),
        send(SESSION_BIND_EXTENSION, 2_000)
    );
    assert_eq!(session.step(Event::Response(EXTENSION_RESPONSE.to_vec())), reply(EXTENSION_RESPONSE));
    assert_eq!(session.binding_count(), 1);
}

#[test]
fn reconnects_an_idempotent_request_after_the_upstream_restarts() {
    let mut session = new_session();
    assert_eq!(single(&mut session, REQUEST_IDENTITIES), connect());
    assert_eq!(session.step(Event::Connected), send(REQUEST_IDENTITIES, 2_000));
    assert_eq!(session.step(Event::Response(IDENTITIES_ANSWER.to_vec())), reply(IDENTITIES_ANSWER));

    assert_eq!(single(&mut session, REQUEST_IDENTITIES), send(REQUEST_IDENTITIES, 2_000));
    assert_eq!(session.step(Event::UpstreamFailed), connect());
    assert_eq!(session.step(Event::Connected), send(REQUEST_IDENTITIES, 2_000));
    assert_eq!(session.step(Event::UpstreamFailed), failed());

    assert_eq!(single(&mut session, REQUEST_IDENTITIES), connect());
}

#[test]
fn does_not_retry_an_ambiguous_signing_failure_on_the_same_backend() {
    let mut session = new_session();
    assert_eq!(single(&mut session, SIGN_REQUEST), connect());
    assert_eq!(session.step(Event::Connected), send(SIGN_REQUEST, 30_000));
    assert_eq!(session.step(Event::UpstreamFailed), failed());
    assert_eq!(single(&mut session, SIGN_REQUEST), connect());
}

#[test]
fn replays_successful_session_bindings_before_using_a_reconnected_upstream() {
    let mut session = new_session();
    assert_eq!(single(&mut session, SESSION_BIND_EXTENSION), connect());
    assert_eq!(session.step(Event::Connected), send(SESSION_BIND_EXTENSION, 2_000));
    assert_eq!(session.step(Event::Response(EXTENSION_RESPONSE.to_vec())), reply(EXTENSION_RESPONSE));

    assert_eq!(single(&mut session, REQUEST_IDENTITIES), send(REQUEST_IDENTITIES, 2_000));
    assert_eq!(session.step(Event::UpstreamFailed), connect());
    assert_eq!(session.step(Event::Connected), send(SESSION_BIND_EXTENSION, 2_000));
    assert_eq!(session.step(Event::Response(EXTENSION_RESPONSE.to_vec())), send(REQUEST_IDENTITIES, 2_000));
    assert_eq!(session.step(Event::Response(IDENTITIES_ANSWER.to_vec())), reply(IDENTITIES_ANSWER));
    assert_eq!(session.binding_count(), 1);
}

#[test]
fn a_rejected_replay_fails_the_request() {
    let mut session = new_session();
    single(&mut session, SESSION_BIND_EXTENSION);
    session.step(Event::Connected);
    session.step(Event::Response(EXTENSION_RESPONSE.to_vec()));
    single(&mut session, SIGN_REQUEST);
    assert_eq!(session.step(Event::UpstreamFailed), failed());

    assert_eq!(single(&mut session, SIGN_REQUEST), connect());
    assert_eq!(session.step(Event::Connected), send(SESSION_BIND_EXTENSION, 2_000));
    assert_eq!(session.step(Event::Response(FAILURE.to_vec())), failed());
}

#[test]
fn rejected_bindings_are_not_remembered() {
    let mut session = new_session();
    single(&mut session, SESSION_BIND_EXTENSION);
    session.step(Event::Connected);
    assert_eq!(session.step(Event::Response(FAILURE.to_vec())), reply(FAILURE));
    assert_eq!(session.binding_count(), 0);
    single(&mut session, SESSION_BIND_EXTENSION);
    assert_eq!(
        session.step(Event::Response(vec![14, 0, 0, 0, 1, b'x'])),
        reply(&[14, 0, 0, 0, 1, b'x'])
    );
    assert_eq!(session.binding_count(), 0);
}

#[test]
fn a_failed_connection_is_answered_with_a_failure() {
    let mut session = new_session();
    assert_eq!(single(&mut session, QUERY_EXTENSION), connect());
    assert_eq!(session.step(Event::ConnectFailed), failed());
    assert_eq!(single(&mut session, QUERY_EXTENSION), connect());
}

#[test]
fn bindings_beyond_the_cap_fail_closed() {
    let mut session = new_session();
    single(&mut session, SESSION_BIND_EXTENSION);
    session.step(Event::Connected);
    session.step(Event::Response(EXTENSION_RESPONSE.to_vec()));
    for _ in 1..32 {
        assert_eq!(
            single(&mut session, SESSION_BIND_EXTENSION),
            send(SESSION_BIND_EXTENSION, 2_000)
        );
        session.step(Event::Response(EXTENSION_RESPONSE.to_vec()));
    }
    assert_eq!(session.binding_count(), 32);
    assert_eq!(single(&mut session, SESSION_BIND_EXTENSION), reply(FAILURE));
    assert_eq!(session.binding_count(), 32);
    assert_eq!(single(&mut session, QUERY_EXTENSION), send(QUERY_EXTENSION, 2_000));
}

#[test]
fn unexpected_events_reset_the_connection() {
    let mut session = new_session();
    assert_eq!(session.step(Event::Connected), failed());
    assert_eq!(session.step(Event::Response(IDENTITIES_ANSWER.to_vec())), failed());
    single(&mut session, REQUEST_IDENTITIES);
    assert_eq!(single(&mut session, REQUEST_IDENTITIES), failed());
}

const REGISTERED: &[u8] = b"/registered.sock";
const MALFORMED: &[u8] = b"/malformed.sock";
const DISCOVERED: &[u8] = b"/discovery/ssh-forwarded/agent.42";
const FALLBACK: &[u8] = b"/fallback.sock";
const KEYED_SIGN_REQUEST: &[u8] = &[13, 0, 0, 0, 1, b'k', 0, 0, 0, 0, 0, 0, 0, 0];
const OTHER_KEY_SIGN_REQUEST: &[u8] = &[13, 0, 0, 0, 1, b'q', 0, 0, 0, 0, 0, 0, 0, 0];
const SIGNATURE: &[u8] = &[14, 0, 0, 0, 3, b's', b'i', b'g'];

fn connect_to(path: &[u8]) -> Action {
    Action::Connect { path: path.to_vec(), timeout: 500 }
}

fn final_reply(body: &[u8]) -> Action {
    Action::Reply { body: body.to_vec(), disconnect: true }
}

fn routes(paths: &[&[u8]]) -> Event {
    Event::Routes(paths.iter().map(|path| path.to_vec()).collect())
}

fn append_string(message: &mut Vec<u8>, value: &[u8]) {
    message.extend((value.len() as u32).to_be_bytes());
    message.extend(value);
}

fn identities_response(identities: &[(&[u8], &[u8])]) -> Vec<u8> {
    let mut response = vec![12];
    response.extend((identities.len() as u32).to_be_bytes());
    for (key, comment) in identities {
        append_string(&mut response, key);
        append_string(&mut response, comment);
    }
    response
}

fn query_response(extensions: &[&[u8]]) -> Vec<u8> {
    let mut response = vec![29];
    append_string(&mut response, b"query");
    for extension in extensions {
        append_string(&mut response, extension);
    }
    response
}

#[test]
fn forwarded_requests_ask_for_their_candidates_first() {
    let mut session = new_session();
    assert_eq!(
        session.step(Event::Request(REQUEST_IDENTITIES.to_vec())),
        Action::Route { signing_key: None }
    );
    assert_eq!(session.step(Event::Routes(Vec::new())), failed());
    assert_eq!(
        session.step(Event::Request(KEYED_SIGN_REQUEST.to_vec())),
        Action::Route { signing_key: Some(b"k".to_vec()) }
    );
    assert_eq!(session.step(routes(&[UPSTREAM])), connect());
    assert_eq!(session.step(Event::Connected), send(KEYED_SIGN_REQUEST, 30_000));
    assert_eq!(session.step(Event::Response(SIGNATURE.to_vec())), reply(SIGNATURE));
    assert_eq!(
        session.step(Event::Request(SIGN_REQUEST.to_vec())),
        Action::Route { signing_key: Some(Vec::new()) }
    );
    assert_eq!(session.step(routes(&[b"/elsewhere.sock"])), connect_to(b"/elsewhere.sock"));
}

#[test]
fn returns_a_deduplicated_union_from_registered_discovered_and_fallback_agents() {
    let mut session = new_session();
    session.step(Event::Request(REQUEST_IDENTITIES.to_vec()));
    assert_eq!(
        session.step(routes(&[REGISTERED, MALFORMED, DISCOVERED, FALLBACK])),
        connect_to(REGISTERED)
    );
    assert_eq!(session.step(Event::Connected), send(REQUEST_IDENTITIES, 2_000));
    assert_eq!(
        session.step(Event::Response(identities_response(&[(b"key-one", b"registered")]))),
        connect_to(MALFORMED)
    );
    assert_eq!(session.step(Event::Connected), send(REQUEST_IDENTITIES, 2_000));
    assert_eq!(session.step(Event::Response(vec![12, 0, 0])), connect_to(DISCOVERED));
    assert_eq!(session.step(Event::Connected), send(REQUEST_IDENTITIES, 2_000));
    assert_eq!(
        session.step(Event::Response(identities_response(&[
            (b"key-one", b"duplicate"),
            (b"key-two", b"forwarded"),
        ]))),
        connect_to(FALLBACK)
    );
    assert_eq!(session.step(Event::Connected), send(REQUEST_IDENTITIES, 2_000));
    assert_eq!(
        session.step(Event::Response(identities_response(&[(b"key-three", b"fallback")]))),
        final_reply(&identities_response(&[
            (b"key-one", b"registered"),
            (b"key-two", b"forwarded"),
            (b"key-three", b"fallback"),
        ]))
    );
}

#[test]
fn identities_fail_when_no_backend_returns_a_valid_answer() {
    let mut session = new_session();
    session.step(Event::Request(REQUEST_IDENTITIES.to_vec()));
    assert_eq!(session.step(routes(&[MALFORMED, FALLBACK])), connect_to(MALFORMED));
    assert_eq!(session.step(Event::Connected), send(REQUEST_IDENTITIES, 2_000));
    assert_eq!(session.step(Event::Response(vec![12, 0, 0])), connect_to(FALLBACK));
    assert_eq!(session.step(Event::ConnectFailed), final_reply(FAILURE));
}

#[test]
fn identity_union_fails_when_the_synthesized_response_exceeds_the_limit() {
    let large_key_a = vec![b'a'; 140_000];
    let large_key_b = vec![b'b'; 140_000];
    let mut session = new_session();
    session.step(Event::Request(REQUEST_IDENTITIES.to_vec()));
    session.step(routes(&[REGISTERED, FALLBACK]));
    session.step(Event::Connected);
    assert_eq!(
        session.step(Event::Response(identities_response(&[(&large_key_a, b"first")]))),
        connect_to(FALLBACK)
    );
    session.step(Event::Connected);
    assert_eq!(
        session.step(Event::Response(identities_response(&[(&large_key_b, b"fallback")]))),
        final_reply(FAILURE)
    );
}

#[test]
fn signing_prefers_a_discovered_forwarded_agent_before_fallback() {
    let mut session = new_session();
    session.step(Event::Request(KEYED_SIGN_REQUEST.to_vec()));
    assert_eq!(session.step(routes(&[DISCOVERED, FALLBACK])), connect_to(DISCOVERED));
    assert_eq!(session.step(Event::Connected), send(KEYED_SIGN_REQUEST, 30_000));
    assert_eq!(session.step(Event::Response(FAILURE.to_vec())), connect_to(FALLBACK));
    assert_eq!(session.step(Event::Connected), send(KEYED_SIGN_REQUEST, 30_000));
    assert_eq!(
        session.step(Event::Response(SIGNATURE.to_vec())),
        Action::Promote { key: b"k".to_vec(), signer: FALLBACK.to_vec(), body: SIGNATURE.to_vec() }
    );
}

#[test]
fn signing_advances_after_a_candidate_response_timeout() {
    let mut session = new_session();
    session.step(Event::Request(KEYED_SIGN_REQUEST.to_vec()));
    session.step(routes(&[REGISTERED, FALLBACK]));
    session.step(Event::Connected);
    assert_eq!(session.step(Event::UpstreamFailed), connect_to(FALLBACK));
    session.step(Event::Connected);
    assert_eq!(
        session.step(Event::Response(SIGNATURE.to_vec())),
        Action::Promote { key: b"k".to_vec(), signer: FALLBACK.to_vec(), body: SIGNATURE.to_vec() }
    );
}

#[test]
fn signing_skips_a_candidate_with_the_wrong_response_type() {
    let mut session = new_session();
    session.step(Event::Request(KEYED_SIGN_REQUEST.to_vec()));
    session.step(routes(&[REGISTERED, FALLBACK]));
    session.step(Event::Connected);
    assert_eq!(session.step(Event::Response(vec![6])), connect_to(FALLBACK));
}

#[test]
fn signing_fails_closed_when_every_candidate_rejects() {
    let mut session = new_session();
    session.step(Event::Request(KEYED_SIGN_REQUEST.to_vec()));
    session.step(routes(&[REGISTERED, FALLBACK]));
    session.step(Event::Connected);
    assert_eq!(session.step(Event::Response(FAILURE.to_vec())), connect_to(FALLBACK));
    session.step(Event::Connected);
    assert_eq!(session.step(Event::Response(FAILURE.to_vec())), final_reply(FAILURE));
}

#[test]
fn query_skips_an_explicit_extension_failure() {
    let mut session = new_session();
    session.step(Event::Request(QUERY_EXTENSION.to_vec()));
    session.step(routes(&[REGISTERED, FALLBACK]));
    assert_eq!(session.step(Event::Connected), send(QUERY_EXTENSION, 2_000));
    assert_eq!(session.step(Event::Response(vec![28])), connect_to(FALLBACK));
    session.step(Event::Connected);
    assert_eq!(session.step(Event::Response(vec![6])), final_reply(&[6]));
}

#[test]
fn query_accepts_a_valid_extension_response() {
    let response = query_response(&[b"session-bind@openssh.com"]);
    let mut session = new_session();
    session.step(Event::Request(QUERY_EXTENSION.to_vec()));
    session.step(routes(&[REGISTERED, FALLBACK]));
    session.step(Event::Connected);
    assert_eq!(session.step(Event::Response(response.clone())), final_reply(&response));
}

#[test]
fn idempotent_queries_continue_after_a_candidate_disconnects() {
    let mut session = new_session();
    session.step(Event::Request(QUERY_EXTENSION.to_vec()));
    session.step(routes(&[b"/first.sock", b"/second.sock", FALLBACK]));
    session.step(Event::Connected);
    assert_eq!(session.step(Event::UpstreamFailed), connect_to(b"/second.sock"));
    session.step(Event::Connected);
    assert_eq!(session.step(Event::Response(vec![6])), final_reply(&[6]));
}

#[test]
fn session_binding_fails_closed_after_an_ambiguous_disconnect() {
    let mut session = new_session();
    session.step(Event::Request(SESSION_BIND_EXTENSION.to_vec()));
    session.step(routes(&[REGISTERED, FALLBACK]));
    assert_eq!(session.step(Event::Connected), send(SESSION_BIND_EXTENSION, 2_000));
    assert_eq!(session.step(Event::UpstreamFailed), failed());
    assert_eq!(session.binding_count(), 0);
}

#[test]
fn session_binding_fails_closed_after_an_ambiguous_response() {
    let mut session = new_session();
    session.step(Event::Request(SESSION_BIND_EXTENSION.to_vec()));
    session.step(routes(&[REGISTERED, FALLBACK]));
    session.step(Event::Connected);
    assert_eq!(session.step(Event::Response(vec![14, 0, 0, 0, 1, b'x'])), failed());
    assert_eq!(session.binding_count(), 0);
}

#[test]
fn session_binding_skips_an_unreachable_candidate() {
    let mut session = new_session();
    session.step(Event::Request(SESSION_BIND_EXTENSION.to_vec()));
    session.step(routes(&[REGISTERED, FALLBACK]));
    assert_eq!(session.step(Event::ConnectFailed), connect_to(FALLBACK));
    session.step(Event::Connected);
    assert_eq!(session.step(Event::Response(vec![6])), final_reply(&[6]));
    assert_eq!(session.binding_count(), 1);
}

#[test]
fn session_binding_does_not_pin_signing_to_the_first_agent() {
    let mut session = new_session();
    session.step(Event::Request(SESSION_BIND_EXTENSION.to_vec()));
    session.step(routes(&[REGISTERED, FALLBACK]));
    session.step(Event::Connected);
    assert_eq!(session.step(Event::Response(vec![6])), final_reply(&[6]));

    session.step(Event::Request(KEYED_SIGN_REQUEST.to_vec()));
    assert_eq!(session.step(routes(&[REGISTERED, FALLBACK])), connect_to(REGISTERED));
    assert_eq!(session.step(Event::Connected), send(SESSION_BIND_EXTENSION, 2_000));
    assert_eq!(session.step(Event::Response(vec![6])), send(KEYED_SIGN_REQUEST, 30_000));
    assert_eq!(session.step(Event::Response(FAILURE.to_vec())), connect_to(FALLBACK));
    assert_eq!(session.step(Event::Connected), send(SESSION_BIND_EXTENSION, 2_000));
    assert_eq!(session.step(Event::Response(vec![6])), send(KEYED_SIGN_REQUEST, 30_000));
    assert_eq!(
        session.step(Event::Response(SIGNATURE.to_vec())),
        Action::Promote { key: b"k".to_vec(), signer: FALLBACK.to_vec(), body: SIGNATURE.to_vec() }
    );
}

#[test]
fn a_rejected_replay_skips_that_candidate() {
    let mut session = new_session();
    session.step(Event::Request(SESSION_BIND_EXTENSION.to_vec()));
    session.step(routes(&[FALLBACK]));
    session.step(Event::Connected);
    session.step(Event::Response(vec![6]));

    session.step(Event::Request(QUERY_EXTENSION.to_vec()));
    assert_eq!(session.step(routes(&[REGISTERED, FALLBACK])), connect_to(REGISTERED));
    assert_eq!(session.step(Event::Connected), send(SESSION_BIND_EXTENSION, 2_000));
    assert_eq!(session.step(Event::Response(FAILURE.to_vec())), connect_to(FALLBACK));
}

/// Drives one request the way the shell does, against `registry` and agents
/// that answer through `respond` (`None` drops the connection). Returns the
/// reply and the agents contacted.
fn exchange(
    session: &mut Session,
    registry: &mut Registry,
    request: &[u8],
    respond: &dyn Fn(&[u8], &[u8]) -> Option<Vec<u8>>,
) -> (Vec<u8>, Vec<Vec<u8>>) {
    let mut contacted = Vec::new();
    let mut current = Vec::new();
    let mut action = session.step(Event::Request(request.to_vec()));
    loop {
        action = match action {
            Action::Route { signing_key } => {
                let candidates = match signing_key {
                    Some(key) => registry.signing_candidates(Vec::new(), &key),
                    None => registry.candidates(Vec::new()),
                };
                session.step(Event::Routes(
                    candidates.iter().map(|backend| backend.path().to_vec()).collect(),
                ))
            }
            Action::Connect { path, timeout: _ } => {
                contacted.push(path.clone());
                current = path;
                session.step(Event::Connected)
            }
            Action::Send { frame, timeout: _ } => match respond(&current, &frame) {
                Some(response) => session.step(Event::Response(response)),
                None => session.step(Event::UpstreamFailed),
            },
            Action::Promote { key, signer, body } => {
                registry.promote_signer(key, signer);
                return (body, contacted);
            }
            Action::Reply { body, disconnect: _ } => return (body, contacted),
        };
    }
}

#[test]
fn successful_signing_promotes_that_backend_for_later_signatures() {
    let mut registry = Registry::new(FALLBACK.to_vec());
    registry.register(REGISTERED.to_vec());
    let mut session = new_session();
    let respond = |agent: &[u8], _frame: &[u8]| {
        if agent == REGISTERED { Some(FAILURE.to_vec()) } else { Some(SIGNATURE.to_vec()) }
    };
    assert_eq!(
        exchange(&mut session, &mut registry, KEYED_SIGN_REQUEST, &respond),
        (SIGNATURE.to_vec(), vec![REGISTERED.to_vec(), FALLBACK.to_vec()])
    );
    assert_eq!(
        exchange(&mut session, &mut registry, KEYED_SIGN_REQUEST, &respond),
        (SIGNATURE.to_vec(), vec![FALLBACK.to_vec()])
    );
}

#[test]
fn signer_promotion_is_scoped_to_the_requested_key() {
    let mut registry = Registry::new(FALLBACK.to_vec());
    registry.register(REGISTERED.to_vec());
    let mut session = new_session();
    let respond = |agent: &[u8], frame: &[u8]| {
        if agent == REGISTERED && frame == KEYED_SIGN_REQUEST {
            Some(FAILURE.to_vec())
        } else {
            Some(SIGNATURE.to_vec())
        }
    };
    assert_eq!(
        exchange(&mut session, &mut registry, KEYED_SIGN_REQUEST, &respond),
        (SIGNATURE.to_vec(), vec![REGISTERED.to_vec(), FALLBACK.to_vec()])
    );
    assert_eq!(
        exchange(&mut session, &mut registry, OTHER_KEY_SIGN_REQUEST, &respond),
        (SIGNATURE.to_vec(), vec![REGISTERED.to_vec()])
    );
}

#[test]
fn signing_advances_to_a_different_candidate_after_an_ambiguous_disconnect() {
    let mut registry = Registry::new(FALLBACK.to_vec());
    registry.register(REGISTERED.to_vec());
    let mut session = new_session();
    let respond = |agent: &[u8], _frame: &[u8]| {
        if agent == REGISTERED { None } else { Some(SIGNATURE.to_vec()) }
    };
    assert_eq!(
        exchange(&mut session, &mut registry, KEYED_SIGN_REQUEST, &respond),
        (SIGNATURE.to_vec(), vec![REGISTERED.to_vec(), FALLBACK.to_vec()])
    );
}

#[test]
fn the_fallback_alone_keeps_one_connection() {
    let mut registry = Registry::new(FALLBACK.to_vec());
    let mut session = new_session();
    let respond = |_agent: &[u8], frame: &[u8]| {
        if frame == REQUEST_IDENTITIES { Some(IDENTITIES_ANSWER.to_vec()) } else { Some(SIGNATURE.to_vec()) }
    };
    assert_eq!(
        exchange(&mut session, &mut registry, REQUEST_IDENTITIES, &respond),
        (IDENTITIES_ANSWER.to_vec(), vec![FALLBACK.to_vec()])
    );
    assert_eq!(
        exchange(&mut session, &mut registry, KEYED_SIGN_REQUEST, &respond),
        (SIGNATURE.to_vec(), Vec::new())
    );
}

#[test]
fn a_single_agent_answers_are_checked_like_several() {
    let mut session = new_session();
    assert_eq!(single(&mut session, REQUEST_IDENTITIES), connect());
    session.step(Event::Connected);
    assert_eq!(session.step(Event::Response(vec![12, 0, 0])), reply(FAILURE));

    assert_eq!(single(&mut session, REQUEST_IDENTITIES), send(REQUEST_IDENTITIES, 2_000));
    assert_eq!(
        session.step(Event::Response(identities_response(&[(b"key", b"one"), (b"key", b"two")]))),
        reply(&identities_response(&[(b"key", b"one")]))
    );

    assert_eq!(single(&mut session, KEYED_SIGN_REQUEST), send(KEYED_SIGN_REQUEST, 30_000));
    assert_eq!(session.step(Event::Response(vec![12, 0, 0, 0, 0])), reply(FAILURE));
    assert_eq!(single(&mut session, KEYED_SIGN_REQUEST), send(KEYED_SIGN_REQUEST, 30_000));
    assert_eq!(session.step(Event::Response(FAILURE.to_vec())), reply(FAILURE));
    assert_eq!(single(&mut session, KEYED_SIGN_REQUEST), send(KEYED_SIGN_REQUEST, 30_000));
    assert_eq!(session.step(Event::Response(SIGNATURE.to_vec())), reply(SIGNATURE));
}
