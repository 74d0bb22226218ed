//! Control-protocol framing, registration and status assembly.

use lanyard_ssh_agent::backend::{Registry, Source};
use lanyard_ssh_agent::control::{
    apply_update, dispatch_update, request_body, status_response, CandidateStatus, LineFault,
    Request, Response,
};
use lanyard_ssh_agent::backend::SharedRegistry;

#[test]
fn control_lines_must_end_with_a_newline() {
    assert_eq!(request_body(b"{\"command\":\"status\"}\n"), Ok(&b"{\"command\":\"status\"}"[..]));
    assert_eq!(request_body(b"\n"), Ok(&b""[..]));
    assert_eq!(request_body(b"{\"command\":\"status\"}"), Err(LineFault::Unterminated));
    assert_eq!(request_body(b""), Err(LineFault::Unterminated));
}

#[test]
fn control_lines_are_bounded() {
    let mut exact = vec![b' '; 0x0003_ffff];
    exact.push(b'\n');
    assert_eq!(request_body(&exact).map(<[u8]>::len), Ok(0x0003_ffff));

    let mut oversized = vec![b' '; 0x0004_0000];
    oversized.push(b'\n');
    assert_eq!(request_body(&oversized), Err(LineFault::TooLarge));
}

#[test]
fn line_faults_are_reported_as_error_responses() {
    assert_eq!(
        LineFault::TooLarge.response(),
        Response::Error { message: "control request exceeds protocol bounds".to_owned() }
    );
    assert_eq!(
        LineFault::Unterminated.response(),
        Response::Error { message: "control request must end with a newline".to_owned() }
    );
}

#[test]
fn registration_requests_update_the_registry() {
    let mut registry = Registry::new(b"/fallback".to_vec());
    assert_eq!(
        apply_update(&mut registry, Request::Register { path: b"/forwarded".to_vec() }),
        Some(Response::Updated { changed: true })
    );
    assert_eq!(
        apply_update(&mut registry, Request::Register { path: b"/forwarded".to_vec() }),
        Some(Response::Updated { changed: true })
    );
    assert_eq!(apply_update(&mut registry, Request::Status), None);
    assert_eq!(
        apply_update(&mut registry, Request::Unregister { path: b"/forwarded".to_vec() }),
        Some(Response::Updated { changed: true })
    );
    assert_eq!(
        apply_update(&mut registry, Request::Unregister { path: b"/not/registered".to_vec() }),
        Some(Response::Updated { changed: false })
    );
    assert_eq!(registry.candidates(Vec::new()).len(), 1);
}

#[test]
fn shared_registration_requests_report_changes() {
    let shared = SharedRegistry::new(Registry::new(b"/fallback".to_vec()));
    assert_eq!(
        dispatch_update(&shared, Request::Register { path: b"/forwarded".to_vec() }),
        Some(Response::Updated { changed: true })
    );
    assert_eq!(dispatch_update(&shared, Request::Status), None);
    assert_eq!(
        dispatch_update(&shared, Request::Unregister { path: b"/forwarded".to_vec() }),
        Some(Response::Updated { changed: true })
    );
    assert_eq!(
        dispatch_update(&shared, Request::Unregister { path: b"/forwarded".to_vec() }),
        Some(Response::Updated { changed: false })
    );
}

#[test]
fn status_lists_probed_candidates_in_routing_order() {
    let mut registry = Registry::new(b"/onepassword.sock".to_vec());
    registry.register(b"/forwarded.sock".to_vec());
    let candidates = registry.candidates(vec![b"/discovered/agent.42".to_vec()]);

    let response = status_response(&candidates, &vec![Some(false), Some(true), Some(false)]);

    assert_eq!(
        response,
        Response::Status {
            candidates: vec![
                CandidateStatus {
                    path: b"/forwarded.sock".to_vec(),
                    source: Source::Registered,
                    reachable: false,
                },
                CandidateStatus {
                    path: b"/discovered/agent.42".to_vec(),
                    source: Source::Discovered,
                    reachable: true,
                },
                CandidateStatus {
                    path: b"/onepassword.sock".to_vec(),
                    source: Source::Fallback,
                    reachable: false,
                },
            ]
        }
    );
}

#[test]
fn status_omits_candidates_whose_probe_did_not_report() {
    let mut registry = Registry::new(b"/fallback".to_vec());
    registry.register(b"/forwarded".to_vec());
    let candidates = registry.candidates(Vec::new());

    assert_eq!(
        status_response(&candidates, &vec![None, Some(true)]),
        Response::Status {
            candidates: vec![CandidateStatus {
                path: b"/fallback".to_vec(),
                source: Source::Fallback,
                reachable: true,
            }]
        }
    );
    assert_eq!(
        status_response(&candidates, &vec![Some(true)]),
        Response::Status {
            candidates: vec![CandidateStatus {
                path: b"/forwarded".to_vec(),
                source: Source::Registered,
                reachable: true,
            }]
        }
    );
}

#[test]
fn status_keeps_non_utf8_paths() {
    let registry = Registry::new(b"/run/\xff/fallback".to_vec());
    let candidates = registry.candidates(vec![b"/tmp/ssh-\xff/agent.\xfe".to_vec()]);
    assert_eq!(
        status_response(&candidates, &vec![Some(true), Some(false)]),
        Response::Status {
            candidates: vec![
                CandidateStatus {
                    path: b"/tmp/ssh-\xff/agent.\xfe".to_vec(),
                    source: Source::Discovered,
                    reachable: true,
                },
                CandidateStatus {
                    path: b"/run/\xff/fallback".to_vec(),
                    source: Source::Fallback,
                    reachable: false,
                },
            ]
        }
    );
}
