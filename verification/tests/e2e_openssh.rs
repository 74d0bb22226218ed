//! Start-up retry helpers of the end-to-end harness.

use std::io::{self, ErrorKind};

enum StartAttempt<T> {
    Started(T),
    Contended(io::Error),
}

fn retry_contended_start<T>(
    maximum_attempts: u8,
    mut attempt: impl FnMut() -> io::Result<StartAttempt<T>>,
) -> io::Result<T> {
    let mut last_contention = None;
    for _attempt_index in 0..maximum_attempts {
        match attempt()? {
            StartAttempt::Started(started) => return Ok(started),
            StartAttempt::Contended(error) => last_contention = Some(error),
        }
    }
    Err(last_contention.unwrap_or_else(|| {
        io::Error::new(
            ErrorKind::InvalidInput,
            "at least one start attempt is required",
        )
    }))
}

fn retry_available_port_start<T>(
    maximum_attempts: u8,
    mut allocate: impl FnMut() -> io::Result<u16>,
    mut attempt: impl FnMut(u16) -> io::Result<StartAttempt<T>>,
) -> io::Result<T> {
    retry_contended_start(maximum_attempts, || attempt(allocate()?))
}

#[test]
fn retries_when_an_sshd_port_candidate_is_claimed() -> io::Result<()> {
    let mut attempts = 0u8;

    let selected = retry_contended_start(3, || {
        attempts = attempts.saturating_add(1);
        if attempts == 1 {
            return Ok(StartAttempt::Contended(io::Error::new(
                ErrorKind::AddrInUse,
                "injected loopback port claimant",
            )));
        }
        Ok(StartAttempt::Started(22u16))
    })?;

    assert_eq!(selected, 22);
    assert_eq!(attempts, 2);
    Ok(())
}

#[test]
fn allocates_a_fresh_port_for_each_sshd_start_attempt() -> io::Result<()> {
    let mut attempted_ports = Vec::new();
    let mut candidates = [41_001u16, 41_002u16].into_iter();

    let selected = retry_available_port_start(
        3,
        || {
            candidates
                .next()
                .ok_or_else(|| io::Error::other("candidate sequence exhausted"))
        },
        |port| {
            attempted_ports.push(port);
            if attempted_ports.len() == 1 {
                return Ok(StartAttempt::Contended(io::Error::new(
                    ErrorKind::AddrInUse,
                    "injected loopback port claimant",
                )));
            }
            Ok(StartAttempt::Started(port))
        },
    )?;

    assert_eq!(attempted_ports.len(), 2);
    assert_ne!(attempted_ports.first(), attempted_ports.last());
    assert_eq!(attempted_ports.last(), Some(&selected));
    Ok(())
}
