//! Socket naming beneath the XDG runtime directory.

use lanyard_ssh_agent::paths::{agent_socket, control_socket, normalize_path};

#[test]
fn stable_socket_names_share_a_private_runtime_directory() {
    let runtime: &[u8] = b"/run/user/1000";

    assert_eq!(
        agent_socket(runtime),
        b"/run/user/1000/lanyard-ssh-agent/agent.sock".to_vec()
    );
    assert_eq!(
        control_socket(runtime),
        b"/run/user/1000/lanyard-ssh-agent/control.sock".to_vec()
    );
}

#[test]
fn joining_does_not_double_a_trailing_separator() {
    assert_eq!(
        agent_socket(b"/run/user/1000/"),
        b"/run/user/1000/lanyard-ssh-agent/agent.sock".to_vec()
    );
    assert_eq!(
        control_socket(b"/"),
        b"/lanyard-ssh-agent/control.sock".to_vec()
    );
}

#[test]
fn an_empty_runtime_directory_yields_relative_names() {
    assert_eq!(agent_socket(b""), b"lanyard-ssh-agent/agent.sock".to_vec());
    assert_eq!(control_socket(b""), b"lanyard-ssh-agent/control.sock".to_vec());
}

#[test]
fn socket_names_keep_non_utf8_runtime_bytes() {
    assert_eq!(
        agent_socket(b"/run/\xff"),
        b"/run/\xff/lanyard-ssh-agent/agent.sock".to_vec()
    );
}

#[test]
fn paths_are_spelled_by_their_components() {
    assert_eq!(normalize_path(b"/tmp/a"), b"/tmp/a".to_vec());
    assert_eq!(normalize_path(b"/tmp/a/"), b"/tmp/a".to_vec());
    assert_eq!(normalize_path(b"/tmp//a"), b"/tmp/a".to_vec());
    assert_eq!(normalize_path(b"//tmp/./a/."), b"/tmp/a".to_vec());
    assert_eq!(normalize_path(b"/"), b"/".to_vec());
    assert_eq!(normalize_path(b"/./"), b"/".to_vec());
    assert_eq!(normalize_path(b"./a/b/"), b"./a/b".to_vec());
    assert_eq!(normalize_path(b"."), b".".to_vec());
    assert_eq!(normalize_path(b"./"), b".".to_vec());
    assert_eq!(normalize_path(b"a/./b"), b"a/b".to_vec());
    assert_eq!(normalize_path(b"a/../b"), b"a/../b".to_vec());
    assert_eq!(normalize_path(b".hidden/x"), b".hidden/x".to_vec());
    assert_eq!(normalize_path(b""), Vec::<u8>::new());
    assert_eq!(normalize_path(&[b'/', 0xff, b'/', b'/']), vec![b'/', 0xff]);
}
