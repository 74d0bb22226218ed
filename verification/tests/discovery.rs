//! Which directory entries are offered as forwarded agents.

use lanyard_ssh_agent::discovery::{
    is_agent_directory, is_agent_directory_name, is_agent_socket, is_agent_socket_name,
};

#[test]
fn forwarded_agents_are_recognised_by_name() {
    assert!(is_agent_directory_name(b"ssh-XXXXabcd"));
    assert!(is_agent_directory_name(b"ssh-"));
    assert!(!is_agent_directory_name(b"ssh"));
    assert!(!is_agent_directory_name(b"tmux-1000"));
    assert!(is_agent_socket_name(b"agent.4242"));
    assert!(!is_agent_socket_name(b"agent"));
    assert!(!is_agent_socket_name(b"lanyard.sock"));
}

#[test]
fn only_the_users_own_agents_are_discovered() {
    assert!(is_agent_directory(b"ssh-abc", true, 1000, 1000));
    assert!(!is_agent_directory(b"ssh-abc", true, 1001, 1000));
    assert!(!is_agent_directory(b"ssh-abc", false, 1000, 1000));
    assert!(!is_agent_directory(b"other", true, 1000, 1000));
    assert!(is_agent_socket(b"agent.42", true, 1000, 1000));
    assert!(!is_agent_socket(b"agent.42", true, 0, 1000));
    assert!(!is_agent_socket(b"agent.42", false, 1000, 1000));
    assert!(!is_agent_socket(b"socket.42", true, 1000, 1000));
}
