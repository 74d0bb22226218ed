//! Which directory entries look like forwarded OpenSSH agent sockets.
//!
//! OpenSSH places a forwarded agent at `<tmp>/ssh-XXXXXXXXXX/agent.<pid>`.
//! The shell lists the discovery roots and reports what each entry is and who
//! owns it; these predicates decide. Only the user's own agents are used.
use vstd::prelude::*;

verus! {

/// `ssh-`, the prefix of a forwarded agent's directory.
pub open spec fn agent_directory_prefix() -> Seq<u8> {
    seq![115u8, 115, 104, 45]
}

/// `agent.`, the prefix of a forwarded agent's socket.
pub open spec fn agent_socket_prefix() -> Seq<u8> {
    seq![97u8, 103, 101, 110, 116, 46]
}

/// Whether `name` starts with `prefix`.
pub open spec fn spec_has_prefix(name: Seq<u8>, prefix: Seq<u8>) -> bool {
    prefix.len() <= name.len() && name.take(prefix.len() as int) == prefix
}

fn has_prefix(name: &[u8], prefix: &[u8]) -> (starts: bool)
    ensures
        starts == spec_has_prefix(name@, prefix@),
{
    if prefix.len() > name.len() {
        return false;
    }
    let mut index: usize = 0;
    while index < prefix.len()
        invariant
            prefix@.len() <= name@.len(),
            index <= prefix@.len(),
            forall|i: int| 0 <= i < index ==> name@[i] == prefix@[i],
        decreases prefix@.len() - index,
    {
        if name[index] != prefix[index] {
            assert(name@.take(prefix@.len() as int)[index as int] != prefix@[index as int]);
            return false;
        }
        index = index + 1;
    }
    assert(name@.take(prefix@.len() as int) =~= prefix@);
    true
}

/// Whether a directory name is that of a forwarded agent (`ssh-*`).
pub fn is_agent_directory_name(name: &[u8]) -> (matches: bool)
    ensures
        matches == spec_has_prefix(name@, agent_directory_prefix()),
{
    let prefix = vec![115u8, 115, 104, 45];
    assert(prefix@ =~= agent_directory_prefix());
    has_prefix(name, prefix.as_slice())
}

/// Whether a socket name is that of a forwarded agent (`agent.*`).
pub fn is_agent_socket_name(name: &[u8]) -> (matches: bool)
    ensures
        matches == spec_has_prefix(name@, agent_socket_prefix()),
{
    let prefix = vec![97u8, 103, 101, 110, 116, 46];
    assert(prefix@ =~= agent_socket_prefix());
    has_prefix(name, prefix.as_slice())
}

/// Whether a directory entry is a forwarded agent's directory: a directory
/// named `ssh-*` that `user` owns.
pub open spec fn spec_is_agent_directory(name: Seq<u8>, is_directory: bool, owner: u32, user: u32) -> bool {
    is_directory && owner == user && spec_has_prefix(name, agent_directory_prefix())
}

/// Decides whether to search a directory entry for forwarded agents.
pub fn is_agent_directory(name: &[u8], is_directory: bool, owner: u32, user: u32) -> (matches: bool)
    ensures
        matches == spec_is_agent_directory(name@, is_directory, owner, user),
{
    is_directory && owner == user && is_agent_directory_name(name)
}

/// Whether a directory entry is a forwarded agent's socket: a socket named
/// `agent.*` that `user` owns.
pub open spec fn spec_is_agent_socket(name: Seq<u8>, is_socket: bool, owner: u32, user: u32) -> bool {
    is_socket && owner == user && spec_has_prefix(name, agent_socket_prefix())
}

/// Decides whether a directory entry is a forwarded agent to offer.
pub fn is_agent_socket(name: &[u8], is_socket: bool, owner: u32, user: u32) -> (matches: bool)
    ensures
        matches == spec_is_agent_socket(name@, is_socket, owner, user),
{
    is_socket && owner == user && is_agent_socket_name(name)
}

} // verus!
