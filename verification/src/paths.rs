//! XDG paths used by the daemon and its clients.
//!
//! Paths are Unix byte strings. Joining follows `Path::join` for a relative
//! component: a separator is inserted unless the base is empty or already ends
//! with one.
use vstd::prelude::*;

use crate::bytes::{byte_views, copy_bytes};

verus! {

/// The Unix path separator, `/`.
pub const SEPARATOR: u8 = 47;

/// `base` joined with the relative path `relative`.
pub open spec fn spec_join(base: Seq<u8>, relative: Seq<u8>) -> Seq<u8> {
    if base.len() > 0 && base.last() != SEPARATOR {
        base + seq![SEPARATOR] + relative
    } else {
        base + relative
    }
}

/// `lanyard-ssh-agent/agent.sock`.
pub open spec fn agent_socket_name() -> Seq<u8> {
    seq![
        108u8, 97, 110, 121, 97, 114, 100, 45, 115, 115, 104, 45, 97, 103, 101, 110, 116, 47, 97,
        103, 101, 110, 116, 46, 115, 111, 99, 107,
    ]
}

/// `lanyard-ssh-agent/control.sock`.
pub open spec fn control_socket_name() -> Seq<u8> {
    seq![
        108u8, 97, 110, 121, 97, 114, 100, 45, 115, 115, 104, 45, 97, 103, 101, 110, 116, 47, 99,
        111, 110, 116, 114, 111, 108, 46, 115, 111, 99, 107,
    ]
}

/// Joins a relative path onto `base`.
fn join(base: &[u8], relative: Vec<u8>) -> (joined: Vec<u8>)
    ensures
        joined@ == spec_join(base@, relative@),
{
    let mut joined = copy_bytes(base);
    if base.len() > 0 && base[base.len() - 1] != SEPARATOR {
        joined.push(SEPARATOR);
    }
    let mut rest = relative;
    joined.append(&mut rest);
    joined
}

/// Names the stable SSH agent socket beneath an XDG runtime directory.
pub fn agent_socket(runtime_directory: &[u8]) -> (socket: Vec<u8>)
    ensures
        socket@ == spec_join(runtime_directory@, agent_socket_name()),
{
    let name = vec![
        108u8, 97, 110, 121, 97, 114, 100, 45, 115, 115, 104, 45, 97, 103, 101, 110, 116, 47, 97,
        103, 101, 110, 116, 46, 115, 111, 99, 107,
    ];
    assert(name@ =~= agent_socket_name());
    join(runtime_directory, name)
}

/// Names the daemon control socket beneath an XDG runtime directory.
pub fn control_socket(runtime_directory: &[u8]) -> (socket: Vec<u8>)
    ensures
        socket@ == spec_join(runtime_directory@, control_socket_name()),
{
    let name = vec![
        108u8, 97, 110, 121, 97, 114, 100, 45, 115, 115, 104, 45, 97, 103, 101, 110, 116, 47, 99,
        111, 110, 116, 114, 111, 108, 46, 115, 111, 99, 107,
    ];
    assert(name@ =~= control_socket_name());
    join(runtime_directory, name)
}

/// Both stable sockets share one private directory beneath the runtime
/// directory and differ only in their final name.
pub proof fn law_sockets_share_a_directory(runtime_directory: Seq<u8>)
    ensures
        ({
            let agent = spec_join(runtime_directory, agent_socket_name());
            let control = spec_join(runtime_directory, control_socket_name());
            let prefix_length = agent.len() - 10;
            &&& agent.take(prefix_length) == control.take(prefix_length)
            &&& agent.take(prefix_length).last() == SEPARATOR
            &&& agent.skip(prefix_length) == seq![97u8, 103, 101, 110, 116, 46, 115, 111, 99, 107]
            &&& control.skip(prefix_length) == seq![
                99u8, 111, 110, 116, 114, 111, 108, 46, 115, 111, 99, 107,
            ]
        }),
{
    let agent = spec_join(runtime_directory, agent_socket_name());
    let control = spec_join(runtime_directory, control_socket_name());
    let prefix_length = agent.len() - 10;
    assert(agent.take(prefix_length) =~= control.take(prefix_length));
    assert(agent.skip(prefix_length) =~= seq![97u8, 103, 101, 110, 116, 46, 115, 111, 99, 107]);
    assert(control.skip(prefix_length) =~= seq![
        99u8, 111, 110, 116, 114, 111, 108, 46, 115, 111, 99, 107,
    ]);
}

/// `.`, the current directory.
pub const DOT: u8 = 46;

/// The pieces of `path` between separators, empty ones included.
pub open spec fn spec_split(path: Seq<u8>) -> Seq<Seq<u8>>
    decreases path.len(),
{
    if path.len() == 0 {
        seq![Seq::empty()]
    } else {
        let earlier = spec_split(path.drop_last());
        if path.last() == SEPARATOR {
            earlier.push(Seq::empty())
        } else {
            earlier.update(earlier.len() - 1, earlier.last().push(path.last()))
        }
    }
}

/// Whether a piece between separators is a component: neither empty (a
/// repeated or trailing separator) nor `.`.
pub open spec fn is_component(piece: Seq<u8>) -> bool {
    piece.len() > 0 && piece != seq![DOT]
}

/// The components of `path` after its root or leading `.`, as `Path::components`
/// gives them: repeated and trailing separators and inner `.` are dropped.
pub open spec fn spec_components(path: Seq<u8>) -> Seq<Seq<u8>> {
    spec_split(path).filter(|piece: Seq<u8>| is_component(piece))
}

/// Components joined with single separators.
pub open spec fn spec_join_components(components: Seq<Seq<u8>>) -> Seq<u8>
    decreases components.len(),
{
    if components.len() == 0 {
        Seq::empty()
    } else if components.len() == 1 {
        components[0]
    } else {
        spec_join_components(components.drop_last()) + seq![SEPARATOR] + components.last()
    }
}

/// Whether a relative path starts with the current directory, `.`.
pub open spec fn starts_at_current_directory(path: Seq<u8>) -> bool {
    path.len() > 0 && path[0] == DOT && (path.len() == 1 || path[1] == SEPARATOR)
}

/// The canonical spelling of `path`: its root or leading `.`, then its
/// components separated by single separators. Two paths compare equal as
/// `Path`s exactly when they have the same components, root and leading `.`,
/// which is when their canonical spellings are the same.
pub open spec fn spec_normalize_path(path: Seq<u8>) -> Seq<u8> {
    let joined = spec_join_components(spec_components(path));
    if path.len() > 0 && path[0] == SEPARATOR {
        seq![SEPARATOR] + joined
    } else if starts_at_current_directory(path) {
        if joined.len() == 0 {
            seq![DOT]
        } else {
            seq![DOT, SEPARATOR] + joined
        }
    } else {
        joined
    }
}

/// The components of `path`, in order.
fn components(path: &[u8]) -> (found: Vec<Vec<u8>>)
    ensures
        byte_views(found@) == spec_components(path@),
{
    let ghost keep = |piece: Seq<u8>| is_component(piece);
    let mut found: Vec<Vec<u8>> = Vec::new();
    let mut current: Vec<u8> = Vec::new();
    let mut index: usize = 0;
    assert(path@.take(0) =~= Seq::<u8>::empty());
    assert(spec_split(Seq::<u8>::empty()).drop_last() =~= Seq::<Seq<u8>>::empty());
    assert(byte_views(found@) =~= Seq::<Seq<u8>>::empty());
    while index < path.len()
        invariant
            index <= path@.len(),
            keep == (|piece: Seq<u8>| is_component(piece)),
            spec_split(path@.take(index as int)).len() > 0,
            byte_views(found@) == spec_split(path@.take(index as int)).drop_last().filter(keep),
            current@ == spec_split(path@.take(index as int)).last(),
        decreases path@.len() - index,
    {
        let ghost before = spec_split(path@.take(index as int));
        let ghost shown = byte_views(found@);
        assert(path@.take(index + 1).drop_last() =~= path@.take(index as int));
        assert(path@.take(index + 1).last() == path@[index as int]);
        if path[index] == SEPARATOR {
            let piece = current;
            current = Vec::new();
            let component = piece.len() > 0 && !(piece.len() == 1 && piece[0] == DOT);
            assert(component == is_component(piece@)) by {
                if piece@.len() == 1 && piece@[0] == DOT {
                    assert(piece@ =~= seq![DOT]);
                }
            }
            let ghost after = before.push(Seq::<u8>::empty());
            assert(after.drop_last() =~= before);
            proof {
                assert(before =~= before.drop_last().push(before.last()));
                before.drop_last().lemma_filter_push(before.last(), keep);
            }
            assert(keep(piece@) == is_component(piece@));
            if component {
                found.push(piece);
                assert(byte_views(found@) =~= shown.push(piece@));
            } else {
                assert(byte_views(found@) =~= shown);
            }
            assert(current@ =~= after.last());
        } else {
            current.push(path[index]);
            let ghost after = before.update(before.len() - 1, before.last().push(path@[index as int]));
            assert(after.drop_last() =~= before.drop_last());
        }
        index = index + 1;
    }
    let ghost all = spec_split(path@.take(index as int));
    assert(path@.take(index as int) =~= path@);
    proof {
        assert(all =~= all.drop_last().push(all.last()));
        all.drop_last().lemma_filter_push(all.last(), keep);
    }
    assert(keep(current@) == is_component(current@));
    assert(spec_components(path@) == all.filter(keep));
    let component = current.len() > 0 && !(current.len() == 1 && current[0] == DOT);
    assert(component == is_component(current@)) by {
        if current@.len() == 1 && current@[0] == DOT {
            assert(current@ =~= seq![DOT]);
        }
    }
    let ghost shown = byte_views(found@);
    if component {
        found.push(current);
        assert(byte_views(found@) =~= shown.push(all.last()));
    }
    found
}

/// Joins components with single separators.
fn join_components(components: &Vec<Vec<u8>>) -> (joined: Vec<u8>)
    ensures
        joined@ == spec_join_components(byte_views(components@)),
{
    let ghost views = byte_views(components@);
    let mut joined: Vec<u8> = Vec::new();
    let mut index: usize = 0;
    assert(views.take(0) =~= Seq::<Seq<u8>>::empty());
    while index < components.len()
        invariant
            views == byte_views(components@),
            index <= components@.len(),
            joined@ == spec_join_components(views.take(index as int)),
        decreases components@.len() - index,
    {
        let ghost before = joined@;
        let ghost taken = views.take(index + 1);
        assert(taken.drop_last() =~= views.take(index as int));
        assert(taken.last() == components@[index as int]@);
        if index > 0 {
            joined.push(SEPARATOR);
        } else {
            assert(taken[0] == components@[0]@);
        }
        let mut piece = copy_bytes(components[index].as_slice());
        joined.append(&mut piece);
        if index > 0 {
            assert(joined@ =~= before + seq![SEPARATOR] + components@[index as int]@);
        } else {
            assert(joined@ =~= components@[0]@);
        }
        index = index + 1;
    }
    assert(views.take(index as int) =~= views);
    joined
}

/// The canonical spelling of `path` (see [`spec_normalize_path`]).
pub fn normalize_path(path: &[u8]) -> (normal: Vec<u8>)
    ensures
        normal@ == spec_normalize_path(path@),
{
    let joined = join_components(&components(path));
    if path.len() > 0 && path[0] == SEPARATOR {
        let mut normal = vec![SEPARATOR];
        let mut rest = joined;
        normal.append(&mut rest);
        assert(normal@ =~= seq![SEPARATOR] + spec_join_components(spec_components(path@)));
        normal
    } else if path.len() > 0 && path[0] == DOT && (path.len() == 1 || path[1] == SEPARATOR) {
        if joined.len() == 0 {
            let normal = vec![DOT];
            assert(normal@ =~= seq![DOT]);
            normal
        } else {
            let mut normal = vec![DOT, SEPARATOR];
            let mut rest = joined;
            normal.append(&mut rest);
            assert(normal@ =~= seq![DOT, SEPARATOR] + spec_join_components(spec_components(path@)));
            normal
        }
    } else {
        joined
    }
}

/// The canonical spellings of `paths`, in order.
pub open spec fn normalize_all(paths: Seq<Seq<u8>>) -> Seq<Seq<u8>> {
    paths.map_values(|path: Seq<u8>| spec_normalize_path(path))
}

/// Spells every path canonically, keeping their order.
pub fn normalize_paths(paths: &Vec<Vec<u8>>) -> (normal: Vec<Vec<u8>>)
    ensures
        byte_views(normal@) == normalize_all(byte_views(paths@)),
{
    let ghost views = byte_views(paths@);
    let mut normal: Vec<Vec<u8>> = Vec::new();
    let mut index: usize = 0;
    while index < paths.len()
        invariant
            views == byte_views(paths@),
            index <= paths@.len(),
            byte_views(normal@) == normalize_all(views.take(index as int)),
        decreases paths@.len() - index,
    {
        let ghost before = byte_views(normal@);
        normal.push(normalize_path(paths[index].as_slice()));
        assert(byte_views(normal@) =~= before.push(spec_normalize_path(paths@[index as int]@)));
        assert(normalize_all(views.take(index + 1)) =~= normalize_all(views.take(index as int)).push(
            spec_normalize_path(views[index as int]),
        ));
        index = index + 1;
    }
    assert(views.take(index as int) =~= views);
    normal
}

} // verus!
