//! A registry shared between the agent and control listeners.
use std::sync::Arc;

use vstd::prelude::*;
use vstd::rwlock::RwLock;

use crate::backend::{
    backend_views, spec_affinity, spec_candidates,
    spec_promote_signer, spec_signing_candidates, spell, Backend, Registry, RegistryModel,
};
use crate::bytes::byte_views;
use crate::paths::{normalize_all, spec_normalize_path};
use crate::control::{answer_view, apply_update, spec_apply_update, Request, Response};

verus! {

/// The lock's predicate: the registry keeps its fallback.
pub type KeepsFallback = spec_fn(Registry) -> bool;

/// Thread-safe handle shared by agent and control listeners.
pub struct SharedRegistry {
    lock: Arc<RwLock<Registry, KeepsFallback>>,
    fallback: Ghost<Seq<u8>>,
    initial: Ghost<RegistryModel>,
}

/// `Arc::clone`: std documents that the clone points to the same allocation as
/// `lock`, so it holds the same lock.
#[verifier::external_body]
fn share_lock(lock: &Arc<RwLock<Registry, KeepsFallback>>) -> (copy: Arc<
    RwLock<Registry, KeepsFallback>,
>)
    ensures
        copy == *lock,
{
    Arc::clone(lock)
}

impl Clone for SharedRegistry {
    /// Another handle to the same registry.
    fn clone(&self) -> (copy: Self)
        ensures
            copy.fallback() == self.fallback(),
            copy.initial() == self.initial(),
            copy.same_registry(self),
    {
        proof {
            use_type_invariant(self);
        }
        SharedRegistry {
            lock: share_lock(&self.lock),
            fallback: Ghost(self.fallback@),
            initial: Ghost(self.initial@),
        }
    }
}

impl SharedRegistry {
    /// The lock admits exactly the registries with this handle's fallback.
    #[verifier::type_invariant]
    spec fn lock_keeps_fallback(self) -> bool {
        &&& forall|registry: Registry| #[trigger]
            self.lock.inv(registry) == (registry@.fallback == self.fallback@)
        &&& self.initial@.fallback == self.fallback@
    }

    /// The registry this handle's lock was created with; later registrations,
    /// through any handle, start from it.
    pub closed spec fn initial(&self) -> RegistryModel {
        self.initial@
    }

    /// Whether two handles hold the same lock, and so the same registry.
    pub closed spec fn same_registry(&self, other: &SharedRegistry) -> bool {
        self.lock == other.lock
    }

    /// The fallback path of every registry this handle can hold.
    pub closed spec fn fallback(&self) -> Seq<u8> {
        self.fallback@
    }

    /// Wraps registry state for short synchronized operations.
    pub fn new(registry: Registry) -> (shared: Self)
        ensures
            shared.fallback() == registry@.fallback,
            shared.initial() == registry@,
    {
        let ghost initial = registry@;
        let ghost fallback = registry@.fallback;
        let ghost keeps: KeepsFallback = |candidate: Registry| candidate@.fallback == fallback;
        let lock = RwLock::new(registry, Ghost(keeps));
        SharedRegistry { lock: Arc::new(lock), fallback: Ghost(fallback), initial: Ghost(initial) }
    }

    /// Registers a most-recent upstream.
    pub fn register(&self, path: Vec<u8>) {
        proof {
            use_type_invariant(self);
        }
        let (mut registry, handle) = self.lock.acquire_write();
        registry.register(path);
        handle.release_write(registry);
    }

    /// Unregisters an explicit upstream, reporting whether it was registered
    /// in the registry the lock held. That registry is shared with other
    /// handles, so nothing here states which registrations it held.
    pub fn unregister(&self, path: &[u8]) -> (changed: bool)
        ensures
            exists|before: RegistryModel|
                before.fallback == self.fallback() && changed == #[trigger] before.registered.contains(
                    spec_normalize_path(path@),
                ),
    {
        proof {
            use_type_invariant(self);
        }
        let (mut registry, handle) = self.lock.acquire_write();
        let ghost before = registry@;
        let changed = registry.unregister(path);
        proof {
            assert(changed == before.registered.contains(spec_normalize_path(path@)));
        }
        handle.release_write(registry);
        changed
    }

    /// Returns an ordered snapshot using the supplied discovered paths.
    pub fn candidates(&self, discovered: Vec<Vec<u8>>) -> (candidates: Vec<Backend>)
        ensures
            exists|registry: Registry|
                registry@.fallback == self.fallback() && backend_views(candidates@) == spell(
                    spec_candidates(registry@, normalize_all(byte_views(discovered@))),
                    registry@,
                    registry.spellings(),
                    registry.fallback_spelling(),
                    byte_views(discovered@),
                ),
    {
        proof {
            use_type_invariant(self);
        }
        let handle = self.lock.acquire_read();
        let candidates = handle.borrow().candidates(discovered);
        proof {
            assert(self.lock.inv(handle.view()));
        }
        handle.release_read();
        candidates
    }

    /// Returns an ordered snapshot for signing with the public-key blob `key`.
    pub fn signing_candidates(&self, discovered: Vec<Vec<u8>>, key: &[u8]) -> (candidates: Vec<
        Backend,
    >)
        ensures
            exists|registry: Registry|
                registry@.fallback == self.fallback() && backend_views(candidates@) == spell(
                    spec_signing_candidates(registry@, normalize_all(byte_views(discovered@)), key@),
                    registry@,
                    registry.spellings(),
                    registry.fallback_spelling(),
                    byte_views(discovered@),
                ),
    {
        proof {
            use_type_invariant(self);
        }
        let handle = self.lock.acquire_read();
        let candidates = handle.borrow().signing_candidates(discovered, key);
        proof {
            assert(self.lock.inv(handle.view()));
        }
        handle.release_read();
        candidates
    }

    /// Records that the agent at `signer` signed with the public-key blob `key`.
    /// The result names the registries the lock held before and after: the
    /// later one prefers `signer` for `key`.
    pub fn promote_signer(&self, key: Vec<u8>, signer: Vec<u8>) -> (change: Ghost<
        (RegistryModel, RegistryModel),
    >)
        ensures
            change@.0.fallback == self.fallback(),
            change@.1 == spec_promote_signer(change@.0, key@, spec_normalize_path(signer@)),
            spec_affinity(change@.1.affinities, key@) == Some(spec_normalize_path(signer@)),
    {
        proof {
            use_type_invariant(self);
        }
        let (mut registry, handle) = self.lock.acquire_write();
        let ghost before = registry@;
        registry.promote_signer(key, signer);
        let ghost after = registry@;
        handle.release_write(registry);
        Ghost((before, after))
    }

    /// Applies a registration or unregistration with
    /// [`crate::control::apply_update`] under the write lock; `None` for a
    /// status request. The answer is that of
    /// [`crate::control::spec_apply_update`] for the registry the lock held.
    pub fn update(&self, request: Request) -> (response: Option<Response>)
        ensures
            exists|before: RegistryModel|
                before.fallback == self.fallback() && #[trigger] answer_view(response)
                    == spec_apply_update(before, request@).1,
    {
        proof {
            use_type_invariant(self);
        }
        let (mut registry, handle) = self.lock.acquire_write();
        let ghost before = registry@;
        let response = apply_update(&mut registry, request);
        proof {
            assert(answer_view(response) == spec_apply_update(before, request@).1);
        }
        handle.release_write(registry);
        response
    }
}

} // verus!
