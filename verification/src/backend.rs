//! Upstream agent registry and deterministic candidate ordering.
//!
//! Socket paths are Unix byte strings (`Vec<u8>`): the registry compares them
//! by their components, as `Path` does, keeps them in the spelling they were
//! given, and never touches the filesystem.
use vstd::prelude::*;

use crate::bytes::{byte_views, bytes_equal, copy_bytes};
use crate::paths::{normalize_all, normalize_path, normalize_paths, spec_normalize_path};
pub use crate::shared::SharedRegistry;

verus! {

/// Maximum number of upstream candidates considered for one operation.
pub const MAXIMUM_CANDIDATES: usize = 32;

/// How an upstream agent entered the candidate set.
#[derive(Clone, Copy, Debug, PartialEq, Eq, Structural)]
pub enum Source {
    /// Explicitly registered at runtime.
    Registered,
    /// Found in an OpenSSH-style runtime directory.
    Discovered,
    /// Statically configured local fallback, normally 1Password.
    Fallback,
}

/// One ordered upstream SSH agent candidate.
#[derive(Debug)]
pub struct Backend {
    path: Vec<u8>,
    source: Source,
}

impl View for Backend {
    type V = (Seq<u8>, Source);

    closed spec fn view(&self) -> (Seq<u8>, Source) {
        (self.path@, self.source)
    }
}

impl Backend {
    fn new(path: Vec<u8>, source: Source) -> (backend: Self)
        ensures
            backend@ == (path@, source),
    {
        Backend { path, source }
    }

    /// Returns the upstream Unix socket path.
    pub fn path(&self) -> (path: &[u8])
        ensures
            path@ == self@.0,
    {
        self.path.as_slice()
    }

    /// Returns how this backend entered the candidate set.
    pub fn source(&self) -> (source: Source)
        ensures
            source == self@.1,
    {
        self.source
    }
}

/// A candidate as the specifications see it: its path and its source.
pub type CandidateModel = (Seq<u8>, Source);

/// The views of a sequence of backends.
pub open spec fn backend_views(backends: Seq<Backend>) -> Seq<CandidateModel> {
    backends.map_values(|backend: Backend| backend@)
}

/// The paths of a sequence of candidates.
pub open spec fn candidate_paths(candidates: Seq<CandidateModel>) -> Seq<Seq<u8>> {
    candidates.map_values(|candidate: CandidateModel| candidate.0)
}

/// Tags every path with the same source.
pub open spec fn tag_all(paths: Seq<Seq<u8>>, source: Source) -> Seq<CandidateModel> {
    paths.map_values(|path: Seq<u8>| (path, source))
}

/// One step of order-preserving deduplication: `item` is kept unless its path
/// is `excluded` or already taken.
pub open spec fn keep_new(
    kept: Seq<CandidateModel>,
    item: CandidateModel,
    excluded: Seq<u8>,
) -> Seq<CandidateModel> {
    if item.0 == excluded || candidate_paths(kept).contains(item.0) {
        kept
    } else {
        kept.push(item)
    }
}

/// The first occurrence of every path of `items`, in order, leaving out `excluded`.
pub open spec fn first_occurrences(items: Seq<CandidateModel>, excluded: Seq<u8>) -> Seq<
    CandidateModel,
>
    decreases items.len(),
{
    if items.len() == 0 {
        Seq::empty()
    } else {
        keep_new(first_occurrences(items.drop_last(), excluded), items.last(), excluded)
    }
}

/// At most `MAXIMUM_CANDIDATES - 1` forwarded candidates, keeping the earliest.
pub open spec fn forwarded_prefix(forwarded: Seq<CandidateModel>) -> Seq<CandidateModel> {
    if forwarded.len() < MAXIMUM_CANDIDATES {
        forwarded
    } else {
        forwarded.take(MAXIMUM_CANDIDATES - 1)
    }
}

/// The abstract state of a registry.
pub ghost struct RegistryModel {
    /// The permanent fallback path.
    pub fallback: Seq<u8>,
    /// Explicit registrations, most recent first.
    pub registered: Seq<Seq<u8>>,
    /// Signer affinities `(public-key blob, signer path)`, least recently promoted first.
    pub affinities: Seq<AffinityModel>,
}

/// Maximum number of key-specific signer affinities kept.
pub const MAXIMUM_SIGNER_AFFINITIES: usize = 32;

/// A signer affinity as the specifications see it: a public-key blob and the
/// path of the agent that last signed with it.
pub type AffinityModel = (Seq<u8>, Seq<u8>);

/// The key blobs of a sequence of affinities.
pub open spec fn affinity_keys(affinities: Seq<AffinityModel>) -> Seq<Seq<u8>> {
    affinities.map_values(|affinity: AffinityModel| affinity.0)
}

/// The views of owned affinities.
pub open spec fn affinity_views(affinities: Seq<(Vec<u8>, Vec<u8>)>) -> Seq<AffinityModel> {
    affinities.map_values(|affinity: (Vec<u8>, Vec<u8>)| (affinity.0@, affinity.1@))
}

/// `affinities` without the entry for `key`, order kept.
pub open spec fn without_key(affinities: Seq<AffinityModel>, key: Seq<u8>) -> Seq<AffinityModel>
    decreases affinities.len(),
{
    if affinities.len() == 0 {
        affinities
    } else if affinities.last().0 == key {
        without_key(affinities.drop_last(), key)
    } else {
        without_key(affinities.drop_last(), key).push(affinities.last())
    }
}

/// The signer last promoted for `key`, if any.
pub open spec fn spec_affinity(affinities: Seq<AffinityModel>, key: Seq<u8>) -> Option<Seq<u8>>
    decreases affinities.len(),
{
    if affinities.len() == 0 {
        None
    } else if affinities.last().0 == key {
        Some(affinities.last().1)
    } else {
        spec_affinity(affinities.drop_last(), key)
    }
}

/// The affinities after `path` signed with `key`: the entry for `key` moves to
/// the most recent end, and when the table is full the least recent entry of
/// another key is evicted.
pub open spec fn spec_promote_signer(
    registry: RegistryModel,
    key: Seq<u8>,
    path: Seq<u8>,
) -> RegistryModel {
    let kept = without_key(registry.affinities, key);
    let room = if kept.len() >= MAXIMUM_SIGNER_AFFINITIES {
        kept.drop_first()
    } else {
        kept
    };
    RegistryModel { affinities: room.push((key, path)), ..registry }
}

/// The index of the first occurrence of `path`, or -1.
pub open spec fn first_index(paths: Seq<Seq<u8>>, path: Seq<u8>) -> int
    decreases paths.len(),
{
    if paths.len() == 0 {
        -1
    } else if first_index(paths.drop_last(), path) >= 0 {
        first_index(paths.drop_last(), path)
    } else if paths.last() == path {
        paths.len() - 1
    } else {
        -1
    }
}

/// The candidate order for signing with `key`: the ordinary order, except that
/// the signer promoted for `key`, when it is still a candidate, comes first.
pub open spec fn spec_signing_candidates(
    registry: RegistryModel,
    discovered: Seq<Seq<u8>>,
    key: Seq<u8>,
) -> Seq<CandidateModel> {
    let candidates = spec_candidates(registry, discovered);
    match spec_affinity(registry.affinities, key) {
        Some(path) => {
            let index = first_index(candidate_paths(candidates), path);
            if index >= 0 {
                candidates.remove(index).insert(0, candidates[index])
            } else {
                candidates
            }
        },
        None => candidates,
    }
}

/// Every path offered for an operation: registrations, then discovered paths.
pub open spec fn offered(registry: RegistryModel, discovered: Seq<Seq<u8>>) -> Seq<CandidateModel> {
    tag_all(registry.registered, Source::Registered) + tag_all(discovered, Source::Discovered)
}

/// The ordered candidate list of `registry` for the given discovered paths.
pub open spec fn spec_candidates(registry: RegistryModel, discovered: Seq<Seq<u8>>) -> Seq<
    CandidateModel,
> {
    forwarded_prefix(first_occurrences(offered(registry, discovered), registry.fallback)).push(
        (registry.fallback, Source::Fallback),
    )
}

/// `paths` with every occurrence of `path` removed, order kept.
pub open spec fn without(paths: Seq<Seq<u8>>, path: Seq<u8>) -> Seq<Seq<u8>>
    decreases paths.len(),
{
    if paths.len() == 0 {
        paths
    } else if paths.last() == path {
        without(paths.drop_last(), path)
    } else {
        without(paths.drop_last(), path).push(paths.last())
    }
}

/// The registrations after `path` is registered as the most recent.
pub open spec fn spec_register(registry: RegistryModel, path: Seq<u8>) -> RegistryModel {
    RegistryModel { registered: seq![path] + without(registry.registered, path), ..registry }
}

/// The registrations after `path` is unregistered.
pub open spec fn spec_unregister(registry: RegistryModel, path: Seq<u8>) -> RegistryModel {
    RegistryModel { registered: without(registry.registered, path), ..registry }
}

/// A fresh registry with fallback `fallback` after registering `paths` from
/// the last to the first, so that the first path is the most preferred; the
/// model identifies every path by its canonical spelling.
pub open spec fn spec_seeded(fallback: Seq<u8>, paths: Seq<Seq<u8>>) -> RegistryModel
    decreases paths.len(),
{
    if paths.len() == 0 {
        RegistryModel {
            fallback: spec_normalize_path(fallback),
            registered: Seq::empty(),
            affinities: Seq::empty(),
        }
    } else {
        spec_register(spec_seeded(fallback, paths.drop_first()), spec_normalize_path(paths[0]))
    }
}

/// Registered paths: their canonical spellings, which identify them, and the
/// spellings they were registered with, position by position.
#[derive(Debug)]
struct Registrations {
    keys: Vec<Vec<u8>>,
    spellings: Vec<Vec<u8>>,
}

/// Mutable registration state with a permanent fallback backend.
#[derive(Debug)]
pub struct Registry {
    fallback: Vec<u8>,
    fallback_spelling: Vec<u8>,
    registrations: Registrations,
    affinities: Vec<(Vec<u8>, Vec<u8>)>,
}

impl View for Registry {
    type V = RegistryModel;

    closed spec fn view(&self) -> RegistryModel {
        RegistryModel {
            fallback: self.fallback@,
            registered: byte_views(self.registrations.keys@),
            affinities: affinity_views(self.affinities@),
        }
    }
}

/// `spellings` without those whose canonical spelling is `key`, order kept.
pub open spec fn spellings_without(spellings: Seq<Seq<u8>>, key: Seq<u8>) -> Seq<Seq<u8>>
    decreases spellings.len(),
{
    if spellings.len() == 0 {
        spellings
    } else if spec_normalize_path(spellings.last()) == key {
        spellings_without(spellings.drop_last(), key)
    } else {
        spellings_without(spellings.drop_last(), key).push(spellings.last())
    }
}

/// Removing spellings by key removes their canonical spellings by key.
pub proof fn lemma_spellings_without(spellings: Seq<Seq<u8>>, key: Seq<u8>)
    ensures
        normalize_all(spellings_without(spellings, key)) == without(normalize_all(spellings), key),
    decreases spellings.len(),
{
    if spellings.len() > 0 {
        lemma_spellings_without(spellings.drop_last(), key);
        assert(normalize_all(spellings).drop_last() =~= normalize_all(spellings.drop_last()));
        let kept = spellings_without(spellings.drop_last(), key);
        assert(normalize_all(kept.push(spellings.last())) =~= normalize_all(kept).push(
            spec_normalize_path(spellings.last()),
        ));
    } else {
        assert(normalize_all(spellings) =~= Seq::<Seq<u8>>::empty());
    }
}

/// The spelling reported for a candidate: the spelling a registered path was
/// registered with, the spelling of the first discovered path naming it, or
/// the fallback as configured.
pub open spec fn spelling_of(
    candidate: CandidateModel,
    registry: RegistryModel,
    spellings: Seq<Seq<u8>>,
    fallback_spelling: Seq<u8>,
    discovered: Seq<Seq<u8>>,
) -> Seq<u8> {
    match candidate.1 {
        Source::Registered => spellings[first_index(registry.registered, candidate.0)],
        Source::Discovered => discovered[first_index(normalize_all(discovered), candidate.0)],
        Source::Fallback => fallback_spelling,
    }
}

/// Candidates with their paths spelled as they were given.
pub open spec fn spell(
    candidates: Seq<CandidateModel>,
    registry: RegistryModel,
    spellings: Seq<Seq<u8>>,
    fallback_spelling: Seq<u8>,
    discovered: Seq<Seq<u8>>,
) -> Seq<CandidateModel> {
    candidates.map_values(
        |candidate: CandidateModel|
            (spelling_of(candidate, registry, spellings, fallback_spelling, discovered), candidate.1),
    )
}

impl Registry {
    /// No path is registered twice.
    #[verifier::type_invariant]
    spec fn registrations_are_unique(self) -> bool {
        &&& byte_views(self.registrations.keys@).no_duplicates()
        &&& normalize_all(byte_views(self.registrations.spellings@)) == byte_views(
            self.registrations.keys@,
        )
        &&& spec_normalize_path(self.fallback_spelling@) == self.fallback@
        &&& affinity_keys(affinity_views(self.affinities@)).no_duplicates()
        &&& self.affinities@.len() <= MAXIMUM_SIGNER_AFFINITIES
    }

    /// The spellings that the registered paths were registered with, in
    /// registration order.
    pub closed spec fn spellings(&self) -> Seq<Seq<u8>> {
        byte_views(self.registrations.spellings@)
    }

    /// The fallback path as it was configured.
    pub closed spec fn fallback_spelling(&self) -> Seq<u8> {
        self.fallback_spelling@
    }

    /// Creates an empty registry with a permanent fallback. Paths are compared
    /// by their canonical spelling, so that paths naming the same components
    /// are the same path; they are reported as they were given.
    pub fn new(fallback: Vec<u8>) -> (registry: Self)
        ensures
            registry@ == (RegistryModel {
                fallback: spec_normalize_path(fallback@),
                registered: Seq::empty(),
                affinities: Seq::empty(),
            }),
            registry.spellings() == Seq::<Seq<u8>>::empty(),
            registry.fallback_spelling() == fallback@,
    {
        let key = normalize_path(fallback.as_slice());
        let registrations = Registrations { keys: Vec::new(), spellings: Vec::new() };
        assert(byte_views(registrations.keys@) =~= Seq::<Seq<u8>>::empty());
        assert(byte_views(registrations.spellings@) =~= Seq::<Seq<u8>>::empty());
        assert(normalize_all(Seq::<Seq<u8>>::empty()) =~= Seq::<Seq<u8>>::empty());
        let registry = Registry {
            fallback: key,
            fallback_spelling: fallback,
            registrations,
            affinities: Vec::new(),
        };
        assert(affinity_views(registry.affinities@) =~= Seq::<AffinityModel>::empty());
        assert(affinity_keys(Seq::<AffinityModel>::empty()) =~= Seq::<Seq<u8>>::empty());
        registry
    }

    /// Copies the registrations other than `key`, in order.
    fn registrations_without(&self, key: &[u8]) -> (kept: Registrations)
        ensures
            byte_views(kept.keys@) == without(self@.registered, key@),
            byte_views(kept.spellings@) == spellings_without(self.spellings(), key@),
    {
        proof {
            use_type_invariant(self);
        }
        let ghost keys = byte_views(self.registrations.keys@);
        let ghost spellings = byte_views(self.registrations.spellings@);
        let mut kept_keys: Vec<Vec<u8>> = Vec::new();
        let mut kept_spellings: Vec<Vec<u8>> = Vec::new();
        let mut index: usize = 0;
        assert(normalize_all(spellings).len() == spellings.len());
        while index < self.registrations.keys.len()
            invariant
                keys == byte_views(self.registrations.keys@),
                spellings == byte_views(self.registrations.spellings@),
                normalize_all(spellings) == keys,
                index <= keys.len(),
                byte_views(kept_keys@) == without(keys.take(index as int), key@),
                byte_views(kept_spellings@) == spellings_without(spellings.take(index as int), key@),
            decreases keys.len() - index,
        {
            assert(keys.take(index as int + 1).drop_last() =~= keys.take(index as int));
            assert(spellings.take(index as int + 1).drop_last() =~= spellings.take(index as int));
            assert(keys[index as int] == spec_normalize_path(spellings[index as int]));
            let candidate = &self.registrations.keys[index];
            if !bytes_equal(candidate.as_slice(), key) {
                let ghost before_keys = byte_views(kept_keys@);
                let ghost before_spellings = byte_views(kept_spellings@);
                kept_keys.push(copy_bytes(candidate.as_slice()));
                kept_spellings.push(copy_bytes(self.registrations.spellings[index].as_slice()));
                assert(byte_views(kept_keys@) =~= before_keys.push(candidate@));
                assert(byte_views(kept_spellings@) =~= before_spellings.push(spellings[index as int]));
            }
            index = index + 1;
        }
        assert(keys.take(index as int) =~= keys);
        assert(spellings.take(index as int) =~= spellings);
        Registrations { keys: kept_keys, spellings: kept_spellings }
    }

    /// Registers a path as the most-recent explicit upstream, replacing any
    /// registration that names the same components.
    pub fn register(&mut self, path: Vec<u8>)
        ensures
            final(self)@ == spec_register(old(self)@, spec_normalize_path(path@)),
            final(self).spellings() == seq![path@] + spellings_without(
                old(self).spellings(),
                spec_normalize_path(path@),
            ),
            final(self).fallback_spelling() == old(self).fallback_spelling(),
    {
        let key = normalize_path(path.as_slice());
        proof {
            use_type_invariant(&*self);
            lemma_without_keeps_uniqueness(self@.registered, key@);
            lemma_spellings_without(self.spellings(), key@);
        }
        let kept = self.registrations_without(key.as_slice());
        let Registrations { keys: kept_keys, spellings: kept_spellings } = kept;
        let ghost rest_view = byte_views(kept_keys@);
        let ghost others_view = byte_views(kept_spellings@);
        let ghost key_view = key@;
        let ghost path_view = path@;
        let mut keys: Vec<Vec<u8>> = Vec::new();
        keys.push(key);
        let mut rest = kept_keys;
        keys.append(&mut rest);
        let mut spellings: Vec<Vec<u8>> = Vec::new();
        spellings.push(path);
        let mut others = kept_spellings;
        spellings.append(&mut others);
        proof {
            assert(byte_views(keys@) =~= seq![key_view] + rest_view);
            assert(byte_views(spellings@) =~= seq![path_view] + others_view);
            assert(normalize_all(byte_views(spellings@)) =~= seq![key_view] + normalize_all(
                others_view,
            ));
        }
        self.registrations = Registrations { keys, spellings };
    }

    /// Removes the registration that names the same components as `path`.
    pub fn unregister(&mut self, path: &[u8]) -> (changed: bool)
        ensures
            final(self)@ == spec_unregister(old(self)@, spec_normalize_path(path@)),
            final(self).spellings() == spellings_without(
                old(self).spellings(),
                spec_normalize_path(path@),
            ),
            final(self).fallback_spelling() == old(self).fallback_spelling(),
            changed == old(self)@.registered.contains(spec_normalize_path(path@)),
    {
        let normal = normalize_path(path);
        let key = normal.as_slice();
        proof {
            use_type_invariant(&*self);
            lemma_without_keeps_uniqueness(self@.registered, key@);
            lemma_without_len(self@.registered, key@);
            lemma_spellings_without(self.spellings(), key@);
        }
        let previous_length = self.registrations.keys.len();
        let kept = self.registrations_without(key);
        let changed = kept.keys.len() != previous_length;
        self.registrations = kept;
        changed
    }

    /// Registered, discovered (already in canonical spelling), then fallback
    /// candidates, by canonical spelling.
    fn key_candidates(&self, discovered: Vec<Vec<u8>>) -> (candidates: Vec<Backend>)
        ensures
            backend_views(candidates@) == spec_candidates(self@, byte_views(discovered@)),
    {
        let ghost items = offered(self@, byte_views(discovered@));
        let ghost registered_count = self.registrations.keys@.len();
        let mut candidates: Vec<Backend> = Vec::new();
        let forwarded_limit = MAXIMUM_CANDIDATES - 1;
        let mut index: usize = 0;
        while index < self.registrations.keys.len() && candidates.len() < forwarded_limit
            invariant
                items == offered(self@, byte_views(discovered@)),
                registered_count == self.registrations.keys@.len(),
                index <= registered_count,
                candidates@.len() <= forwarded_limit,
                forwarded_limit == MAXIMUM_CANDIDATES - 1,
                backend_views(candidates@) == first_occurrences(
                    items.take(index as int),
                    self@.fallback,
                ),
            decreases registered_count - index,
        {
            proof {
                assert(items[index as int] == (self.registrations.keys@[index as int]@, Source::Registered));
                assert(items.take(index as int + 1).drop_last() =~= items.take(index as int));
            }
            let path = &self.registrations.keys[index];
            Self::offer(&mut candidates, path.as_slice(), Source::Registered, &self.fallback);
            index = index + 1;
        }
        let mut position: usize = 0;
        if index == self.registrations.keys.len() {
            while position < discovered.len() && candidates.len() < forwarded_limit
                invariant
                    items == offered(self@, byte_views(discovered@)),
                    registered_count == self.registrations.keys@.len(),
                    position <= discovered@.len(),
                    candidates@.len() <= forwarded_limit,
                    forwarded_limit == MAXIMUM_CANDIDATES - 1,
                    backend_views(candidates@) == first_occurrences(
                        items.take(registered_count + position),
                        self@.fallback,
                    ),
                decreases discovered@.len() - position,
            {
                proof {
                    assert(items[registered_count + position] == (
                        discovered@[position as int]@,
                        Source::Discovered,
                    ));
                    assert(items.take(registered_count + position + 1).drop_last() =~= items.take(
                        registered_count + position,
                    ));
                }
                let path = &discovered[position];
                Self::offer(&mut candidates, path.as_slice(), Source::Discovered, &self.fallback);
                position = position + 1;
            }
        }
        proof {
            let consumed = if index < registered_count {
                index as int
            } else {
                registered_count + position
            };
            let kept = first_occurrences(items.take(consumed), self@.fallback);
            let all = first_occurrences(items, self@.fallback);
            lemma_first_occurrences_prefix(items, consumed, self@.fallback);
            if kept.len() < MAXIMUM_CANDIDATES - 1 {
                assert(consumed == items.len());
                assert(items.take(consumed) =~= items);
                assert(kept == all);
            } else {
                assert(all.take(MAXIMUM_CANDIDATES - 1) =~= kept);
            }
            assert(kept == forwarded_prefix(all));
        }
        let ghost forwarded = backend_views(candidates@);
        candidates.push(Backend::new(copy_bytes(self.fallback.as_slice()), Source::Fallback));
        assert(backend_views(candidates@) =~= forwarded.push((self@.fallback, Source::Fallback)));
        candidates
    }

    /// Records that the agent at `signer` signed with the public-key blob `key`,
    /// so that later signatures with that key try it first. At most
    /// `MAXIMUM_SIGNER_AFFINITIES` keys are remembered; refreshing a key does not
    /// evict another one.
    pub fn promote_signer(&mut self, key: Vec<u8>, signer: Vec<u8>)
        ensures
            final(self)@ == spec_promote_signer(old(self)@, key@, spec_normalize_path(signer@)),
            spec_affinity(final(self)@.affinities, key@) == Some(spec_normalize_path(signer@)),
            final(self).spellings() == old(self).spellings(),
            final(self).fallback_spelling() == old(self).fallback_spelling(),
    {
        let signer = normalize_path(signer.as_slice());
        proof {
            use_type_invariant(&*self);
            lemma_without_key_facts(self@.affinities, key@);
            law_promotion_is_bounded_and_scoped(self@, key@, signer@);
        }
        let mut kept: Vec<(Vec<u8>, Vec<u8>)> = Vec::new();
        let mut index: usize = 0;
        let ghost all = affinity_views(self.affinities@);
        while index < self.affinities.len()
            invariant
                index <= self.affinities@.len(),
                all == affinity_views(self.affinities@),
                affinity_views(kept@) == without_key(all.take(index as int), key@),
            decreases self.affinities@.len() - index,
        {
            assert(all.take(index as int + 1).drop_last() =~= all.take(index as int));
            let entry = &self.affinities[index];
            if !bytes_equal(entry.0.as_slice(), key.as_slice()) {
                let ghost earlier = affinity_views(kept@);
                kept.push((copy_bytes(entry.0.as_slice()), copy_bytes(entry.1.as_slice())));
                assert(affinity_views(kept@) =~= earlier.push(all[index as int]));
            }
            index = index + 1;
        }
        assert(all.take(index as int) =~= all);
        if kept.len() >= MAXIMUM_SIGNER_AFFINITIES {
            let ghost before = affinity_views(kept@);
            kept.remove(0);
            assert(affinity_views(kept@) =~= before.drop_first());
        }
        let ghost room = affinity_views(kept@);
        kept.push((key, signer));
        assert(affinity_views(kept@) =~= room.push((key@, signer@)));
        proof {
            let kept_view = without_key(all, key@);
            let trimmed = if kept_view.len() >= MAXIMUM_SIGNER_AFFINITIES {
                kept_view.drop_first()
            } else {
                kept_view
            };
            assert(affinity_keys(trimmed) =~= if kept_view.len() >= MAXIMUM_SIGNER_AFFINITIES {
                affinity_keys(kept_view).drop_first()
            } else {
                affinity_keys(kept_view)
            });
            assert(!affinity_keys(trimmed).contains(key@)) by {
                if affinity_keys(trimmed).contains(key@) {
                    let i = choose|i: int| 0 <= i < affinity_keys(trimmed).len() && affinity_keys(trimmed)[i] == key@;
                    if kept_view.len() >= MAXIMUM_SIGNER_AFFINITIES {
                        assert(affinity_keys(kept_view)[i + 1] == key@);
                    } else {
                        assert(affinity_keys(kept_view)[i] == key@);
                    }
                }
            }
            let next_keys = affinity_keys(trimmed.push((key@, signer@)));
            assert(next_keys =~= affinity_keys(trimmed).push(key@));
            assert forall|i: int, j: int| 0 <= i < j < next_keys.len() implies next_keys[i] != next_keys[j] by {
                if j == next_keys.len() - 1 {
                    assert(affinity_keys(trimmed)[i] == next_keys[i]);
                } else if kept_view.len() >= MAXIMUM_SIGNER_AFFINITIES {
                    assert(affinity_keys(kept_view)[i + 1] == next_keys[i]);
                    assert(affinity_keys(kept_view)[j + 1] == next_keys[j]);
                } else {
                    assert(affinity_keys(kept_view)[i] == next_keys[i]);
                }
            }
        }
        self.affinities = kept;
    }

    /// Returns the signer promoted for `key`, if any.
    fn affinity(&self, key: &[u8]) -> (signer: Option<&[u8]>)
        ensures
            spec_affinity(self@.affinities, key@) == match signer {
                Some(path) => Some(path@),
                None => None,
            },
    {
        let ghost all = affinity_views(self.affinities@);
        let mut remaining: usize = self.affinities.len();
        assert(all.take(remaining as int) =~= all);
        while remaining > 0
            invariant
                remaining <= self.affinities@.len(),
                all == affinity_views(self.affinities@),
                spec_affinity(all, key@) == spec_affinity(all.take(remaining as int), key@),
            decreases remaining,
        {
            let ghost prefix = all.take(remaining as int);
            assert(prefix.drop_last() =~= all.take(remaining as int - 1));
            assert(prefix.last() == all[remaining as int - 1]);
            let entry = &self.affinities[remaining - 1];
            if bytes_equal(entry.0.as_slice(), key) {
                return Some(entry.1.as_slice());
            }
            remaining = remaining - 1;
        }
        None
    }

    /// The signing order for `key`, by canonical spelling (see
    /// [`spec_signing_candidates`]).
    fn key_signing_candidates(&self, discovered: Vec<Vec<u8>>, key: &[u8]) -> (candidates: Vec<
        Backend,
    >)
        ensures
            backend_views(candidates@) == spec_signing_candidates(
                self@,
                byte_views(discovered@),
                key@,
            ),
    {
        let ghost discovered_views = byte_views(discovered@);
        let mut candidates = self.key_candidates(discovered);
        let ghost ordinary = backend_views(candidates@);
        let ghost paths = candidate_paths(ordinary);
        if let Some(signer) = self.affinity(key) {
            let mut index: usize = 0;
            let mut found = false;
            while index < candidates.len()
                invariant
                    index <= candidates@.len(),
                    ordinary == backend_views(candidates@),
                    paths == candidate_paths(ordinary),
                    forall|j: int| 0 <= j < index ==> paths[j] != signer@,
                    found ==> index < candidates@.len() && paths[index as int] == signer@,
                ensures
                    !found ==> index == candidates@.len(),
                    found ==> index < candidates@.len() && paths[index as int] == signer@,
                    forall|j: int| 0 <= j < index ==> paths[j] != signer@,
                decreases candidates@.len() - index + if found { 0int } else { 1int },
            {
                if bytes_equal(candidates[index].path.as_slice(), signer) {
                    found = true;
                    break;
                }
                index = index + 1;
            }
            if found {
                proof {
                    lemma_first_index_found(paths, signer@, index as int);
                }
                let promoted = candidates.remove(index);
                candidates.insert(0, promoted);
                assert(backend_views(candidates@) =~= ordinary.remove(index as int).insert(
                    0,
                    ordinary[index as int],
                ));
            } else {
                proof {
                    lemma_first_index_absent(paths, signer@);
                }
            }
        }
        candidates
    }

    /// The spelling reported for the candidate `key` of source `source`.
    fn spelling(
        &self,
        key: &[u8],
        source: Source,
        discovered: &Vec<Vec<u8>>,
        discovered_keys: &Vec<Vec<u8>>,
    ) -> (spelling: Vec<u8>)
        requires
            byte_views(discovered_keys@) == normalize_all(byte_views(discovered@)),
            source == Source::Registered ==> self@.registered.contains(key@),
            source == Source::Discovered ==> byte_views(discovered_keys@).contains(key@),
        ensures
            spelling@ == spelling_of(
                (key@, source),
                self@,
                self.spellings(),
                self.fallback_spelling(),
                byte_views(discovered@),
            ),
    {
        proof {
            use_type_invariant(self);
        }
        let ghost spellings = self.spellings();
        assert(normalize_all(spellings).len() == spellings.len());
        match source {
            Source::Fallback => copy_bytes(self.fallback_spelling.as_slice()),
            Source::Registered => {
                let index = first_position(&self.registrations.keys, key);
                copy_bytes(self.registrations.spellings[index].as_slice())
            },
            Source::Discovered => {
                let index = first_position(discovered_keys, key);
                assert(normalize_all(byte_views(discovered@)).len() == discovered@.len());
                copy_bytes(discovered[index].as_slice())
            },
        }
    }

    /// `keyed` with each path spelled as it was given.
    fn spell_all(
        &self,
        keyed: Vec<Backend>,
        discovered: &Vec<Vec<u8>>,
        discovered_keys: &Vec<Vec<u8>>,
    ) -> (spelled: Vec<Backend>)
        requires
            byte_views(discovered_keys@) == normalize_all(byte_views(discovered@)),
            forall|i: int|
                0 <= i < keyed@.len() ==> ((#[trigger] keyed@[i])@.1 == Source::Registered
                    ==> self@.registered.contains(keyed@[i]@.0)) && (keyed@[i]@.1
                    == Source::Discovered ==> byte_views(discovered_keys@).contains(keyed@[i]@.0)),
        ensures
            backend_views(spelled@) == spell(
                backend_views(keyed@),
                self@,
                self.spellings(),
                self.fallback_spelling(),
                byte_views(discovered@),
            ),
    {
        let ghost target = spell(
            backend_views(keyed@),
            self@,
            self.spellings(),
            self.fallback_spelling(),
            byte_views(discovered@),
        );
        let mut spelled: Vec<Backend> = Vec::new();
        let mut index: usize = 0;
        while index < keyed.len()
            invariant
                index <= keyed@.len(),
                byte_views(discovered_keys@) == normalize_all(byte_views(discovered@)),
                forall|i: int|
                    0 <= i < keyed@.len() ==> ((#[trigger] keyed@[i])@.1 == Source::Registered
                        ==> self@.registered.contains(keyed@[i]@.0)) && (keyed@[i]@.1
                        == Source::Discovered ==> byte_views(discovered_keys@).contains(
                        keyed@[i]@.0,
                    )),
                target == spell(
                    backend_views(keyed@),
                    self@,
                    self.spellings(),
                    self.fallback_spelling(),
                    byte_views(discovered@),
                ),
                backend_views(spelled@) == target.take(index as int),
            decreases keyed@.len() - index,
        {
            let entry = &keyed[index];
            let ghost entry_view = keyed@[index as int]@;
            let spelling = self.spelling(entry.path.as_slice(), entry.source, discovered, discovered_keys);
            let ghost before = backend_views(spelled@);
            spelled.push(Backend::new(spelling, entry.source));
            assert(backend_views(spelled@) =~= before.push((spelling@, entry_view.1)));
            assert(target.take(index + 1) =~= target.take(index as int).push(target[index as int]));
            index = index + 1;
        }
        assert(target.take(index as int) =~= target);
        spelled
    }

    /// Produces registered, discovered, then fallback candidates, without two
    /// paths naming the same components; each is spelled as it was registered,
    /// discovered or configured.
    pub fn candidates(&self, discovered: Vec<Vec<u8>>) -> (candidates: Vec<Backend>)
        ensures
            backend_views(candidates@) == spell(
                spec_candidates(self@, normalize_all(byte_views(discovered@))),
                self@,
                self.spellings(),
                self.fallback_spelling(),
                byte_views(discovered@),
            ),
    {
        let keys = normalize_paths(&discovered);
        let keyed = self.key_candidates(normalize_paths(&discovered));
        proof {
            let ordinary = spec_candidates(self@, byte_views(keys@));
            lemma_candidate_sources(self@, byte_views(keys@));
            assert forall|i: int| 0 <= i < keyed@.len() implies ((#[trigger] keyed@[i])@.1
                == Source::Registered ==> self@.registered.contains(keyed@[i]@.0)) && (keyed@[i]@.1
                == Source::Discovered ==> byte_views(keys@).contains(keyed@[i]@.0)) by {
                assert(ordinary[i] == keyed@[i]@);
                assert(ordinary.contains(ordinary[i]));
            }
        }
        self.spell_all(keyed, &discovered, &keys)
    }

    /// The candidate order for signing with the public-key blob `key`: the
    /// ordinary order, with the signer last promoted for that key moved to the
    /// front when it is still a candidate.
    pub fn signing_candidates(&self, discovered: Vec<Vec<u8>>, key: &[u8]) -> (candidates: Vec<
        Backend,
    >)
        ensures
            backend_views(candidates@) == spell(
                spec_signing_candidates(self@, normalize_all(byte_views(discovered@)), key@),
                self@,
                self.spellings(),
                self.fallback_spelling(),
                byte_views(discovered@),
            ),
    {
        let keys = normalize_paths(&discovered);
        let keyed = self.key_signing_candidates(normalize_paths(&discovered), key);
        proof {
            let ordinary = spec_candidates(self@, byte_views(keys@));
            let signing = spec_signing_candidates(self@, byte_views(keys@), key@);
            lemma_candidate_sources(self@, byte_views(keys@));
            law_signing_candidates_reorder_only(self@, byte_views(keys@), key@);
            assert forall|i: int| 0 <= i < keyed@.len() implies ((#[trigger] keyed@[i])@.1
                == Source::Registered ==> self@.registered.contains(keyed@[i]@.0)) && (keyed@[i]@.1
                == Source::Discovered ==> byte_views(keys@).contains(keyed@[i]@.0)) by {
                assert(signing[i] == keyed@[i]@);
                assert(signing.contains(signing[i]));
                assert(ordinary.contains(signing[i]));
            }
        }
        self.spell_all(keyed, &discovered, &keys)
    }

    /// Appends `path` unless it is the fallback or already present.
    fn offer(candidates: &mut Vec<Backend>, path: &[u8], source: Source, fallback: &[u8])
        ensures
            backend_views(final(candidates)@) == keep_new(
                backend_views(old(candidates)@),
                (path@, source),
                fallback@,
            ),
            final(candidates)@.len() <= old(candidates)@.len() + 1,
    {
        if bytes_equal(path, fallback) {
            return;
        }
        let mut index: usize = 0;
        while index < candidates.len()
            invariant
                index <= candidates@.len(),
                forall|i: int| 0 <= i < index ==> candidates@[i]@.0 != path@,
            decreases candidates@.len() - index,
        {
            if bytes_equal(candidates[index].path.as_slice(), path) {
                proof {
                    let paths = candidate_paths(backend_views(candidates@));
                    assert(paths[index as int] == path@);
                }
                return;
            }
            index = index + 1;
        }
        proof {
            let paths = candidate_paths(backend_views(candidates@));
            assert(!paths.contains(path@)) by {
                if paths.contains(path@) {
                    let i = choose|i: int| 0 <= i < paths.len() && paths[i] == path@;
                    assert(candidates@[i]@.0 == path@);
                }
            }
        }
        let ghost previous = backend_views(candidates@);
        candidates.push(Backend::new(copy_bytes(path), source));
        assert(backend_views(candidates@) =~= previous.push((path@, source)));
    }
}

/// Every candidate entry comes from where its source says.
pub proof fn lemma_candidate_sources(registry: RegistryModel, discovered: Seq<Seq<u8>>)
    ensures
        forall|entry: CandidateModel|
            #[trigger] spec_candidates(registry, discovered).contains(entry) ==> {
                &&& entry.1 == Source::Registered ==> registry.registered.contains(entry.0)
                &&& entry.1 == Source::Discovered ==> discovered.contains(entry.0)
                &&& entry.1 == Source::Fallback ==> entry.0 == registry.fallback
            },
{
    let candidates = spec_candidates(registry, discovered);
    law_candidates_shape(registry, discovered);
    assert forall|entry: CandidateModel| #[trigger] candidates.contains(entry) implies {
        &&& entry.1 == Source::Registered ==> registry.registered.contains(entry.0)
        &&& entry.1 == Source::Discovered ==> discovered.contains(entry.0)
        &&& entry.1 == Source::Fallback ==> entry.0 == registry.fallback
    } by {
        let i = choose|i: int| 0 <= i < candidates.len() && candidates[i] == entry;
        if i == candidates.len() - 1 {
            assert(entry == (registry.fallback, Source::Fallback));
        }
    }
}

/// Every candidate is reported under a spelling of its own path: the
/// reported spelling names the same components as the candidate.
pub proof fn law_reported_spellings_name_the_candidates(
    registry: RegistryModel,
    spellings: Seq<Seq<u8>>,
    fallback_spelling: Seq<u8>,
    discovered: Seq<Seq<u8>>,
)
    requires
        normalize_all(spellings) == registry.registered,
        spec_normalize_path(fallback_spelling) == registry.fallback,
    ensures
        ({
            let candidates = spec_candidates(registry, normalize_all(discovered));
            let reported = spell(candidates, registry, spellings, fallback_spelling, discovered);
            &&& reported.len() == candidates.len()
            &&& forall|i: int|
                0 <= i < candidates.len() ==> spec_normalize_path((#[trigger] reported[i]).0)
                    == candidates[i].0 && reported[i].1 == candidates[i].1
        }),
{
    let keys = normalize_all(discovered);
    let candidates = spec_candidates(registry, keys);
    let reported = spell(candidates, registry, spellings, fallback_spelling, discovered);
    lemma_candidate_sources(registry, keys);
    assert forall|i: int| 0 <= i < candidates.len() implies spec_normalize_path(
        (#[trigger] reported[i]).0,
    ) == candidates[i].0 && reported[i].1 == candidates[i].1 by {
        let entry = candidates[i];
        assert(candidates.contains(entry));
        assert(reported[i] == (
            spelling_of(entry, registry, spellings, fallback_spelling, discovered),
            entry.1,
        ));
        match entry.1 {
            Source::Registered => {
                lemma_first_index_bounds(registry.registered, entry.0);
                assert(registry.registered.contains(entry.0));
                let at = first_index(registry.registered, entry.0);
                assert(0 <= at < spellings.len());
                assert(normalize_all(spellings)[at] == spec_normalize_path(spellings[at]));
                assert(spec_normalize_path(spellings[at]) == entry.0);
            },
            Source::Discovered => {
                lemma_first_index_bounds(keys, entry.0);
                assert(keys.contains(entry.0));
                let at = first_index(keys, entry.0);
                assert(0 <= at < discovered.len());
                assert(keys[at] == spec_normalize_path(discovered[at]));
                assert(spec_normalize_path(discovered[at]) == entry.0);
            },
            Source::Fallback => {},
        }
    }
}

/// The position of the first occurrence of `item`, which must occur.
fn first_position(items: &Vec<Vec<u8>>, item: &[u8]) -> (index: usize)
    requires
        byte_views(items@).contains(item@),
    ensures
        index < items@.len(),
        index as int == first_index(byte_views(items@), item@),
{
    let ghost views = byte_views(items@);
    let mut index: usize = 0;
    while index < items.len()
        invariant
            views == byte_views(items@),
            views.contains(item@),
            index <= items@.len(),
            forall|j: int| 0 <= j < index ==> views[j] != item@,
        decreases items@.len() - index,
    {
        if bytes_equal(items[index].as_slice(), item) {
            proof {
                lemma_first_index_found(views, item@, index as int);
            }
            return index;
        }
        index = index + 1;
    }
    proof {
        let j = choose|j: int| 0 <= j < views.len() && views[j] == item@;
        assert(views[j] != item@);
    }
    0
}

/// Deduplicating a prefix of `items` gives a prefix of deduplicating all of them.
pub proof fn lemma_first_occurrences_prefix(items: Seq<CandidateModel>, count: int, excluded: Seq<u8>)
    requires
        0 <= count <= items.len(),
    ensures
        first_occurrences(items.take(count), excluded).len() <= first_occurrences(
            items,
            excluded,
        ).len(),
        first_occurrences(items, excluded).take(
            first_occurrences(items.take(count), excluded).len() as int,
        ) == first_occurrences(items.take(count), excluded),
    decreases items.len() - count,
{
    if count == items.len() {
        assert(items.take(count) =~= items);
    } else {
        lemma_first_occurrences_prefix(items, count + 1, excluded);
        let shorter = first_occurrences(items.take(count), excluded);
        let longer = first_occurrences(items.take(count + 1), excluded);
        assert(items.take(count + 1).drop_last() =~= items.take(count));
        let all = first_occurrences(items, excluded);
        assert(longer.take(shorter.len() as int) =~= shorter);
        assert(all.take(shorter.len() as int) =~= longer.take(shorter.len() as int));
    }
}

/// Deduplication never grows a sequence.
pub proof fn lemma_first_occurrences_len(items: Seq<CandidateModel>, excluded: Seq<u8>)
    ensures
        first_occurrences(items, excluded).len() <= items.len(),
    decreases items.len(),
{
    if items.len() > 0 {
        lemma_first_occurrences_len(items.drop_last(), excluded);
    }
}

/// `without` never grows a sequence, and shrinks it exactly when `path` occurs.
pub proof fn lemma_without_len(paths: Seq<Seq<u8>>, path: Seq<u8>)
    ensures
        without(paths, path).len() <= paths.len(),
        (without(paths, path).len() < paths.len()) == paths.contains(path),
    decreases paths.len(),
{
    if paths.len() > 0 {
        lemma_without_len(paths.drop_last(), path);
        if paths.drop_last().contains(path) {
            let i = choose|i: int| 0 <= i < paths.drop_last().len() && paths.drop_last()[i] == path;
            assert(paths[i] == path);
        }
        if paths.contains(path) && paths.last() != path {
            let i = choose|i: int| 0 <= i < paths.len() && paths[i] == path;
            assert(paths.drop_last()[i] == path);
        }
    }
}

/// Membership after appending an element.
pub proof fn lemma_push_contains<T>(items: Seq<T>, item: T, other: T)
    ensures
        items.push(item).contains(other) == (items.contains(other) || item == other),
{
    if items.contains(other) {
        let i = choose|i: int| 0 <= i < items.len() && items[i] == other;
        assert(items.push(item)[i] == other);
    }
    if item == other {
        assert(items.push(item)[items.len() as int] == other);
    }
    if items.push(item).contains(other) && item != other {
        let i = choose|i: int| 0 <= i < items.push(item).len() && items.push(item)[i] == other;
        assert(items[i] == other);
    }
}

/// Membership in a non-empty sequence splits at its last element.
pub proof fn lemma_last_contains<T>(items: Seq<T>, other: T)
    requires
        items.len() > 0,
    ensures
        items.contains(other) == (items.drop_last().contains(other) || items.last() == other),
{
    assert(items.drop_last().push(items.last()) =~= items);
    lemma_push_contains(items.drop_last(), items.last(), other);
}

/// Membership in `without(paths, path)`.
pub proof fn lemma_without_contains(paths: Seq<Seq<u8>>, path: Seq<u8>, other: Seq<u8>)
    ensures
        without(paths, path).contains(other) == (other != path && paths.contains(other)),
    decreases paths.len(),
{
    if paths.len() > 0 {
        lemma_without_contains(paths.drop_last(), path, other);
        lemma_last_contains(paths, other);
        let rest = without(paths.drop_last(), path);
        if paths.last() != path {
            lemma_push_contains(rest, paths.last(), other);
        }
    }
}

/// `without` keeps a duplicate-free sequence duplicate-free, and prepending the
/// removed path keeps it so.
pub proof fn lemma_without_keeps_uniqueness(paths: Seq<Seq<u8>>, path: Seq<u8>)
    requires
        paths.no_duplicates(),
    ensures
        without(paths, path).no_duplicates(),
        (seq![path] + without(paths, path)).no_duplicates(),
    decreases paths.len(),
{
    if paths.len() > 0 {
        let front = paths.drop_last();
        assert(front.no_duplicates());
        lemma_without_keeps_uniqueness(front, path);
        let rest = without(front, path);
        if paths.last() != path {
            lemma_without_contains(front, path, paths.last());
            assert(!front.contains(paths.last())) by {
                if front.contains(paths.last()) {
                    let i = choose|i: int| 0 <= i < front.len() && front[i] == paths.last();
                    assert(paths[i] == paths[paths.len() - 1]);
                }
            }
            assert(!rest.contains(paths.last()));
            let next = rest.push(paths.last());
            assert forall|i: int, j: int| 0 <= i < j < next.len() implies next[i] != next[j] by {
                if j == next.len() - 1 {
                    assert(rest[i] == next[i]);
                }
            }
        }
    }
    let result = without(paths, path);
    lemma_without_contains(paths, path, path);
    let joined = seq![path] + result;
    assert forall|i: int, j: int| 0 <= i < j < joined.len() implies joined[i] != joined[j] by {
        if i == 0 {
            assert(joined[j] == result[j - 1]);
            assert(result.contains(result[j - 1]));
        } else {
            assert(joined[i] == result[i - 1]);
            assert(joined[j] == result[j - 1]);
        }
    }
}


/// Registered candidates come before discovered ones.
pub open spec fn registered_first(items: Seq<CandidateModel>) -> bool {
    forall|i: int, j: int|
        0 <= i < j < items.len() && #[trigger] items[i].1 == Source::Discovered ==> #[trigger] items[j].1
            == Source::Discovered
}

/// What order-preserving deduplication keeps, drops and orders.
pub proof fn lemma_first_occurrences_facts(items: Seq<CandidateModel>, excluded: Seq<u8>)
    ensures
        forall|i: int|
            0 <= i < first_occurrences(items, excluded).len() ==> items.contains(
                #[trigger] first_occurrences(items, excluded)[i],
            ) && first_occurrences(items, excluded)[i].0 != excluded,
        candidate_paths(first_occurrences(items, excluded)).no_duplicates(),
        forall|j: int|
            0 <= j < items.len() && #[trigger] items[j].0 != excluded ==> candidate_paths(
                first_occurrences(items, excluded),
            ).contains(items[j].0),
        registered_first(items) ==> registered_first(first_occurrences(items, excluded)),
    decreases items.len(),
{
    let result = first_occurrences(items, excluded);
    if items.len() > 0 {
        let front = items.drop_last();
        let item = items.last();
        let previous = first_occurrences(front, excluded);
        lemma_first_occurrences_facts(front, excluded);
        let previous_paths = candidate_paths(previous);
        assert forall|i: int| 0 <= i < result.len() implies items.contains(#[trigger] result[i])
            && result[i].0 != excluded by {
            if i < previous.len() {
                assert(result[i] == previous[i]);
                lemma_last_contains(items, previous[i]);
            } else {
                assert(result[i] == item);
                assert(items[items.len() - 1] == item);
            }
        }
        if result != previous {
            assert(result == previous.push(item));
            assert(candidate_paths(result) =~= previous_paths.push(item.0));
            assert forall|i: int, j: int|
                0 <= i < j < candidate_paths(result).len() implies candidate_paths(result)[i]
                != candidate_paths(result)[j] by {
                if j == previous.len() {
                    assert(previous_paths[i] == candidate_paths(result)[i]);
                }
            }
        }
        assert forall|j: int| 0 <= j < items.len() && #[trigger] items[j].0 != excluded implies candidate_paths(
            result,
        ).contains(items[j].0) by {
            if j < front.len() {
                assert(front[j] == items[j]);
                if result != previous {
                    lemma_push_contains(previous_paths, item.0, items[j].0);
                    assert(candidate_paths(result) =~= previous_paths.push(item.0));
                }
            } else {
                if result != previous {
                    assert(candidate_paths(result)[previous.len() as int] == item.0);
                }
            }
        }
        if registered_first(items) && result != previous {
            assert(registered_first(front)) by {
                assert forall|i: int, j: int|
                    0 <= i < j < front.len() && #[trigger] front[i].1 == Source::Discovered implies #[trigger] front[j].1
                    == Source::Discovered by {
                    assert(items[i] == front[i] && items[j] == front[j]);
                }
            }
            assert forall|i: int, j: int|
                0 <= i < j < result.len() && #[trigger] result[i].1 == Source::Discovered implies #[trigger] result[j].1
                == Source::Discovered by {
                if j == previous.len() {
                    assert(result[i] == previous[i]);
                    assert(front.contains(previous[i]));
                    let k = choose|k: int| 0 <= k < front.len() && front[k] == previous[i];
                    assert(items[k] == previous[i]);
                    assert(items[items.len() - 1] == item);
                } else {
                    assert(result[i] == previous[i] && result[j] == previous[j]);
                }
            }
        }
    }
}

/// The shape of every candidate list: at most `MAXIMUM_CANDIDATES` entries, the
/// fallback exactly once and last, no path twice, registrations before
/// discoveries, every forwarded entry offered under its own source, and nothing
/// offered left out unless the list is full.
pub proof fn law_candidates_shape(registry: RegistryModel, discovered: Seq<Seq<u8>>)
    ensures
        ({
            let candidates = spec_candidates(registry, discovered);
            &&& 1 <= candidates.len() <= MAXIMUM_CANDIDATES
            &&& candidates.last() == (registry.fallback, Source::Fallback)
            &&& candidate_paths(candidates).no_duplicates()
            &&& forall|i: int|
                0 <= i < candidates.len() - 1 ==> {
                    ||| (#[trigger] candidates[i]).1 == Source::Registered
                        && registry.registered.contains(candidates[i].0)
                    ||| candidates[i].1 == Source::Discovered && discovered.contains(
                        candidates[i].0,
                    )
                }
            &&& registered_first(candidates.drop_last())
            &&& candidates.len() < MAXIMUM_CANDIDATES ==> forall|path: Seq<u8>|
                (registry.registered.contains(path) || discovered.contains(path)) && path
                    != registry.fallback ==> #[trigger] candidate_paths(candidates).contains(path)
        }),
{
    let items = offered(registry, discovered);
    let all = first_occurrences(items, registry.fallback);
    let forwarded = forwarded_prefix(all);
    let candidates = spec_candidates(registry, discovered);
    lemma_first_occurrences_facts(items, registry.fallback);
    lemma_first_occurrences_len(items, registry.fallback);
    let registered_items = tag_all(registry.registered, Source::Registered);
    let discovered_items = tag_all(discovered, Source::Discovered);
    assert(registered_first(items)) by {
        assert forall|i: int, j: int|
            0 <= i < j < items.len() && #[trigger] items[i].1 == Source::Discovered implies #[trigger] items[j].1
            == Source::Discovered by {
            if i < registered_items.len() {
                assert(items[i] == registered_items[i]);
            }
            assert(items[j] == discovered_items[j - registered_items.len()]);
        }
    }
    assert(candidates.drop_last() =~= forwarded);
    assert(forall|i: int| 0 <= i < forwarded.len() ==> forwarded[i] == all[i]);
    assert(candidate_paths(forwarded) =~= candidate_paths(all).take(forwarded.len() as int));
    assert forall|i: int, j: int|
        0 <= i < j < candidate_paths(candidates).len() implies candidate_paths(candidates)[i]
        != candidate_paths(candidates)[j] by {
        if j == candidates.len() - 1 {
            assert(all[i].0 != registry.fallback);
        } else {
            assert(candidate_paths(all)[i] != candidate_paths(all)[j]);
        }
    }
    assert forall|i: int| 0 <= i < candidates.len() - 1 implies {
        ||| (#[trigger] candidates[i]).1 == Source::Registered && registry.registered.contains(
            candidates[i].0,
        )
        ||| candidates[i].1 == Source::Discovered && discovered.contains(candidates[i].0)
    } by {
        assert(candidates[i] == all[i]);
        assert(items.contains(all[i]));
        let k = choose|k: int| 0 <= k < items.len() && items[k] == all[i];
        if k < registered_items.len() {
            assert(items[k] == registered_items[k]);
            assert(registry.registered[k] == all[i].0);
        } else {
            assert(items[k] == discovered_items[k - registered_items.len()]);
            assert(discovered[k - registered_items.len()] == all[i].0);
        }
    }
    assert(registered_first(candidates.drop_last())) by {
        assert forall|i: int, j: int|
            0 <= i < j < forwarded.len() && #[trigger] forwarded[i].1 == Source::Discovered implies #[trigger] forwarded[j].1
            == Source::Discovered by {
            assert(forwarded[i] == all[i] && forwarded[j] == all[j]);
        }
    }
    if candidates.len() < MAXIMUM_CANDIDATES {
        assert(forwarded == all);
        assert forall|path: Seq<u8>|
            (registry.registered.contains(path) || discovered.contains(path)) && path
                != registry.fallback implies #[trigger] candidate_paths(candidates).contains(path) by {
            let j = if registry.registered.contains(path) {
                let r = choose|r: int|
                    0 <= r < registry.registered.len() && registry.registered[r] == path;
                assert(items[r] == registered_items[r]);
                r
            } else {
                let d = choose|d: int| 0 <= d < discovered.len() && discovered[d] == path;
                assert(items[registered_items.len() + d] == discovered_items[d]);
                registered_items.len() + d
            };
            assert(items[j].0 == path);
            assert(candidate_paths(all).contains(path));
            let k = choose|k: int| 0 <= k < candidate_paths(all).len() && candidate_paths(all)[k] == path;
            assert(candidate_paths(candidates)[k] == path);
        }
    }
}

/// Deduplication keeps the first item when its path is not excluded.
pub proof fn lemma_first_occurrences_head(items: Seq<CandidateModel>, excluded: Seq<u8>)
    requires
        items.len() > 0,
        items[0].0 != excluded,
    ensures
        first_occurrences(items, excluded).len() > 0,
        first_occurrences(items, excluded)[0] == items[0],
    decreases items.len(),
{
    if items.len() > 1 {
        lemma_first_occurrences_head(items.drop_last(), excluded);
        let previous = first_occurrences(items.drop_last(), excluded);
        assert(items.drop_last()[0] == items[0]);
        assert(previous.push(items.last())[0] == previous[0]);
    } else {
        assert(items.drop_last() =~= Seq::<CandidateModel>::empty());
        assert(first_occurrences(items.drop_last(), excluded) == Seq::<CandidateModel>::empty());
        assert(!candidate_paths(Seq::<CandidateModel>::empty()).contains(items[0].0));
        assert(items.last() == items[0]);
    }
}

/// Removing a path twice is removing it once.
pub proof fn lemma_without_idempotent(paths: Seq<Seq<u8>>, path: Seq<u8>)
    ensures
        without(without(paths, path), path) == without(paths, path),
    decreases paths.len(),
{
    if paths.len() > 0 {
        lemma_without_idempotent(paths.drop_last(), path);
        let rest = without(paths.drop_last(), path);
        if paths.last() != path {
            assert(rest.push(paths.last()).drop_last() =~= rest);
        }
    }
}

/// Removing a path that does not occur changes nothing.
pub proof fn lemma_without_absent(paths: Seq<Seq<u8>>, path: Seq<u8>)
    requires
        !paths.contains(path),
    ensures
        without(paths, path) == paths,
    decreases paths.len(),
{
    if paths.len() > 0 {
        lemma_last_contains(paths, path);
        lemma_without_absent(paths.drop_last(), path);
        assert(paths.drop_last().push(paths.last()) =~= paths);
    }
}

/// Removing a path from a sequence that starts with it drops that start.
pub proof fn lemma_without_prepended(paths: Seq<Seq<u8>>, path: Seq<u8>)
    ensures
        without(seq![path] + paths, path) == without(paths, path),
    decreases paths.len(),
{
    let joined = seq![path] + paths;
    if paths.len() == 0 {
        assert(joined.drop_last() =~= Seq::<Seq<u8>>::empty());
        assert(without(joined.drop_last(), path) == joined.drop_last());
        assert(joined.last() == path);
    } else {
        lemma_without_prepended(paths.drop_last(), path);
        assert(joined.drop_last() =~= seq![path] + paths.drop_last());
        assert(joined.last() == paths.last());
        assert(joined.len() > 0);
    }
}

/// A newly registered path, unless it is the fallback, is the first candidate.
pub proof fn law_registration_is_preferred(
    registry: RegistryModel,
    path: Seq<u8>,
    discovered: Seq<Seq<u8>>,
)
    requires
        path != registry.fallback,
    ensures
        spec_candidates(spec_register(registry, path), discovered)[0] == (path, Source::Registered),
{
    let next = spec_register(registry, path);
    let items = offered(next, discovered);
    assert(items[0] == (path, Source::Registered));
    lemma_first_occurrences_head(items, next.fallback);
}

/// Registering keeps the fallback, makes `path` the only most-recent entry,
/// keeps every other registration in order, and never repeats a path.
pub proof fn law_register_keeps_registrations_unique(registry: RegistryModel, path: Seq<u8>)
    requires
        registry.registered.no_duplicates(),
    ensures
        spec_register(registry, path).registered.no_duplicates(),
        spec_unregister(registry, path).registered.no_duplicates(),
        spec_register(registry, path).fallback == registry.fallback,
        spec_register(registry, path).registered[0] == path,
        spec_register(registry, path).registered.drop_first() == without(
            registry.registered,
            path,
        ),
{
    lemma_without_keeps_uniqueness(registry.registered, path);
    assert((seq![path] + without(registry.registered, path)).drop_first() =~= without(
        registry.registered,
        path,
    ));
}

/// Registering the same path twice is registering it once.
pub proof fn law_register_idempotent(registry: RegistryModel, path: Seq<u8>)
    ensures
        spec_register(spec_register(registry, path), path) == spec_register(registry, path),
{
    lemma_without_prepended(without(registry.registered, path), path);
    lemma_without_idempotent(registry.registered, path);
}

/// Unregistering a path undoes registering it, when it was not registered before.
pub proof fn law_unregister_undoes_register(registry: RegistryModel, path: Seq<u8>)
    requires
        !registry.registered.contains(path),
    ensures
        spec_unregister(spec_register(registry, path), path) == registry,
{
    lemma_without_prepended(registry.registered, path);
    lemma_without_absent(registry.registered, path);
}

/// After unregistering, a path is no longer registered and is never offered
/// as a registered candidate; every other registration stays.
pub proof fn law_unregistered_path_is_not_registered(
    registry: RegistryModel,
    path: Seq<u8>,
    discovered: Seq<Seq<u8>>,
)
    ensures
        !spec_unregister(registry, path).registered.contains(path),
        forall|other: Seq<u8>|
            other != path ==> (#[trigger] spec_unregister(registry, path).registered.contains(other)
                == registry.registered.contains(other)),
        forall|i: int|
            0 <= i < spec_candidates(spec_unregister(registry, path), discovered).len() && (
            #[trigger] spec_candidates(spec_unregister(registry, path), discovered)[i]).1
                == Source::Registered ==> spec_candidates(
                spec_unregister(registry, path),
                discovered,
            )[i].0 != path,
{
    lemma_without_contains(registry.registered, path, path);
    assert forall|other: Seq<u8>| other != path implies (#[trigger] spec_unregister(
        registry,
        path,
    ).registered.contains(other) == registry.registered.contains(other)) by {
        lemma_without_contains(registry.registered, path, other);
    }
    law_candidates_shape(spec_unregister(registry, path), discovered);
}

/// What removing a key from the affinity table keeps.
pub proof fn lemma_without_key_facts(affinities: Seq<AffinityModel>, key: Seq<u8>)
    requires
        affinity_keys(affinities).no_duplicates(),
    ensures
        without_key(affinities, key).len() <= affinities.len(),
        affinity_keys(without_key(affinities, key)).no_duplicates(),
        !affinity_keys(without_key(affinities, key)).contains(key),
        forall|other: Seq<u8>|
            other != key ==> #[trigger] spec_affinity(without_key(affinities, key), other)
                == spec_affinity(affinities, other),
    decreases affinities.len(),
{
    if affinities.len() > 0 {
        let front = affinities.drop_last();
        let last = affinities.last();
        assert(affinity_keys(front) =~= affinity_keys(affinities).drop_last());
        lemma_without_key_facts(front, key);
        let rest = without_key(front, key);
        if last.0 != key {
            let next = rest.push(last);
            assert(affinity_keys(next) =~= affinity_keys(rest).push(last.0));
            assert(!affinity_keys(rest).contains(last.0)) by {
                if affinity_keys(rest).contains(last.0) {
                    lemma_without_key_subset(front, key, last.0);
                    let i = choose|i: int| 0 <= i < affinity_keys(front).len() && affinity_keys(front)[i] == last.0;
                    assert(affinity_keys(affinities)[i] == affinity_keys(affinities)[affinities.len() - 1]);
                }
            }
            assert forall|i: int, j: int| 0 <= i < j < affinity_keys(next).len() implies affinity_keys(next)[i] != affinity_keys(next)[j] by {
                if j == affinity_keys(next).len() - 1 {
                    assert(affinity_keys(rest)[i] == affinity_keys(next)[i]);
                } else {
                    assert(affinity_keys(rest)[i] == affinity_keys(next)[i]);
                    assert(affinity_keys(rest)[j] == affinity_keys(next)[j]);
                }
            }
            lemma_push_contains(affinity_keys(rest), last.0, key);
            assert forall|other: Seq<u8>| other != key implies #[trigger] spec_affinity(next, other)
                == spec_affinity(affinities, other) by {
                assert(next.drop_last() =~= rest);
                assert(next.last() == last);
                assert(spec_affinity(rest, other) == spec_affinity(front, other));
            }
        } else {
            assert forall|other: Seq<u8>| other != key implies #[trigger] spec_affinity(rest, other)
                == spec_affinity(affinities, other) by {
            }
        }
    }
}

/// Keys left after removing one were keys before.
pub proof fn lemma_without_key_subset(affinities: Seq<AffinityModel>, key: Seq<u8>, other: Seq<u8>)
    requires
        affinity_keys(without_key(affinities, key)).contains(other),
    ensures
        affinity_keys(affinities).contains(other),
    decreases affinities.len(),
{
    if affinities.len() > 0 {
        let front = affinities.drop_last();
        let rest = without_key(front, key);
        assert(affinity_keys(front) =~= affinity_keys(affinities).drop_last());
        lemma_last_contains(affinity_keys(affinities), other);
        if affinities.last().0 == key {
            lemma_without_key_subset(front, key, other);
        } else {
            assert(affinity_keys(rest.push(affinities.last())) =~= affinity_keys(rest).push(affinities.last().0));
            lemma_push_contains(affinity_keys(rest), affinities.last().0, other);
            if affinity_keys(rest).contains(other) {
                lemma_without_key_subset(front, key, other);
            }
        }
    }
}

/// The first index of a path that occurs first at `index`.
pub proof fn lemma_first_index_found(paths: Seq<Seq<u8>>, path: Seq<u8>, index: int)
    requires
        0 <= index < paths.len(),
        paths[index] == path,
        forall|j: int| 0 <= j < index ==> paths[j] != path,
    ensures
        first_index(paths, path) == index,
    decreases paths.len(),
{
    if index < paths.len() - 1 {
        lemma_first_index_found(paths.drop_last(), path, index);
    } else {
        lemma_first_index_absent(paths.drop_last(), path);
    }
}

/// The first index of an absent path is -1.
pub proof fn lemma_first_index_absent(paths: Seq<Seq<u8>>, path: Seq<u8>)
    requires
        forall|j: int| 0 <= j < paths.len() ==> paths[j] != path,
    ensures
        first_index(paths, path) == -1,
    decreases paths.len(),
{
    if paths.len() > 0 {
        lemma_first_index_absent(paths.drop_last(), path);
    }
}

/// A key without an entry has no affinity.
pub proof fn lemma_affinity_absent(affinities: Seq<AffinityModel>, key: Seq<u8>)
    requires
        !affinity_keys(affinities).contains(key),
    ensures
        spec_affinity(affinities, key) is None,
    decreases affinities.len(),
{
    if affinities.len() > 0 {
        assert(affinity_keys(affinities.drop_last()) =~= affinity_keys(affinities).drop_last());
        lemma_last_contains(affinity_keys(affinities), key);
        lemma_affinity_absent(affinities.drop_last(), key);
    }
}

/// Dropping the least recent entry does not change the affinity of another key.
pub proof fn lemma_affinity_drop_first(affinities: Seq<AffinityModel>, key: Seq<u8>)
    requires
        affinities.len() > 0,
        affinities[0].0 != key,
    ensures
        spec_affinity(affinities.drop_first(), key) == spec_affinity(affinities, key),
    decreases affinities.len(),
{
    if affinities.len() == 1 {
        assert(affinities.drop_first() =~= Seq::<AffinityModel>::empty());
        assert(affinities.drop_last() =~= Seq::<AffinityModel>::empty());
    } else {
        let rest = affinities.drop_first();
        assert(rest.last() == affinities.last());
        assert(rest.drop_last() =~= affinities.drop_last().drop_first());
        lemma_affinity_drop_first(affinities.drop_last(), key);
    }
}

/// Promotion remembers the new signer for its key, keeps at most
/// `MAXIMUM_SIGNER_AFFINITIES` keys with one entry each, and keeps every other
/// key's signer unless the table was full and the key is new, in which case
/// only the least recently promoted key is forgotten.
pub proof fn law_promotion_is_bounded_and_scoped(
    registry: RegistryModel,
    key: Seq<u8>,
    signer: Seq<u8>,
)
    requires
        affinity_keys(registry.affinities).no_duplicates(),
        registry.affinities.len() <= MAXIMUM_SIGNER_AFFINITIES,
    ensures
        ({
            let promoted = spec_promote_signer(registry, key, signer).affinities;
            let full_and_new = registry.affinities.len() == MAXIMUM_SIGNER_AFFINITIES
                && spec_affinity(registry.affinities, key) is None;
            &&& spec_affinity(promoted, key) == Some(signer)
            &&& promoted.len() <= MAXIMUM_SIGNER_AFFINITIES
            &&& affinity_keys(promoted).no_duplicates()
            &&& !full_and_new ==> forall|other: Seq<u8>|
                other != key ==> #[trigger] spec_affinity(promoted, other) == spec_affinity(
                    registry.affinities,
                    other,
                )
            &&& full_and_new ==> {
                &&& spec_affinity(promoted, registry.affinities[0].0) is None
                &&& forall|other: Seq<u8>|
                    other != key && other != registry.affinities[0].0 ==> #[trigger] spec_affinity(
                        promoted,
                        other,
                    ) == spec_affinity(registry.affinities, other)
            }
        }),
{
    let affinities = registry.affinities;
    let kept = without_key(affinities, key);
    lemma_without_key_facts(affinities, key);
    let promoted = spec_promote_signer(registry, key, signer).affinities;
    let room = if kept.len() >= MAXIMUM_SIGNER_AFFINITIES {
        kept.drop_first()
    } else {
        kept
    };
    assert(promoted == room.push((key, signer)));
    assert(promoted.drop_last() =~= room);
    if spec_affinity(affinities, key) is Some {
        assert(affinity_keys(affinities).contains(key)) by {
            if !affinity_keys(affinities).contains(key) {
                lemma_affinity_absent(affinities, key);
            }
        }
        lemma_without_len_keys(affinities, key);
        assert forall|other: Seq<u8>| other != key implies #[trigger] spec_affinity(promoted, other)
            == spec_affinity(affinities, other) by {
            assert(spec_affinity(kept, other) == spec_affinity(affinities, other));
        }
    } else if affinities.len() < MAXIMUM_SIGNER_AFFINITIES {
        lemma_without_key_len(affinities, key);
        assert forall|other: Seq<u8>| other != key implies #[trigger] spec_affinity(promoted, other)
            == spec_affinity(affinities, other) by {
            assert(spec_affinity(kept, other) == spec_affinity(affinities, other));
        }
    } else {
        assert(!affinity_keys(affinities).contains(key)) by {
            if affinity_keys(affinities).contains(key) {
                lemma_affinity_key_present(affinities, key);
            }
        }
        lemma_without_key_absent(affinities, key);
        assert(kept == affinities);
        assert(kept.len() == MAXIMUM_SIGNER_AFFINITIES);
        let first = affinities[0].0;
        assert(!affinity_keys(affinities.drop_first()).contains(first)) by {
            if affinity_keys(affinities.drop_first()).contains(first) {
                let i = choose|i: int|
                    0 <= i < affinity_keys(affinities.drop_first()).len() && affinity_keys(
                        affinities.drop_first(),
                    )[i] == first;
                assert(affinity_keys(affinities)[i + 1] == affinity_keys(affinities)[0]);
            }
        }
        lemma_affinity_absent(affinities.drop_first(), first);
        assert(affinity_keys(affinities)[0] == first);
        assert(key != first);
        assert(promoted.drop_last() =~= affinities.drop_first());
        assert forall|other: Seq<u8>| other != key && other != first implies #[trigger] spec_affinity(
            promoted,
            other,
        ) == spec_affinity(affinities, other) by {
            lemma_affinity_drop_first(affinities, other);
        }
    }
    let keys = affinity_keys(promoted);
    assert(keys =~= affinity_keys(room).push(key));
    assert(!affinity_keys(room).contains(key)) by {
        if affinity_keys(room).contains(key) {
            let i = choose|i: int| 0 <= i < affinity_keys(room).len() && affinity_keys(room)[i] == key;
            if kept.len() >= MAXIMUM_SIGNER_AFFINITIES {
                assert(affinity_keys(kept)[i + 1] == key);
            } else {
                assert(affinity_keys(kept)[i] == key);
            }
        }
    }
    assert forall|i: int, j: int| 0 <= i < j < keys.len() implies keys[i] != keys[j] by {
        if j == keys.len() - 1 {
            assert(affinity_keys(room)[i] == keys[i]);
        } else if kept.len() >= MAXIMUM_SIGNER_AFFINITIES {
            assert(affinity_keys(kept)[i + 1] == keys[i]);
            assert(affinity_keys(kept)[j + 1] == keys[j]);
        } else {
            assert(affinity_keys(kept)[i] == keys[i]);
            assert(affinity_keys(kept)[j] == keys[j]);
        }
    }
}

/// A key with an affinity has an entry.
pub proof fn lemma_affinity_key_present(affinities: Seq<AffinityModel>, key: Seq<u8>)
    requires
        affinity_keys(affinities).contains(key),
    ensures
        spec_affinity(affinities, key) is Some,
    decreases affinities.len(),
{
    assert(affinity_keys(affinities.drop_last()) =~= affinity_keys(affinities).drop_last());
    lemma_last_contains(affinity_keys(affinities), key);
    if affinities.last().0 != key {
        lemma_affinity_key_present(affinities.drop_last(), key);
    }
}

/// Removing an absent key changes nothing.
pub proof fn lemma_without_key_absent(affinities: Seq<AffinityModel>, key: Seq<u8>)
    requires
        !affinity_keys(affinities).contains(key),
    ensures
        without_key(affinities, key) == affinities,
    decreases affinities.len(),
{
    if affinities.len() > 0 {
        assert(affinity_keys(affinities.drop_last()) =~= affinity_keys(affinities).drop_last());
        lemma_last_contains(affinity_keys(affinities), key);
        lemma_without_key_absent(affinities.drop_last(), key);
        assert(affinities.drop_last().push(affinities.last()) =~= affinities);
    }
}

/// Removing a present key shrinks the table.
pub proof fn lemma_without_len_keys(affinities: Seq<AffinityModel>, key: Seq<u8>)
    requires
        affinity_keys(affinities).contains(key),
    ensures
        without_key(affinities, key).len() < affinities.len(),
    decreases affinities.len(),
{
    assert(affinity_keys(affinities.drop_last()) =~= affinity_keys(affinities).drop_last());
    lemma_last_contains(affinity_keys(affinities), key);
    lemma_without_key_len(affinities.drop_last(), key);
    if affinities.last().0 != key {
        lemma_without_len_keys(affinities.drop_last(), key);
    }
}

/// Removing a key never grows the table.
pub proof fn lemma_without_key_len(affinities: Seq<AffinityModel>, key: Seq<u8>)
    ensures
        without_key(affinities, key).len() <= affinities.len(),
    decreases affinities.len(),
{
    if affinities.len() > 0 {
        lemma_without_key_len(affinities.drop_last(), key);
    }
}

/// Promotion changes only the signing order: the ordinary candidate order
/// stays, and signing with a key that has no affinity uses the ordinary order.
pub proof fn law_promotion_changes_only_signing_order(
    registry: RegistryModel,
    key: Seq<u8>,
    signer: Seq<u8>,
    discovered: Seq<Seq<u8>>,
    other: Seq<u8>,
)
    ensures
        spec_candidates(spec_promote_signer(registry, key, signer), discovered) == spec_candidates(
            registry,
            discovered,
        ),
        spec_affinity(registry.affinities, other) is None ==> spec_signing_candidates(
            registry,
            discovered,
            other,
        ) == spec_candidates(registry, discovered),
{
}

/// Signing candidates are the ordinary candidates with at most one of them
/// moved to the front: the same entries, the same length, the fallback kept,
/// and a promoted signer that is still a candidate tried first.
pub proof fn law_signing_candidates_reorder_only(
    registry: RegistryModel,
    discovered: Seq<Seq<u8>>,
    key: Seq<u8>,
)
    ensures
        ({
            let ordinary = spec_candidates(registry, discovered);
            let signing = spec_signing_candidates(registry, discovered, key);
            &&& signing.len() == ordinary.len()
            &&& forall|entry: CandidateModel| #[trigger] signing.contains(entry) <==> ordinary.contains(entry)
            &&& forall|signer: Seq<u8>|
                spec_affinity(registry.affinities, key) == Some(signer) && candidate_paths(
                    ordinary,
                ).contains(signer) ==> signing[0].0 == signer
        }),
{
    let ordinary = spec_candidates(registry, discovered);
    let signing = spec_signing_candidates(registry, discovered, key);
    match spec_affinity(registry.affinities, key) {
        Some(path) => {
            let index = first_index(candidate_paths(ordinary), path);
            lemma_first_index_bounds(candidate_paths(ordinary), path);
            if index >= 0 {
                assert forall|entry: CandidateModel| #[trigger] signing.contains(entry)
                    <==> ordinary.contains(entry) by {
                    if signing.contains(entry) {
                        let j = choose|j: int| 0 <= j < signing.len() && signing[j] == entry;
                        if j == 0 {
                            assert(ordinary[index] == entry);
                        } else if j <= index {
                            assert(ordinary[j - 1] == entry);
                        } else {
                            assert(ordinary[j] == entry);
                        }
                    }
                    if ordinary.contains(entry) {
                        let j = choose|j: int| 0 <= j < ordinary.len() && ordinary[j] == entry;
                        if j == index {
                            assert(signing[0] == entry);
                        } else if j < index {
                            assert(signing[j + 1] == entry);
                        } else {
                            assert(signing[j] == entry);
                        }
                    }
                }
            } else {
                assert(!candidate_paths(ordinary).contains(path));
            }
        },
        None => {},
    }
}

/// `first_index` is -1 exactly when the path is absent, and otherwise points at it.
pub proof fn lemma_first_index_bounds(paths: Seq<Seq<u8>>, path: Seq<u8>)
    ensures
        -1 <= first_index(paths, path) < paths.len(),
        first_index(paths, path) >= 0 ==> paths[first_index(paths, path)] == path,
        first_index(paths, path) == -1 <==> !paths.contains(path),
    decreases paths.len(),
{
    if paths.len() > 0 {
        lemma_first_index_bounds(paths.drop_last(), path);
        lemma_last_contains(paths, path);
    }
}

/// After `signer` signs with `key`, the next signing order for `key` tries
/// `signer` first whenever it is still a candidate.
pub proof fn law_promoted_signer_is_tried_first(
    registry: RegistryModel,
    key: Seq<u8>,
    signer: Seq<u8>,
    discovered: Seq<Seq<u8>>,
)
    requires
        affinity_keys(registry.affinities).no_duplicates(),
        registry.affinities.len() <= MAXIMUM_SIGNER_AFFINITIES,
        candidate_paths(spec_candidates(registry, discovered)).contains(signer),
    ensures
        spec_signing_candidates(spec_promote_signer(registry, key, signer), discovered, key)[0].0
            == signer,
{
    let promoted = spec_promote_signer(registry, key, signer);
    law_promotion_is_bounded_and_scoped(registry, key, signer);
    law_promotion_changes_only_signing_order(registry, key, signer, discovered, key);
    law_signing_candidates_reorder_only(promoted, discovered, key);
}

} // verus!
