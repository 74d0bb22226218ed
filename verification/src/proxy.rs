//! SSH-agent message classification, framing and proxy configuration.
//!
//! Only identity listing, signing and the `query` and
//! `session-bind@openssh.com` extensions are forwarded; every other request is
//! answered with a failure. Time limits are in nanoseconds.
use vstd::prelude::*;

use crate::bytes::{be_u32_bytes, be_u32_value, bytes_equal, copy_bytes, read_be_u32, write_be_u32};
use crate::backend::{spec_seeded, Registry};
use crate::bytes::byte_views;
use crate::identities::{read_string, spec_read_string};
use crate::paths::spec_normalize_path;
use crate::shared::SharedRegistry;

verus! {

/// `SSH_AGENTC_REQUEST_IDENTITIES`.
pub const REQUEST_IDENTITIES: u8 = 11;

/// `SSH_AGENTC_SIGN_REQUEST`.
pub const SIGN_REQUEST: u8 = 13;

/// `SSH_AGENTC_EXTENSION`.
pub const EXTENSION: u8 = 27;

/// `SSH_AGENT_SIGN_RESPONSE`.
pub const SIGN_RESPONSE: u8 = 14;

/// `SSH_AGENT_EXTENSION_RESPONSE`.
pub const EXTENSION_RESPONSE: u8 = 29;

/// `SSH_AGENT_FAILURE`.
pub const FAILURE_CODE: u8 = 5;

/// `SSH_AGENT_SUCCESS`.
pub const SUCCESS_CODE: u8 = 6;

/// Offset of the extension name inside an extension request.
pub const EXTENSION_NAME_OFFSET: usize = 5;

/// Largest accepted SSH-agent message body, 256 KiB.
pub const DEFAULT_MAXIMUM_MESSAGE_BYTES: usize = 262144;

/// Project-wide cap on candidate upstream agents and remembered session bindings.
pub const DEFAULT_MAXIMUM_CANDIDATES: usize = 32;

/// The one-byte failure message.
pub open spec fn failure_message() -> Seq<u8> {
    seq![FAILURE_CODE]
}

/// The one-byte success message.
pub open spec fn success_message() -> Seq<u8> {
    seq![SUCCESS_CODE]
}

/// Builds the one-byte failure message.
pub fn failure() -> (message: Vec<u8>)
    ensures
        message@ == failure_message(),
{
    let message = vec![FAILURE_CODE];
    assert(message@ =~= failure_message());
    message
}

/// Whether `message` is the one-byte success message.
pub fn is_success(message: &[u8]) -> (success: bool)
    ensures
        success == (message@ == success_message()),
{
    let success = message.len() == 1 && message[0] == SUCCESS_CODE;
    proof {
        if success {
            assert(message@ =~= success_message());
        }
    }
    success
}

/// The `query` extension name.
pub open spec fn query_name() -> Seq<u8> {
    seq![113u8, 117, 101, 114, 121]
}

/// The `session-bind@openssh.com` extension name.
pub open spec fn session_bind_name() -> Seq<u8> {
    seq![
        115u8, 101, 115, 115, 105, 111, 110, 45, 98, 105, 110, 100, 64, 111, 112, 101, 110, 115, 115,
        104, 46, 99, 111, 109,
    ]
}

fn query_name_bytes() -> (name: Vec<u8>)
    ensures
        name@ == query_name(),
{
    let name = vec![113u8, 117, 101, 114, 121];
    assert(name@ =~= query_name());
    name
}

fn session_bind_name_bytes() -> (name: Vec<u8>)
    ensures
        name@ == session_bind_name(),
{
    let name = vec![
        115u8, 101, 115, 115, 105, 111, 110, 45, 98, 105, 110, 100, 64, 111, 112, 101, 110, 115,
        115, 104, 46, 99, 111, 109,
    ];
    assert(name@ =~= session_bind_name());
    name
}

/// Time limits, in nanoseconds, for contacting and operating an upstream agent.
#[derive(Clone, Copy, Debug, PartialEq, Eq, Structural)]
pub struct Timeouts {
    connect: u128,
    identities: u128,
    sign: u128,
}

impl Timeouts {
    /// The upstream connection time limit.
    pub closed spec fn spec_connect(self) -> u128 {
        self.connect
    }

    /// The identity and extension operation time limit.
    pub closed spec fn spec_identities(self) -> u128 {
        self.identities
    }

    /// The signing operation time limit.
    pub closed spec fn spec_sign(self) -> u128 {
        self.sign
    }

    /// Creates an explicit timeout policy.
    pub fn new(connect: u128, identities: u128, sign: u128) -> (timeouts: Self)
        ensures
            timeouts.spec_connect() == connect,
            timeouts.spec_identities() == identities,
            timeouts.spec_sign() == sign,
    {
        Timeouts { connect, identities, sign }
    }

    /// Returns the upstream connection time limit.
    pub fn connect(self) -> (limit: u128)
        ensures
            limit == self.spec_connect(),
    {
        self.connect
    }

    /// Returns the identity and extension operation time limit.
    pub fn identities(self) -> (limit: u128)
        ensures
            limit == self.spec_identities(),
    {
        self.identities
    }

    /// Returns the signing operation time limit.
    pub fn sign(self) -> (limit: u128)
        ensures
            limit == self.spec_sign(),
    {
        self.sign
    }
}

impl Default for Timeouts {
    /// 500 ms to connect, two seconds for identities and extensions, 30 s to sign.
    fn default() -> (timeouts: Self)
        ensures
            timeouts.spec_connect() == 500_000_000,
            timeouts.spec_identities() == 2_000_000_000,
            timeouts.spec_sign() == 30_000_000_000,
    {
        Timeouts::new(500_000_000, 2_000_000_000, 30_000_000_000)
    }
}

/// The abstract configuration of a proxy instance.
pub ghost struct ConfigModel {
    /// The fallback agent socket, tried after every forwarded agent.
    pub upstream: Seq<u8>,
    /// The largest accepted message body.
    pub maximum_message_bytes: usize,
    /// The operation time limits.
    pub timeouts: Timeouts,
    /// The directories searched for forwarded agent sockets.
    pub discovery_roots: Seq<Seq<u8>>,
    /// The paths the registry was seeded with, most preferred first.
    pub registered: Seq<Seq<u8>>,
}

/// Runtime limits, the agent registry and the discovery roots of a proxy
/// instance. Clones share one registry.
pub struct Config {
    upstream: Vec<u8>,
    maximum_message_bytes: usize,
    timeouts: Timeouts,
    registry: SharedRegistry,
    registered: Vec<Vec<u8>>,
    discovery_roots: Vec<Vec<u8>>,
}

impl View for Config {
    type V = ConfigModel;

    closed spec fn view(&self) -> ConfigModel {
        ConfigModel {
            upstream: self.upstream@,
            maximum_message_bytes: self.maximum_message_bytes,
            timeouts: self.timeouts,
            discovery_roots: byte_views(self.discovery_roots@),
            registered: byte_views(self.registered@),
        }
    }
}

/// A fresh registry with fallback `fallback`, seeded with `paths` so that the
/// first path is the most preferred.
fn seeded_registry(fallback: &[u8], paths: &Vec<Vec<u8>>) -> (registry: Registry)
    ensures
        registry@ == spec_seeded(fallback@, byte_views(paths@)),
        registry@.fallback == spec_normalize_path(fallback@),
{
    let ghost views = byte_views(paths@);
    let mut registry = Registry::new(copy_bytes(fallback));
    let mut remaining = paths.len();
    assert(views.skip(remaining as int) =~= Seq::<Seq<u8>>::empty());
    while remaining > 0
        invariant
            views == byte_views(paths@),
            remaining <= paths@.len(),
            registry@ == spec_seeded(fallback@, views.skip(remaining as int)),
            registry@.fallback == spec_normalize_path(fallback@),
        decreases remaining,
    {
        remaining = remaining - 1;
        let ghost before = views.skip(remaining as int + 1);
        registry.register(copy_bytes(paths[remaining].as_slice()));
        assert(views.skip(remaining as int).drop_first() =~= before);
        assert(views.skip(remaining as int)[0] == paths@[remaining as int]@);
    }
    assert(views.skip(0) =~= views);
    registry
}

/// Copies a list of byte strings.
fn copy_all(items: &Vec<Vec<u8>>) -> (copy: Vec<Vec<u8>>)
    ensures
        byte_views(copy@) == byte_views(items@),
{
    let mut copy: Vec<Vec<u8>> = Vec::new();
    let mut index: usize = 0;
    while index < items.len()
        invariant
            index <= items@.len(),
            byte_views(copy@) == byte_views(items@).take(index as int),
        decreases items@.len() - index,
    {
        let ghost before = byte_views(copy@);
        copy.push(copy_bytes(items[index].as_slice()));
        assert(byte_views(copy@) =~= before.push(items@[index as int]@));
        assert(byte_views(items@).take(index + 1) =~= byte_views(items@).take(index as int).push(
            items@[index as int]@,
        ));
        index = index + 1;
    }
    assert(byte_views(items@).take(index as int) =~= byte_views(items@));
    copy
}

impl Clone for Config {
    /// An equal configuration sharing the same registry.
    fn clone(&self) -> (copy: Self)
        ensures
            copy@ == self@,
            copy.shares_registry(self),
    {
        proof {
            use_type_invariant(self);
        }
        Config {
            upstream: copy_bytes(self.upstream.as_slice()),
            maximum_message_bytes: self.maximum_message_bytes,
            timeouts: self.timeouts,
            registry: self.registry.clone(),
            registered: copy_all(&self.registered),
            discovery_roots: copy_all(&self.discovery_roots),
        }
    }
}

impl Config {
    /// The registry's fallback is the configured upstream, in its canonical spelling,
    /// and it was created seeded with the configured registrations.
    #[verifier::type_invariant]
    spec fn registry_falls_back_to_upstream(self) -> bool {
        &&& self.registry.fallback() == spec_normalize_path(self.upstream@)
        &&& self.registry.initial() == spec_seeded(self.upstream@, byte_views(self.registered@))
    }

    /// Creates a proxy configuration with Lanyard's documented safety bounds:
    /// `upstream` is the fallback, nothing is registered and no directory is
    /// searched.
    pub fn new(upstream: Vec<u8>) -> (config: Self)
        ensures
            config@.upstream == upstream@,
            config@.maximum_message_bytes == DEFAULT_MAXIMUM_MESSAGE_BYTES,
            config@.timeouts.spec_connect() == 500_000_000,
            config@.timeouts.spec_identities() == 2_000_000_000,
            config@.timeouts.spec_sign() == 30_000_000_000,
            config@.discovery_roots == Seq::<Seq<u8>>::empty(),
            config@.registered == Seq::<Seq<u8>>::empty(),
    {
        let registry = SharedRegistry::new(Registry::new(copy_bytes(upstream.as_slice())));
        let discovery_roots: Vec<Vec<u8>> = Vec::new();
        let registered: Vec<Vec<u8>> = Vec::new();
        assert(byte_views(registered@) =~= Seq::<Seq<u8>>::empty());
        let config = Config {
            upstream,
            maximum_message_bytes: DEFAULT_MAXIMUM_MESSAGE_BYTES,
            timeouts: Timeouts::default(),
            registry,
            registered,
            discovery_roots,
        };
        assert(config@.discovery_roots =~= Seq::<Seq<u8>>::empty());
        config
    }

    /// Returns the fallback agent socket path.
    pub fn upstream(&self) -> (upstream: &[u8])
        ensures
            upstream@ == self@.upstream,
    {
        self.upstream.as_slice()
    }

    /// Returns the maximum accepted SSH-agent message body size.
    pub fn maximum_message_bytes(&self) -> (bytes: usize)
        ensures
            bytes == self@.maximum_message_bytes,
    {
        self.maximum_message_bytes
    }

    /// Returns the project-wide cap on candidate upstream agents.
    pub fn maximum_candidates(&self) -> (candidates: usize)
        ensures
            candidates == DEFAULT_MAXIMUM_CANDIDATES,
    {
        DEFAULT_MAXIMUM_CANDIDATES
    }

    /// Overrides operation time limits.
    pub fn with_timeouts(self, timeouts: Timeouts) -> (config: Self)
        ensures
            config@ == (ConfigModel { timeouts, ..self@ }),
    {
        let mut config = self;
        proof {
            use_type_invariant(&config);
        }
        config.timeouts = timeouts;
        config
    }

    /// Returns the configured operation time limits.
    pub fn timeouts(&self) -> (timeouts: Timeouts)
        ensures
            timeouts == self@.timeouts,
    {
        self.timeouts
    }

    /// Adds `registered` to the registrations, ahead of the earlier ones and
    /// with the first path the most preferred, and gives the configuration a
    /// fresh registry seeded with all of them. Handles taken from this
    /// configuration before keep the registry they had.
    pub fn with_registered(self, registered: Vec<Vec<u8>>) -> (config: Self)
        ensures
            config@ == (ConfigModel {
                registered: byte_views(registered@) + self@.registered,
                ..self@
            }),
    {
        proof {
            use_type_invariant(&self);
        }
        let Config {
            upstream,
            maximum_message_bytes,
            timeouts,
            registry: _,
            registered: earlier,
            discovery_roots,
        } = self;
        let mut all = copy_all(&registered);
        let ghost first = byte_views(all@);
        let mut rest = copy_all(&earlier);
        let ghost second = byte_views(rest@);
        all.append(&mut rest);
        assert(byte_views(all@) =~= first + second);
        let registry = SharedRegistry::new(seeded_registry(upstream.as_slice(), &all));
        Config {
            upstream,
            maximum_message_bytes,
            timeouts,
            registry,
            registered: all,
            discovery_roots,
        }
    }

    /// Searches `roots` for forwarded agent sockets.
    pub fn with_discovery_roots(self, roots: Vec<Vec<u8>>) -> (config: Self)
        ensures
            config@ == (ConfigModel { discovery_roots: byte_views(roots@), ..self@ }),
    {
        let mut config = self;
        proof {
            use_type_invariant(&config);
        }
        config.discovery_roots = roots;
        config
    }

    /// Returns the directories searched for forwarded agent sockets.
    pub fn discovery_roots(&self) -> (roots: &Vec<Vec<u8>>)
        ensures
            byte_views(roots@) == self@.discovery_roots,
    {
        &self.discovery_roots
    }

    /// Whether two configurations hold the same shared registry.
    pub closed spec fn shares_registry(&self, other: &Config) -> bool {
        self.registry.same_registry(&other.registry)
    }

    /// Whether `handle` is a handle to this configuration's registry.
    pub closed spec fn holds(&self, handle: &SharedRegistry) -> bool {
        handle.same_registry(&self.registry)
    }

    /// Returns a handle to this configuration's shared registry; its fallback
    /// is the upstream (identified by its canonical spelling), and it was
    /// created seeded with the configured registrations.
    pub fn registry(&self) -> (registry: SharedRegistry)
        ensures
            registry.fallback() == spec_normalize_path(self@.upstream),
            registry.initial() == spec_seeded(self@.upstream, self@.registered),
            self.holds(&registry),
    {
        proof {
            use_type_invariant(self);
        }
        self.registry.clone()
    }
}

/// Whether a failed exchange of this message type may be resent on a new connection.
pub open spec fn spec_retry_after_disconnect(message_type: u8) -> bool {
    message_type == REQUEST_IDENTITIES || message_type == EXTENSION
}

/// Identity listing and extensions are idempotent; signing is not.
pub fn retry_after_disconnect(message_type: u8) -> (retry: bool)
    ensures
        retry == spec_retry_after_disconnect(message_type),
{
    message_type == REQUEST_IDENTITIES || message_type == EXTENSION
}

/// The extension name of an extension request: the string whose big-endian
/// length is in bytes 1 to 4 and whose bytes follow, if the request holds it.
pub open spec fn spec_extension_name(request: Seq<u8>) -> Option<Seq<u8>> {
    if request.len() < EXTENSION_NAME_OFFSET {
        None
    } else {
        let length = be_u32_value(request[1], request[2], request[3], request[4]);
        if EXTENSION_NAME_OFFSET + length <= request.len() {
            Some(request.subrange(EXTENSION_NAME_OFFSET as int, EXTENSION_NAME_OFFSET + length))
        } else {
            None
        }
    }
}

/// Reads the extension name of an extension request.
pub fn extension_name(request: &[u8]) -> (name: Option<&[u8]>)
    ensures
        spec_extension_name(request@) == match name {
            Some(bytes) => Some(bytes@),
            None => None,
        },
{
    if request.len() < EXTENSION_NAME_OFFSET {
        return None;
    }
    let encoded = vstd::slice::slice_subrange(request, 1, EXTENSION_NAME_OFFSET);
    let length = read_be_u32(encoded) as usize;
    if length > request.len() - EXTENSION_NAME_OFFSET {
        return None;
    }
    Some(vstd::slice::slice_subrange(request, EXTENSION_NAME_OFFSET, EXTENSION_NAME_OFFSET + length))
}

/// Whether the request names the `query` or `session-bind@openssh.com` extension.
pub open spec fn spec_is_supported_extension(request: Seq<u8>) -> bool {
    spec_extension_name(request) == Some(query_name()) || spec_extension_name(request) == Some(
        session_bind_name(),
    )
}

/// Whether the request names a forwarded extension.
pub fn is_supported_extension(request: &[u8]) -> (supported: bool)
    ensures
        supported == spec_is_supported_extension(request@),
{
    match extension_name(request) {
        Some(name) => bytes_equal(name, query_name_bytes().as_slice()) || bytes_equal(
            name,
            session_bind_name_bytes().as_slice(),
        ),
        None => false,
    }
}

/// Whether the request binds the session (`session-bind@openssh.com`).
pub open spec fn spec_is_session_bind(request: Seq<u8>) -> bool {
    spec_extension_name(request) == Some(session_bind_name())
}

/// Whether the request binds the session.
pub fn is_session_bind(request: &[u8]) -> (binds: bool)
    ensures
        binds == spec_is_session_bind(request@),
{
    match extension_name(request) {
        Some(name) => bytes_equal(name, session_bind_name_bytes().as_slice()),
        None => false,
    }
}

/// A binding is remembered only when the upstream acknowledged it.
pub open spec fn spec_should_remember_binding(request: Seq<u8>, response: Seq<u8>) -> bool {
    spec_is_session_bind(request) && response == success_message()
}

/// Whether an exchange is an acknowledged session binding.
pub fn should_remember_binding(request: &[u8], response: &[u8]) -> (remember: bool)
    ensures
        remember == spec_should_remember_binding(request@, response@),
{
    is_session_bind(request) && is_success(response)
}

/// The time limit for a request, or `None` when the request is not forwarded.
pub open spec fn spec_response_timeout(message_type: u8, request: Seq<u8>, timeouts: Timeouts) -> Option<u128> {
    if message_type == REQUEST_IDENTITIES {
        Some(timeouts.spec_identities())
    } else if message_type == SIGN_REQUEST {
        Some(timeouts.spec_sign())
    } else if message_type == EXTENSION && spec_is_supported_extension(request) {
        Some(timeouts.spec_identities())
    } else {
        None
    }
}

/// Classifies a request: the time limit for forwarded operations, `None` for
/// everything that fails closed.
pub fn response_timeout(message_type: u8, request: &[u8], timeouts: Timeouts) -> (limit: Option<u128>)
    ensures
        limit == spec_response_timeout(message_type, request@, timeouts),
{
    if message_type == REQUEST_IDENTITIES {
        Some(timeouts.identities)
    } else if message_type == SIGN_REQUEST {
        Some(timeouts.sign)
    } else if message_type == EXTENSION && is_supported_extension(request) {
        Some(timeouts.identities)
    } else {
        None
    }
}

/// Kinds of failure, matching the standard I/O error kinds they are reported as.
#[derive(Clone, Copy, Debug, PartialEq, Eq, Structural)]
pub enum ErrorKind {
    /// Malformed data was received.
    InvalidData,
    /// A value cannot be sent.
    InvalidInput,
    /// Something required is absent.
    NotFound,
    /// Another process owns the resource.
    AddrInUse,
    /// A path exists that must not be replaced.
    AlreadyExists,
    /// Any other failure.
    Other,
}

/// A violation of the SSH-agent framing rules.
#[derive(Clone, Copy, Debug, PartialEq, Eq, Structural)]
pub enum ProtocolError {
    /// A message length is zero or above the configured maximum.
    MessageLength,
    /// A message body is too long for its four-byte length prefix.
    ResponseTooLarge,
}

impl ProtocolError {
    /// The I/O error kind this error is reported as.
    pub open spec fn spec_kind(self) -> ErrorKind {
        match self {
            ProtocolError::MessageLength => ErrorKind::InvalidData,
            ProtocolError::ResponseTooLarge => ErrorKind::InvalidInput,
        }
    }

    /// Returns the I/O error kind this error is reported as.
    pub fn kind(&self) -> (kind: ErrorKind)
        ensures
            kind == self.spec_kind(),
    {
        match self {
            ProtocolError::MessageLength => ErrorKind::InvalidData,
            ProtocolError::ResponseTooLarge => ErrorKind::InvalidInput,
        }
    }

    /// The human-readable description.
    pub open spec fn spec_message(self) -> Seq<char> {
        match self {
            ProtocolError::MessageLength => "SSH agent message exceeds protocol bounds"@,
            ProtocolError::ResponseTooLarge => "response is too large"@,
        }
    }

    /// Returns a human-readable description.
    pub fn message(&self) -> (text: &'static str)
        ensures
            text@ == self.spec_message(),
    {
        match self {
            ProtocolError::MessageLength => "SSH agent message exceeds protocol bounds",
            ProtocolError::ResponseTooLarge => "response is too large",
        }
    }
}

/// A message length is accepted when it is neither zero nor above the maximum.
pub fn validate_message_length(encoded_length: u32, maximum_message_bytes: usize) -> (length:
    Result<usize, ProtocolError>)
    ensures
        0 < encoded_length <= maximum_message_bytes ==> length == Ok::<usize, ProtocolError>(
            encoded_length as usize,
        ),
        !(0 < encoded_length <= maximum_message_bytes) ==> length == Err::<usize, ProtocolError>(
            ProtocolError::MessageLength,
        ),
{
    let length = encoded_length as usize;
    if length == 0 || length > maximum_message_bytes {
        return Err(ProtocolError::MessageLength);
    }
    Ok(length)
}

/// Decodes the four-byte length prefix of a frame and validates it.
pub fn decode_frame_length(header: &[u8], maximum_message_bytes: usize) -> (length: Result<
    usize,
    ProtocolError,
>)
    requires
        header@.len() == 4,
    ensures
        ({
            let encoded = be_u32_value(header@[0], header@[1], header@[2], header@[3]);
            &&& 0 < encoded <= maximum_message_bytes ==> length == Ok::<usize, ProtocolError>(
                encoded as usize,
            )
            &&& !(0 < encoded <= maximum_message_bytes) ==> length == Err::<usize, ProtocolError>(
                ProtocolError::MessageLength,
            )
        }),
{
    validate_message_length(read_be_u32(header), maximum_message_bytes)
}

/// The wire form of a message: its big-endian length, then the body.
pub open spec fn spec_frame(body: Seq<u8>) -> Seq<u8> {
    be_u32_bytes(body.len() as u32) + body
}

/// Frames a message body for the wire.
pub fn encode_frame(body: &[u8]) -> (frame: Result<Vec<u8>, ProtocolError>)
    ensures
        body@.len() <= u32::MAX ==> (frame matches Ok(bytes) && bytes@ == spec_frame(body@)),
        body@.len() > u32::MAX ==> frame == Err::<Vec<u8>, ProtocolError>(
            ProtocolError::ResponseTooLarge,
        ),
{
    if body.len() > 4294967295 {
        return Err(ProtocolError::ResponseTooLarge);
    }
    let mut frame = write_be_u32(body.len() as u32);
    let mut index: usize = 0;
    while index < body.len()
        invariant
            index <= body@.len(),
            body@.len() <= u32::MAX,
            frame@ == be_u32_bytes(body@.len() as u32) + body@.take(index as int),
        decreases body@.len() - index,
    {
        frame.push(body[index]);
        assert(body@.take(index as int + 1) =~= body@.take(index as int).push(body@[index as int]));
        index = index + 1;
    }
    assert(body@.take(index as int) =~= body@);
    Ok(frame)
}

/// Reading back a written frame gives the same body: its length prefix decodes
/// to the body's length, accepted whenever that length is within the maximum.
pub proof fn law_frame_roundtrip(body: Seq<u8>, maximum_message_bytes: usize)
    requires
        0 < body.len() <= maximum_message_bytes,
        body.len() <= u32::MAX,
    ensures
        ({
            let frame = spec_frame(body);
            &&& be_u32_value(frame[0], frame[1], frame[2], frame[3]) == body.len()
            &&& frame.skip(4) == body
        }),
{
    crate::bytes::lemma_be_u32_roundtrip(body.len() as u32);
    assert(spec_frame(body).skip(4) =~= body);
}

/// Whether an answer to a signing request carries a signature.
pub open spec fn spec_is_sign_response(response: Seq<u8>) -> bool {
    response.len() > 0 && response[0] == SIGN_RESPONSE
}

/// Whether an answer to a signing request carries a signature.
pub fn is_sign_response(response: &[u8]) -> (signed: bool)
    ensures
        signed == spec_is_sign_response(response@),
{
    response.len() > 0 && response[0] == SIGN_RESPONSE
}

/// Whether an answer to an extension request reports success: a plain success
/// message or an extension response.
pub open spec fn spec_is_extension_answer(response: Seq<u8>) -> bool {
    response.len() > 0 && (response[0] == SUCCESS_CODE || response[0] == EXTENSION_RESPONSE)
}

/// Whether an answer to an extension request reports success.
pub fn is_extension_answer(response: &[u8]) -> (accepted: bool)
    ensures
        accepted == spec_is_extension_answer(response@),
{
    response.len() > 0 && (response[0] == SUCCESS_CODE || response[0] == EXTENSION_RESPONSE)
}

/// The public-key blob that a signing request names: the length-prefixed
/// string after the message type.
pub open spec fn spec_sign_key(request: Seq<u8>) -> Option<Seq<u8>> {
    if request.len() == 0 {
        None
    } else {
        match spec_read_string(request.skip(1)) {
            Some((key, _)) => Some(key),
            None => None,
        }
    }
}

/// Reads the public-key blob that a signing request names.
pub fn sign_key(request: &[u8]) -> (key: Option<Vec<u8>>)
    ensures
        match key {
            Some(blob) => Some(blob@),
            None => None,
        } == spec_sign_key(request@),
{
    if request.len() == 0 {
        return None;
    }
    match read_string(request, 1) {
        Some((start, end)) => Some(copy_bytes(vstd::slice::slice_subrange(request, start, end))),
        None => None,
    }
}

/// Only identity listings, signatures and the `query` and
/// `session-bind@openssh.com` extensions are forwarded; a signature gets the
/// signing time limit and the others the identity time limit. Every other
/// message type, and every other extension, gets none.
pub proof fn law_only_reads_and_supported_extensions_have_a_time_limit(
    message_type: u8,
    request: Seq<u8>,
    timeouts: Timeouts,
)
    ensures
        ((spec_response_timeout(message_type, request, timeouts) is Some) <==> (message_type == 11
            || message_type == 13 || (message_type == 27 && (spec_extension_name(request) == Some(
            query_name())
            || spec_extension_name(request) == Some(session_bind_name()))))),
        (message_type == 13 ==> spec_response_timeout(message_type, request, timeouts) == Some(
            timeouts.spec_sign())),
        ((message_type != 13 && spec_response_timeout(message_type, request, timeouts) is Some)
            ==> spec_response_timeout(message_type, request, timeouts) == Some(
            timeouts.spec_identities())),
{
}

} // verus!
