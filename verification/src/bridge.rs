//! The bridge into a running Studio: which one it is, and how requests and
//! responses are framed.

use crate::text::{
    chars_of, contains_text, decimal, decimal_text, hex, hex_text, joined, optional_text, push_bytes, starts_with,
    text_bytes, texts,
};
use vstd::prelude::*;
use vstd::string::StringSliceAdditionalSpecFns;

verus! {

/// Why a bridge is refused, or a request to it.
#[derive(Debug)]
pub enum BridgeError {
    InvalidId,
    UnsupportedProtocol,
    BuildMismatch { expected: String, loaded: String },
    OtherBridge,
    NotLoopbackOnly,
    EmptyToken,
    InvalidEndpoint,
    NotHttp,
    NotLoopback,
    NoPort,
    InvalidPort,
    ControlCharacters,
    SuppliesHost,
    NoHeader(u32),
    InvalidMagic(u32),
    NoRange(u32),
    RangeNotUtf8(u32),
    Status { path: String, status: u32, detail: String },
    LengthMismatch { declared: u64, received: u64 },
    RangeOverflow,
    RangeIgnored,
    NoContentRange,
    WrongRange,
    InvalidRangeLength,
    RangeExceedsLength,
    RangeLengthMismatch { requested: u64, received: u64 },
    IdentityMismatch,
    SeveralBridges,
    EmptySession,
    EmptyInstance,
    Unavailable { session: String, instance: String },
    NoneActive,
    SeveralActive,
}

impl BridgeError {
    pub open spec fn text(self) -> Seq<char> {
        match self {
            BridgeError::InvalidId => "invalid RML bridge routing identity"@,
            BridgeError::UnsupportedProtocol => "unsupported RML Carbon bridge protocol"@,
            BridgeError::BuildMismatch { expected, loaded } => "RML bridge build mismatch: expected "@ + expected@
                + ", loaded "@ + loaded@,
            BridgeError::OtherBridge => "RML bridge routing identity mismatch"@,
            BridgeError::NotLoopbackOnly => "RML bridge is not loopback-only"@,
            BridgeError::EmptyToken => "RML bridge discovery token is empty"@,
            BridgeError::InvalidEndpoint => "invalid RML bridge endpoint"@,
            BridgeError::NotHttp => "RML bridge endpoint must use HTTP"@,
            BridgeError::NotLoopback => "RML bridge endpoint is not loopback"@,
            BridgeError::NoPort => "RML bridge endpoint has no port"@,
            BridgeError::InvalidPort => "invalid RML bridge loopback port"@,
            BridgeError::ControlCharacters => "RML bridge request path contains control characters"@,
            BridgeError::SuppliesHost => "RML bridge request path cannot supply a host"@,
            BridgeError::NoHeader(process) => "RML helper process for bridge process "@ + decimal(process as nat)
                + " failed to return framing header: failed to fill whole buffer"@,
            BridgeError::InvalidMagic(process) => "RML bridge process "@ + decimal(process as nat)
                + " helper returned invalid framing magic"@,
            BridgeError::NoRange(process) =>
                "failed to read Content-Range header from RML helper for bridge process "@ + decimal(process as nat)
                + ": failed to fill whole buffer"@,
            BridgeError::RangeNotUtf8(process) => "invalid Content-Range UTF-8 from RML helper for bridge process "@
                + decimal(process as nat),
            BridgeError::Status { path, status, detail } => "RML bridge "@ + path@ + " returned "@ + decimal(
                status as nat,
            ) + ": "@ + detail@,
            BridgeError::LengthMismatch { declared, received } => "RML bridge artifact length mismatch: declared "@
                + decimal(declared as nat) + ", received "@ + decimal(received as nat),
            BridgeError::RangeOverflow => "RML bridge artifact range overflows u64"@,
            BridgeError::RangeIgnored => "RML bridge ignored the requested artifact byte range"@,
            BridgeError::NoContentRange => "RML bridge range response has no Content-Range header"@,
            BridgeError::WrongRange => "RML bridge returned the wrong artifact byte range"@,
            BridgeError::InvalidRangeLength => "RML bridge returned an invalid artifact range length"@,
            BridgeError::RangeExceedsLength => "RML bridge artifact range exceeds its published length"@,
            BridgeError::RangeLengthMismatch { requested, received } =>
                "RML bridge artifact range length mismatch: requested "@ + decimal(requested as nat)
                + ", received "@ + decimal(received as nat),
            BridgeError::IdentityMismatch => "RML bridge identity response does not match its discovery record"@,
            BridgeError::SeveralBridges => "multiple RML bridges claimed the same Carbon Studio session"@,
            BridgeError::EmptySession => "Carbon Studio session identity is empty"@,
            BridgeError::EmptyInstance => "Carbon Studio instance identity is empty"@,
            BridgeError::Unavailable { session, instance } => "RML bridge for Studio session "@ + session@ + " ("@
                + instance@ + ") is unavailable"@,
            BridgeError::NoneActive => "timed out waiting for an active RML Studio bridge"@,
            BridgeError::SeveralActive =>
                "multiple active RML Studio bridges are available; close unrelated Studio processes and retry"@,
        }
    }

    pub fn message(&self) -> (message: String)
        ensures
            message@ == self.text(),
    {
        match self {
            BridgeError::InvalidId => "invalid RML bridge routing identity".to_owned(),
            BridgeError::UnsupportedProtocol => "unsupported RML Carbon bridge protocol".to_owned(),
            BridgeError::BuildMismatch { expected, loaded } => joined(joined(joined("RML bridge build mismatch: expected ", expected.as_str()).as_str(), ", loaded ").as_str(), loaded.as_str()),
            BridgeError::OtherBridge => "RML bridge routing identity mismatch".to_owned(),
            BridgeError::NotLoopbackOnly => "RML bridge is not loopback-only".to_owned(),
            BridgeError::EmptyToken => "RML bridge discovery token is empty".to_owned(),
            BridgeError::InvalidEndpoint => "invalid RML bridge endpoint".to_owned(),
            BridgeError::NotHttp => "RML bridge endpoint must use HTTP".to_owned(),
            BridgeError::NotLoopback => "RML bridge endpoint is not loopback".to_owned(),
            BridgeError::NoPort => "RML bridge endpoint has no port".to_owned(),
            BridgeError::InvalidPort => "invalid RML bridge loopback port".to_owned(),
            BridgeError::ControlCharacters => "RML bridge request path contains control characters".to_owned(),
            BridgeError::SuppliesHost => "RML bridge request path cannot supply a host".to_owned(),
            BridgeError::NoHeader(process) => joined(joined("RML helper process for bridge process ", decimal_text(*process as u64).as_str()).as_str(), " failed to return framing header: failed to fill whole buffer"),
            BridgeError::InvalidMagic(process) => joined(joined("RML bridge process ", decimal_text(*process as u64).as_str()).as_str(), " helper returned invalid framing magic"),
            BridgeError::NoRange(process) => joined(joined("failed to read Content-Range header from RML helper for bridge process ", decimal_text(*process as u64).as_str()).as_str(), ": failed to fill whole buffer"),
            BridgeError::RangeNotUtf8(process) => joined("invalid Content-Range UTF-8 from RML helper for bridge process ", decimal_text(*process as u64).as_str()),
            BridgeError::Status { path, status, detail } => joined(joined(joined(joined(joined("RML bridge ", path.as_str()).as_str(), " returned ").as_str(), decimal_text(*status as u64).as_str()).as_str(), ": ").as_str(), detail.as_str()),
            BridgeError::LengthMismatch { declared, received } => joined(joined(joined("RML bridge artifact length mismatch: declared ", decimal_text(*declared as u64).as_str()).as_str(), ", received ").as_str(), decimal_text(*received as u64).as_str()),
            BridgeError::RangeOverflow => "RML bridge artifact range overflows u64".to_owned(),
            BridgeError::RangeIgnored => "RML bridge ignored the requested artifact byte range".to_owned(),
            BridgeError::NoContentRange => "RML bridge range response has no Content-Range header".to_owned(),
            BridgeError::WrongRange => "RML bridge returned the wrong artifact byte range".to_owned(),
            BridgeError::InvalidRangeLength => "RML bridge returned an invalid artifact range length".to_owned(),
            BridgeError::RangeExceedsLength => "RML bridge artifact range exceeds its published length".to_owned(),
            BridgeError::RangeLengthMismatch { requested, received } => joined(joined(joined("RML bridge artifact range length mismatch: requested ", decimal_text(*requested as u64).as_str()).as_str(), ", received ").as_str(), decimal_text(*received as u64).as_str()),
            BridgeError::IdentityMismatch => "RML bridge identity response does not match its discovery record".to_owned(),
            BridgeError::SeveralBridges => "multiple RML bridges claimed the same Carbon Studio session".to_owned(),
            BridgeError::EmptySession => "Carbon Studio session identity is empty".to_owned(),
            BridgeError::EmptyInstance => "Carbon Studio instance identity is empty".to_owned(),
            BridgeError::Unavailable { session, instance } => joined(joined(joined(joined("RML bridge for Studio session ", session.as_str()).as_str(), " (").as_str(), instance.as_str()).as_str(), ") is unavailable"),
            BridgeError::NoneActive => "timed out waiting for an active RML Studio bridge".to_owned(),
            BridgeError::SeveralActive => "multiple active RML Studio bridges are available; close unrelated Studio processes and retry".to_owned(),
        }
    }
}

// ---------------------------------------------------------------------------
// Discovery

/// The record that a bridge leaves of itself.
#[derive(Debug)]
pub struct Discovery {
    pub protocol_version: u32,
    pub rml_build_version: String,
    pub bridge_id: String,
    pub endpoint: String,
    pub token: String,
    pub process_id: u32,
    pub studio_session_id: Option<String>,
    pub instance_id: Option<String>,
}

/// What a bridge says of itself, as far as it is told apart by it.
#[derive(Debug)]
pub struct Capabilities {
    pub bridge_id: String,
    pub process_id: u32,
    pub engine_ready: bool,
    pub engine_generation: u64,
}

/// Which Studio answers at a bridge.
#[derive(Debug)]
pub struct StudioIdentity {
    pub studio_session_id: String,
    pub instance_id: String,
    pub bridge_id: String,
    pub process_id: u32,
}

/// The bridge answers for its own record, and for the process that is asked for.
pub open spec fn loaded(discovery: Discovery, capabilities: Capabilities, process_id: Option<u32>) -> bool {
    &&& capabilities.bridge_id@ == discovery.bridge_id@
    &&& capabilities.process_id == discovery.process_id
    &&& process_id matches Some(expected) ==> capabilities.process_id == expected
}

pub fn is_loaded_bridge(discovery: &Discovery, capabilities: &Capabilities, process_id: Option<u32>) -> (is: bool)
    ensures
        is == loaded(*discovery, *capabilities, process_id),
{
    capabilities.bridge_id.as_str().eq(discovery.bridge_id.as_str()) && capabilities.process_id
        == discovery.process_id && (match process_id {
        Some(expected) => capabilities.process_id == expected,
        None => true,
    })
}

/// Whether a bridge is loaded and has an engine generation attached.
pub fn is_ready_bridge(discovery: &Discovery, capabilities: &Capabilities, process_id: Option<u32>) -> (is: bool)
    ensures
        is == (loaded(*discovery, *capabilities, process_id) && capabilities.engine_ready
            && capabilities.engine_generation != 0),
{
    is_loaded_bridge(discovery, capabilities, process_id) && capabilities.engine_ready
        && capabilities.engine_generation != 0
}

/// A hexadecimal digit.
pub open spec fn is_hex_char(c: char) -> bool {
    ('0' <= c && c <= '9') || ('a' <= c && c <= 'f') || ('A' <= c && c <= 'F')
}

/// The identity of a bridge: 32 hexadecimal digits, so that it is safe in a path.
pub open spec fn valid_bridge_id(id: Seq<char>) -> bool {
    id.len() == 32 && forall|k: int| 0 <= k < id.len() ==> is_hex_char(#[trigger] id[k])
}

pub fn validate_bridge_id(bridge_id: &str) -> (result: Result<(), BridgeError>)
    ensures
        valid_bridge_id(bridge_id@) ==> result is Ok,
        !valid_bridge_id(bridge_id@) ==> result == Err::<(), BridgeError>(BridgeError::InvalidId),
{
    let chars: Vec<char> = chars_of(bridge_id);
    if chars.len() != 32 {
        return Err(BridgeError::InvalidId);
    }
    let mut at: usize = 0;
    while at < chars.len()
        invariant
            at <= chars@.len(),
            chars@ == bridge_id@,
            forall|k: int| 0 <= k < at ==> is_hex_char(#[trigger] bridge_id@[k]),
        decreases chars@.len() - at,
    {
        let c: char = chars[at];
        if !(('0' <= c && c <= '9') || ('a' <= c && c <= 'f') || ('A' <= c && c <= 'F')) {
            proof {
                assert(!is_hex_char(bridge_id@[at as int]));
            }
            return Err(BridgeError::InvalidId);
        }
        at = at + 1;
    }
    Ok(())
}

/// Whether a record claims a Studio: both identities are exactly it.
pub fn discovery_claims_studio(discovery: &Discovery, studio_session_id: &str, instance_id: &str) -> (claims: bool)
    ensures
        claims == (optional_text(discovery.studio_session_id) == Some(studio_session_id@) && optional_text(
            discovery.instance_id,
        ) == Some(instance_id@)),
{
    let session: bool = match &discovery.studio_session_id {
        Some(session) => session.as_str().eq(studio_session_id),
        None => false,
    };
    let instance: bool = match &discovery.instance_id {
        Some(instance) => instance.as_str().eq(instance_id),
        None => false,
    };
    session && instance
}

/// The FNV-1a hash of bytes.
pub open spec fn fnv(bytes: Seq<u8>) -> u64
    decreases bytes.len(),
{
    if bytes.len() == 0 {
        14_695_981_039_346_656_037
    } else {
        (fnv(bytes.drop_last()) ^ (bytes.last() as u64)).wrapping_mul(1_099_511_628_211)
    }
}

/// The key under which the bridges of a Studio are indexed: the FNV-1a hash of its
/// two identities, a line each.
pub fn studio_route_key(studio_session_id: &str, instance_id: &str) -> (key: String)
    ensures
        key@ == hex(fnv(text_bytes(studio_session_id@).push(10u8) + text_bytes(instance_id@)) as nat, 16),
{
    let mut bytes: Vec<u8> = Vec::new();
    push_bytes(&mut bytes, studio_session_id.as_bytes());
    bytes.push(10u8);
    push_bytes(&mut bytes, instance_id.as_bytes());
    proof {
        assert(bytes@ =~= text_bytes(studio_session_id@).push(10u8) + text_bytes(instance_id@));
        assert(bytes@.take(0) =~= Seq::empty());
    }
    let mut hash: u64 = 14_695_981_039_346_656_037;
    let mut at: usize = 0;
    while at < bytes.len()
        invariant
            at <= bytes@.len(),
            hash == fnv(bytes@.take(at as int)),
        decreases bytes@.len() - at,
    {
        proof {
            assert(bytes@.take(at + 1).drop_last() =~= bytes@.take(at as int));
            assert(bytes@.take(at + 1).last() == bytes@[at as int]);
        }
        hash = (hash ^ (bytes[at] as u64)).wrapping_mul(1_099_511_628_211);
        at = at + 1;
    }
    proof {
        assert(bytes@.take(bytes@.len() as int) =~= bytes@);
    }
    hex_text(hash as u128, 16)
}

/// What `reqwest::Url` reads in a text: scheme, host and port, where it is a URL.
pub uninterp spec fn url_parts(text: Seq<char>) -> Option<(Seq<char>, Option<Seq<char>>, Option<u16>)>;

/// What was read in a URL.
pub struct UrlParts {
    pub scheme: String,
    pub host: Option<String>,
    pub port: Option<u16>,
}

/// `reqwest::Url::parse`, and of its result `scheme`, `host_str` and `port`: what
/// they give is a function of the text alone.
#[verifier::external_body]
fn read_url(text: &str) -> (parts: Option<UrlParts>)
    ensures
        match url_parts(text@) {
            Some((scheme, host, port)) => parts matches Some(parts) && parts.scheme@ == scheme && optional_text(
                parts.host,
            ) == host && parts.port == port,
            None => parts is None,
        },
{
    let url = reqwest::Url::parse(text).ok()?;
    Some(UrlParts {
        scheme: url.scheme().to_owned(),
        host: url.host_str().map(str::to_owned),
        port: url.port(),
    })
}

/// The port of an endpoint on this machine, or why it is none.
pub open spec fn loopback_port(
    endpoint: Seq<char>,
    parts: Option<(Seq<char>, Option<Seq<char>>, Option<u16>)>,
) -> Result<u16, BridgeError> {
    if !"http://127.0.0.1:"@.is_prefix_of(endpoint) {
        Err(BridgeError::NotLoopbackOnly)
    } else {
        match parts {
            None => Err(BridgeError::InvalidEndpoint),
            Some((scheme, host, port)) => if scheme != "http"@ {
                Err(BridgeError::NotHttp)
            } else if host != Some("127.0.0.1"@) {
                Err(BridgeError::NotLoopback)
            } else {
                match port {
                    None => Err(BridgeError::NoPort),
                    Some(port) => if port >= 1 {
                        Ok(port)
                    } else {
                        Err(BridgeError::InvalidPort)
                    },
                }
            },
        }
    }
}

/// Judges an endpoint by what was read in it.
pub fn judge_endpoint(endpoint: &str, parts: Option<UrlParts>) -> (port: Result<u16, BridgeError>)
    ensures
        port == loopback_port(
            endpoint@,
            match parts {
                Some(parts) => Some((parts.scheme@, optional_text(parts.host), parts.port)),
                None => None,
            },
        ),
{
    if !starts_with(endpoint, "http://127.0.0.1:") {
        return Err(BridgeError::NotLoopbackOnly);
    }
    match parts {
        None => Err(BridgeError::InvalidEndpoint),
        Some(parts) => {
            if !parts.scheme.as_str().eq("http") {
                return Err(BridgeError::NotHttp);
            }
            let local: bool = match &parts.host {
                Some(host) => host.as_str().eq("127.0.0.1"),
                None => false,
            };
            if !local {
                return Err(BridgeError::NotLoopback);
            }
            match parts.port {
                None => Err(BridgeError::NoPort),
                Some(port) => if port >= 1 {
                    Ok(port)
                } else {
                    Err(BridgeError::InvalidPort)
                },
            }
        },
    }
}

/// The port of an endpoint on this machine.
pub fn parse_loopback_port(endpoint: &str) -> (port: Result<u16, BridgeError>)
    ensures
        port == loopback_port(endpoint@, url_parts(endpoint@)),
{
    judge_endpoint(endpoint, read_url(endpoint))
}

/// Why a record is refused, before its endpoint is read.
pub open spec fn refused_record(discovery: Discovery, expected: Option<Seq<char>>, build: Seq<char>) -> Option<Seq<char>> {
    if discovery.protocol_version != 2 {
        Some(BridgeError::UnsupportedProtocol.text())
    } else if discovery.rml_build_version@ != build {
        Some("RML bridge build mismatch: expected "@ + build + ", loaded "@ + discovery.rml_build_version@)
    } else if !valid_bridge_id(discovery.bridge_id@) {
        Some(BridgeError::InvalidId.text())
    } else if expected is Some && discovery.bridge_id@ != expected->0 {
        Some(BridgeError::OtherBridge.text())
    } else if !"http://127.0.0.1:"@.is_prefix_of(discovery.endpoint@) {
        Some(BridgeError::NotLoopbackOnly.text())
    } else if discovery.token@.len() == 0 {
        Some(BridgeError::EmptyToken.text())
    } else {
        None
    }
}

/// Judges a record before anything is sent to the bridge: the protocol, the build,
/// the identity, the endpoint and the token. The result is the port.
pub fn validate_discovery(discovery: &Discovery, expected_bridge_id: &Option<String>, build_version: &str) -> (port:
    Result<u16, BridgeError>)
    ensures
        match refused_record(*discovery, optional_text(*expected_bridge_id), build_version@) {
            Some(text) => port matches Err(error) && error.text() == text,
            None => port == loopback_port(discovery.endpoint@, url_parts(discovery.endpoint@)),
        },
{
    if discovery.protocol_version != 2 {
        return Err(BridgeError::UnsupportedProtocol);
    }
    if !discovery.rml_build_version.as_str().eq(build_version) {
        return Err(
            BridgeError::BuildMismatch {
                expected: build_version.to_owned(),
                loaded: discovery.rml_build_version.clone(),
            },
        );
    }
    match validate_bridge_id(discovery.bridge_id.as_str()) {
        Ok(()) => {},
        Err(error) => {
            return Err(error);
        },
    }
    match expected_bridge_id {
        Some(expected) => if !discovery.bridge_id.as_str().eq(expected.as_str()) {
            return Err(BridgeError::OtherBridge);
        },
        None => {},
    }
    if !starts_with(discovery.endpoint.as_str(), "http://127.0.0.1:") {
        return Err(BridgeError::NotLoopbackOnly);
    }
    if discovery.token.as_str().unicode_len() == 0 {
        return Err(BridgeError::EmptyToken);
    }
    parse_loopback_port(discovery.endpoint.as_str())
}

/// How many times an exact record is looked for.
pub const EXACT_DISCOVERY_ATTEMPTS: usize = 5;

/// How long to wait between two looks, in milliseconds.
pub const EXACT_DISCOVERY_RETRY_DELAY: u64 = 50;

/// Why a bridge was not found.
#[derive(Debug)]
pub enum DiscoveryError {
    /// The record is not there.
    Missing(String),
    Other(String),
}

/// What follows from one look for a record.
pub enum DiscoveryStep<T> {
    Done(T),
    /// Wait that many milliseconds and look again.
    Wait(u64),
    Failed(DiscoveryError),
}

/// One round of looking for an exact record; attempts are counted from one. A
/// missing record may be about to be replaced; an invalid one is not looked at
/// again.
pub fn retry_exact_bridge_discovery<T>(found: Result<T, DiscoveryError>, attempt: usize) -> (step: DiscoveryStep<T>)
    ensures
        match found {
            Ok(value) => step == DiscoveryStep::Done(value),
            Err(error) => if attempt < EXACT_DISCOVERY_ATTEMPTS && error is Missing {
                step == DiscoveryStep::<T>::Wait(EXACT_DISCOVERY_RETRY_DELAY)
            } else {
                step == DiscoveryStep::<T>::Failed(error)
            },
        },
{
    match found {
        Ok(value) => DiscoveryStep::Done(value),
        Err(error) => match error {
            DiscoveryError::Missing(reason) => if attempt < EXACT_DISCOVERY_ATTEMPTS {
                DiscoveryStep::Wait(EXACT_DISCOVERY_RETRY_DELAY)
            } else {
                DiscoveryStep::Failed(DiscoveryError::Missing(reason))
            },
            DiscoveryError::Other(reason) => DiscoveryStep::Failed(DiscoveryError::Other(reason)),
        },
    }
}

/// A bridge that answered: its record and what it says it is.
pub struct ProbedBridge {
    pub bridge_id: String,
    pub process_id: u32,
    pub identity: StudioIdentity,
}

/// The bridge answers for the Studio.
pub open spec fn answers_for(probed: ProbedBridge, session: Seq<char>, instance: Seq<char>) -> bool {
    probed.identity.studio_session_id@ == session && probed.identity.instance_id@ == instance
}

/// The one bridge that answers for a Studio.
pub open spec fn studio_bridge(probes: Seq<ProbedBridge>, session: Seq<char>, instance: Seq<char>) -> Result<
    Option<Seq<char>>,
    BridgeError,
>
    decreases probes.len(),
{
    if probes.len() == 0 {
        Ok(None)
    } else {
        match studio_bridge(probes.drop_last(), session, instance) {
            Err(error) => Err(error),
            Ok(matched) => {
                let probed = probes.last();
                if !answers_for(probed, session, instance) {
                    Ok(matched)
                } else if !(probed.identity.bridge_id@ == probed.bridge_id@ && probed.identity.process_id
                    == probed.process_id) {
                    Err(BridgeError::IdentityMismatch)
                } else if matched is Some {
                    Err(BridgeError::SeveralBridges)
                } else {
                    Ok(Some(probed.bridge_id@))
                }
            },
        }
    }
}

proof fn lemma_studio_bridge_fails(probes: Seq<ProbedBridge>, at: int, session: Seq<char>, instance: Seq<char>)
    requires
        0 <= at <= probes.len(),
        studio_bridge(probes.take(at), session, instance) is Err,
    ensures
        studio_bridge(probes, session, instance) == studio_bridge(probes.take(at), session, instance),
    decreases probes.len(),
{
    if at == probes.len() {
        assert(probes.take(at) =~= probes);
    } else {
        assert(probes.drop_last().take(at) =~= probes.take(at));
        lemma_studio_bridge_fails(probes.drop_last(), at, session, instance);
    }
}

/// Finds the bridge that answers for a Studio: at most one may.
pub fn match_studio(probes: &Vec<ProbedBridge>, studio_session_id: &str, instance_id: &str) -> (matched: Result<
    Option<String>,
    BridgeError,
>)
    ensures
        match studio_bridge(probes@, studio_session_id@, instance_id@) {
            Ok(expected) => matched matches Ok(found) && optional_text(found) == expected,
            Err(error) => matched == Err::<Option<String>, BridgeError>(error),
        },
{
    let mut matched: Option<String> = None;
    let mut at: usize = 0;
    proof {
        assert(probes@.take(0) =~= Seq::empty());
    }
    while at < probes.len()
        invariant
            at <= probes@.len(),
            studio_bridge(probes@.take(at as int), studio_session_id@, instance_id@) == Ok::<
                Option<Seq<char>>,
                BridgeError,
            >(optional_text(matched)),
        decreases probes@.len() - at,
    {
        let probed: &ProbedBridge = &probes[at];
        proof {
            assert(probes@.take(at + 1).drop_last() =~= probes@.take(at as int));
            assert(probes@.take(at + 1).last() == *probed);
        }
        if probed.identity.studio_session_id.as_str().eq(studio_session_id) && probed.identity.instance_id.as_str().eq(
            instance_id,
        ) {
            if !(probed.identity.bridge_id.as_str().eq(probed.bridge_id.as_str()) && probed.identity.process_id
                == probed.process_id) {
                proof {
                    lemma_studio_bridge_fails(probes@, at + 1, studio_session_id@, instance_id@);
                }
                return Err(BridgeError::IdentityMismatch);
            }
            if matched.is_some() {
                proof {
                    lemma_studio_bridge_fails(probes@, at + 1, studio_session_id@, instance_id@);
                }
                return Err(BridgeError::SeveralBridges);
            }
            matched = Some(probed.bridge_id.clone());
        }
        at = at + 1;
    }
    proof {
        assert(probes@.take(probes@.len() as int) =~= probes@);
    }
    Ok(matched)
}

/// What follows from one search for the bridge of a Studio.
pub enum StudioStep {
    /// Discover that bridge.
    Discover(String),
    /// Wait that many milliseconds and search again.
    Wait(u64),
    Failed(BridgeError),
}

/// One round of searching for the bridge of a Studio, three in all; attempts are
/// counted from zero.
pub fn discover_studio(
    probes: &Vec<ProbedBridge>,
    studio_session_id: &str,
    instance_id: &str,
    attempt: usize,
) -> (step: StudioStep)
    ensures
        if studio_session_id@.len() == 0 {
            step == StudioStep::Failed(BridgeError::EmptySession)
        } else if instance_id@.len() == 0 {
            step == StudioStep::Failed(BridgeError::EmptyInstance)
        } else {
            match studio_bridge(probes@, studio_session_id@, instance_id@) {
                Err(error) => step == StudioStep::Failed(error),
                Ok(Some(id)) => step matches StudioStep::Discover(found) && found@ == id,
                Ok(None) => if attempt < 2 {
                    step == StudioStep::Wait(100)
                } else {
                    step matches StudioStep::Failed(BridgeError::Unavailable { session, instance }) && session@
                        == studio_session_id@ && instance@ == instance_id@
                },
            }
        },
{
    if studio_session_id.unicode_len() == 0 {
        return StudioStep::Failed(BridgeError::EmptySession);
    }
    if instance_id.unicode_len() == 0 {
        return StudioStep::Failed(BridgeError::EmptyInstance);
    }
    match match_studio(probes, studio_session_id, instance_id) {
        Err(error) => StudioStep::Failed(error),
        Ok(matched) => match matched {
            Some(id) => StudioStep::Discover(id),
            None => if attempt < 2 {
                StudioStep::Wait(100)
            } else {
                StudioStep::Failed(
                    BridgeError::Unavailable {
                        session: studio_session_id.to_owned(),
                        instance: instance_id.to_owned(),
                    },
                )
            },
        },
    }
}

/// Those of a list that another list does not have.
pub open spec fn without(list: Seq<Seq<char>>, excluded: Seq<Seq<char>>) -> Seq<Seq<char>>
    decreases list.len(),
{
    if list.len() == 0 {
        Seq::empty()
    } else if excluded.contains(list.last()) {
        without(list.drop_last(), excluded)
    } else {
        without(list.drop_last(), excluded).push(list.last())
    }
}

/// One round of waiting for an active bridge other than those that are excluded:
/// exactly one may be there.
pub fn wait_for_active(active: &Vec<String>, excluded: &Vec<String>, expired: bool) -> (step: StudioStep)
    ensures
        ({
            let candidates = without(texts(active@), texts(excluded@));
            if candidates.len() == 1 {
                step matches StudioStep::Discover(id) && id@ == candidates[0]
            } else if candidates.len() > 1 {
                step == StudioStep::Failed(BridgeError::SeveralActive)
            } else if expired {
                step == StudioStep::Failed(BridgeError::NoneActive)
            } else {
                step == StudioStep::Wait(250)
            }
        }),
{
    let mut candidates: Vec<String> = Vec::new();
    let ghost all = texts(active@);
    let mut at: usize = 0;
    proof {
        assert(all.take(0) =~= Seq::empty());
        assert(texts(candidates@) =~= Seq::empty());
    }
    while at < active.len()
        invariant
            at <= active@.len(),
            all == texts(active@),
            texts(candidates@) == without(all.take(at as int), texts(excluded@)),
        decreases active@.len() - at,
    {
        proof {
            assert(all.take(at + 1).drop_last() =~= all.take(at as int));
            assert(all.take(at + 1).last() == active@[at as int]@);
        }
        let ghost before = texts(candidates@);
        if !contains_text(excluded, active[at].as_str()) {
            candidates.push(active[at].clone());
            proof {
                assert(texts(candidates@) =~= before.push(active@[at as int]@));
            }
        }
        at = at + 1;
    }
    proof {
        assert(all.take(active@.len() as int) =~= all);
    }
    if candidates.len() == 1 {
        proof {
            assert(texts(candidates@)[0] == candidates@[0]@);
        }
        StudioStep::Discover(candidates[0].clone())
    } else if candidates.len() > 1 {
        StudioStep::Failed(BridgeError::SeveralActive)
    } else if expired {
        StudioStep::Failed(BridgeError::NoneActive)
    } else {
        StudioStep::Wait(250)
    }
}

/// Whether a record, read again just now, belongs to a launch that exited: the
/// process and the bridge must both be it.
pub fn owns_record(current: &Option<Discovery>, process_id: u32, bridge_id: &str) -> (owns: bool)
    ensures
        owns == (current matches Some(current) && current.process_id == process_id && current.bridge_id@
            == bridge_id@),
{
    match current {
        Some(current) => current.process_id == process_id && current.bridge_id.as_str().eq(bridge_id),
        None => false,
    }
}

} // verus!
