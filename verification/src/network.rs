//! Plain data carried by the peer-to-peer layer: the payload envelope, the
//! network configuration, the one-way message codec's settings, and the
//! protocol identifier.  The transport itself is an external collaborator.

use crate::deploy::TimeDiff;
use vstd::prelude::*;
use vstd::string::StringExecFns;

verus! {

/// An envelope for one payload sent to a peer.
#[derive(Clone, Debug)]
pub struct Message<P>(P);

impl<P> Message<P> {
    /// The carried payload.
    pub closed spec fn spec_payload(&self) -> P {
        self.0
    }

    /// Wraps a payload for sending.
    pub fn new(payload: P) -> (m: Message<P>)
        ensures
            m.spec_payload() == payload,
    {
        Message(payload)
    }

    /// Unwraps the payload.
    pub fn into_payload(self) -> (p: P)
        ensures
            p == self.spec_payload(),
    {
        self.0
    }
}

/// Peer-to-peer network configuration.
#[derive(Clone, Debug)]
pub struct Config {
    /// Address to bind to.
    pub bind_address: String,
    /// Known address of a node on the network used for joining.
    pub known_addresses: Vec<String>,
    /// Enable systemd startup notification.
    pub systemd_support: bool,
    /// The timeout for connection setup (including upgrades) for all inbound
    /// and outbound connections.
    pub connection_setup_timeout: TimeDiff,
    /// The maximum serialized one-way message size in bytes.
    pub max_one_way_message_size: u32,
    /// The timeout for inbound and outbound requests.
    pub request_timeout: TimeDiff,
    /// The keep-alive timeout of idle connections.
    pub connection_keep_alive: TimeDiff,
    /// Interval used for gossip heartbeats.
    pub gossip_heartbeat_interval: TimeDiff,
    /// Maximum serialized gossip message size in bytes.
    pub gossip_max_message_size: u32,
    /// Time for which to retain a cached gossip message ID to prevent
    /// duplicates being gossiped.
    pub gossip_duplicate_cache_timeout: TimeDiff,
}

impl Default for Config {
    /// The default configuration: ten-second connection and request
    /// timeouts, a five-minute keep-alive, one-megabyte one-way messages and
    /// 256-kilobyte gossip messages.
    fn default() -> (c: Config)
        ensures
            c.bind_address@ == "0.0.0.0:22777"@,
            c.known_addresses@.len() == 0,
            !c.systemd_support,
            c.connection_setup_timeout.millis() == 10_000,
            c.max_one_way_message_size == 1024 * 1024,
            c.request_timeout.millis() == 10_000,
            c.connection_keep_alive.millis() == 300_000,
            c.gossip_heartbeat_interval.millis() == 10_000,
            c.gossip_max_message_size == 256 * 1024,
            c.gossip_duplicate_cache_timeout.millis() == 60_000,
    {
        Config {
            bind_address: String::from_str("0.0.0.0:22777"),
            known_addresses: Vec::new(),
            systemd_support: false,
            connection_setup_timeout: TimeDiff::from_millis(10_000),
            max_one_way_message_size: 1024 * 1024,
            request_timeout: TimeDiff::from_millis(10_000),
            connection_keep_alive: TimeDiff::from_millis(300_000),
            gossip_heartbeat_interval: TimeDiff::from_millis(10_000),
            gossip_max_message_size: 256 * 1024,
            gossip_duplicate_cache_timeout: TimeDiff::from_millis(60_000),
        }
    }
}

/// Settings of the codec for one-way messages: requests which expect no
/// response.
#[derive(Debug, Clone, Copy)]
pub struct Codec {
    max_message_size: u32,
}

impl Codec {
    /// The size cap applied to serialized messages.
    pub closed spec fn spec_max_message_size(&self) -> u32 {
        self.max_message_size
    }

    /// The size cap applied to serialized messages.
    pub fn max_message_size(&self) -> (n: u32)
        ensures
            n == self.spec_max_message_size(),
    {
        self.max_message_size
    }
}

impl<'a> From<&'a Config> for Codec {
    /// Takes the one-way message size cap from the configuration.
    fn from(config: &'a Config) -> (c: Codec) {
        Codec { max_message_size: config.max_one_way_message_size }
    }
}

impl<'a> vstd::std_specs::convert::FromSpecImpl<&'a Config> for Codec {
    open spec fn obeys_from_spec() -> bool {
        true
    }

    closed spec fn from_spec(v: &'a Config) -> Codec {
        Codec { max_message_size: v.max_one_way_message_size }
    }
}

/// The longest protocol ID the transport accepts, in bytes.
pub const MAX_PROTOCOL_ID_LENGTH: usize = 140;

/// The characters of a protocol ID built from a chain name, a protocol name
/// and a protocol version.
pub open spec fn protocol_id_chars(
    chain_name: Seq<char>,
    name: Seq<char>,
    protocol_version: Seq<char>,
) -> Seq<char> {
    "/casper/"@ + chain_name + "/"@ + name + "/"@ + protocol_version
}

/// The protocol ID for the one-way message codec.
#[derive(Clone, Debug)]
pub struct ProtocolId {
    id: String,
}

impl ProtocolId {
    /// The identifier's characters.
    pub closed spec fn spec_id(&self) -> Seq<char> {
        self.id@
    }

    /// Builds the identifier from the chain's name, the protocol's name and
    /// the protocol version.  The caller keeps the result within the
    /// transport's length cap.
    pub fn new(chain_name: &str, name: &str, protocol_version: &str) -> (r: ProtocolId)
        requires
            vstd::utf8::encode_utf8(
                protocol_id_chars(chain_name@, name@, protocol_version@),
            ).len() <= MAX_PROTOCOL_ID_LENGTH,
        ensures
            r.spec_id() == protocol_id_chars(chain_name@, name@, protocol_version@),
    {
        let mut id = String::from_str("/casper/");
        id.append(chain_name);
        id.append("/");
        id.append(name);
        id.append("/");
        id.append(protocol_version);
        ProtocolId { id }
    }

    /// The identifier's bytes, as the transport sees them.
    pub fn protocol_name(&self) -> (r: &[u8])
        ensures
            r@ == vstd::utf8::encode_utf8(self.spec_id()),
    {
        self.id.as_str().as_bytes()
    }
}

} // verus!
