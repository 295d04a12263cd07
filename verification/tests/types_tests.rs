use casper_state::bytesrepr::{deserialize, serialize, Error, ToBytes};
use casper_state::deploy::{
    Approval, DeployHash, DeployHeader, PublicKey, Signature, TimeDiff, Timestamp,
};
use casper_state::digest::hash;
use casper_state::named_key::NamedKey;
use casper_state::network::{Codec, Config, Message, ProtocolId};
use casper_state::phase::Phase;
use casper_state::ratio::Ratio;

#[test]
fn should_not_serialize_zero_denominator() {
    let malicious = Ratio::new_raw(1, 0);
    assert_eq!(serialize(&malicious).unwrap_err(), Error::Formatting);
}

#[test]
fn should_not_deserialize_zero_denominator() {
    let malicious_bytes = serialize(&(1u64, 0u64)).unwrap();
    let result: Result<Ratio, Error> = deserialize(malicious_bytes);
    assert_eq!(result.unwrap_err(), Error::Formatting);
}

#[test]
fn test_ratio_u64() {
    let r = Ratio::new_raw(10, 3);
    let bytes = serialize(&r).unwrap();
    assert_eq!(bytes.len(), 16);
    let back: Ratio = deserialize(bytes).unwrap();
    assert_eq!(back, r);
}

#[test]
fn ratio_new_reduces() {
    let r = Ratio::new(10, 4);
    assert_eq!(r.numer(), 5);
    assert_eq!(r.denom(), 2);
    let one_half = Ratio::new(1, 2);
    assert_eq!(one_half.numer(), 1);
    assert_eq!(one_half.denom(), 2);
}

#[test]
fn test_phase_serialization() {
    for phase in [
        Phase::System,
        Phase::Payment,
        Phase::Session,
        Phase::FinalizePayment,
    ] {
        let bytes = serialize(&phase).unwrap();
        assert_eq!(bytes.len(), 1);
        let back: Phase = deserialize(bytes).unwrap();
        assert_eq!(back, phase);
    }
    assert_eq!(serialize(&Phase::Session).unwrap(), vec![2u8]);
    let bad: Result<Phase, Error> = deserialize(vec![4u8]);
    assert_eq!(bad.unwrap_err(), Error::Formatting);
}

#[test]
fn test_uref_map() {
    // Named keys round-trip, name then key, each length-prefixed.
    let nk = NamedKey {
        name: String::from("counter"),
        key: String::from("uref-0102"),
    };
    let bytes = serialize(&nk).unwrap();
    assert_eq!(bytes.len(), nk.serialized_length());
    let back: NamedKey = deserialize(bytes).unwrap();
    assert_eq!(back, nk);
}

#[test]
fn deploy_hash_roundtrip() {
    let d = DeployHash::new(hash(b"deploy"));
    let bytes = serialize(&d).unwrap();
    assert_eq!(bytes.len(), 32);
    let back: DeployHash = deserialize(bytes).unwrap();
    assert_eq!(back, d);
    assert!(d.inner().equals(&hash(b"deploy")));
}

fn example_header() -> DeployHeader {
    DeployHeader::new(
        PublicKey::Ed25519([7u8; 32]),
        Timestamp::from_millis(1_600_000_000_000),
        TimeDiff::from_millis(3_600_000),
        2,
        hash(b"body"),
        vec![DeployHash::new(hash(b"dep1")), DeployHash::new(hash(b"dep2"))],
        String::from("casper-example"),
    )
}

#[test]
fn deploy_header_roundtrip() {
    let header = example_header();
    let bytes = serialize(&header).unwrap();
    assert_eq!(bytes.len(), header.serialized_length());
    let back: DeployHeader = deserialize(bytes).unwrap();
    assert_eq!(back, header);
}

#[test]
fn deploy_header_getters() {
    let header = example_header();
    assert_eq!(*header.account(), PublicKey::Ed25519([7u8; 32]));
    assert_eq!(header.timestamp(), Timestamp::from_millis(1_600_000_000_000));
    assert_eq!(header.ttl(), TimeDiff::from_millis(3_600_000));
    assert_eq!(header.gas_price(), 2);
    assert!(header.body_hash().equals(&hash(b"body")));
    assert_eq!(header.dependencies().len(), 2);
    assert_eq!(header.chain_name(), "casper-example");
    assert_eq!(
        header.expires(),
        Timestamp::from_millis(1_600_003_600_000)
    );
    assert!(!header.expired(Timestamp::from_millis(1_600_003_600_000)));
    assert!(header.expired(Timestamp::from_millis(1_600_003_600_001)));
}

#[test]
fn serialize_header_matches_codec() {
    let header = example_header();
    let bytes = casper_state::deploy::serialize_header(&header);
    assert_eq!(bytes, serialize(&header).unwrap());
}

#[test]
fn approval_roundtrip() {
    let approval = Approval::new(
        PublicKey::Secp256k1([3u8; 33]),
        Signature::Ed25519([9u8; 64]),
    );
    let bytes = serialize(&approval).unwrap();
    let back: Approval = deserialize(bytes).unwrap();
    assert_eq!(back, approval);
    assert_eq!(*back.signer(), PublicKey::Secp256k1([3u8; 33]));
    assert_eq!(*back.signature(), Signature::Ed25519([9u8; 64]));
}

#[test]
fn public_key_bad_tag() {
    let bad: Result<PublicKey, Error> = deserialize(vec![3u8; 34]);
    assert_eq!(bad.unwrap_err(), Error::Formatting);
}

#[test]
fn message_wraps_payload() {
    let message = Message::new(String::from("payload"));
    assert_eq!(message.into_payload(), "payload");
}

#[test]
fn config_defaults() {
    let config = Config::default();
    assert_eq!(config.bind_address, "0.0.0.0:22777");
    assert!(config.known_addresses.is_empty());
    assert!(!config.systemd_support);
    assert_eq!(config.max_one_way_message_size, 1024 * 1024);
    assert_eq!(config.gossip_max_message_size, 256 * 1024);
    assert_eq!(config.connection_setup_timeout.to_millis(), 10_000);
    assert_eq!(config.request_timeout.to_millis(), 10_000);
    assert_eq!(config.connection_keep_alive.to_millis(), 300_000);
    assert_eq!(config.gossip_heartbeat_interval.to_millis(), 10_000);
    assert_eq!(config.gossip_duplicate_cache_timeout.to_millis(), 60_000);
}

#[test]
fn codec_takes_size_from_config() {
    let mut config = Config::default();
    config.max_one_way_message_size = 4096;
    let codec = Codec::from(&config);
    assert_eq!(codec.max_message_size(), 4096);
}

#[test]
fn protocol_id_formats_parts() {
    let id = ProtocolId::new("casper-example", "validator/one-way", "1.0.0");
    assert_eq!(
        id.protocol_name(),
        b"/casper/casper-example/validator/one-way/1.0.0"
    );
}
