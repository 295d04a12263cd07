//! Deploy identifiers and headers: the hash naming a deploy, the header that
//! is hashed to produce it, and one signer's approval.  Construction and
//! signature verification belong to the cryptography collaborators; here live
//! the data model and its canonical serialization.

use crate::bytesrepr::{Error, FromBytes, ToBytes};
use crate::digest::Digest;
use vstd::prelude::*;

verus! {

/// The wire tag of an Ed25519 key or signature.
pub const ED25519_TAG: u8 = 1;

/// The wire tag of a secp256k1 key or signature.
pub const SECP256K1_TAG: u8 = 2;

/// A signer's public key.
#[derive(Clone, Copy, Debug, PartialEq, Eq, Hash)]
pub enum PublicKey {
    /// An Ed25519 public key.
    Ed25519([u8; 32]),
    /// A compressed secp256k1 public key.
    Secp256k1([u8; 33]),
}

/// The mathematical model of a [`PublicKey`].
pub enum SpecPublicKey {
    /// Model of `PublicKey::Ed25519`.
    Ed25519(Seq<u8>),
    /// Model of `PublicKey::Secp256k1`.
    Secp256k1(Seq<u8>),
}

/// A signature over a deploy hash.
#[derive(Clone, Copy, Debug, PartialEq, Eq, Hash)]
pub enum Signature {
    /// An Ed25519 signature.
    Ed25519([u8; 64]),
    /// A secp256k1 signature.
    Secp256k1([u8; 64]),
}

/// The mathematical model of a [`Signature`].
pub enum SpecSignature {
    /// Model of `Signature::Ed25519`.
    Ed25519(Seq<u8>),
    /// Model of `Signature::Secp256k1`.
    Secp256k1(Seq<u8>),
}

impl ToBytes for PublicKey {
    type Model = SpecPublicKey;

    open spec fn model(&self) -> SpecPublicKey {
        match self {
            PublicKey::Ed25519(b) => SpecPublicKey::Ed25519(b@),
            PublicKey::Secp256k1(b) => SpecPublicKey::Secp256k1(b@),
        }
    }

    open spec fn spec_encodable(v: SpecPublicKey) -> bool {
        match v {
            SpecPublicKey::Ed25519(b) => b.len() == 32,
            SpecPublicKey::Secp256k1(b) => b.len() == 33,
        }
    }

    open spec fn spec_encoding(v: SpecPublicKey) -> Seq<u8> {
        match v {
            SpecPublicKey::Ed25519(b) => seq![ED25519_TAG] + b,
            SpecPublicKey::Secp256k1(b) => seq![SECP256K1_TAG] + b,
        }
    }

    fn to_bytes(&self, sink: &mut Vec<u8>) -> (r: Result<(), Error>) {
        match self {
            PublicKey::Ed25519(b) => {
                sink.push(ED25519_TAG);
                b.to_bytes(sink)
            },
            PublicKey::Secp256k1(b) => {
                sink.push(SECP256K1_TAG);
                b.to_bytes(sink)
            },
        }
    }

    fn serialized_length(&self) -> (n: usize) {
        match self {
            PublicKey::Ed25519(b) => 33,
            PublicKey::Secp256k1(b) => 34,
        }
    }
}

impl FromBytes for PublicKey {
    open spec fn spec_from(bytes: Seq<u8>) -> Result<(SpecPublicKey, Seq<u8>), Error> {
        if bytes.len() < 1 {
            Err(Error::EarlyEndOfStream)
        } else if bytes[0] == ED25519_TAG {
            match <[u8; 32] as FromBytes>::spec_from(bytes.skip(1)) {
                Ok((b, rem)) => Ok((SpecPublicKey::Ed25519(b), rem)),
                Err(e) => Err(e),
            }
        } else if bytes[0] == SECP256K1_TAG {
            match <[u8; 33] as FromBytes>::spec_from(bytes.skip(1)) {
                Ok((b, rem)) => Ok((SpecPublicKey::Secp256k1(b), rem)),
                Err(e) => Err(e),
            }
        } else {
            Err(Error::Formatting)
        }
    }

    fn from_bytes(bytes: &[u8]) -> (r: Result<(PublicKey, &[u8]), Error>) {
        if bytes.len() < 1 {
            Err(Error::EarlyEndOfStream)
        } else {
            let tag = bytes[0];
            let rest = vstd::slice::slice_subrange(bytes, 1, bytes.len());
            assert(rest@ == bytes@.skip(1));
            if tag == ED25519_TAG {
                match <[u8; 32]>::from_bytes(rest) {
                    Ok((b, rem)) => Ok((PublicKey::Ed25519(b), rem)),
                    Err(e) => Err(e),
                }
            } else if tag == SECP256K1_TAG {
                match <[u8; 33]>::from_bytes(rest) {
                    Ok((b, rem)) => Ok((PublicKey::Secp256k1(b), rem)),
                    Err(e) => Err(e),
                }
            } else {
                Err(Error::Formatting)
            }
        }
    }

    proof fn lemma_roundtrip(v: SpecPublicKey, suffix: Seq<u8>) {
        let bytes = Self::spec_encoding(v) + suffix;
        match v {
            SpecPublicKey::Ed25519(b) => {
                assert(bytes[0] == ED25519_TAG);
                assert(bytes.skip(1) =~= b + suffix);
                <[u8; 32] as FromBytes>::lemma_roundtrip(b, suffix);
            },
            SpecPublicKey::Secp256k1(b) => {
                assert(bytes[0] == SECP256K1_TAG);
                assert(bytes.skip(1) =~= b + suffix);
                <[u8; 33] as FromBytes>::lemma_roundtrip(b, suffix);
            },
        }
    }

    proof fn lemma_parse_encoding(bytes: Seq<u8>) {
        if bytes.len() >= 1 {
            if bytes[0] == ED25519_TAG {
                <[u8; 32] as FromBytes>::lemma_parse_encoding(bytes.skip(1));
                if let Ok((b, rem)) = <[u8; 32] as FromBytes>::spec_from(bytes.skip(1)) {
                    assert((seq![ED25519_TAG] + b) + rem =~= seq![ED25519_TAG] + (b + rem));
                    assert(seq![bytes[0]] + bytes.skip(1) =~= bytes);
                }
            } else if bytes[0] == SECP256K1_TAG {
                <[u8; 33] as FromBytes>::lemma_parse_encoding(bytes.skip(1));
                if let Ok((b, rem)) = <[u8; 33] as FromBytes>::spec_from(bytes.skip(1)) {
                    assert((seq![SECP256K1_TAG] + b) + rem =~= seq![SECP256K1_TAG] + (b + rem));
                    assert(seq![bytes[0]] + bytes.skip(1) =~= bytes);
                }
            }
        }
    }
}

impl ToBytes for Signature {
    type Model = SpecSignature;

    open spec fn model(&self) -> SpecSignature {
        match self {
            Signature::Ed25519(b) => SpecSignature::Ed25519(b@),
            Signature::Secp256k1(b) => SpecSignature::Secp256k1(b@),
        }
    }

    open spec fn spec_encodable(v: SpecSignature) -> bool {
        match v {
            SpecSignature::Ed25519(b) => b.len() == 64,
            SpecSignature::Secp256k1(b) => b.len() == 64,
        }
    }

    open spec fn spec_encoding(v: SpecSignature) -> Seq<u8> {
        match v {
            SpecSignature::Ed25519(b) => seq![ED25519_TAG] + b,
            SpecSignature::Secp256k1(b) => seq![SECP256K1_TAG] + b,
        }
    }

    fn to_bytes(&self, sink: &mut Vec<u8>) -> (r: Result<(), Error>) {
        match self {
            Signature::Ed25519(b) => {
                sink.push(ED25519_TAG);
                b.to_bytes(sink)
            },
            Signature::Secp256k1(b) => {
                sink.push(SECP256K1_TAG);
                b.to_bytes(sink)
            },
        }
    }

    fn serialized_length(&self) -> (n: usize) {
        65
    }
}

impl FromBytes for Signature {
    open spec fn spec_from(bytes: Seq<u8>) -> Result<(SpecSignature, Seq<u8>), Error> {
        if bytes.len() < 1 {
            Err(Error::EarlyEndOfStream)
        } else if bytes[0] == ED25519_TAG {
            match <[u8; 64] as FromBytes>::spec_from(bytes.skip(1)) {
                Ok((b, rem)) => Ok((SpecSignature::Ed25519(b), rem)),
                Err(e) => Err(e),
            }
        } else if bytes[0] == SECP256K1_TAG {
            match <[u8; 64] as FromBytes>::spec_from(bytes.skip(1)) {
                Ok((b, rem)) => Ok((SpecSignature::Secp256k1(b), rem)),
                Err(e) => Err(e),
            }
        } else {
            Err(Error::Formatting)
        }
    }

    fn from_bytes(bytes: &[u8]) -> (r: Result<(Signature, &[u8]), Error>) {
        if bytes.len() < 1 {
            Err(Error::EarlyEndOfStream)
        } else {
            let tag = bytes[0];
            let rest = vstd::slice::slice_subrange(bytes, 1, bytes.len());
            assert(rest@ == bytes@.skip(1));
            if tag == ED25519_TAG {
                match <[u8; 64]>::from_bytes(rest) {
                    Ok((b, rem)) => Ok((Signature::Ed25519(b), rem)),
                    Err(e) => Err(e),
                }
            } else if tag == SECP256K1_TAG {
                match <[u8; 64]>::from_bytes(rest) {
                    Ok((b, rem)) => Ok((Signature::Secp256k1(b), rem)),
                    Err(e) => Err(e),
                }
            } else {
                Err(Error::Formatting)
            }
        }
    }

    proof fn lemma_roundtrip(v: SpecSignature, suffix: Seq<u8>) {
        let bytes = Self::spec_encoding(v) + suffix;
        match v {
            SpecSignature::Ed25519(b) => {
                assert(bytes[0] == ED25519_TAG);
                assert(bytes.skip(1) =~= b + suffix);
                <[u8; 64] as FromBytes>::lemma_roundtrip(b, suffix);
            },
            SpecSignature::Secp256k1(b) => {
                assert(bytes[0] == SECP256K1_TAG);
                assert(bytes.skip(1) =~= b + suffix);
                <[u8; 64] as FromBytes>::lemma_roundtrip(b, suffix);
            },
        }
    }

    proof fn lemma_parse_encoding(bytes: Seq<u8>) {
        if bytes.len() >= 1 && (bytes[0] == ED25519_TAG || bytes[0] == SECP256K1_TAG) {
            <[u8; 64] as FromBytes>::lemma_parse_encoding(bytes.skip(1));
            if let Ok((b, rem)) = <[u8; 64] as FromBytes>::spec_from(bytes.skip(1)) {
                assert((seq![bytes[0]] + b) + rem =~= seq![bytes[0]] + (b + rem));
                assert(seq![bytes[0]] + bytes.skip(1) =~= bytes);
            }
        }
    }
}

/// A point in time, in milliseconds since the epoch.
#[derive(Clone, Copy, Debug, Default, Hash, PartialEq, Eq, PartialOrd, Ord)]
pub struct Timestamp {
    millis: u64,
}

/// A duration, in milliseconds.
#[derive(Clone, Copy, Debug, Default, Hash, PartialEq, Eq, PartialOrd, Ord)]
pub struct TimeDiff {
    millis: u64,
}

impl Timestamp {
    /// A timestamp from milliseconds since the epoch.
    pub fn from_millis(millis: u64) -> (t: Timestamp)
        ensures
            t.millis() == millis,
    {
        Timestamp { millis }
    }

    /// Milliseconds since the epoch.
    pub closed spec fn millis(&self) -> u64 {
        self.millis
    }

    /// Milliseconds since the epoch.
    pub fn to_millis(&self) -> (m: u64)
        ensures
            m == self.millis(),
    {
        self.millis
    }
}

impl TimeDiff {
    /// A duration from milliseconds.
    pub fn from_millis(millis: u64) -> (t: TimeDiff)
        ensures
            t.millis() == millis,
    {
        TimeDiff { millis }
    }

    /// The duration in milliseconds.
    pub closed spec fn millis(&self) -> u64 {
        self.millis
    }

    /// The duration in milliseconds.
    pub fn to_millis(&self) -> (m: u64)
        ensures
            m == self.millis(),
    {
        self.millis
    }
}

impl ToBytes for Timestamp {
    type Model = u64;

    open spec fn model(&self) -> u64 {
        self.millis()
    }

    open spec fn spec_encodable(v: u64) -> bool {
        true
    }

    open spec fn spec_encoding(v: u64) -> Seq<u8> {
        <u64 as ToBytes>::spec_encoding(v)
    }

    fn to_bytes(&self, sink: &mut Vec<u8>) -> (r: Result<(), Error>) {
        self.millis.to_bytes(sink)
    }

    fn serialized_length(&self) -> (n: usize) {
        self.millis.serialized_length()
    }
}

impl FromBytes for Timestamp {
    open spec fn spec_from(bytes: Seq<u8>) -> Result<(u64, Seq<u8>), Error> {
        <u64 as FromBytes>::spec_from(bytes)
    }

    fn from_bytes(bytes: &[u8]) -> (r: Result<(Timestamp, &[u8]), Error>) {
        match u64::from_bytes(bytes) {
            Ok((millis, rem)) => Ok((Timestamp { millis }, rem)),
            Err(e) => Err(e),
        }
    }

    proof fn lemma_roundtrip(v: u64, suffix: Seq<u8>) {
        <u64 as FromBytes>::lemma_roundtrip(v, suffix);
    }

    proof fn lemma_parse_encoding(bytes: Seq<u8>) {
        <u64 as FromBytes>::lemma_parse_encoding(bytes);
    }
}

impl ToBytes for TimeDiff {
    type Model = u64;

    open spec fn model(&self) -> u64 {
        self.millis()
    }

    open spec fn spec_encodable(v: u64) -> bool {
        true
    }

    open spec fn spec_encoding(v: u64) -> Seq<u8> {
        <u64 as ToBytes>::spec_encoding(v)
    }

    fn to_bytes(&self, sink: &mut Vec<u8>) -> (r: Result<(), Error>) {
        self.millis.to_bytes(sink)
    }

    fn serialized_length(&self) -> (n: usize) {
        self.millis.serialized_length()
    }
}

impl FromBytes for TimeDiff {
    open spec fn spec_from(bytes: Seq<u8>) -> Result<(u64, Seq<u8>), Error> {
        <u64 as FromBytes>::spec_from(bytes)
    }

    fn from_bytes(bytes: &[u8]) -> (r: Result<(TimeDiff, &[u8]), Error>) {
        match u64::from_bytes(bytes) {
            Ok((millis, rem)) => Ok((TimeDiff { millis }, rem)),
            Err(e) => Err(e),
        }
    }

    proof fn lemma_roundtrip(v: u64, suffix: Seq<u8>) {
        <u64 as FromBytes>::lemma_roundtrip(v, suffix);
    }

    proof fn lemma_parse_encoding(bytes: Seq<u8>) {
        <u64 as FromBytes>::lemma_parse_encoding(bytes);
    }
}

/// The cryptographic hash of a deploy.
#[derive(Clone, Copy, Debug, PartialEq, Eq, Hash)]
pub struct DeployHash {
    inner: Digest,
}

impl DeployHash {
    /// Constructs a new `DeployHash`.
    pub fn new(hash: Digest) -> (d: DeployHash)
        ensures
            d.spec_inner()@ == hash@,
    {
        DeployHash { inner: hash }
    }

    /// Returns the wrapped inner hash.
    pub fn inner(&self) -> (d: &Digest)
        ensures
            d == self.spec_inner(),
    {
        &self.inner
    }

    /// The wrapped inner hash.
    pub closed spec fn spec_inner(&self) -> Digest {
        self.inner
    }
}

impl ToBytes for DeployHash {
    type Model = Seq<u8>;

    open spec fn model(&self) -> Seq<u8> {
        self.spec_inner()@
    }

    open spec fn spec_encodable(v: Seq<u8>) -> bool {
        <Digest as ToBytes>::spec_encodable(v)
    }

    open spec fn spec_encoding(v: Seq<u8>) -> Seq<u8> {
        <Digest as ToBytes>::spec_encoding(v)
    }

    fn to_bytes(&self, sink: &mut Vec<u8>) -> (r: Result<(), Error>) {
        self.inner.to_bytes(sink)
    }

    fn serialized_length(&self) -> (n: usize) {
        self.inner.serialized_length()
    }
}

impl FromBytes for DeployHash {
    open spec fn spec_from(bytes: Seq<u8>) -> Result<(Seq<u8>, Seq<u8>), Error> {
        <Digest as FromBytes>::spec_from(bytes)
    }

    fn from_bytes(bytes: &[u8]) -> (r: Result<(DeployHash, &[u8]), Error>) {
        match Digest::from_bytes(bytes) {
            Ok((inner, rem)) => Ok((DeployHash { inner }, rem)),
            Err(e) => Err(e),
        }
    }

    proof fn lemma_roundtrip(v: Seq<u8>, suffix: Seq<u8>) {
        <Digest as FromBytes>::lemma_roundtrip(v, suffix);
    }

    proof fn lemma_parse_encoding(bytes: Seq<u8>) {
        <Digest as FromBytes>::lemma_parse_encoding(bytes);
    }
}

/// The mathematical model of a [`DeployHeader`].
pub struct SpecDeployHeader {
    /// Model of the signer's public key.
    pub account: SpecPublicKey,
    /// Creation time in milliseconds.
    pub timestamp: u64,
    /// Validity window in milliseconds.
    pub ttl: u64,
    /// Price per gas unit.
    pub gas_price: u64,
    /// Digest of the deploy body.
    pub body_hash: Seq<u8>,
    /// Digests of deploys that must run first.
    pub dependencies: Seq<Seq<u8>>,
    /// Name of the chain the deploy targets.
    pub chain_name: Seq<char>,
}

/// The header portion of a deploy: what is hashed to name the deploy.
#[derive(Clone, Debug, PartialEq, Eq)]
pub struct DeployHeader {
    account: PublicKey,
    timestamp: Timestamp,
    ttl: TimeDiff,
    gas_price: u64,
    body_hash: Digest,
    dependencies: Vec<DeployHash>,
    chain_name: String,
}

impl DeployHeader {
    /// Assembles a header from its parts.
    pub fn new(
        account: PublicKey,
        timestamp: Timestamp,
        ttl: TimeDiff,
        gas_price: u64,
        body_hash: Digest,
        dependencies: Vec<DeployHash>,
        chain_name: String,
    ) -> (h: DeployHeader)
        ensures
            h.model() == (SpecDeployHeader {
                account: account.model(),
                timestamp: timestamp.millis(),
                ttl: ttl.millis(),
                gas_price,
                body_hash: body_hash@,
                dependencies: crate::bytesrepr::seq_models::<DeployHash>(dependencies@),
                chain_name: chain_name@,
            }),
    {
        DeployHeader { account, timestamp, ttl, gas_price, body_hash, dependencies, chain_name }
    }

    /// The account within which the deploy will be run.
    pub fn account(&self) -> (r: &PublicKey)
        ensures
            r.model() == self.model().account,
    {
        &self.account
    }

    /// When the deploy was created.
    pub fn timestamp(&self) -> (r: Timestamp)
        ensures
            r.millis() == self.model().timestamp,
    {
        self.timestamp
    }

    /// How long the deploy will stay valid.
    pub fn ttl(&self) -> (r: TimeDiff)
        ensures
            r.millis() == self.model().ttl,
    {
        self.ttl
    }

    /// Has this deploy expired?
    pub fn expired(&self, current_instant: Timestamp) -> (r: bool)
        requires
            self.model().timestamp + self.model().ttl <= u64::MAX,
        ensures
            r <==> self.model().timestamp + self.model().ttl < current_instant.millis(),
    {
        let lifespan = self.timestamp.to_millis() + self.ttl.to_millis();
        lifespan < current_instant.to_millis()
    }

    /// Price per gas unit for this deploy.
    pub fn gas_price(&self) -> (r: u64)
        ensures
            r == self.model().gas_price,
    {
        self.gas_price
    }

    /// Hash of the Wasm code.
    pub fn body_hash(&self) -> (r: &Digest)
        ensures
            r@ == self.model().body_hash,
    {
        &self.body_hash
    }

    /// Other deploys that have to be run before this one.
    pub fn dependencies(&self) -> (r: &Vec<DeployHash>)
        ensures
            crate::bytesrepr::seq_models::<DeployHash>(r@) == self.model().dependencies,
    {
        &self.dependencies
    }

    /// Which chain the deploy is supposed to be run on.
    pub fn chain_name(&self) -> (r: &str)
        ensures
            r@ == self.model().chain_name,
    {
        self.chain_name.as_str()
    }

    /// Returns the timestamp of when the deploy expires: its creation time
    /// plus its validity window.
    pub fn expires(&self) -> (r: Timestamp)
        requires
            self.model().timestamp + self.model().ttl <= u64::MAX,
        ensures
            r.millis() == self.model().timestamp + self.model().ttl,
    {
        Timestamp::from_millis(self.timestamp.to_millis() + self.ttl.to_millis())
    }
}

impl ToBytes for DeployHeader {
    type Model = SpecDeployHeader;

    closed spec fn model(&self) -> SpecDeployHeader {
        SpecDeployHeader {
            account: self.account.model(),
            timestamp: self.timestamp.model(),
            ttl: self.ttl.model(),
            gas_price: self.gas_price,
            body_hash: self.body_hash@,
            dependencies: crate::bytesrepr::seq_models::<DeployHash>(self.dependencies@),
            chain_name: self.chain_name@,
        }
    }

    open spec fn spec_encodable(v: SpecDeployHeader) -> bool {
        &&& <PublicKey as ToBytes>::spec_encodable(v.account)
        &&& <Digest as ToBytes>::spec_encodable(v.body_hash)
        &&& <Vec<DeployHash> as ToBytes>::spec_encodable(v.dependencies)
        &&& <String as ToBytes>::spec_encodable(v.chain_name)
    }

    open spec fn spec_encoding(v: SpecDeployHeader) -> Seq<u8> {
        <PublicKey as ToBytes>::spec_encoding(v.account) + <u64 as ToBytes>::spec_encoding(
            v.timestamp,
        ) + <u64 as ToBytes>::spec_encoding(v.ttl) + <u64 as ToBytes>::spec_encoding(v.gas_price)
            + <Digest as ToBytes>::spec_encoding(v.body_hash) + <Vec<
            DeployHash,
        > as ToBytes>::spec_encoding(v.dependencies) + <String as ToBytes>::spec_encoding(
            v.chain_name,
        )
    }

    fn to_bytes(&self, sink: &mut Vec<u8>) -> (r: Result<(), Error>) {
        let mut tmp: Vec<u8> = Vec::new();
        match self.account.to_bytes(&mut tmp) {
            Ok(()) => {},
            Err(e) => {
                return Err(e);
            },
        }
        match self.timestamp.to_bytes(&mut tmp) {
            Ok(()) => {},
            Err(e) => {
                return Err(e);
            },
        }
        match self.ttl.to_bytes(&mut tmp) {
            Ok(()) => {},
            Err(e) => {
                return Err(e);
            },
        }
        match self.gas_price.to_bytes(&mut tmp) {
            Ok(()) => {},
            Err(e) => {
                return Err(e);
            },
        }
        match self.body_hash.to_bytes(&mut tmp) {
            Ok(()) => {},
            Err(e) => {
                return Err(e);
            },
        }
        match self.dependencies.to_bytes(&mut tmp) {
            Ok(()) => {},
            Err(e) => {
                return Err(e);
            },
        }
        match self.chain_name.to_bytes(&mut tmp) {
            Ok(()) => {},
            Err(e) => {
                return Err(e);
            },
        }
        sink.append(&mut tmp);
        Ok(())
    }

    fn serialized_length(&self) -> (n: usize) {
        let n1 = self.account.serialized_length();
        let n2 = self.timestamp.serialized_length();
        let n3 = self.ttl.serialized_length();
        let n4 = self.gas_price.serialized_length();
        let n5 = self.body_hash.serialized_length();
        let n6 = self.dependencies.serialized_length();
        let n7 = self.chain_name.serialized_length();
        n1 + n2 + n3 + n4 + n5 + n6 + n7
    }
}

impl FromBytes for DeployHeader {
    open spec fn spec_from(bytes: Seq<u8>) -> Result<(SpecDeployHeader, Seq<u8>), Error> {
        match <PublicKey as FromBytes>::spec_from(bytes) {
            Err(e) => Err(e),
            Ok((account, r1)) => match <u64 as FromBytes>::spec_from(r1) {
                Err(e) => Err(e),
                Ok((timestamp, r2)) => match <u64 as FromBytes>::spec_from(r2) {
                    Err(e) => Err(e),
                    Ok((ttl, r3)) => match <u64 as FromBytes>::spec_from(r3) {
                        Err(e) => Err(e),
                        Ok((gas_price, r4)) => match <Digest as FromBytes>::spec_from(r4) {
                            Err(e) => Err(e),
                            Ok((body_hash, r5)) => match <Vec<DeployHash> as FromBytes>::spec_from(
                                r5,
                            ) {
                                Err(e) => Err(e),
                                Ok((dependencies, r6)) => match <String as FromBytes>::spec_from(
                                    r6,
                                ) {
                                    Err(e) => Err(e),
                                    Ok((chain_name, r7)) => Ok(
                                        (
                                            SpecDeployHeader {
                                                account,
                                                timestamp,
                                                ttl,
                                                gas_price,
                                                body_hash,
                                                dependencies,
                                                chain_name,
                                            },
                                            r7,
                                        ),
                                    ),
                                },
                            },
                        },
                    },
                },
            },
        }
    }

    fn from_bytes(bytes: &[u8]) -> (r: Result<(DeployHeader, &[u8]), Error>) {
        let (account, r1) = match PublicKey::from_bytes(bytes) {
            Ok(p) => p,
            Err(e) => {
                return Err(e);
            },
        };
        let (timestamp, r2) = match Timestamp::from_bytes(r1) {
            Ok(p) => p,
            Err(e) => {
                return Err(e);
            },
        };
        let (ttl, r3) = match TimeDiff::from_bytes(r2) {
            Ok(p) => p,
            Err(e) => {
                return Err(e);
            },
        };
        let (gas_price, r4) = match u64::from_bytes(r3) {
            Ok(p) => p,
            Err(e) => {
                return Err(e);
            },
        };
        let (body_hash, r5) = match Digest::from_bytes(r4) {
            Ok(p) => p,
            Err(e) => {
                return Err(e);
            },
        };
        let (dependencies, r6) = match <Vec<DeployHash>>::from_bytes(r5) {
            Ok(p) => p,
            Err(e) => {
                return Err(e);
            },
        };
        let (chain_name, r7) = match String::from_bytes(r6) {
            Ok(p) => p,
            Err(e) => {
                return Err(e);
            },
        };
        Ok(
            (
                DeployHeader {
                    account,
                    timestamp,
                    ttl,
                    gas_price,
                    body_hash,
                    dependencies,
                    chain_name,
                },
                r7,
            ),
        )
    }

    #[verifier::rlimit(100)]
    proof fn lemma_roundtrip(v: SpecDeployHeader, suffix: Seq<u8>) {
        let e1 = <PublicKey as ToBytes>::spec_encoding(v.account);
        let e2 = <u64 as ToBytes>::spec_encoding(v.timestamp);
        let e3 = <u64 as ToBytes>::spec_encoding(v.ttl);
        let e4 = <u64 as ToBytes>::spec_encoding(v.gas_price);
        let e5 = <Digest as ToBytes>::spec_encoding(v.body_hash);
        let e6 = <Vec<DeployHash> as ToBytes>::spec_encoding(v.dependencies);
        let e7 = <String as ToBytes>::spec_encoding(v.chain_name);
        let bytes = Self::spec_encoding(v) + suffix;
        assert(bytes =~= e1 + (e2 + (e3 + (e4 + (e5 + (e6 + (e7 + suffix)))))));
        <PublicKey as FromBytes>::lemma_roundtrip(
            v.account,
            e2 + (e3 + (e4 + (e5 + (e6 + (e7 + suffix))))),
        );
        <u64 as FromBytes>::lemma_roundtrip(v.timestamp, e3 + (e4 + (e5 + (e6 + (e7 + suffix)))));
        <u64 as FromBytes>::lemma_roundtrip(v.ttl, e4 + (e5 + (e6 + (e7 + suffix))));
        <u64 as FromBytes>::lemma_roundtrip(v.gas_price, e5 + (e6 + (e7 + suffix)));
        <Digest as FromBytes>::lemma_roundtrip(v.body_hash, e6 + (e7 + suffix));
        <Vec<DeployHash> as FromBytes>::lemma_roundtrip(v.dependencies, e7 + suffix);
        <String as FromBytes>::lemma_roundtrip(v.chain_name, suffix);
    }

    #[verifier::rlimit(100)]
    proof fn lemma_parse_encoding(bytes: Seq<u8>) {
        <PublicKey as FromBytes>::lemma_parse_encoding(bytes);
        if let Ok((account, r1)) = <PublicKey as FromBytes>::spec_from(bytes) {
            <u64 as FromBytes>::lemma_parse_encoding(r1);
            if let Ok((timestamp, r2)) = <u64 as FromBytes>::spec_from(r1) {
                <u64 as FromBytes>::lemma_parse_encoding(r2);
                if let Ok((ttl, r3)) = <u64 as FromBytes>::spec_from(r2) {
                    <u64 as FromBytes>::lemma_parse_encoding(r3);
                    if let Ok((gas_price, r4)) = <u64 as FromBytes>::spec_from(r3) {
                        <Digest as FromBytes>::lemma_parse_encoding(r4);
                        if let Ok((body_hash, r5)) = <Digest as FromBytes>::spec_from(r4) {
                            <Vec<DeployHash> as FromBytes>::lemma_parse_encoding(r5);
                            if let Ok((dependencies, r6)) = <Vec<
                                DeployHash,
                            > as FromBytes>::spec_from(r5) {
                                <String as FromBytes>::lemma_parse_encoding(r6);
                                if let Ok((chain_name, r7)) = <String as FromBytes>::spec_from(
                                    r6,
                                ) {
                                    let e1 = <PublicKey as ToBytes>::spec_encoding(account);
                                    let e2 = <u64 as ToBytes>::spec_encoding(timestamp);
                                    let e3 = <u64 as ToBytes>::spec_encoding(ttl);
                                    let e4 = <u64 as ToBytes>::spec_encoding(gas_price);
                                    let e5 = <Digest as ToBytes>::spec_encoding(body_hash);
                                    let e6 = <Vec<DeployHash> as ToBytes>::spec_encoding(
                                        dependencies,
                                    );
                                    let e7 = <String as ToBytes>::spec_encoding(chain_name);
                                    assert((e1 + e2 + e3 + e4 + e5 + e6 + e7) + r7 =~= e1 + (e2 + (
                                    e3 + (e4 + (e5 + (e6 + (e7 + r7)))))));
                                }
                            }
                        }
                    }
                }
            }
        }
    }
}

/// A struct containing a signature and the public key of the signer.
#[derive(Clone, Copy, Debug, PartialEq, Eq)]
pub struct Approval {
    signer: PublicKey,
    signature: Signature,
}

impl Approval {
    /// Pairs a signer with their signature.
    pub fn new(signer: PublicKey, signature: Signature) -> (a: Approval)
        ensures
            a.model() == (signer.model(), signature.model()),
    {
        Approval { signer, signature }
    }

    /// Returns the public key of the approval's signer.
    pub fn signer(&self) -> (r: &PublicKey)
        ensures
            r.model() == self.model().0,
    {
        &self.signer
    }

    /// Returns the approval signature.
    pub fn signature(&self) -> (r: &Signature)
        ensures
            r.model() == self.model().1,
    {
        &self.signature
    }
}

impl ToBytes for Approval {
    type Model = (SpecPublicKey, SpecSignature);

    closed spec fn model(&self) -> (SpecPublicKey, SpecSignature) {
        (self.signer.model(), self.signature.model())
    }

    open spec fn spec_encodable(v: (SpecPublicKey, SpecSignature)) -> bool {
        <PublicKey as ToBytes>::spec_encodable(v.0) && <Signature as ToBytes>::spec_encodable(v.1)
    }

    open spec fn spec_encoding(v: (SpecPublicKey, SpecSignature)) -> Seq<u8> {
        <PublicKey as ToBytes>::spec_encoding(v.0) + <Signature as ToBytes>::spec_encoding(v.1)
    }

    fn to_bytes(&self, sink: &mut Vec<u8>) -> (r: Result<(), Error>) {
        let mut tmp: Vec<u8> = Vec::new();
        match self.signer.to_bytes(&mut tmp) {
            Ok(()) => {},
            Err(e) => {
                return Err(e);
            },
        }
        match self.signature.to_bytes(&mut tmp) {
            Ok(()) => {},
            Err(e) => {
                return Err(e);
            },
        }
        sink.append(&mut tmp);
        Ok(())
    }

    fn serialized_length(&self) -> (n: usize) {
        let n1 = self.signer.serialized_length();
        let n2 = self.signature.serialized_length();
        n1 + n2
    }
}

impl FromBytes for Approval {
    open spec fn spec_from(bytes: Seq<u8>) -> Result<
        ((SpecPublicKey, SpecSignature), Seq<u8>),
        Error,
    > {
        match <PublicKey as FromBytes>::spec_from(bytes) {
            Err(e) => Err(e),
            Ok((signer, r1)) => match <Signature as FromBytes>::spec_from(r1) {
                Err(e) => Err(e),
                Ok((signature, r2)) => Ok(((signer, signature), r2)),
            },
        }
    }

    fn from_bytes(bytes: &[u8]) -> (r: Result<(Approval, &[u8]), Error>) {
        match PublicKey::from_bytes(bytes) {
            Err(e) => Err(e),
            Ok((signer, r1)) => match Signature::from_bytes(r1) {
                Err(e) => Err(e),
                Ok((signature, r2)) => Ok((Approval { signer, signature }, r2)),
            },
        }
    }

    proof fn lemma_roundtrip(v: (SpecPublicKey, SpecSignature), suffix: Seq<u8>) {
        let e2 = <Signature as ToBytes>::spec_encoding(v.1);
        let bytes = Self::spec_encoding(v) + suffix;
        assert(bytes =~= <PublicKey as ToBytes>::spec_encoding(v.0) + (e2 + suffix));
        <PublicKey as FromBytes>::lemma_roundtrip(v.0, e2 + suffix);
        <Signature as FromBytes>::lemma_roundtrip(v.1, suffix);
    }

    proof fn lemma_parse_encoding(bytes: Seq<u8>) {
        <PublicKey as FromBytes>::lemma_parse_encoding(bytes);
        if let Ok((signer, r1)) = <PublicKey as FromBytes>::spec_from(bytes) {
            <Signature as FromBytes>::lemma_parse_encoding(r1);
            if let Ok((signature, r2)) = <Signature as FromBytes>::spec_from(r1) {
                assert((<PublicKey as ToBytes>::spec_encoding(signer)
                    + <Signature as ToBytes>::spec_encoding(signature)) + r2
                    =~= <PublicKey as ToBytes>::spec_encoding(signer) + (
                <Signature as ToBytes>::spec_encoding(signature) + r2));
            }
        }
    }
}

/// Serializes a deploy header to the bytes that are hashed to name the
/// deploy.
pub fn serialize_header(header: &DeployHeader) -> (r: Vec<u8>)
    requires
        <DeployHeader as ToBytes>::spec_encodable(header.model()),
    ensures
        r@ == <DeployHeader as ToBytes>::spec_encoding(header.model()),
{
    match crate::bytesrepr::serialize(header) {
        Ok(bytes) => bytes,
        Err(_) => {
            proof {
                assert(false);
            }
            Vec::new()
        },
    }
}

} // verus!
