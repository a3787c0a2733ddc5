use vstd::prelude::*;
use crate::base_types::{
    bytes_eq, copy_bytes, random_bytes, AuthorityName, PublicKeyBytes, SuiAddress, DIGEST_LENGTH,
    PUBLIC_KEY_LENGTH,
};
use crate::codec::{enc_order_data, order_data_bytes};
use crate::messages::{OrderData, SuiError};
use crate::quorum::Committee;

verus! {

pub const SECRET_KEY_LENGTH: usize = 32;

pub const SIGNATURE_LENGTH: usize = 64;

/// The Ed25519 public key that belongs to a 32-byte secret key.
pub uninterp spec fn ed25519_public_of(secret: Seq<u8>) -> Seq<u8>;

/// The Ed25519 signature of `msg` under a 32-byte secret key (Ed25519 signing is deterministic).
pub uninterp spec fn ed25519_signature_of(secret: Seq<u8>, msg: Seq<u8>) -> Seq<u8>;

/// Whether `sig` is a valid Ed25519 signature of `msg` under the public key `pk`.
pub uninterp spec fn ed25519_verifies(pk: Seq<u8>, msg: Seq<u8>, sig: Seq<u8>) -> bool;

/// Relies on ed25519_dalek's `PublicKey::from(&SecretKey)`: derives the public key.
#[verifier::external_body]
fn ed25519_public_key(secret: &Vec<u8>) -> (r: Vec<u8>)
    requires
        secret@.len() == SECRET_KEY_LENGTH,
    ensures
        r@ == ed25519_public_of(secret@),
        r@.len() == PUBLIC_KEY_LENGTH,
{
    let sk = ed25519_dalek::SecretKey::from_bytes(secret.as_slice()).unwrap();
    ed25519_dalek::PublicKey::from(&sk).to_bytes().to_vec()
}

/// Relies on ed25519_dalek's `ExpandedSecretKey::sign`: a 64-byte signature that
/// verifies under the matching public key.
#[verifier::external_body]
fn ed25519_sign(secret: &Vec<u8>, msg: &[u8]) -> (r: Vec<u8>)
    requires
        secret@.len() == SECRET_KEY_LENGTH,
    ensures
        r@ == ed25519_signature_of(secret@, msg@),
        r@.len() == SIGNATURE_LENGTH,
        ed25519_verifies(ed25519_public_of(secret@), msg@, r@),
{
    let sk = ed25519_dalek::SecretKey::from_bytes(secret.as_slice()).unwrap();
    let pk = ed25519_dalek::PublicKey::from(&sk);
    ed25519_dalek::ExpandedSecretKey::from(&sk).sign(msg, &pk).to_bytes().to_vec()
}

/// Relies on ed25519_dalek's `PublicKey::from_bytes`, `Signature::from_bytes` and
/// `Verifier::verify`; bytes that do not parse do not verify.
#[verifier::external_body]
fn ed25519_verify(pk: &Vec<u8>, msg: &[u8], sig: &Vec<u8>) -> (r: bool)
    ensures
        r == ed25519_verifies(pk@, msg@, sig@),
{
    match (ed25519_dalek::PublicKey::from_bytes(pk), ed25519_dalek::Signature::from_bytes(sig)) {
        (Ok(key), Ok(s)) => ed25519_dalek::Verifier::verify(&key, msg, &s).is_ok(),
        _ => false,
    }
}

/// Relies on ed25519_dalek's `verify_batch` over one message. It draws random
/// coefficients, so of a non-empty batch nothing certain is known; an empty
/// batch is accepted.
#[verifier::external_body]
fn ed25519_verify_batch(msg: &[u8], pks: &Vec<Vec<u8>>, sigs: &Vec<Vec<u8>>) -> (r: bool)
    requires
        pks@.len() == sigs@.len(),
    ensures
        sigs@.len() == 0 ==> r,
{
    let keys: Result<Vec<_>, _> = pks.iter().map(|k| ed25519_dalek::PublicKey::from_bytes(k)).collect();
    let parsed: Result<Vec<_>, _> = sigs.iter().map(|s| ed25519_dalek::Signature::from_bytes(s)).collect();
    match (keys, parsed) {
        (Ok(keys), Ok(parsed)) => {
            let messages: Vec<&[u8]> = parsed.iter().map(|_| msg).collect();
            ed25519_dalek::verify_batch(&messages, &parsed, &keys).is_ok()
        },
        _ => false,
    }
}

/// The SHA3-256 digest of `data`.
pub uninterp spec fn sha3_256_of(data: Seq<u8>) -> Seq<u8>;

/// Relies on sha3's `Sha3_256::digest`: 32 bytes that depend on `data` alone.
#[verifier::external_body]
pub(crate) fn sha3_256(data: &[u8]) -> (r: Vec<u8>)
    ensures
        r@ == sha3_256_of(data@),
        r@.len() == DIGEST_LENGTH,
{
    <sha3::Sha3_256 as sha3::Digest>::digest(data).to_vec()
}

/// Every signature of `votes` is a valid signature of `msg` by the authority it is listed with.
pub open spec fn all_verify(msg: Seq<u8>, votes: Seq<(AuthorityName, Signature)>) -> bool {
    forall|i: int|
        0 <= i < votes.len() ==> ed25519_verifies(
            #[trigger] votes[i].0.bytes@,
            msg,
            votes[i].1.bytes@,
        )
}

/// Every authority listed in `votes` belongs to the committee.
pub open spec fn all_members(c: Committee, votes: Seq<(AuthorityName, Signature)>) -> bool {
    forall|i: int| 0 <= i < votes.len() ==> c.is_member(#[trigger] votes[i].0.bytes@)
}

/// An Ed25519 signature as it travels on the wire.
#[derive(Clone, Debug, PartialEq, Eq, Hash)]
pub struct Signature {
    pub bytes: Vec<u8>,
}

pub type AuthoritySignature = Signature;

impl Signature {
    pub open spec fn wf(&self) -> bool {
        self.bytes@.len() == SIGNATURE_LENGTH
    }

    /// Signs the canonical payload bytes of `value`.
    pub fn new(value: &OrderData, secret: &KeyPair) -> (r: Signature)
        requires
            secret.wf(),
        ensures
            r.wf(),
            r.bytes@ == ed25519_signature_of(secret.secret_bytes(), enc_order_data(*value)),
            ed25519_verifies(secret.public_view().bytes@, enc_order_data(*value), r.bytes@),
    {
        let msg = order_data_bytes(value);
        secret.sign_bytes(msg.as_slice())
    }

    /// Checks this signature of `author` over the canonical payload bytes of `value`.
    pub fn check(&self, value: &OrderData, author: &PublicKeyBytes) -> (r: Result<(), SuiError>)
        ensures
            r is Ok <==> ed25519_verifies(author.bytes@, enc_order_data(*value), self.bytes@),
            r is Err ==> r == Err::<(), SuiError>(SuiError::InvalidSignature),
    {
        let msg = order_data_bytes(value);
        if ed25519_verify(&author.bytes, msg.as_slice(), &self.bytes) {
            Ok(())
        } else {
            Err(SuiError::InvalidSignature)
        }
    }

    /// Checks each vote on its own: every authority must belong to the committee
    /// and every signature must verify over the payload of `value`.
    pub fn verify_each(
        value: &OrderData,
        votes: &Vec<(AuthorityName, Signature)>,
        committee: &Committee,
    ) -> (r: Result<(), SuiError>)
        ensures
            r == Err::<(), SuiError>(SuiError::UnknownSigner) <==> !all_members(*committee, votes@),
            r is Ok <==> all_members(*committee, votes@) && all_verify(
                enc_order_data(*value),
                votes@,
            ),
            r is Err ==> r == Err::<(), SuiError>(SuiError::UnknownSigner) || r == Err::<
                (),
                SuiError,
            >(SuiError::InvalidSignature),
    {
        if !Self::members(votes, committee) {
            return Err(SuiError::UnknownSigner);
        }
        let msg = order_data_bytes(value);
        let mut i: usize = 0;
        while i < votes.len()
            invariant
                i <= votes@.len(),
                msg@ == enc_order_data(*value),
                all_members(*committee, votes@),
                forall|j: int|
                    0 <= j < i ==> ed25519_verifies(
                        #[trigger] votes@[j].0.bytes@,
                        msg@,
                        votes@[j].1.bytes@,
                    ),
            decreases votes@.len() - i,
        {
            if !ed25519_verify(&votes[i].0.bytes, msg.as_slice(), &votes[i].1.bytes) {
                return Err(SuiError::InvalidSignature);
            }
            i = i + 1;
        }
        Ok(())
    }

    /// Checks all votes on `value` at once with batch verification. Unknown
    /// authorities are reported before any signature is looked at; what the
    /// randomized batch check answers for the rest is mapped to `InvalidSignature`.
    pub fn verify_batch(
        value: &OrderData,
        votes: &Vec<(AuthorityName, Signature)>,
        committee: &Committee,
    ) -> (r: Result<(), SuiError>)
        ensures
            r == Err::<(), SuiError>(SuiError::UnknownSigner) <==> !all_members(*committee, votes@),
            votes@.len() == 0 ==> r is Ok,
            r is Err ==> r == Err::<(), SuiError>(SuiError::UnknownSigner) || r == Err::<
                (),
                SuiError,
            >(SuiError::InvalidSignature),
    {
        if !Self::members(votes, committee) {
            return Err(SuiError::UnknownSigner);
        }
        let msg = order_data_bytes(value);
        let mut keys: Vec<Vec<u8>> = Vec::new();
        let mut sigs: Vec<Vec<u8>> = Vec::new();
        let mut i: usize = 0;
        while i < votes.len()
            invariant
                i <= votes@.len(),
                keys@.len() == i,
                sigs@.len() == i,
                forall|j: int| 0 <= j < i ==> #[trigger] keys@[j]@ == votes@[j].0.bytes@,
                forall|j: int| 0 <= j < i ==> #[trigger] sigs@[j]@ == votes@[j].1.bytes@,
            decreases votes@.len() - i,
        {
            keys.push(copy_bytes(&votes[i].0.bytes));
            sigs.push(copy_bytes(&votes[i].1.bytes));
            i = i + 1;
        }
        if ed25519_verify_batch(msg.as_slice(), &keys, &sigs) {
            Ok(())
        } else {
            Err(SuiError::InvalidSignature)
        }
    }

    fn members(votes: &Vec<(AuthorityName, Signature)>, committee: &Committee) -> (r: bool)
        ensures
            r == all_members(*committee, votes@),
    {
        let mut i: usize = 0;
        while i < votes.len()
            invariant
                i <= votes@.len(),
                forall|j: int| 0 <= j < i ==> committee.is_member(#[trigger] votes@[j].0.bytes@),
            decreases votes@.len() - i,
        {
            if committee.index_of(&votes[i].0).is_none() {
                return false;
            }
            i = i + 1;
        }
        true
    }
}

/// An Ed25519 key pair.
#[derive(Clone, Debug)]
pub struct KeyPair {
    secret: Vec<u8>,
    public: PublicKeyBytes,
}

impl KeyPair {
    pub closed spec fn secret_bytes(&self) -> Seq<u8> {
        self.secret@
    }

    pub closed spec fn public_view(&self) -> PublicKeyBytes {
        self.public
    }

    pub open spec fn wf(&self) -> bool {
        &&& self.secret_bytes().len() == SECRET_KEY_LENGTH
        &&& self.public_view().bytes@ == ed25519_public_of(self.secret_bytes())
        &&& self.public_view().wf()
    }

    /// The key pair whose secret key is `seed`.
    pub fn from_seed(seed: [u8; 32]) -> (r: KeyPair)
        ensures
            r.wf(),
            r.secret_bytes() == seed@,
    {
        let mut secret: Vec<u8> = Vec::new();
        let mut i: usize = 0;
        while i < 32
            invariant
                i <= 32,
                secret@ == seed@.subrange(0, i as int),
            decreases 32 - i,
        {
            secret.push(seed[i]);
            i = i + 1;
        }
        assert(secret@ == seed@);
        let public = PublicKeyBytes { bytes: ed25519_public_key(&secret) };
        KeyPair { secret, public }
    }

    pub fn public_key_bytes(&self) -> (r: &PublicKeyBytes)
        ensures
            *r == self.public_view(),
    {
        &self.public
    }

    /// Signs raw bytes.
    pub fn sign_bytes(&self, msg: &[u8]) -> (r: Signature)
        requires
            self.wf(),
        ensures
            r.wf(),
            r.bytes@ == ed25519_signature_of(self.secret_bytes(), msg@),
            ed25519_verifies(self.public_view().bytes@, msg@, r.bytes@),
    {
        Signature { bytes: ed25519_sign(&self.secret, msg) }
    }
}

/// A fresh random key pair and the address that belongs to it.
pub fn get_key_pair() -> (r: (SuiAddress, KeyPair))
    ensures
        r.1.wf(),
        r.0.bytes@ == r.1.public_view().bytes@,
{
    let seed = random_bytes();
    let mut secret: Vec<u8> = Vec::new();
    let mut i: usize = 0;
    while i < SECRET_KEY_LENGTH
        invariant
            i <= SECRET_KEY_LENGTH,
            seed@.len() == 32,
            secret@ == seed@.subrange(0, i as int),
        decreases SECRET_KEY_LENGTH - i,
    {
        secret.push(seed[i]);
        i = i + 1;
    }
    assert(secret@ == seed@);
    let public = PublicKeyBytes { bytes: ed25519_public_key(&secret) };
    let kp = KeyPair { secret, public };
    let address = PublicKeyBytes { bytes: copy_bytes(&kp.public.bytes) };
    (address, kp)
}

} // verus!
