use vstd::prelude::*;

verus! {

pub const OBJECT_ID_LENGTH: usize = 20;

pub const DIGEST_LENGTH: usize = 32;

pub const PUBLIC_KEY_LENGTH: usize = 32;

/// Fixed-width identifier of a ledger object.
#[derive(Clone, Debug, PartialEq, Eq, Hash)]
pub struct ObjectID {
    pub bytes: Vec<u8>,
}

impl ObjectID {
    pub open spec fn wf(&self) -> bool {
        self.bytes@.len() == OBJECT_ID_LENGTH
    }

    /// A fresh identifier drawn at random.
    pub fn random() -> (r: ObjectID)
        ensures
            r.wf(),
    {
        ObjectID::from_prefix(&random_bytes())
    }

    /// The identifier made of the first twenty bytes of `b`.
    pub fn from_prefix(b: &Vec<u8>) -> (r: ObjectID)
        requires
            b@.len() >= OBJECT_ID_LENGTH,
        ensures
            r.bytes@ == b@.subrange(0, OBJECT_ID_LENGTH as int),
            r.wf(),
    {
        let mut v: Vec<u8> = Vec::new();
        let mut i: usize = 0;
        while i < OBJECT_ID_LENGTH
            invariant
                i <= OBJECT_ID_LENGTH,
                b@.len() >= OBJECT_ID_LENGTH,
                v@ == b@.subrange(0, i as int),
            decreases OBJECT_ID_LENGTH - i,
        {
            v.push(b[i]);
            assert(b@.subrange(0, i + 1) == b@.subrange(0, i as int).push(b@[i as int]));
            i = i + 1;
        }
        ObjectID { bytes: v }
    }
}

/// Relies on rand::random for 32 uniformly drawn bytes; only their count is known.
#[verifier::external_body]
pub(crate) fn random_bytes() -> (r: Vec<u8>)
    ensures
        r@.len() == 32,
{
    rand::random::<[u8; 32]>().to_vec()
}

/// Per-object version counter.
#[derive(Clone, Copy, Debug, PartialEq, Eq, Hash, Structural)]
pub struct SequenceNumber {
    pub value: u64,
}

impl SequenceNumber {
    /// The first version of every object.
    pub fn new() -> (r: SequenceNumber)
        ensures
            r.value == 0,
    {
        SequenceNumber { value: 0 }
    }

    pub fn from(value: u64) -> (r: SequenceNumber)
        ensures
            r.value == value,
    {
        SequenceNumber { value }
    }
}

/// Content hash of an object's state at one version.
#[derive(Clone, Debug, PartialEq, Eq, Hash)]
pub struct ObjectDigest {
    pub bytes: Vec<u8>,
}

impl ObjectDigest {
    pub open spec fn wf(&self) -> bool {
        self.bytes@.len() == DIGEST_LENGTH
    }

    pub fn new(bytes: [u8; 32]) -> (r: ObjectDigest)
        ensures
            r.bytes@ == bytes@,
            r.wf(),
    {
        let mut v: Vec<u8> = Vec::new();
        let mut i: usize = 0;
        while i < 32
            invariant
                i <= 32,
                v@ == bytes@.subrange(0, i as int),
            decreases 32 - i,
        {
            v.push(bytes[i]);
            i = i + 1;
        }
        assert(v@ == bytes@);
        ObjectDigest { bytes: v }
    }
}

/// Digest of an order's canonical payload.
#[derive(Clone, Debug, PartialEq, Eq, Hash)]
pub struct TransactionDigest {
    pub bytes: Vec<u8>,
}

impl TransactionDigest {
    pub open spec fn wf(&self) -> bool {
        self.bytes@.len() == DIGEST_LENGTH
    }
}

/// Raw bytes of an Ed25519 public key. Account addresses and authority
/// names are public keys.
#[derive(Clone, Debug, PartialEq, Eq, Hash)]
pub struct PublicKeyBytes {
    pub bytes: Vec<u8>,
}

impl PublicKeyBytes {
    pub open spec fn wf(&self) -> bool {
        self.bytes@.len() == PUBLIC_KEY_LENGTH
    }
}

pub type SuiAddress = PublicKeyBytes;

pub type AuthorityName = PublicKeyBytes;

/// One immutable version of an object: (id, version, content digest).
#[derive(Clone, Debug, PartialEq, Eq, Hash)]
pub struct ObjectRef(pub ObjectID, pub SequenceNumber, pub ObjectDigest);

pub open spec fn object_ref_wf(r: ObjectRef) -> bool {
    r.0.wf() && r.2.wf()
}

/// A copy of `b`.
pub fn copy_bytes(b: &Vec<u8>) -> (r: Vec<u8>)
    ensures
        r@ == b@,
{
    let mut v: Vec<u8> = Vec::new();
    let mut i: usize = 0;
    while i < b.len()
        invariant
            i <= b@.len(),
            v@ == b@.subrange(0, i as int),
        decreases b@.len() - i,
    {
        v.push(b[i]);
        i = i + 1;
    }
    assert(v@ == b@);
    v
}

/// Whether `a` and `b` hold the same bytes.
pub fn bytes_eq(a: &Vec<u8>, b: &Vec<u8>) -> (r: bool)
    ensures
        r == (a@ == b@),
{
    if a.len() != b.len() {
        return false;
    }
    let mut i: usize = 0;
    while i < a.len()
        invariant
            a@.len() == b@.len(),
            i <= a@.len(),
            a@.subrange(0, i as int) == b@.subrange(0, i as int),
        decreases a@.len() - i,
    {
        if a[i] != b[i] {
            assert(a@[i as int] != b@[i as int]);
            return false;
        }
        assert(a@.subrange(0, i + 1) == a@.subrange(0, i as int).push(a@[i as int]));
        assert(b@.subrange(0, i + 1) == b@.subrange(0, i as int).push(b@[i as int]));
        i = i + 1;
    }
    assert(a@ == a@.subrange(0, a@.len() as int));
    assert(b@ == b@.subrange(0, b@.len() as int));
    true
}

/// `n` copies of byte `b`.
fn filled(b: u8, n: usize) -> (r: Vec<u8>)
    ensures
        r@ == Seq::new(n as nat, |_i: int| b),
{
    let mut v: Vec<u8> = Vec::new();
    while v.len() < n
        invariant
            v@.len() <= n,
            forall|j: int| 0 <= j < v@.len() ==> v@[j] == b,
        decreases n - v@.len(),
    {
        v.push(b);
    }
    assert(v@ =~= Seq::new(n as nat, |_i: int| b));
    v
}

/// An object id whose bytes all equal `name`.
pub fn dbg_object_id(name: u8) -> (r: ObjectID)
    ensures
        r.wf(),
        r.bytes@ == Seq::new(OBJECT_ID_LENGTH as nat, |_i: int| name),
{
    ObjectID { bytes: filled(name, OBJECT_ID_LENGTH) }
}

/// An address whose bytes all equal `name`.
pub fn dbg_addr(name: u8) -> (r: SuiAddress)
    ensures
        r.wf(),
        r.bytes@ == Seq::new(PUBLIC_KEY_LENGTH as nat, |_i: int| name),
{
    PublicKeyBytes { bytes: filled(name, PUBLIC_KEY_LENGTH) }
}

/// A reference to the first version of a fresh random object, with a zero digest.
pub fn random_object_ref() -> (r: ObjectRef)
    ensures
        object_ref_wf(r),
        r.1.value == 0,
        r.2.bytes@ == Seq::new(DIGEST_LENGTH as nat, |_i: int| 0u8),
{
    ObjectRef(ObjectID::random(), SequenceNumber::new(), ObjectDigest { bytes: filled(0, DIGEST_LENGTH) })
}

} // verus!
