use vstd::prelude::*;
use crate::base_types::{
    bytes_eq, copy_bytes, object_ref_wf, AuthorityName, ObjectDigest, ObjectID, ObjectRef,
    PublicKeyBytes, SequenceNumber, SuiAddress, TransactionDigest, DIGEST_LENGTH,
};
use crate::codec::{
    lemma_object_unique, lemma_opt_lock_unique, opt_lock_wf, same_object, same_opt_lock, enc_object,
    enc_opt_lock, enc_order_data, object_bytes, opt_lock_bytes, order_data_bytes,
};
use crate::crypto::{
    ed25519_signature_of, ed25519_verifies, sha3_256, sha3_256_of, KeyPair, Signature,
};

verus! {

/// A closed taxonomy of protocol failures; each travels as a message of its own.
#[derive(Clone, Copy, Debug, PartialEq, Eq, Hash, Structural)]
pub enum SuiError {
    UnknownSigner,
    InvalidSignature,
    Equivocation,
    MalformedMessage,
    UnknownMessageKind,
    Truncated,
    EndOfStream,
    ObjectNotFound,
    ConflictingOrder,
    QuorumNotReached,
}

/// The payload of a transfer order: what the sender signs.
#[derive(Clone, Debug, PartialEq, Eq, Hash)]
pub struct OrderData {
    pub sender: SuiAddress,
    pub recipient: SuiAddress,
    pub object_ref: ObjectRef,
    pub gas_payment: ObjectRef,
}

impl OrderData {
    pub open spec fn wf(&self) -> bool {
        self.sender.wf() && self.recipient.wf() && object_ref_wf(self.object_ref)
            && object_ref_wf(self.gas_payment)
    }
}

/// A transfer intent with the sender's signature over its payload.
#[derive(Clone, Debug, PartialEq, Eq, Hash)]
pub struct Order {
    pub data: OrderData,
    pub signature: Signature,
}

/// The digest that identifies an order: a hash of its canonical payload bytes.
pub open spec fn order_digest(d: OrderData) -> Seq<u8> {
    sha3_256_of(enc_order_data(d))
}

impl Order {
    pub open spec fn wf(&self) -> bool {
        self.data.wf() && self.signature.wf()
    }

    /// A transfer of `object_ref` from `sender` to `recipient`, signed with `secret`.
    pub fn new_transfer(
        recipient: SuiAddress,
        object_ref: ObjectRef,
        sender: SuiAddress,
        gas_payment: ObjectRef,
        secret: &KeyPair,
    ) -> (r: Order)
        requires
            secret.wf(),
        ensures
            r.data == (OrderData { sender, recipient, object_ref, gas_payment }),
            r.signature.wf(),
            r.signature.bytes@ == ed25519_signature_of(secret.secret_bytes(), enc_order_data(r.data)),
            ed25519_verifies(secret.public_view().bytes@, enc_order_data(r.data), r.signature.bytes@),
    {
        let data = OrderData { sender, recipient, object_ref, gas_payment };
        let signature = Signature::new(&data, secret);
        Order { data, signature }
    }

    /// The digest of this order's payload; the signature does not enter it.
    pub fn digest(&self) -> (r: TransactionDigest)
        ensures
            r.bytes@ == order_digest(self.data),
            r.wf(),
    {
        let msg = order_data_bytes(&self.data);
        TransactionDigest { bytes: sha3_256(msg.as_slice()) }
    }

    /// Checks the sender's signature over the payload.
    pub fn check_signature(&self) -> (r: Result<(), SuiError>)
        ensures
            r is Ok <==> ed25519_verifies(
                self.data.sender.bytes@,
                enc_order_data(self.data),
                self.signature.bytes@,
            ),
            r is Err ==> r == Err::<(), SuiError>(SuiError::InvalidSignature),
    {
        self.signature.check(&self.data, &self.data.sender)
    }
}

/// One authority's vote on an order.
#[derive(Clone, Debug, PartialEq, Eq, Hash)]
pub struct SignedOrder {
    pub order: Order,
    pub authority: AuthorityName,
    pub signature: Signature,
}

impl SignedOrder {
    pub open spec fn wf(&self) -> bool {
        self.order.wf() && self.authority.wf() && self.signature.wf()
    }

    /// The vote of `authority` on `order`, signed with `secret`.
    pub fn new(order: Order, authority: AuthorityName, secret: &KeyPair) -> (r: SignedOrder)
        requires
            secret.wf(),
        ensures
            r.order == order,
            r.authority == authority,
            r.signature.wf(),
            r.signature.bytes@ == ed25519_signature_of(secret.secret_bytes(), enc_order_data(order.data)),
    {
        let signature = Signature::new(&order.data, secret);
        SignedOrder { order, authority, signature }
    }
}

/// An order with the authority signatures collected for it, in the order they were added.
#[derive(Clone, Debug, PartialEq, Eq, Hash)]
pub struct CertifiedOrder {
    pub order: Order,
    pub signatures: Vec<(AuthorityName, Signature)>,
}

pub open spec fn vote_entry_wf(e: (AuthorityName, Signature)) -> bool {
    e.0.wf() && e.1.wf()
}

pub open spec fn vote_entries_wf(s: Seq<(AuthorityName, Signature)>) -> bool {
    forall|i: int| 0 <= i < s.len() ==> #[trigger] vote_entry_wf(s[i])
}

/// The bytes of each (authority, signature) pair, in order.
pub open spec fn vote_entries_view(s: Seq<(AuthorityName, Signature)>) -> Seq<(Seq<u8>, Seq<u8>)> {
    s.map_values(|e: (AuthorityName, Signature)| (e.0.bytes@, e.1.bytes@))
}

/// Two certificates are equivalent when their orders have the same digest and
/// their signature lists are equal element by element.
pub open spec fn certificates_equivalent(a: CertifiedOrder, b: CertifiedOrder) -> bool {
    order_digest(a.order.data) == order_digest(b.order.data) && vote_entries_view(a.signatures@)
        == vote_entries_view(b.signatures@)
}

impl CertifiedOrder {
    pub open spec fn wf(&self) -> bool {
        self.order.wf() && vote_entries_wf(self.signatures@) && self.signatures@.len() <= u64::MAX
    }
}

fn same_vote_entries(a: &Vec<(AuthorityName, Signature)>, b: &Vec<(AuthorityName, Signature)>) -> (r:
    bool)
    ensures
        r == (vote_entries_view(a@) == vote_entries_view(b@)),
{
    if a.len() != b.len() {
        return false;
    }
    let mut i: usize = 0;
    while i < a.len()
        invariant
            a@.len() == b@.len(),
            i <= a@.len(),
            forall|j: int|
                0 <= j < i ==> #[trigger] vote_entries_view(a@)[j] == vote_entries_view(b@)[j],
        decreases a@.len() - i,
    {
        if !bytes_eq(&a[i].0.bytes, &b[i].0.bytes) || !bytes_eq(&a[i].1.bytes, &b[i].1.bytes) {
            assert(vote_entries_view(a@)[i as int] != vote_entries_view(b@)[i as int]);
            return false;
        }
        i = i + 1;
    }
    assert(vote_entries_view(a@) =~= vote_entries_view(b@));
    true
}

/// Whether two certificates are equivalent: a certificate for an order is not
/// unique, so they are compared by order digest and signature list.
pub fn compare_certified_orders(o1: &CertifiedOrder, o2: &CertifiedOrder) -> (r: bool)
    ensures
        r == certificates_equivalent(*o1, *o2),
{
    let d1 = o1.order.digest();
    let d2 = o2.order.digest();
    bytes_eq(&d1.bytes, &d2.bytes) && same_vote_entries(&o1.signatures, &o2.signatures)
}

/// What two object-info responses must share: both resolve an object, with the
/// same object and the same lock (the same encoding, which for well-formed
/// values means the same fields), and both or neither carry a parent
/// certificate, equivalent when present.
pub open spec fn object_info_responses_match(a: ObjectInfoResponse, b: ObjectInfoResponse) -> bool {
    match (a.object_and_lock, b.object_and_lock) {
        (Some(x), Some(y)) => {
            &&& enc_object(x.object) == enc_object(y.object)
            &&& enc_opt_lock(x.lock) == enc_opt_lock(y.lock)
            &&& match (a.parent_certificate, b.parent_certificate) {
                (Some(c1), Some(c2)) => certificates_equivalent(c1, c2),
                (None, None) => true,
                _ => false,
            }
        },
        _ => false,
    }
}

pub fn compare_object_info_responses(o1: &ObjectInfoResponse, o2: &ObjectInfoResponse) -> (r: bool)
    requires
        o1.wf(),
        o2.wf(),
    ensures
        r == object_info_responses_match(*o1, *o2),
        r ==> same_object(o1.object_and_lock->Some_0.object, o2.object_and_lock->Some_0.object)
            && same_opt_lock(o1.object_and_lock->Some_0.lock, o2.object_and_lock->Some_0.lock),
{
    let (x, y) = match (&o1.object_and_lock, &o2.object_and_lock) {
        (Some(x), Some(y)) => (x, y),
        _ => return false,
    };
    if !bytes_eq(&object_bytes(&x.object), &object_bytes(&y.object)) {
        return false;
    }
    if !bytes_eq(&opt_lock_bytes(&x.lock), &opt_lock_bytes(&y.lock)) {
        return false;
    }
    proof {
        let e = enc_object(x.object);
        assert(e.subrange(0, e.len() as int) =~= e);
        lemma_object_unique(e, 0, x.object, y.object);
        let l = enc_opt_lock(x.lock);
        assert(l.subrange(0, l.len() as int) =~= l);
        lemma_opt_lock_unique(l, 0, x.lock, y.lock);
    }
    match (&o1.parent_certificate, &o2.parent_certificate) {
        (Some(c1), Some(c2)) => compare_certified_orders(c1, c2),
        (None, None) => true,
        _ => false,
    }
}

/// Whether the layout of the object's type is wanted with it.
#[derive(Clone, Copy, Debug, PartialEq, Eq, Hash, Structural)]
pub struct ObjectFormatOptions {
    pub include_types: bool,
}

#[derive(Clone, Copy, Debug, PartialEq, Eq, Hash, Structural)]
pub enum ObjectInfoRequestKind {
    LatestObjectInfo(Option<ObjectFormatOptions>),
    PastObjectInfo(SequenceNumber),
}

/// A query for the state of one object.
#[derive(Clone, Debug, PartialEq, Eq, Hash)]
pub struct ObjectInfoRequest {
    pub object_id: ObjectID,
    pub request_kind: ObjectInfoRequestKind,
}

impl ObjectInfoRequest {
    pub open spec fn wf(&self) -> bool {
        self.object_id.wf()
    }

    /// Asks for the latest version of `object_id`.
    pub fn latest_object_info_request(
        object_id: ObjectID,
        request_layout: Option<ObjectFormatOptions>,
    ) -> (r: ObjectInfoRequest)
        ensures
            r.object_id == object_id,
            r.request_kind == ObjectInfoRequestKind::LatestObjectInfo(request_layout),
    {
        ObjectInfoRequest {
            object_id,
            request_kind: ObjectInfoRequestKind::LatestObjectInfo(request_layout),
        }
    }

    /// Asks for `object_id` as of `sequence_number`.
    pub fn past_object_info_request(object_id: ObjectID, sequence_number: SequenceNumber) -> (r:
        ObjectInfoRequest)
        ensures
            r.object_id == object_id,
            r.request_kind == ObjectInfoRequestKind::PastObjectInfo(sequence_number),
    {
        ObjectInfoRequest {
            object_id,
            request_kind: ObjectInfoRequestKind::PastObjectInfo(sequence_number),
        }
    }
}

/// The state of one object version as the storage layer reports it.
#[derive(Clone, Debug, PartialEq, Eq, Hash)]
pub struct Object {
    pub id: ObjectID,
    pub version: SequenceNumber,
    pub owner: SuiAddress,
    pub contents: Vec<u8>,
    pub previous_transaction: TransactionDigest,
}

impl Object {
    pub open spec fn wf(&self) -> bool {
        self.id.wf() && self.owner.wf() && self.previous_transaction.wf() && self.contents@.len()
            <= u64::MAX
    }

    /// A first-version object with empty contents, owned by `owner`, made by no transaction.
    pub fn with_id_owner_for_testing(id: ObjectID, owner: SuiAddress) -> (r: Object)
        ensures
            r.id == id,
            r.owner == owner,
            r.version.value == 0,
            r.contents@.len() == 0,
            r.previous_transaction.bytes@ == Seq::new(DIGEST_LENGTH as nat, |_i: int| 0u8),
    {
        let mut zeros: Vec<u8> = Vec::new();
        while zeros.len() < DIGEST_LENGTH
            invariant
                zeros@.len() <= DIGEST_LENGTH,
                forall|j: int| 0 <= j < zeros@.len() ==> zeros@[j] == 0u8,
            decreases DIGEST_LENGTH - zeros@.len(),
        {
            zeros.push(0);
        }
        assert(zeros@ =~= Seq::new(DIGEST_LENGTH as nat, |_i: int| 0u8));
        Object {
            id,
            version: SequenceNumber::new(),
            owner,
            contents: Vec::new(),
            previous_transaction: TransactionDigest { bytes: zeros },
        }
    }

    /// The reference to this version of the object; its digest hashes the object's encoding.
    pub fn to_object_reference(&self) -> (r: ObjectRef)
        ensures
            r.0.bytes@ == self.id.bytes@,
            r.1 == self.version,
            r.2.bytes@ == sha3_256_of(enc_object(*self)),
            r.2.wf(),
    {
        let digest = sha3_256(object_bytes(self).as_slice());
        ObjectRef(ObjectID { bytes: copy_bytes(&self.id.bytes) }, self.version, ObjectDigest { bytes: digest })
    }
}

/// An object, the vote that currently locks it if any, and optionally its type layout.
#[derive(Clone, Debug, PartialEq, Eq, Hash)]
pub struct ObjectResponse {
    pub object: Object,
    pub lock: Option<SignedOrder>,
    pub layout: Option<Vec<u8>>,
}

impl ObjectResponse {
    pub open spec fn wf(&self) -> bool {
        &&& self.object.wf()
        &&& (self.lock matches Some(v) ==> v.wf())
        &&& (self.layout matches Some(l) ==> l@.len() <= u64::MAX)
    }
}

/// The answer to an `ObjectInfoRequest`.
#[derive(Clone, Debug, PartialEq, Eq, Hash)]
pub struct ObjectInfoResponse {
    pub object_and_lock: Option<ObjectResponse>,
    pub parent_certificate: Option<CertifiedOrder>,
    pub requested_object_reference: Option<ObjectRef>,
}

impl ObjectInfoResponse {
    pub open spec fn wf(&self) -> bool {
        &&& (self.object_and_lock matches Some(o) ==> o.wf())
        &&& (self.parent_certificate matches Some(c) ==> c.wf())
        &&& (self.requested_object_reference matches Some(r) ==> object_ref_wf(r))
    }

    /// The object that was resolved, if it exists.
    pub fn object(&self) -> (r: Option<&Object>)
        ensures
            r == (match self.object_and_lock {
                Some(o) => Some(&o.object),
                None => None,
            }),
    {
        match &self.object_and_lock {
            Some(o) => Some(&o.object),
            None => None,
        }
    }
}

/// Every message that travels on the wire.
#[derive(Clone, Debug, PartialEq, Eq, Hash)]
pub enum SerializedMessage {
    Error(Box<SuiError>),
    Order(Box<Order>),
    Vote(Box<SignedOrder>),
    Cert(Box<CertifiedOrder>),
    ObjectInfoReq(Box<ObjectInfoRequest>),
    ObjectInfoResp(Box<ObjectInfoResponse>),
}

impl SerializedMessage {
    pub open spec fn wf(&self) -> bool {
        match self {
            SerializedMessage::Error(_) => true,
            SerializedMessage::Order(o) => o.wf(),
            SerializedMessage::Vote(v) => v.wf(),
            SerializedMessage::Cert(c) => c.wf(),
            SerializedMessage::ObjectInfoReq(q) => q.wf(),
            SerializedMessage::ObjectInfoResp(p) => p.wf(),
        }
    }
}

} // verus!
