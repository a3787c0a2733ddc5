use vstd::prelude::*;
use crate::base_types::{
    object_ref_wf, ObjectDigest, ObjectID, ObjectRef, PublicKeyBytes, SequenceNumber,
    TransactionDigest,
};
use crate::crypto::Signature;
use crate::messages::{
    certificates_equivalent, vote_entries_view, vote_entries_wf, vote_entry_wf, CertifiedOrder, Object, ObjectFormatOptions,
    ObjectInfoRequest, ObjectInfoRequestKind, ObjectInfoResponse, ObjectResponse, Order, OrderData,
    SerializedMessage, SignedOrder, SuiError,
};

verus! {

// ---------------------------------------------------------------------------
// Wire format
// ---------------------------------------------------------------------------
/// Little-endian bytes of `n`.
pub open spec fn enc_u64(n: u64) -> Seq<u8> {
    seq![
        n as u8,
        (n >> 8u64) as u8,
        (n >> 16u64) as u8,
        (n >> 24u64) as u8,
        (n >> 32u64) as u8,
        (n >> 40u64) as u8,
        (n >> 48u64) as u8,
        (n >> 56u64) as u8,
    ]
}

pub open spec fn enc_bool(b: bool) -> Seq<u8> {
    if b {
        seq![1u8]
    } else {
        seq![0u8]
    }
}

/// A byte string of any length, prefixed by its length.
pub open spec fn enc_var_bytes(b: Seq<u8>) -> Seq<u8> {
    enc_u64(b.len() as u64) + b
}

pub open spec fn enc_object_ref(r: ObjectRef) -> Seq<u8> {
    r.0.bytes@ + (enc_u64(r.1.value) + r.2.bytes@)
}

/// The canonical payload bytes of an order: what is signed and digested.
pub open spec fn enc_order_data(d: OrderData) -> Seq<u8> {
    d.sender.bytes@ + (d.recipient.bytes@ + (enc_object_ref(d.object_ref) + enc_object_ref(
        d.gas_payment,
    )))
}

pub open spec fn enc_order(o: Order) -> Seq<u8> {
    enc_order_data(o.data) + o.signature.bytes@
}

pub open spec fn enc_signed_order(v: SignedOrder) -> Seq<u8> {
    enc_order(v.order) + (v.authority.bytes@ + v.signature.bytes@)
}

pub open spec fn enc_vote_entry(e: (PublicKeyBytes, Signature)) -> Seq<u8> {
    e.0.bytes@ + e.1.bytes@
}

pub open spec fn enc_vote_entries(s: Seq<(PublicKeyBytes, Signature)>) -> Seq<u8>
    decreases s.len(),
{
    if s.len() == 0 {
        Seq::empty()
    } else {
        enc_vote_entries(s.drop_last()) + enc_vote_entry(s.last())
    }
}

pub open spec fn enc_cert(c: CertifiedOrder) -> Seq<u8> {
    enc_order(c.order) + (enc_u64(c.signatures@.len() as u64) + enc_vote_entries(c.signatures@))
}

pub open spec fn enc_request_kind(k: ObjectInfoRequestKind) -> Seq<u8> {
    match k {
        ObjectInfoRequestKind::LatestObjectInfo(None) => seq![0u8, 0u8],
        ObjectInfoRequestKind::LatestObjectInfo(Some(o)) => seq![0u8, 1u8] + enc_bool(
            o.include_types,
        ),
        ObjectInfoRequestKind::PastObjectInfo(s) => seq![1u8] + enc_u64(s.value),
    }
}

pub open spec fn enc_request(q: ObjectInfoRequest) -> Seq<u8> {
    q.object_id.bytes@ + enc_request_kind(q.request_kind)
}

pub open spec fn enc_object(o: Object) -> Seq<u8> {
    o.id.bytes@ + (enc_u64(o.version.value) + (o.owner.bytes@ + (enc_var_bytes(o.contents@)
        + o.previous_transaction.bytes@)))
}

pub open spec fn enc_opt_lock(l: Option<SignedOrder>) -> Seq<u8> {
    match l {
        None => seq![0u8],
        Some(v) => seq![1u8] + enc_signed_order(v),
    }
}

pub open spec fn enc_opt_layout(l: Option<Vec<u8>>) -> Seq<u8> {
    match l {
        None => seq![0u8],
        Some(b) => seq![1u8] + enc_var_bytes(b@),
    }
}

pub open spec fn enc_object_response(r: ObjectResponse) -> Seq<u8> {
    enc_object(r.object) + (enc_opt_lock(r.lock) + enc_opt_layout(r.layout))
}

pub open spec fn enc_opt_object_response(o: Option<ObjectResponse>) -> Seq<u8> {
    match o {
        None => seq![0u8],
        Some(r) => seq![1u8] + enc_object_response(r),
    }
}

pub open spec fn enc_opt_cert(o: Option<CertifiedOrder>) -> Seq<u8> {
    match o {
        None => seq![0u8],
        Some(c) => seq![1u8] + enc_cert(c),
    }
}

pub open spec fn enc_opt_object_ref(o: Option<ObjectRef>) -> Seq<u8> {
    match o {
        None => seq![0u8],
        Some(r) => seq![1u8] + enc_object_ref(r),
    }
}

pub open spec fn enc_response(r: ObjectInfoResponse) -> Seq<u8> {
    enc_opt_object_response(r.object_and_lock) + (enc_opt_cert(r.parent_certificate)
        + enc_opt_object_ref(r.requested_object_reference))
}

pub open spec fn error_code(e: SuiError) -> u8 {
    match e {
        SuiError::UnknownSigner => 0,
        SuiError::InvalidSignature => 1,
        SuiError::Equivocation => 2,
        SuiError::MalformedMessage => 3,
        SuiError::UnknownMessageKind => 4,
        SuiError::Truncated => 5,
        SuiError::EndOfStream => 6,
        SuiError::ObjectNotFound => 7,
        SuiError::ConflictingOrder => 8,
        SuiError::QuorumNotReached => 9,
    }
}

pub open spec fn message_tag(m: SerializedMessage) -> u8 {
    match m {
        SerializedMessage::Error(_) => 0,
        SerializedMessage::Order(_) => 1,
        SerializedMessage::ObjectInfoReq(_) => 2,
        SerializedMessage::Vote(_) => 3,
        SerializedMessage::Cert(_) => 4,
        SerializedMessage::ObjectInfoResp(_) => 5,
    }
}

pub open spec fn message_body(m: SerializedMessage) -> Seq<u8> {
    match m {
        SerializedMessage::Error(e) => seq![error_code(*e)],
        SerializedMessage::Order(o) => enc_order(*o),
        SerializedMessage::ObjectInfoReq(q) => enc_request(*q),
        SerializedMessage::Vote(v) => enc_signed_order(*v),
        SerializedMessage::Cert(c) => enc_cert(*c),
        SerializedMessage::ObjectInfoResp(p) => enc_response(*p),
    }
}

/// The framed encoding of a message: its kind tag, then its body.
pub open spec fn enc_message(m: SerializedMessage) -> Seq<u8> {
    seq![message_tag(m)] + message_body(m)
}

// ---------------------------------------------------------------------------
// Writing
// ---------------------------------------------------------------------------
fn push_slice(buf: &mut Vec<u8>, b: &[u8])
    ensures
        final(buf)@ == old(buf)@ + b@,
{
    let ghost start = buf@;
    let mut i: usize = 0;
    while i < b.len()
        invariant
            i <= b@.len(),
            buf@ == start + b@.subrange(0, i as int),
        decreases b@.len() - i,
    {
        buf.push(b[i]);
        assert(b@.subrange(0, i + 1) == b@.subrange(0, i as int).push(b@[i as int]));
        i = i + 1;
    }
    assert(b@.subrange(0, b@.len() as int) == b@);
}

fn push_u64(buf: &mut Vec<u8>, n: u64)
    ensures
        final(buf)@ == old(buf)@ + enc_u64(n),
{
    buf.push(n as u8);
    buf.push((n >> 8u64) as u8);
    buf.push((n >> 16u64) as u8);
    buf.push((n >> 24u64) as u8);
    buf.push((n >> 32u64) as u8);
    buf.push((n >> 40u64) as u8);
    buf.push((n >> 48u64) as u8);
    buf.push((n >> 56u64) as u8);
    assert(final(buf)@ =~= old(buf)@ + enc_u64(n));
}

fn push_var_bytes(buf: &mut Vec<u8>, b: &Vec<u8>)
    ensures
        final(buf)@ == old(buf)@ + enc_var_bytes(b@),
{
    push_u64(buf, b.len() as u64);
    push_slice(buf, b.as_slice());
    assert(final(buf)@ =~= old(buf)@ + enc_var_bytes(b@));
}

fn write_object_ref(buf: &mut Vec<u8>, r: &ObjectRef)
    ensures
        final(buf)@ == old(buf)@ + enc_object_ref(*r),
{
    push_slice(buf, r.0.bytes.as_slice());
    push_u64(buf, r.1.value);
    push_slice(buf, r.2.bytes.as_slice());
    assert(final(buf)@ =~= old(buf)@ + enc_object_ref(*r));
}

/// Appends the canonical payload bytes of `d`.
pub fn write_order_data(buf: &mut Vec<u8>, d: &OrderData)
    ensures
        final(buf)@ == old(buf)@ + enc_order_data(*d),
{
    push_slice(buf, d.sender.bytes.as_slice());
    push_slice(buf, d.recipient.bytes.as_slice());
    write_object_ref(buf, &d.object_ref);
    write_object_ref(buf, &d.gas_payment);
    assert(final(buf)@ =~= old(buf)@ + enc_order_data(*d));
}

fn write_order(buf: &mut Vec<u8>, o: &Order)
    ensures
        final(buf)@ == old(buf)@ + enc_order(*o),
{
    write_order_data(buf, &o.data);
    push_slice(buf, o.signature.bytes.as_slice());
    assert(final(buf)@ =~= old(buf)@ + enc_order(*o));
}

fn write_signed_order(buf: &mut Vec<u8>, v: &SignedOrder)
    ensures
        final(buf)@ == old(buf)@ + enc_signed_order(*v),
{
    write_order(buf, &v.order);
    push_slice(buf, v.authority.bytes.as_slice());
    push_slice(buf, v.signature.bytes.as_slice());
    assert(final(buf)@ =~= old(buf)@ + enc_signed_order(*v));
}

fn write_cert(buf: &mut Vec<u8>, c: &CertifiedOrder)
    ensures
        final(buf)@ == old(buf)@ + enc_cert(*c),
{
    write_order(buf, &c.order);
    push_u64(buf, c.signatures.len() as u64);
    let ghost mid = buf@;
    let mut i: usize = 0;
    while i < c.signatures.len()
        invariant
            i <= c.signatures@.len(),
            buf@ == mid + enc_vote_entries(c.signatures@.subrange(0, i as int)),
        decreases c.signatures@.len() - i,
    {
        let ghost before = buf@;
        push_slice(buf, c.signatures[i].0.bytes.as_slice());
        push_slice(buf, c.signatures[i].1.bytes.as_slice());
        assert(c.signatures@.subrange(0, i + 1).drop_last() == c.signatures@.subrange(0, i as int));
        assert(buf@ =~= before + enc_vote_entry(c.signatures@[i as int]));
        i = i + 1;
    }
    assert(c.signatures@.subrange(0, c.signatures@.len() as int) == c.signatures@);
    assert(final(buf)@ =~= old(buf)@ + enc_cert(*c));
}

fn write_request(buf: &mut Vec<u8>, q: &ObjectInfoRequest)
    ensures
        final(buf)@ == old(buf)@ + enc_request(*q),
{
    push_slice(buf, q.object_id.bytes.as_slice());
    match q.request_kind {
        ObjectInfoRequestKind::LatestObjectInfo(None) => {
            buf.push(0);
            buf.push(0);
        },
        ObjectInfoRequestKind::LatestObjectInfo(Some(o)) => {
            buf.push(0);
            buf.push(1);
            buf.push(if o.include_types { 1 } else { 0 });
        },
        ObjectInfoRequestKind::PastObjectInfo(s) => {
            buf.push(1);
            push_u64(buf, s.value);
        },
    }
    assert(final(buf)@ =~= old(buf)@ + enc_request(*q));
}

pub(crate) fn write_object(buf: &mut Vec<u8>, o: &Object)
    ensures
        final(buf)@ == old(buf)@ + enc_object(*o),
{
    push_slice(buf, o.id.bytes.as_slice());
    push_u64(buf, o.version.value);
    push_slice(buf, o.owner.bytes.as_slice());
    push_var_bytes(buf, &o.contents);
    push_slice(buf, o.previous_transaction.bytes.as_slice());
    assert(final(buf)@ =~= old(buf)@ + enc_object(*o));
}

fn write_object_response(buf: &mut Vec<u8>, ol: &ObjectResponse)
    ensures
        final(buf)@ == old(buf)@ + enc_object_response(*ol),
{
    write_object(buf, &ol.object);
    let ghost mid = buf@;
    match &ol.lock {
        None => buf.push(0),
        Some(v) => {
            buf.push(1);
            write_signed_order(buf, v);
        },
    }
    assert(buf@ =~= mid + enc_opt_lock(ol.lock));
    let ghost mid2 = buf@;
    match &ol.layout {
        None => buf.push(0),
        Some(b) => {
            buf.push(1);
            push_var_bytes(buf, b);
        },
    }
    assert(buf@ =~= mid2 + enc_opt_layout(ol.layout));
    assert(final(buf)@ =~= old(buf)@ + enc_object_response(*ol));
}

fn write_opt_object_response(buf: &mut Vec<u8>, o: &Option<ObjectResponse>)
    ensures
        final(buf)@ == old(buf)@ + enc_opt_object_response(*o),
{
    match o {
        None => buf.push(0),
        Some(ol) => {
            buf.push(1);
            write_object_response(buf, ol);
        },
    }
    assert(final(buf)@ =~= old(buf)@ + enc_opt_object_response(*o));
}

fn write_opt_cert(buf: &mut Vec<u8>, o: &Option<CertifiedOrder>)
    ensures
        final(buf)@ == old(buf)@ + enc_opt_cert(*o),
{
    match o {
        None => buf.push(0),
        Some(c) => {
            buf.push(1);
            write_cert(buf, c);
        },
    }
    assert(final(buf)@ =~= old(buf)@ + enc_opt_cert(*o));
}

fn write_opt_object_ref(buf: &mut Vec<u8>, o: &Option<ObjectRef>)
    ensures
        final(buf)@ == old(buf)@ + enc_opt_object_ref(*o),
{
    match o {
        None => buf.push(0),
        Some(r) => {
            buf.push(1);
            write_object_ref(buf, r);
        },
    }
    assert(final(buf)@ =~= old(buf)@ + enc_opt_object_ref(*o));
}

fn write_response(buf: &mut Vec<u8>, r: &ObjectInfoResponse)
    ensures
        final(buf)@ == old(buf)@ + enc_response(*r),
{
    write_opt_object_response(buf, &r.object_and_lock);
    write_opt_cert(buf, &r.parent_certificate);
    write_opt_object_ref(buf, &r.requested_object_reference);
    assert(final(buf)@ =~= old(buf)@ + enc_response(*r));
}

fn error_byte(e: SuiError) -> (r: u8)
    ensures
        r == error_code(e),
{
    match e {
        SuiError::UnknownSigner => 0,
        SuiError::InvalidSignature => 1,
        SuiError::Equivocation => 2,
        SuiError::MalformedMessage => 3,
        SuiError::UnknownMessageKind => 4,
        SuiError::Truncated => 5,
        SuiError::EndOfStream => 6,
        SuiError::ObjectNotFound => 7,
        SuiError::ConflictingOrder => 8,
        SuiError::QuorumNotReached => 9,
    }
}

/// Appends the framed encoding of `m`; what `buf` held before is left as it was.
pub fn serialize_into(buf: &mut Vec<u8>, m: &SerializedMessage)
    ensures
        final(buf)@ == old(buf)@ + enc_message(*m),
{
    let ghost start = buf@;
    match m {
        SerializedMessage::Error(e) => {
            buf.push(0);
            buf.push(error_byte(**e));
        },
        SerializedMessage::Order(o) => {
            buf.push(1);
            write_order(buf, o);
        },
        SerializedMessage::ObjectInfoReq(q) => {
            buf.push(2);
            write_request(buf, q);
        },
        SerializedMessage::Vote(v) => {
            buf.push(3);
            write_signed_order(buf, v);
        },
        SerializedMessage::Cert(c) => {
            buf.push(4);
            write_cert(buf, c);
        },
        SerializedMessage::ObjectInfoResp(p) => {
            buf.push(5);
            write_response(buf, p);
        },
    }
    assert(buf@ =~= start + enc_message(*m));
}


// ---------------------------------------------------------------------------
// Reading
// ---------------------------------------------------------------------------
/// `e` occurs in `s` starting at `pos`.
pub open spec fn occurs_at(s: Seq<u8>, pos: int, e: Seq<u8>) -> bool {
    0 <= pos && pos + e.len() <= s.len() && s.subrange(pos, pos + e.len()) == e
}

proof fn lemma_occurs_concat(s: Seq<u8>, pos: int, a: Seq<u8>, b: Seq<u8>)
    ensures
        occurs_at(s, pos, a + b) <==> (occurs_at(s, pos, a) && occurs_at(s, pos + a.len(), b)),
{
    if occurs_at(s, pos, a + b) {
        assert(s.subrange(pos, pos + a.len()) =~= (a + b).subrange(0, a.len() as int));
        assert(s.subrange(pos + a.len(), pos + a.len() + b.len()) =~= (a + b).subrange(
            a.len() as int,
            (a + b).len() as int,
        ));
        assert((a + b).subrange(0, a.len() as int) =~= a);
        assert((a + b).subrange(a.len() as int, (a + b).len() as int) =~= b);
    }
    if occurs_at(s, pos, a) && occurs_at(s, pos + a.len(), b) {
        assert(s.subrange(pos, pos + (a + b).len()) =~= s.subrange(pos, pos + a.len()) + s.subrange(
            pos + a.len(),
            pos + a.len() + b.len(),
        ));
    }
}

proof fn lemma_occurs_same_len(s: Seq<u8>, pos: int, a: Seq<u8>, b: Seq<u8>)
    requires
        occurs_at(s, pos, a),
        occurs_at(s, pos, b),
        a.len() == b.len(),
    ensures
        a == b,
{
}

proof fn lemma_occurs_byte(s: Seq<u8>, pos: int, e: Seq<u8>, j: int)
    requires
        occurs_at(s, pos, e),
        0 <= j < e.len(),
    ensures
        s[pos + j] == e[j],
{
    assert(s.subrange(pos, pos + e.len())[j] == s[pos + j]);
}

proof fn lemma_u64_bytes(b0: u8, b1: u8, b2: u8, b3: u8, b4: u8, b5: u8, b6: u8, b7: u8, n: u64)
    requires
        n == (b0 as u64) | ((b1 as u64) << 8u64) | ((b2 as u64) << 16u64) | ((b3 as u64) << 24u64)
            | ((b4 as u64) << 32u64) | ((b5 as u64) << 40u64) | ((b6 as u64) << 48u64) | ((
        b7 as u64) << 56u64),
    ensures
        n as u8 == b0,
        (n >> 8u64) as u8 == b1,
        (n >> 16u64) as u8 == b2,
        (n >> 24u64) as u8 == b3,
        (n >> 32u64) as u8 == b4,
        (n >> 40u64) as u8 == b5,
        (n >> 48u64) as u8 == b6,
        (n >> 56u64) as u8 == b7,
{
    assert(n as u8 == b0 && (n >> 8u64) as u8 == b1 && (n >> 16u64) as u8 == b2 && (n >> 24u64) as u8
        == b3 && (n >> 32u64) as u8 == b4 && (n >> 40u64) as u8 == b5 && (n >> 48u64) as u8 == b6
        && (n >> 56u64) as u8 == b7) by (bit_vector)
        requires
            n == (b0 as u64) | ((b1 as u64) << 8u64) | ((b2 as u64) << 16u64) | ((b3 as u64)
                << 24u64) | ((b4 as u64) << 32u64) | ((b5 as u64) << 40u64) | ((b6 as u64)
                << 48u64) | ((b7 as u64) << 56u64),
    ;
}

proof fn lemma_enc_u64_injective(a: u64, b: u64)
    requires
        enc_u64(a) == enc_u64(b),
    ensures
        a == b,
{
    assert(enc_u64(a)[0] == enc_u64(b)[0]);
    assert(enc_u64(a)[1] == enc_u64(b)[1]);
    assert(enc_u64(a)[2] == enc_u64(b)[2]);
    assert(enc_u64(a)[3] == enc_u64(b)[3]);
    assert(enc_u64(a)[4] == enc_u64(b)[4]);
    assert(enc_u64(a)[5] == enc_u64(b)[5]);
    assert(enc_u64(a)[6] == enc_u64(b)[6]);
    assert(enc_u64(a)[7] == enc_u64(b)[7]);
    assert(a == b) by (bit_vector)
        requires
            a as u8 == b as u8,
            (a >> 8u64) as u8 == (b >> 8u64) as u8,
            (a >> 16u64) as u8 == (b >> 16u64) as u8,
            (a >> 24u64) as u8 == (b >> 24u64) as u8,
            (a >> 32u64) as u8 == (b >> 32u64) as u8,
            (a >> 40u64) as u8 == (b >> 40u64) as u8,
            (a >> 48u64) as u8 == (b >> 48u64) as u8,
            (a >> 56u64) as u8 == (b >> 56u64) as u8,
    ;
}

/// A `u64` whose encoding occurs at `pos` is the one read there.
proof fn lemma_u64_at(s: Seq<u8>, pos: int, a: u64, b: u64)
    requires
        occurs_at(s, pos, enc_u64(a)),
        occurs_at(s, pos, enc_u64(b)),
    ensures
        a == b,
{
    lemma_occurs_same_len(s, pos, enc_u64(a), enc_u64(b));
    lemma_enc_u64_injective(a, b);
}

proof fn lemma_vote_entries_len(s: Seq<(PublicKeyBytes, Signature)>)
    requires
        vote_entries_wf(s),
    ensures
        enc_vote_entries(s).len() == 96 * s.len(),
    decreases s.len(),
{
    if s.len() > 0 {
        assert(vote_entry_wf(s[s.len() - 1]));
        assert(vote_entries_wf(s.drop_last())) by {
            assert forall|i: int| 0 <= i < s.drop_last().len() implies #[trigger] vote_entry_wf(
                s.drop_last()[i],
            ) by {
                assert(vote_entry_wf(s[i]));
            }
        }
        lemma_vote_entries_len(s.drop_last());
    }
}

fn take_bytes(input: &[u8], pos: usize, n: usize) -> (r: Vec<u8>)
    requires
        input@.len() <= usize::MAX,
        pos + n <= input@.len(),
    ensures
        r@ == input@.subrange(pos as int, pos + n),
{
    let mut v: Vec<u8> = Vec::new();
    let mut i: usize = 0;
    while i < n
        invariant
            pos + n <= input@.len(),
            input@.len() <= usize::MAX,
            i <= n,
            v@ == input@.subrange(pos as int, pos + i),
        decreases n - i,
    {
        v.push(input[pos + i]);
        assert(input@.subrange(pos as int, pos + i + 1) == input@.subrange(pos as int, pos + i).push(
            input@[pos + i],
        ));
        i = i + 1;
    }
    v
}

fn take_u64(input: &[u8], pos: usize) -> (r: u64)
    requires
        input@.len() <= usize::MAX,
        pos + 8 <= input@.len(),
    ensures
        occurs_at(input@, pos as int, enc_u64(r)),
{
    let b0 = input[pos];
    let b1 = input[pos + 1];
    let b2 = input[pos + 2];
    let b3 = input[pos + 3];
    let b4 = input[pos + 4];
    let b5 = input[pos + 5];
    let b6 = input[pos + 6];
    let b7 = input[pos + 7];
    let n: u64 = (b0 as u64) | ((b1 as u64) << 8u64) | ((b2 as u64) << 16u64) | ((b3 as u64)
        << 24u64) | ((b4 as u64) << 32u64) | ((b5 as u64) << 40u64) | ((b6 as u64) << 48u64) | ((
    b7 as u64) << 56u64);
    proof {
        lemma_u64_bytes(b0, b1, b2, b3, b4, b5, b6, b7, n);
        assert(input@.subrange(pos as int, pos + 8) =~= enc_u64(n));
    }
    n
}

fn take_object_ref(input: &[u8], pos: usize) -> (r: ObjectRef)
    requires
        input@.len() <= usize::MAX,
        pos + 60 <= input@.len(),
    ensures
        object_ref_wf(r),
        occurs_at(input@, pos as int, enc_object_ref(r)),
        enc_object_ref(r).len() == 60,
{
    let id = take_bytes(input, pos, 20);
    let version = take_u64(input, pos + 20);
    let digest = take_bytes(input, pos + 28, 32);
    let r = ObjectRef(ObjectID { bytes: id }, SequenceNumber { value: version }, ObjectDigest {
        bytes: digest,
    });
    proof {
        lemma_occurs_concat(input@, pos + 20, enc_u64(version), digest@);
        lemma_occurs_concat(input@, pos as int, id@, enc_u64(version) + digest@);
    }
    r
}

fn take_order_data(input: &[u8], pos: usize) -> (r: OrderData)
    requires
        input@.len() <= usize::MAX,
        pos + 184 <= input@.len(),
    ensures
        r.wf(),
        occurs_at(input@, pos as int, enc_order_data(r)),
        enc_order_data(r).len() == 184,
{
    let sender = take_bytes(input, pos, 32);
    let recipient = take_bytes(input, pos + 32, 32);
    let object_ref = take_object_ref(input, pos + 64);
    let gas_payment = take_object_ref(input, pos + 124);
    let r = OrderData {
        sender: PublicKeyBytes { bytes: sender },
        recipient: PublicKeyBytes { bytes: recipient },
        object_ref,
        gas_payment,
    };
    proof {
        lemma_occurs_concat(input@, pos + 64, enc_object_ref(object_ref), enc_object_ref(gas_payment));
        lemma_occurs_concat(
            input@,
            pos + 32,
            recipient@,
            enc_object_ref(object_ref) + enc_object_ref(gas_payment),
        );
        lemma_occurs_concat(
            input@,
            pos as int,
            sender@,
            recipient@ + (enc_object_ref(object_ref) + enc_object_ref(gas_payment)),
        );
    }
    r
}

fn take_order(input: &[u8], pos: usize) -> (r: Order)
    requires
        input@.len() <= usize::MAX,
        pos + 248 <= input@.len(),
    ensures
        r.wf(),
        occurs_at(input@, pos as int, enc_order(r)),
        enc_order(r).len() == 248,
{
    let data = take_order_data(input, pos);
    let sig = take_bytes(input, pos + 184, 64);
    proof {
        lemma_occurs_concat(input@, pos as int, enc_order_data(data), sig@);
    }
    Order { data, signature: Signature { bytes: sig } }
}

fn take_signed_order(input: &[u8], pos: usize) -> (r: SignedOrder)
    requires
        input@.len() <= usize::MAX,
        pos + 344 <= input@.len(),
    ensures
        r.wf(),
        occurs_at(input@, pos as int, enc_signed_order(r)),
        enc_signed_order(r).len() == 344,
{
    let order = take_order(input, pos);
    let authority = take_bytes(input, pos + 248, 32);
    let sig = take_bytes(input, pos + 280, 64);
    proof {
        lemma_occurs_concat(input@, pos + 248, authority@, sig@);
        lemma_occurs_concat(input@, pos as int, enc_order(order), authority@ + sig@);
    }
    SignedOrder {
        order,
        authority: PublicKeyBytes { bytes: authority },
        signature: Signature { bytes: sig },
    }
}

fn read_var_bytes(input: &[u8], pos: usize) -> (r: Result<(Vec<u8>, usize), SuiError>)
    requires
        pos <= input@.len(),
    ensures
        r matches Ok((b, p)) ==> b@.len() <= u64::MAX && p == pos + enc_var_bytes(b@).len() && occurs_at(
            input@,
            pos as int,
            enc_var_bytes(b@),
        ),
        forall|x: Seq<u8>| #[trigger]
            occurs_at(input@, pos as int, enc_var_bytes(x)) ==> (r is Ok && r->Ok_0.0@ == x),
        r matches Err(e) ==> e == SuiError::Truncated,
{
    let len = input.len();
    if len - pos < 8 {
        return Err(SuiError::Truncated);
    }
    let n = take_u64(input, pos);
    let avail = len - pos - 8;
    if n > avail as u64 {
        proof {
            assert forall|x: Seq<u8>| !#[trigger] occurs_at(input@, pos as int, enc_var_bytes(x)) by {
                if occurs_at(input@, pos as int, enc_var_bytes(x)) {
                    lemma_occurs_concat(input@, pos as int, enc_u64(x.len() as u64), x);
                    lemma_u64_at(input@, pos as int, n, x.len() as u64);
                }
            }
        }
        return Err(SuiError::Truncated);
    }
    let b = take_bytes(input, pos + 8, n as usize);
    proof {
        lemma_occurs_concat(input@, pos as int, enc_u64(n), b@);
        assert forall|x: Seq<u8>| #[trigger] occurs_at(input@, pos as int, enc_var_bytes(x)) implies x
            == b@ by {
            lemma_occurs_concat(input@, pos as int, enc_u64(x.len() as u64), x);
            lemma_u64_at(input@, pos as int, n, x.len() as u64);
            lemma_occurs_same_len(input@, pos as int, enc_var_bytes(x), enc_var_bytes(b@));
            assert(enc_var_bytes(x).subrange(8, enc_var_bytes(x).len() as int) =~= x);
            assert(enc_var_bytes(b@).subrange(8, enc_var_bytes(b@).len() as int) =~= b@);
        }
    }
    Ok((b, pos + 8 + n as usize))
}


proof fn lemma_tagged(s: Seq<u8>, pos: int, t: u8, body: Seq<u8>)
    ensures
        occurs_at(s, pos, seq![t] + body) <==> (0 <= pos < s.len() && s[pos] == t && occurs_at(
            s,
            pos + 1,
            body,
        )),
{
    lemma_occurs_concat(s, pos, seq![t], body);
    if 0 <= pos < s.len() && s[pos] == t {
        assert(s.subrange(pos, pos + 1) =~= seq![t]);
    }
    if occurs_at(s, pos, seq![t]) {
        lemma_occurs_byte(s, pos, seq![t], 0);
    }
}

proof fn lemma_single(s: Seq<u8>, pos: int, t: u8)
    ensures
        occurs_at(s, pos, seq![t]) <==> (0 <= pos < s.len() && s[pos] == t),
{
    if 0 <= pos < s.len() && s[pos] == t {
        assert(s.subrange(pos, pos + 1) =~= seq![t]);
    }
    if occurs_at(s, pos, seq![t]) {
        lemma_occurs_byte(s, pos, seq![t], 0);
    }
}

proof fn lemma_cert_parts(s: Seq<u8>, pos: int, c: CertifiedOrder)
    requires
        c.wf(),
    ensures
        occurs_at(s, pos, enc_cert(c)) <==> (occurs_at(s, pos, enc_order(c.order)) && occurs_at(
            s,
            pos + 248,
            enc_u64(c.signatures@.len() as u64),
        ) && occurs_at(s, pos + 256, enc_vote_entries(c.signatures@))),
        enc_cert(c).len() == 256 + 96 * c.signatures@.len(),
{
    lemma_vote_entries_len(c.signatures@);
    lemma_occurs_concat(
        s,
        pos,
        enc_order(c.order),
        enc_u64(c.signatures@.len() as u64) + enc_vote_entries(c.signatures@),
    );
    lemma_occurs_concat(
        s,
        pos + 248,
        enc_u64(c.signatures@.len() as u64),
        enc_vote_entries(c.signatures@),
    );
}

fn read_cert(input: &[u8], pos: usize) -> (r: Result<(CertifiedOrder, usize), SuiError>)
    requires
        pos <= input@.len(),
    ensures
        r matches Ok((c, p)) ==> c.wf() && p == pos + enc_cert(c).len() && occurs_at(
            input@,
            pos as int,
            enc_cert(c),
        ),
        forall|x: CertifiedOrder| #[trigger]
            occurs_at(input@, pos as int, enc_cert(x)) && x.wf() ==> (r is Ok && enc_cert(
                r->Ok_0.0,
            ) == enc_cert(x)),
        r matches Err(e) ==> e == SuiError::Truncated,
{
    let len = input.len();
    if len - pos < 256 {
        proof {
            assert forall|x: CertifiedOrder| x.wf() implies !#[trigger] occurs_at(
                input@,
                pos as int,
                enc_cert(x),
            ) by {
                lemma_cert_parts(input@, pos as int, x);
            }
        }
        return Err(SuiError::Truncated);
    }
    let order = take_order(input, pos);
    let n = take_u64(input, pos + 248);
    let avail = len - pos - 256;
    if n > (avail / 96) as u64 {
        proof {
            assert forall|x: CertifiedOrder| x.wf() implies !#[trigger] occurs_at(
                input@,
                pos as int,
                enc_cert(x),
            ) by {
                lemma_cert_parts(input@, pos as int, x);
                if occurs_at(input@, pos as int, enc_cert(x)) {
                    let k = x.signatures@.len();
                    assert(k <= avail / 96) by (nonlinear_arith)
                        requires
                            96 * k <= avail,
                    ;
                    lemma_u64_at(input@, pos + 248, n, k as u64);
                }
            }
        }
        return Err(SuiError::Truncated);
    }
    assert(96 * (n as int) <= avail) by (nonlinear_arith)
        requires
            n <= avail / 96,
    ;
    let mut sigs: Vec<(PublicKeyBytes, Signature)> = Vec::new();
    let mut i: u64 = 0;
    let mut p: usize = pos + 256;
    assert(sigs@ =~= Seq::<(PublicKeyBytes, Signature)>::empty());
    assert(input@.subrange(pos + 256, pos + 256) =~= Seq::<u8>::empty());
    while i < n
        invariant
            len == input@.len(),
            pos + 256 + avail == len,
            96 * (n as int) <= avail,
            i <= n,
            sigs@.len() == i,
            p == pos + 256 + 96 * i,
            vote_entries_wf(sigs@),
            occurs_at(input@, pos + 256, enc_vote_entries(sigs@)),
        decreases n - i,
    {
        let name = take_bytes(input, p, 32);
        let sig = take_bytes(input, p + 32, 64);
        let ghost old_sigs = sigs@;
        let e = (PublicKeyBytes { bytes: name }, Signature { bytes: sig });
        sigs.push(e);
        proof {
            lemma_vote_entries_len(old_sigs);
            lemma_occurs_concat(input@, p as int, name@, sig@);
            assert(sigs@.drop_last() == old_sigs);
            lemma_occurs_concat(input@, pos + 256, enc_vote_entries(old_sigs), enc_vote_entry(e));
            assert forall|j: int| 0 <= j < sigs@.len() implies #[trigger] vote_entry_wf(sigs@[j]) by {
                if j < old_sigs.len() {
                    assert(vote_entry_wf(old_sigs[j]));
                }
            }
        }
        p = p + 96;
        i = i + 1;
    }
    let c = CertifiedOrder { order, signatures: sigs };
    proof {
        lemma_cert_parts(input@, pos as int, c);
        assert forall|x: CertifiedOrder| #[trigger]
            occurs_at(input@, pos as int, enc_cert(x)) && x.wf() implies enc_cert(c) == enc_cert(x) by {
            lemma_cert_parts(input@, pos as int, x);
            lemma_u64_at(input@, pos + 248, n, x.signatures@.len() as u64);
            lemma_occurs_same_len(input@, pos as int, enc_cert(c), enc_cert(x));
        }
    }
    Ok((c, p))
}


proof fn lemma_request_kind_bytes(s: Seq<u8>, pos: int, k: ObjectInfoRequestKind)
    requires
        occurs_at(s, pos, enc_request_kind(k)),
    ensures
        match k {
            ObjectInfoRequestKind::LatestObjectInfo(None) => s[pos] == 0 && s[pos + 1] == 0
                && enc_request_kind(k).len() == 2,
            ObjectInfoRequestKind::LatestObjectInfo(Some(o)) => s[pos] == 0 && s[pos + 1] == 1
                && s[pos + 2] == (if o.include_types {
                1u8
            } else {
                0u8
            }) && enc_request_kind(k).len() == 3,
            ObjectInfoRequestKind::PastObjectInfo(v) => s[pos] == 1 && occurs_at(
                s,
                pos + 1,
                enc_u64(v.value),
            ) && enc_request_kind(k).len() == 9,
        },
{
    let e = enc_request_kind(k);
    lemma_occurs_byte(s, pos, e, 0);
    match k {
        ObjectInfoRequestKind::LatestObjectInfo(None) => {
            lemma_occurs_byte(s, pos, e, 1);
        },
        ObjectInfoRequestKind::LatestObjectInfo(Some(o)) => {
            lemma_occurs_byte(s, pos, e, 1);
            lemma_occurs_byte(s, pos, e, 2);
        },
        ObjectInfoRequestKind::PastObjectInfo(v) => {
            lemma_tagged(s, pos, 1, enc_u64(v.value));
        },
    }
}

fn read_request_kind(input: &[u8], pos: usize) -> (r: Result<(ObjectInfoRequestKind, usize), SuiError>)
    requires
        pos <= input@.len(),
    ensures
        r matches Ok((k, p)) ==> p == pos + enc_request_kind(k).len() && occurs_at(
            input@,
            pos as int,
            enc_request_kind(k),
        ),
        forall|x: ObjectInfoRequestKind| #[trigger]
            occurs_at(input@, pos as int, enc_request_kind(x)) ==> (r is Ok && r->Ok_0.0 == x),
        r matches Err(e) ==> e == SuiError::Truncated || e == SuiError::MalformedMessage,
{
    let len = input.len();
    if len - pos < 2 {
        proof {
            assert forall|x: ObjectInfoRequestKind| !#[trigger] occurs_at(
                input@,
                pos as int,
                enc_request_kind(x),
            ) by {
                if occurs_at(input@, pos as int, enc_request_kind(x)) {
                    lemma_request_kind_bytes(input@, pos as int, x);
                }
            }
        }
        return Err(SuiError::Truncated);
    }
    let tag = input[pos];
    let k: ObjectInfoRequestKind;
    let p: usize;
    if tag == 0 && input[pos + 1] == 0 {
        k = ObjectInfoRequestKind::LatestObjectInfo(None);
        p = pos + 2;
        assert(input@.subrange(pos as int, pos + 2) =~= enc_request_kind(k));
    } else if tag == 0 && input[pos + 1] == 1 {
        if len - pos < 3 || input[pos + 2] > 1 {
            proof {
                assert forall|x: ObjectInfoRequestKind| !#[trigger] occurs_at(
                    input@,
                    pos as int,
                    enc_request_kind(x),
                ) by {
                    if occurs_at(input@, pos as int, enc_request_kind(x)) {
                        lemma_request_kind_bytes(input@, pos as int, x);
                    }
                }
            }
            return if len - pos < 3 {
                Err(SuiError::Truncated)
            } else {
                Err(SuiError::MalformedMessage)
            };
        }
        k = ObjectInfoRequestKind::LatestObjectInfo(
            Some(ObjectFormatOptions { include_types: input[pos + 2] == 1 }),
        );
        p = pos + 3;
        assert(input@.subrange(pos as int, pos + 3) =~= enc_request_kind(k));
    } else if tag == 1 {
        if len - pos < 9 {
            proof {
                assert forall|x: ObjectInfoRequestKind| !#[trigger] occurs_at(
                    input@,
                    pos as int,
                    enc_request_kind(x),
                ) by {
                    if occurs_at(input@, pos as int, enc_request_kind(x)) {
                        lemma_request_kind_bytes(input@, pos as int, x);
                    }
                }
            }
            return Err(SuiError::Truncated);
        }
        let v = take_u64(input, pos + 1);
        k = ObjectInfoRequestKind::PastObjectInfo(SequenceNumber { value: v });
        p = pos + 9;
        proof {
            lemma_tagged(input@, pos as int, 1, enc_u64(v));
        }
    } else {
        proof {
            assert forall|x: ObjectInfoRequestKind| !#[trigger] occurs_at(
                input@,
                pos as int,
                enc_request_kind(x),
            ) by {
                if occurs_at(input@, pos as int, enc_request_kind(x)) {
                    lemma_request_kind_bytes(input@, pos as int, x);
                }
            }
        }
        return Err(SuiError::MalformedMessage);
    }
    proof {
        assert forall|x: ObjectInfoRequestKind| #[trigger]
            occurs_at(input@, pos as int, enc_request_kind(x)) implies k == x by {
            lemma_request_kind_bytes(input@, pos as int, x);
            match x {
                ObjectInfoRequestKind::PastObjectInfo(v) => {
                    lemma_u64_at(input@, pos + 1, v.value, k->PastObjectInfo_0.value);
                },
                _ => {},
            }
        }
    }
    Ok((k, p))
}

fn read_request(input: &[u8], pos: usize) -> (r: Result<(ObjectInfoRequest, usize), SuiError>)
    requires
        pos <= input@.len(),
    ensures
        r matches Ok((q, p)) ==> q.wf() && p == pos + enc_request(q).len() && occurs_at(
            input@,
            pos as int,
            enc_request(q),
        ),
        forall|x: ObjectInfoRequest| #[trigger]
            occurs_at(input@, pos as int, enc_request(x)) && x.wf() ==> (r is Ok && enc_request(
                r->Ok_0.0,
            ) == enc_request(x)),
        r matches Err(e) ==> e == SuiError::Truncated || e == SuiError::MalformedMessage,
{
    let len = input.len();
    if len - pos < 20 {
        proof {
            assert forall|x: ObjectInfoRequest| x.wf() implies !#[trigger] occurs_at(
                input@,
                pos as int,
                enc_request(x),
            ) by {
                lemma_occurs_concat(input@, pos as int, x.object_id.bytes@, enc_request_kind(x.request_kind));
            }
        }
        return Err(SuiError::Truncated);
    }
    let id = take_bytes(input, pos, 20);
    let (kind, p) = match read_request_kind(input, pos + 20) {
        Ok(v) => v,
        Err(e) => {
            proof {
                assert forall|x: ObjectInfoRequest| x.wf() implies !#[trigger] occurs_at(
                    input@,
                    pos as int,
                    enc_request(x),
                ) by {
                    lemma_occurs_concat(input@, pos as int, x.object_id.bytes@, enc_request_kind(x.request_kind));
                }
            }
            return Err(e);
        },
    };
    let q = ObjectInfoRequest { object_id: ObjectID { bytes: id }, request_kind: kind };
    proof {
        lemma_occurs_concat(input@, pos as int, id@, enc_request_kind(kind));
        assert forall|x: ObjectInfoRequest| #[trigger]
            occurs_at(input@, pos as int, enc_request(x)) && x.wf() implies enc_request(q)
            == enc_request(x) by {
            lemma_occurs_concat(input@, pos as int, x.object_id.bytes@, enc_request_kind(x.request_kind));
            lemma_occurs_same_len(input@, pos as int, enc_request(q), enc_request(x));
        }
    }
    Ok((q, p))
}

proof fn lemma_object_parts(s: Seq<u8>, pos: int, o: Object)
    requires
        o.wf(),
    ensures
        occurs_at(s, pos, enc_object(o)) <==> (occurs_at(s, pos, o.id.bytes@) && occurs_at(
            s,
            pos + 20,
            enc_u64(o.version.value),
        ) && occurs_at(s, pos + 28, o.owner.bytes@) && occurs_at(
            s,
            pos + 60,
            enc_var_bytes(o.contents@),
        ) && occurs_at(s, pos + 60 + enc_var_bytes(o.contents@).len(), o.previous_transaction.bytes@)),
        enc_object(o).len() == 100 + o.contents@.len(),
{
    let v = enc_var_bytes(o.contents@);
    let d = o.previous_transaction.bytes@;
    lemma_occurs_concat(s, pos + 60, v, d);
    lemma_occurs_concat(s, pos + 28, o.owner.bytes@, v + d);
    lemma_occurs_concat(s, pos + 20, enc_u64(o.version.value), o.owner.bytes@ + (v + d));
    lemma_occurs_concat(s, pos, o.id.bytes@, enc_u64(o.version.value) + (o.owner.bytes@ + (v + d)));
}

fn read_object(input: &[u8], pos: usize) -> (r: Result<(Object, usize), SuiError>)
    requires
        pos <= input@.len(),
    ensures
        r matches Ok((o, p)) ==> o.wf() && p == pos + enc_object(o).len() && occurs_at(
            input@,
            pos as int,
            enc_object(o),
        ),
        forall|x: Object| #[trigger]
            occurs_at(input@, pos as int, enc_object(x)) && x.wf() ==> (r is Ok && enc_object(
                r->Ok_0.0,
            ) == enc_object(x)),
        r matches Err(e) ==> e == SuiError::Truncated,
{
    let len = input.len();
    if len - pos < 60 {
        proof {
            assert forall|x: Object| x.wf() implies !#[trigger] occurs_at(input@, pos as int, enc_object(x)) by {
                lemma_object_parts(input@, pos as int, x);
            }
        }
        return Err(SuiError::Truncated);
    }
    let id = take_bytes(input, pos, 20);
    let version = take_u64(input, pos + 20);
    let owner = take_bytes(input, pos + 28, 32);
    let (contents, p) = match read_var_bytes(input, pos + 60) {
        Ok(v) => v,
        Err(e) => {
            proof {
                assert forall|x: Object| x.wf() implies !#[trigger] occurs_at(input@, pos as int, enc_object(x)) by {
                    lemma_object_parts(input@, pos as int, x);
                }
            }
            return Err(e);
        },
    };
    if len - p < 32 {
        proof {
            assert forall|x: Object| x.wf() implies !#[trigger] occurs_at(input@, pos as int, enc_object(x)) by {
                lemma_object_parts(input@, pos as int, x);
            }
        }
        return Err(SuiError::Truncated);
    }
    let digest = take_bytes(input, p, 32);
    let o = Object {
        id: ObjectID { bytes: id },
        version: SequenceNumber { value: version },
        owner: PublicKeyBytes { bytes: owner },
        contents,
        previous_transaction: TransactionDigest { bytes: digest },
    };
    proof {
        lemma_object_parts(input@, pos as int, o);
        assert forall|x: Object| #[trigger]
            occurs_at(input@, pos as int, enc_object(x)) && x.wf() implies enc_object(o) == enc_object(x) by {
            lemma_object_parts(input@, pos as int, x);
            lemma_occurs_same_len(input@, pos as int, enc_object(o), enc_object(x));
        }
    }
    Ok((o, p + 32))
}


pub open spec fn opt_lock_wf(l: Option<SignedOrder>) -> bool {
    l matches Some(v) ==> v.wf()
}

pub open spec fn opt_object_response_wf(o: Option<ObjectResponse>) -> bool {
    o matches Some(r) ==> r.wf()
}

pub open spec fn opt_cert_wf(o: Option<CertifiedOrder>) -> bool {
    o matches Some(c) ==> c.wf()
}

pub open spec fn opt_object_ref_wf(o: Option<ObjectRef>) -> bool {
    o matches Some(r) ==> object_ref_wf(r)
}

fn read_opt_lock(input: &[u8], pos: usize) -> (r: Result<(Option<SignedOrder>, usize), SuiError>)
    requires
        pos <= input@.len(),
    ensures
        r matches Ok((l, p)) ==> opt_lock_wf(l) && p == pos + enc_opt_lock(l).len() && occurs_at(
            input@,
            pos as int,
            enc_opt_lock(l),
        ),
        forall|x: Option<SignedOrder>| #[trigger]
            occurs_at(input@, pos as int, enc_opt_lock(x)) && opt_lock_wf(x) ==> (r is Ok
                && enc_opt_lock(r->Ok_0.0) == enc_opt_lock(x)),
        r matches Err(e) ==> e == SuiError::Truncated || e == SuiError::MalformedMessage,
{
    let len = input.len();
    if len - pos < 1 {
        proof {
            assert forall|x: Option<SignedOrder>| !#[trigger] occurs_at(input@, pos as int, enc_opt_lock(x)) by {}
        }
        return Err(SuiError::Truncated);
    }
    let tag = input[pos];
    if tag == 0 {
        proof {
            lemma_single(input@, pos as int, 0);
            assert forall|x: Option<SignedOrder>| #[trigger]
                occurs_at(input@, pos as int, enc_opt_lock(x)) implies x is None by {
                if let Some(v) = x {
                    lemma_tagged(input@, pos as int, 1, enc_signed_order(v));
                }
            }
        }
        return Ok((None, pos + 1));
    }
    if tag != 1 || len - pos - 1 < 344 {
        proof {
            assert forall|x: Option<SignedOrder>| opt_lock_wf(x) implies !#[trigger] occurs_at(
                input@,
                pos as int,
                enc_opt_lock(x),
            ) by {
                match x {
                    None => lemma_single(input@, pos as int, 0),
                    Some(v) => lemma_tagged(input@, pos as int, 1, enc_signed_order(v)),
                }
            }
        }
        return if tag != 1 {
            Err(SuiError::MalformedMessage)
        } else {
            Err(SuiError::Truncated)
        };
    }
    let v = take_signed_order(input, pos + 1);
    proof {
        lemma_tagged(input@, pos as int, 1, enc_signed_order(v));
        assert forall|x: Option<SignedOrder>| #[trigger]
            occurs_at(input@, pos as int, enc_opt_lock(x)) && opt_lock_wf(x) implies enc_opt_lock(
            Some(v),
        ) == enc_opt_lock(x) by {
            match x {
                None => lemma_single(input@, pos as int, 0),
                Some(w) => {
                    lemma_tagged(input@, pos as int, 1, enc_signed_order(w));
                    lemma_occurs_same_len(input@, pos + 1, enc_signed_order(v), enc_signed_order(w));
                },
            }
        }
    }
    Ok((Some(v), pos + 345))
}

fn read_opt_layout(input: &[u8], pos: usize) -> (r: Result<(Option<Vec<u8>>, usize), SuiError>)
    requires
        pos <= input@.len(),
    ensures
        r matches Ok((l, p)) ==> (l matches Some(b) ==> b@.len() <= u64::MAX) && p == pos
            + enc_opt_layout(l).len() && occurs_at(
            input@,
            pos as int,
            enc_opt_layout(l),
        ),
        forall|x: Option<Vec<u8>>| #[trigger]
            occurs_at(input@, pos as int, enc_opt_layout(x)) ==> (r is Ok && enc_opt_layout(
                r->Ok_0.0,
            ) == enc_opt_layout(x)),
        r matches Err(e) ==> e == SuiError::Truncated || e == SuiError::MalformedMessage,
{
    let len = input.len();
    if len - pos < 1 {
        proof {
            assert forall|x: Option<Vec<u8>>| !#[trigger] occurs_at(input@, pos as int, enc_opt_layout(x)) by {}
        }
        return Err(SuiError::Truncated);
    }
    let tag = input[pos];
    if tag == 0 {
        proof {
            lemma_single(input@, pos as int, 0);
            assert forall|x: Option<Vec<u8>>| #[trigger]
                occurs_at(input@, pos as int, enc_opt_layout(x)) implies x is None by {
                if let Some(b) = x {
                    lemma_tagged(input@, pos as int, 1, enc_var_bytes(b@));
                }
            }
        }
        return Ok((None, pos + 1));
    }
    if tag != 1 {
        proof {
            assert forall|x: Option<Vec<u8>>| !#[trigger] occurs_at(input@, pos as int, enc_opt_layout(x)) by {
                match x {
                    None => lemma_single(input@, pos as int, 0),
                    Some(b) => lemma_tagged(input@, pos as int, 1, enc_var_bytes(b@)),
                }
            }
        }
        return Err(SuiError::MalformedMessage);
    }
    let (b, p) = match read_var_bytes(input, pos + 1) {
        Ok(v) => v,
        Err(e) => {
            proof {
                assert forall|x: Option<Vec<u8>>| !#[trigger] occurs_at(input@, pos as int, enc_opt_layout(x)) by {
                    match x {
                        None => lemma_single(input@, pos as int, 0),
                        Some(c) => lemma_tagged(input@, pos as int, 1, enc_var_bytes(c@)),
                    }
                }
            }
            return Err(e);
        },
    };
    proof {
        lemma_tagged(input@, pos as int, 1, enc_var_bytes(b@));
        assert forall|x: Option<Vec<u8>>| #[trigger]
            occurs_at(input@, pos as int, enc_opt_layout(x)) implies enc_opt_layout(Some(b))
            == enc_opt_layout(x) by {
            match x {
                None => lemma_single(input@, pos as int, 0),
                Some(c) => lemma_tagged(input@, pos as int, 1, enc_var_bytes(c@)),
            }
        }
    }
    Ok((Some(b), p))
}

fn read_object_response(input: &[u8], pos: usize) -> (r: Result<(ObjectResponse, usize), SuiError>)
    requires
        pos <= input@.len(),
    ensures
        r matches Ok((o, p)) ==> o.wf() && p == pos + enc_object_response(o).len() && occurs_at(
            input@,
            pos as int,
            enc_object_response(o),
        ),
        forall|x: ObjectResponse| #[trigger]
            occurs_at(input@, pos as int, enc_object_response(x)) && x.wf() ==> (r is Ok
                && enc_object_response(r->Ok_0.0) == enc_object_response(x)),
        r matches Err(e) ==> e == SuiError::Truncated || e == SuiError::MalformedMessage,
{
    let ghost s = input@;
    let (object, p1) = match read_object(input, pos) {
        Ok(v) => v,
        Err(e) => {
            proof {
                assert forall|x: ObjectResponse| x.wf() implies !#[trigger] occurs_at(s, pos as int, enc_object_response(x)) by {
                    lemma_occurs_concat(s, pos as int, enc_object(x.object), enc_opt_lock(x.lock) + enc_opt_layout(x.layout));
                }
            }
            return Err(e);
        },
    };
    let (lock, p2) = match read_opt_lock(input, p1) {
        Ok(v) => v,
        Err(e) => {
            proof {
                assert forall|x: ObjectResponse| x.wf() implies !#[trigger] occurs_at(s, pos as int, enc_object_response(x)) by {
                    lemma_occurs_concat(s, pos as int, enc_object(x.object), enc_opt_lock(x.lock) + enc_opt_layout(x.layout));
                    lemma_occurs_concat(s, pos + enc_object(x.object).len(), enc_opt_lock(x.lock), enc_opt_layout(x.layout));
                }
            }
            return Err(e);
        },
    };
    let (layout, p3) = match read_opt_layout(input, p2) {
        Ok(v) => v,
        Err(e) => {
            proof {
                assert forall|x: ObjectResponse| x.wf() implies !#[trigger] occurs_at(s, pos as int, enc_object_response(x)) by {
                    lemma_occurs_concat(s, pos as int, enc_object(x.object), enc_opt_lock(x.lock) + enc_opt_layout(x.layout));
                    lemma_occurs_concat(s, pos + enc_object(x.object).len(), enc_opt_lock(x.lock), enc_opt_layout(x.layout));
                }
            }
            return Err(e);
        },
    };
    let o = ObjectResponse { object, lock, layout };
    proof {
        lemma_occurs_concat(s, pos as int, enc_object(object), enc_opt_lock(lock) + enc_opt_layout(layout));
        lemma_occurs_concat(s, p1 as int, enc_opt_lock(lock), enc_opt_layout(layout));
        assert forall|x: ObjectResponse| #[trigger]
            occurs_at(s, pos as int, enc_object_response(x)) && x.wf() implies enc_object_response(o)
            == enc_object_response(x) by {
            lemma_occurs_concat(s, pos as int, enc_object(x.object), enc_opt_lock(x.lock) + enc_opt_layout(x.layout));
            lemma_occurs_concat(s, pos + enc_object(x.object).len(), enc_opt_lock(x.lock), enc_opt_layout(x.layout));
        }
    }
    Ok((o, p3))
}


fn read_opt_object_response(input: &[u8], pos: usize) -> (r: Result<
    (Option<ObjectResponse>, usize),
    SuiError,
>)
    requires
        pos <= input@.len(),
    ensures
        r matches Ok((l, p)) ==> opt_object_response_wf(l) && p == pos + enc_opt_object_response(
            l,
        ).len() && occurs_at(input@, pos as int, enc_opt_object_response(l)),
        forall|x: Option<ObjectResponse>| #[trigger]
            occurs_at(input@, pos as int, enc_opt_object_response(x)) && opt_object_response_wf(x)
                ==> (r is Ok && enc_opt_object_response(r->Ok_0.0) == enc_opt_object_response(x)),
        r matches Err(e) ==> e == SuiError::Truncated || e == SuiError::MalformedMessage,
{
    let len = input.len();
    if len - pos < 1 {
        proof {
            assert forall|x: Option<ObjectResponse>| !#[trigger] occurs_at(input@, pos as int, enc_opt_object_response(x)) by {}
        }
        return Err(SuiError::Truncated);
    }
    let tag = input[pos];
    if tag == 0 {
        proof {
            lemma_single(input@, pos as int, 0);
            assert forall|x: Option<ObjectResponse>| #[trigger]
                occurs_at(input@, pos as int, enc_opt_object_response(x)) implies x is None by {
                if let Some(v) = x {
                    lemma_tagged(input@, pos as int, 1, enc_object_response(v));
                }
            }
        }
        return Ok((None, pos + 1));
    }
    if tag != 1 {
        proof {
            assert forall|x: Option<ObjectResponse>| !#[trigger] occurs_at(input@, pos as int, enc_opt_object_response(x)) by {
                match x {
                    None => lemma_single(input@, pos as int, 0),
                    Some(v) => lemma_tagged(input@, pos as int, 1, enc_object_response(v)),
                }
            }
        }
        return Err(SuiError::MalformedMessage);
    }
    let (v, p) = match read_object_response(input, pos + 1) {
        Ok(v) => v,
        Err(e) => {
            proof {
                assert forall|x: Option<ObjectResponse>| opt_object_response_wf(x) implies !#[trigger] occurs_at(input@, pos as int, enc_opt_object_response(x)) by {
                    match x {
                        None => lemma_single(input@, pos as int, 0),
                        Some(w) => lemma_tagged(input@, pos as int, 1, enc_object_response(w)),
                    }
                }
            }
            return Err(e);
        },
    };
    proof {
        lemma_tagged(input@, pos as int, 1, enc_object_response(v));
        assert forall|x: Option<ObjectResponse>| #[trigger]
            occurs_at(input@, pos as int, enc_opt_object_response(x)) && opt_object_response_wf(x)
            implies enc_opt_object_response(Some(v)) == enc_opt_object_response(x) by {
            match x {
                None => lemma_single(input@, pos as int, 0),
                Some(w) => lemma_tagged(input@, pos as int, 1, enc_object_response(w)),
            }
        }
    }
    Ok((Some(v), p))
}

fn read_opt_cert(input: &[u8], pos: usize) -> (r: Result<(Option<CertifiedOrder>, usize), SuiError>)
    requires
        pos <= input@.len(),
    ensures
        r matches Ok((l, p)) ==> opt_cert_wf(l) && p == pos + enc_opt_cert(l).len() && occurs_at(
            input@,
            pos as int,
            enc_opt_cert(l),
        ),
        forall|x: Option<CertifiedOrder>| #[trigger]
            occurs_at(input@, pos as int, enc_opt_cert(x)) && opt_cert_wf(x) ==> (r is Ok
                && enc_opt_cert(r->Ok_0.0) == enc_opt_cert(x)),
        r matches Err(e) ==> e == SuiError::Truncated || e == SuiError::MalformedMessage,
{
    let len = input.len();
    if len - pos < 1 {
        proof {
            assert forall|x: Option<CertifiedOrder>| !#[trigger] occurs_at(input@, pos as int, enc_opt_cert(x)) by {}
        }
        return Err(SuiError::Truncated);
    }
    let tag = input[pos];
    if tag == 0 {
        proof {
            lemma_single(input@, pos as int, 0);
            assert forall|x: Option<CertifiedOrder>| #[trigger]
                occurs_at(input@, pos as int, enc_opt_cert(x)) implies x is None by {
                if let Some(v) = x {
                    lemma_tagged(input@, pos as int, 1, enc_cert(v));
                }
            }
        }
        return Ok((None, pos + 1));
    }
    if tag != 1 {
        proof {
            assert forall|x: Option<CertifiedOrder>| !#[trigger] occurs_at(input@, pos as int, enc_opt_cert(x)) by {
                match x {
                    None => lemma_single(input@, pos as int, 0),
                    Some(v) => lemma_tagged(input@, pos as int, 1, enc_cert(v)),
                }
            }
        }
        return Err(SuiError::MalformedMessage);
    }
    let (v, p) = match read_cert(input, pos + 1) {
        Ok(v) => v,
        Err(e) => {
            proof {
                assert forall|x: Option<CertifiedOrder>| opt_cert_wf(x) implies !#[trigger] occurs_at(input@, pos as int, enc_opt_cert(x)) by {
                    match x {
                        None => lemma_single(input@, pos as int, 0),
                        Some(w) => lemma_tagged(input@, pos as int, 1, enc_cert(w)),
                    }
                }
            }
            return Err(e);
        },
    };
    proof {
        lemma_tagged(input@, pos as int, 1, enc_cert(v));
        assert forall|x: Option<CertifiedOrder>| #[trigger]
            occurs_at(input@, pos as int, enc_opt_cert(x)) && opt_cert_wf(x) implies enc_opt_cert(
            Some(v),
        ) == enc_opt_cert(x) by {
            match x {
                None => lemma_single(input@, pos as int, 0),
                Some(w) => lemma_tagged(input@, pos as int, 1, enc_cert(w)),
            }
        }
    }
    Ok((Some(v), p))
}

fn read_opt_object_ref(input: &[u8], pos: usize) -> (r: Result<(Option<ObjectRef>, usize), SuiError>)
    requires
        pos <= input@.len(),
    ensures
        r matches Ok((l, p)) ==> opt_object_ref_wf(l) && p == pos + enc_opt_object_ref(l).len()
            && occurs_at(input@, pos as int, enc_opt_object_ref(l)),
        forall|x: Option<ObjectRef>| #[trigger]
            occurs_at(input@, pos as int, enc_opt_object_ref(x)) && opt_object_ref_wf(x) ==> (r is Ok
                && enc_opt_object_ref(r->Ok_0.0) == enc_opt_object_ref(x)),
        r matches Err(e) ==> e == SuiError::Truncated || e == SuiError::MalformedMessage,
{
    let len = input.len();
    if len - pos < 1 {
        proof {
            assert forall|x: Option<ObjectRef>| !#[trigger] occurs_at(input@, pos as int, enc_opt_object_ref(x)) by {}
        }
        return Err(SuiError::Truncated);
    }
    let tag = input[pos];
    if tag == 0 {
        proof {
            lemma_single(input@, pos as int, 0);
            assert forall|x: Option<ObjectRef>| #[trigger]
                occurs_at(input@, pos as int, enc_opt_object_ref(x)) implies x is None by {
                if let Some(v) = x {
                    lemma_tagged(input@, pos as int, 1, enc_object_ref(v));
                }
            }
        }
        return Ok((None, pos + 1));
    }
    if tag != 1 || len - pos - 1 < 60 {
        proof {
            assert forall|x: Option<ObjectRef>| opt_object_ref_wf(x) implies !#[trigger] occurs_at(input@, pos as int, enc_opt_object_ref(x)) by {
                match x {
                    None => lemma_single(input@, pos as int, 0),
                    Some(v) => lemma_tagged(input@, pos as int, 1, enc_object_ref(v)),
                }
            }
        }
        return if tag != 1 {
            Err(SuiError::MalformedMessage)
        } else {
            Err(SuiError::Truncated)
        };
    }
    let v = take_object_ref(input, pos + 1);
    proof {
        lemma_tagged(input@, pos as int, 1, enc_object_ref(v));
        assert forall|x: Option<ObjectRef>| #[trigger]
            occurs_at(input@, pos as int, enc_opt_object_ref(x)) && opt_object_ref_wf(x) implies enc_opt_object_ref(
            Some(v),
        ) == enc_opt_object_ref(x) by {
            match x {
                None => lemma_single(input@, pos as int, 0),
                Some(w) => {
                    lemma_tagged(input@, pos as int, 1, enc_object_ref(w));
                    lemma_occurs_same_len(input@, pos + 1, enc_object_ref(v), enc_object_ref(w));
                },
            }
        }
    }
    Ok((Some(v), pos + 61))
}

fn read_response(input: &[u8], pos: usize) -> (r: Result<(ObjectInfoResponse, usize), SuiError>)
    requires
        pos <= input@.len(),
    ensures
        r matches Ok((o, p)) ==> o.wf() && p == pos + enc_response(o).len() && occurs_at(
            input@,
            pos as int,
            enc_response(o),
        ),
        forall|x: ObjectInfoResponse| #[trigger]
            occurs_at(input@, pos as int, enc_response(x)) && x.wf() ==> (r is Ok && enc_response(
                r->Ok_0.0,
            ) == enc_response(x)),
        r matches Err(e) ==> e == SuiError::Truncated || e == SuiError::MalformedMessage,
{
    let ghost s = input@;
    let (a, p1) = match read_opt_object_response(input, pos) {
        Ok(v) => v,
        Err(e) => {
            proof {
                assert forall|x: ObjectInfoResponse| x.wf() implies !#[trigger] occurs_at(s, pos as int, enc_response(x)) by {
                    lemma_occurs_concat(s, pos as int, enc_opt_object_response(x.object_and_lock), enc_opt_cert(x.parent_certificate) + enc_opt_object_ref(x.requested_object_reference));
                }
            }
            return Err(e);
        },
    };
    let (b, p2) = match read_opt_cert(input, p1) {
        Ok(v) => v,
        Err(e) => {
            proof {
                assert forall|x: ObjectInfoResponse| x.wf() implies !#[trigger] occurs_at(s, pos as int, enc_response(x)) by {
                    lemma_occurs_concat(s, pos as int, enc_opt_object_response(x.object_and_lock), enc_opt_cert(x.parent_certificate) + enc_opt_object_ref(x.requested_object_reference));
                    lemma_occurs_concat(s, pos + enc_opt_object_response(x.object_and_lock).len(), enc_opt_cert(x.parent_certificate), enc_opt_object_ref(x.requested_object_reference));
                }
            }
            return Err(e);
        },
    };
    let (c, p3) = match read_opt_object_ref(input, p2) {
        Ok(v) => v,
        Err(e) => {
            proof {
                assert forall|x: ObjectInfoResponse| x.wf() implies !#[trigger] occurs_at(s, pos as int, enc_response(x)) by {
                    lemma_occurs_concat(s, pos as int, enc_opt_object_response(x.object_and_lock), enc_opt_cert(x.parent_certificate) + enc_opt_object_ref(x.requested_object_reference));
                    lemma_occurs_concat(s, pos + enc_opt_object_response(x.object_and_lock).len(), enc_opt_cert(x.parent_certificate), enc_opt_object_ref(x.requested_object_reference));
                }
            }
            return Err(e);
        },
    };
    let o = ObjectInfoResponse { object_and_lock: a, parent_certificate: b, requested_object_reference: c };
    proof {
        lemma_occurs_concat(s, pos as int, enc_opt_object_response(a), enc_opt_cert(b) + enc_opt_object_ref(c));
        lemma_occurs_concat(s, p1 as int, enc_opt_cert(b), enc_opt_object_ref(c));
        assert forall|x: ObjectInfoResponse| #[trigger]
            occurs_at(s, pos as int, enc_response(x)) && x.wf() implies enc_response(o) == enc_response(x) by {
            lemma_occurs_concat(s, pos as int, enc_opt_object_response(x.object_and_lock), enc_opt_cert(x.parent_certificate) + enc_opt_object_ref(x.requested_object_reference));
            lemma_occurs_concat(s, pos + enc_opt_object_response(x.object_and_lock).len(), enc_opt_cert(x.parent_certificate), enc_opt_object_ref(x.requested_object_reference));
        }
    }
    Ok((o, p3))
}

fn error_of_byte(b: u8) -> (r: Option<SuiError>)
    ensures
        r matches Some(e) ==> error_code(e) == b,
        forall|e: SuiError| #[trigger] error_code(e) == b ==> r == Some(e),
{
    match b {
        0 => Some(SuiError::UnknownSigner),
        1 => Some(SuiError::InvalidSignature),
        2 => Some(SuiError::Equivocation),
        3 => Some(SuiError::MalformedMessage),
        4 => Some(SuiError::UnknownMessageKind),
        5 => Some(SuiError::Truncated),
        6 => Some(SuiError::EndOfStream),
        7 => Some(SuiError::ObjectNotFound),
        8 => Some(SuiError::ConflictingOrder),
        9 => Some(SuiError::QuorumNotReached),
        _ => None,
    }
}


/// Decodes the body of a message of kind `tag` that starts at `body`.
#[verifier::rlimit(40)]
fn read_message_body(input: &[u8], body: usize, tag: u8) -> (r: Result<(SerializedMessage, usize), SuiError>)
    requires
        body <= input@.len(),
    ensures
        r matches Ok((m, p)) ==> m.wf() && message_tag(m) == tag && p == body + message_body(m).len()
            && occurs_at(input@, body as int, message_body(m)),
        forall|m: SerializedMessage| #[trigger]
            occurs_at(input@, body as int, message_body(m)) && m.wf() && message_tag(m) == tag ==> (
            r is Ok && message_body(r->Ok_0.0) == message_body(m)),
        tag > 5 ==> r == Err::<(SerializedMessage, usize), SuiError>(SuiError::UnknownMessageKind),
        r matches Err(e) ==> e == SuiError::UnknownMessageKind || e == SuiError::Truncated || e
            == SuiError::MalformedMessage,
{
    let ghost s = input@;
    let len = input.len();
    if tag == 0 {
        if len - body < 1 {
            return Err(SuiError::Truncated);
        }
        match error_of_byte(input[body]) {
            Some(e) => {
                proof {
                    lemma_single(s, body as int, error_code(e));
                    assert forall|m: SerializedMessage| #[trigger]
                        occurs_at(s, body as int, message_body(m)) && m.wf() && message_tag(m) == tag
                        implies message_body(SerializedMessage::Error(Box::new(e))) == message_body(m) by {
                        lemma_single(s, body as int, error_code(*(m->Error_0)));
                    }
                }
                Ok((SerializedMessage::Error(Box::new(e)), body + 1))
            },
            None => {
                proof {
                    assert forall|m: SerializedMessage| #[trigger]
                        occurs_at(s, body as int, message_body(m)) && m.wf() && message_tag(m) == tag
                        implies false by {
                        lemma_single(s, body as int, error_code(*(m->Error_0)));
                    }
                }
                Err(SuiError::MalformedMessage)
            },
        }
    } else if tag == 1 {
        if len - body < 248 {
            return Err(SuiError::Truncated);
        }
        let o = take_order(input, body);
        proof {
            assert forall|m: SerializedMessage| #[trigger]
                occurs_at(s, body as int, message_body(m)) && m.wf() && message_tag(m) == tag
                implies enc_order(o) == message_body(m) by {
                lemma_occurs_same_len(s, body as int, enc_order(o), message_body(m));
            }
        }
        Ok((SerializedMessage::Order(Box::new(o)), body + 248))
    } else if tag == 2 {
        match read_request(input, body) {
            Ok((q, p)) => Ok((SerializedMessage::ObjectInfoReq(Box::new(q)), p)),
            Err(e) => Err(e),
        }
    } else if tag == 3 {
        if len - body < 344 {
            return Err(SuiError::Truncated);
        }
        let v = take_signed_order(input, body);
        proof {
            assert forall|m: SerializedMessage| #[trigger]
                occurs_at(s, body as int, message_body(m)) && m.wf() && message_tag(m) == tag
                implies enc_signed_order(v) == message_body(m) by {
                lemma_occurs_same_len(s, body as int, enc_signed_order(v), message_body(m));
            }
        }
        Ok((SerializedMessage::Vote(Box::new(v)), body + 344))
    } else if tag == 4 {
        match read_cert(input, body) {
            Ok((c, p)) => Ok((SerializedMessage::Cert(Box::new(c)), p)),
            Err(e) => Err(e),
        }
    } else if tag == 5 {
        match read_response(input, body) {
            Ok((q, p)) => Ok((SerializedMessage::ObjectInfoResp(Box::new(q)), p)),
            Err(e) => Err(e),
        }
    } else {
        Err(SuiError::UnknownMessageKind)
    }
}

/// Decodes the message that starts at `*pos` and moves `*pos` just past it. On
/// failure `*pos` is left where it was; at the end of the input the error is
/// `EndOfStream`, however often the call is repeated.
pub fn deserialize_message_at(input: &[u8], pos: &mut usize) -> (r: Result<SerializedMessage, SuiError>)
    requires
        *old(pos) <= input@.len(),
    ensures
        (*old(pos) == input@.len()) == (r == Err::<SerializedMessage, SuiError>(SuiError::EndOfStream)),
        r is Err ==> *final(pos) == *old(pos),
        r matches Ok(m) ==> m.wf() && *final(pos) == *old(pos) + enc_message(m).len() && occurs_at(
            input@,
            *old(pos) as int,
            enc_message(m),
        ),
        forall|m: SerializedMessage| #[trigger]
            occurs_at(input@, *old(pos) as int, enc_message(m)) && m.wf() ==> (r is Ok && enc_message(
                r->Ok_0,
            ) == enc_message(m) && message_tag(r->Ok_0) == message_tag(m) && message_body(r->Ok_0)
                == message_body(m)),
        *old(pos) < input@.len() && input@[*old(pos) as int] > 5 ==> r == Err::<
            SerializedMessage,
            SuiError,
        >(SuiError::UnknownMessageKind),
        r matches Err(e) ==> e == SuiError::EndOfStream || e == SuiError::UnknownMessageKind || e
            == SuiError::Truncated || e == SuiError::MalformedMessage,
{
    let ghost s = input@;
    let start = *pos;
    let len = input.len();
    if start == len {
        proof {
            assert forall|m: SerializedMessage| !#[trigger] occurs_at(s, start as int, enc_message(m)) by {}
        }
        return Err(SuiError::EndOfStream);
    }
    let tag = input[start];
    let res = read_message_body(input, start + 1, tag);
    proof {
        assert forall|m: SerializedMessage| #[trigger]
            occurs_at(s, start as int, enc_message(m)) && m.wf() implies (res is Ok && enc_message(
                res->Ok_0.0,
            ) == enc_message(m) && message_tag(res->Ok_0.0) == message_tag(m) && message_body(
                res->Ok_0.0,
            ) == message_body(m)) by {
            lemma_tagged(s, start as int, message_tag(m), message_body(m));
        }
    }
    match res {
        Ok((m, p)) => {
            proof {
                lemma_tagged(s, start as int, message_tag(m), message_body(m));
            }
            *pos = p;
            Ok(m)
        },
        Err(e) => Err(e),
    }
}

/// Decodes the message at the start of `input`; bytes after it are left for a later call.
pub fn deserialize_message(input: &[u8]) -> (r: Result<SerializedMessage, SuiError>)
    ensures
        (input@.len() == 0) == (r == Err::<SerializedMessage, SuiError>(SuiError::EndOfStream)),
        r matches Ok(m) ==> m.wf() && occurs_at(input@, 0, enc_message(m)),
        forall|m: SerializedMessage| #[trigger]
            occurs_at(input@, 0, enc_message(m)) && m.wf() ==> (r is Ok && enc_message(r->Ok_0)
                == enc_message(m) && message_tag(r->Ok_0) == message_tag(m) && message_body(r->Ok_0)
                == message_body(m)),
        input@.len() > 0 && input@[0] > 5 ==> r == Err::<SerializedMessage, SuiError>(
            SuiError::UnknownMessageKind,
        ),
{
    let mut pos: usize = 0;
    deserialize_message_at(input, &mut pos)
}

/// The framed encoding of `m` in a fresh buffer.
pub fn serialize_message(m: &SerializedMessage) -> (r: Vec<u8>)
    ensures
        r@ == enc_message(*m),
{
    let mut buf: Vec<u8> = Vec::new();
    serialize_into(&mut buf, m);
    assert(buf@ =~= enc_message(*m));
    buf
}

pub fn serialize_error(e: &SuiError) -> (r: Vec<u8>)
    ensures
        r@ == enc_message(SerializedMessage::Error(Box::new(*e))),
{
    let mut buf: Vec<u8> = Vec::new();
    buf.push(0);
    buf.push(error_byte(*e));
    assert(buf@ =~= enc_message(SerializedMessage::Error(Box::new(*e))));
    buf
}


pub fn serialize_transfer_order_into(buf: &mut Vec<u8>, o: &Order)
    ensures
        final(buf)@ == old(buf)@ + enc_message(SerializedMessage::Order(Box::new(*o))),
{
    buf.push(1);
    write_order(buf, o);
    assert(final(buf)@ =~= old(buf)@ + enc_message(SerializedMessage::Order(Box::new(*o))));
}

pub fn serialize_vote_into(buf: &mut Vec<u8>, v: &SignedOrder)
    ensures
        final(buf)@ == old(buf)@ + enc_message(SerializedMessage::Vote(Box::new(*v))),
{
    buf.push(3);
    write_signed_order(buf, v);
    assert(final(buf)@ =~= old(buf)@ + enc_message(SerializedMessage::Vote(Box::new(*v))));
}

pub fn serialize_cert_into(buf: &mut Vec<u8>, c: &CertifiedOrder)
    ensures
        final(buf)@ == old(buf)@ + enc_message(SerializedMessage::Cert(Box::new(*c))),
{
    buf.push(4);
    write_cert(buf, c);
    assert(final(buf)@ =~= old(buf)@ + enc_message(SerializedMessage::Cert(Box::new(*c))));
}

pub fn serialize_order(o: &Order) -> (r: Vec<u8>)
    ensures
        r@ == enc_message(SerializedMessage::Order(Box::new(*o))),
{
    let mut buf: Vec<u8> = Vec::new();
    serialize_transfer_order_into(&mut buf, o);
    assert(buf@ =~= enc_message(SerializedMessage::Order(Box::new(*o))));
    buf
}

pub fn serialize_vote(v: &SignedOrder) -> (r: Vec<u8>)
    ensures
        r@ == enc_message(SerializedMessage::Vote(Box::new(*v))),
{
    let mut buf: Vec<u8> = Vec::new();
    serialize_vote_into(&mut buf, v);
    assert(buf@ =~= enc_message(SerializedMessage::Vote(Box::new(*v))));
    buf
}

pub fn serialize_cert(c: &CertifiedOrder) -> (r: Vec<u8>)
    ensures
        r@ == enc_message(SerializedMessage::Cert(Box::new(*c))),
{
    let mut buf: Vec<u8> = Vec::new();
    serialize_cert_into(&mut buf, c);
    assert(buf@ =~= enc_message(SerializedMessage::Cert(Box::new(*c))));
    buf
}

pub fn serialize_object_info_request(q: &ObjectInfoRequest) -> (r: Vec<u8>)
    ensures
        r@ == enc_message(SerializedMessage::ObjectInfoReq(Box::new(*q))),
{
    let mut buf: Vec<u8> = Vec::new();
    buf.push(2);
    write_request(&mut buf, q);
    assert(buf@ =~= enc_message(SerializedMessage::ObjectInfoReq(Box::new(*q))));
    buf
}

pub fn serialize_object_info_response(p: &ObjectInfoResponse) -> (r: Vec<u8>)
    ensures
        r@ == enc_message(SerializedMessage::ObjectInfoResp(Box::new(*p))),
{
    let mut buf: Vec<u8> = Vec::new();
    buf.push(5);
    write_response(&mut buf, p);
    assert(buf@ =~= enc_message(SerializedMessage::ObjectInfoResp(Box::new(*p))));
    buf
}

/// The encoding of `o` in a fresh buffer.
pub fn object_bytes(o: &Object) -> (r: Vec<u8>)
    ensures
        r@ == enc_object(*o),
{
    let mut buf: Vec<u8> = Vec::new();
    write_object(&mut buf, o);
    assert(buf@ =~= enc_object(*o));
    buf
}

/// The encoding of an optional lock in a fresh buffer.
pub fn opt_lock_bytes(l: &Option<SignedOrder>) -> (r: Vec<u8>)
    ensures
        r@ == enc_opt_lock(*l),
{
    let mut buf: Vec<u8> = Vec::new();
    match l {
        None => buf.push(0),
        Some(v) => {
            buf.push(1);
            write_signed_order(&mut buf, v);
        },
    }
    assert(buf@ =~= enc_opt_lock(*l));
    buf
}

/// The canonical payload bytes of `d` in a fresh buffer.
pub fn order_data_bytes(d: &OrderData) -> (r: Vec<u8>)
    ensures
        r@ == enc_order_data(*d),
{
    let mut buf: Vec<u8> = Vec::new();
    write_order_data(&mut buf, d);
    assert(buf@ =~= enc_order_data(*d));
    buf
}


// ---------------------------------------------------------------------------
// Laws
// ---------------------------------------------------------------------------
/// Round trip: the encoding of a message is found at the front of any buffer
/// it begins, so (by the contract of `deserialize_message_at`) decoding that
/// buffer yields a message with the same encoding and consumes exactly it.
pub proof fn lemma_round_trip(m: SerializedMessage, rest: Seq<u8>)
    requires
        m.wf(),
    ensures
        occurs_at(enc_message(m) + rest, 0, enc_message(m)),
{
    assert((enc_message(m) + rest).subrange(0, enc_message(m).len() as int) =~= enc_message(m));
}

/// The bytes of a stream of messages written one after the other.
pub open spec fn enc_stream(ms: Seq<SerializedMessage>) -> Seq<u8>
    decreases ms.len(),
{
    if ms.len() == 0 {
        Seq::empty()
    } else {
        enc_stream(ms.drop_last()) + enc_message(ms.last())
    }
}

proof fn lemma_stream_prefix(ms: Seq<SerializedMessage>, i: int)
    requires
        0 <= i <= ms.len(),
    ensures
        enc_stream(ms.take(i)).len() <= enc_stream(ms).len(),
        enc_stream(ms).subrange(0, enc_stream(ms.take(i)).len() as int) == enc_stream(ms.take(i)),
    decreases ms.len() - i,
{
    if i == ms.len() {
        assert(ms.take(i) =~= ms);
    } else {
        lemma_stream_prefix(ms, i + 1);
        assert(ms.take(i + 1).drop_last() =~= ms.take(i));
        let a = enc_stream(ms.take(i));
        let b = enc_stream(ms.take(i + 1));
        assert(b.subrange(0, a.len() as int) =~= a);
        assert(enc_stream(ms).subrange(0, a.len() as int) =~= b.subrange(0, a.len() as int));
    }
}

/// Streams: after the first `i` messages of a stream have been read, the next
/// one's encoding begins where they end, and after all of them the input is
/// exhausted. With the contract of `deserialize_message_at` (which moves the
/// cursor by exactly one encoding and answers `EndOfStream` at the end, every
/// time) decoding a stream returns its messages in order and then stops.
pub proof fn lemma_stream(ms: Seq<SerializedMessage>, i: int)
    requires
        0 <= i < ms.len(),
    ensures
        occurs_at(enc_stream(ms), enc_stream(ms.take(i)).len() as int, enc_message(ms[i])),
        enc_stream(ms.take(i + 1)).len() == enc_stream(ms.take(i)).len() + enc_message(ms[i]).len(),
        enc_stream(ms.take(ms.len() as int)).len() == enc_stream(ms).len(),
{
    lemma_stream_prefix(ms, i + 1);
    assert(ms.take(i + 1).drop_last() =~= ms.take(i));
    assert(ms.take(ms.len() as int) =~= ms);
    let a = enc_stream(ms.take(i));
    let b = enc_stream(ms.take(i + 1));
    assert(enc_stream(ms).subrange(a.len() as int, b.len() as int) =~= b.subrange(a.len() as int, b.len() as int));
    assert(b.subrange(a.len() as int, b.len() as int) =~= enc_message(ms[i]));
}

proof fn lemma_vote_entries_injective(
    s: Seq<(PublicKeyBytes, Signature)>,
    t: Seq<(PublicKeyBytes, Signature)>,
)
    requires
        vote_entries_wf(s),
        vote_entries_wf(t),
        s.len() == t.len(),
        enc_vote_entries(s) == enc_vote_entries(t),
    ensures
        vote_entries_view(s) == vote_entries_view(t),
    decreases s.len(),
{
    if s.len() > 0 {
        let n = s.len() - 1;
        assert(vote_entry_wf(s[n]));
        assert(vote_entry_wf(t[n]));
        assert(vote_entries_wf(s.drop_last())) by {
            assert forall|i: int| 0 <= i < s.drop_last().len() implies #[trigger] vote_entry_wf(
                s.drop_last()[i],
            ) by {
                assert(vote_entry_wf(s[i]));
            }
        }
        assert(vote_entries_wf(t.drop_last())) by {
            assert forall|i: int| 0 <= i < t.drop_last().len() implies #[trigger] vote_entry_wf(
                t.drop_last()[i],
            ) by {
                assert(vote_entry_wf(t[i]));
            }
        }
        lemma_vote_entries_len(s.drop_last());
        lemma_vote_entries_len(t.drop_last());
        let es = enc_vote_entries(s);
        let k = 96 * n;
        assert(es.subrange(0, k) =~= enc_vote_entries(s.drop_last()));
        assert(enc_vote_entries(t).subrange(0, k) =~= enc_vote_entries(t.drop_last()));
        lemma_vote_entries_injective(s.drop_last(), t.drop_last());
        let last_s = enc_vote_entry(s[n]);
        let last_t = enc_vote_entry(t[n]);
        assert(es.subrange(k, k + 96) =~= last_s);
        assert(enc_vote_entries(t).subrange(k, k + 96) =~= last_t);
        assert(last_s.subrange(0, 32) =~= s[n].0.bytes@);
        assert(last_t.subrange(0, 32) =~= t[n].0.bytes@);
        assert(last_s.subrange(32, 96) =~= s[n].1.bytes@);
        assert(last_t.subrange(32, 96) =~= t[n].1.bytes@);
        assert(vote_entries_view(s) =~= vote_entries_view(s.drop_last()).push(
            (s[n].0.bytes@, s[n].1.bytes@),
        ));
        assert(vote_entries_view(t) =~= vote_entries_view(t.drop_last()).push(
            (t[n].0.bytes@, t[n].1.bytes@),
        ));
    } else {
        assert(vote_entries_view(s) =~= vote_entries_view(t));
    }
}

/// Signature-list fidelity: two certificates with the same encoding (such as a
/// certificate and what the decoder returns for it) are equivalent: same order
/// digest, and the same signatures in the same order.
pub proof fn lemma_certificate_fidelity(a: CertifiedOrder, b: CertifiedOrder)
    requires
        a.wf(),
        b.wf(),
        enc_cert(a) == enc_cert(b),
    ensures
        enc_order_data(a.order.data) == enc_order_data(b.order.data),
        certificates_equivalent(a, b),
        same_order(a.order, b.order),
{
    assert(enc_cert(a).subrange(0, 248) =~= enc_order(a.order));
    assert(enc_cert(b).subrange(0, 248) =~= enc_order(b.order));
    lemma_order_fidelity(a.order, b.order);
    lemma_vote_entries_len(a.signatures@);
    lemma_vote_entries_len(b.signatures@);
    let e = enc_cert(a);
    assert(e.subrange(0, 184) =~= enc_order_data(a.order.data));
    assert(enc_cert(b).subrange(0, 184) =~= enc_order_data(b.order.data));
    assert(e.subrange(256, e.len() as int) =~= enc_vote_entries(a.signatures@));
    assert(enc_cert(b).subrange(256, e.len() as int) =~= enc_vote_entries(b.signatures@));
    lemma_vote_entries_injective(a.signatures@, b.signatures@);
}


/// Two object references with the same encoding have the same fields.
pub open spec fn same_object_ref(a: ObjectRef, b: ObjectRef) -> bool {
    a.0.bytes@ == b.0.bytes@ && a.1 == b.1 && a.2.bytes@ == b.2.bytes@
}

/// Field-by-field equality of two orders' bytes.
pub open spec fn same_order(a: Order, b: Order) -> bool {
    &&& a.data.sender.bytes@ == b.data.sender.bytes@
    &&& a.data.recipient.bytes@ == b.data.recipient.bytes@
    &&& same_object_ref(a.data.object_ref, b.data.object_ref)
    &&& same_object_ref(a.data.gas_payment, b.data.gas_payment)
    &&& a.signature.bytes@ == b.signature.bytes@
}

proof fn lemma_object_ref_fidelity(a: ObjectRef, b: ObjectRef)
    requires
        object_ref_wf(a),
        object_ref_wf(b),
        enc_object_ref(a) == enc_object_ref(b),
    ensures
        same_object_ref(a, b),
{
    let e = enc_object_ref(a);
    let f = enc_object_ref(b);
    assert(e.subrange(0, 20) =~= a.0.bytes@);
    assert(f.subrange(0, 20) =~= b.0.bytes@);
    assert(e.subrange(20, 28) =~= enc_u64(a.1.value));
    assert(f.subrange(20, 28) =~= enc_u64(b.1.value));
    lemma_enc_u64_injective(a.1.value, b.1.value);
    assert(e.subrange(28, 60) =~= a.2.bytes@);
    assert(f.subrange(28, 60) =~= b.2.bytes@);
}

/// Round trip for orders: two orders with the same encoding (such as an order
/// and what the decoder returns for it) agree on every field.
pub proof fn lemma_order_fidelity(a: Order, b: Order)
    requires
        a.wf(),
        b.wf(),
        enc_order(a) == enc_order(b),
    ensures
        same_order(a, b),
{
    let e = enc_order(a);
    let f = enc_order(b);
    assert(e.subrange(0, 32) =~= a.data.sender.bytes@);
    assert(f.subrange(0, 32) =~= b.data.sender.bytes@);
    assert(e.subrange(32, 64) =~= a.data.recipient.bytes@);
    assert(f.subrange(32, 64) =~= b.data.recipient.bytes@);
    assert(e.subrange(64, 124) =~= enc_object_ref(a.data.object_ref));
    assert(f.subrange(64, 124) =~= enc_object_ref(b.data.object_ref));
    lemma_object_ref_fidelity(a.data.object_ref, b.data.object_ref);
    assert(e.subrange(124, 184) =~= enc_object_ref(a.data.gas_payment));
    assert(f.subrange(124, 184) =~= enc_object_ref(b.data.gas_payment));
    lemma_object_ref_fidelity(a.data.gas_payment, b.data.gas_payment);
    assert(e.subrange(184, 248) =~= a.signature.bytes@);
    assert(f.subrange(184, 248) =~= b.signature.bytes@);
}

/// Round trip for votes: two votes with the same encoding agree on the order,
/// the authority and the signature.
pub proof fn lemma_vote_fidelity(a: SignedOrder, b: SignedOrder)
    requires
        a.wf(),
        b.wf(),
        enc_signed_order(a) == enc_signed_order(b),
    ensures
        same_order(a.order, b.order),
        a.authority.bytes@ == b.authority.bytes@,
        a.signature.bytes@ == b.signature.bytes@,
{
    let e = enc_signed_order(a);
    let f = enc_signed_order(b);
    assert(e.subrange(0, 248) =~= enc_order(a.order));
    assert(f.subrange(0, 248) =~= enc_order(b.order));
    lemma_order_fidelity(a.order, b.order);
    assert(e.subrange(248, 280) =~= a.authority.bytes@);
    assert(f.subrange(248, 280) =~= b.authority.bytes@);
    assert(e.subrange(280, 344) =~= a.signature.bytes@);
    assert(f.subrange(280, 344) =~= b.signature.bytes@);
}


proof fn lemma_var_bytes_unique(s: Seq<u8>, p: int, a: Seq<u8>, b: Seq<u8>)
    requires
        a.len() <= u64::MAX,
        b.len() <= u64::MAX,
        occurs_at(s, p, enc_var_bytes(a)),
        occurs_at(s, p, enc_var_bytes(b)),
    ensures
        a == b,
{
    lemma_occurs_concat(s, p, enc_u64(a.len() as u64), a);
    lemma_occurs_concat(s, p, enc_u64(b.len() as u64), b);
    lemma_u64_at(s, p, a.len() as u64, b.len() as u64);
    lemma_occurs_same_len(s, p + 8, a, b);
}

/// Field-by-field equality of two objects.
pub open spec fn same_object(a: Object, b: Object) -> bool {
    &&& a.id.bytes@ == b.id.bytes@
    &&& a.version == b.version
    &&& a.owner.bytes@ == b.owner.bytes@
    &&& a.contents@ == b.contents@
    &&& a.previous_transaction.bytes@ == b.previous_transaction.bytes@
}

pub(crate) proof fn lemma_object_unique(s: Seq<u8>, p: int, a: Object, b: Object)
    requires
        a.wf(),
        b.wf(),
        occurs_at(s, p, enc_object(a)),
        occurs_at(s, p, enc_object(b)),
    ensures
        same_object(a, b),
        enc_object(a) == enc_object(b),
{
    lemma_object_parts(s, p, a);
    lemma_object_parts(s, p, b);
    lemma_var_bytes_unique(s, p + 60, a.contents@, b.contents@);
    lemma_occurs_same_len(s, p, enc_object(a), enc_object(b));
    lemma_occurs_same_len(s, p, a.id.bytes@, b.id.bytes@);
    lemma_u64_at(s, p + 20, a.version.value, b.version.value);
    lemma_occurs_same_len(s, p + 28, a.owner.bytes@, b.owner.bytes@);
    lemma_occurs_same_len(
        s,
        p + 60 + enc_var_bytes(a.contents@).len(),
        a.previous_transaction.bytes@,
        b.previous_transaction.bytes@,
    );
}

/// Two votes agree on every field.
pub open spec fn same_vote(a: SignedOrder, b: SignedOrder) -> bool {
    same_order(a.order, b.order) && a.authority.bytes@ == b.authority.bytes@ && a.signature.bytes@
        == b.signature.bytes@
}

pub open spec fn same_opt_lock(a: Option<SignedOrder>, b: Option<SignedOrder>) -> bool {
    match (a, b) {
        (None, None) => true,
        (Some(x), Some(y)) => same_vote(x, y),
        _ => false,
    }
}

pub open spec fn same_opt_layout(a: Option<Vec<u8>>, b: Option<Vec<u8>>) -> bool {
    match (a, b) {
        (None, None) => true,
        (Some(x), Some(y)) => x@ == y@,
        _ => false,
    }
}

pub open spec fn same_object_response(a: ObjectResponse, b: ObjectResponse) -> bool {
    same_object(a.object, b.object) && same_opt_lock(a.lock, b.lock) && same_opt_layout(
        a.layout,
        b.layout,
    )
}

pub(crate) proof fn lemma_opt_lock_unique(s: Seq<u8>, p: int, a: Option<SignedOrder>, b: Option<SignedOrder>)
    requires
        opt_lock_wf(a),
        opt_lock_wf(b),
        occurs_at(s, p, enc_opt_lock(a)),
        occurs_at(s, p, enc_opt_lock(b)),
    ensures
        same_opt_lock(a, b),
        enc_opt_lock(a) == enc_opt_lock(b),
{
    match a {
        None => lemma_single(s, p, 0),
        Some(x) => lemma_tagged(s, p, 1, enc_signed_order(x)),
    }
    match b {
        None => lemma_single(s, p, 0),
        Some(y) => lemma_tagged(s, p, 1, enc_signed_order(y)),
    }
    if let (Some(x), Some(y)) = (a, b) {
        lemma_occurs_same_len(s, p + 1, enc_signed_order(x), enc_signed_order(y));
        lemma_vote_fidelity(x, y);
    }
}

proof fn lemma_opt_layout_unique(s: Seq<u8>, p: int, a: Option<Vec<u8>>, b: Option<Vec<u8>>)
    requires
        a matches Some(x) ==> x@.len() <= u64::MAX,
        b matches Some(y) ==> y@.len() <= u64::MAX,
        occurs_at(s, p, enc_opt_layout(a)),
        occurs_at(s, p, enc_opt_layout(b)),
    ensures
        same_opt_layout(a, b),
        enc_opt_layout(a) == enc_opt_layout(b),
{
    match a {
        None => lemma_single(s, p, 0),
        Some(x) => lemma_tagged(s, p, 1, enc_var_bytes(x@)),
    }
    match b {
        None => lemma_single(s, p, 0),
        Some(y) => lemma_tagged(s, p, 1, enc_var_bytes(y@)),
    }
    if let (Some(x), Some(y)) = (a, b) {
        lemma_var_bytes_unique(s, p + 1, x@, y@);
    }
}

proof fn lemma_object_response_unique(s: Seq<u8>, p: int, a: ObjectResponse, b: ObjectResponse)
    requires
        a.wf(),
        b.wf(),
        occurs_at(s, p, enc_object_response(a)),
        occurs_at(s, p, enc_object_response(b)),
    ensures
        same_object_response(a, b),
        enc_object_response(a) == enc_object_response(b),
{
    lemma_occurs_concat(s, p, enc_object(a.object), enc_opt_lock(a.lock) + enc_opt_layout(a.layout));
    lemma_occurs_concat(s, p, enc_object(b.object), enc_opt_lock(b.lock) + enc_opt_layout(b.layout));
    lemma_object_unique(s, p, a.object, b.object);
    let q = p + enc_object(a.object).len();
    lemma_occurs_concat(s, q, enc_opt_lock(a.lock), enc_opt_layout(a.layout));
    lemma_occurs_concat(s, q, enc_opt_lock(b.lock), enc_opt_layout(b.layout));
    lemma_opt_lock_unique(s, q, a.lock, b.lock);
    lemma_opt_layout_unique(s, q + enc_opt_lock(a.lock).len(), a.layout, b.layout);
}

proof fn lemma_cert_unique(s: Seq<u8>, p: int, a: CertifiedOrder, b: CertifiedOrder)
    requires
        a.wf(),
        b.wf(),
        occurs_at(s, p, enc_cert(a)),
        occurs_at(s, p, enc_cert(b)),
    ensures
        enc_cert(a) == enc_cert(b),
{
    lemma_cert_parts(s, p, a);
    lemma_cert_parts(s, p, b);
    lemma_u64_at(s, p + 248, a.signatures@.len() as u64, b.signatures@.len() as u64);
    lemma_occurs_same_len(s, p, enc_cert(a), enc_cert(b));
}

/// Two optional certificates are both absent, or both present and equivalent
/// with field-by-field equal orders.
pub open spec fn same_opt_cert(a: Option<CertifiedOrder>, b: Option<CertifiedOrder>) -> bool {
    match (a, b) {
        (None, None) => true,
        (Some(x), Some(y)) => certificates_equivalent(x, y) && same_order(x.order, y.order),
        _ => false,
    }
}

pub open spec fn same_opt_object_ref(a: Option<ObjectRef>, b: Option<ObjectRef>) -> bool {
    match (a, b) {
        (None, None) => true,
        (Some(x), Some(y)) => same_object_ref(x, y),
        _ => false,
    }
}

/// Field-by-field equality of two object-info responses.
pub open spec fn same_response(a: ObjectInfoResponse, b: ObjectInfoResponse) -> bool {
    &&& match (a.object_and_lock, b.object_and_lock) {
        (None, None) => true,
        (Some(x), Some(y)) => same_object_response(x, y),
        _ => false,
    }
    &&& same_opt_cert(a.parent_certificate, b.parent_certificate)
    &&& same_opt_object_ref(a.requested_object_reference, b.requested_object_reference)
}

proof fn lemma_opt_object_response_unique(
    s: Seq<u8>,
    p: int,
    a: Option<ObjectResponse>,
    b: Option<ObjectResponse>,
)
    requires
        opt_object_response_wf(a),
        opt_object_response_wf(b),
        occurs_at(s, p, enc_opt_object_response(a)),
        occurs_at(s, p, enc_opt_object_response(b)),
    ensures
        enc_opt_object_response(a) == enc_opt_object_response(b),
        match (a, b) {
            (None, None) => true,
            (Some(x), Some(y)) => same_object_response(x, y),
            _ => false,
        },
{
    match a {
        None => lemma_single(s, p, 0),
        Some(x) => lemma_tagged(s, p, 1, enc_object_response(x)),
    }
    match b {
        None => lemma_single(s, p, 0),
        Some(y) => lemma_tagged(s, p, 1, enc_object_response(y)),
    }
    if let (Some(x), Some(y)) = (a, b) {
        lemma_object_response_unique(s, p + 1, x, y);
    }
}

proof fn lemma_opt_cert_unique(s: Seq<u8>, p: int, a: Option<CertifiedOrder>, b: Option<CertifiedOrder>)
    requires
        opt_cert_wf(a),
        opt_cert_wf(b),
        occurs_at(s, p, enc_opt_cert(a)),
        occurs_at(s, p, enc_opt_cert(b)),
    ensures
        enc_opt_cert(a) == enc_opt_cert(b),
        same_opt_cert(a, b),
{
    match a {
        None => lemma_single(s, p, 0),
        Some(x) => lemma_tagged(s, p, 1, enc_cert(x)),
    }
    match b {
        None => lemma_single(s, p, 0),
        Some(y) => lemma_tagged(s, p, 1, enc_cert(y)),
    }
    if let (Some(x), Some(y)) = (a, b) {
        lemma_cert_unique(s, p + 1, x, y);
        lemma_certificate_fidelity(x, y);
    }
}

proof fn lemma_opt_object_ref_unique(s: Seq<u8>, p: int, a: Option<ObjectRef>, b: Option<ObjectRef>)
    requires
        opt_object_ref_wf(a),
        opt_object_ref_wf(b),
        occurs_at(s, p, enc_opt_object_ref(a)),
        occurs_at(s, p, enc_opt_object_ref(b)),
    ensures
        same_opt_object_ref(a, b),
{
    match a {
        None => lemma_single(s, p, 0),
        Some(x) => lemma_tagged(s, p, 1, enc_object_ref(x)),
    }
    match b {
        None => lemma_single(s, p, 0),
        Some(y) => lemma_tagged(s, p, 1, enc_object_ref(y)),
    }
    if let (Some(x), Some(y)) = (a, b) {
        lemma_occurs_same_len(s, p + 1, enc_object_ref(x), enc_object_ref(y));
        lemma_object_ref_fidelity(x, y);
    }
}

/// Round trip for object-info responses: two responses with the same encoding
/// (such as a response and what the decoder returns for it) agree field by
/// field, certificates up to their equivalence.
pub proof fn lemma_response_fidelity(a: ObjectInfoResponse, b: ObjectInfoResponse)
    requires
        a.wf(),
        b.wf(),
        enc_response(a) == enc_response(b),
    ensures
        same_response(a, b),
{
    let s = enc_response(a);
    let x1 = enc_opt_object_response(a.object_and_lock);
    let y1 = enc_opt_object_response(b.object_and_lock);
    let x2 = enc_opt_cert(a.parent_certificate);
    let y2 = enc_opt_cert(b.parent_certificate);
    let x3 = enc_opt_object_ref(a.requested_object_reference);
    let y3 = enc_opt_object_ref(b.requested_object_reference);
    assert(s.subrange(0, s.len() as int) =~= s);
    lemma_occurs_concat(s, 0, x1, x2 + x3);
    lemma_occurs_concat(s, 0, y1, y2 + y3);
    lemma_opt_object_response_unique(s, 0, a.object_and_lock, b.object_and_lock);
    lemma_occurs_concat(s, x1.len() as int, x2, x3);
    lemma_occurs_concat(s, x1.len() as int, y2, y3);
    lemma_opt_cert_unique(s, x1.len() as int, a.parent_certificate, b.parent_certificate);
    lemma_opt_object_ref_unique(s, (x1.len() + x2.len()) as int, a.requested_object_reference, b.requested_object_reference);
}

/// Round trip for object-info requests: the same encoding means the same
/// object id and the same kind of request.
pub proof fn lemma_request_fidelity(a: ObjectInfoRequest, b: ObjectInfoRequest)
    requires
        a.wf(),
        b.wf(),
        enc_request(a) == enc_request(b),
    ensures
        a.object_id.bytes@ == b.object_id.bytes@,
        a.request_kind == b.request_kind,
{
    let s = enc_request(a);
    assert(s.subrange(0, s.len() as int) =~= s);
    lemma_occurs_concat(s, 0, a.object_id.bytes@, enc_request_kind(a.request_kind));
    lemma_occurs_concat(s, 0, b.object_id.bytes@, enc_request_kind(b.request_kind));
    lemma_occurs_same_len(s, 0, a.object_id.bytes@, b.object_id.bytes@);
    lemma_request_kind_bytes(s, 20, a.request_kind);
    lemma_request_kind_bytes(s, 20, b.request_kind);
    match (a.request_kind, b.request_kind) {
        (ObjectInfoRequestKind::PastObjectInfo(x), ObjectInfoRequestKind::PastObjectInfo(y)) => {
            lemma_u64_at(s, 21, x.value, y.value);
        },
        _ => {},
    }
}

/// Round trip for errors: the same encoding means the same error.
pub proof fn lemma_error_fidelity(a: SuiError, b: SuiError)
    requires
        enc_message(SerializedMessage::Error(Box::new(a))) == enc_message(
            SerializedMessage::Error(Box::new(b)),
        ),
    ensures
        a == b,
{
    assert(enc_message(SerializedMessage::Error(Box::new(a)))[1] == error_code(a));
    assert(enc_message(SerializedMessage::Error(Box::new(b)))[1] == error_code(b));
}


pub open spec fn all_wf(ms: Seq<SerializedMessage>) -> bool {
    forall|i: int| 0 <= i < ms.len() ==> #[trigger] ms[i].wf()
}

/// Decodes messages one after another until the input is exhausted. The input
/// must be exactly a stream of encodings: its messages come back in order.
pub fn deserialize_stream(input: &[u8]) -> (r: Result<Vec<SerializedMessage>, SuiError>)
    ensures
        r matches Ok(v) ==> all_wf(v@) && input@ == enc_stream(v@),
        forall|ms: Seq<SerializedMessage>| #[trigger]
            enc_stream(ms) == input@ && all_wf(ms) ==> (r matches Ok(v) && v@.len() == ms.len()
                && forall|i: int| 0 <= i < ms.len() ==> #[trigger] enc_message(v@[i]) == enc_message(ms[i])),
{
    let mut v: Vec<SerializedMessage> = Vec::new();
    let mut pos: usize = 0;
    let len = input.len();
    assert(input@.subrange(0, 0) =~= enc_stream(v@));
    loop
        invariant
            len == input@.len(),
            pos <= len,
            all_wf(v@),
            input@.subrange(0, pos as int) == enc_stream(v@),
            forall|ms: Seq<SerializedMessage>| #[trigger]
                enc_stream(ms) == input@ && all_wf(ms) ==> v@.len() <= ms.len() && pos
                    == enc_stream(ms.take(v@.len() as int)).len() && forall|i: int|
                    0 <= i < v@.len() ==> #[trigger] enc_message(v@[i]) == enc_message(ms[i]),
        decreases len - pos,
    {
        let ghost old_pos = pos;
        let ghost old_v = v@;
        match deserialize_message_at(input, &mut pos) {
            Ok(m) => {
                v.push(m);
                proof {
                    assert(v@.drop_last() == old_v);
                    assert(input@.subrange(0, pos as int) =~= input@.subrange(0, old_pos as int)
                        + input@.subrange(old_pos as int, pos as int));
                    assert forall|j: int| 0 <= j < v@.len() implies #[trigger] v@[j].wf() by {
                        if j < old_v.len() {
                            assert(old_v[j].wf());
                        }
                    }
                    assert forall|ms: Seq<SerializedMessage>| #[trigger]
                        enc_stream(ms) == input@ && all_wf(ms) implies v@.len() <= ms.len() && pos
                            == enc_stream(ms.take(v@.len() as int)).len() && forall|i: int|
                            0 <= i < v@.len() ==> #[trigger] enc_message(v@[i]) == enc_message(ms[i]) by {
                        let k = old_v.len() as int;
                        if k == ms.len() {
                            assert(ms.take(k) =~= ms);
                        } else {
                            lemma_stream(ms, k);
                            assert(ms[k].wf());
                            assert(enc_message(m) == enc_message(ms[k]));
                        }
                        assert forall|i: int| 0 <= i < v@.len() implies #[trigger] enc_message(v@[i])
                            == enc_message(ms[i]) by {
                            if i < k {
                                assert(v@[i] == old_v[i]);
                            }
                        }
                    }
                }
            },
            Err(SuiError::EndOfStream) => {
                proof {
                    assert(input@.subrange(0, len as int) =~= input@);
                    assert forall|ms: Seq<SerializedMessage>| #[trigger]
                        enc_stream(ms) == input@ && all_wf(ms) implies v@.len() == ms.len() by {
                        let k = v@.len() as int;
                        if k < ms.len() {
                            lemma_stream(ms, k);
                            lemma_stream_prefix(ms, k + 1);
                        }
                    }
                }
                return Ok(v);
            },
            Err(e) => {
                proof {
                    assert forall|ms: Seq<SerializedMessage>| #[trigger]
                        enc_stream(ms) == input@ && all_wf(ms) implies false by {
                        let k = v@.len() as int;
                        if k == ms.len() {
                            assert(ms.take(k) =~= ms);
                        } else {
                            lemma_stream(ms, k);
                            assert(ms[k].wf());
                        }
                    }
                }
                return Err(e);
            },
        }
    }
}

} // verus!
