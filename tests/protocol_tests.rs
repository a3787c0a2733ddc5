use sui_types::base_types::{
    dbg_addr, dbg_object_id, random_object_ref, ObjectDigest, ObjectID, SequenceNumber,
};
use sui_types::codec::{
    deserialize_message, deserialize_message_at, deserialize_stream, order_data_bytes, serialize_cert,
    serialize_cert_into,
    serialize_error, serialize_message, serialize_object_info_request,
    serialize_object_info_response, serialize_order, serialize_vote,
};
use sui_types::crypto::{get_key_pair, KeyPair, Signature};
use sui_types::messages::{
    compare_certified_orders, compare_object_info_responses, CertifiedOrder, Object,
    ObjectFormatOptions, ObjectInfoRequest, ObjectInfoResponse, ObjectResponse, Order,
    SerializedMessage, SignedOrder, SuiError,
};
use sui_types::quorum::{Committee, SignatureAggregator};

fn key(n: u8) -> KeyPair {
    KeyPair::from_seed([n; 32])
}

fn sample_order() -> Order {
    let sender = key(1);
    Order::new_transfer(
        dbg_addr(0x20),
        random_object_ref(),
        sender.public_key_bytes().clone(),
        random_object_ref(),
        &sender,
    )
}

fn committee_of(keys: &[KeyPair], threshold: u64) -> Committee {
    Committee {
        voting_rights: keys.iter().map(|k| (k.public_key_bytes().clone(), 1)).collect(),
        quorum_threshold: threshold,
    }
}

#[test]
fn stream_of_messages_is_decoded_in_order_then_exhausted() {
    let order = sample_order();
    let req = ObjectInfoRequest::past_object_info_request(dbg_object_id(7), SequenceNumber::from(3));
    let mut buf = serialize_error(&SuiError::ObjectNotFound);
    buf.extend(serialize_order(&order));
    buf.extend(serialize_object_info_request(&req));
    let mut pos = 0usize;
    match deserialize_message_at(&buf, &mut pos).unwrap() {
        SerializedMessage::Error(e) => assert_eq!(*e, SuiError::ObjectNotFound),
        _ => panic!(),
    }
    assert_eq!(pos, 2);
    match deserialize_message_at(&buf, &mut pos).unwrap() {
        SerializedMessage::Order(o) => assert_eq!(*o, order),
        _ => panic!(),
    }
    assert_eq!(pos, 2 + 249);
    match deserialize_message_at(&buf, &mut pos).unwrap() {
        SerializedMessage::ObjectInfoReq(q) => assert_eq!(*q, req),
        _ => panic!(),
    }
    assert_eq!(pos, buf.len());
    for _ in 0..5 {
        assert_eq!(deserialize_message_at(&buf, &mut pos), Err(SuiError::EndOfStream));
        assert_eq!(pos, buf.len());
    }
}

#[test]
fn empty_input_is_end_of_stream() {
    assert_eq!(deserialize_message(&[]), Err(SuiError::EndOfStream));
}

#[test]
fn unknown_kind_is_reported() {
    assert_eq!(deserialize_message(&[9, 0, 0]), Err(SuiError::UnknownMessageKind));
}

#[test]
fn truncated_message_leaves_cursor_in_place() {
    let buf = serialize_order(&sample_order());
    let short = &buf[..buf.len() - 1];
    let mut pos = 0usize;
    assert_eq!(deserialize_message_at(short, &mut pos), Err(SuiError::Truncated));
    assert_eq!(pos, 0);
}

#[test]
fn bad_error_code_is_malformed() {
    assert_eq!(deserialize_message(&[0, 200]), Err(SuiError::MalformedMessage));
}

#[test]
fn trailing_bytes_are_left_for_the_next_call() {
    let mut buf = serialize_error(&SuiError::Truncated);
    buf.push(0xff);
    let mut pos = 0usize;
    assert!(deserialize_message_at(&buf, &mut pos).is_ok());
    assert_eq!(pos, 2);
}

#[test]
fn every_error_round_trips() {
    let all = [
        SuiError::UnknownSigner,
        SuiError::InvalidSignature,
        SuiError::Equivocation,
        SuiError::MalformedMessage,
        SuiError::UnknownMessageKind,
        SuiError::Truncated,
        SuiError::EndOfStream,
        SuiError::ObjectNotFound,
        SuiError::ConflictingOrder,
        SuiError::QuorumNotReached,
    ];
    for e in all.iter() {
        let buf = serialize_message(&SerializedMessage::Error(Box::new(*e)));
        assert_eq!(buf.len(), 2);
        assert_eq!(deserialize_message(&buf), Ok(SerializedMessage::Error(Box::new(*e))));
    }
}

#[test]
fn latest_request_with_layout_round_trips() {
    let req = ObjectInfoRequest::latest_object_info_request(
        dbg_object_id(1),
        Some(ObjectFormatOptions { include_types: true }),
    );
    let buf = serialize_object_info_request(&req);
    assert_eq!(buf.len(), 1 + 20 + 3);
    assert_eq!(deserialize_message(&buf), Ok(SerializedMessage::ObjectInfoReq(Box::new(req))));
}

#[test]
fn past_request_encodes_sequence_little_endian() {
    let req = ObjectInfoRequest::past_object_info_request(dbg_object_id(2), SequenceNumber::from(129));
    let buf = serialize_object_info_request(&req);
    assert_eq!(buf[0], 2);
    assert_eq!(buf[21], 1);
    assert_eq!(&buf[22..30], &[129, 0, 0, 0, 0, 0, 0, 0]);
}

#[test]
fn certificate_signature_list_survives_decoding() {
    let order = sample_order();
    let keys: Vec<KeyPair> = (10..14).map(key).collect();
    let mut cert = CertifiedOrder { order: order.clone(), signatures: Vec::new() };
    for k in keys.iter() {
        cert.signatures.push((k.public_key_bytes().clone(), Signature::new(&order.data, k)));
    }
    let buf = serialize_cert(&cert);
    assert_eq!(buf.len(), 1 + 256 + 96 * 4);
    match deserialize_message(&buf).unwrap() {
        SerializedMessage::Cert(c) => {
            assert_eq!(c.signatures, cert.signatures);
            assert!(compare_certified_orders(&c, &cert));
        },
        _ => panic!(),
    }
    let mut other = CertifiedOrder { order, signatures: cert.signatures[1..].to_vec() };
    assert!(!compare_certified_orders(&other, &cert));
    other.signatures.reverse();
    assert!(!compare_certified_orders(&other, &cert));
}

#[test]
fn batch_verification_agrees_with_single_checks() {
    let order = sample_order();
    let keys: Vec<KeyPair> = (20..25).map(key).collect();
    let committee = committee_of(&keys, 4);
    let mut votes = Vec::new();
    for k in keys.iter() {
        votes.push((k.public_key_bytes().clone(), Signature::new(&order.data, k)));
    }
    assert_eq!(Signature::verify_batch(&order.data, &votes, &committee), Ok(()));
    assert_eq!(Signature::verify_each(&order.data, &votes, &committee), Ok(()));

    let mut flipped = votes.clone();
    flipped[2].1.bytes[5] ^= 1;
    assert_eq!(Signature::verify_batch(&order.data, &flipped, &committee), Err(SuiError::InvalidSignature));
    assert_eq!(Signature::verify_each(&order.data, &flipped, &committee), Err(SuiError::InvalidSignature));

    let mut swapped = votes.clone();
    swapped[1].1 = votes[3].1.clone();
    assert_eq!(Signature::verify_batch(&order.data, &swapped, &committee), Err(SuiError::InvalidSignature));
    assert_eq!(Signature::verify_each(&order.data, &swapped, &committee), Err(SuiError::InvalidSignature));

    let stranger = key(99);
    let mut foreign = votes.clone();
    foreign.push((stranger.public_key_bytes().clone(), Signature::new(&order.data, &stranger)));
    assert_eq!(Signature::verify_batch(&order.data, &foreign, &committee), Err(SuiError::UnknownSigner));
    assert_eq!(Signature::verify_each(&order.data, &foreign, &committee), Err(SuiError::UnknownSigner));
}

#[test]
fn signatures_bind_to_the_payload() {
    let order = sample_order();
    let k = key(30);
    let sig = Signature::new(&order.data, &k);
    assert_eq!(sig.bytes.len(), 64);
    assert!(sig.check(&order.data, k.public_key_bytes()).is_ok());
    assert_eq!(sig.check(&order.data, key(31).public_key_bytes()), Err(SuiError::InvalidSignature));
    let other = sample_order();
    assert_eq!(sig.check(&other.data, k.public_key_bytes()), Err(SuiError::InvalidSignature));
    assert!(order.check_signature().is_ok());
    let mut forged = order.clone();
    forged.data.recipient = dbg_addr(0x21);
    assert_eq!(forged.check_signature(), Err(SuiError::InvalidSignature));
}

#[test]
fn key_pairs_and_digests_come_from_the_crypto_crates() {
    let k = key(40);
    assert_eq!(k.public_key_bytes().bytes.len(), 32);
    assert_ne!(k.public_key_bytes().bytes, vec![40u8; 32]);
    let (addr, kp) = get_key_pair();
    assert_eq!(&addr, kp.public_key_bytes());

    let order = sample_order();
    let d = order.digest();
    assert_eq!(d.bytes.len(), 32);
    assert_ne!(d.bytes, order_data_bytes(&order.data)[..32].to_vec());
    assert_eq!(order.digest(), d);
    assert_ne!(sample_order().digest(), d);

    let object = Object::with_id_owner_for_testing(dbg_object_id(3), dbg_addr(4));
    let r = object.to_object_reference();
    assert_eq!(r.0, dbg_object_id(3));
    assert_eq!(r.1, SequenceNumber::new());
    assert_ne!(r.2, ObjectDigest::new([0; 32]));
    assert_ne!(random_object_ref().0, random_object_ref().0);
}

#[test]
fn quorum_is_gated_by_voting_power() {
    let order = sample_order();
    let keys: Vec<KeyPair> = (50..54).map(key).collect();
    let committee = committee_of(&keys, 3);
    let vote = |i: usize| SignedOrder::new(order.clone(), keys[i].public_key_bytes().clone(), &keys[i]);

    let mut agg = SignatureAggregator::new(order.clone(), committee.clone());
    assert_eq!(agg.add_vote(vote(0)), Ok(()));
    assert_eq!(agg.add_vote(vote(1)), Ok(()));
    assert!(!agg.is_quorum_reached());
    assert_eq!(agg.add_vote(vote(1)), Ok(()));
    assert!(!agg.is_quorum_reached());

    let mut bad = vote(1);
    bad.signature.bytes[0] ^= 1;
    assert_eq!(agg.add_vote(bad), Err(SuiError::Equivocation));
    assert!(!agg.is_quorum_reached());
    assert_eq!(agg.finalize(), Err(SuiError::QuorumNotReached));

    let mut agg = SignatureAggregator::new(order.clone(), committee.clone());
    for i in 0..3 {
        assert_eq!(agg.add_vote(vote(i)), Ok(()));
    }
    assert!(agg.is_quorum_reached());
    let cert = agg.finalize().unwrap();
    let names: Vec<_> = cert.signatures.iter().map(|s| s.0.clone()).collect();
    assert_eq!(names, vec![
        keys[0].public_key_bytes().clone(),
        keys[1].public_key_bytes().clone(),
        keys[2].public_key_bytes().clone(),
    ]);
    assert_eq!(cert.signatures[1].1, vote(1).signature);
}

#[test]
fn aggregator_refuses_strangers_forgeries_and_other_orders() {
    let order = sample_order();
    let keys: Vec<KeyPair> = (60..63).map(key).collect();
    let committee = committee_of(&keys, 2);
    let mut agg = SignatureAggregator::new(order.clone(), committee);

    let stranger = key(70);
    let v = SignedOrder::new(order.clone(), stranger.public_key_bytes().clone(), &stranger);
    assert_eq!(agg.add_vote(v), Err(SuiError::UnknownSigner));

    let mut forged = SignedOrder::new(order.clone(), keys[0].public_key_bytes().clone(), &keys[0]);
    forged.signature.bytes[3] ^= 0x10;
    assert_eq!(agg.add_vote(forged), Err(SuiError::InvalidSignature));

    let other = sample_order();
    let v = SignedOrder::new(other, keys[0].public_key_bytes().clone(), &keys[0]);
    assert_eq!(agg.add_vote(v), Err(SuiError::ConflictingOrder));
    assert!(!agg.is_quorum_reached());
}

#[test]
fn object_info_response_shapes_round_trip() {
    let order = sample_order();
    let lock_key = key(80);
    let vote = SignedOrder::new(order.clone(), lock_key.public_key_bytes().clone(), &lock_key);
    let mut cert = CertifiedOrder { order: order.clone(), signatures: Vec::new() };
    for n in 81..84 {
        let k = key(n);
        cert.signatures.push((k.public_key_bytes().clone(), Signature::new(&order.data, &k)));
    }
    let mut object = Object::with_id_owner_for_testing(dbg_object_id(5), dbg_addr(6));
    object.contents = vec![1, 2, 3];
    let locked = ObjectInfoResponse {
        object_and_lock: Some(ObjectResponse {
            object: object.clone(),
            lock: Some(vote),
            layout: Some(vec![9, 9]),
        }),
        parent_certificate: Some(cert.clone()),
        requested_object_reference: Some(object.to_object_reference()),
    };
    let buf = serialize_object_info_response(&locked);
    match deserialize_message(&buf).unwrap() {
        SerializedMessage::ObjectInfoResp(r) => {
            assert!(compare_object_info_responses(&r, &locked));
            assert!(r.object_and_lock.as_ref().unwrap().lock.is_some());
            assert!(compare_certified_orders(r.parent_certificate.as_ref().unwrap(), &cert));
            assert_eq!(*r, locked);
        },
        _ => panic!(),
    }

    let genesis = ObjectInfoResponse {
        object_and_lock: Some(ObjectResponse { object, lock: None, layout: None }),
        parent_certificate: None,
        requested_object_reference: None,
    };
    assert!(!compare_object_info_responses(&genesis, &locked));
    let buf = serialize_object_info_response(&genesis);
    assert_eq!(deserialize_message(&buf), Ok(SerializedMessage::ObjectInfoResp(Box::new(genesis))));

    let missing = ObjectInfoResponse {
        object_and_lock: None,
        parent_certificate: None,
        requested_object_reference: None,
    };
    let buf = serialize_object_info_response(&missing);
    assert_eq!(buf, vec![5, 0, 0, 0]);
    match deserialize_message(&buf).unwrap() {
        SerializedMessage::ObjectInfoResp(r) => {
            assert!(r.object().is_none());
            assert!(!compare_object_info_responses(&r, &missing));
        },
        _ => panic!(),
    }
}

#[test]
fn vote_round_trips_and_still_verifies() {
    let order = sample_order();
    let k = key(90);
    let vote = SignedOrder::new(order, k.public_key_bytes().clone(), &k);
    let buf = serialize_vote(&vote);
    assert_eq!(buf.len(), 1 + 344);
    match deserialize_message(&buf).unwrap() {
        SerializedMessage::Vote(v) => {
            assert_eq!(*v, vote);
            assert!(v.signature.check(&v.order.data, &v.authority).is_ok());
        },
        _ => panic!(),
    }
}

#[test]
fn stream_of_certificates_comes_back_in_order() {
    let mut certs = Vec::new();
    for n in 0..3u8 {
        let order = sample_order();
        let mut cert = CertifiedOrder { order: order.clone(), signatures: Vec::new() };
        for m in 0..=n {
            let k = key(100 + m);
            cert.signatures.push((k.public_key_bytes().clone(), Signature::new(&order.data, &k)));
        }
        certs.push(cert);
    }
    let mut buf = Vec::new();
    for c in certs.iter() {
        serialize_cert_into(&mut buf, c);
    }
    let out = deserialize_stream(&buf).unwrap();
    assert_eq!(out.len(), 3);
    for (m, c) in out.iter().zip(certs.iter()) {
        match m {
            SerializedMessage::Cert(d) => assert!(compare_certified_orders(d, c)),
            _ => panic!(),
        }
    }
    assert_eq!(deserialize_stream(&[]), Ok(Vec::new()));
    assert_eq!(deserialize_stream(&buf[..buf.len() - 1]), Err(SuiError::Truncated));
}

#[test]
fn object_id_takes_the_first_twenty_bytes() {
    let bytes: Vec<u8> = (0..32).collect();
    let id = ObjectID::from_prefix(&bytes);
    assert_eq!(id.bytes, (0..20).collect::<Vec<u8>>());
}

#[test]
fn empty_batch_is_accepted() {
    let order = sample_order();
    let committee = committee_of(&[key(110)], 1);
    assert_eq!(Signature::verify_batch(&order.data, &Vec::new(), &committee), Ok(()));
}
