use std::time::Instant;
use sui_types::base_types::{dbg_addr, dbg_object_id, random_object_ref, SequenceNumber};
use sui_types::codec::{
    deserialize_message, deserialize_message_at, serialize_cert, serialize_cert_into,
    serialize_error, serialize_object_info_request, serialize_object_info_response,
    serialize_order, serialize_transfer_order_into, serialize_vote, serialize_vote_into,
};
use sui_types::crypto::{get_key_pair, AuthoritySignature};
use sui_types::messages::{
    compare_certified_orders, compare_object_info_responses, CertifiedOrder, Object,
    ObjectInfoRequest, ObjectInfoResponse, ObjectResponse, Order, SerializedMessage, SignedOrder,
    SuiError,
};
use sui_types::quorum::Committee;

#[test]
fn test_error() {
    let err = SuiError::UnknownSigner;
    let buf = serialize_error(&err);
    let result = deserialize_message(buf.as_slice());
    assert!(result.is_ok());
    if let SerializedMessage::Error(o) = result.unwrap() {
        assert!(*o == err);
    } else {
        panic!()
    }
}

#[test]
fn test_info_request() {
    let req1 = ObjectInfoRequest::latest_object_info_request(dbg_object_id(0x20), None);
    let req2 =
        ObjectInfoRequest::past_object_info_request(dbg_object_id(0x20), SequenceNumber::from(129));

    let buf1 = serialize_object_info_request(&req1);
    let buf2 = serialize_object_info_request(&req2);

    let result1 = deserialize_message(buf1.as_slice());
    let result2 = deserialize_message(buf2.as_slice());
    assert!(result1.is_ok());
    assert!(result2.is_ok());

    if let SerializedMessage::ObjectInfoReq(o) = result1.unwrap() {
        assert_eq!(*o, req1);
    } else {
        panic!()
    }
    if let SerializedMessage::ObjectInfoReq(o) = result2.unwrap() {
        assert_eq!(*o, req2);
    } else {
        panic!()
    }
}

#[test]
fn test_order() {
    let (sender_name, sender_key) = get_key_pair();

    let transfer_order = Order::new_transfer(
        dbg_addr(0x20),
        random_object_ref(),
        sender_name,
        random_object_ref(),
        &sender_key,
    );

    let buf = serialize_order(&transfer_order);
    let result = deserialize_message(buf.as_slice());
    assert!(result.is_ok());
    if let SerializedMessage::Order(o) = result.unwrap() {
        assert!(*o == transfer_order);
    } else {
        panic!()
    }

    let (sender_name, sender_key) = get_key_pair();
    let transfer_order2 = Order::new_transfer(
        dbg_addr(0x20),
        random_object_ref(),
        sender_name,
        random_object_ref(),
        &sender_key,
    );

    let buf = serialize_order(&transfer_order2);
    let result = deserialize_message(buf.as_slice());
    assert!(result.is_ok());
    if let SerializedMessage::Order(o) = result.unwrap() {
        assert!(*o == transfer_order2);
    } else {
        panic!()
    }
}

#[test]
fn test_vote() {
    let (sender_name, sender_key) = get_key_pair();
    let order = Order::new_transfer(
        dbg_addr(0x20),
        random_object_ref(),
        sender_name,
        random_object_ref(),
        &sender_key,
    );

    let (_, authority_key) = get_key_pair();
    let vote = SignedOrder::new(order, authority_key.public_key_bytes().clone(), &authority_key);

    let buf = serialize_vote(&vote);
    let result = deserialize_message(buf.as_slice());
    assert!(result.is_ok());
    if let SerializedMessage::Vote(o) = result.unwrap() {
        assert!(*o == vote);
    } else {
        panic!()
    }
}

#[test]
fn test_cert() {
    let (sender_name, sender_key) = get_key_pair();
    let order = Order::new_transfer(
        dbg_addr(0x20),
        random_object_ref(),
        sender_name,
        random_object_ref(),
        &sender_key,
    );
    let mut cert = CertifiedOrder {
        order,
        signatures: Vec::new(),
    };

    for _ in 0..3 {
        let (_, authority_key) = get_key_pair();
        let sig = AuthoritySignature::new(&cert.order.data, &authority_key);

        cert.signatures
            .push((authority_key.public_key_bytes().clone(), sig));
    }

    let buf = serialize_cert(&cert);
    let result = deserialize_message(buf.as_slice());
    assert!(result.is_ok());
    if let SerializedMessage::Cert(o) = result.unwrap() {
        assert!(compare_certified_orders(o.as_ref(), &cert));
    } else {
        panic!()
    }
}

#[test]
fn test_info_response() {
    let (sender_name, sender_key) = get_key_pair();
    let order = Order::new_transfer(
        dbg_addr(0x20),
        random_object_ref(),
        sender_name,
        random_object_ref(),
        &sender_key,
    );

    let (_, auth_key) = get_key_pair();
    let vote = SignedOrder::new(order.clone(), auth_key.public_key_bytes().clone(), &auth_key);

    let mut cert = CertifiedOrder {
        order,
        signatures: Vec::new(),
    };

    for _ in 0..3 {
        let (_, authority_key) = get_key_pair();
        let sig = AuthoritySignature::new(&cert.order.data, &authority_key);

        cert.signatures
            .push((authority_key.public_key_bytes().clone(), sig));
    }

    let object = Object::with_id_owner_for_testing(dbg_object_id(0x20), dbg_addr(0x20));
    let resp1 = ObjectInfoResponse {
        object_and_lock: Some(ObjectResponse {
            object: object.clone(),
            lock: Some(vote),
            layout: None,
        }),
        parent_certificate: None,
        requested_object_reference: Some(object.to_object_reference()),
    };
    let resp2 = resp1.clone();
    let resp3 = resp1.clone();
    let resp4 = resp1.clone();

    for resp in [resp1, resp2, resp3, resp4].iter() {
        let buf = serialize_object_info_response(resp);
        let result = deserialize_message(buf.as_slice());
        assert!(result.is_ok());
        if let SerializedMessage::ObjectInfoResp(o) = result.unwrap() {
            assert!(compare_object_info_responses(o.as_ref(), resp));
        } else {
            panic!()
        }
    }
}

#[test]
fn test_time_order() {
    let (sender_name, sender_key) = get_key_pair();

    let mut buf = Vec::new();
    let now = Instant::now();
    for _ in 0..100 {
        let transfer_order = Order::new_transfer(
            dbg_addr(0x20),
            random_object_ref(),
            sender_name.clone(),
            random_object_ref(),
            &sender_key,
        );
        serialize_transfer_order_into(&mut buf, &transfer_order);
    }
    println!("Write Order: {} microsec", now.elapsed().as_micros() / 100);

    let mut pos = 0usize;
    let now = Instant::now();
    for _ in 0..100 {
        if let SerializedMessage::Order(order) = deserialize_message_at(&buf, &mut pos).unwrap() {
            order.check_signature().unwrap();
        }
    }
    assert!(deserialize_message_at(&buf, &mut pos).is_err());
    println!(
        "Read & Check Order: {} microsec",
        now.elapsed().as_micros() / 100
    );
}

#[test]
fn test_time_vote() {
    let (sender_name, sender_key) = get_key_pair();
    let order = Order::new_transfer(
        dbg_addr(0x20),
        random_object_ref(),
        sender_name,
        random_object_ref(),
        &sender_key,
    );

    let (_, authority_key) = get_key_pair();

    let mut buf = Vec::new();
    let now = Instant::now();
    for _ in 0..100 {
        let vote = SignedOrder::new(
            order.clone(),
            authority_key.public_key_bytes().clone(),
            &authority_key,
        );
        serialize_vote_into(&mut buf, &vote);
    }
    println!("Write Vote: {} microsec", now.elapsed().as_micros() / 100);

    let mut pos = 0usize;
    let now = Instant::now();
    for _ in 0..100 {
        if let SerializedMessage::Vote(vote) = deserialize_message_at(&buf, &mut pos).unwrap() {
            vote.signature
                .check(&vote.order.data, &vote.authority)
                .unwrap();
        }
    }
    assert!(deserialize_message_at(&buf, &mut pos).is_err());
    println!(
        "Read & Quickcheck Vote: {} microsec",
        now.elapsed().as_micros() / 100
    );
}

#[test]
fn test_time_cert() {
    let count = 100;
    let (sender_name, sender_key) = get_key_pair();
    let order = Order::new_transfer(
        dbg_addr(0x20),
        random_object_ref(),
        sender_name,
        random_object_ref(),
        &sender_key,
    );
    let mut cert = CertifiedOrder {
        order,
        signatures: Vec::new(),
    };

    let mut committee = Committee {
        voting_rights: Vec::new(),
        quorum_threshold: 5,
    };
    for _ in 0..7 {
        let (_, authority_key) = get_key_pair();
        let sig = AuthoritySignature::new(&cert.order.data, &authority_key);
        cert.signatures
            .push((authority_key.public_key_bytes().clone(), sig));
        ed25519_dalek::PublicKey::from_bytes(&authority_key.public_key_bytes().bytes)
            .expect("No problem parsing key.");
        committee
            .voting_rights
            .push((authority_key.public_key_bytes().clone(), 1));
    }

    let mut buf = Vec::new();
    let now = Instant::now();

    for _ in 0..count {
        serialize_cert_into(&mut buf, &cert);
    }
    println!("Write Cert: {} microsec", now.elapsed().as_micros() / count);

    let now = Instant::now();
    let mut pos = 0usize;
    for _ in 0..count {
        if let SerializedMessage::Cert(cert) = deserialize_message_at(&buf, &mut pos).unwrap() {
            AuthoritySignature::verify_batch(&cert.order.data, &cert.signatures, &committee)
                .unwrap();
        }
    }
    assert!(deserialize_message_at(&buf, &mut pos).is_err());
    println!(
        "Read & Quickcheck Cert: {} microsec",
        now.elapsed().as_micros() / count
    );
}
