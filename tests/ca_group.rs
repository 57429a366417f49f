use tdn_permission::{
    decode_join_payload, encode_join_payload, key_message, CAPermissionedGroup, GroupId, Identity,
    IdentityError, PeerAddr, SocketAddress, REJECT_BAD_CERTIFICATE, REJECT_MALFORMED,
};

/// A toy scheme in which the secret key equals the public key and a
/// signature is the message mixed with the key byte by byte.
struct ToyScheme;

fn mix(key: &Vec<u8>, msg: &Vec<u8>) -> Vec<u8> {
    msg.iter()
        .enumerate()
        .map(|(i, b)| b.wrapping_add(key[i % key.len()]).rotate_left(3) ^ 0x5a)
        .collect()
}

impl Identity for ToyScheme {
    fn signs(sk: Vec<u8>, msg: Vec<u8>, sig: Vec<u8>) -> bool {
        !sk.is_empty() && mix(&sk, &msg) == sig
    }

    fn verifies(pk: Vec<u8>, msg: Vec<u8>, sig: Vec<u8>) -> bool {
        Self::verify(&pk, &msg, &sig)
    }

    fn sign(sk: &Vec<u8>, msg: &Vec<u8>) -> Result<Vec<u8>, IdentityError> {
        if sk.is_empty() {
            return Err(IdentityError { reason: b"empty key".to_vec() });
        }
        Ok(mix(sk, msg))
    }

    fn verify(pk: &Vec<u8>, msg: &Vec<u8>, sig: &Vec<u8>) -> bool {
        !pk.is_empty() && &mix(pk, msg) == sig
    }
}

const CA: [u8; 2] = [42, 43];

fn peer(n: u8) -> PeerAddr {
    PeerAddr { id: [n; 32] }
}

fn sock(n: u8) -> SocketAddress {
    SocketAddress { ip: vec![10, 0, 0, n], port: 7000 + n as u16 }
}

fn group() -> CAPermissionedGroup {
    let my_pk = vec![1, 1];
    let my_prove = CAPermissionedGroup::sign_prove::<ToyScheme>(&CA.to_vec(), &my_pk).unwrap();
    CAPermissionedGroup::new(GroupId { id: [0; 32] }, my_pk, my_prove, CA.to_vec())
}

fn payload_for(pk: &Vec<u8>) -> Vec<u8> {
    let proof = CAPermissionedGroup::sign_prove::<ToyScheme>(&CA.to_vec(), pk).unwrap();
    encode_join_payload(pk, &proof)
}

#[test]
fn certificate_signature_verifies_and_bit_flip_fails() {
    for pk in [vec![5u8], vec![1, 2, 3, 4], vec![0u8; 40]] {
        let sig = CAPermissionedGroup::sign_prove::<ToyScheme>(&CA.to_vec(), &pk).unwrap();
        assert!(ToyScheme::verify(&CA.to_vec(), &key_message(&pk), &sig));
        for byte in 0..sig.len() {
            for bit in 0..8 {
                let mut bad = sig.clone();
                bad[byte] ^= 1 << bit;
                assert!(!ToyScheme::verify(&CA.to_vec(), &key_message(&pk), &bad));
            }
        }
    }
}

#[test]
fn sign_prove_signs_the_key_message() {
    let pk = vec![9, 9, 9];
    let sig = CAPermissionedGroup::sign_prove::<ToyScheme>(&CA.to_vec(), &pk).unwrap();
    assert_eq!(sig, mix(&CA.to_vec(), &vec![3, 9, 9, 9]));
    assert!(CAPermissionedGroup::sign_prove::<ToyScheme>(&vec![], &pk).is_err());
}

#[test]
fn join_bytes_carry_own_key_and_proof() {
    let g = group();
    let decoded = decode_join_payload(&g.join_bytes()).unwrap();
    assert_eq!(decoded.0, vec![1, 1]);
    assert!(ToyScheme::verify(&CA.to_vec(), &key_message(&decoded.0), &decoded.1));
}

#[test]
fn valid_certificate_is_admitted() {
    let mut g = group();
    let pk = vec![7, 7, 7];
    let v = g.join::<ToyScheme>(peer(1), sock(1), payload_for(&pk));
    assert!(v.accepted);
    assert!(!v.need_retry);
    assert_eq!(v.peer.id, [1; 32]);
    assert_eq!(v.data, g.join_bytes());
    assert!(g.is_member(&peer(1)));
    assert_eq!(g.member_count(), 1);
    assert_eq!(g.get_peer_addr(&pk).unwrap().id, [1; 32]);
    let peers = g.peers();
    assert_eq!(peers.len(), 1);
    assert_eq!(peers[0].id, [1; 32]);
}

#[test]
fn rejoin_is_idempotent() {
    let mut g = group();
    let pk = vec![7, 7, 7];
    let first = g.join::<ToyScheme>(peer(1), sock(1), payload_for(&pk));
    let second = g.join::<ToyScheme>(peer(1), sock(2), payload_for(&pk));
    assert!(first.accepted && second.accepted);
    assert_eq!(first.data, second.data);
    assert_eq!(g.member_count(), 1);
    // An admitted address is not checked again, even with a bad payload.
    let third = g.join::<ToyScheme>(peer(1), sock(1), vec![0xff]);
    assert!(third.accepted);
    assert_eq!(g.member_count(), 1);
}

#[test]
fn malformed_payload_is_rejected_with_code_two() {
    let mut g = group();
    let mut bytes = payload_for(&vec![7, 7, 7]);
    bytes.truncate(3);
    let v = g.join::<ToyScheme>(peer(2), sock(2), bytes);
    assert!(!v.accepted);
    assert!(v.need_retry);
    assert_eq!(v.data, vec![REJECT_MALFORMED]);
    assert_eq!(v.data, vec![2]);
    assert_eq!(g.member_count(), 0);
    assert!(g.get_peer_addr(&vec![7, 7, 7]).is_none());
}

#[test]
fn bad_certificate_is_rejected_with_code_three() {
    let mut g = group();
    let pk = vec![7, 7, 7];
    let forged = encode_join_payload(&pk, &vec![1, 2, 3, 4]);
    let v = g.join::<ToyScheme>(peer(3), sock(3), forged);
    assert!(!v.accepted);
    assert!(v.need_retry);
    assert_eq!(v.data, vec![REJECT_BAD_CERTIFICATE]);
    assert_eq!(v.data, vec![3]);
    assert!(!g.is_member(&peer(3)));
    assert!(g.get_peer_addr(&pk).is_none());
}

#[test]
fn settle_join_follows_the_verification_result() {
    let mut g = group();
    let ok = g.settle_join(peer(4), sock(4), vec![4], vec![44], true);
    assert!(ok.accepted);
    assert!(g.is_member(&peer(4)));
    let no = g.settle_join(peer(5), sock(5), vec![5], vec![55], false);
    assert!(!no.accepted);
    assert_eq!(no.data, vec![3]);
    assert!(!g.is_member(&peer(5)));
}

#[test]
fn negative_join_result_rolls_back() {
    let mut g = group();
    g.join::<ToyScheme>(peer(1), sock(1), payload_for(&vec![7]));
    g.join::<ToyScheme>(peer(2), sock(2), payload_for(&vec![8]));
    g.join_result(peer(1), true, vec![]);
    assert_eq!(g.member_count(), 2);
    g.join_result(peer(1), false, vec![]);
    assert!(!g.is_member(&peer(1)));
    assert!(g.get_peer_addr(&vec![7]).is_none());
    assert_eq!(g.get_peer_addr(&vec![8]).unwrap().id, [2; 32]);
    assert!(g.is_member(&peer(2)));
    assert_eq!(g.member_count(), 1);
    g.join_result(peer(1), false, vec![]);
    assert_eq!(g.member_count(), 1);
    assert!(g.is_member(&peer(2)));
}

#[test]
fn leave_drops_record_and_names() {
    let mut g = group();
    g.join::<ToyScheme>(peer(1), sock(1), payload_for(&vec![7]));
    g.join::<ToyScheme>(peer(2), sock(2), payload_for(&vec![8]));
    g.leave(&peer(1));
    assert!(!g.is_member(&peer(1)));
    assert!(g.get_peer_addr(&vec![7]).is_none());
    assert_eq!(g.get_peer_addr(&vec![8]).unwrap().id, [2; 32]);
    g.leave(&peer(9));
    assert_eq!(g.member_count(), 1);
}

#[test]
fn add_replaces_record_of_same_address() {
    let mut g = group();
    g.add(peer(1), vec![1], vec![11], sock(1));
    g.add(peer(2), vec![2], vec![22], sock(2));
    g.add(peer(1), vec![3], vec![33], sock(3));
    assert_eq!(g.member_count(), 2);
    let peers = g.peers();
    assert_eq!(peers[0].id, [1; 32]);
    assert_eq!(peers[1].id, [2; 32]);
}

#[test]
fn get_returns_the_admitted_record() {
    let mut g = group();
    let pk = vec![7, 7, 7];
    let payload = payload_for(&pk);
    let proof = decode_join_payload(&payload).unwrap().1;
    g.join::<ToyScheme>(peer(1), sock(1), payload);
    let rec = g.get(&peer(1)).unwrap();
    assert_eq!(rec.pk, pk);
    assert_eq!(rec.proof, proof);
    assert_eq!(rec.addr.ip, vec![10, 0, 0, 1]);
    assert_eq!(rec.addr.port, 7001);
    assert!(g.get(&peer(2)).is_none());
}
