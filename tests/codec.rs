use tdn_permission::{decode_join_payload, encode_join_payload, key_message};

#[test]
fn key_message_prefixes_length() {
    assert_eq!(key_message(&vec![1, 2, 3]), vec![3, 1, 2, 3]);
    assert_eq!(key_message(&vec![]), vec![0]);
}

#[test]
fn key_message_long_key_uses_two_length_bytes() {
    let pk = vec![7u8; 200];
    let msg = key_message(&pk);
    assert_eq!(msg.len(), 202);
    assert_eq!(msg[0], 0xc8);
    assert_eq!(msg[1], 0x01);
    assert_eq!(&msg[2..], &pk[..]);
}

#[test]
fn join_payload_is_two_prefixed_fields() {
    assert_eq!(encode_join_payload(&vec![1], &vec![2]), vec![1, 1, 1, 2]);
    assert_eq!(encode_join_payload(&vec![9, 8], &vec![]), vec![2, 9, 8, 0]);
}

#[test]
fn join_payload_decodes_back() {
    let bytes = encode_join_payload(&vec![1, 2, 3], &vec![4, 5]);
    assert_eq!(decode_join_payload(&bytes), Some((vec![1, 2, 3], vec![4, 5])));
}

#[test]
fn truncated_payload_does_not_decode() {
    let bytes = encode_join_payload(&vec![1, 2, 3], &vec![4, 5]);
    assert_eq!(decode_join_payload(&bytes[..4].to_vec()), None);
    assert_eq!(decode_join_payload(&vec![]), None);
    assert_eq!(decode_join_payload(&vec![5, 1]), None);
}
