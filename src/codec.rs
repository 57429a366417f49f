use vstd::prelude::*;

verus! {

/// The unsigned LEB128 encoding of a length, seven bits per byte, least
/// significant group first, high bit set on every byte but the last.
pub open spec fn varint(n: nat) -> Seq<u8>
    decreases n,
{
    if n < 128 {
        seq![n as u8]
    } else {
        seq![((n % 128) + 128) as u8] + varint(n / 128)
    }
}

/// A byte string as the wire format writes it: its length, then its bytes.
pub open spec fn length_prefixed(s: Seq<u8>) -> Seq<u8> {
    varint(s.len()) + s
}

/// The join payload for a public key and its proof of admission.
pub open spec fn join_payload(pk: Seq<u8>, proof: Seq<u8>) -> Seq<u8> {
    length_prefixed(pk) + length_prefixed(proof)
}

/// What decoding a join payload yields: the public key and the proof, or
/// nothing where the bytes do not hold such a pair.
pub uninterp spec fn decoded_join(b: Seq<u8>) -> Option<(Seq<u8>, Seq<u8>)>;

/// postcard::Error, the error that postcard's decoding returns; it is only
/// carried and then dropped.
#[verifier::external_type_specification]
#[verifier::external_body]
pub struct ExPostcardError(postcard::Error);

/// Relies on postcard::to_allocvec: a byte vector is written as its length in
/// varint form followed by its bytes, and writing into a growable vector
/// cannot run out of room.
#[verifier::external_body]
fn encode_bytes(b: &Vec<u8>) -> (r: Result<Vec<u8>, postcard::Error>)
    ensures
        r is Ok,
        r is Ok ==> r->Ok_0@ == length_prefixed(b@),
{
    postcard::to_allocvec(b)
}

/// Relies on postcard::to_allocvec: a pair is written as its two fields one
/// after the other, each byte vector as its length followed by its bytes;
/// postcard::from_bytes reads such bytes back as the same pair.
#[verifier::external_body]
fn encode_pair(a: &Vec<u8>, b: &Vec<u8>) -> (r: Result<Vec<u8>, postcard::Error>)
    ensures
        r is Ok,
        r is Ok ==> r->Ok_0@ == join_payload(a@, b@),
        r is Ok ==> decoded_join(r->Ok_0@) == Some((a@, b@)),
{
    postcard::to_allocvec(&(a, b))
}

/// Relies on postcard::from_bytes decoding a pair of byte vectors; an empty
/// input ends before the first length and is an error.
#[verifier::external_body]
fn decode_pair(b: &Vec<u8>) -> (r: Result<(Vec<u8>, Vec<u8>), postcard::Error>)
    ensures
        r is Ok <==> decoded_join(b@) is Some,
        r matches Ok(p) ==> decoded_join(b@) == Some((p.0@, p.1@)),
        b@.len() == 0 ==> r is Err,
{
    postcard::from_bytes::<(Vec<u8>, Vec<u8>)>(b.as_slice())
}

/// The message a certificate authority signs to admit `pk`: the key in its
/// wire form.
pub fn key_message(pk: &Vec<u8>) -> (r: Vec<u8>)
    ensures
        r@ == length_prefixed(pk@),
{
    match encode_bytes(pk) {
        Ok(v) => v,
        Err(_) => Vec::new(),
    }
}

/// Encodes a public key and its proof of admission as a join payload.
pub fn encode_join_payload(pk: &Vec<u8>, proof: &Vec<u8>) -> (r: Vec<u8>)
    ensures
        r@ == join_payload(pk@, proof@),
        decoded_join(r@) == Some((pk@, proof@)),
{
    match encode_pair(pk, proof) {
        Ok(v) => v,
        Err(_) => Vec::new(),
    }
}

/// Decodes a join payload into the public key and the proof it carries.
pub fn decode_join_payload(b: &Vec<u8>) -> (r: Option<(Vec<u8>, Vec<u8>)>)
    ensures
        r is Some <==> decoded_join(b@) is Some,
        r matches Some(p) ==> decoded_join(b@) == Some((p.0@, p.1@)),
        b@.len() == 0 ==> r is None,
{
    match decode_pair(b) {
        Ok(p) => Some(p),
        Err(_) => None,
    }
}

/// Compares two byte strings.
pub fn bytes_eq(a: &Vec<u8>, b: &Vec<u8>) -> (r: bool)
    ensures
        r == (a@ == b@),
{
    if a.len() != b.len() {
        return false;
    }
    let mut i: usize = 0;
    while i < a.len()
        invariant
            a@.len() == b@.len(),
            i <= a@.len(),
            forall|j: int| 0 <= j < i ==> a@[j] == b@[j],
        decreases a@.len() - i,
    {
        if a[i] != b[i] {
            return false;
        }
        i = i + 1;
    }
    assert(a@ =~= b@);
    true
}

/// Copies a byte string.
pub fn copy_bytes(a: &Vec<u8>) -> (r: Vec<u8>)
    ensures
        r@ == a@,
{
    let r = a.clone();
    assert(r@ =~= a@);
    r
}

} // verus!
