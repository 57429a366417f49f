use vstd::prelude::*;

verus! {

/// Signing failed in the identity scheme.
#[derive(Debug)]
pub struct IdentityError {
    pub reason: Vec<u8>,
}

/// The signature scheme a deployment supplies: public keys, secret keys and
/// signatures are byte strings whose meaning the scheme alone knows.
pub trait Identity {
    /// `sig` is a signature of `msg` made with the secret key `sk`.
    spec fn signs(sk: Vec<u8>, msg: Vec<u8>, sig: Vec<u8>) -> bool;

    /// `sig` is accepted as a signature of `msg` under the public key `pk`.
    spec fn verifies(pk: Vec<u8>, msg: Vec<u8>, sig: Vec<u8>) -> bool;

    /// Signs `msg` with the secret key `sk`.
    fn sign(sk: &Vec<u8>, msg: &Vec<u8>) -> (r: Result<Vec<u8>, IdentityError>)
        ensures
            r matches Ok(s) ==> Self::signs(*sk, *msg, s),
    ;

    /// Whether `sig` is a signature of `msg` under the public key `pk`.
    fn verify(pk: &Vec<u8>, msg: &Vec<u8>, sig: &Vec<u8>) -> (r: bool)
        ensures
            r == Self::verifies(*pk, *msg, *sig),
    ;
}

} // verus!
