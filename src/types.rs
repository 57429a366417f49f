use vstd::prelude::*;

verus! {

/// Response code for a join payload that does not decode.
pub const REJECT_MALFORMED: u8 = 2;

/// Response code for a proof of admission that does not verify.
pub const REJECT_BAD_CERTIFICATE: u8 = 3;

/// Identifier of a peer group.
#[derive(Clone, Copy, Debug)]
pub struct GroupId {
    pub id: [u8; 32],
}

/// Network-level routing handle of a peer.
#[derive(Clone, Copy, Debug)]
pub struct PeerAddr {
    pub id: [u8; 32],
}

impl View for PeerAddr {
    type V = Seq<u8>;

    open spec fn view(&self) -> Seq<u8> {
        self.id@
    }
}

impl PeerAddr {
    /// Compares two peer addresses.
    pub fn same(&self, other: &PeerAddr) -> (r: bool)
        ensures
            r == (self@ == other@),
    {
        let mut i: usize = 0;
        while i < 32
            invariant
                self.id@.len() == 32,
                other.id@.len() == 32,
                i <= 32,
                forall|j: int| 0 <= j < i ==> self.id@[j] == other.id@[j],
            decreases 32 - i,
        {
            if self.id[i] != other.id[i] {
                return false;
            }
            i = i + 1;
        }
        assert(self@ =~= other@);
        true
    }
}

/// The socket address a member was reached at: its IP address bytes (four or
/// sixteen) and its port.
#[derive(Debug)]
pub struct SocketAddress {
    pub ip: Vec<u8>,
    pub port: u16,
}

impl View for SocketAddress {
    type V = (Seq<u8>, u16);

    open spec fn view(&self) -> (Seq<u8>, u16) {
        (self.ip@, self.port)
    }
}

/// The one outbound message a join request gets: whether the peer was
/// accepted, whether it may retry, and the response bytes (the local join
/// payload on accept, a reason code on reject).
#[derive(Debug)]
pub struct JoinVerdict {
    pub peer: PeerAddr,
    pub accepted: bool,
    pub need_retry: bool,
    pub data: Vec<u8>,
}

impl View for JoinVerdict {
    type V = (Seq<u8>, bool, bool, Seq<u8>);

    open spec fn view(&self) -> (Seq<u8>, bool, bool, Seq<u8>) {
        (self.peer@, self.accepted, self.need_retry, self.data@)
    }
}

/// The verdict that accepts `peer` and answers with `payload`.
pub open spec fn accepted_verdict(peer: Seq<u8>, payload: Seq<u8>) -> (Seq<u8>, bool, bool, Seq<u8>) {
    (peer, true, false, payload)
}

/// The verdict that rejects `peer` with reason `code`.
pub open spec fn rejected_verdict(peer: Seq<u8>, code: u8) -> (Seq<u8>, bool, bool, Seq<u8>) {
    (peer, false, true, seq![code])
}

} // verus!
