//! The open baseline policy: every peer is let in.
use vstd::prelude::*;
use crate::types::{accepted_verdict, GroupId, JoinVerdict, PeerAddr};

verus! {

/// A group that admits every peer.
#[derive(Debug)]
pub struct PermissionlessGroup {
    id: GroupId,
}

impl PermissionlessGroup {
    pub closed spec fn group_id(&self) -> GroupId {
        self.id
    }

    pub fn new(id: GroupId) -> (r: Self)
        ensures
            r.group_id() == id,
    {
        PermissionlessGroup { id }
    }

    /// The group's identifier.
    pub fn id(&self) -> (r: GroupId)
        ensures
            r == self.group_id(),
    {
        self.id
    }

    /// Every peer may connect.
    pub fn guard(&self, _addr: &PeerAddr) -> (r: bool)
        ensures
            r,
    {
        true
    }

    /// A join request is accepted with an empty response.
    pub fn join(&self, peer_addr: PeerAddr) -> (r: JoinVerdict)
        ensures
            r@ == accepted_verdict(peer_addr@, Seq::empty()),
    {
        let r = JoinVerdict { peer: peer_addr, accepted: true, need_retry: false, data: Vec::new() };
        assert(r.data@ =~= Seq::<u8>::empty());
        r
    }
}

} // verus!
