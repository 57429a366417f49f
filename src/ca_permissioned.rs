//! Certificate-based admission: a peer is admitted when it presents a
//! signature of the certificate authority over its own public key.
use vstd::prelude::*;
use crate::codec::{
    bytes_eq, copy_bytes, decode_join_payload, decoded_join, encode_join_payload, join_payload,
    key_message, length_prefixed,
};
use crate::identity::{Identity, IdentityError};
use crate::table::{
    has_key, index_of, keys_of, lemma_filter_all, lemma_filter_twice, lemma_filter_unique, lemma_index_of, lemma_remove_key,
    lemma_upsert, lookup, remove_key, unique_keys, upsert,
};
use crate::types::{
    accepted_verdict, rejected_verdict, GroupId, JoinVerdict, PeerAddr, SocketAddress,
    REJECT_BAD_CERTIFICATE, REJECT_MALFORMED,
};

verus! {

/// What the table keeps of a member: its public key, its proof of admission
/// and the socket address it joined from.
pub type MemberInfo = (Seq<u8>, Seq<u8>, (Seq<u8>, u16));

/// A member of the group, keyed by its peer address.
#[derive(Debug)]
pub struct MemberRecord {
    pub peer: PeerAddr,
    pub pk: Vec<u8>,
    pub proof: Vec<u8>,
    pub addr: SocketAddress,
}

impl View for MemberRecord {
    type V = (Seq<u8>, MemberInfo);

    open spec fn view(&self) -> (Seq<u8>, MemberInfo) {
        (self.peer@, (self.pk@, self.proof@, self.addr@))
    }
}

/// A group whose members each hold a certificate of one authority.
#[derive(Debug)]
pub struct CAPermissionedGroup {
    id: GroupId,
    my_pk: Vec<u8>,
    my_prove: Vec<u8>,
    ca: Vec<u8>,
    peers: Vec<MemberRecord>,
    peers_name: Vec<(Vec<u8>, PeerAddr)>,
}

/// Holds of a name index entry bound to an address other than `peer`.
pub open spec fn bound_elsewhere(peer: Seq<u8>) -> spec_fn((Seq<u8>, Seq<u8>)) -> bool {
    |e: (Seq<u8>, Seq<u8>)| e.1 != peer
}

/// The view of an entry of the name index: public key and peer address.
pub open spec fn name_view(e: (Vec<u8>, PeerAddr)) -> (Seq<u8>, Seq<u8>) {
    (e.0@, e.1@)
}

impl CAPermissionedGroup {
    /// The members: peer address with what is known of the member.
    pub closed spec fn members(&self) -> Seq<(Seq<u8>, MemberInfo)> {
        self.peers@.map_values(|r: MemberRecord| r@)
    }

    /// The name index: public key with the peer address it was last seen at.
    pub closed spec fn names(&self) -> Seq<(Seq<u8>, Seq<u8>)> {
        self.peers_name@.map_values(|e: (Vec<u8>, PeerAddr)| name_view(e))
    }

    pub closed spec fn group_id(&self) -> GroupId {
        self.id
    }

    /// This peer's own public key.
    pub closed spec fn local_key(&self) -> Seq<u8> {
        self.my_pk@
    }

    /// The authority's signature over this peer's own key.
    pub closed spec fn local_proof(&self) -> Seq<u8> {
        self.my_prove@
    }

    /// The authority's public key.
    pub closed spec fn authority(&self) -> Seq<u8> {
        self.ca@
    }

    /// The authority's public key as the identity scheme is handed it.
    pub closed spec fn authority_key(&self) -> Vec<u8> {
        self.ca
    }

    /// No peer address and no public key appears twice.
    pub open spec fn wf(&self) -> bool {
        unique_keys(self.members()) && unique_keys(self.names())
    }

    /// Everything but the two tables is as in `other`.
    pub open spec fn same_settings(&self, other: &Self) -> bool {
        &&& self.group_id() == other.group_id()
        &&& self.local_key() == other.local_key()
        &&& self.local_proof() == other.local_proof()
        &&& self.authority() == other.authority()
        &&& self.authority_key() == other.authority_key()
    }

    pub fn new(id: GroupId, my_pk: Vec<u8>, my_prove: Vec<u8>, ca: Vec<u8>) -> (r: Self)
        ensures
            r.wf(),
            r.group_id() == id,
            r.local_key() == my_pk@,
            r.local_proof() == my_prove@,
            r.authority() == ca@,
            r.authority_key() == ca,
            r.members().len() == 0,
            r.names().len() == 0,
    {
        let r = CAPermissionedGroup {
            id,
            my_pk,
            my_prove,
            ca,
            peers: Vec::new(),
            peers_name: Vec::new(),
        };
        assert(r.members() =~= Seq::empty());
        assert(r.names() =~= Seq::empty());
        r
    }

    /// The group's identifier.
    pub fn id(&self) -> (r: GroupId)
        ensures
            r == self.group_id(),
    {
        self.id
    }

    /// The position of `peer` in the member table.
    fn find_member(&self, peer: &PeerAddr) -> (r: Option<usize>)
        requires
            self.wf(),
        ensures
            r matches Some(i) ==> i as int == index_of(self.members(), peer@),
            r matches Some(i) ==> i < self.peers@.len() && self.members()[i as int].0 == peer@,
            r is None ==> index_of(self.members(), peer@) == -1,
    {
        proof {
            lemma_index_of(self.members(), peer@);
        }
        let mut i: usize = 0;
        while i < self.peers.len()
            invariant
                self.wf(),
                i <= self.peers@.len(),
                forall|j: int| 0 <= j < i ==> self.members()[j].0 != peer@,
            decreases self.peers@.len() - i,
        {
            if self.peers[i].peer.same(peer) {
                assert(self.members()[i as int] == self.peers@[i as int]@);
                proof {
                    lemma_index_of(self.members(), peer@);
                }
                return Some(i);
            }
            i = i + 1;
        }
        None
    }

    /// The position of `pk` in the name index.
    fn find_name(&self, pk: &Vec<u8>) -> (r: Option<usize>)
        requires
            self.wf(),
        ensures
            r matches Some(i) ==> i as int == index_of(self.names(), pk@),
            r matches Some(i) ==> i < self.peers_name@.len() && self.names()[i as int].0 == pk@,
            r is None ==> index_of(self.names(), pk@) == -1,
    {
        proof {
            lemma_index_of(self.names(), pk@);
        }
        let mut i: usize = 0;
        while i < self.peers_name.len()
            invariant
                self.wf(),
                i <= self.peers_name@.len(),
                forall|j: int| 0 <= j < i ==> self.names()[j].0 != pk@,
            decreases self.peers_name@.len() - i,
        {
            if bytes_eq(&self.peers_name[i].0, pk) {
                assert(self.names()[i as int] == name_view(self.peers_name@[i as int]));
                proof {
                    lemma_index_of(self.names(), pk@);
                }
                return Some(i);
            }
            i = i + 1;
        }
        None
    }

    /// The peer addresses of all members, in table order.
    pub fn peers(&self) -> (r: Vec<PeerAddr>)
        ensures
            r@.map_values(|a: PeerAddr| a@) == keys_of(self.members()),
    {
        let mut r: Vec<PeerAddr> = Vec::new();
        let mut i: usize = 0;
        while i < self.peers.len()
            invariant
                i <= self.peers@.len(),
                r@.map_values(|a: PeerAddr| a@) =~= keys_of(self.members()).take(i as int),
            decreases self.peers@.len() - i,
        {
            let ghost r0 = r@;
            r.push(self.peers[i].peer);
            proof {
                assert(r@ == r0.push(self.peers@[i as int].peer));
                assert(keys_of(self.members())[i as int] == self.peers@[i as int].peer@);
                assert(keys_of(self.members()).take(i as int + 1) =~= keys_of(self.members()).take(
                    i as int,
                ).push(self.peers@[i as int].peer@));
                assert(r@.map_values(|a: PeerAddr| a@) =~= r0.map_values(|a: PeerAddr| a@).push(
                    self.peers@[i as int].peer@,
                ));
            }
            i = i + 1;
        }
        assert(keys_of(self.members()).take(i as int) =~= keys_of(self.members()));
        r
    }

    /// Whether `peer` is a member.
    pub fn is_member(&self, peer: &PeerAddr) -> (r: bool)
        requires
            self.wf(),
        ensures
            r == has_key(self.members(), peer@),
    {
        proof {
            lemma_index_of(self.members(), peer@);
        }
        self.find_member(peer).is_some()
    }

    /// The record held for `peer`.
    pub fn get(&self, peer: &PeerAddr) -> (r: Option<&MemberRecord>)
        requires
            self.wf(),
        ensures
            r is None <==> lookup(self.members(), peer@) is None,
            r matches Some(m) ==> m@.0 == peer@ && lookup(self.members(), peer@) == Some(m@.1),
    {
        match self.find_member(peer) {
            Some(i) => {
                assert(self.members()[i as int] == self.peers@[i as int]@);
                Some(&self.peers[i])
            },
            None => None,
        }
    }

    /// The number of members.
    pub fn member_count(&self) -> (r: usize)
        ensures
            r == self.members().len(),
    {
        self.peers.len()
    }

    /// The peer address that the member with public key `name` was last
    /// admitted at.
    pub fn get_peer_addr(&self, name: &Vec<u8>) -> (r: Option<PeerAddr>)
        requires
            self.wf(),
        ensures
            r is None <==> lookup(self.names(), name@) is None,
            r matches Some(a) ==> lookup(self.names(), name@) == Some(a@),
    {
        match self.find_name(name) {
            Some(i) => Some(self.peers_name[i].1),
            None => None,
        }
    }

    /// Adds a member directly, replacing any record held for `peer_addr`.
    pub fn add(&mut self, peer_addr: PeerAddr, pk: Vec<u8>, sign: Vec<u8>, addr: SocketAddress)
        requires
            old(self).wf(),
        ensures
            final(self).wf(),
            final(self).same_settings(old(self)),
            final(self).members() == upsert(old(self).members(), (peer_addr@, (pk@, sign@, addr@))),
            final(self).names() == old(self).names(),
    {
        let ghost e = (peer_addr@, (pk@, sign@, addr@));
        proof {
            lemma_index_of(self.members(), peer_addr@);
            lemma_upsert(self.members(), e);
        }
        let rec = MemberRecord { peer: peer_addr, pk, proof: sign, addr };
        match self.find_member(&peer_addr) {
            Some(i) => {
                self.peers.set(i, rec);
                assert(self.members() =~= upsert(old(self).members(), e));
            },
            None => {
                self.peers.push(rec);
                assert(self.members() =~= upsert(old(self).members(), e));
            },
        }
    }

    /// Records that the member with key `pk` is reachable at `peer_addr`.
    fn bind_name(&mut self, pk: Vec<u8>, peer_addr: PeerAddr)
        requires
            old(self).wf(),
        ensures
            final(self).wf(),
            final(self).same_settings(old(self)),
            final(self).members() == old(self).members(),
            final(self).names() == upsert(old(self).names(), (pk@, peer_addr@)),
    {
        let ghost e = (pk@, peer_addr@);
        proof {
            lemma_index_of(self.names(), pk@);
            lemma_upsert(self.names(), e);
        }
        match self.find_name(&pk) {
            Some(i) => {
                self.peers_name.set(i, (pk, peer_addr));
                assert(self.names() =~= upsert(old(self).names(), e));
            },
            None => {
                self.peers_name.push((pk, peer_addr));
                assert(self.names() =~= upsert(old(self).names(), e));
            },
        }
    }

    /// This peer's join payload: its own key and the authority's signature
    /// over it, for a peer that evaluates this one.
    pub fn join_bytes(&self) -> (r: Vec<u8>)
        ensures
            r@ == join_payload(self.local_key(), self.local_proof()),
    {
        encode_join_payload(&self.my_pk, &self.my_prove)
    }

    /// The authority's side of enrollment: signs the wire form of `pk`.
    pub fn sign_prove<I: Identity>(sk: &Vec<u8>, pk: &Vec<u8>) -> (r: Result<Vec<u8>, IdentityError>)
        ensures
            r matches Ok(sig) ==> exists|m: Vec<u8>| m@ == length_prefixed(pk@) && I::signs(*sk, m, sig),
    {
        let msg = key_message(pk);
        I::sign(sk, &msg)
    }

    /// Completes a join whose payload decoded to `pk` and `proof`, given
    /// whether the proof is the authority's signature over `pk`: a verified
    /// proof admits the peer at `peer_addr` and answers with this peer's own
    /// payload; any other is rejected.
    pub fn settle_join(
        &mut self,
        peer_addr: PeerAddr,
        addr: SocketAddress,
        pk: Vec<u8>,
        proof: Vec<u8>,
        verified: bool,
    ) -> (r: JoinVerdict)
        requires
            old(self).wf(),
        ensures
            final(self).wf(),
            final(self).same_settings(old(self)),
            verified ==> r@ == accepted_verdict(
                peer_addr@,
                join_payload(old(self).local_key(), old(self).local_proof()),
            ),
            verified ==> final(self).members() == upsert(
                old(self).members(),
                (peer_addr@, (pk@, proof@, addr@)),
            ),
            verified ==> final(self).names() == upsert(old(self).names(), (pk@, peer_addr@)),
            !verified ==> r@ == rejected_verdict(peer_addr@, REJECT_BAD_CERTIFICATE),
            !verified ==> final(self).members() == old(self).members(),
            !verified ==> final(self).names() == old(self).names(),
    {
        if verified {
            let data = self.join_bytes();
            let name = copy_bytes(&pk);
            self.add(peer_addr, pk, proof, addr);
            self.bind_name(name, peer_addr);
            JoinVerdict { peer: peer_addr, accepted: true, need_retry: false, data }
        } else {
            JoinVerdict {
                peer: peer_addr,
                accepted: false,
                need_retry: true,
                data: vec![REJECT_BAD_CERTIFICATE],
            }
        }
    }

    /// Evaluates a join request from `peer_addr`, reached at `addr`, that
    /// carries `join_bytes`. A member is accepted again without any check; a
    /// payload that does not decode is rejected as malformed; otherwise the
    /// proof is checked against the authority's key by the identity scheme
    /// and the peer is admitted or rejected accordingly.
    pub fn join<I: Identity>(&mut self, peer_addr: PeerAddr, addr: SocketAddress, join_bytes: Vec<u8>) -> (r: JoinVerdict)
        requires
            old(self).wf(),
        ensures
            final(self).wf(),
            final(self).same_settings(old(self)),
            has_key(old(self).members(), peer_addr@) ==> {
                &&& r@ == accepted_verdict(
                    peer_addr@,
                    join_payload(old(self).local_key(), old(self).local_proof()),
                )
                &&& final(self).members() == old(self).members()
                &&& final(self).names() == old(self).names()
            },
            !has_key(old(self).members(), peer_addr@) && decoded_join(join_bytes@) is None ==> {
                &&& r@ == rejected_verdict(peer_addr@, REJECT_MALFORMED)
                &&& final(self).members() == old(self).members()
                &&& final(self).names() == old(self).names()
            },
            !has_key(old(self).members(), peer_addr@) && decoded_join(join_bytes@) is Some ==> {
                let (pk, proof) = decoded_join(join_bytes@)->Some_0;
                ||| {
                    &&& r@ == accepted_verdict(
                        peer_addr@,
                        join_payload(old(self).local_key(), old(self).local_proof()),
                    )
                    &&& final(self).members() == old(self).members().push(
                        (peer_addr@, (pk, proof, addr@)),
                    )
                    &&& final(self).names() == upsert(old(self).names(), (pk, peer_addr@))
                }
                ||| {
                    &&& r@ == rejected_verdict(peer_addr@, REJECT_BAD_CERTIFICATE)
                    &&& final(self).members() == old(self).members()
                    &&& final(self).names() == old(self).names()
                }
            },
            !has_key(old(self).members(), peer_addr@) && decoded_join(join_bytes@) is Some ==> {
                let (pk, proof) = decoded_join(join_bytes@)->Some_0;
                exists|m: Vec<u8>, p: Vec<u8>| {
                    &&& m@ == length_prefixed(pk)
                    &&& p@ == proof
                    &&& r.accepted == I::verifies(old(self).authority_key(), m, p)
                }
            },
    {
        proof {
            lemma_index_of(self.members(), peer_addr@);
        }
        if self.is_member(&peer_addr) {
            let data = self.join_bytes();
            return JoinVerdict { peer: peer_addr, accepted: true, need_retry: false, data };
        }
        match decode_join_payload(&join_bytes) {
            None => JoinVerdict {
                peer: peer_addr,
                accepted: false,
                need_retry: true,
                data: vec![REJECT_MALFORMED],
            },
            Some((pk, proof)) => {
                let msg = key_message(&pk);
                let verified = I::verify(&self.ca, &msg, &proof);
                let ghost proof_vec = proof;
                let r = self.settle_join(peer_addr, addr, pk, proof, verified);
                assert(msg@ == length_prefixed(decoded_join(join_bytes@)->Some_0.0));
                assert(r.accepted == I::verifies(old(self).authority_key(), msg, proof_vec));
                r
            },
        }
    }

    /// The outcome of a join request this peer made: on failure the record
    /// held for `peer_addr` is rolled back.
    pub fn join_result(&mut self, peer_addr: PeerAddr, is_ok: bool, _join_result: Vec<u8>)
        requires
            old(self).wf(),
        ensures
            final(self).wf(),
            final(self).same_settings(old(self)),
            is_ok ==> final(self).members() == old(self).members(),
            is_ok ==> final(self).names() == old(self).names(),
            !is_ok ==> final(self).members() == remove_key(old(self).members(), peer_addr@),
            !is_ok ==> final(self).names() == old(self).names().filter(bound_elsewhere(peer_addr@)),
    {
        if !is_ok {
            self.leave(&peer_addr);
        }
    }

    fn remove_member(&mut self, peer_addr: &PeerAddr)
        requires
            old(self).wf(),
        ensures
            final(self).wf(),
            final(self).same_settings(old(self)),
            final(self).members() == remove_key(old(self).members(), peer_addr@),
            final(self).names() == old(self).names(),
    {
        proof {
            lemma_remove_key(self.members(), peer_addr@);
        }
        match self.find_member(peer_addr) {
            Some(i) => {
                self.peers.remove(i);
                assert(self.members() =~= remove_key(old(self).members(), peer_addr@));
            },
            None => {},
        }
    }

    /// A peer left: its record goes, and so does every name bound to its
    /// address.
    pub fn leave(&mut self, peer_addr: &PeerAddr)
        requires
            old(self).wf(),
        ensures
            final(self).wf(),
            final(self).same_settings(old(self)),
            final(self).members() == remove_key(old(self).members(), peer_addr@),
            final(self).names() == old(self).names().filter(bound_elsewhere(peer_addr@)),
    {
        self.remove_member(peer_addr);
        let ghost pred = bound_elsewhere(peer_addr@);
        let ghost names0 = self.names();
        let mut kept: Vec<(Vec<u8>, PeerAddr)> = Vec::new();
        let mut old_names: Vec<(Vec<u8>, PeerAddr)> = Vec::new();
        std::mem::swap(&mut old_names, &mut self.peers_name);
        assert(old_names@.map_values(|e: (Vec<u8>, PeerAddr)| name_view(e)) == names0);
        let mut i: usize = 0;
        while i < old_names.len()
            invariant
                i <= old_names@.len(),
                pred == bound_elsewhere(peer_addr@),
                old_names@.map_values(|e: (Vec<u8>, PeerAddr)| name_view(e)) == names0,
                kept@.map_values(|e: (Vec<u8>, PeerAddr)| name_view(e)) == names0.take(i as int).filter(pred),
            decreases old_names@.len() - i,
        {
            let e = &old_names[i];
            let ghost before = names0.take(i as int);
            let ghost kept0 = kept@.map_values(|e: (Vec<u8>, PeerAddr)| name_view(e));
            proof {
                assert(names0.take(i as int + 1).drop_last() =~= before);
                assert(names0.take(i as int + 1).last() == names0[i as int]);
                assert(names0[i as int] == name_view(old_names@[i as int]));
                reveal(Seq::filter);
                assert(names0.take(i as int + 1).filter(pred) == if pred(names0[i as int]) {
                    before.filter(pred).push(names0[i as int])
                } else {
                    before.filter(pred)
                });
            }
            if !e.1.same(peer_addr) {
                kept.push((copy_bytes(&e.0), e.1));
                assert(pred(names0[i as int]));
                assert(kept@.map_values(|e: (Vec<u8>, PeerAddr)| name_view(e)) =~= kept0.push(names0[i as int]));
            } else {
                assert(!pred(names0[i as int]));
            }
            assert(kept@.map_values(|e: (Vec<u8>, PeerAddr)| name_view(e)) == names0.take(i as int + 1).filter(pred));
            i = i + 1;
        }
        assert(names0.take(i as int) =~= names0);
        self.peers_name = kept;
        proof {
            lemma_filter_unique(names0, pred);
        }
    }
}

/// Admitting a peer twice gives the same table as admitting it once, and the
/// table then holds one record for it.
pub proof fn lemma_join_idempotent(m: Seq<(Seq<u8>, MemberInfo)>, e: (Seq<u8>, MemberInfo))
    requires
        unique_keys(m),
    ensures
        has_key(upsert(m, e), e.0),
        upsert(upsert(m, e), e) == upsert(m, e),
        unique_keys(upsert(m, e)),
{
    lemma_upsert(m, e);
    let u = upsert(m, e);
    lemma_index_of(u, e.0);
    lemma_index_of(m, e.0);
    assert(u.update(index_of(u, e.0), e) =~= u);
}

/// A negative join result removes the peer's record, and a second negative
/// result changes nothing more.
pub proof fn lemma_rollback_idempotent(m: Seq<(Seq<u8>, MemberInfo)>, peer: Seq<u8>)
    requires
        unique_keys(m),
    ensures
        !has_key(remove_key(m, peer), peer),
        remove_key(remove_key(m, peer), peer) == remove_key(m, peer),
{
    lemma_remove_key(m, peer);
    lemma_remove_key(remove_key(m, peer), peer);
}

/// Leaving twice from one address is leaving once: the member table and
/// the name index are as after the first leave.
pub proof fn lemma_leave_idempotent(
    m: Seq<(Seq<u8>, MemberInfo)>,
    names: Seq<(Seq<u8>, Seq<u8>)>,
    peer: Seq<u8>,
)
    requires
        unique_keys(m),
    ensures
        remove_key(remove_key(m, peer), peer) == remove_key(m, peer),
        names.filter(bound_elsewhere(peer)).filter(bound_elsewhere(peer)) == names.filter(
            bound_elsewhere(peer),
        ),
{
    lemma_rollback_idempotent(m, peer);
    lemma_filter_twice(names, bound_elsewhere(peer));
}

/// Leaving from an address that holds no record and no name changes
/// nothing.
pub proof fn lemma_leave_absent(
    m: Seq<(Seq<u8>, MemberInfo)>,
    names: Seq<(Seq<u8>, Seq<u8>)>,
    peer: Seq<u8>,
)
    requires
        unique_keys(m),
        !has_key(m, peer),
        forall|i: int| 0 <= i < names.len() ==> names[i].1 != peer,
    ensures
        remove_key(m, peer) == m,
        names.filter(bound_elsewhere(peer)) == names,
{
    lemma_remove_key(m, peer);
    assert forall|i: int| 0 <= i < names.len() implies (bound_elsewhere(peer))(names[i]) by {}
    lemma_filter_all(names, bound_elsewhere(peer));
}

/// After a leave from `peer`, a key bound to `peer` has no name any more,
/// and a key bound to another address keeps it.
pub proof fn lemma_leave_names(names: Seq<(Seq<u8>, Seq<u8>)>, peer: Seq<u8>, pk: Seq<u8>)
    requires
        unique_keys(names),
    ensures
        lookup(names, pk) == Some(peer) ==> lookup(names.filter(bound_elsewhere(peer)), pk) is None,
        lookup(names, pk) is Some && lookup(names, pk)->Some_0 != peer ==> lookup(
            names.filter(bound_elsewhere(peer)),
            pk,
        ) == lookup(names, pk),
{
    let f = names.filter(bound_elsewhere(peer));
    lemma_filter_unique(names, bound_elsewhere(peer));
    lemma_index_of(names, pk);
    lemma_index_of(f, pk);
    if has_key(f, pk) {
        let j = index_of(f, pk);
        let n = choose|n: int| 0 <= n < names.len() && names[n] == f[j];
        assert(names[n].0 == pk);
        assert((bound_elsewhere(peer))(f[j]));
    }
    if lookup(names, pk) is Some && lookup(names, pk)->Some_0 != peer {
        let n = index_of(names, pk);
        assert(names.filter(bound_elsewhere(peer)).contains(names[n]));
        let j = choose|j: int| 0 <= j < f.len() && f[j] == names[n];
        assert(f[j].0 == pk);
    }
}

} // verus!
