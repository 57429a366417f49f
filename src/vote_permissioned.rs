//! Quorum admission: a candidate becomes a member once enough current
//! members have each signed its public key.
use vstd::prelude::*;
use crate::codec::{bytes_eq, copy_bytes, key_message, length_prefixed};
use crate::identity::{Identity, IdentityError};
use crate::table::{
    has_key, index_of, insert_absent, keys_of, lemma_filter_no_duplicates, lemma_index_of,
    lemma_insert_absent, lemma_remove_key, lemma_filter_all, lemma_filter_both,
    lemma_remove_key_filter, key_other_than, lemma_upsert, lookup, remove_key, seed, unique_keys,
    upsert,
};
use crate::types::{GroupId, PeerAddr};

verus! {

broadcast use vstd::seq_lib::group_filter_ensures;

/// A member's signature over a candidate's public key: `pk` is the candidate,
/// `ca` the signing member and `pkc` the signature.
#[derive(Debug)]
pub struct Certificate {
    pub pk: Vec<u8>,
    pub ca: Vec<u8>,
    pub pkc: Vec<u8>,
}

impl Certificate {
    pub fn new(pk: Vec<u8>, ca: Vec<u8>, pkc: Vec<u8>) -> (r: Self)
        ensures
            r.pk@ == pk@,
            r.ca@ == ca@,
            r.pkc@ == pkc@,
    {
        Certificate { pk, ca, pkc }
    }

    /// Issues a certificate for `pk`, signed by the member `ca` with its
    /// secret key `ca_sk`.
    pub fn certificate<I: Identity>(ca_sk: &Vec<u8>, ca: Vec<u8>, pk: Vec<u8>) -> (r: Result<Self, IdentityError>)
        ensures
            r matches Ok(c) ==> c.pk@ == pk@ && c.ca@ == ca@,
            r matches Ok(c) ==> exists|m: Vec<u8>| m@ == length_prefixed(pk@) && I::signs(*ca_sk, m, c.pkc),
    {
        let msg = key_message(&pk);
        match I::sign(ca_sk, &msg) {
            Ok(pkc) => Ok(Certificate { pk, ca, pkc }),
            Err(e) => Err(e),
        }
    }

    /// A certificate of `pk` signed by its own key.
    pub fn certificate_self<I: Identity>(psk: &Vec<u8>, pk: Vec<u8>) -> (r: Result<Self, IdentityError>)
        ensures
            r matches Ok(c) ==> c.pk@ == pk@ && c.ca@ == pk@,
            r matches Ok(c) ==> exists|m: Vec<u8>| m@ == length_prefixed(pk@) && I::signs(*psk, m, c.pkc),
    {
        let ca = copy_bytes(&pk);
        Self::certificate::<I>(psk, ca, pk)
    }

    /// Whether the signature verifies, under the signer's key, over the
    /// candidate's key.
    pub fn verify<I: Identity>(&self) -> (r: bool)
        ensures
            exists|m: Vec<u8>| m@ == length_prefixed(self.pk@) && r == I::verifies(self.ca, m, self.pkc),
    {
        let msg = key_message(&self.pk);
        I::verify(&self.ca, &msg, &self.pkc)
    }
}

/// The votes collected for one candidate: voter key with its signature.
pub type Votes = Seq<(Seq<u8>, Seq<u8>)>;

pub open spec fn votes_view(v: Vec<(Vec<u8>, Vec<u8>)>) -> Votes {
    v@.map_values(|e: (Vec<u8>, Vec<u8>)| (e.0@, e.1@))
}

/// `votes` of `n` members meet the acceptance rate `num / den`.
pub open spec fn meets_quorum(votes: nat, n: nat, num: nat, den: nat) -> bool {
    votes * den >= num * n
}

/// The votes recorded for `pk`.
pub open spec fn votes_for(waiting: Seq<(Seq<u8>, Votes)>, pk: Seq<u8>) -> Votes {
    match lookup(waiting, pk) {
        Some(v) => v,
        None => Seq::empty(),
    }
}

/// Holds of a key that is not bound to `addr` in `peers`.
pub open spec fn not_at(peers: Seq<(Seq<u8>, Seq<u8>)>, addr: Seq<u8>) -> spec_fn(Seq<u8>) -> bool {
    |k: Seq<u8>| lookup(peers, k) != Some(addr)
}

/// Holds of a pending entry whose candidate is not a member in `m`.
pub open spec fn not_member(m: Seq<(Seq<u8>, Seq<u8>)>) -> spec_fn((Seq<u8>, Votes)) -> bool {
    |w: (Seq<u8>, Votes)| !has_key(m, w.0)
}

/// A group that admits a candidate once a share of its members has vouched
/// for it.
#[derive(Debug)]
pub struct VotePermissionedGroup {
    id: GroupId,
    rate_num: u64,
    rate_den: u64,
    peers: Vec<(Vec<u8>, PeerAddr)>,
    living_peers: Vec<Vec<u8>>,
    waiting_peers: Vec<(Vec<u8>, Vec<(Vec<u8>, Vec<u8>)>)>,
}

impl VotePermissionedGroup {
    /// The members: public key with peer address.
    pub closed spec fn members(&self) -> Seq<(Seq<u8>, Seq<u8>)> {
        self.peers@.map_values(|e: (Vec<u8>, PeerAddr)| (e.0@, e.1@))
    }

    /// The members known to be reachable.
    pub closed spec fn living(&self) -> Seq<Seq<u8>> {
        self.living_peers@.map_values(|k: Vec<u8>| k@)
    }

    /// The candidates waiting for votes, with the votes they have.
    pub closed spec fn waiting(&self) -> Seq<(Seq<u8>, Votes)> {
        self.waiting_peers@.map_values(|w: (Vec<u8>, Vec<(Vec<u8>, Vec<u8>)>)| (w.0@, votes_view(w.1)))
    }

    pub closed spec fn group_id(&self) -> GroupId {
        self.id
    }

    /// Numerator of the acceptance rate.
    pub closed spec fn rate_num(&self) -> nat {
        self.rate_num as nat
    }

    /// Denominator of the acceptance rate.
    pub closed spec fn rate_den(&self) -> nat {
        self.rate_den as nat
    }

    /// Whether `votes` votes admit a candidate in the group as it is now.
    pub open spec fn quorum(&self, votes: nat) -> bool {
        meets_quorum(votes, self.members().len(), self.rate_num(), self.rate_den())
    }

    /// The group's invariant: keys are unique in every table, every live
    /// peer is a member, every pending candidate is no member, holds votes
    /// of distinct voters and is still short of the quorum.
    pub open spec fn wf(&self) -> bool {
        &&& 0 < self.rate_num() <= self.rate_den()
        &&& unique_keys(self.members())
        &&& self.living().no_duplicates()
        &&& forall|i: int| 0 <= i < self.living().len() ==> has_key(self.members(), #[trigger] self.living()[i])
        &&& unique_keys(self.waiting())
        &&& forall|i: int| 0 <= i < self.waiting().len() ==> {
            &&& !has_key(self.members(), #[trigger] self.waiting()[i].0)
            &&& unique_keys(self.waiting()[i].1)
            &&& !self.quorum(self.waiting()[i].1.len())
        }
    }

    /// Everything but the tables is as in `other`.
    pub open spec fn same_settings(&self, other: &Self) -> bool {
        &&& self.group_id() == other.group_id()
        &&& self.rate_num() == other.rate_num()
        &&& self.rate_den() == other.rate_den()
    }

    /// A group of one member, this peer, that admits a candidate once the
    /// votes reach `rate_num / rate_den` of the members.
    pub fn new(id: GroupId, pk: Vec<u8>, peer_addr: PeerAddr, rate_num: u64, rate_den: u64) -> (r: Self)
        requires
            0 < rate_num <= rate_den,
        ensures
            r.wf(),
            r.group_id() == id,
            r.rate_num() == rate_num,
            r.rate_den() == rate_den,
            r.members() == seq![(pk@, peer_addr@)],
            r.living().len() == 0,
            r.waiting().len() == 0,
    {
        let mut peers: Vec<(Vec<u8>, PeerAddr)> = Vec::new();
        peers.push((pk, peer_addr));
        let r = VotePermissionedGroup {
            id,
            rate_num,
            rate_den,
            peers,
            living_peers: Vec::new(),
            waiting_peers: Vec::new(),
        };
        assert(r.members() =~= seq![(pk@, peer_addr@)]);
        assert(r.living() =~= Seq::empty());
        assert(r.waiting() =~= Seq::empty());
        r
    }

    /// The group's identifier.
    pub fn id(&self) -> (r: GroupId)
        ensures
            r == self.group_id(),
    {
        self.id
    }

    fn find_peer(&self, pk: &Vec<u8>) -> (r: Option<usize>)
        requires
            unique_keys(self.members()),
        ensures
            r matches Some(i) ==> i as int == index_of(self.members(), pk@),
            r matches Some(i) ==> i < self.peers@.len() && self.members()[i as int].0 == pk@,
            r is None ==> index_of(self.members(), pk@) == -1,
            r is None <==> !has_key(self.members(), pk@),
    {
        proof {
            lemma_index_of(self.members(), pk@);
        }
        let mut i: usize = 0;
        while i < self.peers.len()
            invariant
                unique_keys(self.members()),
                i <= self.peers@.len(),
                forall|j: int| 0 <= j < i ==> self.members()[j].0 != pk@,
            decreases self.peers@.len() - i,
        {
            if bytes_eq(&self.peers[i].0, pk) {
                assert(self.members()[i as int].0 == pk@);
                proof {
                    lemma_index_of(self.members(), pk@);
                }
                return Some(i);
            }
            i = i + 1;
        }
        proof {
            lemma_index_of(self.members(), pk@);
        }
        None
    }

    fn find_waiting(&self, pk: &Vec<u8>) -> (r: Option<usize>)
        requires
            self.wf(),
        ensures
            r matches Some(i) ==> i as int == index_of(self.waiting(), pk@),
            r matches Some(i) ==> i < self.waiting_peers@.len() && self.waiting()[i as int].0 == pk@,
            r is None ==> index_of(self.waiting(), pk@) == -1,
            r is None <==> !has_key(self.waiting(), pk@),
    {
        proof {
            lemma_index_of(self.waiting(), pk@);
        }
        let mut i: usize = 0;
        while i < self.waiting_peers.len()
            invariant
                self.wf(),
                i <= self.waiting_peers@.len(),
                forall|j: int| 0 <= j < i ==> self.waiting()[j].0 != pk@,
            decreases self.waiting_peers@.len() - i,
        {
            if bytes_eq(&self.waiting_peers[i].0, pk) {
                assert(self.waiting()[i as int].0 == pk@);
                proof {
                    lemma_index_of(self.waiting(), pk@);
                }
                return Some(i);
            }
            i = i + 1;
        }
        proof {
            lemma_index_of(self.waiting(), pk@);
        }
        None
    }

    fn living_contains(&self, pk: &Vec<u8>) -> (r: bool)
        ensures
            r == self.living().contains(pk@),
    {
        let mut i: usize = 0;
        while i < self.living_peers.len()
            invariant
                i <= self.living_peers@.len(),
                forall|j: int| 0 <= j < i ==> self.living()[j] != pk@,
            decreases self.living_peers@.len() - i,
        {
            if bytes_eq(&self.living_peers[i], pk) {
                assert(self.living()[i as int] == pk@);
                return true;
            }
            i = i + 1;
        }
        false
    }

    /// Whether `pk` is a member.
    pub fn has_peer(&self, pk: &Vec<u8>) -> (r: bool)
        requires
            self.wf(),
        ensures
            r == has_key(self.members(), pk@),
    {
        self.find_peer(pk).is_some()
    }

    /// Whether `pk` is a member.
    pub fn verify(&self, pk: &Vec<u8>) -> (r: bool)
        requires
            self.wf(),
        ensures
            r == has_key(self.members(), pk@),
    {
        self.has_peer(pk)
    }

    /// The peer address of the member `pk`.
    pub fn get_peer_addr(&self, pk: &Vec<u8>) -> (r: Option<PeerAddr>)
        requires
            self.wf(),
        ensures
            r is None <==> lookup(self.members(), pk@) is None,
            r matches Some(a) ==> lookup(self.members(), pk@) == Some(a@),
    {
        match self.find_peer(pk) {
            Some(i) => Some(self.peers[i].1),
            None => None,
        }
    }

    /// The first member, in table order, bound to `peer_addr`.
    pub fn get_by_peer_addr(&self, peer_addr: &PeerAddr) -> (r: Option<Vec<u8>>)
        ensures
            r is None <==> forall|i: int| 0 <= i < self.members().len() ==> self.members()[i].1 != peer_addr@,
            r matches Some(k) ==> exists|i: int| {
                &&& 0 <= i < self.members().len()
                &&& self.members()[i] == (k@, peer_addr@)
                &&& forall|j: int| 0 <= j < i ==> self.members()[j].1 != peer_addr@
            },
    {
        let mut i: usize = 0;
        while i < self.peers.len()
            invariant
                i <= self.peers@.len(),
                forall|j: int| 0 <= j < i ==> self.members()[j].1 != peer_addr@,
            decreases self.peers@.len() - i,
        {
            if self.peers[i].1.same(peer_addr) {
                let k = copy_bytes(&self.peers[i].0);
                assert(self.members()[i as int] == (k@, peer_addr@));
                return Some(k);
            }
            i = i + 1;
        }
        None
    }

    /// The public keys of all members, in table order.
    pub fn all_peer_keys(&self) -> (r: Vec<Vec<u8>>)
        ensures
            r@.map_values(|k: Vec<u8>| k@) == keys_of(self.members()),
    {
        let mut r: Vec<Vec<u8>> = Vec::new();
        let mut i: usize = 0;
        while i < self.peers.len()
            invariant
                i <= self.peers@.len(),
                r@.map_values(|k: Vec<u8>| k@) =~= keys_of(self.members()).take(i as int),
            decreases self.peers@.len() - i,
        {
            let ghost r0 = r@;
            let k = copy_bytes(&self.peers[i].0);
            r.push(k);
            proof {
                assert(keys_of(self.members())[i as int] == k@);
                assert(keys_of(self.members()).take(i as int + 1) =~= keys_of(self.members()).take(
                    i as int,
                ).push(k@));
                assert(r@.map_values(|k: Vec<u8>| k@) =~= r0.map_values(|k: Vec<u8>| k@).push(k@));
            }
            i = i + 1;
        }
        assert(keys_of(self.members()).take(i as int) =~= keys_of(self.members()));
        r
    }

    /// The members known to be reachable, in the order they were seen.
    pub fn living_peers(&self) -> (r: Vec<Vec<u8>>)
        ensures
            r@.map_values(|k: Vec<u8>| k@) == self.living(),
    {
        let mut r: Vec<Vec<u8>> = Vec::new();
        let mut i: usize = 0;
        while i < self.living_peers.len()
            invariant
                i <= self.living_peers@.len(),
                r@.map_values(|k: Vec<u8>| k@) =~= self.living().take(i as int),
            decreases self.living_peers@.len() - i,
        {
            let ghost r0 = r@;
            let k = copy_bytes(&self.living_peers[i]);
            r.push(k);
            proof {
                assert(self.living().take(i as int + 1) =~= self.living().take(i as int).push(k@));
                assert(r@.map_values(|k: Vec<u8>| k@) =~= r0.map_values(|k: Vec<u8>| k@).push(k@));
            }
            i = i + 1;
        }
        assert(self.living().take(i as int) =~= self.living());
        r
    }

    /// The members and their addresses, for a snapshot of the group.
    pub fn peers_snapshot(&self) -> (r: Vec<(Vec<u8>, PeerAddr)>)
        ensures
            r@.map_values(|e: (Vec<u8>, PeerAddr)| (e.0@, e.1@)) == self.members(),
    {
        let mut r: Vec<(Vec<u8>, PeerAddr)> = Vec::new();
        let mut i: usize = 0;
        while i < self.peers.len()
            invariant
                i <= self.peers@.len(),
                r@.map_values(|e: (Vec<u8>, PeerAddr)| (e.0@, e.1@)) =~= self.members().take(i as int),
            decreases self.peers@.len() - i,
        {
            let ghost r0 = r@;
            let e = (copy_bytes(&self.peers[i].0), self.peers[i].1);
            r.push(e);
            proof {
                assert(self.members().take(i as int + 1) =~= self.members().take(i as int).push((e.0@, e.1@)));
                assert(r@.map_values(|e: (Vec<u8>, PeerAddr)| (e.0@, e.1@)) =~= r0.map_values(
                    |e: (Vec<u8>, PeerAddr)| (e.0@, e.1@),
                ).push((e.0@, e.1@)));
            }
            i = i + 1;
        }
        assert(self.members().take(i as int) =~= self.members());
        r
    }

    /// The number of distinct members that have vouched for the candidate
    /// `pk` so far.
    pub fn vote_count(&self, pk: &Vec<u8>) -> (r: usize)
        requires
            self.wf(),
        ensures
            r == votes_for(self.waiting(), pk@).len(),
    {
        proof {
            lemma_index_of(self.waiting(), pk@);
        }
        match self.find_waiting(pk) {
            Some(i) => self.waiting_peers[i].1.len(),
            None => 0,
        }
    }

    /// Marks the member `pk` as reachable.
    pub fn heart_beat(&mut self, pk: &Vec<u8>)
        requires
            old(self).wf(),
        ensures
            final(self).wf(),
            final(self).same_settings(old(self)),
            final(self).members() == old(self).members(),
            final(self).waiting() == old(self).waiting(),
            final(self).living() == if has_key(old(self).members(), pk@) && !old(self).living().contains(pk@) {
                old(self).living().push(pk@)
            } else {
                old(self).living()
            },
    {
        if self.has_peer(pk) && !self.living_contains(pk) {
            let k = copy_bytes(pk);
            self.living_peers.push(k);
            proof {
                assert(self.living() =~= old(self).living().push(pk@));
                assert forall|i: int| 0 <= i < self.living().len() implies has_key(
                    self.members(),
                    #[trigger] self.living()[i],
                ) by {
                    if i < old(self).living().len() {
                        assert(self.living()[i] == old(self).living()[i]);
                    }
                }
                assert forall|a: int, b: int| 0 <= a < b < self.living().len() implies self.living()[a]
                    != self.living()[b] by {
                    if b == self.living().len() - 1 {
                        assert(old(self).living()[a] == self.living()[a]);
                    } else {
                        assert(old(self).living()[a] == self.living()[a]);
                        assert(old(self).living()[b] == self.living()[b]);
                    }
                }
            }
        }
    }

    /// A peer left: every member bound to `peer_addr` stops being live.
    /// Membership itself is kept.
    pub fn leave(&mut self, peer_addr: &PeerAddr) -> (r: bool)
        requires
            old(self).wf(),
        ensures
            r,
            final(self).wf(),
            final(self).same_settings(old(self)),
            final(self).members() == old(self).members(),
            final(self).waiting() == old(self).waiting(),
            final(self).living() == old(self).living().filter(not_at(old(self).members(), peer_addr@)),
    {
        let ghost pred = not_at(self.members(), peer_addr@);
        let ghost living0 = self.living();
        let mut old_living: Vec<Vec<u8>> = Vec::new();
        std::mem::swap(&mut old_living, &mut self.living_peers);
        let mut kept: Vec<Vec<u8>> = Vec::new();
        let mut i: usize = 0;
        while i < old_living.len()
            invariant
                i <= old_living@.len(),
                pred == not_at(self.members(), peer_addr@),
                unique_keys(self.members()),
                old_living@.map_values(|k: Vec<u8>| k@) == living0,
                kept@.map_values(|k: Vec<u8>| k@) == living0.take(i as int).filter(pred),
            decreases old_living@.len() - i,
        {
            let ghost before = living0.take(i as int);
            let ghost kept0 = kept@.map_values(|k: Vec<u8>| k@);
            let k = &old_living[i];
            proof {
                assert(living0.take(i as int + 1).drop_last() =~= before);
                assert(living0.take(i as int + 1).last() == living0[i as int]);
                assert(living0[i as int] == k@);
                reveal(Seq::filter);
                assert(living0.take(i as int + 1).filter(pred) == if pred(living0[i as int]) {
                    before.filter(pred).push(living0[i as int])
                } else {
                    before.filter(pred)
                });
                lemma_index_of(self.members(), k@);
            }
            let bound_here = match self.find_peer(k) {
                Some(j) => self.peers[j].1.same(peer_addr),
                None => false,
            };
            if !bound_here {
                kept.push(copy_bytes(k));
                assert(kept@.map_values(|k: Vec<u8>| k@) =~= kept0.push(living0[i as int]));
            }
            i = i + 1;
        }
        assert(living0.take(i as int) =~= living0);
        self.living_peers = kept;
        proof {
            lemma_filter_no_duplicates(living0, pred);
            assert forall|j: int| 0 <= j < self.living().len() implies has_key(
                self.members(),
                #[trigger] self.living()[j],
            ) by {
                assert(living0.contains(living0.filter(pred)[j]));
                let m = choose|m: int| 0 <= m < living0.len() && living0[m] == living0.filter(pred)[j];
                assert(has_key(old(self).members(), old(self).living()[m]));
            }
        }
        true
    }

    /// The peer addresses of the live members, in the order they were seen.
    pub fn help_sync_peers(&self, _pk: &Vec<u8>) -> (r: Vec<PeerAddr>)
        requires
            self.wf(),
        ensures
            r@.len() == self.living().len(),
            forall|i: int| 0 <= i < r@.len() ==> lookup(self.members(), self.living()[i]) == Some(
                #[trigger] r@[i]@,
            ),
    {
        let mut r: Vec<PeerAddr> = Vec::new();
        let mut i: usize = 0;
        while i < self.living_peers.len()
            invariant
                self.wf(),
                i <= self.living_peers@.len(),
                r@.len() == i,
                forall|j: int| 0 <= j < i ==> lookup(self.members(), self.living()[j]) == Some(
                    #[trigger] r@[j]@,
                ),
            decreases self.living_peers@.len() - i,
        {
            let k = &self.living_peers[i];
            assert(self.living()[i as int] == k@);
            assert(has_key(self.members(), self.living()[i as int]));
            match self.find_peer(k) {
                Some(j) => {
                    r.push(self.peers[j].1);
                },
                None => {},
            }
            i = i + 1;
        }
        r
    }

    /// Makes `pk` a member at `peer_addr` and drops its pending votes.
    fn enroll(&mut self, pk: Vec<u8>, peer_addr: PeerAddr)
        requires
            old(self).wf(),
            !has_key(old(self).members(), pk@),
        ensures
            final(self).wf(),
            final(self).same_settings(old(self)),
            final(self).members() == old(self).members().push((pk@, peer_addr@)),
            final(self).waiting() == remove_key(old(self).waiting(), pk@),
            final(self).living() == old(self).living(),
    {
        let ghost w0 = self.waiting();
        let ghost m0 = self.members();
        proof {
            lemma_index_of(w0, pk@);
            lemma_remove_key(w0, pk@);
        }
        match self.find_waiting(&pk) {
            Some(i) => {
                self.waiting_peers.remove(i);
                assert(self.waiting() =~= remove_key(w0, pk@));
            },
            None => {},
        }
        let ghost kp = pk@;
        self.peers.push((pk, peer_addr));
        assert(self.members() =~= m0.push((kp, peer_addr@)));
        proof {
            let m = self.members();
            assert(unique_keys(m)) by {
                assert forall|a: int, b: int| 0 <= a < b < m.len() implies m[a].0 != m[b].0 by {
                    if b == m.len() - 1 {
                        assert(m0[a] == m[a]);
                    } else {
                        assert(m0[a] == m[a] && m0[b] == m[b]);
                    }
                }
            }
            assert forall|k: Seq<u8>| has_key(m0, k) implies has_key(m, k) by {
                let j = choose|j: int| 0 <= j < m0.len() && m0[j].0 == k;
                assert(m[j].0 == k);
            }
            assert forall|j: int| 0 <= j < self.living().len() implies has_key(
                m,
                #[trigger] self.living()[j],
            ) by {
                assert(has_key(m0, self.living()[j]));
            }
            let w = self.waiting();
            let i = index_of(w0, kp);
            assert forall|j: int| 0 <= j < w.len() implies {
                &&& !has_key(m, #[trigger] w[j].0)
                &&& unique_keys(w[j].1)
                &&& !self.quorum(w[j].1.len())
            } by {
                let j2 = if i >= 0 && j >= i { j + 1 } else { j };
                assert(w[j] == w0[j2]);
                assert(w0[j2].0 != kp);
                if has_key(m, w[j].0) {
                    let t = choose|t: int| 0 <= t < m.len() && m[t].0 == w[j].0;
                    if t < m0.len() {
                        assert(m0[t].0 == w[j].0);
                    }
                }
                lemma_quorum_grows(w[j].1.len(), m0.len(), m.len(), self.rate_num(), self.rate_den());
            }
        }
    }

    /// Adds `pk` as a member at `peer_addr` unless it is one already.
    pub fn add_sync_peers(&mut self, pk: &Vec<u8>, peer_addr: PeerAddr)
        requires
            old(self).wf(),
        ensures
            final(self).wf(),
            final(self).same_settings(old(self)),
            final(self).members() == insert_absent(old(self).members(), (pk@, peer_addr@)),
            final(self).waiting() == if has_key(old(self).members(), pk@) {
                old(self).waiting()
            } else {
                remove_key(old(self).waiting(), pk@)
            },
            final(self).living() == old(self).living(),
    {
        if !self.has_peer(pk) {
            self.enroll(copy_bytes(pk), peer_addr);
        }
    }

    /// Seeds the group with a trusted list of members, bypassing votes; a
    /// key already present keeps its address.
    pub fn bootstrap(&mut self, peers: Vec<(Vec<u8>, PeerAddr)>)
        requires
            old(self).wf(),
        ensures
            final(self).wf(),
            final(self).same_settings(old(self)),
            final(self).members() == seed(
                old(self).members(),
                peers@.map_values(|e: (Vec<u8>, PeerAddr)| (e.0@, e.1@)),
            ),
            final(self).living() == old(self).living(),
            final(self).waiting() == old(self).waiting().filter(not_member(final(self).members())),
    {
        proof {
            assert forall|j: int| 0 <= j < self.waiting().len() implies (not_member(self.members()))(
                self.waiting()[j],
            ) by {}
            lemma_filter_all(self.waiting(), not_member(self.members()));
        }
        let ghost list = peers@.map_values(|e: (Vec<u8>, PeerAddr)| (e.0@, e.1@));
        let mut i: usize = 0;
        while i < peers.len()
            invariant
                i <= peers@.len(),
                list == peers@.map_values(|e: (Vec<u8>, PeerAddr)| (e.0@, e.1@)),
                self.wf(),
                self.same_settings(old(self)),
                self.living() == old(self).living(),
                self.members() == seed(old(self).members(), list.take(i as int)),
                self.waiting() == old(self).waiting().filter(not_member(self.members())),
            decreases peers@.len() - i,
        {
            assert(list.take(i as int + 1).drop_last() =~= list.take(i as int));
            assert(list.take(i as int + 1).last() == list[i as int]);
            let ghost m0 = self.members();
            let ghost w0 = self.waiting();
            let ghost pk = peers@[i as int].0@;
            self.add_sync_peers(&peers[i].0, peers[i].1);
            proof {
                let m1 = self.members();
                if !has_key(m0, pk) {
                    lemma_insert_absent(m0, (pk, peers@[i as int].1@));
                    lemma_remove_key_filter(w0, pk);
                    let both = |a: (Seq<u8>, Votes)| (not_member(m0))(a) && (key_other_than(pk))(a);
                    lemma_filter_both(old(self).waiting(), not_member(m0), key_other_than(pk));
                    assert(both =~= not_member(m1));
                }
            }
            i = i + 1;
        }
        assert(list.take(i as int) =~= list);
    }

    /// Whether `voter` has a vote in `votes`.
    fn has_voter(votes: &Vec<(Vec<u8>, Vec<u8>)>, voter: &Vec<u8>) -> (r: bool)
        ensures
            r == has_key(votes_view(*votes), voter@),
    {
        let mut i: usize = 0;
        while i < votes.len()
            invariant
                i <= votes@.len(),
                forall|j: int| 0 <= j < i ==> votes_view(*votes)[j].0 != voter@,
            decreases votes@.len() - i,
        {
            if bytes_eq(&votes[i].0, voter) {
                assert(votes_view(*votes)[i as int].0 == voter@);
                return true;
            }
            i = i + 1;
        }
        false
    }

    /// A copy of a list of votes.
    fn copy_votes(votes: &Vec<(Vec<u8>, Vec<u8>)>) -> (r: Vec<(Vec<u8>, Vec<u8>)>)
        ensures
            votes_view(r) == votes_view(*votes),
    {
        let mut r: Vec<(Vec<u8>, Vec<u8>)> = Vec::new();
        let mut i: usize = 0;
        while i < votes.len()
            invariant
                i <= votes@.len(),
                votes_view(r) =~= votes_view(*votes).take(i as int),
            decreases votes@.len() - i,
        {
            let ghost r0 = votes_view(r);
            let e = (copy_bytes(&votes[i].0), copy_bytes(&votes[i].1));
            r.push(e);
            assert(votes_view(r) =~= r0.push((e.0@, e.1@)));
            assert(votes_view(*votes).take(i as int + 1) =~= votes_view(*votes).take(i as int).push(
                (e.0@, e.1@),
            ));
            i = i + 1;
        }
        assert(votes_view(*votes).take(i as int) =~= votes_view(*votes));
        r
    }

    /// Counts the vote that `cert` carries, given whether its signature
    /// verifies. A member is accepted as it is. A verified vote of a member
    /// is recorded once per voter; the candidate becomes a member at
    /// `peer_addr` as soon as its votes meet the quorum of the current
    /// members. Returns whether the certificate was accepted.
    pub fn cast_vote(&mut self, cert: Certificate, peer_addr: PeerAddr, valid: bool) -> (r: bool)
        requires
            old(self).wf(),
        ensures
            final(self).wf(),
            final(self).same_settings(old(self)),
            final(self).living() == old(self).living(),
            r == (has_key(old(self).members(), cert.pk@) || (valid && has_key(old(self).members(), cert.ca@))),
            !has_key(old(self).members(), cert.pk@) && valid && has_key(old(self).members(), cert.ca@) ==> {
                let votes = insert_absent(votes_for(old(self).waiting(), cert.pk@), (cert.ca@, cert.pkc@));
                if old(self).quorum(votes.len()) {
                    &&& final(self).members() == old(self).members().push((cert.pk@, peer_addr@))
                    &&& final(self).waiting() == remove_key(old(self).waiting(), cert.pk@)
                } else {
                    &&& final(self).members() == old(self).members()
                    &&& final(self).waiting() == upsert(old(self).waiting(), (cert.pk@, votes))
                }
            },
            !r || has_key(old(self).members(), cert.pk@) ==> {
                &&& final(self).members() == old(self).members()
                &&& final(self).waiting() == old(self).waiting()
            },
    {
        if self.has_peer(&cert.pk) {
            return true;
        }
        if !(valid && self.has_peer(&cert.ca)) {
            return false;
        }
        let ghost w0 = self.waiting();
        let ghost pk = cert.pk@;
        let ghost vote = (cert.ca@, cert.pkc@);
        proof {
            lemma_index_of(w0, pk);
        }
        let slot = self.find_waiting(&cert.pk);
        let mut votes = match slot {
            Some(i) => Self::copy_votes(&self.waiting_peers[i].1),
            None => Vec::new(),
        };
        assert(votes_view(votes) == votes_for(w0, pk)) by {
            if slot is None {
                assert(votes_view(votes) =~= Seq::empty());
            }
        }
        proof {
            if slot is Some {
                assert(unique_keys(w0[index_of(w0, pk)].1));
            }
            lemma_insert_absent(votes_view(votes), vote);
        }
        let ghost v0 = votes_view(votes);
        if !Self::has_voter(&votes, &cert.ca) {
            votes.push((cert.ca, cert.pkc));
            assert(votes_view(votes) =~= v0.push(vote));
        }
        assert(votes_view(votes) == insert_absent(votes_for(w0, pk), vote));
        let n = self.peers.len();
        let lhs = wide_mul(votes.len() as u128, self.rate_den as u128);
        let rhs = wide_mul(self.rate_num as u128, n as u128);
        if lhs >= rhs {
            assert(self.quorum(votes_view(votes).len())) by (nonlinear_arith)
                requires
                    (votes@.len() as u128) * (self.rate_den as u128) >= (self.rate_num as u128) * (n as u128),
                    votes_view(votes).len() == votes@.len(),
                    n == self.members().len(),
            ;
            self.enroll(cert.pk, peer_addr);
        } else {
            let ghost e = (pk, votes_view(votes));
            proof {
                lemma_upsert(w0, e);
            }
            match slot {
                Some(i) => {
                    self.waiting_peers.set(i, (cert.pk, votes));
                    assert(self.waiting() =~= upsert(w0, e));
                },
                None => {
                    self.waiting_peers.push((cert.pk, votes));
                    assert(self.waiting() =~= upsert(w0, e));
                },
            }
            proof {
                let w = self.waiting();
                assert forall|j: int| 0 <= j < w.len() implies {
                    &&& !has_key(self.members(), #[trigger] w[j].0)
                    &&& unique_keys(w[j].1)
                    &&& !self.quorum(w[j].1.len())
                } by {
                    if j < w0.len() && w0[j].0 != pk {
                        assert(w[j] == w0[j]);
                    }
                }
            }
        }
        true
    }

    /// Evaluates the certificate a candidate presents: its signature is
    /// checked by the identity scheme, and the vote counted as `cast_vote`
    /// says.
    pub fn join<I: Identity>(&mut self, data: Certificate, peer_addr: PeerAddr) -> (r: bool)
        requires
            old(self).wf(),
        ensures
            final(self).wf(),
            final(self).same_settings(old(self)),
            final(self).living() == old(self).living(),
            has_key(old(self).members(), data.pk@) ==> r && final(self).members() == old(self).members()
                && final(self).waiting() == old(self).waiting(),
            !has_key(old(self).members(), data.ca@) ==> (r == has_key(old(self).members(), data.pk@))
                && final(self).members() == old(self).members() && final(self).waiting()
                == old(self).waiting(),
            !has_key(old(self).members(), data.pk@) && r ==> {
                let votes = insert_absent(votes_for(old(self).waiting(), data.pk@), (data.ca@, data.pkc@));
                if old(self).quorum(votes.len()) {
                    &&& final(self).members() == old(self).members().push((data.pk@, peer_addr@))
                    &&& final(self).waiting() == remove_key(old(self).waiting(), data.pk@)
                } else {
                    &&& final(self).members() == old(self).members()
                    &&& final(self).waiting() == upsert(old(self).waiting(), (data.pk@, votes))
                }
            },
            !r ==> final(self).members() == old(self).members() && final(self).waiting() == old(self).waiting(),
            !has_key(old(self).members(), data.pk@) ==> exists|m: Vec<u8>| {
                &&& m@ == length_prefixed(data.pk@)
                &&& r == (has_key(old(self).members(), data.ca@) && I::verifies(data.ca, m, data.pkc))
            },
    {
        let valid = data.verify::<I>();
        self.cast_vote(data, peer_addr, valid)
    }
}

/// The product of two values that each fit in 64 bits.
fn wide_mul(a: u128, b: u128) -> (r: u128)
    requires
        a <= u64::MAX,
        b <= u64::MAX,
    ensures
        r == a * b,
{
    assert(a * b <= u64::MAX * u64::MAX) by (nonlinear_arith)
        requires
            a <= u64::MAX,
            b <= u64::MAX,
    ;
    a * b
}

/// One more member never lets fewer votes meet the quorum.
pub proof fn lemma_quorum_grows(votes: nat, n: nat, m: nat, num: nat, den: nat)
    requires
        n <= m,
        !meets_quorum(votes, n, num, den),
    ensures
        !meets_quorum(votes, m, num, den),
{
    assert(num * n <= num * m) by (nonlinear_arith)
        requires
            n <= m,
    ;
}

/// The number of votes that `num / den` of `n` members amounts to, rounded
/// up.
pub open spec fn votes_needed(n: nat, num: nat, den: nat) -> nat
    recommends
        den > 0,
{
    ((num * n + den - 1) / den as int) as nat
}

/// A candidate meets the quorum exactly when its distinct votes reach the
/// acceptance rate times the member count, rounded up.
pub proof fn lemma_quorum_threshold(votes: nat, n: nat, num: nat, den: nat)
    requires
        0 < num <= den,
    ensures
        meets_quorum(votes, n, num, den) <==> votes >= votes_needed(n, num, den),
{
    let x = num * n;
    let q = (x + den - 1) / den as int;
    let r = (x + den - 1) % den as int;
    assert(x + den - 1 == q * den + r && 0 <= r < den) by (nonlinear_arith)
        requires
            den > 0,
            q == (x + den - 1) / den as int,
            r == (x + den - 1) % den as int,
    ;
    assert(q >= 0) by (nonlinear_arith)
        requires
            den > 0,
            x >= 0,
            q == (x + den - 1) / den as int,
    ;
    assert(votes_needed(n, num, den) == q);
    if votes >= q {
        assert(votes * den >= q * den) by (nonlinear_arith)
            requires
                votes >= q,
                den > 0,
        ;
    } else {
        assert(votes * den <= q * den - den) by (nonlinear_arith)
            requires
                votes <= q - 1,
                den > 0,
        ;
    }
}

/// In a well-formed group, the votes that admit a candidate are those that
/// reach the acceptance rate times the current member count, rounded up.
pub proof fn lemma_admission_threshold(g: VotePermissionedGroup, votes: nat)
    requires
        g.wf(),
    ensures
        g.quorum(votes) <==> votes >= votes_needed(g.members().len(), g.rate_num(), g.rate_den()),
{
    lemma_quorum_threshold(votes, g.members().len(), g.rate_num(), g.rate_den());
}

/// A second vote of the same voter is not counted: recording it changes
/// nothing, and one voter adds at most one vote.
pub proof fn lemma_duplicate_vote(votes: Votes, voter: Seq<u8>, first: Seq<u8>, second: Seq<u8>)
    requires
        unique_keys(votes),
    ensures
        insert_absent(insert_absent(votes, (voter, first)), (voter, second)) == insert_absent(
            votes,
            (voter, first),
        ),
        insert_absent(votes, (voter, first)).len() <= votes.len() + 1,
        has_key(votes, voter) ==> insert_absent(votes, (voter, first)) == votes,
{
    lemma_insert_absent(votes, (voter, first));
}

/// After a leave from `addr`, no key bound to `addr` is live any more; the
/// member table itself is what it was.
pub proof fn lemma_leave_keeps_identity(
    members: Seq<(Seq<u8>, Seq<u8>)>,
    living: Seq<Seq<u8>>,
    addr: Seq<u8>,
    k: Seq<u8>,
)
    requires
        lookup(members, k) == Some(addr),
    ensures
        !living.filter(not_at(members, addr)).contains(k),
{
    let f = living.filter(not_at(members, addr));
    if f.contains(k) {
        let i = choose|i: int| 0 <= i < f.len() && f[i] == k;
        assert(not_at(members, addr)(f[i]));
    }
}

} // verus!
