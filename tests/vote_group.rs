use tdn_permission::{Certificate, GroupId, Identity, IdentityError, PeerAddr, VotePermissionedGroup};

/// A toy scheme in which the secret key equals the public key.
struct EchoScheme;

fn mix(key: &Vec<u8>, msg: &Vec<u8>) -> Vec<u8> {
    msg.iter().enumerate().map(|(i, b)| b ^ key[i % key.len()] ^ 0xa5).collect()
}

impl Identity for EchoScheme {
    fn signs(sk: Vec<u8>, msg: Vec<u8>, sig: Vec<u8>) -> bool {
        !sk.is_empty() && mix(&sk, &msg) == sig
    }

    fn verifies(pk: Vec<u8>, msg: Vec<u8>, sig: Vec<u8>) -> bool {
        Self::verify(&pk, &msg, &sig)
    }

    fn sign(sk: &Vec<u8>, msg: &Vec<u8>) -> Result<Vec<u8>, IdentityError> {
        if sk.is_empty() {
            return Err(IdentityError { reason: vec![] });
        }
        Ok(mix(sk, msg))
    }

    fn verify(pk: &Vec<u8>, msg: &Vec<u8>, sig: &Vec<u8>) -> bool {
        !pk.is_empty() && &mix(pk, msg) == sig
    }
}

fn addr(n: u8) -> PeerAddr {
    PeerAddr { id: [n; 32] }
}

fn key(n: u8) -> Vec<u8> {
    vec![n, n, n]
}

fn group(num: u64, den: u64, members: u8) -> VotePermissionedGroup {
    let mut g = VotePermissionedGroup::new(GroupId { id: [1; 32] }, key(1), addr(1), num, den);
    let others: Vec<(Vec<u8>, PeerAddr)> = (2..=members).map(|n| (key(n), addr(n))).collect();
    g.bootstrap(others);
    g
}

fn vote(voter: u8, candidate: u8) -> Certificate {
    Certificate::certificate::<EchoScheme>(&key(voter), key(voter), key(candidate)).unwrap()
}

#[test]
fn half_rate_two_members_admits_on_first_vote() {
    let mut g = group(1, 2, 2);
    assert_eq!(g.all_peer_keys().len(), 2);
    assert!(g.join::<EchoScheme>(vote(1, 3), addr(3)));
    assert!(g.has_peer(&key(3)));
    assert_eq!(g.get_peer_addr(&key(3)).unwrap().id, [3; 32]);
    assert_eq!(g.vote_count(&key(3)), 0);
}

#[test]
fn sixty_percent_of_three_needs_two_votes() {
    let mut g = group(3, 5, 3);
    assert!(g.join::<EchoScheme>(vote(1, 9), addr(9)));
    assert!(!g.has_peer(&key(9)));
    assert!(g.get_peer_addr(&key(9)).is_none());
    assert_eq!(g.vote_count(&key(9)), 1);
    assert!(g.join::<EchoScheme>(vote(2, 9), addr(9)));
    assert!(g.has_peer(&key(9)));
    assert_eq!(g.vote_count(&key(9)), 0);
    assert_eq!(g.all_peer_keys().len(), 4);
}

#[test]
fn same_voter_counts_once() {
    let mut g = group(3, 5, 3);
    assert!(g.join::<EchoScheme>(vote(1, 9), addr(9)));
    assert!(g.join::<EchoScheme>(vote(1, 9), addr(9)));
    assert_eq!(g.vote_count(&key(9)), 1);
    assert!(!g.has_peer(&key(9)));
    assert!(g.join::<EchoScheme>(vote(3, 9), addr(9)));
    assert!(g.has_peer(&key(9)));
}

#[test]
fn full_rate_needs_every_member() {
    let mut g = group(1, 1, 3);
    assert!(g.join::<EchoScheme>(vote(1, 9), addr(9)));
    assert!(g.join::<EchoScheme>(vote(2, 9), addr(9)));
    assert!(!g.has_peer(&key(9)));
    assert_eq!(g.vote_count(&key(9)), 2);
    assert!(g.join::<EchoScheme>(vote(3, 9), addr(9)));
    assert!(g.has_peer(&key(9)));
}

#[test]
fn bad_signature_or_outside_issuer_is_refused() {
    let mut g = group(3, 5, 3);
    let forged = Certificate::new(key(9), key(1), vec![0, 0, 0, 0]);
    assert!(!g.join::<EchoScheme>(forged, addr(9)));
    assert_eq!(g.vote_count(&key(9)), 0);
    let stranger = vote(7, 9);
    assert!(!g.join::<EchoScheme>(stranger, addr(9)));
    assert_eq!(g.vote_count(&key(9)), 0);
    assert!(!g.has_peer(&key(9)));
}

#[test]
fn member_join_is_accepted_unchanged() {
    let mut g = group(3, 5, 3);
    let forged = Certificate::new(key(2), key(7), vec![]);
    assert!(g.join::<EchoScheme>(forged, addr(8)));
    assert_eq!(g.get_peer_addr(&key(2)).unwrap().id, [2; 32]);
    assert_eq!(g.all_peer_keys().len(), 3);
}

#[test]
fn cast_vote_follows_the_verification_result() {
    let mut g = group(1, 2, 2);
    assert!(!g.cast_vote(Certificate::new(key(5), key(1), vec![1]), addr(5), false));
    assert!(!g.has_peer(&key(5)));
    assert!(g.cast_vote(Certificate::new(key(5), key(1), vec![1]), addr(5), true));
    assert!(g.has_peer(&key(5)));
}

#[test]
fn self_certificate_names_own_key() {
    let c = Certificate::certificate_self::<EchoScheme>(&key(4), key(4)).unwrap();
    assert_eq!(c.pk, key(4));
    assert_eq!(c.ca, key(4));
    assert!(c.verify::<EchoScheme>());
    assert!(Certificate::certificate_self::<EchoScheme>(&vec![], key(4)).is_err());
}

#[test]
fn leave_purges_liveness_not_membership() {
    let mut g = group(1, 2, 3);
    g.heart_beat(&key(2));
    g.heart_beat(&key(3));
    g.heart_beat(&key(2));
    g.heart_beat(&key(8));
    assert_eq!(g.living_peers(), vec![key(2), key(3)]);
    let synced: Vec<[u8; 32]> = g.help_sync_peers(&key(1)).iter().map(|a| a.id).collect();
    assert_eq!(synced, vec![[2; 32], [3; 32]]);
    assert!(g.leave(&addr(2)));
    assert_eq!(g.living_peers(), vec![key(3)]);
    assert!(g.has_peer(&key(2)));
    assert!(g.verify(&key(2)));
    assert_eq!(g.get_by_peer_addr(&addr(2)), Some(key(2)));
    assert_eq!(g.get_by_peer_addr(&addr(6)), None);
}

#[test]
fn bootstrap_keeps_first_address_of_a_key() {
    let mut g = group(1, 2, 1);
    g.bootstrap(vec![(key(2), addr(2)), (key(2), addr(5)), (key(1), addr(6))]);
    assert_eq!(g.get_peer_addr(&key(2)).unwrap().id, [2; 32]);
    assert_eq!(g.get_peer_addr(&key(1)).unwrap().id, [1; 32]);
    let snap = g.peers_snapshot();
    assert_eq!(snap.len(), 2);
    g.add_sync_peers(&key(3), addr(3));
    assert_eq!(g.peers_snapshot().len(), 3);
    assert_eq!(g.id().id, [1; 32]);
}

#[test]
fn bootstrap_clears_pending_votes_of_new_member() {
    let mut g = group(1, 1, 2);
    assert!(g.join::<EchoScheme>(vote(1, 9), addr(9)));
    assert_eq!(g.vote_count(&key(9)), 1);
    g.add_sync_peers(&key(9), addr(9));
    assert!(g.has_peer(&key(9)));
    assert_eq!(g.vote_count(&key(9)), 0);
}
