use key_sentinel::identity::{GroupClaim, Identity};
use key_sentinel::key_sentinel::KeySentinel;
use key_sentinel::key_store::KeyStore;
use sodiumoxide::crypto::sign;

struct Peer {
    name: Vec<u8>,
    public: sign::PublicKey,
    secret: sign::SecretKey,
}

fn peer(tag: u8) -> Peer {
    let (public, secret) = sign::gen_keypair();
    Peer { name: vec![tag; 8], public, secret }
}

fn identities(peers: &[Peer]) -> Vec<Identity> {
    peers
        .iter()
        .map(|p| Identity::new(p.name.clone(), p.public.as_ref().to_vec()))
        .collect()
}

fn claim_by(p: &Peer, message: &[u8], ids: Vec<Identity>) -> GroupClaim {
    let sig = sign::sign_detached(message, &p.secret);
    GroupClaim::new(message.to_vec(), sig.as_ref().to_vec(), ids)
}

#[test]
fn ten_senders_resolve_on_the_tenth_claim() {
    let peers: Vec<Peer> = (0..10u8).map(peer).collect();
    let message = b"group at event 42".to_vec();
    let mut sentinel = KeySentinel::new(10, 10);
    for (index, p) in peers.iter().enumerate() {
        let claim = claim_by(p, &message, identities(&peers));
        let result = sentinel.add_identities(7, p.name.clone(), claim);
        if index < 9 {
            assert!(result.is_none());
        } else {
            let (request, ids) = result.expect("the tenth claim resolves the request");
            assert_eq!(request, 7);
            assert_eq!(ids.len(), 100);
            for p in peers.iter() {
                assert_eq!(ids.iter().filter(|i| i.name == p.name).count(), 10);
            }
        }
    }
    let again = claim_by(&peers[0], &message, identities(&peers));
    assert!(sentinel.add_identities(7, peers[0].name.clone(), again).is_none());
}

fn random_name() -> Vec<u8> {
    (0..64).map(|_| rand::random::<u8>()).collect()
}

#[test]
fn make_key_sentinel() {
    let mut sentinel = KeySentinel::new(10, 10);
    let random_message = random_name();
    let mut tuples = Vec::new();
    for _ in 0..11 {
        let (public, secret) = sign::gen_keypair();
        let signature = sign::sign_detached(&random_message, &secret);
        tuples.push((random_name(), public, signature));
    }
    let request = rand::random::<u64>();
    // These claims list no identities, so nobody vouches for any key.
    for index in 0..11 {
        let claim = GroupClaim::new(random_message.clone(), tuples[index].2.as_ref().to_vec(), vec![]);
        assert!(sentinel.add_identities(request, tuples[index].0.clone(), claim).is_none());
    }
}

#[test]
fn too_few_senders_never_resolve() {
    let peers: Vec<Peer> = (0..2u8).map(peer).collect();
    let message = b"m".to_vec();
    let mut sentinel = KeySentinel::new(3, 1);
    for p in peers.iter() {
        let claim = claim_by(p, &message, identities(&peers));
        assert!(sentinel.add_identities(1, p.name.clone(), claim).is_none());
    }
}

#[test]
fn resubmitting_a_claim_counts_once() {
    let peers: Vec<Peer> = (0..2u8).map(peer).collect();
    let message = b"m".to_vec();
    let mut sentinel = KeySentinel::new(2, 1);
    let a = claim_by(&peers[0], &message, identities(&peers));
    assert!(sentinel.add_identities(1, peers[0].name.clone(), a.duplicate()).is_none());
    assert!(sentinel.add_identities(1, peers[0].name.clone(), a).is_none());
    let b = claim_by(&peers[1], &message, identities(&peers));
    let (_, ids) = sentinel.add_identities(1, peers[1].name.clone(), b).expect("two distinct claims");
    assert_eq!(ids.len(), 4);
}

#[test]
fn claim_under_an_unvouched_key_is_not_counted() {
    let peers: Vec<Peer> = (0..2u8).map(peer).collect();
    let stranger = peer(9);
    let message = b"m".to_vec();
    let mut sentinel = KeySentinel::new(2, 1);
    let a = claim_by(&peers[0], &message, identities(&peers));
    assert!(sentinel.add_identities(1, peers[0].name.clone(), a).is_none());
    // Signed by a key that nobody vouched for as the second peer's.
    let forged = claim_by(&stranger, &message, identities(&peers[..1]));
    assert!(sentinel.add_identities(1, peers[1].name.clone(), forged).is_none());
    let b = claim_by(&peers[1], &message, identities(&peers));
    assert!(sentinel.add_identities(1, peers[1].name.clone(), b).is_some());
}

#[test]
fn keys_need_the_threshold_of_distinct_vouchers() {
    let peers: Vec<Peer> = (0..3u8).map(peer).collect();
    let message = b"m".to_vec();
    let mut sentinel = KeySentinel::new(1, 2);
    let a = claim_by(&peers[0], &message, identities(&peers));
    assert!(sentinel.add_identities(5, peers[0].name.clone(), a.duplicate()).is_none());
    // The same voucher again does not make a second voucher.
    assert!(sentinel.add_identities(5, peers[0].name.clone(), a).is_none());
    let b = claim_by(&peers[1], &message, identities(&peers));
    let (request, ids) = sentinel.add_identities(5, peers[1].name.clone(), b).expect("two vouchers");
    assert_eq!(request, 5);
    // Both senders' claims now verify.
    assert_eq!(ids.len(), 6);
}

fn progress_after_traffic(capacity: usize) -> bool {
    let peers: Vec<Peer> = (0..2u8).map(peer).collect();
    let message = b"m".to_vec();
    let mut sentinel = KeySentinel::with_capacity(2, 1, capacity);
    for request in 1..4u64 {
        let a = claim_by(&peers[0], &message, identities(&peers));
        assert!(sentinel.add_identities(request, peers[0].name.clone(), a).is_none());
    }
    let b = claim_by(&peers[1], &message, identities(&peers));
    sentinel.add_identities(1, peers[1].name.clone(), b).is_some()
}

#[test]
fn least_recently_touched_request_is_evicted() {
    assert!(!progress_after_traffic(2));
    assert!(progress_after_traffic(3));
}

#[test]
fn touching_a_request_keeps_it_from_eviction() {
    let peers: Vec<Peer> = (0..3u8).map(peer).collect();
    let message = b"m".to_vec();
    let mut sentinel = KeySentinel::with_capacity(3, 1, 2);
    let a = claim_by(&peers[0], &message, identities(&peers));
    assert!(sentinel.add_identities(1, peers[0].name.clone(), a).is_none());
    let a2 = claim_by(&peers[0], &message, identities(&peers));
    assert!(sentinel.add_identities(2, peers[0].name.clone(), a2).is_none());
    let b = claim_by(&peers[1], &message, identities(&peers));
    assert!(sentinel.add_identities(1, peers[1].name.clone(), b).is_none());
    // Request 2 is now the least recently touched and makes room.
    let a3 = claim_by(&peers[0], &message, identities(&peers));
    assert!(sentinel.add_identities(3, peers[0].name.clone(), a3).is_none());
    let c = claim_by(&peers[2], &message, identities(&peers));
    assert!(sentinel.add_identities(1, peers[2].name.clone(), c).is_some());
}

#[test]
fn signature_check_uses_the_message_and_key() {
    let p = peer(1);
    let q = peer(2);
    let claim = claim_by(&p, b"hello", vec![]);
    assert!(claim.verify_public_key(&p.public.as_ref().to_vec()));
    assert!(!claim.verify_public_key(&q.public.as_ref().to_vec()));
    assert!(!claim.verify_public_key(&vec![1, 2, 3]));
    let tampered = GroupClaim::new(b"hellp".to_vec(), claim.signature.clone(), vec![]);
    assert!(!tampered.verify_public_key(&p.public.as_ref().to_vec()));
}

#[test]
fn key_store_exposes_at_threshold_and_latest_vouch_wins() {
    let mut store = KeyStore::new(2);
    store.add_key(b"x".to_vec(), b"a".to_vec(), vec![1]);
    assert!(store.get_accumulated_keys(&b"x".to_vec()).is_empty());
    store.add_key(b"x".to_vec(), b"b".to_vec(), vec![1]);
    let keys = store.get_accumulated_keys(&b"x".to_vec());
    assert_eq!(keys, vec![vec![1]]);
    store.add_key(b"x".to_vec(), b"b".to_vec(), vec![2]);
    assert!(store.get_accumulated_keys(&b"x".to_vec()).is_empty());
    assert!(store.get_accumulated_keys(&b"y".to_vec()).is_empty());
}

#[test]
fn claims_compare_by_message_and_signature() {
    let a = GroupClaim::new(vec![1], vec![2], vec![]);
    let b = GroupClaim::new(vec![1], vec![2], vec![Identity::new(vec![3], vec![4])]);
    let c = GroupClaim::new(vec![1], vec![5], vec![]);
    assert!(a.same_content(&b));
    assert!(!a.same_content(&c));
    assert_eq!(b.group_identities().len(), 1);
    assert_eq!(b.group_identities()[0].name(), vec![3]);
    assert_eq!(b.group_identities()[0].public_key(), vec![4]);
}

#[test]
fn new_request_resolving_at_once_still_makes_room() {
    let peers: Vec<Peer> = (0..2u8).map(peer).collect();
    let message = b"m".to_vec();
    let mut sentinel = KeySentinel::with_capacity(1, 1, 1);
    // The second peer vouches for the first peer's key under request 1.
    let b = claim_by(&peers[1], &message, identities(&peers[..1]));
    assert!(sentinel.add_identities(1, peers[1].name.clone(), b).is_none());
    // Request 2 resolves on its first claim, but only after taking the one slot.
    let a = claim_by(&peers[0], &message, identities(&peers[..1]));
    assert!(sentinel.add_identities(2, peers[0].name.clone(), a).is_some());
    // Request 1 was dropped: nobody vouches for the first peer's key any more.
    let a_again = claim_by(&peers[0], &message, vec![]);
    assert!(sentinel.add_identities(1, peers[0].name.clone(), a_again).is_none());
}
