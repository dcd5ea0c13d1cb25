use topology_checker::vote::{
    gen_vote_nonpersistent, gen_vote_persistent, verify_vote, EbHash, Eid, PersistentId,
    PoolKeyhash, SecKey, Vote,
};

fn key(byte: u8) -> SecKey {
    SecKey::from_bytes([byte; 32]).expect("valid secret key")
}

#[test]
fn zero_and_oversized_keys_are_rejected() {
    assert!(SecKey::from_bytes([0u8; 32]).is_none());
    assert!(SecKey::from_bytes([0xffu8; 32]).is_none());
    assert!(SecKey::from_bytes([1u8; 32]).is_some());
    assert_eq!(key(1).to_bytes(), [1u8; 32]);
}

#[test]
fn persistent_vote_verifies_under_its_key() {
    let sk = key(1);
    let pk = sk.public_key();
    assert_ne!(pk.0[..32], [1u8; 32][..]);
    let vote = gen_vote_persistent(&PersistentId(7), &Eid([3; 8]), &EbHash([9; 32]), &sk);
    match &vote {
        Vote::Persistent { persistent, eid, eb, sigma_m } => {
            assert_eq!(*persistent, PersistentId(7));
            assert_eq!(*eid, Eid([3; 8]));
            assert_eq!(*eb, EbHash([9; 32]));
            assert_ne!(sigma_m.0, [0u8; 48]);
        }
        _ => panic!("expected a persistent vote"),
    }
    assert!(verify_vote(&pk, &vote));
    assert!(!verify_vote(&key(2).public_key(), &vote));
}

#[test]
fn tampered_persistent_vote_fails() {
    let sk = key(1);
    let pk = sk.public_key();
    let vote = gen_vote_persistent(&PersistentId(7), &Eid([3; 8]), &EbHash([9; 32]), &sk);
    let tampered = match vote {
        Vote::Persistent { persistent, eid, sigma_m, .. } => {
            Vote::Persistent { persistent, eid, eb: EbHash([8; 32]), sigma_m }
        }
        other => other,
    };
    assert!(!verify_vote(&pk, &tampered));
}

#[test]
fn nonpersistent_vote_verifies_under_its_key() {
    let sk = key(5);
    let pk = sk.public_key();
    let vote = gen_vote_nonpersistent(&PoolKeyhash([4; 28]), &Eid([1; 8]), &EbHash([2; 32]), &sk);
    assert!(verify_vote(&pk, &vote));
    assert!(!verify_vote(&key(6).public_key(), &vote));
    let swapped = match vote.clone() {
        Vote::Nonpersistent { pool, eid, eb, sigma_eid, sigma_m } => {
            Vote::Nonpersistent { pool, eid, eb, sigma_eid: sigma_m, sigma_m: sigma_eid }
        }
        other => other,
    };
    assert!(!verify_vote(&pk, &swapped));
}

#[test]
fn signatures_are_deterministic() {
    let sk = key(3);
    let a = gen_vote_persistent(&PersistentId(1), &Eid([0; 8]), &EbHash([0; 32]), &sk);
    let b = gen_vote_persistent(&PersistentId(1), &Eid([0; 8]), &EbHash([0; 32]), &sk);
    assert_eq!(a, b);
}

#[test]
fn undecodable_signature_does_not_verify() {
    let sk = key(1);
    let vote = Vote::Persistent {
        persistent: PersistentId(0),
        eid: Eid([0; 8]),
        eb: EbHash([0; 32]),
        sigma_m: topology_checker::vote::Sig([0u8; 48]),
    };
    assert!(!verify_vote(&sk.public_key(), &vote));
}
