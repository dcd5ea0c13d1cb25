//! Votes on endorser blocks, signed with BLS keys.

use vstd::prelude::*;
use crate::bls::{
    bls_secret_key_valid, bls_public_key, bls_signature, bls_verifies, secret_key_accepted,
    public_key_of, sign, verify,
};

verus! {

/// The registry number of a persistent voter.
#[derive(PartialEq, Eq, Debug, Clone, Copy)]
pub struct PersistentId(pub u16);

/// An election id, as the 8 bytes that are signed.
#[derive(PartialEq, Eq, Debug, Clone, Copy)]
pub struct Eid(pub [u8; 8]);

/// The hash of an endorser block.
#[derive(PartialEq, Eq, Debug, Clone, Copy)]
pub struct EbHash(pub [u8; 32]);

/// The key hash of a stake pool.
#[derive(PartialEq, Eq, Debug, Clone, Copy)]
pub struct PoolKeyhash(pub [u8; 28]);

/// A compressed BLS signature.
#[derive(PartialEq, Eq, Debug, Clone, Copy)]
pub struct Sig(pub [u8; 48]);

/// A compressed BLS public key.
#[derive(PartialEq, Eq, Debug, Clone, Copy)]
pub struct PubKey(pub [u8; 96]);

/// A BLS secret key that `blst` accepts.
#[derive(Clone, Copy)]
pub struct SecKey {
    bytes: [u8; 32],
}

impl View for SecKey {
    type V = Seq<u8>;

    closed spec fn view(&self) -> Seq<u8> {
        self.bytes@
    }
}

impl SecKey {
    #[verifier::type_invariant]
    spec fn accepted(self) -> bool {
        bls_secret_key_valid(self.bytes@)
    }

    /// The key with these big-endian bytes, if they form a valid secret key.
    pub fn from_bytes(bytes: [u8; 32]) -> (key: Option<SecKey>)
        ensures
            key is Some <==> bls_secret_key_valid(bytes@),
            key matches Some(k) ==> k@ == bytes@,
    {
        if secret_key_accepted(&bytes) {
            Some(SecKey { bytes })
        } else {
            None
        }
    }

    /// The key's bytes.
    pub fn to_bytes(&self) -> (bytes: [u8; 32])
        ensures
            bytes@ == self@,
            bls_secret_key_valid(bytes@),
    {
        proof {
            use_type_invariant(self);
        }
        self.bytes
    }

    /// The public key that verifies this key's signatures.
    pub fn public_key(&self) -> (pk: PubKey)
        ensures
            pk.0@ == bls_public_key(self@),
    {
        proof {
            use_type_invariant(self);
        }
        PubKey(public_key_of(&self.bytes))
    }
}

/// A vote for an endorser block in an election.
#[derive(PartialEq, Eq, Debug, Clone)]
pub enum Vote {
    /// A vote by a registered persistent voter.
    Persistent { persistent: PersistentId, eid: Eid, eb: EbHash, sigma_m: Sig },
    /// A vote by a pool that proves its eligibility with a signature on the
    /// election id.
    Nonpersistent { pool: PoolKeyhash, eid: Eid, eb: EbHash, sigma_eid: Sig, sigma_m: Sig },
}

/// The domain separation tag of vote signatures.
pub const VOTE_DST: [u8; 43] = [
    66, 76, 83, 95, 83, 73, 71, 95, 66, 76, 83, 49, 50, 51, 56, 49, 71, 49, 95, 88, 77, 68, 58, 83,
    72, 65, 45, 50, 53, 54, 95, 83, 83, 87, 85, 95, 82, 79, 95, 78, 85, 76, 95,
];

/// The message signed for a vote: the election id, then the block hash.
pub open spec fn vote_message(eid: Eid, eb: EbHash) -> Seq<u8> {
    eid.0@ + eb.0@
}

/// The signature a key makes on a message under the vote tag.
pub open spec fn vote_signature(sk: Seq<u8>, msg: Seq<u8>) -> Seq<u8> {
    bls_signature(sk, msg, VOTE_DST@)
}

/// A vote's signatures verify under `pk`.
pub open spec fn vote_verifies(pk: Seq<u8>, vote: Vote) -> bool {
    match vote {
        Vote::Persistent { eid, eb, sigma_m, .. } => bls_verifies(
            pk,
            vote_message(eid, eb),
            VOTE_DST@,
            sigma_m.0@,
        ),
        Vote::Nonpersistent { eid, eb, sigma_eid, sigma_m, .. } => bls_verifies(
            pk,
            eid.0@,
            VOTE_DST@,
            sigma_eid.0@,
        ) && bls_verifies(pk, vote_message(eid, eb), VOTE_DST@, sigma_m.0@),
    }
}

/// A vote message is 40 bytes: the 8 bytes of the election id, then the 32
/// bytes of the block hash.
pub proof fn lemma_vote_message_layout(eid: Eid, eb: EbHash)
    ensures
        vote_message(eid, eb).len() == 40,
        vote_message(eid, eb).subrange(0, 8) == eid.0@,
        vote_message(eid, eb).subrange(8, 40) == eb.0@,
{
    assert(vote_message(eid, eb).subrange(0, 8) =~= eid.0@);
    assert(vote_message(eid, eb).subrange(8, 40) =~= eb.0@);
}

/// What verification checks: a persistent vote's `sigma_m` over election id
/// followed by block hash; a pool's vote both `sigma_eid` over the election id
/// and `sigma_m` over election id followed by block hash.
pub proof fn lemma_vote_verifies_checks(pk: Seq<u8>, vote: Vote)
    ensures
        vote_verifies(pk, vote) <==> match vote {
            Vote::Persistent { eid, eb, sigma_m, .. } => bls_verifies(
                pk,
                eid.0@ + eb.0@,
                VOTE_DST@,
                sigma_m.0@,
            ),
            Vote::Nonpersistent { eid, eb, sigma_eid, sigma_m, .. } => bls_verifies(
                pk,
                eid.0@,
                VOTE_DST@,
                sigma_eid.0@,
            ) && bls_verifies(pk, eid.0@ + eb.0@, VOTE_DST@, sigma_m.0@),
        },
{
}

/// The bytes of `vote_message(eid, eb)`.
fn message_bytes(eid: &Eid, eb: &EbHash) -> (msg: Vec<u8>)
    ensures
        msg@ == vote_message(*eid, *eb),
        msg@ == eid.0@ + eb.0@,
{
    let mut msg: Vec<u8> = Vec::new();
    let mut i: usize = 0;
    while i < 8
        invariant
            0 <= i <= 8,
            msg@ == eid.0@.take(i as int),
        decreases 8 - i,
    {
        msg.push(eid.0[i]);
        i += 1;
        assert(msg@ =~= eid.0@.take(i as int));
    }
    let mut j: usize = 0;
    while j < 32
        invariant
            0 <= j <= 32,
            msg@ == eid.0@ + eb.0@.take(j as int),
        decreases 32 - j,
    {
        msg.push(eb.0[j]);
        j += 1;
        assert(msg@ =~= eid.0@ + eb.0@.take(j as int));
    }
    assert(eid.0@.take(8) =~= eid.0@);
    assert(eb.0@.take(32) =~= eb.0@);
    msg
}

/// A persistent voter's vote on block `m` in election `eid`.
pub fn gen_vote_persistent(persistent: &PersistentId, eid: &Eid, m: &EbHash, sk: &SecKey) -> (vote: Vote)
    ensures
        vote matches Vote::Persistent { persistent: p, eid: e, eb: b, sigma_m } && p == *persistent
            && e == *eid && b == *m && sigma_m.0@ == vote_signature(sk@, vote_message(*eid, *m))
            && sigma_m.0@ == bls_signature(sk@, eid.0@ + m.0@, VOTE_DST@),
        vote_verifies(bls_public_key(sk@), vote),
{
    proof {
        use_type_invariant(sk);
    }
    let msg = message_bytes(eid, m);
    let dst = VOTE_DST;
    let sigma_m = sign(&sk.bytes, msg.as_slice(), &dst);
    Vote::Persistent { persistent: *persistent, eid: *eid, eb: *m, sigma_m: Sig(sigma_m) }
}

/// A pool's vote on block `m` in election `eid`, with its signature on the
/// election id.
pub fn gen_vote_nonpersistent(pool: &PoolKeyhash, eid: &Eid, m: &EbHash, sk: &SecKey) -> (vote: Vote)
    ensures
        vote matches Vote::Nonpersistent { pool: p, eid: e, eb: b, sigma_eid, sigma_m } && p == *pool
            && e == *eid && b == *m && sigma_eid.0@ == vote_signature(sk@, eid.0@) && sigma_m.0@
            == vote_signature(sk@, vote_message(*eid, *m)) && sigma_eid.0@ == bls_signature(
            sk@,
            eid.0@,
            VOTE_DST@,
        ) && sigma_m.0@ == bls_signature(sk@, eid.0@ + m.0@, VOTE_DST@),
        vote_verifies(bls_public_key(sk@), vote),
{
    proof {
        use_type_invariant(sk);
    }
    let msg = message_bytes(eid, m);
    let dst = VOTE_DST;
    let sigma_eid = sign(&sk.bytes, &eid.0, &dst);
    let sigma_m = sign(&sk.bytes, msg.as_slice(), &dst);
    Vote::Nonpersistent { pool: *pool, eid: *eid, eb: *m, sigma_eid: Sig(sigma_eid), sigma_m: Sig(sigma_m) }
}

/// Whether the vote's signatures verify under the public key `mvk`.
pub fn verify_vote(mvk: &PubKey, vote: &Vote) -> (ok: bool)
    ensures
        ok == vote_verifies(mvk.0@, *vote),
        ok == match *vote {
            Vote::Persistent { eid, eb, sigma_m, .. } => bls_verifies(
                mvk.0@,
                eid.0@ + eb.0@,
                VOTE_DST@,
                sigma_m.0@,
            ),
            Vote::Nonpersistent { eid, eb, sigma_eid, sigma_m, .. } => bls_verifies(
                mvk.0@,
                eid.0@,
                VOTE_DST@,
                sigma_eid.0@,
            ) && bls_verifies(mvk.0@, eid.0@ + eb.0@, VOTE_DST@, sigma_m.0@),
        },
{
    let dst = VOTE_DST;
    match vote {
        Vote::Persistent { eid, eb, sigma_m, .. } => {
            let msg = message_bytes(eid, eb);
            verify(&mvk.0, msg.as_slice(), &dst, &sigma_m.0)
        },
        Vote::Nonpersistent { eid, eb, sigma_eid, sigma_m, .. } => {
            let msg = message_bytes(eid, eb);
            verify(&mvk.0, &eid.0, &dst, &sigma_eid.0) && verify(&mvk.0, msg.as_slice(), &dst, &sigma_m.0)
        },
    }
}

} // verus!
