use vstd::prelude::*;
use crate::base_types::{bytes_eq, AuthorityName};
use crate::codec::{enc_order_data, order_data_bytes};
use crate::crypto::{ed25519_verifies, Signature};
use crate::messages::{CertifiedOrder, Order, SignedOrder, SuiError};

verus! {

/// The authorities, their voting power, and the power a certificate needs.
#[derive(Clone, Debug)]
pub struct Committee {
    pub voting_rights: Vec<(AuthorityName, u64)>,
    pub quorum_threshold: u64,
}

impl Committee {
    pub open spec fn is_member(&self, name: Seq<u8>) -> bool {
        exists|i: int| 0 <= i < self.voting_rights@.len() && #[trigger] self.voting_rights@[i].0.bytes@ == name
    }

    /// No authority is listed twice.
    pub open spec fn wf(&self) -> bool {
        forall|i: int, j: int|
            0 <= i < self.voting_rights@.len() && 0 <= j < self.voting_rights@.len() && i != j
                ==> #[trigger] self.voting_rights@[i].0.bytes@ != #[trigger] self.voting_rights@[j].0.bytes@
    }

    /// The voting power of `name`; none for a stranger.
    pub open spec fn power_of(&self, name: Seq<u8>) -> nat {
        if self.is_member(name) {
            self.voting_rights@[choose|i: int|
                0 <= i < self.voting_rights@.len() && #[trigger] self.voting_rights@[i].0.bytes@
                    == name].1 as nat
        } else {
            0
        }
    }

    /// The position of `name` in the committee, if it is a member.
    pub fn index_of(&self, name: &AuthorityName) -> (r: Option<usize>)
        ensures
            r is None <==> !self.is_member(name.bytes@),
            r matches Some(i) ==> i < self.voting_rights@.len() && self.voting_rights@[i as int].0.bytes@
                == name.bytes@,
    {
        let mut i: usize = 0;
        while i < self.voting_rights.len()
            invariant
                i <= self.voting_rights@.len(),
                forall|j: int| 0 <= j < i ==> #[trigger] self.voting_rights@[j].0.bytes@ != name.bytes@,
            decreases self.voting_rights@.len() - i,
        {
            if bytes_eq(&self.voting_rights[i].0.bytes, &name.bytes) {
                return Some(i);
            }
            i = i + 1;
        }
        None
    }
}

/// Total voting power of the authorities listed in `votes`.
pub open spec fn sum_power(c: Committee, votes: Seq<(AuthorityName, Signature)>) -> nat
    decreases votes.len(),
{
    if votes.len() == 0 {
        0
    } else {
        sum_power(c, votes.drop_last()) + c.power_of(votes.last().0.bytes@)
    }
}

pub open spec fn saturate(n: nat) -> u64 {
    if n > u64::MAX {
        u64::MAX
    } else {
        n as u64
    }
}

/// Whether `name` has a vote among `votes`.
pub open spec fn has_voted(votes: Seq<(AuthorityName, Signature)>, name: Seq<u8>) -> bool {
    exists|i: int| 0 <= i < votes.len() && #[trigger] votes[i].0.bytes@ == name
}

/// Whether `name` has a vote among `votes` with exactly the signature `sig`.
pub open spec fn has_vote(votes: Seq<(AuthorityName, Signature)>, name: Seq<u8>, sig: Seq<u8>) -> bool {
    exists|i: int| 0 <= i < votes.len() && #[trigger] votes[i].0.bytes@ == name && votes[i].1.bytes@ == sig
}

/// Collects the votes of a committee on one order, at most one per authority,
/// in the order they arrive.
pub struct SignatureAggregator {
    committee: Committee,
    order: Order,
    payload: Vec<u8>,
    signatures: Vec<(AuthorityName, Signature)>,
    weight: u64,
}

impl SignatureAggregator {
    pub closed spec fn committee(&self) -> Committee {
        self.committee
    }

    pub closed spec fn order(&self) -> Order {
        self.order
    }

    pub closed spec fn signatures(&self) -> Seq<(AuthorityName, Signature)> {
        self.signatures@
    }

    /// The voting power gathered so far.
    pub open spec fn power(&self) -> nat {
        sum_power(self.committee(), self.signatures())
    }

    /// Every recorded signer is a committee member whose signature verifies over
    /// the order's payload, and no signer is recorded twice.
    pub open spec fn votes_valid(&self) -> bool {
        let votes = self.signatures();
        &&& forall|i: int|
            0 <= i < votes.len() ==> self.committee().is_member(#[trigger] votes[i].0.bytes@)
                && ed25519_verifies(votes[i].0.bytes@, enc_order_data(self.order().data), votes[i].1.bytes@)
        &&& forall|i: int, j: int|
            0 <= i < votes.len() && 0 <= j < votes.len() && i != j ==> #[trigger] votes[i].0.bytes@
                != #[trigger] votes[j].0.bytes@
    }

    pub closed spec fn wf(&self) -> bool {
        &&& self.committee.wf()
        &&& self.payload@ == enc_order_data(self.order.data)
        &&& self.weight == saturate(sum_power(self.committee, self.signatures@))
        &&& self.votes_valid()
    }

    /// An aggregator for `order` with no vote yet.
    pub fn new(order: Order, committee: Committee) -> (r: SignatureAggregator)
        requires
            committee.wf(),
        ensures
            r.wf(),
            r.votes_valid(),
            r.order() == order,
            r.committee() == committee,
            r.signatures().len() == 0,
    {
        let payload = order_data_bytes(&order.data);
        SignatureAggregator { committee, order, payload, signatures: Vec::new(), weight: 0 }
    }

    /// Records the vote of one authority. A vote on another payload or from a
    /// stranger is refused; the same vote twice is accepted once; a second,
    /// different signature of an authority is equivocation and the first one
    /// stays; a new vote whose signature does not verify is refused.
    pub fn add_vote(&mut self, vote: SignedOrder) -> (r: Result<(), SuiError>)
        requires
            old(self).wf(),
        ensures
            final(self).wf(),
            final(self).votes_valid(),
            final(self).committee() == old(self).committee(),
            final(self).order() == old(self).order(),
            ({
                let payload = enc_order_data(old(self).order().data);
                let name = vote.authority.bytes@;
                let sig = vote.signature.bytes@;
                let votes = old(self).signatures();
                if enc_order_data(vote.order.data) != payload {
                    r == Err::<(), SuiError>(SuiError::ConflictingOrder) && *final(self) == *old(self)
                } else if !old(self).committee().is_member(name) {
                    r == Err::<(), SuiError>(SuiError::UnknownSigner) && *final(self) == *old(self)
                } else if has_vote(votes, name, sig) {
                    r is Ok && *final(self) == *old(self)
                } else if has_voted(votes, name) {
                    r == Err::<(), SuiError>(SuiError::Equivocation) && *final(self) == *old(self)
                } else if !ed25519_verifies(name, payload, sig) {
                    r == Err::<(), SuiError>(SuiError::InvalidSignature) && *final(self) == *old(self)
                } else {
                    r is Ok && final(self).signatures() == votes.push((vote.authority, vote.signature))
                        && final(self).power() == old(self).power() + old(self).committee().power_of(name)
                }
            }),
    {
        let msg = order_data_bytes(&vote.order.data);
        if !bytes_eq(&msg, &self.payload) {
            return Err(SuiError::ConflictingOrder);
        }
        let idx = match self.committee.index_of(&vote.authority) {
            Some(i) => i,
            None => return Err(SuiError::UnknownSigner),
        };
        let mut i: usize = 0;
        while i < self.signatures.len()
            invariant
                i <= self.signatures@.len(),
                *self == *old(self),
                self.wf(),
                enc_order_data(vote.order.data) == self.payload@,
                self.committee.is_member(vote.authority.bytes@),
                forall|j: int| 0 <= j < i ==> #[trigger] self.signatures@[j].0.bytes@ != vote.authority.bytes@,
            decreases self.signatures@.len() - i,
        {
            if bytes_eq(&self.signatures[i].0.bytes, &vote.authority.bytes) {
                if bytes_eq(&self.signatures[i].1.bytes, &vote.signature.bytes) {
                    assert(self.signatures@[i as int].0.bytes@ == vote.authority.bytes@
                        && self.signatures@[i as int].1.bytes@ == vote.signature.bytes@);
                    return Ok(());
                }
                proof {
                    assert forall|j: int| 0 <= j < self.signatures@.len() && #[trigger] self.signatures@[j].0.bytes@
                        == vote.authority.bytes@ implies self.signatures@[j].1.bytes@ != vote.signature.bytes@ by {
                        if j != i {
                            assert(self.signatures@[j].0.bytes@ != self.signatures@[i as int].0.bytes@);
                        }
                    }
                }
                return Err(SuiError::Equivocation);
            }
            i = i + 1;
        }
        if vote.signature.check(&vote.order.data, &vote.authority).is_err() {
            return Err(SuiError::InvalidSignature);
        }
        let power = self.committee.voting_rights[idx].1;
        let ghost name = vote.authority.bytes@;
        proof {
            let k = choose|k: int|
                0 <= k < self.committee.voting_rights@.len() && #[trigger] self.committee.voting_rights@[k].0.bytes@
                    == name;
            assert(k == idx);
        }
        let ghost old_sigs = self.signatures@;
        let SignedOrder { order: _, authority, signature } = vote;
        self.signatures.push((authority, signature));
        self.weight = if self.weight > u64::MAX - power {
            u64::MAX
        } else {
            self.weight + power
        };
        proof {
            assert(self.signatures@.drop_last() == old_sigs);
            assert forall|a: int, b: int|
                0 <= a < self.signatures@.len() && 0 <= b < self.signatures@.len() && a != b
                    implies #[trigger] self.signatures@[a].0.bytes@ != #[trigger] self.signatures@[b].0.bytes@ by {
                if a < old_sigs.len() && b < old_sigs.len() {
                    assert(old_sigs[a].0.bytes@ != old_sigs[b].0.bytes@);
                } else if a < old_sigs.len() {
                    assert(old_sigs[a].0.bytes@ != name);
                } else {
                    assert(old_sigs[b].0.bytes@ != name);
                }
            }
            assert forall|j: int| 0 <= j < self.signatures@.len() implies self.committee.is_member(
                #[trigger] self.signatures@[j].0.bytes@,
            ) && ed25519_verifies(self.signatures@[j].0.bytes@, self.payload@, self.signatures@[j].1.bytes@) by {
                if j < old_sigs.len() {
                    assert(old_sigs[j] == self.signatures@[j]);
                    assert(old(self).committee.is_member(old_sigs[j].0.bytes@));
                }
            }
        }
        Ok(())
    }

    /// Whether the votes gathered reach the committee's threshold.
    pub fn is_quorum_reached(&self) -> (r: bool)
        requires
            self.wf(),
        ensures
            r == (self.power() >= self.committee().quorum_threshold),
    {
        self.weight >= self.committee.quorum_threshold
    }

    /// The certificate made of the votes gathered, in the order they came;
    /// refused while their power is below the threshold.
    pub fn finalize(self) -> (r: Result<CertifiedOrder, SuiError>)
        requires
            self.wf(),
        ensures
            self.power() < self.committee().quorum_threshold ==> r == Err::<CertifiedOrder, SuiError>(
                SuiError::QuorumNotReached,
            ),
            self.power() >= self.committee().quorum_threshold ==> (r matches Ok(c) && c.order
                == self.order() && c.signatures@ == self.signatures()),
    {
        if self.weight < self.committee.quorum_threshold {
            return Err(SuiError::QuorumNotReached);
        }
        Ok(CertifiedOrder { order: self.order, signatures: self.signatures })
    }
}

} // verus!
