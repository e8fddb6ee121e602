use vstd::prelude::*;
use crate::bytes::{bytes_eq, copy_bytes};
use crate::signature::{ed25519_accepts, verify_detached};

verus! {

/// A peer's claimed membership: a name together with the public key that
/// the name is said to own.
pub struct Identity {
    pub name: Vec<u8>,
    pub public_key: Vec<u8>,
}

pub struct IdentityView {
    pub name: Seq<u8>,
    pub public_key: Seq<u8>,
}

impl View for Identity {
    type V = IdentityView;

    open spec fn view(&self) -> IdentityView {
        IdentityView { name: self.name@, public_key: self.public_key@ }
    }
}

/// A signed statement from one sender listing the identities that, by that
/// sender's account, make up the group. Two claims are the same claim when
/// their signed message and signature are the same.
pub struct GroupClaim {
    pub message: Vec<u8>,
    pub signature: Vec<u8>,
    pub identities: Vec<Identity>,
}

pub struct GroupClaimView {
    pub message: Seq<u8>,
    pub signature: Seq<u8>,
    pub identities: Seq<IdentityView>,
}

impl View for GroupClaim {
    type V = GroupClaimView;

    open spec fn view(&self) -> GroupClaimView {
        GroupClaimView {
            message: self.message@,
            signature: self.signature@,
            identities: self.identities@.map_values(|i: Identity| i@),
        }
    }
}

/// Two claims carry the same content.
pub open spec fn same_content(a: GroupClaimView, b: GroupClaimView) -> bool {
    a.message == b.message && a.signature == b.signature
}

/// The claim's signature verifies under the public key `pk`.
pub open spec fn signed_by(c: GroupClaimView, pk: Seq<u8>) -> bool {
    ed25519_accepts(c.signature, c.message, pk)
}

impl Identity {
    pub fn new(name: Vec<u8>, public_key: Vec<u8>) -> (r: Identity)
        ensures
            r.name@ == name@,
            r.public_key@ == public_key@,
    {
        Identity { name, public_key }
    }

    /// The name that this identity claims.
    pub fn name(&self) -> (r: Vec<u8>)
        ensures
            r@ == self.name@,
    {
        copy_bytes(&self.name)
    }

    /// The public key that the name is claimed to own.
    pub fn public_key(&self) -> (r: Vec<u8>)
        ensures
            r@ == self.public_key@,
    {
        copy_bytes(&self.public_key)
    }

    /// A copy of this identity.
    pub fn duplicate(&self) -> (r: Identity)
        ensures
            r@ == self@,
    {
        Identity { name: copy_bytes(&self.name), public_key: copy_bytes(&self.public_key) }
    }
}

impl GroupClaim {
    pub fn new(message: Vec<u8>, signature: Vec<u8>, identities: Vec<Identity>) -> (r: GroupClaim)
        ensures
            r.message@ == message@,
            r.signature@ == signature@,
            r.identities@ == identities@,
    {
        GroupClaim { message, signature, identities }
    }

    /// The identities that this claim asserts, in order.
    pub fn group_identities(&self) -> (r: Vec<Identity>)
        ensures
            r@.map_values(|i: Identity| i@) == self@.identities,
    {
        let mut r: Vec<Identity> = Vec::new();
        let mut i: usize = 0;
        while i < self.identities.len()
            invariant
                0 <= i <= self.identities@.len(),
                r@.len() == i,
                forall|j: int| 0 <= j < i ==> r@[j]@ == self.identities@[j]@,
            decreases self.identities@.len() - i,
        {
            r.push(self.identities[i].duplicate());
            i = i + 1;
        }
        assert(r@.map_values(|x: Identity| x@) =~= self@.identities);
        r
    }

    /// A copy of this claim.
    pub fn duplicate(&self) -> (r: GroupClaim)
        ensures
            r@ == self@,
    {
        let r = GroupClaim {
            message: copy_bytes(&self.message),
            signature: copy_bytes(&self.signature),
            identities: self.group_identities(),
        };
        r
    }

    /// Checks the claim's signature against the public key `pk`.
    pub fn verify_public_key(&self, pk: &Vec<u8>) -> (r: bool)
        ensures
            r == signed_by(self@, pk@),
    {
        verify_detached(&self.signature, &self.message, pk)
    }

    /// Whether `other` carries the same content as this claim.
    pub fn same_content(&self, other: &GroupClaim) -> (r: bool)
        ensures
            r == same_content(self@, other@),
    {
        bytes_eq(&self.message, &other.message) && bytes_eq(&self.signature, &other.signature)
    }
}

} // verus!
