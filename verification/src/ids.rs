//! Opaque identities: group identifiers, peer addresses and credentials.
//!
//! A group identifier and a peer address are value-equal byte strings; the
//! protocol never looks inside them, it only compares them and renders them
//! as hex.  A proof is an opaque credential whose verification is delegated.

use vstd::prelude::*;

verus! {

/// A 32-byte opaque identity of a peer or of a group chat.
#[derive(Clone, Debug)]
pub struct GroupId(pub Vec<u8>);

/// An opaque network address of a connected peer.
#[derive(Clone, Debug)]
pub struct PeerAddr(pub Vec<u8>);

/// An opaque credential; verification is delegated to the did system.
#[derive(Clone, Debug)]
pub struct Proof(pub Vec<u8>);

impl View for GroupId {
    type V = Seq<u8>;

    open spec fn view(&self) -> Seq<u8> {
        self.0@
    }
}

impl View for PeerAddr {
    type V = Seq<u8>;

    open spec fn view(&self) -> Seq<u8> {
        self.0@
    }
}

impl View for Proof {
    type V = Seq<u8>;

    open spec fn view(&self) -> Seq<u8> {
        self.0@
    }
}

/// Compares two byte strings for equality.
pub fn bytes_eq(a: &Vec<u8>, b: &Vec<u8>) -> (r: bool)
    ensures
        r == (a@ == b@),
{
    if a.len() != b.len() {
        proof {
            assert(a@.len() != b@.len());
        }
        return false;
    }
    let n: usize = a.len();
    let mut i: usize = 0;
    while i < n
        invariant
            n == a@.len() == b@.len(),
            i <= n,
            forall|j: int| 0 <= j < i ==> a@[j] == b@[j],
        decreases n - i,
    {
        if a[i] != b[i] {
            return false;
        }
        i += 1;
    }
    proof {
        assert(a@ =~= b@);
    }
    true
}

/// Copies a byte string.
pub fn copy_bytes(v: &Vec<u8>) -> (r: Vec<u8>)
    ensures
        r@ == v@,
{
    let mut r: Vec<u8> = Vec::new();
    let n: usize = v.len();
    let mut i: usize = 0;
    while i < n
        invariant
            n == v@.len(),
            i <= n,
            r@ == v@.take(i as int),
        decreases n - i,
    {
        r.push(v[i]);
        proof {
            assert(r@ =~= v@.take(i as int + 1));
        }
        i += 1;
    }
    proof {
        assert(v@.take(n as int) =~= v@);
    }
    r
}

impl GroupId {
    /// Whether two group identifiers name the same identity.
    pub fn eq_id(&self, other: &GroupId) -> (r: bool)
        ensures
            r == (self@ == other@),
    {
        bytes_eq(&self.0, &other.0)
    }

    /// A copy naming the same identity.
    pub fn duplicate(&self) -> (r: GroupId)
        ensures
            r@ == self@,
    {
        GroupId(copy_bytes(&self.0))
    }
}

impl PeerAddr {
    /// Whether two peer addresses are the same address.
    pub fn eq_addr(&self, other: &PeerAddr) -> (r: bool)
        ensures
            r == (self@ == other@),
    {
        bytes_eq(&self.0, &other.0)
    }

    /// A copy of the address.
    pub fn duplicate(&self) -> (r: PeerAddr)
        ensures
            r@ == self@,
    {
        PeerAddr(copy_bytes(&self.0))
    }
}

} // verus!
