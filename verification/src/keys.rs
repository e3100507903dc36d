//! Curve25519 keys: the public key that belongs to a private key.

use vstd::prelude::*;

verus! {

/// The X25519 public key of a private key: the base point multiplied by the
/// clamped private scalar, in Montgomery form, as the 32 bytes of its
/// u-coordinate. The private key is the scalar's 32 bytes.
pub uninterp spec fn x25519_public(private: Seq<u8>) -> Seq<u8>;

/// The point that 32 bytes stand for as a public key: the bytes read as an
/// element of the field of Curve25519, their highest bit left aside and the
/// number taken modulo 2^255 - 19, and written again as 32 bytes. Two byte
/// strings are the same public key when they stand for the same point.
pub uninterp spec fn x25519_point(key: Seq<u8>) -> Seq<u8>;

/// Whether two byte strings are the same public key.
pub open spec fn same_key(a: [u8; 32], b: [u8; 32]) -> bool {
    x25519_point(a@) == x25519_point(b@)
}

/// The public key of a private key, as an array.
pub open spec fn public_key_of(private: [u8; 32]) -> [u8; 32] {
    choose|public: [u8; 32]| public@ == x25519_public(private@)
}

/// Calls `x25519_dalek::PublicKey::from(&StaticSecret)`, which computes the
/// public key from the private key alone. The contract gives that result its
/// name and says no more of it.
#[verifier::external_body]
fn x25519_derive(private: &[u8; 32]) -> (public: [u8; 32])
    ensures
        public@ == x25519_public(private@),
{
    let secret = x25519_dalek::StaticSecret::from(*private);
    x25519_dalek::PublicKey::from(&secret).to_bytes()
}

/// Calls `==` of `x25519_dalek::PublicKey`, which reads both byte strings
/// as field elements and compares what the elements are written as. The
/// contract gives that writing its name, and says that the result is whether
/// the two are equal.
#[verifier::external_body]
fn x25519_same(a: &[u8; 32], b: &[u8; 32]) -> (same: bool)
    ensures
        same == (x25519_point(a@) == x25519_point(b@)),
{
    x25519_dalek::PublicKey::from(*a) == x25519_dalek::PublicKey::from(*b)
}

/// Whether two byte strings are the same public key.
pub fn same_public_key(a: &[u8; 32], b: &[u8; 32]) -> (same: bool)
    ensures
        same == same_key(*a, *b),
{
    x25519_same(a, b)
}

/// The public key that belongs to a private key.
pub fn derive_public(private: &[u8; 32]) -> (public: [u8; 32])
    ensures
        public == public_key_of(*private),
{
    let public = x25519_derive(private);
    proof {
        let chosen = public_key_of(*private);
        assert(chosen@ == x25519_public(private@));
        assert(chosen =~= public);
    }
    public
}

} // verus!
