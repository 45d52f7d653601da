//! Field elements of the BN254 scalar field, held as their canonical little-endian bytes,
//! and the two-input Poseidon hash over them.

use ark_bn254::Fr;
use light_poseidon::{Poseidon, PoseidonBytesHasher};
use vstd::prelude::*;

verus! {

/// The order of the BN254 scalar field.
pub open spec fn field_modulus() -> nat {
    21888242871839275222246405745257275088548364400416034343698204186575808495617nat
}

/// `256` raised to the power `k`.
pub open spec fn pow256(k: nat) -> nat
    decreases k,
{
    if k == 0 {
        1
    } else {
        256 * pow256((k - 1) as nat)
    }
}

/// The integer that a little-endian byte string denotes.
pub open spec fn le_value(s: Seq<u8>) -> nat
    decreases s.len(),
{
    if s.len() == 0 {
        0
    } else {
        le_value(s.drop_last()) + pow256((s.len() - 1) as nat) * (s.last() as nat)
    }
}

/// A 32-byte little-endian encoding of an element of the field.
pub open spec fn is_canonical(s: Seq<u8>) -> bool {
    s.len() == 32 && le_value(s) < field_modulus()
}

/// The encoding of the circom-compatible two-input Poseidon hash of the elements
/// encoded by `a` and `b`.
pub uninterp spec fn poseidon_le(a: Seq<u8>, b: Seq<u8>) -> Seq<u8>;

/// Relies on light_poseidon: `Poseidon::<Fr>::new_circom(2)` gives the hasher with the
/// circom BN254 parameters for two inputs (width three, which the crate ships), and
/// `PoseidonBytesHasher::hash_bytes_le` reads two 32-byte little-endian encodings,
/// accepts them when both are below the modulus, and returns the 32-byte little-endian
/// encoding of the hash, which is canonical since it comes from `into_bigint`.
#[verifier::external_body]
fn poseidon_hash_le(a: &[u8; 32], b: &[u8; 32]) -> (r: [u8; 32])
    requires
        is_canonical(a@),
        is_canonical(b@),
    ensures
        r@ == poseidon_le(a@, b@),
        is_canonical(r@),
{
    let mut hasher = Poseidon::<Fr>::new_circom(2).unwrap();
    hasher.hash_bytes_le(&[&a[..], &b[..]]).unwrap()
}

/// Relies on light_poseidon::bytes_to_prime_field_element_le, which reads 32 bytes as a
/// little-endian integer (always within 256 bits) and returns an error exactly when that
/// integer is not below the modulus of `Fr`.
#[verifier::external_body]
fn below_modulus_le(b: &[u8; 32]) -> (r: bool)
    ensures
        r == (le_value(b@) < field_modulus()),
{
    light_poseidon::bytes_to_prime_field_element_le::<Fr>(&b[..]).is_ok()
}

/// An element of the BN254 scalar field.
#[derive(Clone, Copy, Debug, PartialEq, Eq)]
pub struct Felt {
    bytes: [u8; 32],
}

impl View for Felt {
    type V = Seq<u8>;

    /// The element's canonical little-endian encoding.
    closed spec fn view(&self) -> Seq<u8> {
        self.bytes@
    }
}

impl Felt {
    #[verifier::type_invariant]
    spec fn inv(self) -> bool {
        is_canonical(self.bytes@)
    }

    /// The element that stands for the integer `v`.
    pub fn from_u64(v: u64) -> (r: Felt)
        ensures
            le_value(r@) == v as nat,
    {
        let mut bytes: [u8; 32] = [0u8; 32];
        let mut x: u64 = v;
        let mut i: usize = 0;
        proof {
            assert(bytes@.take(0).len() == 0);
            assert(pow256(0) == 1);
        }
        while i < 32
            invariant
                0 <= i <= 32,
                bytes@.len() == 32,
                v as nat == le_value(bytes@.take(i as int)) + pow256(i as nat) * (x as nat),
                forall|j: int| i <= j < 32 ==> bytes@[j] == 0u8,
            decreases 32 - i,
        {
            let b: u8 = (x % 256) as u8;
            let ghost before = bytes@;
            bytes[i] = b;
            proof {
                assert(bytes@.take(i as int) == before.take(i as int));
                assert(bytes@.take(i as int + 1).drop_last() == bytes@.take(i as int));
                let p = pow256(i as nat);
                let q = (x / 256) as nat;
                let r = b as nat;
                assert(x as nat == 256 * q + r);
                assert(p * (x as nat) == p * r + (256 * p) * q) by (nonlinear_arith)
                    requires
                        x as nat == 256 * q + r,
                ;
            }
            x = x / 256;
            i = i + 1;
        }
        proof {
            assert(bytes@.take(32) == bytes@);
            reveal_with_fuel(pow256, 33);
            assert(pow256(32) > 0xffff_ffff_ffff_ffff);
            if x > 0 {
                assert(pow256(32) * (x as nat) >= pow256(32)) by (nonlinear_arith)
                    requires
                        x > 0,
                ;
            }
            assert(le_value(bytes@) < field_modulus());
        }
        Felt { bytes }
    }

    /// The element whose little-endian encoding is `bytes`, if that integer is below the
    /// modulus; `None` otherwise.
    pub fn from_le_bytes(bytes: [u8; 32]) -> (r: Option<Felt>)
        ensures
            r is Some <==> le_value(bytes@) < field_modulus(),
            r matches Some(x) ==> x@ == bytes@,
    {
        if below_modulus_le(&bytes) {
            Some(Felt { bytes })
        } else {
            None
        }
    }

    /// The element's canonical little-endian encoding.
    pub fn to_le_bytes(&self) -> (r: [u8; 32])
        ensures
            r@ == self@,
    {
        self.bytes
    }
}

/// The two-input Poseidon hash of `a` and `b`; the order of the inputs matters.
pub fn hash_pair(a: &Felt, b: &Felt) -> (r: Felt)
    ensures
        r@ == poseidon_le(a@, b@),
{
    proof {
        use_type_invariant(a);
        use_type_invariant(b);
    }
    let bytes = poseidon_hash_le(&a.bytes, &b.bytes);
    Felt { bytes }
}

} // verus!
