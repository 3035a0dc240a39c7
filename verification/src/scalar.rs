//! The field layer: elements of the Ristretto255 scalar field, held by their
//! canonical little-endian encoding. The arithmetic itself is done by
//! `curve25519_dalek`.

use vstd::prelude::*;
use vstd::std_specs::cmp::PartialEqSpecImpl;

verus! {

/// The prime order of the scalar field, `2^252 + 27742317777372353535851937790883648493`.
pub open spec fn field_order() -> nat {
    7237005577332262213973186563042994240857116359379907606001950938285454250989nat
}

/// The natural number that a little-endian byte string encodes.
pub open spec fn le_value(bytes: Seq<u8>) -> nat
    decreases bytes.len(),
{
    if bytes.len() == 0 {
        0
    } else {
        bytes[0] as nat + 256 * le_value(bytes.skip(1))
    }
}

/// Addition in the field.
pub open spec fn field_add(a: nat, b: nat) -> nat {
    (a + b) % field_order()
}

/// Multiplication in the field.
pub open spec fn field_mul(a: nat, b: nat) -> nat {
    (a * b) % field_order()
}

/// Two byte strings of one length that encode the same number are equal.
pub proof fn lemma_le_value_injective(a: Seq<u8>, b: Seq<u8>)
    requires
        a.len() == b.len(),
        le_value(a) == le_value(b),
    ensures
        a == b,
    decreases a.len(),
{
    if a.len() == 0 {
        assert(a =~= b);
    } else {
        let ra = le_value(a.skip(1));
        let rb = le_value(b.skip(1));
        assert(a[0] as nat + 256 * ra == b[0] as nat + 256 * rb);
        assert(a[0] == b[0] && ra == rb);
        lemma_le_value_injective(a.skip(1), b.skip(1));
        assert(a =~= seq![a[0]] + a.skip(1));
        assert(b =~= seq![b[0]] + b.skip(1));
    }
}

/// An element of the scalar field.
#[derive(Clone, Copy, Debug)]
pub struct Scalar {
    bytes: [u8; 32],
}

impl View for Scalar {
    type V = nat;

    /// The field element, as the number below the field order that it is.
    closed spec fn view(&self) -> nat {
        le_value(self.bytes@)
    }
}

impl PartialEq for Scalar {
    /// Two elements are equal if they have the same value.
    fn eq(&self, other: &Scalar) -> (r: bool) {
        self.equals(other)
    }
}

impl PartialEqSpecImpl for Scalar {
    open spec fn obeys_eq_spec() -> bool {
        true
    }

    open spec fn eq_spec(&self, other: &Scalar) -> bool {
        self@ == other@
    }
}

impl Scalar {
    #[verifier::type_invariant]
    spec fn reduced(self) -> bool {
        le_value(self.bytes@) < field_order()
    }

    /// The canonical little-endian encoding of the element.
    pub closed spec fn encoding(self) -> Seq<u8> {
        self.bytes@
    }

    /// Two elements with the same value are the same element.
    pub proof fn lemma_value_injective(self, other: Scalar)
        requires
            self@ == other@,
        ensures
            self == other,
    {
        lemma_le_value_injective(self.bytes@, other.bytes@);
        assert(self.bytes =~= other.bytes);
    }

    /// The element `0`.
    pub fn zero() -> (r: Scalar)
        ensures
            r@ == 0,
    {
        Scalar::from_u64(0)
    }

    /// The element `1`.
    pub fn one() -> (r: Scalar)
        ensures
            r@ == 1,
    {
        Scalar::from_u64(1)
    }

    /// The element that an unsigned 64-bit integer stands for.
    ///
    /// Trusted: `<curve25519_dalek::scalar::Scalar as From<u64>>::from` stores
    /// the integer's little-endian bytes, so the element's value is the integer.
    #[verifier::external_body]
    pub(crate) fn dalek_from_u64(x: u64) -> (r: Scalar)
        ensures
            r@ == x as nat,
            r@ < field_order(),
    {
        Scalar { bytes: curve25519_dalek::scalar::Scalar::from(x).to_bytes() }
    }

    /// The element that an unsigned 64-bit integer stands for.
    pub fn from_u64(x: u64) -> (r: Scalar)
        ensures
            r@ == x as nat,
    {
        Scalar::dalek_from_u64(x)
    }

    /// Reduces a 256-bit little-endian integer modulo the field order.
    ///
    /// Trusted: `curve25519_dalek::scalar::Scalar::from_bytes_mod_order`
    /// returns the reduced representative of the integer that the bytes encode.
    #[verifier::external_body]
    pub(crate) fn dalek_from_bytes_mod_order(bytes: [u8; 32]) -> (r: Scalar)
        ensures
            r@ == le_value(bytes@) % field_order(),
            r@ < field_order(),
    {
        Scalar { bytes: curve25519_dalek::scalar::Scalar::from_bytes_mod_order(bytes).to_bytes() }
    }

    /// The element that a 256-bit little-endian integer stands for, reduced
    /// modulo the field order.
    pub fn from_bytes_mod_order(bytes: [u8; 32]) -> (r: Scalar)
        ensures
            r@ == le_value(bytes@) % field_order(),
    {
        Scalar::dalek_from_bytes_mod_order(bytes)
    }

    /// The canonical 32-byte little-endian encoding.
    pub fn to_bytes(&self) -> (bytes: [u8; 32])
        ensures
            bytes@ == self.encoding(),
            le_value(bytes@) == self@,
            self@ < field_order(),
    {
        proof {
            use_type_invariant(self);
        }
        self.bytes
    }

    /// The sum of two elements.
    ///
    /// Trusted: the `Add` of `curve25519_dalek::scalar::Scalar` adds modulo the
    /// field order and returns the reduced sum.
    #[verifier::external_body]
    pub(crate) fn dalek_add(&self, rhs: &Scalar) -> (r: Scalar)
        ensures
            r@ == field_add(self@, rhs@),
    {
        let a = curve25519_dalek::scalar::Scalar::from_bytes_mod_order(self.bytes);
        let b = curve25519_dalek::scalar::Scalar::from_bytes_mod_order(rhs.bytes);
        Scalar { bytes: (a + b).to_bytes() }
    }

    /// The product of two elements.
    ///
    /// Trusted: the `Mul` of `curve25519_dalek::scalar::Scalar` multiplies
    /// modulo the field order and returns the reduced product.
    #[verifier::external_body]
    pub(crate) fn dalek_mul(&self, rhs: &Scalar) -> (r: Scalar)
        ensures
            r@ == field_mul(self@, rhs@),
    {
        let a = curve25519_dalek::scalar::Scalar::from_bytes_mod_order(self.bytes);
        let b = curve25519_dalek::scalar::Scalar::from_bytes_mod_order(rhs.bytes);
        Scalar { bytes: (a * b).to_bytes() }
    }

    /// The multiplicative inverse of a nonzero element.
    ///
    /// Trusted: `curve25519_dalek::scalar::Scalar::invert` returns the reduced
    /// element whose product with a nonzero argument is one.
    #[verifier::external_body]
    pub(crate) fn dalek_invert(&self) -> (r: Scalar)
        requires
            self@ % field_order() != 0,
        ensures
            r@ < field_order(),
            field_mul(r@, self@) == 1,
    {
        let a = curve25519_dalek::scalar::Scalar::from_bytes_mod_order(self.bytes);
        Scalar { bytes: a.invert().to_bytes() }
    }

    /// Field addition.
    pub fn add(&self, rhs: &Scalar) -> (r: Scalar)
        ensures
            r@ == field_add(self@, rhs@),
    {
        self.dalek_add(rhs)
    }

    /// Field multiplication.
    pub fn mul(&self, rhs: &Scalar) -> (r: Scalar)
        ensures
            r@ == field_mul(self@, rhs@),
    {
        self.dalek_mul(rhs)
    }

    /// The multiplicative inverse of a nonzero element.
    pub fn invert(&self) -> (r: Scalar)
        requires
            self@ % field_order() != 0,
        ensures
            r@ < field_order(),
            field_mul(r@, self@) == 1,
    {
        self.dalek_invert()
    }

    /// Whether two elements are the same.
    pub fn equals(&self, other: &Scalar) -> (r: bool)
        ensures
            r == (self@ == other@),
    {
        let mut i: usize = 0;
        while i < 32
            invariant
                i <= 32,
                forall|k: int| 0 <= k < i ==> self.bytes@[k] == other.bytes@[k],
            decreases 32 - i,
        {
            if self.bytes[i] != other.bytes[i] {
                proof {
                    if self@ == other@ {
                        lemma_le_value_injective(self.bytes@, other.bytes@);
                    }
                }
                return false;
            }
            i += 1;
        }
        proof {
            assert(self.bytes@ =~= other.bytes@);
        }
        true
    }
}

} // verus!
