use vstd::prelude::*;

verus! {

/// A BN254 scalar-field element, stored as four 64-bit little-endian limbs.
/// The all-zero value doubles as the empty-leaf sentinel and the deletion
/// marker of the tree.
#[derive(Clone, Copy, PartialEq, Eq, Structural, Debug)]
pub struct Field {
    pub w0: u64,
    pub w1: u64,
    pub w2: u64,
    pub w3: u64,
}

/// Order of the BN254 scalar field; every hash the tree stores is reduced
/// below it.
pub open spec fn field_modulus() -> int {
    21888242871839275222246405745257275088548364400416034343698204186575808495617int
}

impl Field {
    /// The integer the four limbs denote.
    pub open spec fn as_nat(self) -> int {
        self.w0 + self.w1 * 0x10000000000000000int
            + self.w2 * 0x100000000000000000000000000000000int
            + self.w3 * 0x1000000000000000000000000000000000000000000000000int
    }

    /// A value is reduced when it lies strictly below the field order.
    pub open spec fn reduced(self) -> bool {
        self.as_nat() < field_modulus()
    }

    pub open spec fn zero_spec() -> Field {
        Field { w0: 0, w1: 0, w2: 0, w3: 0 }
    }

    /// The distinguished zero element.
    pub fn zero() -> (h: Field)
        ensures
            h == Field::zero_spec(),
            h.reduced(),
    {
        Field { w0: 0, w1: 0, w2: 0, w3: 0 }
    }

    /// Embeds a machine integer into the field.
    pub fn from_u64(v: u64) -> (h: Field)
        ensures
            h == (Field { w0: v, w1: 0, w2: 0, w3: 0 }),
            h.reduced(),
    {
        Field { w0: v, w1: 0, w2: 0, w3: 0 }
    }

    /// Compares the value against the field order, most significant limb
    /// first.
    pub fn is_reduced(&self) -> (r: bool)
        ensures
            r == self.reduced(),
    {
        let m0: u64 = 0x43E1F593F0000001;
        let m1: u64 = 0x2833E84879B97091;
        let m2: u64 = 0xB85045B68181585D;
        let m3: u64 = 0x30644E72E131A029;
        proof {
            let m = Field { w0: m0, w1: m1, w2: m2, w3: m3 };
            assert(m.as_nat() == field_modulus());
            lemma_limb_order(*self, m);
        }
        if self.w3 != m3 {
            self.w3 < m3
        } else if self.w2 != m2 {
            self.w2 < m2
        } else if self.w1 != m1 {
            self.w1 < m1
        } else {
            self.w0 < m0
        }
    }
}

/// Comparing two limb vectors most-significant-limb first agrees with
/// comparing the integers they denote.
proof fn lemma_limb_order(a: Field, b: Field)
    ensures
        (a.as_nat() < b.as_nat()) == (a.w3 < b.w3 || (a.w3 == b.w3 && (a.w2 < b.w2 || (a.w2 == b.w2
            && (a.w1 < b.w1 || (a.w1 == b.w1 && a.w0 < b.w0)))))),
{
    if a.w3 < b.w3 {
        assert(a.as_nat() < b.as_nat());
    } else if a.w3 == b.w3 {
        if a.w2 < b.w2 {
            assert(a.as_nat() < b.as_nat());
        } else if a.w2 == b.w2 {
            if a.w1 < b.w1 {
                assert(a.as_nat() < b.as_nat());
            } else if a.w1 == b.w1 {
                assert((a.as_nat() < b.as_nat()) == (a.w0 < b.w0));
            } else {
                assert(a.as_nat() > b.as_nat());
            }
        } else {
            assert(a.as_nat() > b.as_nat());
        }
    } else {
        assert(a.as_nat() > b.as_nat());
    }
}

/// What the Poseidon compression of two reduced field elements returns; a
/// pure function of its two arguments.
pub uninterp spec fn poseidon_of(left: Field, right: Field) -> Field;

/// Relies on semaphore_rs_poseidon::poseidon::hash2: the Poseidon hash of two
/// field elements of the BN254 scalar field. It is a pure function of its two
/// arguments; it panics on an unreduced input and always returns a reduced
/// element.
#[verifier::external_body]
pub fn poseidon_hash(left: &Field, right: &Field) -> (h: Field)
    requires
        left.reduced(),
        right.reduced(),
    ensures
        h == poseidon_of(*left, *right),
        h.reduced(),
{
    let l = ruint::aliases::U256::from_limbs([left.w0, left.w1, left.w2, left.w3]);
    let r = ruint::aliases::U256::from_limbs([right.w0, right.w1, right.w2, right.w3]);
    let out = semaphore_rs_poseidon::poseidon::hash2(l, r);
    let limbs = out.as_limbs();
    Field { w0: limbs[0], w1: limbs[1], w2: limbs[2], w3: limbs[3] }
}

} // verus!
