//! Equality and order of identifiers.

use super::value::{lemma_be_value_ext, lemma_be_value_lex};
use super::U256;
use std::cmp::Ordering;
use vstd::prelude::*;
use vstd::std_specs::cmp::{PartialEqSpecImpl, PartialOrdSpecImpl};

verus! {

/// The sign of `a - b` as numbers: -1, 0 or 1.
fn sign_of_difference(a: &U256, b: &U256) -> (r: i8)
    ensures
        r == -1 <==> a.to_nat() < b.to_nat(),
        r == 0 <==> a.to_nat() == b.to_nat(),
        r == 1 <==> a.to_nat() > b.to_nat(),
        r == 0 <==> *a == *b,
{
    let mut i: usize = 0;
    while i < 32
        invariant
            i <= 32,
            forall|j: int| 0 <= j < i ==> a@[j] == b@[j],
        decreases 32 - i,
    {
        if a.0[i] < b.0[i] {
            proof {
                lemma_be_value_lex(a@, b@, i as nat, 32);
            }
            return -1;
        }
        if a.0[i] > b.0[i] {
            proof {
                lemma_be_value_lex(b@, a@, i as nat, 32);
            }
            return 1;
        }
        i += 1;
    }
    proof {
        lemma_be_value_ext(a@, b@, 32);
        assert(a.0 =~= b.0);
    }
    0
}

impl PartialEq for U256 {
    /// Byte-wise equality.
    fn eq(&self, other: &U256) -> (r: bool) {
        sign_of_difference(self, other) == 0
    }
}

impl PartialEqSpecImpl for U256 {
    open spec fn obeys_eq_spec() -> bool {
        true
    }

    open spec fn eq_spec(&self, other: &U256) -> bool {
        *self == *other
    }
}

impl Eq for U256 {}

impl PartialOrd for U256 {
    /// Unsigned order of the numbers, which is the lexicographic order of
    /// the big-endian bytes.
    fn partial_cmp(&self, other: &U256) -> (r: Option<Ordering>) {
        let sign = sign_of_difference(self, other);
        if sign < 0 {
            Some(Ordering::Less)
        } else if sign > 0 {
            Some(Ordering::Greater)
        } else {
            Some(Ordering::Equal)
        }
    }
}

impl PartialOrdSpecImpl for U256 {
    open spec fn obeys_partial_cmp_spec() -> bool {
        true
    }

    open spec fn partial_cmp_spec(&self, other: &U256) -> Option<Ordering> {
        if self.to_nat() < other.to_nat() {
            Some(Ordering::Less)
        } else if self.to_nat() > other.to_nat() {
            Some(Ordering::Greater)
        } else {
            Some(Ordering::Equal)
        }
    }
}

} // verus!
