//! The reflected Gray code: the bits of the block are the binary digits of
//! the value combined with the value halved, so that neighbouring values
//! differ in one bit.

use crate::binary::{
    binary_width, bit_of, digits, digits_of, lemma_digits_injective, lemma_high_digits, width_of,
};
use crate::symbolic_domain::{
    allocate_block, block_ok, copy_variables, positions, SymbolicDomain, SymbolicDomainOrd,
};
use biodivine_lib_bdd::{BddVariable, BddVariableSetBuilder};
use vstd::prelude::*;

verus! {

/// The number whose binary digits are the Gray code of `x`.
pub open spec fn gray(x: u8) -> u8 {
    x ^ (x >> 1u8)
}

/// The Gray code of a number up to `max` has no digit beyond the width of
/// `max`.
pub proof fn lemma_gray_high_digits(x: u8, max: nat, i: int)
    requires
        x <= max <= 255,
        binary_width(max) <= i < 8,
    ensures
        !bit_of(gray(x), i),
{
    let k = i as u8;
    assert forall|j: int| i <= j < 8 implies !bit_of(x, j) by {
        lemma_high_digits(x, max, j);
    }
    assert(!bit_of(x, i));
    if i < 7 {
        assert(!bit_of(x, i + 1));
        let k1 = (i + 1) as u8;
        assert(((x ^ (x >> 1u8)) >> k) & 1u8 == 0u8) by (bit_vector)
            requires
                k < 7,
                k1 == k + 1,
                (x >> k) & 1u8 != 1u8,
                (x >> k1) & 1u8 != 1u8,
        ;
    } else {
        assert(((x ^ (x >> 1u8)) >> k) & 1u8 == 0u8) by (bit_vector)
            requires
                k == 7,
                (x >> k) & 1u8 != 1u8,
        ;
    }
}

/// Two numbers with the same Gray code are the same number.
pub proof fn lemma_gray_injective(x: u8, y: u8)
    requires
        gray(x) == gray(y),
    ensures
        x == y,
{
    assert(x == y) by (bit_vector)
        requires
            x ^ (x >> 1u8) == y ^ (y >> 1u8),
    ;
}

/// A domain of the integers from zero to `max` in the reflected Gray code,
/// on as many variables as the binary numeral of `max` has digits.
#[derive(Clone, Debug)]
pub struct GrayCodeIntegerDomain {
    variables: Vec<BddVariable>,
    max_value: u8,
}

impl GrayCodeIntegerDomain {
    /// The variables of the block.
    pub closed spec fn block(&self) -> Seq<BddVariable> {
        self.variables@
    }

    /// The largest value.
    pub closed spec fn top(&self) -> nat {
        self.max_value as nat
    }
}

impl SymbolicDomain for GrayCodeIntegerDomain {
    open spec fn variables(&self) -> Seq<BddVariable> {
        self.block()
    }

    open spec fn max_spec(&self) -> nat {
        self.top()
    }

    open spec fn width(max: nat) -> nat {
        binary_width(max)
    }

    open spec fn table(max: nat) -> Seq<Seq<bool>> {
        Seq::new(max + 1, |v: int| digits(gray(v as u8), binary_width(max)))
    }

    open spec fn wf(&self) -> bool {
        &&& self.top() <= 255
        &&& block_ok(positions(self.block()), binary_width(self.top()))
    }

    proof fn lemma_wf(&self) {
        assert(self.wf());
        assert(self.variables() == self.block());
        assert(Self::width(self.max_spec()) == binary_width(self.top()));
    }

    proof fn lemma_table(max: nat) {
        let w = binary_width(max);
        assert forall|v: int| 0 <= v <= max implies (#[trigger] Self::table(max)[v]).len()
            == w by {
            assert(Self::table(max)[v] == digits(gray(v as u8), w));
        }
        assert forall|a: int, b: int| 0 <= a < b <= max implies #[trigger] Self::table(max)[a]
            != #[trigger] Self::table(max)[b] by {
            let x = a as u8;
            let y = b as u8;
            if Self::table(max)[a] == Self::table(max)[b] {
                assert forall|i: int| 0 <= i < 8 implies bit_of(gray(x), i) == bit_of(
                    gray(y),
                    i,
                ) by {
                    if i < w {
                        assert(digits(gray(x), w)[i] == bit_of(gray(x), i));
                        assert(digits(gray(y), w)[i] == bit_of(gray(y), i));
                    } else {
                        lemma_gray_high_digits(x, max, i);
                        lemma_gray_high_digits(y, max, i);
                    }
                }
                lemma_digits_injective(gray(x), gray(y));
                lemma_gray_injective(x, y);
            }
        }
    }

    fn new(builder: &mut BddVariableSetBuilder, name: &str, max_value: u8) -> (d: Self) {
        let variables = allocate_block(builder, name, width_of(max_value));
        assert(variables@.len() == positions(variables@).len());
        let d = GrayCodeIntegerDomain { variables, max_value };
        proof {
            let bits = positions(d.block());
            assert forall|i: int, j: int|
                0 <= i < bits.len() && 0 <= j < bits.len() && i != j implies bits[i] != bits[j] by {}
        }
        d
    }

    fn size_for(max_value: u8) -> (r: usize) {
        width_of(max_value)
    }

    fn max_value(&self) -> (r: u8) {
        self.max_value
    }

    fn raw_bdd_variables(&self) -> (r: Vec<BddVariable>) {
        copy_variables(&self.variables)
    }

    fn raw_bdd_variables_encode(&self, value: &u8) -> (r: Vec<bool>) {
        let code = *value ^ (*value >> 1u8);
        digits_of(code, width_of(self.max_value))
    }
}

impl SymbolicDomainOrd for GrayCodeIntegerDomain {

}

} // verus!
