//! The binary encoding: the bits of the block are the binary digits of the
//! value, the lowest first.

use crate::symbolic_domain::{
    allocate_block, block_ok, copy_variables, positions, SymbolicDomain, SymbolicDomainOrd,
};
use biodivine_lib_bdd::{BddVariable, BddVariableSetBuilder};
use vstd::prelude::*;

verus! {

/// The number of binary digits that the values up to `max` take.
pub open spec fn binary_width(max: nat) -> nat {
    if max == 0 {
        0
    } else if max < 2 {
        1
    } else if max < 4 {
        2
    } else if max < 8 {
        3
    } else if max < 16 {
        4
    } else if max < 32 {
        5
    } else if max < 64 {
        6
    } else if max < 128 {
        7
    } else {
        8
    }
}

/// Binary digit `i` of `x`, the lowest being digit zero.
pub open spec fn bit_of(x: u8, i: int) -> bool {
    0 <= i < 8 && (x >> (i as u8)) & 1u8 == 1u8
}

/// The lowest `width` binary digits of `x`, the lowest first.
pub open spec fn digits(x: u8, width: nat) -> Seq<bool> {
    Seq::new(width, |i: int| bit_of(x, i))
}

/// A number up to `max` has no digit beyond the width of `max`.
pub proof fn lemma_high_digits(x: u8, max: nat, i: int)
    requires
        x <= max <= 255,
        binary_width(max) <= i < 8,
    ensures
        !bit_of(x, i),
{
    let w = binary_width(max) as u8;
    let k = i as u8;
    assert(x < (1u8 << w)) by {
        assert((1u8 << 0u8) == 1 && (1u8 << 1u8) == 2 && (1u8 << 2u8) == 4 && (1u8 << 3u8) == 8 && (
        1u8 << 4u8) == 16 && (1u8 << 5u8) == 32 && (1u8 << 6u8) == 64 && (1u8 << 7u8) == 128)
            by (bit_vector);
    }
    assert((x >> k) & 1u8 == 0u8) by (bit_vector)
        requires
            w <= k < 8,
            x < (1u8 << w),
    ;
}

/// Two numbers with the same eight digits are the same number.
pub proof fn lemma_digits_injective(x: u8, y: u8)
    requires
        forall|i: int| 0 <= i < 8 ==> bit_of(x, i) == bit_of(y, i),
    ensures
        x == y,
{
    assert(bit_of(x, 0) == bit_of(y, 0));
    assert(bit_of(x, 1) == bit_of(y, 1));
    assert(bit_of(x, 2) == bit_of(y, 2));
    assert(bit_of(x, 3) == bit_of(y, 3));
    assert(bit_of(x, 4) == bit_of(y, 4));
    assert(bit_of(x, 5) == bit_of(y, 5));
    assert(bit_of(x, 6) == bit_of(y, 6));
    assert(bit_of(x, 7) == bit_of(y, 7));
    assert(x == y) by (bit_vector)
        requires
            ((x >> 0u8) & 1u8 == 1u8) == ((y >> 0u8) & 1u8 == 1u8),
            ((x >> 1u8) & 1u8 == 1u8) == ((y >> 1u8) & 1u8 == 1u8),
            ((x >> 2u8) & 1u8 == 1u8) == ((y >> 2u8) & 1u8 == 1u8),
            ((x >> 3u8) & 1u8 == 1u8) == ((y >> 3u8) & 1u8 == 1u8),
            ((x >> 4u8) & 1u8 == 1u8) == ((y >> 4u8) & 1u8 == 1u8),
            ((x >> 5u8) & 1u8 == 1u8) == ((y >> 5u8) & 1u8 == 1u8),
            ((x >> 6u8) & 1u8 == 1u8) == ((y >> 6u8) & 1u8 == 1u8),
            ((x >> 7u8) & 1u8 == 1u8) == ((y >> 7u8) & 1u8 == 1u8),
    ;
}

/// The width of a maximum, computed.
pub fn width_of(max: u8) -> (r: usize)
    ensures
        r == binary_width(max as nat),
{
    if max == 0 {
        0
    } else if max < 2 {
        1
    } else if max < 4 {
        2
    } else if max < 8 {
        3
    } else if max < 16 {
        4
    } else if max < 32 {
        5
    } else if max < 64 {
        6
    } else if max < 128 {
        7
    } else {
        8
    }
}

/// The lowest `width` binary digits of `x`, computed.
pub fn digits_of(x: u8, width: usize) -> (r: Vec<bool>)
    requires
        width <= 8,
    ensures
        r@ == digits(x, width as nat),
{
    let mut result: Vec<bool> = Vec::new();
    let mut i: usize = 0;
    while i < width
        invariant
            i <= width <= 8,
            result@ == digits(x, i as nat),
        decreases width - i,
    {
        let shift = i as u8;
        result.push((x >> shift) & 1u8 == 1u8);
        assert(result@ =~= digits(x, (i + 1) as nat));
        i = i + 1;
    }
    result
}

/// A domain of the integers from zero to `max` on as many variables as the
/// binary numeral of `max` has digits.
#[derive(Clone, Debug)]
pub struct BinaryIntegerDomain {
    variables: Vec<BddVariable>,
    max_value: u8,
}

impl BinaryIntegerDomain {
    /// The variables of the block.
    pub closed spec fn block(&self) -> Seq<BddVariable> {
        self.variables@
    }

    /// The largest value.
    pub closed spec fn top(&self) -> nat {
        self.max_value as nat
    }
}

impl SymbolicDomain for BinaryIntegerDomain {
    open spec fn variables(&self) -> Seq<BddVariable> {
        self.block()
    }

    open spec fn max_spec(&self) -> nat {
        self.top()
    }

    open spec fn width(max: nat) -> nat {
        binary_width(max)
    }

    open spec fn table(max: nat) -> Seq<Seq<bool>> {
        Seq::new(max + 1, |v: int| digits(v as u8, binary_width(max)))
    }

    open spec fn wf(&self) -> bool {
        &&& self.top() <= 255
        &&& block_ok(positions(self.block()), binary_width(self.top()))
    }

    proof fn lemma_wf(&self) {
        assert(self.wf());
        assert(self.variables() == self.block());
        assert(Self::width(self.max_spec()) == binary_width(self.top()));
    }

    proof fn lemma_table(max: nat) {
        let w = binary_width(max);
        assert forall|v: int| 0 <= v <= max implies (#[trigger] Self::table(max)[v]).len()
            == w by {
            assert(Self::table(max)[v] == digits(v as u8, w));
        }
        assert forall|a: int, b: int| 0 <= a < b <= max implies #[trigger] Self::table(max)[a]
            != #[trigger] Self::table(max)[b] by {
            let x = a as u8;
            let y = b as u8;
            if Self::table(max)[a] == Self::table(max)[b] {
                assert forall|i: int| 0 <= i < 8 implies bit_of(x, i) == bit_of(y, i) by {
                    if i < w {
                        assert(digits(x, w)[i] == bit_of(x, i));
                        assert(digits(y, w)[i] == bit_of(y, i));
                    } else {
                        lemma_high_digits(x, max, i);
                        lemma_high_digits(y, max, i);
                    }
                }
                lemma_digits_injective(x, y);
            }
        }
    }

    fn new(builder: &mut BddVariableSetBuilder, name: &str, max_value: u8) -> (d: Self) {
        let variables = allocate_block(builder, name, width_of(max_value));
        assert(variables@.len() == positions(variables@).len());
        let d = BinaryIntegerDomain { variables, max_value };
        proof {
            let bits = positions(d.block());
            assert forall|i: int, j: int|
                0 <= i < bits.len() && 0 <= j < bits.len() && i != j implies bits[i] != bits[j] by {}
        }
        d
    }

    fn size_for(max_value: u8) -> (r: usize) {
        width_of(max_value)
    }

    fn max_value(&self) -> (r: u8) {
        self.max_value
    }

    fn raw_bdd_variables(&self) -> (r: Vec<BddVariable>) {
        copy_variables(&self.variables)
    }

    fn raw_bdd_variables_encode(&self, value: &u8) -> (r: Vec<bool>) {
        digits_of(*value, width_of(self.max_value))
    }
}

impl SymbolicDomainOrd for BinaryIntegerDomain {

}

} // verus!
