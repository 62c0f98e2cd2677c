//! The one-hot encoding: a value `k` sets bit `k` of the block and clears
//! the others.

use crate::symbolic_domain::{
    allocate_block, block_ok, copy_variables, positions, SymbolicDomain, SymbolicDomainOrd,
};
use biodivine_lib_bdd::{BddVariable, BddVariableSetBuilder};
use vstd::prelude::*;

verus! {

/// A domain of the integers from zero to `max` on `max + 1` variables, of
/// which exactly one is true: the one at the place of the value.
#[derive(Clone, Debug)]
pub struct PetriNetIntegerDomain {
    variables: Vec<BddVariable>,
}

/// The one-hot pattern of `value` on `width` bits.
pub open spec fn one_hot_code(width: nat, value: int) -> Seq<bool> {
    Seq::new(width, |i: int| i == value)
}

impl PetriNetIntegerDomain {
    /// The variables of the block.
    pub closed spec fn block(&self) -> Seq<BddVariable> {
        self.variables@
    }
}

impl SymbolicDomain for PetriNetIntegerDomain {
    open spec fn variables(&self) -> Seq<BddVariable> {
        self.block()
    }

    open spec fn max_spec(&self) -> nat {
        (self.block().len() - 1) as nat
    }

    open spec fn width(max: nat) -> nat {
        max + 1
    }

    open spec fn table(max: nat) -> Seq<Seq<bool>> {
        Seq::new(max + 1, |v: int| one_hot_code(max + 1, v))
    }

    open spec fn wf(&self) -> bool {
        &&& 1 <= self.block().len() <= 256
        &&& block_ok(positions(self.block()), self.block().len())
    }

    proof fn lemma_wf(&self) {
        assert(self.wf());
        assert(block_ok(positions(self.block()), self.block().len()));
        assert(self.variables() == self.block());
        assert(self.max_spec() == self.block().len() - 1);
        assert(Self::width(self.max_spec()) == self.block().len());
    }

    proof fn lemma_table(max: nat) {
        assert forall|v: int| 0 <= v <= max implies (#[trigger] Self::table(max)[v]).len() == max
            + 1 by {
            assert(Self::table(max)[v] == one_hot_code(max + 1, v));
        }
        assert forall|a: int, b: int| 0 <= a < b <= max implies #[trigger] Self::table(max)[a]
            != #[trigger] Self::table(max)[b] by {
            assert(Self::table(max)[a][a] == true);
            assert(Self::table(max)[b][a] == false);
        }
    }

    fn new(builder: &mut BddVariableSetBuilder, name: &str, max_value: u8) -> (d: Self) {
        let variables = allocate_block(builder, name, max_value as usize + 1);
        assert(variables@.len() == positions(variables@).len());
        let d = PetriNetIntegerDomain { variables };
        proof {
            let bits = positions(d.block());
            assert forall|i: int, j: int|
                0 <= i < bits.len() && 0 <= j < bits.len() && i != j implies bits[i] != bits[j] by {}
        }
        d
    }

    fn size_for(max_value: u8) -> (r: usize) {
        max_value as usize + 1
    }

    fn max_value(&self) -> (r: u8) {
        (self.variables.len() - 1) as u8
    }

    fn raw_bdd_variables(&self) -> (r: Vec<BddVariable>) {
        copy_variables(&self.variables)
    }

    fn raw_bdd_variables_encode(&self, value: &u8) -> (r: Vec<bool>) {
        let mut result: Vec<bool> = Vec::new();
        let mut i: usize = 0;
        let width = self.variables.len();
        while i < width
            invariant
                i <= width,
                result@ == one_hot_code(i as nat, *value as int),
            decreases width - i,
        {
            result.push(i == *value as usize);
            assert(result@ =~= one_hot_code((i + 1) as nat, *value as int));
            i = i + 1;
        }
        result
    }
}

impl SymbolicDomainOrd for PetriNetIntegerDomain {

}

} // verus!
