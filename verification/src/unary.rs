//! The unary encoding: a value `k` sets the first `k` bits of the block and
//! clears the others.

use crate::bdd::{assignment, bdd_num_vars, bdd_sat, builder_names, valuations, variable_count};
use crate::symbolic_domain::{
    allocate_block, assigned_pattern, block_names, block_ok, can_allocate, consecutive,
    copy_variables, fits, pattern, positions, unit_set, SymbolicDomain, SymbolicDomainOrd,
};
use biodivine_lib_bdd::{
    Bdd, BddPartialValuation, BddVariable, BddVariableSet, BddVariableSetBuilder,
};
use vstd::prelude::*;

verus! {

/// A domain of the integers from zero to `max` on `max` variables. The value
/// `k` is the valuation whose first `k` variables are true and whose other
/// variables are false.
#[derive(Clone, Debug)]
pub struct UnaryIntegerDomain {
    variables: Vec<BddVariable>,
}

/// The unary pattern of `value` on `width` bits.
pub open spec fn unary_code(width: nat, value: int) -> Seq<bool> {
    Seq::new(width, |i: int| i < value)
}

/// A pattern in which every set bit but the first follows a set bit.
pub open spec fn chained(p: Seq<bool>, upto: int) -> bool {
    forall|j: int| 1 <= j < upto && j < p.len() ==> (#[trigger] p[j] ==> p[j - 1])
}

/// The valuations of `n` variables whose pattern is chained up to `upto`.
pub open spec fn chain_set(n: nat, bits: Seq<int>, upto: int) -> Set<Seq<bool>> {
    Set::new(|val: Seq<bool>| val.len() == n && chained(pattern(bits, val), upto))
}

/// A chained pattern is the unary pattern of the number of its set bits.
pub proof fn lemma_chain_value(p: Seq<bool>) -> (v: int)
    requires
        chained(p, p.len() as int),
    ensures
        0 <= v <= p.len(),
        p == unary_code(p.len(), v),
    decreases p.len(),
{
    if p.len() == 0 {
        assert(p =~= unary_code(0, 0));
        0
    } else {
        let q = p.drop_last();
        assert forall|j: int| 1 <= j < q.len() implies (#[trigger] q[j] ==> q[j - 1]) by {
            assert(q[j] == p[j]);
            assert(q[j - 1] == p[j - 1]);
        }
        let w = lemma_chain_value(q);
        if p.last() {
            if q.len() > 0 {
                assert(p[p.len() - 1] ==> p[p.len() - 2]);
                assert(q[q.len() - 1] == p[p.len() - 2]);
                assert(unary_code(q.len(), w)[q.len() - 1] == (q.len() - 1 < w));
            }
            assert(w == q.len());
            assert forall|i: int| 0 <= i < p.len() implies p[i] == unary_code(
                p.len(),
                p.len() as int,
            )[i] by {
                if i < q.len() {
                    assert(q[i] == unary_code(q.len(), w)[i]);
                }
            }
            assert(p =~= unary_code(p.len(), p.len() as int));
            p.len() as int
        } else {
            assert forall|i: int| 0 <= i < p.len() implies p[i] == unary_code(p.len(), w)[i] by {
                if i < q.len() {
                    assert(q[i] == unary_code(q.len(), w)[i]);
                }
            }
            assert(p =~= unary_code(p.len(), w));
            w
        }
    }
}

impl UnaryIntegerDomain {
    /// The variables of the block.
    pub closed spec fn block(&self) -> Seq<BddVariable> {
        self.variables@
    }

    /// A unary domain for the values up to `max_value`, on new variables of
    /// the builder that are named after `name`.
    pub fn new(builder: &mut BddVariableSetBuilder, name: &str, max_value: u8) -> (d:
        UnaryIntegerDomain)
        requires
            can_allocate(builder_names(*old(builder)), name@, max_value as nat),
        ensures
            d.wf(),
            d.max_spec() == max_value,
            positions(d.variables()) == consecutive(
                builder_names(*old(builder)).len() as int,
                max_value as nat,
            ),
            builder_names(*final(builder)) == builder_names(*old(builder)) + block_names(
                name@,
                max_value as nat,
            ),
    {
        let variables = allocate_block(builder, name, max_value as usize);
        assert(variables@.len() == positions(variables@).len());
        let d = UnaryIntegerDomain { variables };
        proof {
            let bits = positions(d.block());
            assert forall|i: int, j: int|
                0 <= i < bits.len() && 0 <= j < bits.len() && i != j implies bits[i] != bits[j] by {}
        }
        d
    }
}

impl SymbolicDomain for UnaryIntegerDomain {
    open spec fn variables(&self) -> Seq<BddVariable> {
        self.block()
    }

    open spec fn max_spec(&self) -> nat {
        self.block().len()
    }

    open spec fn width(max: nat) -> nat {
        max
    }

    open spec fn table(max: nat) -> Seq<Seq<bool>> {
        Seq::new(max + 1, |v: int| unary_code(max, v))
    }

    open spec fn wf(&self) -> bool {
        &&& self.block().len() <= 255
        &&& block_ok(positions(self.block()), self.block().len())
    }

    proof fn lemma_wf(&self) {
        assert(self.wf());
        assert(block_ok(positions(self.block()), self.block().len()));
        assert(self.variables() == self.block());
        assert(self.max_spec() == self.block().len());
        assert(Self::width(self.max_spec()) == self.block().len());
    }

    proof fn lemma_table(max: nat) {
        assert forall|v: int| 0 <= v <= max implies (#[trigger] Self::table(max)[v]).len()
            == max by {
            assert(Self::table(max)[v] == unary_code(max, v));
        }
        assert forall|a: int, b: int| 0 <= a < b <= max implies #[trigger] Self::table(max)[a]
            != #[trigger] Self::table(max)[b] by {
            assert(Self::table(max)[a][a] == false);
            assert(Self::table(max)[b][a] == true);
        }
    }

    fn new(builder: &mut BddVariableSetBuilder, name: &str, max_value: u8) -> (d: Self) {
        UnaryIntegerDomain::new(builder, name, max_value)
    }

    fn size_for(max_value: u8) -> (r: usize) {
        max_value as usize
    }

    fn max_value(&self) -> (r: u8) {
        self.variables.len() as u8
    }

    fn raw_bdd_variables(&self) -> (r: Vec<BddVariable>) {
        copy_variables(&self.variables)
    }

    fn raw_bdd_variables_encode(&self, value: &u8) -> (r: Vec<bool>) {
        let mut result: Vec<bool> = Vec::new();
        let mut i: usize = 0;
        let width = self.variables.len();
        while i < width
            invariant
                i <= width,
                result@ == unary_code(i as nat, *value as int),
            decreases width - i,
        {
            result.push(i < *value as usize);
            assert(result@ =~= unary_code((i + 1) as nat, *value as int));
            i = i + 1;
        }
        result
    }

    /// Counts the set bits from the first one to the first clear one.
    fn decode_bits(&self, bdd_valuation: &BddPartialValuation) -> (r: u8) {
        let ghost bits = positions(self.block());
        let ghost shown = assigned_pattern(assignment(*bdd_valuation), bits);
        let ghost v = choose|v: int|
            0 <= v < Self::table(self.max_spec()).len() && shown == #[trigger] Self::table(
                self.max_spec(),
            )[v];
        let mut result: usize = 0;
        while result < self.variables.len()
            invariant
                self.wf(),
                result <= self.variables.len(),
                bits == positions(self.block()),
                shown == assigned_pattern(assignment(*bdd_valuation), bits),
                0 <= v <= self.block().len(),
                shown == unary_code(self.block().len(), v),
                forall|k: int|
                    0 <= k < bits.len() ==> assignment(*bdd_valuation).dom().contains(
                        #[trigger] bits[k],
                    ),
                forall|j: int| 0 <= j < result ==> shown[j],
            decreases self.variables.len() - result,
        {
            let variable = self.variables[result];
            assert(assignment(*bdd_valuation).dom().contains(bits[result as int]));
            assert(shown[result as int] == assignment(*bdd_valuation)[bits[result as int]]);
            if !bdd_valuation.get_value(variable).unwrap() {
                proof {
                    if result > 0 {
                        assert(shown[result - 1]);
                    }
                    assert(v == result);
                }
                return result as u8;
            }
            result = result + 1;
        }
        proof {
            if result > 0 {
                assert(shown[result - 1]);
            }
            assert(v == result);
        }
        result as u8
    }

    /// Every set bit but the first must follow a set bit.
    fn unit_collection(&self, variables: &BddVariableSet) -> (r: Bdd) {
        let ghost n = variable_count(*variables);
        let ghost bits = positions(self.block());
        let mut true_set = variables.mk_true();
        let mut k: usize = 1;
        proof {
            assert(bdd_sat(true_set) =~= chain_set(n, bits, 1));
        }
        while k < self.variables.len()
            invariant
                self.wf(),
                fits(positions(self.block()), variable_count(*variables)),
                n == variable_count(*variables),
                bits == positions(self.block()),
                1 <= k,
                bdd_num_vars(true_set) == n,
                bdd_sat(true_set) == chain_set(n, bits, k as int),
            decreases self.variables.len() - k,
        {
            assert(0 <= bits[k as int] < n);
            assert(0 <= bits[k - 1] < n);
            let var_k = self.variables[k];
            let var_k_minus_one = self.variables[k - 1];
            let var_k = variables.mk_var(var_k);
            let var_k_minus_one = variables.mk_var(var_k_minus_one);
            let k_implies_k_minus_one = var_k.imp(&var_k_minus_one);
            let ghost before = bdd_sat(true_set);
            true_set = true_set.and(&k_implies_k_minus_one);
            proof {
                assert forall|val: Seq<bool>| bdd_sat(true_set).contains(val) <==> chain_set(
                    n,
                    bits,
                    k + 1,
                ).contains(val) by {
                    let p = pattern(bits, val);
                    if val.len() == n {
                        assert(p[k as int] == val[bits[k as int]]);
                        assert(p[k - 1] == val[bits[k - 1]]);
                        if chain_set(n, bits, k + 1).contains(val) {
                            assert(p[k as int] ==> p[k - 1]);
                            assert(chained(p, k as int));
                        }
                        if before.contains(val) && (p[k as int] ==> p[k - 1]) {
                            assert(chained(p, k + 1));
                        }
                    }
                }
                assert(bdd_sat(true_set) =~= chain_set(n, bits, k + 1));
            }
            k = k + 1;
        }
        proof {
            let table = Self::table(self.max_spec());
            let width = self.block().len();
            assert forall|val: Seq<bool>| bdd_sat(true_set).contains(val) <==> unit_set(
                n,
                bits,
                table,
            ).contains(val) by {
                let p = pattern(bits, val);
                if bdd_sat(true_set).contains(val) {
                    assert(chained(p, p.len() as int));
                    let v = lemma_chain_value(p);
                    assert(table[v] == unary_code(width, v));
                }
                if unit_set(n, bits, table).contains(val) {
                    let v = choose|v: int|
                        0 <= v < table.len() && 0 <= v < table.len() && pattern(bits, val)
                            == #[trigger] table[v];
                    assert(p == unary_code(width, v));
                    assert(chained(p, k as int));
                }
            }
            assert(bdd_sat(true_set) =~= unit_set(n, bits, table));
        }
        true_set
    }
}

impl SymbolicDomainOrd for UnaryIntegerDomain {
    /// In the unary encoding a value is at most `k` where bit `k` is clear.
    fn encode_le(&self, bdd_variable_set: &BddVariableSet, upper_bound: &u8) -> (r: Bdd) {
        let ghost n = variable_count(*bdd_variable_set);
        let ghost bits = positions(self.block());
        let ghost table = Self::table(self.max_spec());
        let k = *upper_bound as usize;
        if k < self.variables.len() {
            assert(0 <= bits[k as int] < n);
            let bit = bdd_variable_set.mk_var(self.variables[k]);
            let result = bit.not();
            proof {
                assert forall|val: Seq<bool>, v: int|
                    val.len() == n && 0 <= v < table.len() && pattern(bits, val)
                        == #[trigger] table[v] implies (#[trigger] bdd_sat(result).contains(val)
                    <==> 0 <= v < k + 1) by {
                    assert(pattern(bits, val)[k as int] == val[bits[k as int]]);
                    assert(table[v][k as int] == (k < v));
                }
            }
            result
        } else {
            bdd_variable_set.mk_true()
        }
    }
}

} // verus!
