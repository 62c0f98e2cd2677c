//! The transition system of a network: for each variable a domain for its
//! value, a domain for its next value, and the relation between a state and
//! the next value, with the operators that step forwards and backwards.

use crate::bdd::{
    assignment, bdd_num_vars, bdd_sat, clause_set, dot_drawing, new_builder, recall_width,
    sat_witness, valuations, var_index, variable_count,
};
use crate::image::{image_backward, image_forward, paired_set, post_image, pre_image, twin_blocks};
use crate::order::{sort_by_name, sorted_model};
use crate::relation::{
    allocate_domains, clean_name, legal_set, lemma_offset_rises, offset, pairing_of, step_set,
    transition_relation_of, unit_of,
};
use crate::symbolic_domain::{
    coded_set, consecutive, fits, positions, SymbolicDomain, SymbolicDomainOrd,
};
use crate::unprocessed::{
    find_max_values, is_max_value, mentions, names_of, UnprocessedVariableUpdateFn,
};
use crate::bdd::same_outside;
use crate::counting::total_width;
use crate::image::{block_set, lemma_indices};
use crate::names::primed;
use crate::relation::lemma_next_value_yields;
use crate::symbolic_domain::{lemma_index_of, pattern};
use crate::variable_update_fn::{
    blocks_of, distinct_rows, domains_fit, encodes, find_name, known, legal, lemma_tables,
    lemma_value_in, names_view, shows, state_of, tables_of, value_in,
};
use biodivine_lib_bdd::{Bdd, BddPartialValuation, BddVariable, BddVariableSet};
use vstd::prelude::*;

verus! {

/// The transition system of a network, in the encoding `D`.
pub struct SmartSystemUpdateFn<D: SymbolicDomainOrd> {
    names: Vec<String>,
    primed_names: Vec<String>,
    domains: Vec<D>,
    primed_domains: Vec<D>,
    transition_relations: Vec<Bdd>,
    pairings: Vec<Bdd>,
    bdd_variable_set: BddVariableSet,
    network: Ghost<Seq<(String, UnprocessedVariableUpdateFn)>>,
}

/// Every guard of the network speaks of variables of the network only.
pub open spec fn closed_network(model: Seq<(String, UnprocessedVariableUpdateFn)>) -> bool {
    forall|i: int, j: int, name: Seq<char>, v: int|
        0 <= i < model.len() && 0 <= j < model[i].1.terms@.len() && #[trigger] model[i].1.terms@[j].1.compares_with(
            name,
            v,
        ) ==> names_of(model).contains(name)
}

/// A network, in the order of its names, of which a system can be built
/// in the encoding `D`: no two variables share a name, no name holds a tick
/// or a character that a variable set refuses, every guard speaks of
/// variables of the network, and the bits of all variables and their primed
/// twins are fewer than 65534.
pub open spec fn network_ok<D: SymbolicDomain>(
    model: Seq<(String, UnprocessedVariableUpdateFn)>,
) -> bool {
    &&& names_of(model).no_duplicates()
    &&& forall|i: int| 0 <= i < model.len() ==> clean_name(#[trigger] names_of(model)[i])
    &&& closed_network(model)
    &&& forall|maxes: Seq<u8>|
        maxes.len() == model.len() && (forall|i: int|
            0 <= i < model.len() ==> is_max_value(model, i, #[trigger] maxes[i] as int))
            ==> #[trigger] offset::<D>(maxes, model.len() as int) < 65534
}

/// No position of block `i` of the first list is a position of block `j`
/// of the second.
pub open spec fn apart(first: Seq<Seq<int>>, i: int, second: Seq<Seq<int>>, j: int) -> bool {
    forall|a: int, b: int|
        0 <= a < first[i].len() && 0 <= b < second[j].len() ==> #[trigger] first[i][a]
            != #[trigger] second[j][b]
}

/// The variables of the first `upto` domains, one block after the other.
pub open spec fn flat_variables<D: SymbolicDomain>(domains: Seq<D>, upto: int) -> Seq<BddVariable>
    decreases upto,
{
    if upto <= 0 {
        Seq::empty()
    } else {
        flat_variables(domains, upto - 1) + domains[upto - 1].variables()
    }
}

/// The positions of all blocks of a list, as a set.
pub open spec fn covered(blocks: Seq<Seq<int>>, upto: int) -> Set<int> {
    Set::new(
        |k: int|
            exists|i: int, a: int|
                0 <= i < upto && 0 <= a < blocks[i].len() && #[trigger] blocks[i][a] == k,
    )
}

/// The valuations of `n` variables that agree with `w` on the positions
/// of `on`: the class of `w` where the other positions are left free.
pub open spec fn class_of(n: nat, on: Set<int>, w: Seq<bool>) -> Set<Seq<bool>> {
    Set::new(
        |t: Seq<bool>|
            t.len() == n && forall|k: int| 0 <= k < n && on.contains(k) ==> #[trigger] t[k] == w[k],
    )
}

/// The flat list of variables holds the positions of the blocks, and no
/// others.
pub proof fn lemma_flat_positions<D: SymbolicDomain>(domains: Seq<D>, upto: int)
    requires
        0 <= upto <= domains.len(),
    ensures
        forall|k: int|
            positions(flat_variables(domains, upto)).contains(k) <==> covered(
                blocks_of(domains),
                upto,
            ).contains(k),
    decreases upto,
{
    let flat = positions(flat_variables(domains, upto));
    let blocks = blocks_of(domains);
    if upto > 0 {
        lemma_flat_positions(domains, upto - 1);
        let shorter = positions(flat_variables(domains, upto - 1));
        let last = domains[upto - 1].variables();
        assert(flat_variables(domains, upto) == flat_variables(domains, upto - 1) + last);
        assert forall|k: int| flat.contains(k) <==> covered(blocks, upto).contains(k) by {
            if flat.contains(k) {
                let q = choose|q: int| 0 <= q < flat.len() && flat[q] == k;
                if q < shorter.len() {
                    assert(shorter[q] == k);
                    assert(shorter.contains(k));
                    assert(covered(blocks, upto - 1).contains(k));
                    let (i, a) = choose|i: int, a: int|
                        0 <= i < upto - 1 && 0 <= a < blocks[i].len() && #[trigger] blocks[i][a]
                            == k;
                    assert(0 <= i < upto && blocks[i][a] == k);
                } else {
                    let a = q - shorter.len();
                    assert(blocks[upto - 1][a] == k);
                }
            }
            if covered(blocks, upto).contains(k) {
                let (i, a) = choose|i: int, a: int|
                    0 <= i < upto && 0 <= a < blocks[i].len() && #[trigger] blocks[i][a] == k;
                if i < upto - 1 {
                    assert(covered(blocks, upto - 1).contains(k));
                    assert(shorter.contains(k));
                    let q = choose|q: int| 0 <= q < shorter.len() && shorter[q] == k;
                    assert(flat[q] == k);
                } else {
                    assert(flat[shorter.len() + a] == k);
                }
            }
        }
    } else {
        assert forall|k: int| flat.contains(k) <==> covered(blocks, upto).contains(k) by {}
    }
}

/// In a list without repetition, a name is found at its own place.
pub proof fn lemma_name_index(names: Seq<Seq<char>>, i: int)
    requires
        names.no_duplicates(),
        0 <= i < names.len(),
    ensures
        names.contains(names[i]),
        names.index_of(names[i]) == i,
{
    let j = names.index_of(names[i]);
    assert(0 <= j < names.len() && names[j] == names[i]);
}

/// The block of a variable and the block of its primed twin lie side by
/// side, before the blocks of every later variable and within the bits of
/// all variables.
pub proof fn lemma_layout<D: SymbolicDomain>(maxes: Seq<u8>, i: int, j: int)
    requires
        0 <= i < j <= maxes.len(),
    ensures
        0 <= offset::<D>(maxes, i),
        offset::<D>(maxes, i) + 2 * D::width(maxes[i] as nat) <= offset::<D>(maxes, j),
{
    lemma_offset_rises::<D>(maxes, i, i);
    lemma_offset_rises::<D>(maxes, i + 1, j);
    assert(offset::<D>(maxes, i + 1) == offset::<D>(maxes, i) + 2 * D::width(maxes[i] as nat));
}

/// The position of the first bit of variable `i` where every variable
/// before it takes its block twice: once for its value and once, right
/// behind it, for its next value.
pub open spec fn start_of(blocks: Seq<Seq<int>>, i: int) -> int
    decreases i,
{
    if i <= 0 {
        0
    } else {
        start_of(blocks, i - 1) + 2 * blocks[i - 1].len()
    }
}

/// Block `i` starts where the blocks before it end, and the primed block
/// follows it.
pub open spec fn is_layout(blocks: Seq<Seq<int>>, primed_blocks: Seq<Seq<int>>, i: int) -> bool {
    &&& blocks[i] == consecutive(start_of(blocks, i), blocks[i].len())
    &&& primed_blocks[i] == consecutive(start_of(blocks, i) + blocks[i].len(), blocks[i].len())
}

/// Where every block has the width of its maximum, the blocks start at
/// the offsets of the maxima.
pub proof fn lemma_start_is_offset<D: SymbolicDomain>(
    blocks: Seq<Seq<int>>,
    maxes: Seq<u8>,
    upto: int,
)
    requires
        0 <= upto <= blocks.len(),
        blocks.len() == maxes.len(),
        forall|j: int|
            0 <= j < blocks.len() ==> (#[trigger] blocks[j]).len() == D::width(maxes[j] as nat),
    ensures
        start_of(blocks, upto) == offset::<D>(maxes, upto),
    decreases upto,
{
    if upto > 0 {
        lemma_start_is_offset::<D>(blocks, maxes, upto - 1);
    }
}

/// The unprimed blocks take half of the bits of all variables.
pub proof fn lemma_total_width<D: SymbolicDomain>(blocks: Seq<Seq<int>>, maxes: Seq<u8>, upto: int)
    requires
        0 <= upto <= blocks.len(),
        blocks.len() == maxes.len(),
        forall|j: int|
            0 <= j < blocks.len() ==> (#[trigger] blocks[j]).len() == D::width(maxes[j] as nat),
    ensures
        2 * total_width(blocks, upto) == offset::<D>(maxes, upto),
    decreases upto,
{
    if upto > 0 {
        lemma_total_width::<D>(blocks, maxes, upto - 1);
    }
}

/// In a network whose tables hold every value that it mentions, every
/// guard is known.
pub proof fn lemma_guards_known(
    model: Seq<(String, UnprocessedVariableUpdateFn)>,
    tables: Seq<Seq<Seq<bool>>>,
    i: int,
    j: int,
)
    requires
        names_of(model).no_duplicates(),
        closed_network(model),
        tables.len() == model.len(),
        forall|k: int, v: int|
            0 <= k < model.len() && #[trigger] mentions(model, k, v) ==> v < tables[k].len(),
        0 <= i < model.len(),
        0 <= j < model[i].1.terms@.len(),
    ensures
        known(&model[i].1.terms@[j].1, names_of(model), tables),
{
    let names = names_of(model);
    let e = &model[i].1.terms@[j].1;
    assert forall|name: Seq<char>, v: int| #[trigger] e.compares_with(name, v) implies names.contains(
        name,
    ) && 0 <= v < tables[names.index_of(name)].len() by {
        crate::expression::lemma_compared_values(e, name, v);
        assert(model[i].1.terms@[j].1.compares_with(name, v));
        assert(names.contains(name));
        let k = names.index_of(name);
        assert(0 <= k < names.len() && names[k] == name);
        assert(model[i].1.compares_with(model[k].0@, v));
        assert(mentions(model, k, v));
    }
}

impl<D: SymbolicDomainOrd> SmartSystemUpdateFn<D> {
    /// The system of a network that is in the order of its names.
    pub fn from_sorted(named_update_fns_sorted: Vec<(String, UnprocessedVariableUpdateFn)>) -> (r:
        Self)
        requires
            network_ok::<D>(named_update_fns_sorted@),
        ensures
            r.wf(),
            r.model() == named_update_fns_sorted@,
    {
        let sorted = named_update_fns_sorted;
        let ghost model = sorted@;
        let ghost all = names_of(model);
        let ghost count = model.len() as int;
        let max_values = find_max_values(&sorted);
        let ghost maxes = max_values@;
        let mut bdd_variable_set_builder = new_builder();
        let (names, primed_names, domains, primed_domains) = allocate_domains::<D>(
            &mut bdd_variable_set_builder,
            &sorted,
            &max_values,
        );
        let bdd_variable_set = bdd_variable_set_builder.build();
        let ghost n = variable_count(bdd_variable_set);
        let ghost blocks = blocks_of(domains@);
        let ghost primed_blocks = blocks_of(primed_domains@);
        let ghost tables = tables_of(domains@);
        proof {
            assert(n == offset::<D>(maxes, count));
            assert forall|i: int| 0 <= i < count implies {
                &&& blocks[i] == consecutive(offset::<D>(maxes, i), D::width(maxes[i] as nat))
                &&& primed_blocks[i] == consecutive(
                    offset::<D>(maxes, i) + D::width(maxes[i] as nat),
                    D::width(maxes[i] as nat),
                )
                &&& 0 <= offset::<D>(maxes, i)
                &&& offset::<D>(maxes, i) + 2 * D::width(maxes[i] as nat) <= n
            } by {
                assert(domains@[i].wf());
                assert(primed_domains@[i].wf());
                lemma_layout::<D>(maxes, i, count);
            }
            assert forall|i: int| 0 <= i < count implies (#[trigger] domains@[i]).wf() && fits(
                positions(domains@[i].variables()),
                n,
            ) by {
                assert(blocks[i] == positions(domains@[i].variables()));
            }
            assert forall|i: int| 0 <= i < count implies (#[trigger] primed_domains@[i]).wf()
                && fits(positions(primed_domains@[i].variables()), n) by {
                assert(primed_blocks[i] == positions(primed_domains@[i].variables()));
            }
            assert forall|i: int| 0 <= i < count implies twin_blocks(
                #[trigger] blocks[i],
                primed_blocks[i],
                n,
            ) by {
                assert(blocks[i] == consecutive(offset::<D>(maxes, i), D::width(maxes[i] as nat)));
            }
            assert forall|i: int, j: int|
                0 <= i < count && 0 <= j < count && i != j implies #[trigger] apart(
                blocks,
                i,
                blocks,
                j,
            ) by {
                if i < j {
                    lemma_layout::<D>(maxes, i, j);
                } else {
                    lemma_layout::<D>(maxes, j, i);
                }
                assert(blocks[i] == consecutive(offset::<D>(maxes, i), D::width(maxes[i] as nat)));
                assert(blocks[j] == consecutive(offset::<D>(maxes, j), D::width(maxes[j] as nat)));
            }
            assert forall|i: int, j: int| 0 <= i < count && 0 <= j < count implies #[trigger] apart(
                blocks,
                i,
                primed_blocks,
                j,
            ) by {
                if i < j {
                    lemma_layout::<D>(maxes, i, j);
                } else if j < i {
                    lemma_layout::<D>(maxes, j, i);
                }
                assert(blocks[i] == consecutive(offset::<D>(maxes, i), D::width(maxes[i] as nat)));
                assert(primed_blocks[j] == consecutive(
                    offset::<D>(maxes, j) + D::width(maxes[j] as nat),
                    D::width(maxes[j] as nat),
                ));
            }
            assert forall|k: int, v: int|
                0 <= k < count && #[trigger] mentions(model, k, v) implies v < tables[k].len() by {
                assert(is_max_value(model, k, maxes[k] as int));
                lemma_tables(domains@, n, k);
            }
            assert forall|j: int| 0 <= j < blocks.len() implies (#[trigger] blocks[j]).len()
                == D::width(maxes[j] as nat) by {
                assert(blocks[j] == consecutive(
                    offset::<D>(maxes, j),
                    D::width(maxes[j] as nat),
                ));
            }
            lemma_total_width::<D>(blocks, maxes, count);
            assert forall|k: int| 0 <= k < count implies #[trigger] is_layout(
                blocks,
                primed_blocks,
                k,
            ) by {
                lemma_start_is_offset::<D>(blocks, maxes, k);
                assert(blocks[k] == consecutive(offset::<D>(maxes, k), D::width(maxes[k] as nat)));
                assert(primed_blocks[k] == consecutive(
                    offset::<D>(maxes, k) + D::width(maxes[k] as nat),
                    D::width(maxes[k] as nat),
                ));
            }
        }
        let unit = unit_of(&domains, &bdd_variable_set);
        let mut transition_relations: Vec<Bdd> = Vec::new();
        let mut pairings: Vec<Bdd> = Vec::new();
        let mut i: usize = 0;
        while i < sorted.len()
            invariant
                i <= count,
                model == sorted@,
                count == model.len(),
                all == names_of(model),
                n == variable_count(bdd_variable_set),
                blocks == blocks_of(domains@),
                primed_blocks == blocks_of(primed_domains@),
                tables == tables_of(domains@),
                names@.len() == count,
                primed_names@.len() == count,
                forall|k: int|
                    0 <= k < count ==> (#[trigger] primed_names@[k])@ == primed(model[k].0@),
                domains@.len() == count,
                primed_domains@.len() == count,
                names_view(names@) == all,
                all.no_duplicates(),
                closed_network(model),
                domains_fit(domains@, n),
                domains_fit(primed_domains@, n),
                forall|k: int|
                    0 <= k < count ==> (#[trigger] primed_domains@[k]).max_spec()
                        == domains@[k].max_spec(),
                forall|k: int, v: int|
                    0 <= k < count && #[trigger] mentions(model, k, v) ==> v < tables[k].len(),
                bdd_num_vars(unit) == n,
                bdd_sat(unit) == legal_set(n, blocks, tables),
                2 * total_width(blocks, count) == n,
                forall|k: int| 0 <= k < count ==> #[trigger] is_layout(blocks, primed_blocks, k),
                transition_relations@.len() == i,
                pairings@.len() == i,
                forall|k: int|
                    0 <= k < i ==> bdd_num_vars(#[trigger] transition_relations@[k]) == n
                        && bdd_sat(transition_relations@[k]) == step_set(
                        n,
                        blocks,
                        tables,
                        all,
                        &model[k].1,
                        primed_blocks[k],
                        tables[k],
                    ),
                forall|k: int|
                    0 <= k < i ==> bdd_num_vars(#[trigger] pairings@[k]) == n && bdd_sat(
                        pairings@[k],
                    ) == paired_set(
                        n,
                        positions(domains@[k].variables()),
                        positions(primed_domains@[k].variables()),
                    ),
            decreases count - i,
        {
            proof {
                lemma_name_index(all, i as int);
                assert(all[i as int] == names@[i as int]@);
                assert forall|j: int| 0 <= j < sorted@[i as int].1.terms@.len() implies known(
                    &(#[trigger] sorted@[i as int].1.terms@[j]).1,
                    all,
                    tables,
                ) by {
                    lemma_guards_known(model, tables, i as int, j);
                }
                assert forall|v: int| sorted@[i as int].1.yields(v) implies 0 <= v
                    < tables[i as int].len() by {
                    assert(mentions(model, i as int, v));
                }
                assert(domains@[i as int].wf());
                assert(primed_domains@[i as int].wf());
            }
            let relation = transition_relation_of(
                &sorted[i].1,
                names[i].as_str(),
                &names,
                &domains,
                &primed_domains[i],
                &unit,
                &bdd_variable_set,
            );
            let block = domains[i].raw_bdd_variables();
            let primed_block = primed_domains[i].raw_bdd_variables();
            proof {
                domains@[i as int].lemma_wf();
                primed_domains@[i as int].lemma_wf();
                assert(positions(block@).len() == block@.len());
                assert(positions(primed_block@).len() == primed_block@.len());
            }
            let pairing = pairing_of(&block, &primed_block, &bdd_variable_set);
            let ghost relations_before = transition_relations@;
            let ghost pairings_before = pairings@;
            transition_relations.push(relation);
            pairings.push(pairing);
            proof {
                assert forall|k: int| 0 <= k < i + 1 implies bdd_num_vars(
                    #[trigger] transition_relations@[k],
                ) == n && bdd_sat(transition_relations@[k]) == step_set(
                    n,
                    blocks,
                    tables,
                    all,
                    &model[k].1,
                    primed_blocks[k],
                    tables[k],
                ) by {
                    if k < i {
                        assert(transition_relations@[k] == relations_before[k]);
                    }
                }
                assert forall|k: int| 0 <= k < i + 1 implies bdd_num_vars(#[trigger] pairings@[k])
                    == n && bdd_sat(pairings@[k]) == paired_set(
                    n,
                    positions(domains@[k].variables()),
                    positions(primed_domains@[k].variables()),
                ) by {
                    if k < i {
                        assert(pairings@[k] == pairings_before[k]);
                    }
                }
            }
            i = i + 1;
        }
        let result = Self {
            names,
            primed_names,
            domains,
            primed_domains,
            transition_relations,
            pairings,
            bdd_variable_set,
            network: Ghost(model),
        };
        proof {
            assert(result.model() == model);
            assert forall|k: int| 0 <= k < count implies #[trigger] result.primed_names()[k]
                == primed(result.names()[k]) by {
                assert(result.primed_names@[k]@ == primed(model[k].0@));
            }
            assert(result.blocks() == blocks);
            assert(result.primed_blocks() == primed_blocks);
            assert(result.tables() == tables);
            assert forall|k: int, v: int|
                0 <= k < count && #[trigger] mentions(model, k, v) implies 0 <= v
                <= result.domains()[k].max_spec() by {
                assert(is_max_value(model, k, maxes[k] as int));
                if model[k].1.yields(v) {
                } else {
                    let f = choose|f: int|
                        0 <= f < model.len() && (#[trigger] model[f]).1.compares_with(
                            model[k].0@,
                            v,
                        );
                    let t = choose|t: int|
                        0 <= t < model[f].1.terms@.len() && (
                        #[trigger] model[f].1.terms@[t]).1.compares_with(model[k].0@, v);
                    crate::expression::lemma_compared_values(
                        &model[f].1.terms@[t].1,
                        model[k].0@,
                        v,
                    );
                }
            }
            assert forall|k: int| 0 <= k < count implies is_max_value(
                result.model(),
                k,
                (#[trigger] result.domains()[k]).max_spec() as int,
            ) by {
                assert(is_max_value(model, k, maxes[k] as int));
            }
            assert(2 * total_width(blocks, count) == n);
            assert forall|k: int| 0 <= k < count implies #[trigger] result.relation(k) == step_set(
                n,
                blocks,
                tables,
                all,
                &model[k].1,
                primed_blocks[k],
                tables[k],
            ) by {
                assert(bdd_num_vars(result.transition_relations@[k]) == n);
            }
        }
        result
    }

    /// The system of a network. The variables are taken in the order of
    /// their names.
    pub fn from_update_fns(vars_and_their_update_fns: Vec<(String, UnprocessedVariableUpdateFn)>) -> (r:
        Self)
        requires
            network_ok::<D>(sorted_model(vars_and_their_update_fns@)),
        ensures
            r.wf(),
            r.model() == sorted_model(vars_and_their_update_fns@),
    {
        let named_update_fns_sorted = sort_by_name(vars_and_their_update_fns);
        Self::from_sorted(named_update_fns_sorted)
    }

    /// The network that the system was built of, in the order of its names.
    pub closed spec fn model(&self) -> Seq<(String, UnprocessedVariableUpdateFn)> {
        self.network@
    }

    /// The number of variables of the decision diagrams of the system.
    pub closed spec fn num_vars(&self) -> nat {
        variable_count(self.bdd_variable_set)
    }

    /// The domains of the variables, by position.
    pub closed spec fn domains(&self) -> Seq<D> {
        self.domains@
    }

    /// The domains of the next values of the variables, by position.
    pub closed spec fn primed_domains(&self) -> Seq<D> {
        self.primed_domains@
    }

    /// The transition relation of variable `i`, as a set of valuations.
    pub closed spec fn relation(&self, i: int) -> Set<Seq<bool>> {
        bdd_sat(self.transition_relations@[i])
    }

    /// The names of the variables, by position.
    pub open spec fn names(&self) -> Seq<Seq<char>> {
        names_of(self.model())
    }

    /// The names under which the next values of the variables are held, by
    /// position.
    pub closed spec fn primed_names(&self) -> Seq<Seq<char>> {
        names_view(self.primed_names@)
    }

    /// The blocks of the variables, by position.
    pub open spec fn blocks(&self) -> Seq<Seq<int>> {
        blocks_of(self.domains())
    }

    /// The blocks of the next values of the variables, by position.
    pub open spec fn primed_blocks(&self) -> Seq<Seq<int>> {
        blocks_of(self.primed_domains())
    }

    /// The tables of the variables, by position.
    pub open spec fn tables(&self) -> Seq<Seq<Seq<bool>>> {
        tables_of(self.domains())
    }

    /// The valuations that stand for a state of the network.
    pub open spec fn states(&self) -> Set<Seq<bool>> {
        legal_set(self.num_vars(), self.blocks(), self.tables())
    }

    /// What ties the fields of the system to its model.
    pub closed spec fn inv(&self) -> bool {
        &&& self.names@.len() == self.network@.len()
        &&& self.primed_names@.len() == self.network@.len()
        &&& self.transition_relations@.len() == self.network@.len()
        &&& self.pairings@.len() == self.network@.len()
        &&& names_view(self.names@) == names_of(self.network@)
        &&& forall|i: int|
            0 <= i < self.network@.len() ==> bdd_num_vars(#[trigger] self.transition_relations@[i])
                == variable_count(self.bdd_variable_set)
        &&& forall|i: int|
            0 <= i < self.network@.len() ==> bdd_num_vars(#[trigger] self.pairings@[i])
                == variable_count(self.bdd_variable_set) && bdd_sat(self.pairings@[i])
                == paired_set(
                variable_count(self.bdd_variable_set),
                positions(self.domains@[i].variables()),
                positions(self.primed_domains@[i].variables()),
            )
    }

    /// A system whose blocks lie in the order of its variables, the block
    /// of each variable right before the block of its next value, whose
    /// domains reach to the largest value that its network mentions, and
    /// whose relations are the step relations of its network.
    pub open spec fn wf(&self) -> bool {
        &&& self.inv()
        &&& self.domains().len() == self.model().len()
        &&& self.primed_domains().len() == self.model().len()
        &&& self.names().no_duplicates()
        &&& self.primed_names().len() == self.model().len()
        &&& forall|i: int|
            0 <= i < self.model().len() ==> #[trigger] self.primed_names()[i] == primed(
                self.names()[i],
            )
        &&& closed_network(self.model())
        &&& domains_fit(self.domains(), self.num_vars())
        &&& domains_fit(self.primed_domains(), self.num_vars())
        &&& forall|i: int|
            0 <= i < self.model().len() ==> (#[trigger] self.primed_domains()[i]).max_spec()
                == self.domains()[i].max_spec()
        &&& forall|i: int|
            0 <= i < self.model().len() ==> twin_blocks(
                #[trigger] self.blocks()[i],
                self.primed_blocks()[i],
                self.num_vars(),
            )
        &&& forall|i: int, j: int|
            0 <= i < self.model().len() && 0 <= j < self.model().len() && i != j ==> #[trigger] apart(
                self.blocks(),
                i,
                self.blocks(),
                j,
            )
        &&& forall|i: int, j: int|
            0 <= i < self.model().len() && 0 <= j < self.model().len() ==> #[trigger] apart(
                self.blocks(),
                i,
                self.primed_blocks(),
                j,
            )
        &&& forall|i: int, v: int|
            0 <= i < self.model().len() && #[trigger] mentions(self.model(), i, v) ==> 0 <= v
                <= self.domains()[i].max_spec()
        &&& forall|i: int|
            0 <= i < self.model().len() ==> is_max_value(
                self.model(),
                i,
                (#[trigger] self.domains()[i]).max_spec() as int,
            )
        &&& 2 * total_width(self.blocks(), self.model().len() as int) == self.num_vars()
        &&& forall|i: int|
            0 <= i < self.model().len() ==> #[trigger] is_layout(
                self.blocks(),
                self.primed_blocks(),
                i,
            )
        &&& forall|i: int|
            0 <= i < self.model().len() ==> #[trigger] self.relation(i) == step_set(
                self.num_vars(),
                self.blocks(),
                self.tables(),
                self.names(),
                &self.model()[i].1,
                self.primed_blocks()[i],
                self.tables()[i],
            )
    }

    /// The names of the variables, in their order, which is also the order
    /// of their blocks in the diagrams.
    pub fn get_system_variables(&self) -> (r: Vec<String>)
        requires
            self.wf(),
        ensures
            names_view(r@) == self.names(),
    {
        let mut result: Vec<String> = Vec::new();
        let mut i: usize = 0;
        while i < self.names.len()
            invariant
                i <= self.names@.len(),
                result@.len() == i,
                forall|k: int| 0 <= k < i ==> (#[trigger] result@[k])@ == self.names@[k]@,
            decreases self.names@.len() - i,
        {
            result.push(self.names[i].clone());
            i = i + 1;
        }
        proof {
            assert(names_view(result@) =~= names_view(self.names@));
        }
        result
    }

    /// The number of variables of the network.
    pub fn variable_count(&self) -> (r: usize)
        requires
            self.wf(),
        ensures
            r == self.model().len(),
    {
        self.names.len()
    }

    /// The names under which the next values of the variables are held:
    /// the name of each variable with a tick behind it.
    pub fn get_primed_system_variables(&self) -> (r: Vec<String>)
        requires
            self.wf(),
        ensures
            names_view(r@) == self.primed_names(),
    {
        let mut result: Vec<String> = Vec::new();
        let mut i: usize = 0;
        while i < self.primed_names.len()
            invariant
                i <= self.primed_names@.len(),
                result@.len() == i,
                forall|k: int| 0 <= k < i ==> (#[trigger] result@[k])@ == self.primed_names@[k]@,
            decreases self.primed_names@.len() - i,
        {
            result.push(self.primed_names[i].clone());
            i = i + 1;
        }
        proof {
            assert(names_view(result@) =~= names_view(self.primed_names@));
        }
        result
    }

    /// The variable set of the diagrams of the system.
    pub fn get_bdd_variable_set(&self) -> (r: &BddVariableSet)
        ensures
            *r == self.variable_set() && variable_count(*r) == self.num_vars(),
    {
        &self.bdd_variable_set
    }

    /// The place of a variable, where the system has one of that name.
    pub fn get_variable_index(&self, variable_name: &str) -> (r: Option<usize>)
        requires
            self.wf(),
        ensures
            match r {
                Some(i) => i < self.names().len() && self.names().index_of(variable_name@) == i
                    && self.names()[i as int] == variable_name@,
                None => !self.names().contains(variable_name@),
            },
    {
        let found = find_name(&self.names, variable_name);
        proof {
            if let Some(i) = found {
                assert(names_view(self.names@)[i as int] == variable_name@);
            }
        }
        found
    }

    /// The domain of a variable, where the system has one of that name.
    pub fn get_domain(&self, variable_name: &str) -> (r: Option<&D>)
        requires
            self.wf(),
        ensures
            match r {
                Some(domain) => self.names().contains(variable_name@) && *domain
                    == self.domains()[self.names().index_of(variable_name@)],
                None => !self.names().contains(variable_name@),
            },
    {
        match self.get_variable_index(variable_name) {
            Some(i) => {
                proof {
                    assert(self.names()[i as int] == variable_name@);
                }
                Some(&self.domains[i])
            },
            None => None,
        }
    }

    /// The domains of the variables, in their order.
    pub fn standard_domains(&self) -> (r: Vec<&D>)
        requires
            self.wf(),
        ensures
            r@.len() == self.domains().len(),
            forall|i: int| 0 <= i < r@.len() ==> *(#[trigger] r@[i]) == self.domains()[i],
    {
        let mut result: Vec<&D> = Vec::new();
        let mut i: usize = 0;
        while i < self.domains.len()
            invariant
                i <= self.domains@.len(),
                result@.len() == i,
                forall|k: int| 0 <= k < i ==> *(#[trigger] result@[k]) == self.domains@[k],
            decreases self.domains@.len() - i,
        {
            result.push(&self.domains[i]);
            i = i + 1;
        }
        result
    }

    /// The names of the variables with their domains, in their order.
    pub fn standard_variables_names_and_domains(&self) -> (r: Vec<(&str, &D)>)
        requires
            self.wf(),
        ensures
            r@.len() == self.domains().len(),
            forall|i: int|
                0 <= i < r@.len() ==> (#[trigger] r@[i]).0@ == self.names()[i] && *r@[i].1
                    == self.domains()[i],
    {
        let mut result: Vec<(&str, &D)> = Vec::new();
        let mut i: usize = 0;
        while i < self.domains.len()
            invariant
                self.wf(),
                i <= self.domains@.len(),
                result@.len() == i,
                forall|k: int|
                    0 <= k < i ==> (#[trigger] result@[k]).0@ == self.names@[k]@ && *result@[k].1
                        == self.domains@[k],
            decreases self.domains@.len() - i,
        {
            result.push((self.names[i].as_str(), &self.domains[i]));
            i = i + 1;
        }
        proof {
            assert forall|k: int| 0 <= k < result@.len() implies (#[trigger] result@[k]).0@
                == self.names()[k] by {
                assert(names_view(self.names@)[k] == self.names@[k]@);
            }
        }
        result
    }

    /// The set of all states of the network. It does not depend on the
    /// primed variables.
    pub fn unit_vertex_set(&self) -> (r: Bdd)
        requires
            self.wf(),
        ensures
            bdd_num_vars(r) == self.num_vars(),
            bdd_sat(r) == self.states(),
    {
        unit_of(&self.domains, &self.bdd_variable_set)
    }

    /// The set of the states in which the variable has the value.
    pub fn encode_one(&self, variable_name: &str, value: &u8) -> (r: Bdd)
        requires
            self.wf(),
            self.names().contains(variable_name@),
            *value <= self.domains()[self.names().index_of(variable_name@)].max_spec(),
        ensures
            bdd_num_vars(r) == self.num_vars(),
            bdd_sat(r) == coded_set(
                self.num_vars(),
                self.blocks()[self.names().index_of(variable_name@)],
                self.tables()[self.names().index_of(variable_name@)][*value as int],
            ),
    {
        let index = self.get_variable_index(variable_name).unwrap();
        proof {
            assert(self.domains()[index as int].wf());
        }
        self.domains[index].encode_one(&self.bdd_variable_set, value)
    }

    /// The drawing of a diagram of the system, with every node and edge.
    pub fn bdd_to_dot_string(&self, bdd: &Bdd) -> (r: String)
        requires
            bdd_num_vars(*bdd) == self.num_vars(),
        ensures
            r@ == dot_drawing(*bdd, self.variable_set(), false),
    {
        bdd.to_dot_string(&self.bdd_variable_set, false)
    }

    /// The variable set of the diagrams of the system, which gives the
    /// bits of the variables their names.
    pub closed spec fn variable_set(&self) -> BddVariableSet {
        self.bdd_variable_set
    }

    /// The variable set has the variables of the system's diagrams.
    pub proof fn lemma_variable_set(&self)
        ensures
            variable_count(self.variable_set()) == self.num_vars(),
    {
    }

    /// The states that come after a state of `source_states_set` in one
    /// step of the named variable: every other variable keeps its value,
    /// and the variable takes the value that its update function gives.
    pub fn successors_async(&self, transition_variable_name: &str, source_states_set: &Bdd) -> (r:
        Bdd)
        requires
            self.wf(),
            self.names().contains(transition_variable_name@),
            bdd_num_vars(*source_states_set) == self.num_vars(),
        ensures
            bdd_num_vars(r) == self.num_vars(),
            bdd_sat(r) == post_image(
                self.relation(self.names().index_of(transition_variable_name@)),
                bdd_sat(*source_states_set),
                self.blocks()[self.names().index_of(transition_variable_name@)],
                self.primed_blocks()[self.names().index_of(transition_variable_name@)],
            ),
    {
        let index = self.get_variable_index(transition_variable_name).unwrap();
        self.successors_of(index, source_states_set)
    }

    /// `successors_async` for the variable at a place.
    pub fn successors_of(&self, index: usize, source_states_set: &Bdd) -> (r: Bdd)
        requires
            self.wf(),
            index < self.model().len(),
            bdd_num_vars(*source_states_set) == self.num_vars(),
        ensures
            bdd_num_vars(r) == self.num_vars(),
            bdd_sat(r) == post_image(
                self.relation(index as int),
                bdd_sat(*source_states_set),
                self.blocks()[index as int],
                self.primed_blocks()[index as int],
            ),
    {
        proof {
            assert(self.domains()[index as int].wf());
            assert(self.primed_domains()[index as int].wf());
            assert(twin_blocks(
                self.blocks()[index as int],
                self.primed_blocks()[index as int],
                self.num_vars(),
            ));
            assert(bdd_num_vars(self.transition_relations@[index as int]) == self.num_vars());
            assert(bdd_num_vars(self.pairings@[index as int]) == self.num_vars());
        }
        let block = self.domains[index].raw_bdd_variables();
        let primed_block = self.primed_domains[index].raw_bdd_variables();
        image_forward(
            source_states_set,
            &self.transition_relations[index],
            &self.pairings[index],
            &block,
            &primed_block,
        )
    }

    /// The states from which one step of the named variable leads to a
    /// state of `source_states_set`.
    pub fn predecessors_async(&self, transition_variable_name: &str, source_states_set: Bdd) -> (r:
        Bdd)
        requires
            self.wf(),
            self.names().contains(transition_variable_name@),
            bdd_num_vars(source_states_set) == self.num_vars(),
        ensures
            bdd_num_vars(r) == self.num_vars(),
            bdd_sat(r) == pre_image(
                self.relation(self.names().index_of(transition_variable_name@)),
                bdd_sat(source_states_set),
                self.blocks()[self.names().index_of(transition_variable_name@)],
                self.primed_blocks()[self.names().index_of(transition_variable_name@)],
            ),
    {
        let index = self.get_variable_index(transition_variable_name).unwrap();
        self.predecessors_of(index, &source_states_set)
    }

    /// `predecessors_async` for the variable at a place.
    pub fn predecessors_of(&self, index: usize, source_states_set: &Bdd) -> (r: Bdd)
        requires
            self.wf(),
            index < self.model().len(),
            bdd_num_vars(*source_states_set) == self.num_vars(),
        ensures
            bdd_num_vars(r) == self.num_vars(),
            bdd_sat(r) == pre_image(
                self.relation(index as int),
                bdd_sat(*source_states_set),
                self.blocks()[index as int],
                self.primed_blocks()[index as int],
            ),
    {
        proof {
            assert(self.domains()[index as int].wf());
            assert(self.primed_domains()[index as int].wf());
            assert(twin_blocks(
                self.blocks()[index as int],
                self.primed_blocks()[index as int],
                self.num_vars(),
            ));
            assert(bdd_num_vars(self.transition_relations@[index as int]) == self.num_vars());
            assert(bdd_num_vars(self.pairings@[index as int]) == self.num_vars());
        }
        let block = self.domains[index].raw_bdd_variables();
        let primed_block = self.primed_domains[index].raw_bdd_variables();
        image_backward(
            source_states_set,
            &self.transition_relations[index],
            &self.pairings[index],
            &block,
            &primed_block,
        )
    }

    /// The variables of the given domains, one block after the other.
    fn variables_of(domains: &Vec<D>) -> (r: Vec<BddVariable>)
        requires
            forall|i: int| 0 <= i < domains@.len() ==> (#[trigger] domains@[i]).wf(),
        ensures
            r@ == flat_variables(domains@, domains@.len() as int),
    {
        let mut result: Vec<BddVariable> = Vec::new();
        let mut i: usize = 0;
        while i < domains.len()
            invariant
                i <= domains@.len(),
                forall|k: int| 0 <= k < domains@.len() ==> (#[trigger] domains@[k]).wf(),
                result@ == flat_variables(domains@, i as int),
            decreases domains@.len() - i,
        {
            let block = domains[i].raw_bdd_variables();
            let mut a: usize = 0;
            let ghost before = result@;
            while a < block.len()
                invariant
                    a <= block@.len(),
                    result@ == before + block@.take(a as int),
                decreases block@.len() - a,
            {
                result.push(block[a]);
                assert(result@ =~= before + block@.take(a + 1));
                a = a + 1;
            }
            assert(block@.take(a as int) =~= block@);
            i = i + 1;
        }
        result
    }

    /// The variables that encode the values of the network's variables:
    /// the unprimed blocks, in order.
    pub fn standard_variables(&self) -> (r: Vec<BddVariable>)
        requires
            self.wf(),
        ensures
            r@ == flat_variables(self.domains(), self.domains().len() as int),
    {
        Self::variables_of(&self.domains)
    }

    /// The variables that encode the next values of the network's
    /// variables: the primed blocks, in order.
    pub fn primed_variables(&self) -> (r: Vec<BddVariable>)
        requires
            self.wf(),
        ensures
            r@ == flat_variables(self.primed_domains(), self.primed_domains().len() as int),
    {
        Self::variables_of(&self.primed_domains)
    }

    /// The positions of the unprimed blocks.
    pub open spec fn standard_positions(&self) -> Set<int> {
        covered(self.blocks(), self.blocks().len() as int)
    }

    /// One state of a set that is not empty: the valuations that agree
    /// with some member of the set on the unprimed blocks. The primed
    /// variables are left free.
    pub fn pick_state_bdd(&self, set: &Bdd) -> (r: Bdd)
        requires
            self.wf(),
            bdd_num_vars(*set) == self.num_vars(),
            bdd_sat(*set) != Set::<Seq<bool>>::empty(),
        ensures
            bdd_num_vars(r) == self.num_vars(),
            exists|w: Seq<bool>|
                #[trigger] bdd_sat(*set).contains(w) && bdd_sat(r) == class_of(
                    self.num_vars(),
                    self.standard_positions(),
                    w,
                ),
    {
        let ghost n = self.num_vars();
        let standard_variables = self.standard_variables();
        recall_width(set);
        let valuation = sat_witness(set).unwrap();
        let ghost w = valuation@;
        let ghost flat = positions(standard_variables@);
        let ghost on = self.standard_positions();
        proof {
            lemma_flat_positions(self.domains(), self.domains().len() as int);
            assert(w.len() == n) by {
                assert(valuations(n).contains(w));
            }
            assert forall|q: int| 0 <= q < flat.len() implies 0 <= #[trigger] flat[q] < n by {
                assert(flat.contains(flat[q]));
                assert(on.contains(flat[q]));
                let (i, a) = choose|i: int, a: int|
                    0 <= i < self.blocks().len() && 0 <= a < self.blocks()[i].len()
                        && #[trigger] self.blocks()[i][a] == flat[q];
                assert(self.domains()[i].wf());
                assert(fits(positions(self.domains()[i].variables()), n));
            }
        }
        let mut state_data = BddPartialValuation::empty();
        let mut q: usize = 0;
        while q < standard_variables.len()
            invariant
                q <= standard_variables@.len(),
                flat == positions(standard_variables@),
                w == valuation@,
                w.len() == n,
                forall|j: int| 0 <= j < flat.len() ==> 0 <= #[trigger] flat[j] < n,
                forall|k: int|
                    assignment(state_data).dom().contains(k) <==> exists|j: int|
                        0 <= j < q && #[trigger] flat[j] == k,
                forall|k: int| #[trigger]
                    assignment(state_data).dom().contains(k) ==> assignment(state_data)[k] == w[k],
            decreases standard_variables@.len() - q,
        {
            let var = standard_variables[q];
            assert(flat[q as int] == var_index(var));
            let ghost before = assignment(state_data);
            state_data.set_value(var, valuation[var.to_index()]);
            proof {
                assert forall|k: int|
                    assignment(state_data).dom().contains(k) <==> exists|j: int|
                        0 <= j < q + 1 && #[trigger] flat[j] == k by {
                    if assignment(state_data).dom().contains(k) {
                        if k == flat[q as int] {
                        } else {
                            assert(before.dom().contains(k));
                            let j = choose|j: int| 0 <= j < q && #[trigger] flat[j] == k;
                            assert(0 <= j < q + 1 && flat[j] == k);
                        }
                    }
                    if exists|j: int| 0 <= j < q + 1 && #[trigger] flat[j] == k {
                        let j = choose|j: int| 0 <= j < q + 1 && #[trigger] flat[j] == k;
                        if j < q {
                            assert(before.dom().contains(k));
                        }
                    }
                }
            }
            q = q + 1;
        }
        proof {
            let m = assignment(state_data);
            assert forall|k: int| m.dom().contains(k) <==> on.contains(k) by {
                if m.dom().contains(k) {
                    let j = choose|j: int| 0 <= j < q && #[trigger] flat[j] == k;
                    assert(flat.contains(k));
                }
                if on.contains(k) {
                    assert(flat.contains(k));
                    let j = choose|j: int| 0 <= j < flat.len() && flat[j] == k;
                    assert(0 <= j < q && flat[j] == k);
                }
            }
            assert forall|k: int| #[trigger] m.dom().contains(k) implies 0 <= k < n by {
                let j = choose|j: int| 0 <= j < q && #[trigger] flat[j] == k;
            }
            assert(clause_set(n, m) =~= class_of(n, on, w));
        }
        let result = self.bdd_variable_set.mk_conjunctive_clause(&state_data);
        proof {
            assert(bdd_sat(*set).contains(w) && bdd_sat(result) == class_of(n, on, w));
        }
        result
    }

    /// The states in which a step of variable `i` changes its value.
    pub open spec fn enabled(&self, i: int) -> Set<Seq<bool>> {
        Set::new(
            |t: Seq<bool>|
                self.states().contains(t) && self.model()[i].1.next_value(
                    self.names(),
                    state_of(self.blocks(), self.tables(), t),
                ) != state_of(self.blocks(), self.tables(), t)[i],
        )
    }

    /// The states in which a step of the variable at a place changes its
    /// value: those that the relation joins with a next value other than
    /// the current one.
    pub fn those_states_capable_of_transitioning_under(&self, index: usize) -> (r: Bdd)
        requires
            self.wf(),
            index < self.model().len(),
        ensures
            bdd_num_vars(r) == self.num_vars(),
            bdd_sat(r) == self.enabled(index as int),
    {
        let ghost i = index as int;
        let ghost n = self.num_vars();
        let ghost blocks = self.blocks();
        let ghost tables = self.tables();
        let ghost block = blocks[i];
        let ghost primed = self.primed_blocks()[i];
        let ghost table = tables[i];
        proof {
            assert(self.domains()[i].wf());
            assert(self.primed_domains()[i].wf());
            assert(bdd_num_vars(self.transition_relations@[i]) == n);
            assert(bdd_num_vars(self.pairings@[i]) == n);
        }
        let primed_block = self.primed_domains[index].raw_bdd_variables();
        let changing = self.transition_relations[index].and(&self.pairings[index].not());
        let result = changing.exists(primed_block.as_slice());
        proof {
            lemma_indices(primed_block@);
            assert(twin_blocks(blocks[i], self.primed_blocks()[i], n));
            assert forall|j: int| 0 <= j < tables.len() implies distinct_rows(
                #[trigger] tables[j],
            ) by {
                lemma_tables(self.domains(), n, j);
            }
            lemma_tables(self.domains(), n, i);
            self.domains()[i].lemma_wf();
            D::lemma_table(self.domains()[i].max_spec());
            let relation = step_set(
                n,
                blocks,
                tables,
                self.names(),
                &self.model()[i].1,
                primed,
                table,
            );
            assert(self.relation(i) == relation);
            assert forall|t: Seq<bool>| bdd_sat(result).contains(t) implies self.enabled(
                i,
            ).contains(t) by {
                let w = choose|w: Seq<bool>|
                    #[trigger] bdd_sat(changing).contains(w) && same_outside(
                        t,
                        w,
                        block_set(primed),
                    );
                assert(relation.contains(w));
                assert(!paired_set(n, block, primed).contains(w));
                assert forall|j: int| 0 <= j < blocks.len() implies pattern(
                    #[trigger] blocks[j],
                    w,
                ) == pattern(blocks[j], t) by {
                    assert(twin_blocks(blocks[j], self.primed_blocks()[j], n));
                    assert forall|x: int| 0 <= x < blocks[j].len() implies w[blocks[j][x]]
                        == t[blocks[j][x]] by {
                        if primed.contains(blocks[j][x]) {
                            let b = choose|b: int|
                                0 <= b < primed.len() && primed[b] == blocks[j][x];
                            assert(apart(blocks, j, self.primed_blocks(), i));
                            assert(blocks[j][x] != self.primed_blocks()[i][b]);
                        }
                    }
                    assert(pattern(blocks[j], w) =~= pattern(blocks[j], t));
                }
                crate::semantics::lemma_same_state(blocks, tables, w, t);
                let state = state_of(blocks, tables, t);
                let next = self.model()[i].1.next_value(self.names(), state);
                assert(encodes(blocks[i], tables[i], t));
                assert(shows(block, table, t, state[i]));
            }
            assert forall|t: Seq<bool>| self.enabled(i).contains(t) implies bdd_sat(
                result,
            ).contains(t) by {
                let state = state_of(blocks, tables, t);
                let next = self.model()[i].1.next_value(self.names(), state);
                lemma_next_value_yields(&self.model()[i].1, self.names(), state);
                assert(mentions(self.model(), i, next));
                assert(0 <= next < table.len());
                assert(table[next].len() == primed.len());
                let w = Seq::new(
                    n,
                    |k: int|
                        if primed.contains(k) {
                            table[next][primed.index_of(k)]
                        } else {
                            t[k]
                        },
                );
                assert forall|a: int| 0 <= a < primed.len() implies w[primed[a]]
                    == table[next][a] by {
                    lemma_index_of(primed, a);
                }
                assert(pattern(primed, w) =~= table[next]);
                assert forall|j: int| 0 <= j < blocks.len() implies pattern(
                    #[trigger] blocks[j],
                    t,
                ) == pattern(blocks[j], w) by {
                    assert(twin_blocks(blocks[j], self.primed_blocks()[j], n));
                    assert forall|x: int| 0 <= x < blocks[j].len() implies w[blocks[j][x]]
                        == t[blocks[j][x]] by {
                        if primed.contains(blocks[j][x]) {
                            let b = choose|b: int|
                                0 <= b < primed.len() && primed[b] == blocks[j][x];
                            assert(apart(blocks, j, self.primed_blocks(), i));
                            assert(blocks[j][x] != self.primed_blocks()[i][b]);
                        }
                    }
                    assert(pattern(blocks[j], t) =~= pattern(blocks[j], w));
                }
                crate::semantics::lemma_same_state(blocks, tables, t, w);
                assert(relation.contains(w));
                assert(encodes(blocks[i], tables[i], t));
                assert(shows(block, table, t, state[i]));
                if state[i] < next {
                    assert(table[state[i]] != table[next]);
                } else {
                    assert(table[next] != table[state[i]]);
                }
                assert(!paired_set(n, block, primed).contains(w));
                assert(bdd_sat(changing).contains(w) && same_outside(t, w, block_set(primed)));
            }
            assert(bdd_sat(result) =~= self.enabled(i));
        }
        result
    }

    /// Like `successors_async`, without the steps that change nothing: the
    /// states that come in one step of the named variable after a state of
    /// `source_states` in which that step changes the variable's value.
    pub fn successors_async_exclude_loops(
        &self,
        transition_variable_name: &str,
        source_states: &Bdd,
    ) -> (r: Bdd)
        requires
            self.wf(),
            self.names().contains(transition_variable_name@),
            bdd_num_vars(*source_states) == self.num_vars(),
        ensures
            bdd_num_vars(r) == self.num_vars(),
            bdd_sat(r) == post_image(
                self.relation(self.names().index_of(transition_variable_name@)),
                bdd_sat(*source_states).intersect(
                    self.enabled(self.names().index_of(transition_variable_name@)),
                ),
                self.blocks()[self.names().index_of(transition_variable_name@)],
                self.primed_blocks()[self.names().index_of(transition_variable_name@)],
            ),
    {
        let index = self.get_variable_index(transition_variable_name).unwrap();
        let enabled = self.those_states_capable_of_transitioning_under(index);
        self.successors_of(index, &source_states.and(&enabled))
    }

    /// Like `predecessors_async`, without the steps that change nothing:
    /// the states from which one step of the named variable leads to a
    /// state of `source_states` and changes the variable's value.
    pub fn predecessors_async_exclude_loops(&self, variable_name: &str, source_states: &Bdd) -> (r:
        Bdd)
        requires
            self.wf(),
            self.names().contains(variable_name@),
            bdd_num_vars(*source_states) == self.num_vars(),
        ensures
            bdd_num_vars(r) == self.num_vars(),
            bdd_sat(r) == pre_image(
                self.relation(self.names().index_of(variable_name@)),
                bdd_sat(*source_states),
                self.blocks()[self.names().index_of(variable_name@)],
                self.primed_blocks()[self.names().index_of(variable_name@)],
            ).intersect(self.enabled(self.names().index_of(variable_name@))),
    {
        let index = self.get_variable_index(variable_name).unwrap();
        let enabled = self.those_states_capable_of_transitioning_under(index);
        self.predecessors_of(index, source_states).and(&enabled)
    }

    /// The valuations that stand for the state with the given values.
    pub open spec fn state_set(&self, values: Seq<int>) -> Set<Seq<bool>> {
        Set::new(
            |t: Seq<bool>|
                t.len() == self.num_vars() && forall|i: int|
                    0 <= i < self.blocks().len() ==> shows(
                        #[trigger] self.blocks()[i],
                        self.tables()[i],
                        t,
                        values[i],
                    ),
        )
    }

    /// The set of the one state in which every variable has its value of
    /// the list.
    pub fn encode_state(&self, values: &Vec<u8>) -> (r: Bdd)
        requires
            self.wf(),
            values@.len() == self.model().len(),
            forall|i: int|
                0 <= i < values@.len() ==> #[trigger] values@[i] <= self.domains()[i].max_spec(),
        ensures
            bdd_num_vars(r) == self.num_vars(),
            bdd_sat(r) == self.state_set(values@.map_values(|v: u8| v as int)),
    {
        let ghost n = self.num_vars();
        let ghost blocks = self.blocks();
        let ghost tables = self.tables();
        let ghost wanted = values@.map_values(|v: u8| v as int);
        let mut result = self.bdd_variable_set.mk_true();
        let mut i: usize = 0;
        while i < self.domains.len()
            invariant
                self.wf(),
                i <= self.domains@.len(),
                n == self.num_vars(),
                blocks == self.blocks(),
                tables == self.tables(),
                wanted == values@.map_values(|v: u8| v as int),
                values@.len() == self.model().len(),
                forall|k: int|
                    0 <= k < values@.len() ==> #[trigger] values@[k]
                        <= self.domains()[k].max_spec(),
                bdd_num_vars(result) == n,
                bdd_sat(result) == Set::new(
                    |t: Seq<bool>|
                        t.len() == n && forall|k: int|
                            0 <= k < i ==> shows(#[trigger] blocks[k], tables[k], t, wanted[k]),
                ),
            decreases self.domains@.len() - i,
        {
            proof {
                assert(self.domains()[i as int].wf());
                lemma_tables(self.domains(), n, i as int);
                assert(values@[i as int] <= self.domains()[i as int].max_spec());
            }
            let one = self.domains[i].encode_one(&self.bdd_variable_set, &values[i]);
            let ghost before = bdd_sat(result);
            result = result.and(&one);
            proof {
                let after = Set::new(
                    |t: Seq<bool>|
                        t.len() == n && forall|k: int|
                            0 <= k < i + 1 ==> shows(#[trigger] blocks[k], tables[k], t, wanted[k]),
                );
                assert forall|t: Seq<bool>| bdd_sat(result).contains(t) <==> after.contains(t) by {
                    if bdd_sat(result).contains(t) {
                        assert(before.contains(t));
                        assert(shows(blocks[i as int], tables[i as int], t, wanted[i as int]));
                    }
                    if after.contains(t) {
                        assert(shows(blocks[i as int], tables[i as int], t, wanted[i as int]));
                        assert(before.contains(t));
                    }
                }
                assert(bdd_sat(result) =~= after);
            }
            i = i + 1;
        }
        proof {
            assert(bdd_sat(result) =~= self.state_set(wanted));
        }
        result
    }

    /// The values of the variables in one state of a set of states that
    /// is not empty.
    pub fn pick_state_values(&self, set: &Bdd) -> (r: Vec<u8>)
        requires
            self.wf(),
            bdd_num_vars(*set) == self.num_vars(),
            bdd_sat(*set) != Set::<Seq<bool>>::empty(),
            bdd_sat(*set).subset_of(self.states()),
        ensures
            r@.len() == self.model().len(),
            forall|i: int| 0 <= i < r@.len() ==> #[trigger] r@[i] <= self.domains()[i].max_spec(),
            exists|w: Seq<bool>|
                #[trigger] bdd_sat(*set).contains(w) && r@.map_values(|v: u8| v as int)
                    == state_of(self.blocks(), self.tables(), w),
    {
        let ghost n = self.num_vars();
        let ghost blocks = self.blocks();
        let ghost tables = self.tables();
        let valuation = sat_witness(set).unwrap();
        let ghost w = valuation@;
        proof {
            assert(self.states().contains(w));
        }
        let mut values: Vec<u8> = Vec::new();
        let mut i: usize = 0;
        while i < self.domains.len()
            invariant
                self.wf(),
                i <= self.domains@.len(),
                n == self.num_vars(),
                blocks == self.blocks(),
                tables == self.tables(),
                w == valuation@,
                w.len() == n,
                legal(blocks, tables, w),
                values@.len() == i,
                forall|k: int|
                    0 <= k < i ==> #[trigger] values@[k] <= self.domains()[k].max_spec()
                        && values@[k] == value_in(blocks[k], tables[k], w),
            decreases self.domains@.len() - i,
        {
            let domain = &self.domains[i];
            let ghost bits = blocks[i as int];
            proof {
                assert(self.domains()[i as int].wf());
                assert(fits(positions(self.domains()[i as int].variables()), n));
                lemma_tables(self.domains(), n, i as int);
                domain.lemma_wf();
            }
            let variables = domain.raw_bdd_variables();
            let mut shown = BddPartialValuation::empty();
            let mut q: usize = 0;
            while q < variables.len()
                invariant
                    q <= variables@.len(),
                    bits == positions(variables@),
                    fits(bits, n),
                    w == valuation@,
                    w.len() == n,
                    forall|k: int|
                        assignment(shown).dom().contains(k) <==> exists|j: int|
                            0 <= j < q && #[trigger] bits[j] == k,
                    forall|k: int| #[trigger]
                        assignment(shown).dom().contains(k) ==> assignment(shown)[k] == w[k],
                decreases variables@.len() - q,
            {
                let var = variables[q];
                assert(bits[q as int] == var_index(var));
                assert(0 <= bits[q as int] < n);
                let ghost before = assignment(shown);
                shown.set_value(var, valuation[var.to_index()]);
                proof {
                    assert forall|k: int|
                        assignment(shown).dom().contains(k) <==> exists|j: int|
                            0 <= j < q + 1 && #[trigger] bits[j] == k by {
                        if assignment(shown).dom().contains(k) {
                            if k != bits[q as int] {
                                assert(before.dom().contains(k));
                                let j = choose|j: int| 0 <= j < q && #[trigger] bits[j] == k;
                                assert(0 <= j < q + 1 && bits[j] == k);
                            }
                        }
                        if exists|j: int| 0 <= j < q + 1 && #[trigger] bits[j] == k {
                            let j = choose|j: int| 0 <= j < q + 1 && #[trigger] bits[j] == k;
                            if j < q {
                                assert(before.dom().contains(k));
                            }
                        }
                    }
                }
                q = q + 1;
            }
            proof {
                let m = assignment(shown);
                assert forall|k: int| 0 <= k < bits.len() implies m.dom().contains(
                    #[trigger] bits[k],
                ) by {}
                assert(crate::symbolic_domain::assigned_pattern(m, bits) =~= pattern(bits, w));
                assert(encodes(blocks[i as int], tables[i as int], w));
                let v = value_in(blocks[i as int], tables[i as int], w);
                assert(shows(blocks[i as int], tables[i as int], w, v));
                assert(crate::symbolic_domain::assigned_pattern(m, bits) == tables[i as int][v]);
            }
            let value = domain.decode_bits(&shown);
            proof {
                assert(shows(blocks[i as int], tables[i as int], w, value as int));
                lemma_value_in(blocks[i as int], tables[i as int], w, value as int);
            }
            values.push(value);
            i = i + 1;
        }
        proof {
            assert(values@.map_values(|v: u8| v as int) =~= state_of(blocks, tables, w));
            assert(bdd_sat(*set).contains(w));
        }
        values
    }
}

} // verus!