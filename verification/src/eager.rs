//! The transition system of a network without primed variables: the steps
//! are taken value by value, from the diagrams that answer for the bits of
//! the next value.

use crate::bdd::{
    bdd_num_vars, bdd_sat, builder_names, dot_drawing, indices, new_builder, refused_in_name,
    same_outside, valuations, var_index, variable_count,
};
use crate::image::{block_set, lemma_indices};
use crate::names::{bit_name, lemma_bit_name_injective};
use crate::order::{sort_by_name, sorted_model};
use crate::relation::{legal_set, lemma_next_value_yields, unit_of};
use crate::symbolic_domain::{
    can_allocate, coded_set, consecutive, fits, fixed_pairs, lemma_clause_of_overlay,
    lemma_coded_set_inhabited, pattern, positions,
    unit_set, SymbolicDomain, SymbolicDomainOrd,
};
use crate::system::{apart, closed_network, lemma_guards_known, lemma_name_index};
use crate::unprocessed::{
    find_max_values, is_max_value, mentions, names_of, UnprocessedVariableUpdateFn,
};
use crate::variable_update_fn::{
    answers, blocks_of, domains_fit, encodes, find_name, legal, lemma_tables, lemma_value_in,
    names_view, shows, state_of, tables_of, VariableUpdateFn,
};
use biodivine_lib_bdd::{Bdd, BddVariableSet, BddVariableSetBuilder};
use vstd::prelude::*;

verus! {

/// The transition system of a network, in the encoding `D`, on the
/// variables of the states alone.
pub struct SystemUpdateFn<D: SymbolicDomainOrd> {
    names: Vec<String>,
    update_fns: Vec<VariableUpdateFn>,
    domains: Vec<D>,
    bdd_variable_set: BddVariableSet,
    network: Ghost<Seq<(String, UnprocessedVariableUpdateFn)>>,
}

/// The position of the first bit of variable `i` where every variable
/// before it takes the width of its maximum.
pub open spec fn plain_offset<D: SymbolicDomain>(maxes: Seq<u8>, i: int) -> int
    decreases i,
{
    if i <= 0 {
        0
    } else {
        plain_offset::<D>(maxes, i - 1) + D::width(maxes[i - 1] as nat)
    }
}

/// A name without a character that a variable set refuses.
pub open spec fn plain_name(name: Seq<char>) -> bool {
    forall|k: int| 0 <= k < name.len() ==> !refused_in_name(#[trigger] name[k])
}

/// A network, in the order of its names, of which a system without primed
/// variables can be built in the encoding `D`: no two variables share a
/// name, no name holds a character that a variable set refuses, every
/// guard speaks of variables of the network, and the bits of all
/// variables are fewer than 65534.
pub open spec fn plain_network_ok<D: SymbolicDomain>(
    model: Seq<(String, UnprocessedVariableUpdateFn)>,
) -> bool {
    &&& names_of(model).no_duplicates()
    &&& forall|i: int| 0 <= i < model.len() ==> plain_name(#[trigger] names_of(model)[i])
    &&& closed_network(model)
    &&& forall|maxes: Seq<u8>|
        maxes.len() == model.len() && (forall|i: int|
            0 <= i < model.len() ==> is_max_value(model, i, #[trigger] maxes[i] as int))
            ==> #[trigger] plain_offset::<D>(maxes, model.len() as int) < 65534
}

/// The name of a bit of one of the first `upto` variables.
pub open spec fn bit_of_variable(bit: Seq<char>, names: Seq<Seq<char>>, upto: int) -> bool {
    exists|j: int, k: nat| 0 <= j < upto && bit == #[trigger] bit_name(names[j], k)
}

/// Offsets rise with the variables.
pub proof fn lemma_plain_offset_rises<D: SymbolicDomain>(maxes: Seq<u8>, i: int, j: int)
    requires
        0 <= i <= j,
    ensures
        0 <= plain_offset::<D>(maxes, i) <= plain_offset::<D>(maxes, j),
    decreases j,
{
    if i < j {
        lemma_plain_offset_rises::<D>(maxes, i, j - 1);
    } else if i > 0 {
        lemma_plain_offset_rises::<D>(maxes, i - 1, i - 1);
    }
}

/// The domains of a network, one block after the other, with their names.
pub fn allocate_plain_domains<D: SymbolicDomainOrd>(
    builder: &mut BddVariableSetBuilder,
    sorted: &Vec<(String, UnprocessedVariableUpdateFn)>,
    maxes: &Vec<u8>,
) -> (r: (Vec<String>, Vec<D>))
    requires
        builder_names(*old(builder)).len() == 0,
        maxes@.len() == sorted@.len(),
        names_of(sorted@).no_duplicates(),
        forall|i: int| 0 <= i < sorted@.len() ==> plain_name(#[trigger] names_of(sorted@)[i]),
        plain_offset::<D>(maxes@, sorted@.len() as int) < 65534,
    ensures
        r.0@.len() == sorted@.len(),
        r.1@.len() == sorted@.len(),
        names_view(r.0@) == names_of(sorted@),
        forall|i: int|
            0 <= i < sorted@.len() ==> {
                &&& (#[trigger] r.1@[i]).wf()
                &&& r.1@[i].max_spec() == maxes@[i]
                &&& positions(r.1@[i].variables()) == consecutive(
                    plain_offset::<D>(maxes@, i),
                    D::width(maxes@[i] as nat),
                )
            },
        builder_names(*final(builder)).len() == plain_offset::<D>(maxes@, sorted@.len() as int),
{
    let ghost all = names_of(sorted@);
    let mut names: Vec<String> = Vec::new();
    let mut domains: Vec<D> = Vec::new();
    let mut i: usize = 0;
    while i < sorted.len()
        invariant
            i <= sorted@.len(),
            maxes@.len() == sorted@.len(),
            all == names_of(sorted@),
            all.no_duplicates(),
            forall|j: int| 0 <= j < all.len() ==> plain_name(#[trigger] all[j]),
            plain_offset::<D>(maxes@, sorted@.len() as int) < 65534,
            names@.len() == i,
            domains@.len() == i,
            forall|j: int| 0 <= j < i ==> (#[trigger] names@[j])@ == sorted@[j].0@,
            forall|j: int|
                0 <= j < i ==> {
                    &&& (#[trigger] domains@[j]).wf()
                    &&& domains@[j].max_spec() == maxes@[j]
                    &&& positions(domains@[j].variables()) == consecutive(
                        plain_offset::<D>(maxes@, j),
                        D::width(maxes@[j] as nat),
                    )
                },
            builder_names(*builder).len() == plain_offset::<D>(maxes@, i as int),
            forall|q: int|
                0 <= q < builder_names(*builder).len() ==> bit_of_variable(
                    #[trigger] builder_names(*builder)[q],
                    all,
                    i as int,
                ),
        decreases sorted@.len() - i,
    {
        let max_value = maxes[i];
        let ghost width = D::width(max_value as nat);
        let ghost taken = builder_names(*builder);
        let ghost name = all[i as int];
        let variable_name = sorted[i].0.clone();
        proof {
            assert(variable_name@ == name);
            lemma_plain_offset_rises::<D>(maxes@, i + 1, sorted@.len() as int);
            assert(plain_offset::<D>(maxes@, i + 1) == plain_offset::<D>(maxes@, i as int) + width);
            assert forall|k: nat| k < width implies !taken.contains(
                #[trigger] bit_name(name, k),
            ) by {
                if taken.contains(bit_name(name, k)) {
                    let q = choose|q: int| 0 <= q < taken.len() && taken[q] == bit_name(name, k);
                    assert(bit_of_variable(taken[q], all, i as int));
                    let (j, m) = choose|j: int, m: nat|
                        0 <= j < i && taken[q] == #[trigger] bit_name(all[j], m);
                    lemma_bit_name_injective(all[j], m, name, k);
                }
            }
            assert(plain_name(all[i as int]));
            assert(can_allocate(taken, name, width));
        }
        let domain = D::new(builder, variable_name.as_str(), max_value);
        proof {
            let after = builder_names(*builder);
            assert forall|q: int| 0 <= q < after.len() implies bit_of_variable(
                #[trigger] after[q],
                all,
                i + 1,
            ) by {
                if q < taken.len() {
                    assert(after[q] == taken[q]);
                    assert(bit_of_variable(taken[q], all, i as int));
                    let (j, m) = choose|j: int, m: nat|
                        0 <= j < i && taken[q] == #[trigger] bit_name(all[j], m);
                    assert(0 <= j < i + 1 && after[q] == bit_name(all[j], m));
                } else {
                    let m = (q - taken.len()) as nat;
                    assert(after[q] == bit_name(all[i as int], m));
                }
            }
        }
        names.push(variable_name);
        domains.push(domain);
        i = i + 1;
    }
    proof {
        assert(names_view(names@) =~= names_of(sorted@));
    }
    (names, domains)
}

/// The valuations that come after a member of `s` in one step of a
/// variable: they stand for a state, agree outside the block of the
/// variable with a member of `s` that stands for a state, and show on the
/// block the value that the update function gives in the state of that
/// member.
pub open spec fn eager_post(
    s: Set<Seq<bool>>,
    n: nat,
    blocks: Seq<Seq<int>>,
    tables: Seq<Seq<Seq<bool>>>,
    names: Seq<Seq<char>>,
    update_fn: &UnprocessedVariableUpdateFn,
    i: int,
) -> Set<Seq<bool>> {
    Set::new(
        |t: Seq<bool>|
            t.len() == n && exists|w: Seq<bool>|
                #[trigger] s.contains(w) && legal(blocks, tables, w) && same_outside(
                    t,
                    w,
                    block_set(blocks[i]),
                ) && shows(
                    blocks[i],
                    tables[i],
                    t,
                    update_fn.next_value(names, state_of(blocks, tables, w)),
                ),
    )
}

/// The valuations from which one step of a variable leads to a member of
/// `s`: they stand for a state, and agree outside the block of the variable
/// with a member of `s` that shows on the block the value that the update
/// function gives in their state.
pub open spec fn eager_pre(
    s: Set<Seq<bool>>,
    n: nat,
    blocks: Seq<Seq<int>>,
    tables: Seq<Seq<Seq<bool>>>,
    names: Seq<Seq<char>>,
    update_fn: &UnprocessedVariableUpdateFn,
    i: int,
) -> Set<Seq<bool>> {
    Set::new(
        |t: Seq<bool>|
            t.len() == n && legal(blocks, tables, t) && exists|y: Seq<bool>|
                #[trigger] s.contains(y) && same_outside(t, y, block_set(blocks[i])) && shows(
                    blocks[i],
                    tables[i],
                    y,
                    update_fn.next_value(names, state_of(blocks, tables, t)),
                ),
    )
}

/// The states from which a step of a variable leads to the value `v`.
pub open spec fn leading_to(
    n: nat,
    blocks: Seq<Seq<int>>,
    tables: Seq<Seq<Seq<bool>>>,
    names: Seq<Seq<char>>,
    update_fn: &UnprocessedVariableUpdateFn,
    v: int,
) -> Set<Seq<bool>> {
    Set::new(
        |t: Seq<bool>|
            t.len() == n && legal(blocks, tables, t) && update_fn.next_value(
                names,
                state_of(blocks, tables, t),
            ) == v,
    )
}

/// The number is one of the first `upto` values of the list.
pub open spec fn among(values: Seq<u8>, upto: int, x: int) -> bool {
    exists|q: int| 0 <= q < upto && #[trigger] values[q] == x
}

/// `eager_post`, for the steps that lead to one of the first `upto`
/// values of a list.
pub open spec fn eager_post_upto(
    s: Set<Seq<bool>>,
    n: nat,
    blocks: Seq<Seq<int>>,
    tables: Seq<Seq<Seq<bool>>>,
    names: Seq<Seq<char>>,
    update_fn: &UnprocessedVariableUpdateFn,
    i: int,
    values: Seq<u8>,
    upto: int,
) -> Set<Seq<bool>> {
    Set::new(
        |t: Seq<bool>|
            t.len() == n && exists|w: Seq<bool>|
                #[trigger] s.contains(w) && legal(blocks, tables, w) && same_outside(
                    t,
                    w,
                    block_set(blocks[i]),
                ) && shows(
                    blocks[i],
                    tables[i],
                    t,
                    update_fn.next_value(names, state_of(blocks, tables, w)),
                ) && among(values, upto, update_fn.next_value(names, state_of(blocks, tables, w))),
    )
}

/// `eager_pre`, for the steps that lead to one of the first `upto` values
/// of a list.
pub open spec fn eager_pre_upto(
    s: Set<Seq<bool>>,
    n: nat,
    blocks: Seq<Seq<int>>,
    tables: Seq<Seq<Seq<bool>>>,
    names: Seq<Seq<char>>,
    update_fn: &UnprocessedVariableUpdateFn,
    i: int,
    values: Seq<u8>,
    upto: int,
) -> Set<Seq<bool>> {
    Set::new(
        |t: Seq<bool>|
            eager_pre(s, n, blocks, tables, names, update_fn, i).contains(t) && among(
                values,
                upto,
                update_fn.next_value(names, state_of(blocks, tables, t)),
            ),
    )
}

impl<D: SymbolicDomainOrd> SystemUpdateFn<D> {
    /// The network that the system was built of, in the order of its names.
    pub closed spec fn model(&self) -> Seq<(String, UnprocessedVariableUpdateFn)> {
        self.network@
    }

    /// The number of variables of the decision diagrams of the system.
    pub closed spec fn num_vars(&self) -> nat {
        variable_count(self.bdd_variable_set)
    }

    /// The domains of the variables, by position.
    pub closed spec fn domains(&self) -> Seq<D> {
        self.domains@
    }

    /// The compiled update functions of the variables, by position.
    pub closed spec fn compiled(&self) -> Seq<VariableUpdateFn> {
        self.update_fns@
    }

    /// The names of the variables, by position.
    pub open spec fn names(&self) -> Seq<Seq<char>> {
        names_of(self.model())
    }

    /// The blocks of the variables, by position.
    pub open spec fn blocks(&self) -> Seq<Seq<int>> {
        blocks_of(self.domains())
    }

    /// The tables of the variables, by position.
    pub open spec fn tables(&self) -> Seq<Seq<Seq<bool>>> {
        tables_of(self.domains())
    }

    /// The valuations that stand for a state of the network.
    pub open spec fn states(&self) -> Set<Seq<bool>> {
        legal_set(self.num_vars(), self.blocks(), self.tables())
    }

    /// What ties the stored names to the model.
    pub closed spec fn inv(&self) -> bool {
        names_view(self.names@) == names_of(self.network@)
    }

    /// A system whose blocks lie apart within its variables, whose domains
    /// reach to the largest value that its network mentions, and whose
    /// compiled functions answer for the bits of the next values.
    pub open spec fn wf(&self) -> bool {
        &&& self.inv()
        &&& self.domains().len() == self.model().len()
        &&& self.compiled().len() == self.model().len()
        &&& self.names().no_duplicates()
        &&& closed_network(self.model())
        &&& domains_fit(self.domains(), self.num_vars())
        &&& forall|i: int, j: int|
            0 <= i < self.model().len() && 0 <= j < self.model().len() && i != j ==> #[trigger] apart(
                self.blocks(),
                i,
                self.blocks(),
                j,
            )
        &&& forall|i: int|
            0 <= i < self.model().len() ==> is_max_value(
                self.model(),
                i,
                (#[trigger] self.domains()[i]).max_spec() as int,
            )
        &&& forall|i: int|
            0 <= i < self.model().len() ==> (#[trigger] self.compiled()[i]).bit_answering_bdds@.len()
                == self.blocks()[i].len()
        &&& forall|i: int, k: int|
            0 <= i < self.model().len() && 0 <= k < self.blocks()[i].len() ==> {
                &&& bdd_num_vars((#[trigger] self.compiled()[i].bit_answering_bdds@[k]).1)
                    == self.num_vars()
                &&& answers(
                    bdd_sat(self.compiled()[i].bit_answering_bdds@[k].1),
                    self.num_vars(),
                    self.blocks(),
                    self.tables(),
                    self.names(),
                    &self.model()[i].1,
                    self.tables()[i],
                    k,
                )
            }
    }

    /// The system of a network that is in the order of its names.
    pub fn from_sorted(named_update_fns_sorted: Vec<(String, UnprocessedVariableUpdateFn)>) -> (r:
        Self)
        requires
            plain_network_ok::<D>(named_update_fns_sorted@),
        ensures
            r.wf(),
            r.model() == named_update_fns_sorted@,
    {
        let sorted = named_update_fns_sorted;
        let ghost model = sorted@;
        let ghost all = names_of(model);
        let ghost count = model.len() as int;
        let max_values = find_max_values(&sorted);
        let ghost maxes = max_values@;
        let mut variable_set_builder = new_builder();
        let (names, symbolic_domains) = allocate_plain_domains::<D>(
            &mut variable_set_builder,
            &sorted,
            &max_values,
        );
        let bdd_variable_set = variable_set_builder.build();
        let ghost n = variable_count(bdd_variable_set);
        let ghost blocks = blocks_of(symbolic_domains@);
        let ghost tables = tables_of(symbolic_domains@);
        proof {
            assert forall|i: int| 0 <= i < count implies {
                &&& blocks[i] == consecutive(
                    plain_offset::<D>(maxes, i),
                    D::width(maxes[i] as nat),
                )
                &&& 0 <= plain_offset::<D>(maxes, i)
                &&& plain_offset::<D>(maxes, i) + D::width(maxes[i] as nat) <= n
            } by {
                assert(symbolic_domains@[i].wf());
                lemma_plain_offset_rises::<D>(maxes, i, i);
                lemma_plain_offset_rises::<D>(maxes, i + 1, count);
                assert(plain_offset::<D>(maxes, i + 1) == plain_offset::<D>(maxes, i) + D::width(
                    maxes[i] as nat,
                ));
            }
            assert forall|i: int| 0 <= i < count implies (#[trigger] symbolic_domains@[i]).wf()
                && fits(positions(symbolic_domains@[i].variables()), n) by {
                assert(blocks[i] == positions(symbolic_domains@[i].variables()));
            }
            assert forall|i: int, j: int|
                0 <= i < count && 0 <= j < count && i != j implies #[trigger] apart(
                blocks,
                i,
                blocks,
                j,
            ) by {
                if i < j {
                    lemma_plain_offset_rises::<D>(maxes, i + 1, j);
                } else {
                    lemma_plain_offset_rises::<D>(maxes, j + 1, i);
                }
                assert(plain_offset::<D>(maxes, i + 1) == plain_offset::<D>(maxes, i) + D::width(
                    maxes[i] as nat,
                ));
                assert(plain_offset::<D>(maxes, j + 1) == plain_offset::<D>(maxes, j) + D::width(
                    maxes[j] as nat,
                ));
                assert(blocks[i] == consecutive(
                    plain_offset::<D>(maxes, i),
                    D::width(maxes[i] as nat),
                ));
                assert(blocks[j] == consecutive(
                    plain_offset::<D>(maxes, j),
                    D::width(maxes[j] as nat),
                ));
            }
            assert forall|k: int, v: int|
                0 <= k < count && #[trigger] mentions(model, k, v) implies v < tables[k].len() by {
                assert(is_max_value(model, k, maxes[k] as int));
                lemma_tables(symbolic_domains@, n, k);
            }
        }
        let mut update_fns: Vec<VariableUpdateFn> = Vec::new();
        let mut i: usize = 0;
        while i < sorted.len()
            invariant
                i <= count,
                model == sorted@,
                count == model.len(),
                all == names_of(model),
                n == variable_count(bdd_variable_set),
                blocks == blocks_of(symbolic_domains@),
                tables == tables_of(symbolic_domains@),
                names@.len() == count,
                symbolic_domains@.len() == count,
                names_view(names@) == all,
                all.no_duplicates(),
                closed_network(model),
                domains_fit(symbolic_domains@, n),
                forall|k: int, v: int|
                    0 <= k < count && #[trigger] mentions(model, k, v) ==> v < tables[k].len(),
                update_fns@.len() == i,
                forall|a: int|
                    0 <= a < i ==> (#[trigger] update_fns@[a]).bit_answering_bdds@.len()
                        == blocks[a].len(),
                forall|a: int, k: int|
                    0 <= a < i && 0 <= k < blocks[a].len() ==> {
                        &&& bdd_num_vars((#[trigger] update_fns@[a].bit_answering_bdds@[k]).1) == n
                        &&& answers(
                            bdd_sat(update_fns@[a].bit_answering_bdds@[k].1),
                            n,
                            blocks,
                            tables,
                            all,
                            &model[a].1,
                            tables[a],
                            k,
                        )
                    },
            decreases count - i,
        {
            proof {
                lemma_name_index(all, i as int);
                assert(all[i as int] == names@[i as int]@);
                assert forall|j: int| 0 <= j < sorted@[i as int].1.terms@.len() implies crate::variable_update_fn::known(
                    &(#[trigger] sorted@[i as int].1.terms@[j]).1,
                    all,
                    tables,
                ) by {
                    lemma_guards_known(model, tables, i as int, j);
                }
                assert forall|v: int| sorted@[i as int].1.yields(v) implies 0 <= v
                    < tables[i as int].len() by {
                    assert(mentions(model, i as int, v));
                }
            }
            let compiled = VariableUpdateFn::from_update_fn(
                &sorted[i].1,
                names[i].as_str(),
                &bdd_variable_set,
                &names,
                &symbolic_domains,
            );
            let ghost before = update_fns@;
            update_fns.push(compiled);
            proof {
                assert forall|a: int| 0 <= a < i + 1 implies (
                #[trigger] update_fns@[a]).bit_answering_bdds@.len() == blocks[a].len() by {
                    if a < i {
                        assert(update_fns@[a] == before[a]);
                    }
                }
                assert forall|a: int, k: int| 0 <= a < i + 1 && 0 <= k < blocks[a].len() implies {
                    &&& bdd_num_vars((#[trigger] update_fns@[a].bit_answering_bdds@[k]).1) == n
                    &&& answers(
                        bdd_sat(update_fns@[a].bit_answering_bdds@[k].1),
                        n,
                        blocks,
                        tables,
                        all,
                        &model[a].1,
                        tables[a],
                        k,
                    )
                } by {
                    if a < i {
                        assert(update_fns@[a] == before[a]);
                    }
                }
            }
            i = i + 1;
        }
        let result = Self {
            names,
            update_fns,
            domains: symbolic_domains,
            bdd_variable_set,
            network: Ghost(model),
        };
        proof {
            assert(result.blocks() == blocks);
            assert(result.tables() == tables);
            assert forall|k: int| 0 <= k < count implies is_max_value(
                result.model(),
                k,
                (#[trigger] result.domains()[k]).max_spec() as int,
            ) by {
                assert(is_max_value(model, k, maxes[k] as int));
            }
        }
        result
    }

    /// The system of a network. The variables are taken in the order of
    /// their names.
    pub fn from_update_fns(vars_and_their_update_fns: Vec<(String, UnprocessedVariableUpdateFn)>) -> (r:
        Self)
        requires
            plain_network_ok::<D>(sorted_model(vars_and_their_update_fns@)),
        ensures
            r.wf(),
            r.model() == sorted_model(vars_and_their_update_fns@),
    {
        let named_update_fns_sorted = sort_by_name(vars_and_their_update_fns);
        Self::from_sorted(named_update_fns_sorted)
    }

    /// The place of a variable, where the system has one of that name.
    pub fn get_variable_index(&self, variable_name: &str) -> (r: Option<usize>)
        requires
            self.wf(),
        ensures
            match r {
                Some(i) => i < self.names().len() && self.names().index_of(variable_name@) == i
                    && self.names()[i as int] == variable_name@,
                None => !self.names().contains(variable_name@),
            },
    {
        let found = find_name(&self.names, variable_name);
        proof {
            if let Some(i) = found {
                assert(names_view(self.names@)[i as int] == variable_name@);
            }
        }
        found
    }

    /// The compiled update function and the domain of a variable, where
    /// the system has one of that name.
    pub fn get_update_fn_and_domain_of(&self, variable_name: &str) -> (r: Option<
        (&VariableUpdateFn, &D),
    >)
        requires
            self.wf(),
        ensures
            match r {
                Some(pair) => self.names().contains(variable_name@) && *pair.0
                    == self.compiled()[self.names().index_of(variable_name@)] && *pair.1
                    == self.domains()[self.names().index_of(variable_name@)],
                None => !self.names().contains(variable_name@),
            },
    {
        match self.get_variable_index(variable_name) {
            Some(i) => {
                proof {
                    assert(self.names()[i as int] == variable_name@);
                }
                Some((&self.update_fns[i], &self.domains[i]))
            },
            None => None,
        }
    }

    /// The set of all states of the network.
    pub fn unit_vertex_set(&self) -> (r: Bdd)
        requires
            self.wf(),
        ensures
            bdd_num_vars(r) == self.num_vars(),
            bdd_sat(r) == self.states(),
    {
        unit_of(&self.domains, &self.bdd_variable_set)
    }

    /// The states from which a step of the variable at a place leads to
    /// the value: those in which every diagram that answers for a bit
    /// agrees with the pattern of the value.
    pub fn states_leading_to(&self, index: usize, value: &u8) -> (r: Bdd)
        requires
            self.wf(),
            index < self.model().len(),
            *value <= self.domains()[index as int].max_spec(),
        ensures
            bdd_num_vars(r) == self.num_vars(),
            bdd_sat(r) == leading_to(
                self.num_vars(),
                self.blocks(),
                self.tables(),
                self.names(),
                &self.model()[index as int].1,
                *value as int,
            ),
    {
        let ghost i = index as int;
        let ghost n = self.num_vars();
        let ghost blocks = self.blocks();
        let ghost tables = self.tables();
        let ghost table = tables[i];
        let ghost view = self.names();
        let ghost update_fn = &self.model()[i].1;
        let domain = &self.domains[index];
        proof {
            assert(self.domains()[i].wf());
            lemma_tables(self.domains(), n, i);
            domain.lemma_wf();
            D::lemma_table(domain.max_spec());
        }
        let val_bits = domain.raw_bdd_variables_encode(value);
        let answered = &self.update_fns[index].bit_answering_bdds;
        let mut result = unit_of(&self.domains, &self.bdd_variable_set);
        let mut k: usize = 0;
        while k < val_bits.len()
            invariant
                self.wf(),
                i == index,
                index < self.model().len(),
                k <= val_bits@.len(),
                n == self.num_vars(),
                blocks == self.blocks(),
                tables == self.tables(),
                val_bits@ == table[*value as int],
                val_bits@.len() == blocks[i].len(),
                answered == &self.compiled()[i].bit_answering_bdds,
                bdd_num_vars(result) == n,
                bdd_sat(result) == Set::new(
                    |t: Seq<bool>|
                        t.len() == n && legal(blocks, tables, t) && forall|j: int|
                            0 <= j < k ==> (bdd_sat((#[trigger] answered@[j]).1).contains(t)
                                <==> val_bits@[j]),
                ),
            decreases val_bits@.len() - k,
        {
            assert(bdd_num_vars(self.compiled()[i].bit_answering_bdds@[k as int].1) == n);
            let ghost before = bdd_sat(result);
            let val_bit = val_bits[k];
            result = if val_bit {
                result.and(&answered[k].1)
            } else {
                result.and_not(&answered[k].1)
            };
            proof {
                let after = Set::new(
                    |t: Seq<bool>|
                        t.len() == n && legal(blocks, tables, t) && forall|j: int|
                            0 <= j < k + 1 ==> (bdd_sat((#[trigger] answered@[j]).1).contains(t)
                                <==> val_bits@[j]),
                );
                assert forall|t: Seq<bool>| bdd_sat(result).contains(t) <==> after.contains(t) by {
                    if bdd_sat(result).contains(t) {
                        assert(before.contains(t));
                        assert(bdd_sat(answered@[k as int].1).contains(t) <==> val_bits@[k as int]);
                    }
                    if after.contains(t) {
                        assert(bdd_sat(answered@[k as int].1).contains(t) <==> val_bits@[k as int]);
                        assert(before.contains(t));
                    }
                }
                assert(bdd_sat(result) =~= after);
            }
            k = k + 1;
        }
        proof {
            let wanted = leading_to(n, blocks, tables, view, update_fn, *value as int);
            assert forall|t: Seq<bool>| bdd_sat(result).contains(t) <==> wanted.contains(t) by {
                if t.len() == n && legal(blocks, tables, t) {
                    let next = update_fn.next_value(view, state_of(blocks, tables, t));
                    lemma_next_value_yields(update_fn, view, state_of(blocks, tables, t));
                    assert(mentions(self.model(), i, next));
                    assert(0 <= next < table.len());
                    assert forall|j: int| 0 <= j < blocks[i].len() implies (bdd_sat(
                        (#[trigger] answered@[j]).1,
                    ).contains(t) <==> table[next][j]) by {
                        assert(answers(
                            bdd_sat(self.compiled()[i].bit_answering_bdds@[j].1),
                            n,
                            blocks,
                            tables,
                            view,
                            update_fn,
                            table,
                            j,
                        ));
                    }
                    if bdd_sat(result).contains(t) {
                        assert forall|j: int| 0 <= j < table[next].len() implies table[next][j]
                            == table[*value as int][j] by {
                            assert(bdd_sat(answered@[j].1).contains(t) <==> val_bits@[j]);
                        }
                        assert(table[next] =~= table[*value as int]);
                        if next < *value {
                            assert(table[next] != table[*value as int]);
                        }
                        if *value < next {
                            assert(table[*value as int] != table[next]);
                        }
                    }
                }
            }
            assert(bdd_sat(result) =~= wanted);
        }
        result
    }

    /// Every value of the domain at a place, in rising order.
    fn values_of(&self, index: usize) -> (r: Vec<u8>)
        requires
            self.wf(),
            index < self.model().len(),
        ensures
            forall|q: int|
                0 <= q < r@.len() ==> #[trigger] r@[q] <= self.domains()[index as int].max_spec(),
            forall|v: int|
                0 <= v <= self.domains()[index as int].max_spec() ==> among(
                    r@,
                    r@.len() as int,
                    v,
                ),
    {
        let ghost n = self.num_vars();
        let domain = &self.domains[index];
        proof {
            assert(self.domains()[index as int].wf());
            domain.lemma_wf();
            D::lemma_table(domain.max_spec());
        }
        let unit = domain.unit_collection(&self.bdd_variable_set);
        let values = domain.decode_collection(&self.bdd_variable_set, &unit);
        proof {
            let bits = positions(domain.variables());
            let table = D::table(domain.max_spec());
            assert forall|q: int| 0 <= q < values@.len() implies #[trigger] values@[q]
                <= domain.max_spec() by {
                assert(values@.contains(values@[q]));
            }
            assert forall|v: int| 0 <= v <= domain.max_spec() implies among(
                values@,
                values@.len() as int,
                v,
            ) by {
                let t = lemma_coded_set_inhabited(n, bits, table[v]);
                assert(pattern(bits, t) == table[v]);
                assert(bdd_sat(unit).contains(t));
                assert(!bdd_sat(unit).disjoint(coded_set(n, bits, table[v as u8 as int])));
                assert(values@.contains(v as u8));
                let q = choose|q: int| 0 <= q < values@.len() && values@[q] == v as u8;
                assert(values@[q] == v);
            }
        }
        values
    }

    /// The states that come after a state of `source_states_set` in one
    /// step of the named variable.
    pub fn successors_async(&self, transition_variable_name: &str, source_states_set: &Bdd) -> (r:
        Bdd)
        requires
            self.wf(),
            self.names().contains(transition_variable_name@),
            bdd_num_vars(*source_states_set) == self.num_vars(),
        ensures
            bdd_num_vars(r) == self.num_vars(),
            bdd_sat(r) == eager_post(
                bdd_sat(*source_states_set),
                self.num_vars(),
                self.blocks(),
                self.tables(),
                self.names(),
                &self.model()[self.names().index_of(transition_variable_name@)].1,
                self.names().index_of(transition_variable_name@),
            ),
    {
        let index = self.get_variable_index(transition_variable_name).unwrap();
        let ghost i = index as int;
        let ghost n = self.num_vars();
        let ghost blocks = self.blocks();
        let ghost tables = self.tables();
        let ghost view = self.names();
        let ghost update_fn = &self.model()[i].1;
        let ghost s = bdd_sat(*source_states_set);
        let domain = &self.domains[index];
        proof {
            assert(self.domains()[i].wf());
            lemma_tables(self.domains(), n, i);
        }
        let each_allowed_value = self.values_of(index);
        let unit_collection = unit_of(&self.domains, &self.bdd_variable_set);
        let block = domain.raw_bdd_variables();
        let mut unpruned_res = self.bdd_variable_set.mk_false();
        let mut q: usize = 0;
        proof {
            lemma_indices(block@);
            assert(bdd_sat(unpruned_res) =~= eager_post_upto(
                s,
                n,
                blocks,
                tables,
                view,
                update_fn,
                i,
                each_allowed_value@,
                0,
            ));
        }
        while q < each_allowed_value.len()
            invariant
                self.wf(),
                i == index,
                index < self.model().len(),
                q <= each_allowed_value@.len(),
                n == self.num_vars(),
                blocks == self.blocks(),
                tables == self.tables(),
                view == self.names(),
                update_fn == &self.model()[i].1,
                s == bdd_sat(*source_states_set),
                bdd_num_vars(*source_states_set) == n,
                *domain == self.domains()[i],
                domain.wf(),
                fits(positions(domain.variables()), n),
                block@ == domain.variables(),
                indices(block@) == block_set(blocks[i]),
                tables[i].len() == domain.max_spec() + 1,
                forall|a: int|
                    0 <= a < each_allowed_value@.len() ==> #[trigger] each_allowed_value@[a]
                        <= domain.max_spec(),
                bdd_num_vars(unpruned_res) == n,
                bdd_sat(unpruned_res) == eager_post_upto(
                    s,
                    n,
                    blocks,
                    tables,
                    view,
                    update_fn,
                    i,
                    each_allowed_value@,
                    q as int,
                ),
            decreases each_allowed_value@.len() - q,
        {
            let value = each_allowed_value[q];
            let any_state_capable_of_transitioning_into_target_value = self.states_leading_to(
                index,
                &value,
            );
            let those_from_source_capable_of_transitioning_into_target_value =
                source_states_set.and(&any_state_capable_of_transitioning_into_target_value);
            let with_forgotten_values =
                those_from_source_capable_of_transitioning_into_target_value.exists(
                block.as_slice(),
            );
            let val_bits = domain.raw_bdd_variables_encode(&value);
            let ghost target = coded_set(n, blocks[i], tables[i][value as int]);
            proof {
                domain.lemma_wf();
                D::lemma_table(domain.max_spec());
                lemma_clause_of_overlay(n, blocks[i], tables[i][value as int]);
            }
            let filter = fixed_pairs(&block, &val_bits);
            proof {
                assert forall|k: int| 0 <= k < filter@.len() implies 0 <= var_index(
                    (#[trigger] filter@[k]).0,
                ) < n by {
                    assert(positions(block@)[k] == var_index(block@[k]));
                }
            }
            let transitioned = with_forgotten_values.select(
                filter.as_slice(),
            );
            let ghost before = bdd_sat(unpruned_res);
            unpruned_res = unpruned_res.or(&transitioned);
            proof {
                let after = eager_post_upto(
                    s,
                    n,
                    blocks,
                    tables,
                    view,
                    update_fn,
                    i,
                    each_allowed_value@,
                    q + 1,
                );
                let those = bdd_sat(those_from_source_capable_of_transitioning_into_target_value);
                assert forall|t: Seq<bool>| bdd_sat(unpruned_res).contains(t) implies after.contains(
                    t,
                ) by {
                    if before.contains(t) {
                        let w = choose|w: Seq<bool>|
                            #[trigger] s.contains(w) && legal(blocks, tables, w) && same_outside(
                                t,
                                w,
                                block_set(blocks[i]),
                            ) && shows(
                                blocks[i],
                                tables[i],
                                t,
                                update_fn.next_value(view, state_of(blocks, tables, w)),
                            ) && among(
                                each_allowed_value@,
                                q as int,
                                update_fn.next_value(view, state_of(blocks, tables, w)),
                            );
                        let next = update_fn.next_value(view, state_of(blocks, tables, w));
                        let a = choose|a: int|
                            0 <= a < q && #[trigger] each_allowed_value@[a] == next;
                        assert(among(each_allowed_value@, q + 1, next));
                        assert(s.contains(w) && legal(blocks, tables, w) && same_outside(
                            t,
                            w,
                            block_set(blocks[i]),
                        ) && shows(blocks[i], tables[i], t, next) && among(
                            each_allowed_value@,
                            q + 1,
                            next,
                        ));
                    } else {
                        assert(bdd_sat(transitioned).contains(t));
                        assert(bdd_sat(with_forgotten_values).contains(t));
                        assert(target.contains(t));
                        let w = choose|w: Seq<bool>|
                            #[trigger] those.contains(w) && same_outside(
                                t,
                                w,
                                block_set(blocks[i]),
                            );
                        let next = update_fn.next_value(view, state_of(blocks, tables, w));
                        assert(bdd_sat(
                            any_state_capable_of_transitioning_into_target_value,
                        ).contains(w));
                        assert(next == value);
                        assert(each_allowed_value@[q as int] == value);
                        assert(among(each_allowed_value@, q + 1, next));
                        assert(pattern(blocks[i], t) == tables[i][value as int]);
                        assert(shows(blocks[i], tables[i], t, next));
                        assert(s.contains(w) && legal(blocks, tables, w) && same_outside(
                            t,
                            w,
                            block_set(blocks[i]),
                        ) && shows(blocks[i], tables[i], t, next) && among(
                            each_allowed_value@,
                            q + 1,
                            next,
                        ));
                    }
                }
                assert forall|t: Seq<bool>| after.contains(t) implies bdd_sat(
                    unpruned_res,
                ).contains(t) by {
                    let w = choose|w: Seq<bool>|
                        #[trigger] s.contains(w) && legal(blocks, tables, w) && same_outside(
                            t,
                            w,
                            block_set(blocks[i]),
                        ) && shows(
                            blocks[i],
                            tables[i],
                            t,
                            update_fn.next_value(view, state_of(blocks, tables, w)),
                        ) && among(
                            each_allowed_value@,
                            q + 1,
                            update_fn.next_value(view, state_of(blocks, tables, w)),
                        );
                    let next = update_fn.next_value(view, state_of(blocks, tables, w));
                    let a = choose|a: int|
                        0 <= a < q + 1 && #[trigger] each_allowed_value@[a] == next;
                    if a < q {
                        assert(among(each_allowed_value@, q as int, next));
                        assert(before.contains(t));
                    } else {
                        assert(next == value);
                        assert(w.len() == n);
                        assert(those.contains(w) && same_outside(t, w, block_set(blocks[i])));
                        assert(bdd_sat(with_forgotten_values).contains(t));
                        assert(bdd_sat(transitioned).contains(t));
                    }
                }
                assert(bdd_sat(unpruned_res) =~= after);
            }
            q = q + 1;
        }
        let result = unpruned_res.and(&unit_collection);
        proof {
            let wanted = eager_post(s, n, blocks, tables, view, update_fn, i);
            assert forall|t: Seq<bool>| wanted.contains(t) implies bdd_sat(result).contains(t) by {
                let w = choose|w: Seq<bool>|
                    #[trigger] s.contains(w) && legal(blocks, tables, w) && same_outside(
                        t,
                        w,
                        block_set(blocks[i]),
                    ) && shows(
                        blocks[i],
                        tables[i],
                        t,
                        update_fn.next_value(view, state_of(blocks, tables, w)),
                    );
                let next = update_fn.next_value(view, state_of(blocks, tables, w));
                lemma_next_value_yields(update_fn, view, state_of(blocks, tables, w));
                assert(mentions(self.model(), i, next));
                assert(among(each_allowed_value@, each_allowed_value@.len() as int, next));
                assert(bdd_sat(unpruned_res).contains(t));
                self.lemma_step_legal(i, w, t);
            }
            assert forall|t: Seq<bool>| bdd_sat(result).contains(t) implies wanted.contains(t) by {
                assert(bdd_sat(unpruned_res).contains(t));
            }
            assert(bdd_sat(result) =~= wanted);
        }
        result
    }

    /// A valuation that agrees with a state outside the block of a
    /// variable and shows a value on that block stands for a state.
    pub proof fn lemma_step_legal(&self, i: int, w: Seq<bool>, t: Seq<bool>)
        requires
            self.wf(),
            0 <= i < self.model().len(),
            t.len() == self.num_vars(),
            legal(self.blocks(), self.tables(), w),
            same_outside(t, w, block_set(self.blocks()[i])),
            encodes(self.blocks()[i], self.tables()[i], t),
        ensures
            legal(self.blocks(), self.tables(), t),
            forall|j: int|
                0 <= j < self.blocks().len() && j != i ==> pattern(#[trigger] self.blocks()[j], t)
                    == pattern(self.blocks()[j], w),
    {
        let blocks = self.blocks();
        let tables = self.tables();
        let n = self.num_vars();
        assert forall|j: int| 0 <= j < blocks.len() && j != i implies pattern(
            #[trigger] blocks[j],
            t,
        ) == pattern(blocks[j], w) by {
            assert(self.domains()[j].wf());
            assert(fits(positions(self.domains()[j].variables()), n));
            assert forall|x: int| 0 <= x < blocks[j].len() implies t[blocks[j][x]]
                == w[blocks[j][x]] by {
                if blocks[i].contains(blocks[j][x]) {
                    let b = choose|b: int| 0 <= b < blocks[i].len() && blocks[i][b] == blocks[j][x];
                    assert(apart(blocks, j, blocks, i));
                    assert(blocks[j][x] != blocks[i][b]);
                }
                assert(0 <= blocks[j][x]) by {
                    self.domains()[j].lemma_wf();
                }
            }
            assert(pattern(blocks[j], t) =~= pattern(blocks[j], w));
        }
        assert forall|j: int| 0 <= j < blocks.len() implies encodes(
            #[trigger] blocks[j],
            tables[j],
            t,
        ) by {
            if j != i {
                assert(encodes(blocks[j], tables[j], w));
                let v = choose|v: int| shows(blocks[j], tables[j], w, v);
                assert(shows(blocks[j], tables[j], t, v));
            }
        }
    }

    /// The states from which one step of the named variable leads to a
    /// state of `source_states`.
    pub fn predecessors_async(&self, transition_variable_name: &str, source_states: &Bdd) -> (r:
        Bdd)
        requires
            self.wf(),
            self.names().contains(transition_variable_name@),
            bdd_num_vars(*source_states) == self.num_vars(),
        ensures
            bdd_num_vars(r) == self.num_vars(),
            bdd_sat(r) == eager_pre(
                bdd_sat(*source_states),
                self.num_vars(),
                self.blocks(),
                self.tables(),
                self.names(),
                &self.model()[self.names().index_of(transition_variable_name@)].1,
                self.names().index_of(transition_variable_name@),
            ),
    {
        let index = self.get_variable_index(transition_variable_name).unwrap();
        let ghost i = index as int;
        let ghost n = self.num_vars();
        let ghost blocks = self.blocks();
        let ghost tables = self.tables();
        let ghost view = self.names();
        let ghost update_fn = &self.model()[i].1;
        let ghost s = bdd_sat(*source_states);
        let domain = &self.domains[index];
        proof {
            assert(self.domains()[i].wf());
            lemma_tables(self.domains(), n, i);
        }
        let each_allowed_value = self.values_of(index);
        let block = domain.raw_bdd_variables();
        let mut result = self.bdd_variable_set.mk_false();
        let mut q: usize = 0;
        proof {
            lemma_indices(block@);
            assert(bdd_sat(result) =~= eager_pre_upto(
                s,
                n,
                blocks,
                tables,
                view,
                update_fn,
                i,
                each_allowed_value@,
                0,
            ));
        }
        while q < each_allowed_value.len()
            invariant
                self.wf(),
                i == index,
                index < self.model().len(),
                q <= each_allowed_value@.len(),
                n == self.num_vars(),
                blocks == self.blocks(),
                tables == self.tables(),
                view == self.names(),
                update_fn == &self.model()[i].1,
                s == bdd_sat(*source_states),
                bdd_num_vars(*source_states) == n,
                *domain == self.domains()[i],
                domain.wf(),
                fits(positions(domain.variables()), n),
                block@ == domain.variables(),
                indices(block@) == block_set(blocks[i]),
                tables[i].len() == domain.max_spec() + 1,
                forall|a: int|
                    0 <= a < each_allowed_value@.len() ==> #[trigger] each_allowed_value@[a]
                        <= domain.max_spec(),
                bdd_num_vars(result) == n,
                bdd_sat(result) == eager_pre_upto(
                    s,
                    n,
                    blocks,
                    tables,
                    view,
                    update_fn,
                    i,
                    each_allowed_value@,
                    q as int,
                ),
            decreases each_allowed_value@.len() - q,
        {
            let value = each_allowed_value[q];
            let val_bits = domain.raw_bdd_variables_encode(&value);
            let ghost target = coded_set(n, blocks[i], tables[i][value as int]);
            proof {
                domain.lemma_wf();
                D::lemma_table(domain.max_spec());
                lemma_clause_of_overlay(n, blocks[i], tables[i][value as int]);
            }
            let filter = fixed_pairs(&block, &val_bits);
            proof {
                assert forall|k: int| 0 <= k < filter@.len() implies 0 <= var_index(
                    (#[trigger] filter@[k]).0,
                ) < n by {
                    assert(positions(block@)[k] == var_index(block@[k]));
                }
            }
            let those_from_source_with_target_value = source_states.select(
                filter.as_slice(),
            );
            let possible_predecessors = those_from_source_with_target_value.exists(
                block.as_slice(),
            ).and(&domain.unit_collection(&self.bdd_variable_set));
            let any_state_capable_of_transitioning_into_target_value = self.states_leading_to(
                index,
                &value,
            );
            let predecessors = possible_predecessors.and(
                &any_state_capable_of_transitioning_into_target_value,
            );
            let ghost before = bdd_sat(result);
            result = result.or(&predecessors);
            proof {
                let after = eager_pre_upto(
                    s,
                    n,
                    blocks,
                    tables,
                    view,
                    update_fn,
                    i,
                    each_allowed_value@,
                    q + 1,
                );
                let those = bdd_sat(those_from_source_with_target_value);
                assert forall|t: Seq<bool>| bdd_sat(result).contains(t) implies after.contains(
                    t,
                ) by {
                    let next = update_fn.next_value(view, state_of(blocks, tables, t));
                    if before.contains(t) {
                        let a = choose|a: int|
                            0 <= a < q && #[trigger] each_allowed_value@[a] == next;
                        assert(among(each_allowed_value@, q + 1, next));
                    } else {
                        assert(bdd_sat(predecessors).contains(t));
                        assert(bdd_sat(
                            any_state_capable_of_transitioning_into_target_value,
                        ).contains(t));
                        assert(next == value);
                        let y = choose|y: Seq<bool>|
                            #[trigger] those.contains(y) && same_outside(
                                t,
                                y,
                                block_set(blocks[i]),
                            );
                        assert(target.contains(y));
                        assert(pattern(blocks[i], y) == tables[i][value as int]);
                        assert(s.contains(y) && same_outside(t, y, block_set(blocks[i])) && shows(
                            blocks[i],
                            tables[i],
                            y,
                            next,
                        ));
                        assert(each_allowed_value@[q as int] == value);
                        assert(among(each_allowed_value@, q + 1, next));
                    }
                }
                assert forall|t: Seq<bool>| after.contains(t) implies bdd_sat(result).contains(
                    t,
                ) by {
                    let next = update_fn.next_value(view, state_of(blocks, tables, t));
                    let a = choose|a: int|
                        0 <= a < q + 1 && #[trigger] each_allowed_value@[a] == next;
                    if a < q {
                        assert(among(each_allowed_value@, q as int, next));
                        assert(before.contains(t));
                    } else {
                        assert(next == value);
                        let y = choose|y: Seq<bool>|
                            #[trigger] s.contains(y) && same_outside(
                                t,
                                y,
                                block_set(blocks[i]),
                            ) && shows(blocks[i], tables[i], y, next);
                        assert(y.len() == n);
                        assert(target.contains(y));
                        assert(those.contains(y) && same_outside(t, y, block_set(blocks[i])));
                        assert(encodes(blocks[i], tables[i], t));
                        let x = choose|x: int| shows(blocks[i], tables[i], t, x);
                        assert(0 <= x < tables[i].len() && pattern(blocks[i], t) == tables[i][x]);
                        assert(unit_set(n, blocks[i], tables[i]).contains(t));
                        assert(bdd_sat(possible_predecessors).contains(t));
                        assert(bdd_sat(predecessors).contains(t));
                    }
                }
                assert(bdd_sat(result) =~= after);
            }
            q = q + 1;
        }
        proof {
            let wanted = eager_pre(s, n, blocks, tables, view, update_fn, i);
            assert forall|t: Seq<bool>| wanted.contains(t) implies bdd_sat(result).contains(t) by {
                let next = update_fn.next_value(view, state_of(blocks, tables, t));
                lemma_next_value_yields(update_fn, view, state_of(blocks, tables, t));
                assert(mentions(self.model(), i, next));
                assert(among(each_allowed_value@, each_allowed_value@.len() as int, next));
            }
            assert(bdd_sat(result) =~= wanted);
        }
        result
    }

    /// The states in which a step of variable `i` changes its value.
    pub open spec fn enabled(&self, i: int) -> Set<Seq<bool>> {
        Set::new(
            |t: Seq<bool>|
                self.states().contains(t) && self.model()[i].1.next_value(
                    self.names(),
                    state_of(self.blocks(), self.tables(), t),
                ) != state_of(self.blocks(), self.tables(), t)[i],
        )
    }

    /// The states in which a step of the variable at a place changes its
    /// value: all states but those that show on the block of the variable
    /// the value to which its step leads.
    pub fn those_states_capable_of_transitioning_under(&self, index: usize) -> (r: Bdd)
        requires
            self.wf(),
            index < self.model().len(),
        ensures
            bdd_num_vars(r) == self.num_vars(),
            bdd_sat(r) == self.enabled(index as int),
    {
        let ghost i = index as int;
        let ghost n = self.num_vars();
        let ghost blocks = self.blocks();
        let ghost tables = self.tables();
        let ghost view = self.names();
        let ghost update_fn = &self.model()[i].1;
        let domain = &self.domains[index];
        proof {
            assert(self.domains()[i].wf());
            lemma_tables(self.domains(), n, i);
        }
        let each_allowed_value = self.values_of(index);
        let mut staying = self.bdd_variable_set.mk_false();
        let mut q: usize = 0;
        while q < each_allowed_value.len()
            invariant
                self.wf(),
                i == index,
                index < self.model().len(),
                q <= each_allowed_value@.len(),
                n == self.num_vars(),
                blocks == self.blocks(),
                tables == self.tables(),
                view == self.names(),
                update_fn == &self.model()[i].1,
                *domain == self.domains()[i],
                domain.wf(),
                fits(positions(domain.variables()), n),
                tables[i].len() == domain.max_spec() + 1,
                forall|a: int|
                    0 <= a < each_allowed_value@.len() ==> #[trigger] each_allowed_value@[a]
                        <= domain.max_spec(),
                bdd_num_vars(staying) == n,
                bdd_sat(staying) == Set::new(
                    |t: Seq<bool>|
                        t.len() == n && legal(blocks, tables, t) && shows(
                            blocks[i],
                            tables[i],
                            t,
                            update_fn.next_value(view, state_of(blocks, tables, t)),
                        ) && among(
                            each_allowed_value@,
                            q as int,
                            update_fn.next_value(view, state_of(blocks, tables, t)),
                        ),
                ),
            decreases each_allowed_value@.len() - q,
        {
            let value = each_allowed_value[q];
            let leading = self.states_leading_to(index, &value);
            let there = domain.encode_one(&self.bdd_variable_set, &value);
            let ghost before = bdd_sat(staying);
            staying = staying.or(&leading.and(&there));
            proof {
                let after = Set::new(
                    |t: Seq<bool>|
                        t.len() == n && legal(blocks, tables, t) && shows(
                            blocks[i],
                            tables[i],
                            t,
                            update_fn.next_value(view, state_of(blocks, tables, t)),
                        ) && among(
                            each_allowed_value@,
                            q + 1,
                            update_fn.next_value(view, state_of(blocks, tables, t)),
                        ),
                );
                assert forall|t: Seq<bool>| bdd_sat(staying).contains(t) <==> after.contains(t) by {
                    let next = update_fn.next_value(view, state_of(blocks, tables, t));
                    if before.contains(t) {
                        let a = choose|a: int|
                            0 <= a < q && #[trigger] each_allowed_value@[a] == next;
                        assert(among(each_allowed_value@, q + 1, next));
                    }
                    if bdd_sat(leading).contains(t) && bdd_sat(there).contains(t) {
                        assert(each_allowed_value@[q as int] == value);
                        assert(among(each_allowed_value@, q + 1, next));
                        assert(pattern(blocks[i], t) == tables[i][value as int]);
                    }
                    if after.contains(t) {
                        let a = choose|a: int|
                            0 <= a < q + 1 && #[trigger] each_allowed_value@[a] == next;
                        if a < q {
                            assert(among(each_allowed_value@, q as int, next));
                            assert(before.contains(t));
                        } else {
                            assert(bdd_sat(leading).contains(t));
                            assert(bdd_sat(there).contains(t));
                        }
                    }
                }
                assert(bdd_sat(staying) =~= after);
            }
            q = q + 1;
        }
        let unit = unit_of(&self.domains, &self.bdd_variable_set);
        let result = unit.and_not(&staying);
        proof {
            assert forall|t: Seq<bool>| bdd_sat(result).contains(t) <==> self.enabled(i).contains(
                t,
            ) by {
                if t.len() == n && legal(blocks, tables, t) {
                    let state = state_of(blocks, tables, t);
                    let next = update_fn.next_value(view, state);
                    lemma_next_value_yields(update_fn, view, state);
                    assert(mentions(self.model(), i, next));
                    assert(among(each_allowed_value@, each_allowed_value@.len() as int, next));
                    assert(encodes(blocks[i], tables[i], t));
                    assert(shows(blocks[i], tables[i], t, state[i]));
                    if shows(blocks[i], tables[i], t, next) {
                        lemma_value_in(blocks[i], tables[i], t, next);
                    }
                }
            }
            assert(bdd_sat(result) =~= self.enabled(i));
        }
        result
    }

    /// Like `successors_async`, without the steps that change nothing: the
    /// states that come in one step of the named variable after a state of
    /// `source_states` in which that step changes the variable's value.
    pub fn successors_async_exclude_loops(
        &self,
        transition_variable_name: &str,
        source_states: &Bdd,
    ) -> (r: Bdd)
        requires
            self.wf(),
            self.names().contains(transition_variable_name@),
            bdd_num_vars(*source_states) == self.num_vars(),
        ensures
            bdd_num_vars(r) == self.num_vars(),
            bdd_sat(r) == eager_post(
                bdd_sat(*source_states).intersect(
                    self.enabled(self.names().index_of(transition_variable_name@)),
                ),
                self.num_vars(),
                self.blocks(),
                self.tables(),
                self.names(),
                &self.model()[self.names().index_of(transition_variable_name@)].1,
                self.names().index_of(transition_variable_name@),
            ),
    {
        let index = self.get_variable_index(transition_variable_name).unwrap();
        let enabled = self.those_states_capable_of_transitioning_under(index);
        self.successors_async(transition_variable_name, &source_states.and(&enabled))
    }

    /// Like `predecessors_async`, without the steps that change nothing:
    /// the states from which one step of the named variable leads to a
    /// state of `source_states` and changes the variable's value.
    pub fn predecessors_async_exclude_loops(&self, variable_name: &str, source_states: &Bdd) -> (r:
        Bdd)
        requires
            self.wf(),
            self.names().contains(variable_name@),
            bdd_num_vars(*source_states) == self.num_vars(),
        ensures
            bdd_num_vars(r) == self.num_vars(),
            bdd_sat(r) == eager_pre(
                bdd_sat(*source_states),
                self.num_vars(),
                self.blocks(),
                self.tables(),
                self.names(),
                &self.model()[self.names().index_of(variable_name@)].1,
                self.names().index_of(variable_name@),
            ).intersect(self.enabled(self.names().index_of(variable_name@))),
    {
        let index = self.get_variable_index(variable_name).unwrap();
        let enabled = self.those_states_capable_of_transitioning_under(index);
        self.predecessors_async(variable_name, source_states).and(&enabled)
    }

    /// The set of the states in which the variable has the value.
    pub fn encode_one(&self, variable_name: &str, value: &u8) -> (r: Bdd)
        requires
            self.wf(),
            self.names().contains(variable_name@),
            *value <= self.domains()[self.names().index_of(variable_name@)].max_spec(),
        ensures
            bdd_num_vars(r) == self.num_vars(),
            bdd_sat(r) == coded_set(
                self.num_vars(),
                self.blocks()[self.names().index_of(variable_name@)],
                self.tables()[self.names().index_of(variable_name@)][*value as int],
            ),
    {
        let index = self.get_variable_index(variable_name).unwrap();
        proof {
            assert(self.domains()[index as int].wf());
        }
        self.domains[index].encode_one(&self.bdd_variable_set, value)
    }

    /// The drawing of a diagram of the system, with every node and edge.
    pub fn bdd_to_dot_string(&self, bdd: &Bdd) -> (r: String)
        requires
            bdd_num_vars(*bdd) == self.num_vars(),
        ensures
            r@ == dot_drawing(*bdd, self.variable_set(), false),
    {
        bdd.to_dot_string(&self.bdd_variable_set, false)
    }

    /// The variable set of the diagrams of the system, which gives the
    /// bits of the variables their names.
    pub closed spec fn variable_set(&self) -> BddVariableSet {
        self.bdd_variable_set
    }

    /// The variable set has the variables of the system's diagrams.
    pub proof fn lemma_variable_set(&self)
        ensures
            variable_count(self.variable_set()) == self.num_vars(),
    {
    }

    /// The variable set of the diagrams of the system.
    pub fn get_bdd_variable_set(&self) -> (r: &BddVariableSet)
        ensures
            *r == self.variable_set() && variable_count(*r) == self.num_vars(),
    {
        &self.bdd_variable_set
    }
}

} // verus!