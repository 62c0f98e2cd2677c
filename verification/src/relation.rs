//! The parts of which the transition system of a network is built: the
//! blocks of its variables, the set of its states, and the relation between
//! the current state and the next value of one variable.

use crate::bdd::{
    bdd_num_vars, bdd_sat, builder_names, recall_width, refused_in_name, valuations, var_index,
    variable_count,
};
use crate::image::paired_set;
use crate::names::{bit_name, lemma_bit_name_injective, make_primed_name, primed};
use crate::symbolic_domain::{
    block_names, can_allocate, consecutive, fits, pattern, positions, unit_set, SymbolicDomain,
    SymbolicDomainOrd,
};
use crate::unprocessed::{names_of, UnprocessedVariableUpdateFn};
use crate::variable_update_fn::{
    answers, blocks_of, domains_fit, encodes, known, legal, lemma_first_match, lemma_tables,
    names_view, shows, state_of, tables_of, VariableUpdateFn,
};
use biodivine_lib_bdd::{Bdd, BddVariable, BddVariableSet, BddVariableSetBuilder};
use vstd::prelude::*;

verus! {

/// The valuations of `n` variables that stand for a state.
pub open spec fn legal_set(n: nat, blocks: Seq<Seq<int>>, tables: Seq<Seq<Seq<bool>>>) -> Set<
    Seq<bool>,
> {
    Set::new(|t: Seq<bool>| t.len() == n && legal(blocks, tables, t))
}

/// The relation between a state and the next value of one variable: the
/// valuations of `n` variables that stand for a state and show, on the
/// primed block of the variable, the value that its update function gives
/// in that state.
pub open spec fn step_set(
    n: nat,
    blocks: Seq<Seq<int>>,
    tables: Seq<Seq<Seq<bool>>>,
    names: Seq<Seq<char>>,
    update_fn: &UnprocessedVariableUpdateFn,
    primed_block: Seq<int>,
    table: Seq<Seq<bool>>,
) -> Set<Seq<bool>> {
    Set::new(
        |t: Seq<bool>|
            t.len() == n && legal(blocks, tables, t) && shows(
                primed_block,
                table,
                t,
                update_fn.next_value(names, state_of(blocks, tables, t)),
            ),
    )
}

/// The diagram of the valuations that show the same on two blocks.
pub fn pairing_of(
    block: &Vec<BddVariable>,
    primed_block: &Vec<BddVariable>,
    bdd_variable_set: &BddVariableSet,
) -> (r: Bdd)
    requires
        block@.len() == primed_block@.len(),
        fits(positions(block@), variable_count(*bdd_variable_set)),
        fits(positions(primed_block@), variable_count(*bdd_variable_set)),
    ensures
        bdd_num_vars(r) == variable_count(*bdd_variable_set),
        bdd_sat(r) == paired_set(
            variable_count(*bdd_variable_set),
            positions(block@),
            positions(primed_block@),
        ),
{
    let ghost n = variable_count(*bdd_variable_set);
    let ghost b = positions(block@);
    let ghost p = positions(primed_block@);
    let mut result = bdd_variable_set.mk_true();
    let mut k: usize = 0;
    while k < block.len()
        invariant
            k <= block@.len(),
            block@.len() == primed_block@.len(),
            n == variable_count(*bdd_variable_set),
            b == positions(block@),
            p == positions(primed_block@),
            fits(b, n),
            fits(p, n),
            bdd_num_vars(result) == n,
            bdd_sat(result) == Set::new(
                |t: Seq<bool>| t.len() == n && forall|j: int| 0 <= j < k ==> t[b[j]] == t[p[j]],
            ),
        decreases block@.len() - k,
    {
        assert(0 <= b[k as int] < n);
        assert(0 <= p[k as int] < n);
        let here = bdd_variable_set.mk_var(block[k]);
        let there = bdd_variable_set.mk_var(primed_block[k]);
        let same = here.iff(&there);
        let ghost before = bdd_sat(result);
        result = result.and(&same);
        proof {
            let after = Set::new(
                |t: Seq<bool>|
                    t.len() == n && forall|j: int| 0 <= j < k + 1 ==> t[b[j]] == t[p[j]],
            );
            assert forall|t: Seq<bool>| bdd_sat(result).contains(t) <==> after.contains(t) by {
                if bdd_sat(result).contains(t) {
                    assert(before.contains(t));
                    assert(bdd_sat(same).contains(t));
                    assert(t[b[k as int]] == t[p[k as int]]);
                }
                if after.contains(t) {
                    assert(t[b[k as int]] == t[p[k as int]]);
                    assert(before.contains(t));
                }
            }
            assert(bdd_sat(result) =~= after);
        }
        k = k + 1;
    }
    proof {
        let wanted = paired_set(n, b, p);
        assert forall|t: Seq<bool>| bdd_sat(result).contains(t) <==> wanted.contains(t) by {
            if bdd_sat(result).contains(t) {
                assert(pattern(b, t) =~= pattern(p, t));
            }
            if wanted.contains(t) {
                assert forall|j: int| 0 <= j < k implies t[b[j]] == t[p[j]] by {
                    assert(pattern(b, t)[j] == pattern(p, t)[j]);
                }
            }
        }
        assert(bdd_sat(result) =~= wanted);
    }
    result
}

/// The diagram of the valuations that stand for a state: those that show
/// a value on the block of every domain.
pub fn unit_of<D: SymbolicDomainOrd>(domains: &Vec<D>, bdd_variable_set: &BddVariableSet) -> (r:
    Bdd)
    requires
        domains_fit(domains@, variable_count(*bdd_variable_set)),
    ensures
        bdd_num_vars(r) == variable_count(*bdd_variable_set),
        bdd_sat(r) == legal_set(
            variable_count(*bdd_variable_set),
            blocks_of(domains@),
            tables_of(domains@),
        ),
{
    let ghost n = variable_count(*bdd_variable_set);
    let ghost blocks = blocks_of(domains@);
    let ghost tables = tables_of(domains@);
    let mut result = bdd_variable_set.mk_true();
    let mut k: usize = 0;
    while k < domains.len()
        invariant
            k <= domains@.len(),
            domains_fit(domains@, variable_count(*bdd_variable_set)),
            n == variable_count(*bdd_variable_set),
            blocks == blocks_of(domains@),
            tables == tables_of(domains@),
            bdd_num_vars(result) == n,
            bdd_sat(result) == Set::new(
                |t: Seq<bool>|
                    t.len() == n && forall|j: int|
                        0 <= j < k ==> encodes(#[trigger] blocks[j], tables[j], t),
            ),
        decreases domains@.len() - k,
    {
        let unit = domains[k].unit_collection(bdd_variable_set);
        let ghost before = bdd_sat(result);
        result = result.and(&unit);
        proof {
            lemma_tables(domains@, n, k as int);
            let after = Set::new(
                |t: Seq<bool>|
                    t.len() == n && forall|j: int|
                        0 <= j < k + 1 ==> encodes(#[trigger] blocks[j], tables[j], t),
            );
            let block = blocks[k as int];
            let table = tables[k as int];
            assert forall|t: Seq<bool>| bdd_sat(result).contains(t) <==> after.contains(t) by {
                if bdd_sat(result).contains(t) {
                    assert(before.contains(t));
                    assert(unit_set(n, block, table).contains(t));
                    let v = choose|v: int|
                        0 <= v < table.len() && 0 <= v < table.len() && pattern(block, t)
                            == #[trigger] table[v];
                    assert(shows(block, table, t, v));
                    assert(encodes(blocks[k as int], tables[k as int], t));
                }
                if after.contains(t) {
                    assert(encodes(blocks[k as int], tables[k as int], t));
                    let v = choose|v: int| shows(block, table, t, v);
                    assert(0 <= v < table.len() && pattern(block, t) == table[v]);
                    assert(unit_set(n, block, table).contains(t));
                    assert(before.contains(t));
                }
            }
            assert(bdd_sat(result) =~= after);
        }
        k = k + 1;
    }
    proof {
        assert(bdd_sat(result) =~= legal_set(n, blocks, tables));
    }
    result
}

/// The valuations of `within` that set each of the first `upto` bits of
/// the primed block exactly where the diagram that answers for the bit
/// holds.
pub open spec fn bound_set(
    within: Set<Seq<bool>>,
    answered: Seq<(BddVariable, Bdd)>,
    primed_block: Seq<int>,
    upto: int,
) -> Set<Seq<bool>> {
    Set::new(
        |t: Seq<bool>|
            within.contains(t) && forall|j: int|
                0 <= j < upto ==> (t[primed_block[j]] <==> bdd_sat(
                    (#[trigger] answered[j]).1,
                ).contains(t)),
    )
}

/// The transition relation of one variable, as a diagram over unprimed
/// and primed variables.
pub struct SymbolicTransitionFn {
    pub transition_function: Bdd,
}

impl SymbolicTransitionFn {
    /// Binds a compiled update function to the primed block of its
    /// variable: within `unit`, each primed bit is set exactly where the
    /// diagram that answers for that bit holds, and the primed block shows
    /// a value of the domain.
    pub fn from_update_fn_compiled<D: SymbolicDomainOrd>(
        update_fn_compiled: &VariableUpdateFn,
        ctx: &BddVariableSet,
        primed_domain: &D,
        unit: &Bdd,
    ) -> (r: Self)
        requires
            primed_domain.wf(),
            fits(positions(primed_domain.variables()), variable_count(*ctx)),
            update_fn_compiled.bit_answering_bdds@.len() == primed_domain.variables().len(),
            forall|i: int|
                0 <= i < update_fn_compiled.bit_answering_bdds@.len() ==> bdd_num_vars(
                    (#[trigger] update_fn_compiled.bit_answering_bdds@[i]).1,
                ) == variable_count(*ctx),
            bdd_num_vars(*unit) == variable_count(*ctx),
        ensures
            bdd_num_vars(r.transition_function) == variable_count(*ctx),
            bdd_sat(r.transition_function) == bound_set(
                bdd_sat(*unit),
                update_fn_compiled.bit_answering_bdds@,
                positions(primed_domain.variables()),
                primed_domain.variables().len() as int,
            ).intersect(
                unit_set(
                    variable_count(*ctx),
                    positions(primed_domain.variables()),
                    D::table(primed_domain.max_spec()),
                ),
            ),
    {
        let ghost n = variable_count(*ctx);
        let ghost p = positions(primed_domain.variables());
        let ghost answered = update_fn_compiled.bit_answering_bdds@;
        let ghost within = bdd_sat(*unit);
        recall_width(unit);
        let primed_variables = primed_domain.raw_bdd_variables();
        let mut relation = unit.clone();
        let mut k: usize = 0;
        proof {
            assert(bdd_sat(relation) =~= bound_set(within, answered, p, 0));
        }
        while k < primed_variables.len()
            invariant
                k <= primed_variables@.len(),
                primed_variables@ == primed_domain.variables(),
                p == positions(primed_variables@),
                fits(p, n),
                n == variable_count(*ctx),
                answered == update_fn_compiled.bit_answering_bdds@,
                answered.len() == primed_variables@.len(),
                forall|i: int|
                    0 <= i < answered.len() ==> bdd_num_vars((#[trigger] answered[i]).1) == n,
                within.subset_of(valuations(n)),
                bdd_num_vars(relation) == n,
                bdd_sat(relation) == bound_set(within, answered, p, k as int),
            decreases primed_variables@.len() - k,
        {
            assert(0 <= p[k as int] < n);
            let primed_target_variable_bdd = ctx.mk_var(primed_variables[k]);
            let bit_answering_bdd = &update_fn_compiled.bit_answering_bdds[k].1;
            let primed_bound_to_update = primed_target_variable_bdd.iff(bit_answering_bdd);
            let ghost before = bdd_sat(relation);
            relation = relation.and(&primed_bound_to_update);
            proof {
                let after = bound_set(within, answered, p, k + 1);
                assert forall|t: Seq<bool>| bdd_sat(relation).contains(t) <==> after.contains(t) by {
                    if bdd_sat(relation).contains(t) {
                        assert(before.contains(t));
                        assert(bdd_sat(primed_bound_to_update).contains(t));
                        assert(t[p[k as int]] <==> bdd_sat(answered[k as int].1).contains(t));
                    }
                    if after.contains(t) {
                        assert(valuations(n).contains(t));
                        assert(t[p[k as int]] <==> bdd_sat(answered[k as int].1).contains(t));
                        assert(before.contains(t));
                    }
                }
                assert(bdd_sat(relation) =~= after);
            }
            k = k + 1;
        }
        let primed_unit = primed_domain.unit_collection(ctx);
        SymbolicTransitionFn { transition_function: relation.and(&primed_unit) }
    }
}

/// The primed twin of a variable of a domain: the variable at the same
/// place in the primed domain.
pub fn find_bdd_variables_prime<D: SymbolicDomain>(
    target_variable: &BddVariable,
    target_sym_dom: &D,
    target_sym_dom_primed: &D,
) -> (r: BddVariable)
    requires
        target_sym_dom.wf(),
        target_sym_dom_primed.wf(),
        target_sym_dom.variables().len() == target_sym_dom_primed.variables().len(),
        positions(target_sym_dom.variables()).contains(var_index(*target_variable)),
    ensures
        r == target_sym_dom_primed.variables()[positions(target_sym_dom.variables()).index_of(
            var_index(*target_variable),
        )],
{
    let variables = target_sym_dom.raw_bdd_variables();
    let primed_variables = target_sym_dom_primed.raw_bdd_variables();
    let wanted = target_variable.to_index();
    let ghost bits = positions(variables@);
    proof {
        target_sym_dom.lemma_wf();
    }
    let mut i: usize = 0;
    loop
        invariant
            i <= variables@.len(),
            variables@ == target_sym_dom.variables(),
            primed_variables@ == target_sym_dom_primed.variables(),
            variables@.len() == primed_variables@.len(),
            bits == positions(variables@),
            bits.no_duplicates(),
            wanted == var_index(*target_variable),
            bits.contains(wanted as int),
            forall|k: int| 0 <= k < i ==> bits[k] != wanted,
        decreases variables@.len() - i,
    {
        proof {
            let k = choose|k: int| 0 <= k < bits.len() && bits[k] == wanted;
            assert(i <= k);
        }
        assert(i < variables.len());
        if variables[i].to_index() == wanted {
            proof {
                crate::symbolic_domain::lemma_index_of(bits, i as int);
            }
            return primed_variables[i];
        }
        i = i + 1;
    }
}

/// The next value of a variable is one of the outputs of its function.
pub proof fn lemma_next_value_yields(
    update_fn: &UnprocessedVariableUpdateFn,
    names: Seq<Seq<char>>,
    state: Seq<int>,
)
    ensures
        update_fn.yields(update_fn.next_value(names, state)),
{
    lemma_first_match(update_fn, names, state, 0);
    let j = update_fn.first_match(names, state, 0);
    if j < update_fn.terms@.len() {
        assert(update_fn.terms@[j].0 == update_fn.next_value(names, state));
    }
}

/// The transition relation of one variable: the states of the network,
/// each joined on the primed block of the variable with the value that the
/// update function gives in it. The primed blocks of the other variables
/// are left free.
pub fn transition_relation_of<D: SymbolicDomainOrd>(
    update_fn: &UnprocessedVariableUpdateFn,
    target_variable_name: &str,
    names: &Vec<String>,
    domains: &Vec<D>,
    primed_domain: &D,
    unit: &Bdd,
    bdd_variable_set: &BddVariableSet,
) -> (r: Bdd)
    requires
        names@.len() == domains@.len(),
        names_view(names@).no_duplicates(),
        names_view(names@).contains(target_variable_name@),
        domains_fit(domains@, variable_count(*bdd_variable_set)),
        forall|j: int|
            0 <= j < update_fn.terms@.len() ==> known(
                &(#[trigger] update_fn.terms@[j]).1,
                names_view(names@),
                tables_of(domains@),
            ),
        forall|v: int|
            update_fn.yields(v) ==> 0 <= v < tables_of(domains@)[names_view(names@).index_of(
                target_variable_name@,
            )].len(),
        primed_domain.wf(),
        fits(positions(primed_domain.variables()), variable_count(*bdd_variable_set)),
        primed_domain.max_spec() == domains@[names_view(names@).index_of(
            target_variable_name@,
        )].max_spec(),
        bdd_num_vars(*unit) == variable_count(*bdd_variable_set),
        bdd_sat(*unit) == legal_set(
            variable_count(*bdd_variable_set),
            blocks_of(domains@),
            tables_of(domains@),
        ),
    ensures
        bdd_num_vars(r) == variable_count(*bdd_variable_set),
        bdd_sat(r) == step_set(
            variable_count(*bdd_variable_set),
            blocks_of(domains@),
            tables_of(domains@),
            names_view(names@),
            update_fn,
            positions(primed_domain.variables()),
            tables_of(domains@)[names_view(names@).index_of(target_variable_name@)],
        ),
{
    let ghost n = variable_count(*bdd_variable_set);
    let ghost view = names_view(names@);
    let ghost blocks = blocks_of(domains@);
    let ghost tables = tables_of(domains@);
    let ghost target = view.index_of(target_variable_name@);
    let ghost table = tables[target];
    let ghost p = positions(primed_domain.variables());
    proof {
        assert(0 <= target < view.len() && view[target] == target_variable_name@);
        lemma_tables(domains@, n, target);
        primed_domain.lemma_wf();
        domains@[target].lemma_wf();
        D::lemma_table(primed_domain.max_spec());
        assert(table == D::table(primed_domain.max_spec()));
        assert(blocks[target].len() == p.len());
    }
    let update_fn_compiled = VariableUpdateFn::from_update_fn(
        update_fn,
        target_variable_name,
        bdd_variable_set,
        names,
        domains,
    );
    recall_width(unit);
    let relation = SymbolicTransitionFn::from_update_fn_compiled(
        &update_fn_compiled,
        bdd_variable_set,
        primed_domain,
        unit,
    );
    let result = relation.transition_function;
    proof {
        let answered = update_fn_compiled.bit_answering_bdds@;
        let wanted = step_set(n, blocks, tables, view, update_fn, p, table);
        assert forall|t: Seq<bool>| bdd_sat(result).contains(t) <==> wanted.contains(t) by {
            let next = update_fn.next_value(view, state_of(blocks, tables, t));
            lemma_next_value_yields(update_fn, view, state_of(blocks, tables, t));
            assert(0 <= next < table.len());
            assert(table[next].len() == p.len());
            if bdd_sat(result).contains(t) {
                assert(bound_set(bdd_sat(*unit), answered, p, p.len() as int).contains(t));
                assert forall|j: int| 0 <= j < p.len() implies pattern(p, t)[j]
                    == table[next][j] by {
                    assert(answers(
                        bdd_sat(answered[j].1),
                        n,
                        blocks,
                        tables,
                        view,
                        update_fn,
                        table,
                        j,
                    ));
                    assert(t[p[j]] <==> bdd_sat(answered[j].1).contains(t));
                }
                assert(pattern(p, t) =~= table[next]);
            }
            if wanted.contains(t) {
                assert forall|j: int| 0 <= j < p.len() implies (t[p[j]] <==> bdd_sat(
                    #[trigger] answered[j].1,
                ).contains(t)) by {
                    assert(answers(
                        bdd_sat(answered[j].1),
                        n,
                        blocks,
                        tables,
                        view,
                        update_fn,
                        table,
                        j,
                    ));
                    assert(pattern(p, t)[j] == t[p[j]]);
                }
                assert(bound_set(bdd_sat(*unit), answered, p, p.len() as int).contains(t));
                assert(unit_set(n, p, table).contains(t));
            }
        }
        assert(bdd_sat(result) =~= wanted);
    }
    result
}

/// The position of the first bit of variable `i` where every variable
/// before it takes the width of its maximum twice: once for its unprimed
/// block and once, right behind it, for its primed block.
pub open spec fn offset<D: SymbolicDomain>(maxes: Seq<u8>, i: int) -> int
    decreases i,
{
    if i <= 0 {
        0
    } else {
        offset::<D>(maxes, i - 1) + 2 * D::width(maxes[i - 1] as nat)
    }
}

/// A name without a tick and without a character that a variable set
/// refuses.
pub open spec fn clean_name(name: Seq<char>) -> bool {
    forall|k: int| 0 <= k < name.len() ==> !refused_in_name(#[trigger] name[k]) && name[k] != '\''
}

/// The name of a bit of the variable `name` or of its primed twin.
pub open spec fn from_variable(bit: Seq<char>, name: Seq<char>) -> bool {
    named_bit(bit, name) || named_bit(bit, primed(name))
}

/// The name of a bit of the variable `name`.
pub open spec fn named_bit(bit: Seq<char>, name: Seq<char>) -> bool {
    exists|k: nat| bit == #[trigger] bit_name(name, k)
}

/// The name of a bit of one of the first `upto` variables, primed or not.
pub open spec fn from_earlier(bit: Seq<char>, names: Seq<Seq<char>>, upto: int) -> bool {
    exists|j: int| 0 <= j < upto && from_variable(bit, #[trigger] names[j])
}

/// Offsets rise with the variables.
pub proof fn lemma_offset_rises<D: SymbolicDomain>(maxes: Seq<u8>, i: int, j: int)
    requires
        0 <= i <= j,
    ensures
        0 <= offset::<D>(maxes, i) <= offset::<D>(maxes, j),
    decreases j,
{
    if i < j {
        lemma_offset_rises::<D>(maxes, i, j - 1);
    } else if i > 0 {
        lemma_offset_rises::<D>(maxes, i - 1, i - 1);
    }
}

/// Two clean names that differ stay different when either is primed.
pub proof fn lemma_base_differs(a: Seq<char>, b: Seq<char>)
    requires
        clean_name(a),
        clean_name(b),
    ensures
        a != primed(b),
        a != b ==> primed(a) != primed(b),
{
    if a == primed(b) {
        assert(a[a.len() - 1] == '\'');
    }
    if primed(a) == primed(b) {
        assert(primed(a).drop_last() =~= a);
        assert(primed(b).drop_last() =~= b);
    }
}

/// The bits of a new variable, primed or not, are not among the bits of
/// other variables.
pub proof fn lemma_fresh(taken: Seq<Seq<char>>, names: Seq<Seq<char>>, i: int, k: nat)
    requires
        0 <= i < names.len(),
        names.no_duplicates(),
        forall|j: int| 0 <= j < names.len() ==> clean_name(#[trigger] names[j]),
        forall|q: int| 0 <= q < taken.len() ==> from_earlier(#[trigger] taken[q], names, i),
    ensures
        !taken.contains(bit_name(names[i], k)),
        !taken.contains(bit_name(primed(names[i]), k)),
{
    let plain = bit_name(names[i], k);
    let ticked = bit_name(primed(names[i]), k);
    assert forall|q: int| 0 <= q < taken.len() implies taken[q] != plain && taken[q] != ticked by {
        assert(from_earlier(taken[q], names, i));
        let j = choose|j: int| 0 <= j < i && from_variable(taken[q], #[trigger] names[j]);
        let base = if named_bit(taken[q], names[j]) {
            names[j]
        } else {
            primed(names[j])
        };
        let m = choose|m: nat| taken[q] == #[trigger] bit_name(base, m);
        lemma_base_differs(names[i], names[j]);
        lemma_base_differs(names[j], names[i]);
        assert(names[i] != names[j]);
        if taken[q] == plain {
            lemma_bit_name_injective(base, m, names[i], k);
        }
        if taken[q] == ticked {
            lemma_bit_name_injective(base, m, primed(names[i]), k);
        }
    }
}

/// The domains of a network: for each variable, in order, a domain for its
/// value and right behind it a domain of the same kind for its next value.
/// Returns the names, the primed names, the domains and the primed domains.
pub fn allocate_domains<D: SymbolicDomainOrd>(
    builder: &mut BddVariableSetBuilder,
    sorted: &Vec<(String, UnprocessedVariableUpdateFn)>,
    maxes: &Vec<u8>,
) -> (r: (Vec<String>, Vec<String>, Vec<D>, Vec<D>))
    requires
        builder_names(*old(builder)).len() == 0,
        maxes@.len() == sorted@.len(),
        names_of(sorted@).no_duplicates(),
        forall|i: int| 0 <= i < sorted@.len() ==> clean_name(#[trigger] names_of(sorted@)[i]),
        offset::<D>(maxes@, sorted@.len() as int) < 65534,
    ensures
        r.0@.len() == sorted@.len(),
        r.1@.len() == sorted@.len(),
        r.2@.len() == sorted@.len(),
        r.3@.len() == sorted@.len(),
        names_view(r.0@) == names_of(sorted@),
        forall|i: int| 0 <= i < sorted@.len() ==> (#[trigger] r.1@[i])@ == primed(sorted@[i].0@),
        forall|i: int|
            0 <= i < sorted@.len() ==> {
                &&& (#[trigger] r.2@[i]).wf()
                &&& r.2@[i].max_spec() == maxes@[i]
                &&& positions(r.2@[i].variables()) == consecutive(
                    offset::<D>(maxes@, i),
                    D::width(maxes@[i] as nat),
                )
            },
        forall|i: int|
            0 <= i < sorted@.len() ==> {
                &&& (#[trigger] r.3@[i]).wf()
                &&& r.3@[i].max_spec() == maxes@[i]
                &&& positions(r.3@[i].variables()) == consecutive(
                    offset::<D>(maxes@, i) + D::width(maxes@[i] as nat),
                    D::width(maxes@[i] as nat),
                )
            },
        builder_names(*final(builder)).len() == offset::<D>(maxes@, sorted@.len() as int),
{
    let ghost all = names_of(sorted@);
    let mut names: Vec<String> = Vec::new();
    let mut primed_names: Vec<String> = Vec::new();
    let mut domains: Vec<D> = Vec::new();
    let mut primed_domains: Vec<D> = Vec::new();
    let mut i: usize = 0;
    while i < sorted.len()
        invariant
            i <= sorted@.len(),
            maxes@.len() == sorted@.len(),
            all == names_of(sorted@),
            all.no_duplicates(),
            forall|j: int| 0 <= j < all.len() ==> clean_name(#[trigger] all[j]),
            offset::<D>(maxes@, sorted@.len() as int) < 65534,
            names@.len() == i,
            primed_names@.len() == i,
            domains@.len() == i,
            primed_domains@.len() == i,
            forall|j: int| 0 <= j < i ==> (#[trigger] names@[j])@ == sorted@[j].0@,
            forall|j: int| 0 <= j < i ==> (#[trigger] primed_names@[j])@ == primed(sorted@[j].0@),
            forall|j: int|
                0 <= j < i ==> {
                    &&& (#[trigger] domains@[j]).wf()
                    &&& domains@[j].max_spec() == maxes@[j]
                    &&& positions(domains@[j].variables()) == consecutive(
                        offset::<D>(maxes@, j),
                        D::width(maxes@[j] as nat),
                    )
                },
            forall|j: int|
                0 <= j < i ==> {
                    &&& (#[trigger] primed_domains@[j]).wf()
                    &&& primed_domains@[j].max_spec() == maxes@[j]
                    &&& positions(primed_domains@[j].variables()) == consecutive(
                        offset::<D>(maxes@, j) + D::width(maxes@[j] as nat),
                        D::width(maxes@[j] as nat),
                    )
                },
            builder_names(*builder).len() == offset::<D>(maxes@, i as int),
            forall|q: int|
                0 <= q < builder_names(*builder).len() ==> from_earlier(
                    #[trigger] builder_names(*builder)[q],
                    all,
                    i as int,
                ),
        decreases sorted@.len() - i,
    {
        let max_value = maxes[i];
        let ghost width = D::width(max_value as nat);
        let ghost taken = builder_names(*builder);
        let ghost name = all[i as int];
        let variable_name = sorted[i].0.clone();
        let primed_name = make_primed_name(variable_name.as_str());
        proof {
            assert(variable_name@ == name);
            lemma_offset_rises::<D>(maxes@, i + 1, sorted@.len() as int);
            assert(offset::<D>(maxes@, i + 1) == offset::<D>(maxes@, i as int) + 2 * width);
            assert forall|k: nat| k < width implies !taken.contains(
                #[trigger] bit_name(name, k),
            ) by {
                lemma_fresh(taken, all, i as int, k);
            }
            assert(clean_name(all[i as int]));
            assert(can_allocate(taken, name, width));
        }
        let unprimed = D::new(builder, variable_name.as_str(), max_value);
        let ghost between = builder_names(*builder);
        proof {
            assert(between == taken + block_names(name, width));
            assert forall|k: nat| k < width implies !between.contains(
                #[trigger] bit_name(primed(name), k),
            ) by {
                lemma_fresh(taken, all, i as int, k);
                if between.contains(bit_name(primed(name), k)) {
                    let q = choose|q: int|
                        0 <= q < between.len() && between[q] == bit_name(primed(name), k);
                    if q < taken.len() {
                        assert(taken[q] == between[q]);
                        assert(taken.contains(bit_name(primed(name), k)));
                    } else {
                        let m = (q - taken.len()) as nat;
                        assert(between[q] == bit_name(name, m));
                        lemma_bit_name_injective(name, m, primed(name), k);
                    }
                }
            }
            assert forall|k: int| 0 <= k < primed(name).len() implies !refused_in_name(
                #[trigger] primed(name)[k],
            ) by {
                if k < name.len() {
                    assert(primed(name)[k] == name[k]);
                }
            }
            assert(can_allocate(between, primed(name), width));
        }
        let primed_twin = D::new(builder, primed_name.as_str(), max_value);
        proof {
            let after = builder_names(*builder);
            assert(after == between + block_names(primed(name), width));
            assert forall|q: int| 0 <= q < after.len() implies from_earlier(
                #[trigger] after[q],
                all,
                i + 1,
            ) by {
                if q < taken.len() {
                    assert(after[q] == taken[q]);
                    assert(from_earlier(taken[q], all, i as int));
                    let j = choose|j: int|
                        0 <= j < i && from_variable(taken[q], #[trigger] all[j]);
                    assert(0 <= j < i + 1 && from_variable(after[q], all[j]));
                } else if q < between.len() {
                    let m = (q - taken.len()) as nat;
                    assert(after[q] == bit_name(name, m));
                    assert(from_variable(after[q], all[i as int]));
                } else {
                    let m = (q - between.len()) as nat;
                    assert(after[q] == bit_name(primed(name), m));
                    assert(from_variable(after[q], all[i as int]));
                }
            }
        }
        names.push(variable_name);
        primed_names.push(primed_name);
        domains.push(unprimed);
        primed_domains.push(primed_twin);
        i = i + 1;
    }
    proof {
        assert(names_view(names@) =~= names_of(sorted@));
    }
    (names, primed_names, domains, primed_domains)
}

} // verus!
