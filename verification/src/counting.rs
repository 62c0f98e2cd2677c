//! How many valuations stand for how many states.

use crate::bdd::{pow2, valuations};
use crate::closure::lemma_valuations_finite;
use crate::image::{block_set, twin_blocks};
use crate::semantics::{
    abstract_states, agree, lemma_agreeing, lemma_same_state, lemma_system_tables, proper,
};
use crate::symbolic_domain::SymbolicDomainOrd;
use crate::system::{apart, class_of, covered, SmartSystemUpdateFn};
use crate::variable_update_fn::state_of;
use vstd::prelude::*;
use vstd::set_lib::{lemma_int_range, lemma_len_subset, lemma_subset_equality, set_int_range};

verus! {

/// The number of positions of the first `upto` blocks.
pub open spec fn total_width(blocks: Seq<Seq<int>>, upto: int) -> nat
    decreases upto,
{
    if upto <= 0 {
        0
    } else {
        total_width(blocks, upto - 1) + blocks[upto - 1].len()
    }
}

/// A block without repetition has as many positions as it is long.
pub proof fn lemma_block_set_len(block: Seq<int>)
    requires
        block.no_duplicates(),
    ensures
        block_set(block).finite(),
        block_set(block).len() == block.len(),
{
    assert(block_set(block) =~= block.to_set());
    vstd::seq_lib::seq_to_set_is_finite(block);
    block.unique_seq_to_set();
}

/// Blocks that lie apart cover as many positions as they are long
/// together.
pub proof fn lemma_covered_len(blocks: Seq<Seq<int>>, upto: int)
    requires
        0 <= upto <= blocks.len(),
        forall|j: int| 0 <= j < upto ==> (#[trigger] blocks[j]).no_duplicates(),
        forall|i: int, j: int|
            0 <= i < upto && 0 <= j < upto && i != j ==> #[trigger] apart(blocks, i, blocks, j),
    ensures
        covered(blocks, upto).finite(),
        covered(blocks, upto).len() == total_width(blocks, upto),
    decreases upto,
{
    if upto == 0 {
        assert(covered(blocks, upto) =~= Set::<int>::empty());
    } else {
        let last = upto - 1;
        lemma_covered_len(blocks, last);
        lemma_block_set_len(blocks[last]);
        let before = covered(blocks, last);
        let here = block_set(blocks[last]);
        assert forall|k: int| covered(blocks, upto).contains(k) <==> before.contains(k)
            || here.contains(k) by {
            if covered(blocks, upto).contains(k) {
                let (i, a) = choose|i: int, a: int|
                    0 <= i < upto && 0 <= a < blocks[i].len() && #[trigger] blocks[i][a] == k;
                if i < last {
                    assert(before.contains(k));
                } else {
                    assert(blocks[last][a] == k);
                    assert(blocks[last].contains(k));
                }
            }
            if before.contains(k) {
                let (i, a) = choose|i: int, a: int|
                    0 <= i < last && 0 <= a < blocks[i].len() && #[trigger] blocks[i][a] == k;
                assert(0 <= i < upto && blocks[i][a] == k);
            }
            if here.contains(k) {
                let a = choose|a: int| 0 <= a < blocks[last].len() && blocks[last][a] == k;
                assert(0 <= last < upto && blocks[last][a] == k);
            }
        }
        assert(covered(blocks, upto) =~= before + here);
        assert(before.disjoint(here)) by {
            assert forall|k: int| !(before.contains(k) && here.contains(k)) by {
                if before.contains(k) && here.contains(k) {
                    let (i, a) = choose|i: int, a: int|
                        0 <= i < last && 0 <= a < blocks[i].len() && #[trigger] blocks[i][a] == k;
                    let b = choose|b: int| 0 <= b < blocks[last].len() && blocks[last][b] == k;
                    assert(apart(blocks, i, blocks, last));
                    assert(blocks[i][a] != blocks[last][b]);
                }
            }
        }
        vstd::set_lib::lemma_set_disjoint_lens(before, here);
        vstd::set::axiom_set_union_finite(before, here);
    }
}

/// Doubling a power of two gives the next one.
pub proof fn lemma_pow2_positive(k: nat)
    ensures
        pow2(k) > 0,
    decreases k,
{
    if k > 0 {
        lemma_pow2_positive((k - 1) as nat);
    }
}

/// A class of valuations, fixed on some positions and free on the others,
/// holds two valuations to the power of the number of free positions.
pub proof fn lemma_class_len(n: nat, on: Set<int>, w: Seq<bool>)
    requires
        on.finite(),
        forall|k: int| on.contains(k) ==> 0 <= k < n,
    ensures
        on.len() <= n,
        class_of(n, on, w).finite(),
        class_of(n, on, w).len() == pow2((n - on.len()) as nat),
    decreases n - on.len(),
{
    let range = set_int_range(0, n as int);
    lemma_int_range(0, n as int);
    assert(on.subset_of(range));
    lemma_len_subset(on, range);
    let class = class_of(n, on, w);
    lemma_valuations_finite(n);
    assert(class.subset_of(valuations(n)));
    vstd::set_lib::lemma_set_subset_finite(valuations(n), class);
    if on.len() == n {
        lemma_subset_equality(on, range);
        let only = Seq::new(n, |k: int| w[k]);
        let single = Set::<Seq<bool>>::empty().insert(only);
        assert forall|t: Seq<bool>| class.contains(t) <==> single.contains(t) by {
            if class.contains(t) {
                assert forall|k: int| 0 <= k < n implies t[k] == only[k] by {
                    assert(range.contains(k));
                }
                assert(t =~= only);
            }
            if t == only {
                assert(class.contains(t));
            }
        }
        assert(class =~= single);
        assert(single.len() == 1);
    } else {
        if forall|k: int| 0 <= k < n ==> on.contains(k) {
            assert(range.subset_of(on));
            assert(on =~= range);
        }
        let p = choose|p: int| 0 <= p < n && !on.contains(p);
        let more = on.insert(p);
        let low = Seq::new(
            n,
            |k: int|
                if k == p {
                    false
                } else {
                    w[k]
                },
        );
        let high = Seq::new(
            n,
            |k: int|
                if k == p {
                    true
                } else {
                    w[k]
                },
        );
        assert(more.len() == on.len() + 1);
        lemma_class_len(n, more, low);
        lemma_class_len(n, more, high);
        let lower = class_of(n, more, low);
        let higher = class_of(n, more, high);
        assert forall|t: Seq<bool>| class.contains(t) <==> lower.contains(t) || higher.contains(
            t,
        ) by {
            if class.contains(t) {
                if t[p] {
                    assert forall|k: int| 0 <= k < n && more.contains(k) implies #[trigger] t[k]
                        == high[k] by {}
                    assert(higher.contains(t));
                } else {
                    assert forall|k: int| 0 <= k < n && more.contains(k) implies #[trigger] t[k]
                        == low[k] by {}
                    assert(lower.contains(t));
                }
            }
            if lower.contains(t) {
                assert forall|k: int| 0 <= k < n && on.contains(k) implies #[trigger] t[k]
                    == w[k] by {
                    assert(more.contains(k));
                    assert(t[k] == low[k]);
                }
            }
            if higher.contains(t) {
                assert forall|k: int| 0 <= k < n && on.contains(k) implies #[trigger] t[k]
                    == w[k] by {
                    assert(more.contains(k));
                    assert(t[k] == high[k]);
                }
            }
        }
        assert(class =~= lower + higher);
        assert(lower.disjoint(higher)) by {
            assert forall|t: Seq<bool>| !(lower.contains(t) && higher.contains(t)) by {
                if lower.contains(t) && higher.contains(t) {
                    assert(more.contains(p));
                    assert(t[p] == low[p]);
                    assert(t[p] == high[p]);
                }
            }
        }
        vstd::set_lib::lemma_set_disjoint_lens(lower, higher);
        assert(pow2((n - on.len()) as nat) == 2 * pow2((n - on.len() - 1) as nat));
    }
}

/// The number of states in a set of valuations of a system: the number of
/// the valuations, divided by the freedom of the primed variables.
pub open spec fn state_count<D: SymbolicDomainOrd>(
    system: &SmartSystemUpdateFn<D>,
    s: Set<Seq<bool>>,
) -> int {
    s.len() as int / (pow2((system.num_vars() / 2) as nat) as int)
}

/// The unprimed blocks of a system cover half of its variables.
pub proof fn lemma_standard_positions<D: SymbolicDomainOrd>(system: &SmartSystemUpdateFn<D>)
    requires
        system.wf(),
    ensures
        system.standard_positions().finite(),
        2 * system.standard_positions().len() == system.num_vars(),
        forall|k: int| system.standard_positions().contains(k) ==> 0 <= k < system.num_vars(),
{
    lemma_system_tables(system);
    let blocks = system.blocks();
    let n = system.num_vars();
    assert forall|j: int| 0 <= j < blocks.len() implies (#[trigger] blocks[j]).no_duplicates() by {
        assert(twin_blocks(blocks[j], system.primed_blocks()[j], n));
    }
    lemma_covered_len(blocks, blocks.len() as int);
    assert forall|k: int| system.standard_positions().contains(k) implies 0 <= k < n by {
        let (j, a) = choose|j: int, a: int|
            0 <= j < blocks.len() && 0 <= a < blocks[j].len() && #[trigger] blocks[j][a] == k;
        assert(twin_blocks(blocks[j], system.primed_blocks()[j], n));
    }
}

/// A set of states of a system is finite, and stands for finitely many
/// states.
pub proof fn lemma_abstract_finite<D: SymbolicDomainOrd>(
    system: &SmartSystemUpdateFn<D>,
    s: Set<Seq<bool>>,
)
    requires
        s.subset_of(system.states()),
    ensures
        s.finite(),
        abstract_states(system, s).finite(),
{
    let n = system.num_vars();
    lemma_valuations_finite(n);
    assert(s.subset_of(valuations(n)));
    vstd::set_lib::lemma_set_subset_finite(valuations(n), s);
    let meaning = |t: Seq<bool>| state_of(system.blocks(), system.tables(), t);
    s.lemma_map_finite(meaning);
    assert forall|x: Seq<int>| abstract_states(system, s).contains(x) implies s.map(
        meaning,
    ).contains(x) by {
        let t = choose|t: Seq<bool>|
            #[trigger] s.contains(t) && system.states().contains(t) && state_of(
                system.blocks(),
                system.tables(),
                t,
            ) == x;
        assert(s.contains(t) && meaning(t) == x);
    }
    assert(abstract_states(system, s).subset_of(s.map(meaning)));
    vstd::set_lib::lemma_set_subset_finite(s.map(meaning), abstract_states(system, s));
}

/// A set of states holds, for each state that it stands for, one valuation
/// for each way to set the primed variables: as many valuations as states,
/// times two to the power of half of the variables.
pub proof fn lemma_valuations_per_state<D: SymbolicDomainOrd>(
    system: &SmartSystemUpdateFn<D>,
    s: Set<Seq<bool>>,
)
    requires
        system.wf(),
        proper(system, s),
        s.subset_of(system.states()),
    ensures
        s.finite(),
        abstract_states(system, s).finite(),
        s.len() == abstract_states(system, s).len() * pow2((system.num_vars() / 2) as nat),
    decreases abstract_states(system, s).len(),
{
    lemma_abstract_finite(system, s);
    lemma_system_tables(system);
    lemma_standard_positions(system);
    let n = system.num_vars();
    let on = system.standard_positions();
    let blocks = system.blocks();
    let tables = system.tables();
    let meant = abstract_states(system, s);
    let per_state = pow2((n / 2) as nat);
    if meant.len() == 0 {
        assert(meant =~= Set::<Seq<int>>::empty()) by {
            if exists|x: Seq<int>| meant.contains(x) {
                let x = choose|x: Seq<int>| meant.contains(x);
                vstd::set::axiom_set_remove_len(meant, x);
            }
        }
        assert forall|t: Seq<bool>| !s.contains(t) by {
            if s.contains(t) {
                assert(system.states().contains(t));
                assert(meant.contains(state_of(blocks, tables, t)));
            }
        }
        assert(s =~= Set::<Seq<bool>>::empty());
        assert(0 * per_state == 0) by (nonlinear_arith);
    } else {
        let x = meant.choose();
        assert(meant.contains(x)) by {
            if forall|y: Seq<int>| !meant.contains(y) {
                assert(meant =~= Set::<Seq<int>>::empty());
            }
            vstd::set::axiom_set_choose_len(meant);
        }
        let first = choose|t: Seq<bool>|
            #[trigger] s.contains(t) && system.states().contains(t) && state_of(
                blocks,
                tables,
                t,
            ) == x;
        let class = class_of(n, on, first);
        let rest = s.difference(class);
        lemma_class_len(n, on, first);
        assert(n - on.len() == n / 2);
        assert forall|t: Seq<bool>| class.contains(t) implies s.contains(t) by {
            assert(agree(first, t, on));
        }
        assert forall|a: Seq<bool>, b: Seq<bool>|
            a.len() == n && b.len() == n && #[trigger] rest.contains(a) && agree(
                a,
                b,
                on,
            ) implies #[trigger] rest.contains(b) by {
            assert(s.contains(b));
            if class.contains(b) {
                assert forall|k: int| 0 <= k < n && on.contains(k) implies #[trigger] a[k]
                    == first[k] by {
                    assert(b[k] == first[k]);
                }
                assert(class.contains(a));
            }
        }
        assert(proper(system, rest));
        let fewer = abstract_states(system, rest);
        assert forall|y: Seq<int>| fewer.contains(y) <==> meant.contains(y) && y != x by {
            if fewer.contains(y) {
                let t = choose|t: Seq<bool>|
                    #[trigger] rest.contains(t) && system.states().contains(t) && state_of(
                        blocks,
                        tables,
                        t,
                    ) == y;
                assert(s.contains(t));
                assert(meant.contains(y));
                if y == x {
                    crate::semantics::lemma_same_state_agrees(system, first, t);
                    assert(class.contains(t));
                }
            }
            if meant.contains(y) && y != x {
                let t = choose|t: Seq<bool>|
                    #[trigger] s.contains(t) && system.states().contains(t) && state_of(
                        blocks,
                        tables,
                        t,
                    ) == y;
                if class.contains(t) {
                    assert(agree(first, t, on));
                    lemma_agreeing(system, first, t);
                    lemma_same_state(blocks, tables, first, t);
                }
                assert(rest.contains(t));
            }
        }
        assert(fewer =~= meant.remove(x));
        vstd::set::axiom_set_remove_len(meant, x);
        lemma_valuations_per_state(system, rest);
        assert(s =~= rest + class);
        assert(rest.disjoint(class));
        vstd::set_lib::lemma_set_disjoint_lens(rest, class);
        assert((fewer.len() + 1) * per_state == fewer.len() * per_state + per_state)
            by (nonlinear_arith);
    }
}

/// The number of states in a set of states is the number of states that
/// the set stands for.
pub proof fn lemma_state_count<D: SymbolicDomainOrd>(
    system: &SmartSystemUpdateFn<D>,
    s: Set<Seq<bool>>,
)
    requires
        system.wf(),
        proper(system, s),
        s.subset_of(system.states()),
    ensures
        state_count(system, s) == abstract_states(system, s).len(),
{
    lemma_valuations_per_state(system, s);
    let per_state = pow2((system.num_vars() / 2) as nat) as int;
    lemma_pow2_positive((system.num_vars() / 2) as nat);
    vstd::arithmetic::div_mod::lemma_div_by_multiple(
        abstract_states(system, s).len() as int,
        per_state,
    );
}

/// Sets of states of two systems that stand for the same states hold the
/// same number of states, whatever the encodings of the systems.
pub proof fn lemma_same_count<A: SymbolicDomainOrd, B: SymbolicDomainOrd>(
    first: &SmartSystemUpdateFn<A>,
    second: &SmartSystemUpdateFn<B>,
    here: Set<Seq<bool>>,
    there: Set<Seq<bool>>,
)
    requires
        first.wf(),
        second.wf(),
        proper(first, here),
        proper(second, there),
        here.subset_of(first.states()),
        there.subset_of(second.states()),
        abstract_states(first, here) == abstract_states(second, there),
    ensures
        state_count(first, here) == state_count(second, there),
{
    lemma_state_count(first, here);
    lemma_state_count(second, there);
}

} // verus!
