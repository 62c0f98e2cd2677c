//! Reachability in the transition system of a network: the states reached
//! from a set, the states from which a set is reached, and the weak
//! components of a universe of states.

use crate::bdd::{bdd_num_vars, bdd_sat, bigint_value, pow2, recall_width, shift_right, valuations};
use crate::closure::{
    closed_under, closure, lemma_closure_extends, lemma_least_is_closure, lemma_room_shrinks,
    lemma_size_shrinks, room, size, step_image,
};
use crate::system::class_of;
use num_bigint::BigInt;
use crate::image::lemma_image_monotone;
use crate::symbolic_domain::SymbolicDomainOrd;
use crate::system::SmartSystemUpdateFn;
use biodivine_lib_bdd::Bdd;
use vstd::prelude::*;

verus! {

/// The closure of `initial` under the steps of all variables, forwards or
/// backwards, by saturation: the variables are tried from the last to the
/// first, and after every step that adds a state the round starts again
/// with the last variable.
pub fn saturate<D: SymbolicDomainOrd>(
    system: &SmartSystemUpdateFn<D>,
    forward: bool,
    initial: &Bdd,
) -> (r: Bdd)
    requires
        system.wf(),
        bdd_num_vars(*initial) == system.num_vars(),
    ensures
        bdd_num_vars(r) == system.num_vars(),
        bdd_sat(r) == closure(system, forward, bdd_sat(*initial)),
        bdd_sat(*initial).subset_of(bdd_sat(r)),
        closed_under(system, forward, bdd_sat(r)),
{
    let ghost n = system.num_vars();
    let ghost start = bdd_sat(*initial);
    let count = system.variable_count();
    let mut result = initial.clone();
    let mut index: usize = count;
    while index > 0
        invariant
            system.wf(),
            n == system.num_vars(),
            count == system.model().len(),
            index <= count,
            bdd_num_vars(result) == n,
            start.subset_of(bdd_sat(result)),
            forall|x: Set<Seq<bool>>|
                start.subset_of(x) && #[trigger] closed_under(system, forward, x) ==> bdd_sat(
                    result,
                ).subset_of(x),
            forall|i: int|
                index <= i < count ==> (#[trigger] step_image(
                    system,
                    forward,
                    i,
                    bdd_sat(result),
                )).subset_of(bdd_sat(result)),
        decreases room(n, bdd_sat(result)), index,
    {
        let variable = index - 1;
        let image = if forward {
            system.successors_of(variable, &result)
        } else {
            system.predecessors_of(variable, &result)
        };
        let ghost before = bdd_sat(result);
        assert(bdd_sat(image) == step_image(system, forward, variable as int, before));
        recall_width(&image);
        // The image is inside the result where "image implies result"
        // holds of every valuation.
        if !image.imp(&result).is_true() {
            result = result.or(&image);
            proof {
                let missing = choose|v: Seq<bool>|
                    v.len() == n && bdd_sat(image).contains(v) && !before.contains(v);
                if !exists|v: Seq<bool>|
                    v.len() == n && bdd_sat(image).contains(v) && !before.contains(v) {
                    assert(Set::new(
                        |v: Seq<bool>|
                            v.len() == n && (bdd_sat(image).contains(v) ==> before.contains(v)),
                    ) =~= valuations(n));
                }
                lemma_room_shrinks(n, before, bdd_sat(result), missing);
                assert forall|x: Set<Seq<bool>>|
                    start.subset_of(x) && #[trigger] closed_under(
                        system,
                        forward,
                        x,
                    ) implies bdd_sat(result).subset_of(x) by {
                    assert(before.subset_of(x));
                    lemma_image_monotone(
                        system.relation(variable as int),
                        before,
                        x,
                        system.blocks()[variable as int],
                        system.primed_blocks()[variable as int],
                    );
                    assert(step_image(system, forward, variable as int, x).subset_of(x));
                }
            }
            index = count;
        } else {
            proof {
                assert forall|v: Seq<bool>| bdd_sat(image).contains(v) implies before.contains(
                    v,
                ) by {
                    assert(valuations(n).contains(v));
                }
            }
            index = variable;
        }
    }
    proof {
        assert(closed_under(system, forward, bdd_sat(result)));
        lemma_least_is_closure(system, forward, start, bdd_sat(result));
    }
    result
}

/// The states that are reached from a state of `initial` in any number of
/// steps, none included. The search is not confined to `universe`, which
/// only names the set that the caller explores.
pub fn reach_fwd<D: SymbolicDomainOrd>(
    system: &SmartSystemUpdateFn<D>,
    initial: &Bdd,
    universe: &Bdd,
) -> (r: Bdd)
    requires
        system.wf(),
        bdd_num_vars(*initial) == system.num_vars(),
    ensures
        bdd_num_vars(r) == system.num_vars(),
        bdd_sat(r) == closure(system, true, bdd_sat(*initial)),
        bdd_sat(*initial).subset_of(bdd_sat(r)),
        closed_under(system, true, bdd_sat(r)),
{
    saturate(system, true, initial)
}

/// The states from which a state of `initial` is reached in any number of
/// steps, none included. The search is not confined to `universe`, which
/// only names the set that the caller explores.
pub fn reach_bwd<D: SymbolicDomainOrd>(
    system: &SmartSystemUpdateFn<D>,
    initial: &Bdd,
    universe: &Bdd,
) -> (r: Bdd)
    requires
        system.wf(),
        bdd_num_vars(*initial) == system.num_vars(),
    ensures
        bdd_num_vars(r) == system.num_vars(),
        bdd_sat(r) == closure(system, false, bdd_sat(*initial)),
        bdd_sat(*initial).subset_of(bdd_sat(r)),
        closed_under(system, false, bdd_sat(r)),
{
    saturate(system, false, initial)
}

/// One state of a set that is not empty: the valuations that agree with
/// some member of the set on the unprimed blocks.
pub fn pick_state<D: SymbolicDomainOrd>(system: &SmartSystemUpdateFn<D>, set: &Bdd) -> (r: Bdd)
    requires
        system.wf(),
        bdd_num_vars(*set) == system.num_vars(),
        bdd_sat(*set) != Set::<Seq<bool>>::empty(),
    ensures
        bdd_num_vars(r) == system.num_vars(),
        exists|w: Seq<bool>|
            #[trigger] bdd_sat(*set).contains(w) && bdd_sat(r) == class_of(
                system.num_vars(),
                system.standard_positions(),
                w,
            ),
{
    system.pick_state_bdd(set)
}

/// The number of states in a set: the number of its valuations, less the
/// freedom of the primed variables, which are half of all variables.
pub fn count_states_exact<D: SymbolicDomainOrd>(system: &SmartSystemUpdateFn<D>, set: &Bdd) -> (r:
    BigInt)
    requires
        system.wf(),
    ensures
        bigint_value(r) == bdd_sat(*set).len() as int / (pow2(
            (system.num_vars() / 2) as nat,
        ) as int),
{
    let symbolic_var_count = system.get_bdd_variable_set().num_vars() as usize;
    let primed_vars = symbolic_var_count / 2;
    shift_right(set.exact_cardinality(), primed_vars)
}

/// One round of growing a component within a universe: the states of the
/// universe that are reached from a state of the universe from which the
/// set is reached.
pub open spec fn grow<D: SymbolicDomainOrd>(
    system: &SmartSystemUpdateFn<D>,
    universe: Set<Seq<bool>>,
    s: Set<Seq<bool>>,
) -> Set<Seq<bool>> {
    closure(system, true, closure(system, false, s).intersect(universe)).intersect(universe)
}

/// A set after `rounds` rounds of growing.
pub open spec fn grown<D: SymbolicDomainOrd>(
    system: &SmartSystemUpdateFn<D>,
    universe: Set<Seq<bool>>,
    s: Set<Seq<bool>>,
    rounds: nat,
) -> Set<Seq<bool>>
    decreases rounds,
{
    if rounds == 0 {
        s
    } else {
        grow(system, universe, grown(system, universe, s, (rounds - 1) as nat))
    }
}

/// The set is what `seed` grows to in the first number of rounds after
/// which a further round adds nothing.
pub open spec fn grown_full<D: SymbolicDomainOrd>(
    system: &SmartSystemUpdateFn<D>,
    universe: Set<Seq<bool>>,
    seed: Set<Seq<bool>>,
    s: Set<Seq<bool>>,
) -> bool {
    exists|rounds: nat|
        {
            &&& s == #[trigger] grown(system, universe, seed, rounds)
            &&& grow(system, universe, s).subset_of(s)
            &&& forall|earlier: nat|
                earlier < rounds ==> !grow(
                    system,
                    universe,
                    #[trigger] grown(system, universe, seed, earlier),
                ).subset_of(grown(system, universe, seed, earlier))
        }
}

/// A set within the universe grows, and stays within the universe.
pub proof fn lemma_grow<D: SymbolicDomainOrd>(
    system: &SmartSystemUpdateFn<D>,
    universe: Set<Seq<bool>>,
    s: Set<Seq<bool>>,
)
    requires
        s.subset_of(universe),
    ensures
        s.subset_of(grow(system, universe, s)),
        grow(system, universe, s).subset_of(universe),
{
    lemma_closure_extends(system, false, s);
    lemma_closure_extends(system, true, closure(system, false, s).intersect(universe));
}

/// The weak component of a pivot within a universe: the pivot is grown by
/// going backwards and then forwards within the universe, round after
/// round, until a round adds nothing.
pub fn weak_scc<D: SymbolicDomainOrd>(
    system: &SmartSystemUpdateFn<D>,
    pivot: &Bdd,
    universe: &Bdd,
) -> (r: Bdd)
    requires
        system.wf(),
        bdd_num_vars(*pivot) == system.num_vars(),
        bdd_num_vars(*universe) == system.num_vars(),
        bdd_sat(*pivot).subset_of(bdd_sat(*universe)),
    ensures
        bdd_num_vars(r) == system.num_vars(),
        bdd_sat(*pivot).subset_of(bdd_sat(r)),
        bdd_sat(r).subset_of(bdd_sat(*universe)),
        grown_full(system, bdd_sat(*universe), bdd_sat(*pivot), bdd_sat(r)),
{
    let ghost n = system.num_vars();
    let ghost all = bdd_sat(*universe);
    let ghost seed = bdd_sat(*pivot);
    let ghost mut rounds: nat = 0;
    let mut weak_scc = pivot.clone();
    loop
        invariant
            system.wf(),
            n == system.num_vars(),
            all == bdd_sat(*universe),
            seed == bdd_sat(*pivot),
            bdd_num_vars(*universe) == n,
            bdd_num_vars(weak_scc) == n,
            seed.subset_of(bdd_sat(weak_scc)),
            bdd_sat(weak_scc).subset_of(all),
            bdd_sat(weak_scc) == grown(system, all, seed, rounds),
            forall|earlier: nat|
                earlier < rounds ==> !grow(
                    system,
                    all,
                    #[trigger] grown(system, all, seed, earlier),
                ).subset_of(grown(system, all, seed, earlier)),
        decreases room(n, bdd_sat(weak_scc)),
    {
        let bwd_reachable = reach_bwd(system, &weak_scc, universe).and(universe);
        let fwd_bwd_reachable = reach_fwd(system, &bwd_reachable, universe).and(universe);
        let ghost before = bdd_sat(weak_scc);
        let ghost after = bdd_sat(fwd_bwd_reachable);
        recall_width(&fwd_bwd_reachable);
        proof {
            assert(after == grow(system, all, before));
            lemma_grow(system, all, before);
        }
        // The component cannot be expanded where what was reached lies
        // within it.
        if fwd_bwd_reachable.imp(&weak_scc).is_true() {
            proof {
                assert forall|v: Seq<bool>| after.contains(v) implies before.contains(v) by {
                    assert(valuations(n).contains(v));
                }
                assert(before == grown(system, all, seed, rounds));
            }
            return weak_scc;
        }
        proof {
            if !exists|v: Seq<bool>| v.len() == n && after.contains(v) && !before.contains(v) {
                assert(Set::new(
                    |v: Seq<bool>| v.len() == n && (after.contains(v) ==> before.contains(v)),
                ) =~= valuations(n));
            }
            let missing = choose|v: Seq<bool>|
                v.len() == n && after.contains(v) && !before.contains(v);
            lemma_room_shrinks(n, before, after, missing);
            assert(!grow(system, all, grown(system, all, seed, rounds)).subset_of(
                grown(system, all, seed, rounds),
            ));
            assert(after == grown(system, all, seed, rounds + 1));
            rounds = rounds + 1;
        }
        weak_scc = fwd_bwd_reachable;
    }
}

/// What is left of a universe after the first `upto` components were
/// taken out of it.
pub open spec fn remaining(universe: Set<Seq<bool>>, components: Seq<Bdd>, upto: int) -> Set<
    Seq<bool>,
> {
    Set::new(
        |v: Seq<bool>|
            universe.contains(v) && forall|j: int|
                0 <= j < upto ==> !bdd_sat(#[trigger] components[j]).contains(v),
    )
}

/// The set is the weak component, within `rest`, of some state of `rest`.
pub open spec fn is_component<D: SymbolicDomainOrd>(
    system: &SmartSystemUpdateFn<D>,
    rest: Set<Seq<bool>>,
    s: Set<Seq<bool>>,
) -> bool {
    exists|w: Seq<bool>|
        {
            &&& #[trigger] rest.contains(w)
            &&& s.contains(w)
            &&& s.subset_of(rest)
            &&& grown_full(
                system,
                rest,
                class_of(system.num_vars(), system.standard_positions(), w).intersect(rest),
                s,
            )
        }
}

/// The components are what the search finds in the universe: each is the
/// weak component of a state within what the earlier ones left, and
/// nothing is left after the last.
pub open spec fn found_in<D: SymbolicDomainOrd>(
    system: &SmartSystemUpdateFn<D>,
    universe: Set<Seq<bool>>,
    components: Seq<Bdd>,
) -> bool {
    &&& remaining(universe, components, components.len() as int) == Set::<Seq<bool>>::empty()
    &&& forall|j: int|
        0 <= j < components.len() ==> is_component(
            system,
            remaining(universe, components, j),
            bdd_sat(#[trigger] components[j]),
        )
}

/// The weak components of a universe: a state is picked, its weak
/// component within what is left of the universe is taken out, and so on
/// until nothing is left. The components are given in the order in which
/// they were found.
pub fn weak_sccs<D: SymbolicDomainOrd>(system: &SmartSystemUpdateFn<D>, universe: &Bdd) -> (r: Vec<
    Bdd,
>)
    requires
        system.wf(),
        bdd_num_vars(*universe) == system.num_vars(),
    ensures
        found_in(system, bdd_sat(*universe), r@),
        forall|i: int| 0 <= i < r@.len() ==> bdd_num_vars(#[trigger] r@[i]) == system.num_vars(),
{
    let ghost n = system.num_vars();
    let ghost all = bdd_sat(*universe);
    let mut components: Vec<Bdd> = Vec::new();
    let mut rest = universe.clone();
    while !rest.is_false()
        invariant
            system.wf(),
            n == system.num_vars(),
            all == bdd_sat(*universe),
            bdd_num_vars(rest) == n,
            bdd_sat(rest) == remaining(all, components@, components@.len() as int),
            forall|i: int|
                0 <= i < components@.len() ==> bdd_num_vars(#[trigger] components@[i]) == n
                    && is_component(system, remaining(all, components@, i), bdd_sat(components@[i])),
        decreases size(n, bdd_sat(rest)),
    {
        recall_width(&rest);
        let picked = pick_state(system, &rest);
        let pivot = picked.and(&rest);
        let component = weak_scc(system, &pivot, &rest);
        let ghost left = bdd_sat(rest);
        let ghost found = components@;
        let ghost taken = bdd_sat(component);
        let smaller = rest.and_not(&component);
        proof {
            let w = choose|w: Seq<bool>|
                #[trigger] left.contains(w) && bdd_sat(picked) == class_of(
                    n,
                    system.standard_positions(),
                    w,
                );
            assert(valuations(n).contains(w));
            assert(class_of(n, system.standard_positions(), w).contains(w));
            assert(bdd_sat(pivot).contains(w));
            assert(taken.contains(w));
            assert(left.contains(w) && taken.contains(w) && taken.subset_of(left) && grown_full(
                system,
                left,
                class_of(n, system.standard_positions(), w).intersect(left),
                taken,
            ));
            assert(is_component(system, left, taken));
            lemma_size_shrinks(n, left, bdd_sat(smaller), w);
        }
        rest = smaller;
        components.push(component);
        proof {
            assert forall|i: int| 0 <= i <= found.len() implies remaining(all, components@, i)
                == remaining(all, found, i) by {
                lemma_remaining_prefix(all, found, components@, i);
            }
            assert(components@[found.len() as int] == component);
            assert forall|v: Seq<bool>|
                remaining(all, components@, components@.len() as int).contains(v)
                    <==> left.difference(taken).contains(v) by {
                if left.difference(taken).contains(v) {
                    assert(remaining(all, found, found.len() as int).contains(v));
                    assert forall|j: int| 0 <= j < components@.len() implies !bdd_sat(
                        #[trigger] components@[j],
                    ).contains(v) by {
                        if j < found.len() {
                            assert(components@[j] == found[j]);
                        }
                    }
                }
                if remaining(all, components@, components@.len() as int).contains(v) {
                    assert(!bdd_sat(components@[found.len() as int]).contains(v));
                    assert forall|j: int| 0 <= j < found.len() implies !bdd_sat(
                        #[trigger] found[j],
                    ).contains(v) by {
                        assert(components@[j] == found[j]);
                    }
                }
            }
            assert(remaining(all, components@, components@.len() as int) =~= left.difference(
                taken,
            ));
            assert forall|i: int| 0 <= i < components@.len() implies bdd_num_vars(
                #[trigger] components@[i],
            ) == n && is_component(system, remaining(all, components@, i), bdd_sat(components@[i])) by {
                if i < found.len() {
                    assert(components@[i] == found[i]);
                }
            }
        }
    }
    components
}

/// What is left after the first components does not depend on the later
/// ones.
pub proof fn lemma_remaining_prefix(
    universe: Set<Seq<bool>>,
    short: Seq<Bdd>,
    long: Seq<Bdd>,
    upto: int,
)
    requires
        0 <= upto <= short.len() <= long.len(),
        forall|i: int| 0 <= i < short.len() ==> short[i] == long[i],
    ensures
        remaining(universe, long, upto) == remaining(universe, short, upto),
{
    assert forall|v: Seq<bool>| remaining(universe, long, upto).contains(v) <==> remaining(
        universe,
        short,
        upto,
    ).contains(v) by {
        if remaining(universe, long, upto).contains(v) {
            assert forall|j: int| 0 <= j < upto implies !bdd_sat(#[trigger] short[j]).contains(
                v,
            ) by {
                assert(!bdd_sat(long[j]).contains(v));
            }
        }
        if remaining(universe, short, upto).contains(v) {
            assert forall|j: int| 0 <= j < upto implies !bdd_sat(#[trigger] long[j]).contains(
                v,
            ) by {
                assert(!bdd_sat(short[j]).contains(v));
            }
        }
    }
    assert(remaining(universe, long, upto) =~= remaining(universe, short, upto));
}

/// What is left after the first components is what the universe holds
/// and none of those components holds.
pub proof fn lemma_remaining_members(
    universe: Set<Seq<bool>>,
    components: Seq<Bdd>,
    upto: int,
    v: Seq<bool>,
)
    requires
        0 <= upto <= components.len(),
    ensures
        remaining(universe, components, upto).contains(v) <==> universe.contains(v) && forall|
            j: int,
        | 0 <= j < upto ==> !bdd_sat(#[trigger] components[j]).contains(v),
{
}

/// The weak components of a universe divide it: every valuation of the
/// universe lies in exactly one component, every component lies in the
/// universe, and no component is empty.
pub proof fn lemma_components_partition<D: SymbolicDomainOrd>(
    system: &SmartSystemUpdateFn<D>,
    universe: Set<Seq<bool>>,
    components: Seq<Bdd>,
)
    requires
        found_in(system, universe, components),
    ensures
        forall|v: Seq<bool>|
            universe.contains(v) ==> exists|i: int|
                0 <= i < components.len() && bdd_sat(#[trigger] components[i]).contains(v),
        forall|i: int|
            0 <= i < components.len() ==> bdd_sat(#[trigger] components[i]).subset_of(universe)
                && bdd_sat(components[i]) != Set::<Seq<bool>>::empty(),
        forall|i: int, j: int|
            0 <= i < j < components.len() ==> bdd_sat(#[trigger] components[i]).disjoint(
                bdd_sat(#[trigger] components[j]),
            ),
{
    assert forall|v: Seq<bool>| universe.contains(v) implies exists|i: int|
        0 <= i < components.len() && bdd_sat(#[trigger] components[i]).contains(v) by {
        lemma_remaining_members(universe, components, components.len() as int, v);
        assert(!remaining(universe, components, components.len() as int).contains(v));
    }
    assert forall|i: int| 0 <= i < components.len() implies bdd_sat(
        #[trigger] components[i],
    ).subset_of(universe) && bdd_sat(components[i]) != Set::<Seq<bool>>::empty() by {
        let rest = remaining(universe, components, i);
        let part = bdd_sat(components[i]);
        assert(is_component(system, rest, part));
        let w = choose|w: Seq<bool>|
            {
                &&& #[trigger] rest.contains(w)
                &&& part.contains(w)
                &&& part.subset_of(rest)
                &&& grown_full(
                    system,
                    rest,
                    class_of(system.num_vars(), system.standard_positions(), w).intersect(rest),
                    part,
                )
            };
        assert forall|v: Seq<bool>| part.contains(v) implies universe.contains(v) by {
            assert(rest.contains(v));
            lemma_remaining_members(universe, components, i, v);
        }
    }
    assert forall|i: int, j: int| 0 <= i < j < components.len() implies bdd_sat(
        #[trigger] components[i],
    ).disjoint(bdd_sat(#[trigger] components[j])) by {
        let rest = remaining(universe, components, j);
        let part = bdd_sat(components[j]);
        assert(is_component(system, rest, part));
        assert(part.subset_of(rest));
        assert forall|v: Seq<bool>| !(bdd_sat(components[i]).contains(v) && part.contains(v)) by {
            if part.contains(v) {
                assert(rest.contains(v));
                lemma_remaining_members(universe, components, j, v);
            }
        }
    }
}

} // verus!
