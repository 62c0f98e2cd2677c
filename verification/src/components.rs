//! The weak components of a network: the sets of states that steps join,
//! forwards or backwards. They are the components that the search finds,
//! whatever the encoding and whichever states it picks.

use crate::agreement::{alike, lemma_closure_sound, sound};
use crate::bdd::bdd_sat;
use crate::closure::{
    abstract_closed, abstract_closure, abstract_step, closure, lemma_abstract_closure,
    lemma_abstract_closure_closed,
};
use crate::reachability::{found_in, grow, grown, is_component, remaining};
use crate::sameness::{lemma_same_steps, same_network};
use crate::semantics::{
    abstract_post, abstract_pre, abstract_states, agree, in_domain, lemma_abstract_meet,
    lemma_agreeing, lemma_same_state, lemma_state_in_domain, lemma_system_tables,
};
use crate::symbolic_domain::SymbolicDomainOrd;
use crate::system::{class_of, SmartSystemUpdateFn};
use crate::unprocessed::{mentions, names_of, UnprocessedVariableUpdateFn};
use crate::variable_update_fn::state_of;
use biodivine_lib_bdd::Bdd;
use vstd::prelude::*;

verus! {

/// A set of states that no step of any variable leaves, forwards or
/// backwards.
pub open spec fn both_closed(
    model: Seq<(String, UnprocessedVariableUpdateFn)>,
    xs: Set<Seq<int>>,
) -> bool {
    abstract_closed(model, true, xs) && abstract_closed(model, false, xs)
}

/// The weak component of a set of states: what lies in every set that
/// holds it and that no step leaves, forwards or backwards. These are the
/// states that steps join with the set, in whatever direction.
pub open spec fn weak_component(
    model: Seq<(String, UnprocessedVariableUpdateFn)>,
    xs: Set<Seq<int>>,
) -> Set<Seq<int>> {
    Set::new(
        |y: Seq<int>|
            forall|c: Set<Seq<int>>|
                xs.subset_of(c) && #[trigger] both_closed(model, c) ==> c.contains(y),
    )
}

/// The states of a network.
pub open spec fn states_of_network(model: Seq<(String, UnprocessedVariableUpdateFn)>) -> Set<
    Seq<int>,
> {
    Set::new(|x: Seq<int>| in_domain(model, x))
}

/// The set of one state.
pub open spec fn only(x: Seq<int>) -> Set<Seq<int>> {
    Set::<Seq<int>>::empty().insert(x)
}

/// One round of growing a set of states within a universe of states.
pub open spec fn abstract_grow(
    model: Seq<(String, UnprocessedVariableUpdateFn)>,
    universe: Set<Seq<int>>,
    xs: Set<Seq<int>>,
) -> Set<Seq<int>> {
    abstract_closure(model, true, abstract_closure(model, false, xs).intersect(universe)).intersect(
        universe,
    )
}

/// A set of states after some rounds of growing.
pub open spec fn abstract_grown(
    model: Seq<(String, UnprocessedVariableUpdateFn)>,
    universe: Set<Seq<int>>,
    xs: Set<Seq<int>>,
    rounds: nat,
) -> Set<Seq<int>>
    decreases rounds,
{
    if rounds == 0 {
        xs
    } else {
        abstract_grow(model, universe, abstract_grown(model, universe, xs, (rounds - 1) as nat))
    }
}

/// A larger set has a larger image under a step.
pub proof fn lemma_step_monotone(
    model: Seq<(String, UnprocessedVariableUpdateFn)>,
    forward: bool,
    i: int,
    small: Set<Seq<int>>,
    large: Set<Seq<int>>,
)
    requires
        small.subset_of(large),
    ensures
        abstract_step(model, forward, i, small).subset_of(abstract_step(model, forward, i, large)),
{
    assert forall|y: Seq<int>| abstract_step(model, forward, i, small).contains(
        y,
    ) implies abstract_step(model, forward, i, large).contains(y) by {
        if forward {
            let x = choose|x: Seq<int>|
                #[trigger] small.contains(x) && y == x.update(
                    i,
                    model[i].1.next_value(names_of(model), x),
                );
            assert(large.contains(x));
        }
    }
}

/// The closure of a set lies in every closed set that holds the set.
pub proof fn lemma_closure_within(
    model: Seq<(String, UnprocessedVariableUpdateFn)>,
    forward: bool,
    xs: Set<Seq<int>>,
    c: Set<Seq<int>>,
)
    requires
        xs.subset_of(c),
        abstract_closed(model, forward, c),
    ensures
        abstract_closure(model, forward, xs).subset_of(c),
{
}

/// The weak component of a set holds the set, and no step leaves it.
pub proof fn lemma_weak_component(model: Seq<(String, UnprocessedVariableUpdateFn)>, xs: Set<Seq<int>>)
    ensures
        xs.subset_of(weak_component(model, xs)),
        both_closed(model, weak_component(model, xs)),
{
    let whole = weak_component(model, xs);
    assert forall|forward: bool, i: int| 0 <= i < model.len() implies (#[trigger] abstract_step(
        model,
        forward,
        i,
        whole,
    )).subset_of(whole) by {
        assert forall|y: Seq<int>| abstract_step(model, forward, i, whole).contains(
            y,
        ) implies whole.contains(y) by {
            assert forall|c: Set<Seq<int>>|
                xs.subset_of(c) && #[trigger] both_closed(model, c) implies c.contains(y) by {
                assert(whole.subset_of(c));
                lemma_step_monotone(model, forward, i, whole, c);
                assert(abstract_step(model, forward, i, c).subset_of(c));
            }
        }
    }
    assert(abstract_closed(model, true, whole));
    assert(abstract_closed(model, false, whole));
}

/// The states of a network are a set that no step leaves.
pub proof fn lemma_states_closed(model: Seq<(String, UnprocessedVariableUpdateFn)>)
    ensures
        both_closed(model, states_of_network(model)),
{
    let all = states_of_network(model);
    let names = names_of(model);
    assert forall|i: int| 0 <= i < model.len() implies (#[trigger] abstract_step(
        model,
        true,
        i,
        all,
    )).subset_of(all) by {
        assert forall|y: Seq<int>| abstract_post(model, i, all).contains(y) implies all.contains(
            y,
        ) by {
            let x = choose|x: Seq<int>|
                #[trigger] all.contains(x) && y == x.update(i, model[i].1.next_value(names, x));
            let next = model[i].1.next_value(names, x);
            crate::relation::lemma_next_value_yields(&model[i].1, names, x);
            assert(mentions(model, i, next));
            assert forall|j: int| 0 <= j < model.len() implies 0 <= #[trigger] y[j] && exists|
                v: int,
            | mentions(model, j, v) && y[j] <= v by {
                if j == i {
                    assert(0 <= next) by {
                        if model[i].1.default != next {
                            let k = choose|k: int|
                                0 <= k < model[i].1.terms@.len() && (
                                #[trigger] model[i].1.terms@[k]).0 == next;
                        }
                    }
                    assert(mentions(model, i, next) && y[i] <= next);
                } else {
                    assert(0 <= x[j]);
                    let v = choose|v: int| mentions(model, j, v) && x[j] <= v;
                    assert(mentions(model, j, v) && y[j] <= v);
                }
            }
        }
    }
    assert forall|i: int| 0 <= i < model.len() implies (#[trigger] abstract_step(
        model,
        false,
        i,
        all,
    )).subset_of(all) by {}
}

/// Growing stays within the universe, within the weak component of the
/// set, and keeps the set.
pub proof fn lemma_grown_bounds(
    model: Seq<(String, UnprocessedVariableUpdateFn)>,
    universe: Set<Seq<int>>,
    xs: Set<Seq<int>>,
    rounds: nat,
)
    requires
        xs.subset_of(universe),
    ensures
        xs.subset_of(abstract_grown(model, universe, xs, rounds)),
        abstract_grown(model, universe, xs, rounds).subset_of(universe),
        abstract_grown(model, universe, xs, rounds).subset_of(weak_component(model, xs)),
    decreases rounds,
{
    lemma_weak_component(model, xs);
    if rounds > 0 {
        let before = abstract_grown(model, universe, xs, (rounds - 1) as nat);
        lemma_grown_bounds(model, universe, xs, (rounds - 1) as nat);
        let whole = weak_component(model, xs);
        lemma_abstract_closure_closed(model, false, before);
        let back = abstract_closure(model, false, before);
        lemma_closure_within(model, false, before, whole);
        let mid = back.intersect(universe);
        lemma_abstract_closure_closed(model, true, mid);
        lemma_closure_within(model, true, mid, whole);
    }
}

/// Within a universe that no step leaves, a set that a round of growing
/// no longer enlarges is the weak component of what it grew from.
pub proof fn lemma_fixpoint_is_component(
    model: Seq<(String, UnprocessedVariableUpdateFn)>,
    universe: Set<Seq<int>>,
    xs: Set<Seq<int>>,
    rounds: nat,
)
    requires
        both_closed(model, universe),
        xs.subset_of(universe),
        abstract_grow(model, universe, abstract_grown(model, universe, xs, rounds)).subset_of(
            abstract_grown(model, universe, xs, rounds),
        ),
    ensures
        abstract_grown(model, universe, xs, rounds) == weak_component(model, xs),
{
    let c = abstract_grown(model, universe, xs, rounds);
    lemma_grown_bounds(model, universe, xs, rounds);
    let back = abstract_closure(model, false, c);
    lemma_abstract_closure_closed(model, false, c);
    lemma_closure_within(model, false, c, universe);
    assert(back.intersect(universe) =~= back);
    let forth = abstract_closure(model, true, back);
    lemma_abstract_closure_closed(model, true, back);
    lemma_closure_within(model, true, back, universe);
    assert(forth.intersect(universe) =~= forth);
    assert(abstract_grow(model, universe, c) == forth);
    assert(c.subset_of(back));
    assert(back.subset_of(forth));
    assert(forth.subset_of(c));
    assert(back =~= c);
    assert(forth =~= c);
    assert(both_closed(model, c));
    assert forall|y: Seq<int>| weak_component(model, xs).contains(y) implies c.contains(y) by {
        assert(xs.subset_of(c) && both_closed(model, c));
    }
    assert(c =~= weak_component(model, xs));
}

/// What is left of a universe that no step leaves, after a set that no
/// step leaves was taken out of it, is a set that no step leaves.
pub proof fn lemma_rest_closed(
    model: Seq<(String, UnprocessedVariableUpdateFn)>,
    universe: Set<Seq<int>>,
    part: Set<Seq<int>>,
)
    requires
        both_closed(model, universe),
        both_closed(model, part),
        universe.subset_of(states_of_network(model)),
    ensures
        both_closed(model, universe.difference(part)),
{
    let rest = universe.difference(part);
    let names = names_of(model);
    assert forall|i: int| 0 <= i < model.len() implies (#[trigger] abstract_step(
        model,
        true,
        i,
        rest,
    )).subset_of(rest) by {
        assert(abstract_step(model, true, i, universe).subset_of(universe));
        assert(abstract_step(model, false, i, part).subset_of(part));
        assert forall|y: Seq<int>| abstract_post(model, i, rest).contains(y) implies rest.contains(
            y,
        ) by {
            let x = choose|x: Seq<int>|
                #[trigger] rest.contains(x) && y == x.update(i, model[i].1.next_value(names, x));
            assert(universe.contains(x) && y == x.update(i, model[i].1.next_value(names, x)));
            assert(abstract_post(model, i, universe).contains(y));
            if part.contains(y) {
                assert(in_domain(model, x));
                assert(abstract_pre(model, i, part).contains(x));
            }
        }
    }
    assert forall|i: int| 0 <= i < model.len() implies (#[trigger] abstract_step(
        model,
        false,
        i,
        rest,
    )).subset_of(rest) by {
        assert(abstract_step(model, false, i, universe).subset_of(universe));
        assert(abstract_step(model, true, i, part).subset_of(part));
        assert forall|x: Seq<int>| abstract_pre(model, i, rest).contains(x) implies rest.contains(
            x,
        ) by {
            let y = x.update(i, model[i].1.next_value(names, x));
            assert(abstract_pre(model, i, universe).contains(x));
            if part.contains(x) {
                assert(part.contains(x) && y == x.update(i, model[i].1.next_value(names, x)));
                assert(abstract_post(model, i, part).contains(y));
            }
        }
    }
}

/// The weak component of a state is the weak component of each of its
/// states: the weak components divide the states of a network.
pub proof fn lemma_component_of_member(
    model: Seq<(String, UnprocessedVariableUpdateFn)>,
    x: Seq<int>,
    y: Seq<int>,
)
    requires
        in_domain(model, x),
        weak_component(model, only(x)).contains(y),
    ensures
        weak_component(model, only(y)) == weak_component(model, only(x)),
{
    let large = weak_component(model, only(x));
    let small = weak_component(model, only(y));
    lemma_weak_component(model, only(x));
    lemma_weak_component(model, only(y));
    lemma_states_closed(model);
    assert forall|z: Seq<int>| large.contains(z) implies states_of_network(model).contains(z) by {
        assert(only(x).subset_of(states_of_network(model)) && both_closed(
            model,
            states_of_network(model),
        ));
    }
    assert forall|z: Seq<int>| small.contains(z) implies large.contains(z) by {
        assert(only(y).subset_of(large) && both_closed(model, large));
    }
    lemma_rest_closed(model, large, small);
    let rest = large.difference(small);
    if !small.contains(x) {
        assert(only(x).subset_of(rest) && both_closed(model, rest));
        assert(rest.contains(y));
        assert(only(y).subset_of(small));
        assert(small.contains(y));
    }
    assert forall|z: Seq<int>| large.contains(z) implies small.contains(z) by {
        assert(only(x).subset_of(small) && both_closed(model, small));
    }
    assert(small =~= large);
}

/// One round of growing in a system stands for one round of growing in
/// its network.
pub proof fn lemma_abstract_grow<D: SymbolicDomainOrd>(
    system: &SmartSystemUpdateFn<D>,
    universe: Set<Seq<bool>>,
    s: Set<Seq<bool>>,
)
    requires
        system.wf(),
        sound(system, universe),
        sound(system, s),
    ensures
        sound(system, grow(system, universe, s)),
        abstract_states(system, grow(system, universe, s)) == abstract_grow(
            system.model(),
            abstract_states(system, universe),
            abstract_states(system, s),
        ),
{
    let back = closure(system, false, s);
    lemma_closure_sound(system, false, s);
    lemma_abstract_closure(system, false, s);
    lemma_abstract_meet(system, back, universe);
    let mid = back.intersect(universe);
    lemma_closure_sound(system, true, mid);
    lemma_abstract_closure(system, true, mid);
    lemma_abstract_meet(system, closure(system, true, mid), universe);
}

/// Any number of rounds of growing in a system stands for as many rounds
/// of growing in its network.
pub proof fn lemma_abstract_grown<D: SymbolicDomainOrd>(
    system: &SmartSystemUpdateFn<D>,
    universe: Set<Seq<bool>>,
    s: Set<Seq<bool>>,
    rounds: nat,
)
    requires
        system.wf(),
        sound(system, universe),
        sound(system, s),
    ensures
        sound(system, grown(system, universe, s, rounds)),
        abstract_states(system, grown(system, universe, s, rounds)) == abstract_grown(
            system.model(),
            abstract_states(system, universe),
            abstract_states(system, s),
            rounds,
        ),
    decreases rounds,
{
    if rounds > 0 {
        lemma_abstract_grown(system, universe, s, (rounds - 1) as nat);
        lemma_abstract_grow(system, universe, grown(system, universe, s, (rounds - 1) as nat));
    }
}

/// The valuations of a set of states that agree with one of them on the
/// unprimed blocks stand for the state of that one, and for no other.
pub proof fn lemma_seed<D: SymbolicDomainOrd>(
    system: &SmartSystemUpdateFn<D>,
    rest: Set<Seq<bool>>,
    w: Seq<bool>,
)
    requires
        system.wf(),
        sound(system, rest),
        rest.contains(w),
    ensures
        sound(
            system,
            class_of(system.num_vars(), system.standard_positions(), w).intersect(rest),
        ),
        abstract_states(
            system,
            class_of(system.num_vars(), system.standard_positions(), w).intersect(rest),
        ) == only(state_of(system.blocks(), system.tables(), w)),
{
    lemma_system_tables(system);
    let n = system.num_vars();
    let on = system.standard_positions();
    let blocks = system.blocks();
    let tables = system.tables();
    let class = class_of(n, on, w);
    let seed = class.intersect(rest);
    let x = state_of(blocks, tables, w);
    assert forall|a: Seq<bool>, b: Seq<bool>|
        a.len() == n && b.len() == n && #[trigger] seed.contains(a) && agree(
            a,
            b,
            on,
        ) implies #[trigger] seed.contains(b) by {
        assert(rest.contains(b));
        assert forall|k: int| 0 <= k < n && on.contains(k) implies #[trigger] b[k] == w[k] by {
            assert(a[k] == w[k]);
            assert(a[k] == b[k]);
        }
    }
    assert(class.contains(w));
    assert forall|y: Seq<int>| abstract_states(system, seed).contains(y) <==> only(x).contains(
        y,
    ) by {
        if abstract_states(system, seed).contains(y) {
            let t = choose|t: Seq<bool>|
                #[trigger] seed.contains(t) && system.states().contains(t) && state_of(
                    blocks,
                    tables,
                    t,
                ) == y;
            assert forall|k: int| 0 <= k < w.len() && on.contains(k) implies #[trigger] w[k]
                == t[k] by {
                assert(t[k] == w[k]);
            }
            assert(agree(w, t, on));
            lemma_agreeing(system, w, t);
            lemma_same_state(blocks, tables, w, t);
        }
        if y == x {
            assert(seed.contains(w) && system.states().contains(w) && state_of(blocks, tables, w)
                == y);
        }
    }
    assert(abstract_states(system, seed) =~= only(x));
}

/// The diagram is a set of states of the system that stands for the weak
/// component of some state of the network.
pub open spec fn stands_for_component<D: SymbolicDomainOrd>(
    system: &SmartSystemUpdateFn<D>,
    component: Bdd,
) -> bool {
    sound(system, bdd_sat(component)) && exists|x: Seq<int>|
        in_domain(system.model(), x) && abstract_states(system, bdd_sat(component))
            == weak_component(system.model(), only(x))
}

/// What holds of what is left before component `upto` and of the
/// components before it, in a universe whose states no step leaves.
pub open spec fn parted<D: SymbolicDomainOrd>(
    system: &SmartSystemUpdateFn<D>,
    universe: Set<Seq<bool>>,
    components: Seq<Bdd>,
    upto: int,
) -> bool {
    &&& sound(system, remaining(universe, components, upto))
    &&& both_closed(
        system.model(),
        abstract_states(system, remaining(universe, components, upto)),
    )
    &&& forall|j: int| 0 <= j < upto ==> stands_for_component(system, #[trigger] components[j])
}

/// The states that a set of states of a system stands for are states of
/// the network.
pub proof fn lemma_meant_in_network<D: SymbolicDomainOrd>(
    system: &SmartSystemUpdateFn<D>,
    s: Set<Seq<bool>>,
)
    requires
        system.wf(),
    ensures
        abstract_states(system, s).subset_of(states_of_network(system.model())),
{
    assert forall|y: Seq<int>| abstract_states(system, s).contains(y) implies states_of_network(
        system.model(),
    ).contains(y) by {
        let t = choose|t: Seq<bool>|
            #[trigger] s.contains(t) && system.states().contains(t) && state_of(
                system.blocks(),
                system.tables(),
                t,
            ) == y;
        lemma_state_in_domain(system, t);
    }
}

/// A set that a round of growing no longer enlarges in a system stands for
/// a set that a round of growing no longer enlarges in the network.
pub proof fn lemma_fixpoint_meant<D: SymbolicDomainOrd>(
    system: &SmartSystemUpdateFn<D>,
    rest: Set<Seq<bool>>,
    part: Set<Seq<bool>>,
)
    requires
        system.wf(),
        sound(system, rest),
        sound(system, part),
        grow(system, rest, part).subset_of(part),
    ensures
        abstract_grow(
            system.model(),
            abstract_states(system, rest),
            abstract_states(system, part),
        ).subset_of(abstract_states(system, part)),
{
    lemma_abstract_grow(system, rest, part);
    let grown_once = grow(system, rest, part);
    assert forall|y: Seq<int>| abstract_states(system, grown_once).contains(
        y,
    ) implies abstract_states(system, part).contains(y) by {
        let t = choose|t: Seq<bool>|
            #[trigger] grown_once.contains(t) && system.states().contains(t) && state_of(
                system.blocks(),
                system.tables(),
                t,
            ) == y;
        assert(part.contains(t));
    }
}

/// A component that the search finds in what is left of a universe whose
/// states no step leaves stands for a weak component of the network, and
/// what is left after it is again a set whose states no step leaves.
pub proof fn lemma_component_step<D: SymbolicDomainOrd>(
    system: &SmartSystemUpdateFn<D>,
    rest: Set<Seq<bool>>,
    part: Set<Seq<bool>>,
)
    requires
        system.wf(),
        sound(system, rest),
        both_closed(system.model(), abstract_states(system, rest)),
        is_component(system, rest, part),
    ensures
        sound(system, part),
        exists|x: Seq<int>|
            in_domain(system.model(), x) && abstract_states(system, part) == weak_component(
                system.model(),
                only(x),
            ),
        sound(system, rest.difference(part)),
        both_closed(system.model(), abstract_states(system, rest.difference(part))),
{
    let model = system.model();
    let n = system.num_vars();
    let on = system.standard_positions();
    let w = choose|w: Seq<bool>|
        {
            &&& #[trigger] rest.contains(w)
            &&& part.contains(w)
            &&& part.subset_of(rest)
            &&& crate::reachability::grown_full(
                system,
                rest,
                class_of(n, on, w).intersect(rest),
                part,
            )
        };
    let seed = class_of(n, on, w).intersect(rest);
    let x = state_of(system.blocks(), system.tables(), w);
    let all = abstract_states(system, rest);
    let meant = abstract_states(system, part);
    lemma_seed(system, rest, w);
    assert(in_domain(model, x)) by {
        lemma_state_in_domain(system, w);
    }
    let rounds = choose|rounds: nat|
        {
            &&& part == #[trigger] grown(system, rest, seed, rounds)
            &&& grow(system, rest, part).subset_of(part)
            &&& forall|earlier: nat|
                earlier < rounds ==> !grow(
                    system,
                    rest,
                    #[trigger] grown(system, rest, seed, earlier),
                ).subset_of(grown(system, rest, seed, earlier))
        };
    assert(sound(system, part) && meant == abstract_grown(model, all, only(x), rounds)) by {
        lemma_abstract_grown(system, rest, seed, rounds);
    }
    assert(abstract_grow(model, all, meant).subset_of(meant)) by {
        lemma_fixpoint_meant(system, rest, part);
    }
    assert(only(x).subset_of(all)) by {
        assert(rest.contains(w) && system.states().contains(w) && state_of(
            system.blocks(),
            system.tables(),
            w,
        ) == x);
        assert(all.contains(x));
    }
    assert(meant == weak_component(model, only(x))) by {
        lemma_fixpoint_is_component(model, all, only(x), rounds);
    }
    assert(both_closed(model, meant)) by {
        lemma_weak_component(model, only(x));
    }
    assert(sound(system, rest.difference(part)) && abstract_states(system, rest.difference(part))
        == all.difference(meant)) by {
        lemma_abstract_meet(system, rest, part);
    }
    assert(both_closed(model, all.difference(meant))) by {
        lemma_meant_in_network(system, rest);
        lemma_rest_closed(model, all, meant);
    }
}

/// One more component: what holds before it holds after it.
pub proof fn lemma_parted_step<D: SymbolicDomainOrd>(
    system: &SmartSystemUpdateFn<D>,
    universe: Set<Seq<bool>>,
    components: Seq<Bdd>,
    last: int,
)
    requires
        system.wf(),
        0 <= last < components.len(),
        parted(system, universe, components, last),
        is_component(system, remaining(universe, components, last), bdd_sat(components[last])),
    ensures
        parted(system, universe, components, last + 1),
{
    let rest = remaining(universe, components, last);
    let part = bdd_sat(components[last]);
    lemma_component_step(system, rest, part);
    assert(remaining(universe, components, last + 1) =~= rest.difference(part)) by {
        assert forall|v: Seq<bool>| remaining(universe, components, last + 1).contains(v)
            <==> rest.difference(part).contains(v) by {
            if remaining(universe, components, last + 1).contains(v) {
                assert(!bdd_sat(components[last]).contains(v));
            }
        }
    }
    assert(stands_for_component(system, components[last]));
}

/// Every component that the search finds stands for a weak component of
/// the network, and what is left after it is again a set that no step
/// leaves.
pub proof fn lemma_parted<D: SymbolicDomainOrd>(
    system: &SmartSystemUpdateFn<D>,
    universe: Set<Seq<bool>>,
    components: Seq<Bdd>,
    upto: int,
)
    requires
        system.wf(),
        sound(system, universe),
        both_closed(system.model(), abstract_states(system, universe)),
        0 <= upto <= components.len(),
        forall|i: int|
            0 <= i < components.len() ==> is_component(
                system,
                remaining(universe, components, i),
                bdd_sat(#[trigger] components[i]),
            ),
    ensures
        parted(system, universe, components, upto),
    decreases upto,
{
    if upto > 0 {
        lemma_parted(system, universe, components, upto - 1);
        lemma_parted_step(system, universe, components, upto - 1);
    } else {
        assert(remaining(universe, components, 0) =~= universe);
    }
}

/// The components that the search finds in a universe whose states no
/// step leaves are the weak components of the network: each stands for the
/// weak component of every state in it. So the family of components is
/// the same whatever the encoding and whichever states are picked.
pub proof fn lemma_components_are_weak_components<D: SymbolicDomainOrd>(
    system: &SmartSystemUpdateFn<D>,
    universe: Set<Seq<bool>>,
    components: Seq<Bdd>,
    i: int,
    x: Seq<int>,
)
    requires
        system.wf(),
        sound(system, universe),
        both_closed(system.model(), abstract_states(system, universe)),
        forall|j: int|
            0 <= j < components.len() ==> is_component(
                system,
                remaining(universe, components, j),
                bdd_sat(#[trigger] components[j]),
            ),
        0 <= i < components.len(),
        abstract_states(system, bdd_sat(components[i])).contains(x),
    ensures
        abstract_states(system, bdd_sat(components[i])) == weak_component(system.model(), only(x)),
{
    lemma_parted(system, universe, components, components.len() as int);
    assert(stands_for_component(system, components[i]));
    let seed = choose|seed: Seq<int>|
        in_domain(system.model(), seed) && abstract_states(system, bdd_sat(components[i]))
            == weak_component(system.model(), only(seed));
    lemma_component_of_member(system.model(), seed, x);
}

/// The set of all states of a system is a universe whose states no step
/// leaves: the search for components may start from it.
pub proof fn lemma_all_states_closed<D: SymbolicDomainOrd>(system: &SmartSystemUpdateFn<D>)
    requires
        system.wf(),
    ensures
        sound(system, system.states()),
        both_closed(system.model(), abstract_states(system, system.states())),
{
    crate::semantics::lemma_abstract_unit(system);
    lemma_states_closed(system.model());
    assert(abstract_states(system, system.states()) =~= states_of_network(system.model()));
}

/// In the same networks the same sets of states are left by no step.
pub proof fn lemma_same_both_closed(
    a: Seq<(String, UnprocessedVariableUpdateFn)>,
    b: Seq<(String, UnprocessedVariableUpdateFn)>,
    c: Set<Seq<int>>,
)
    requires
        same_network(a, b),
    ensures
        both_closed(a, c) == both_closed(b, c),
{
    assert forall|forward: bool, i: int| 0 <= i < a.len() implies #[trigger] abstract_step(
        a,
        forward,
        i,
        c,
    ) == abstract_step(b, forward, i, c) by {
        lemma_same_steps(a, b, forward, i, c);
    }
    assert(a.len() == b.len());
    assert forall|forward: bool| #[trigger]
        abstract_closed(a, forward, c) == abstract_closed(b, forward, c) by {
        if abstract_closed(a, forward, c) {
            assert forall|i: int| 0 <= i < b.len() implies (#[trigger] abstract_step(
                b,
                forward,
                i,
                c,
            )).subset_of(c) by {
                assert(abstract_step(a, forward, i, c).subset_of(c));
            }
        }
        if abstract_closed(b, forward, c) {
            assert forall|i: int| 0 <= i < a.len() implies (#[trigger] abstract_step(
                a,
                forward,
                i,
                c,
            )).subset_of(c) by {
                assert(abstract_step(b, forward, i, c).subset_of(c));
            }
        }
    }
    assert(abstract_closed(a, true, c) == abstract_closed(b, true, c));
    assert(abstract_closed(a, false, c) == abstract_closed(b, false, c));
}

/// The same networks have the same weak components.
pub proof fn lemma_same_weak_component(
    a: Seq<(String, UnprocessedVariableUpdateFn)>,
    b: Seq<(String, UnprocessedVariableUpdateFn)>,
    xs: Set<Seq<int>>,
)
    requires
        same_network(a, b),
    ensures
        weak_component(a, xs) == weak_component(b, xs),
{
    assert forall|c: Set<Seq<int>>| #[trigger] both_closed(a, c) == both_closed(b, c) by {
        lemma_same_both_closed(a, b, c);
    }
    assert forall|y: Seq<int>| weak_component(a, xs).contains(y) <==> weak_component(
        b,
        xs,
    ).contains(y) by {
        if weak_component(a, xs).contains(y) {
            assert forall|c: Set<Seq<int>>| xs.subset_of(c) && #[trigger] both_closed(
                b,
                c,
            ) implies c.contains(y) by {
                assert(both_closed(a, c));
            }
        }
        if weak_component(b, xs).contains(y) {
            assert forall|c: Set<Seq<int>>| xs.subset_of(c) && #[trigger] both_closed(
                a,
                c,
            ) implies c.contains(y) by {
                assert(both_closed(b, c));
            }
        }
    }
    assert(weak_component(a, xs) =~= weak_component(b, xs));
}

/// Some component of the sequence stands for the given states.
pub open spec fn among<D: SymbolicDomainOrd>(
    system: &SmartSystemUpdateFn<D>,
    components: Seq<Bdd>,
    meant: Set<Seq<int>>,
) -> bool {
    exists|j: int|
        0 <= j < components.len() && abstract_states(system, bdd_sat(#[trigger] components[j]))
            == meant
}

/// Two systems of one network, each in whatever encoding, find the same
/// family of components in universes that stand for the same states and
/// that no step leaves, whichever states each search picks: what a
/// component of the one stands for, a component of the other stands for.
pub proof fn lemma_same_family<A: SymbolicDomainOrd, B: SymbolicDomainOrd>(
    first: &SmartSystemUpdateFn<A>,
    second: &SmartSystemUpdateFn<B>,
    first_universe: Set<Seq<bool>>,
    second_universe: Set<Seq<bool>>,
    first_components: Seq<Bdd>,
    second_components: Seq<Bdd>,
    i: int,
)
    requires
        first.wf(),
        second.wf(),
        same_network(first.model(), second.model()),
        alike(first, second, first_universe, second_universe),
        both_closed(first.model(), abstract_states(first, first_universe)),
        found_in(first, first_universe, first_components),
        found_in(second, second_universe, second_components),
        0 <= i < first_components.len(),
    ensures
        among(second, second_components, abstract_states(first, bdd_sat(first_components[i]))),
{
    let part = bdd_sat(first_components[i]);
    let rest = remaining(first_universe, first_components, i);
    assert(is_component(first, rest, part));
    let w = choose|w: Seq<bool>| #[trigger] rest.contains(w) && part.contains(w);
    assert(first_universe.contains(w) && first.states().contains(w));
    let x = state_of(first.blocks(), first.tables(), w);
    assert(abstract_states(first, part).contains(x));
    assert(abstract_states(first, first_universe).contains(x));
    assert(abstract_states(second, second_universe).contains(x));
    let t = choose|t: Seq<bool>|
        #[trigger] second_universe.contains(t) && second.states().contains(t) && state_of(
            second.blocks(),
            second.tables(),
            t,
        ) == x;
    let end = second_components.len() as int;
    assert(!remaining(second_universe, second_components, end).contains(t));
    let j = choose|j: int| 0 <= j < end && bdd_sat(#[trigger] second_components[j]).contains(t);
    assert(abstract_states(second, bdd_sat(second_components[j])).contains(x));
    lemma_same_both_closed(
        first.model(),
        second.model(),
        abstract_states(first, first_universe),
    );
    lemma_components_are_weak_components(first, first_universe, first_components, i, x);
    lemma_components_are_weak_components(second, second_universe, second_components, j, x);
    lemma_same_weak_component(first.model(), second.model(), only(x));
    assert(abstract_states(second, bdd_sat(second_components[j])) == abstract_states(
        first,
        part,
    ));
}

} // verus!
