//! Systems of one network in different encodings agree: what one computes
//! stands for the same states as what the other computes.

use crate::closure::{
    closed_under, closure, lemma_abstract_closure, lemma_closure_proper, step_image,
};
use crate::reachability::{grow, grown, grown_full};
use crate::sameness::{lemma_same_closure, lemma_same_steps, same_network};
use crate::semantics::{
    abstract_states, lemma_abstract_meet, lemma_abstract_predecessors, lemma_abstract_successors,
    lemma_images_are_states, lemma_same_state_agrees, proper,
};
use crate::symbolic_domain::SymbolicDomainOrd;
use crate::system::SmartSystemUpdateFn;
use crate::variable_update_fn::state_of;
use vstd::prelude::*;

verus! {

/// A set of states of a system: a set that lies within the states and does
/// not tell apart valuations that agree on the unprimed blocks.
pub open spec fn sound<D: SymbolicDomainOrd>(system: &SmartSystemUpdateFn<D>, s: Set<Seq<bool>>) -> bool {
    proper(system, s) && s.subset_of(system.states())
}

/// Two sets of states, each of its own system, that stand for the same
/// states.
pub open spec fn alike<A: SymbolicDomainOrd, B: SymbolicDomainOrd>(
    first: &SmartSystemUpdateFn<A>,
    second: &SmartSystemUpdateFn<B>,
    here: Set<Seq<bool>>,
    there: Set<Seq<bool>>,
) -> bool {
    sound(first, here) && sound(second, there) && abstract_states(first, here) == abstract_states(
        second,
        there,
    )
}

/// Of two sets of states of one system, the first lies within the second
/// exactly if its states are among the states of the second.
pub proof fn lemma_subset_by_meaning<D: SymbolicDomainOrd>(
    system: &SmartSystemUpdateFn<D>,
    small: Set<Seq<bool>>,
    large: Set<Seq<bool>>,
)
    requires
        system.wf(),
        sound(system, small),
        sound(system, large),
    ensures
        small.subset_of(large) <==> abstract_states(system, small).subset_of(
            abstract_states(system, large),
        ),
{
    let blocks = system.blocks();
    let tables = system.tables();
    if small.subset_of(large) {
        assert forall|x: Seq<int>| abstract_states(system, small).contains(
            x,
        ) implies abstract_states(system, large).contains(x) by {
            let t = choose|t: Seq<bool>|
                #[trigger] small.contains(t) && system.states().contains(t) && state_of(
                    blocks,
                    tables,
                    t,
                ) == x;
            assert(large.contains(t));
        }
    }
    if abstract_states(system, small).subset_of(abstract_states(system, large)) {
        assert forall|t: Seq<bool>| small.contains(t) implies large.contains(t) by {
            let x = state_of(blocks, tables, t);
            assert(small.contains(t) && system.states().contains(t) && state_of(blocks, tables, t)
                == x);
            assert(abstract_states(system, small).contains(x));
            let u = choose|u: Seq<bool>|
                #[trigger] large.contains(u) && system.states().contains(u) && state_of(
                    blocks,
                    tables,
                    u,
                ) == x;
            lemma_same_state_agrees(system, u, t);
        }
    }
}

/// The images of two sets that stand for the same states, under a step of
/// the same variable in the same direction, stand for the same states.
pub proof fn lemma_images_alike<A: SymbolicDomainOrd, B: SymbolicDomainOrd>(
    first: &SmartSystemUpdateFn<A>,
    second: &SmartSystemUpdateFn<B>,
    forward: bool,
    i: int,
    here: Set<Seq<bool>>,
    there: Set<Seq<bool>>,
)
    requires
        first.wf(),
        second.wf(),
        same_network(first.model(), second.model()),
        0 <= i < first.model().len(),
        alike(first, second, here, there),
    ensures
        alike(
            first,
            second,
            step_image(first, forward, i, here),
            step_image(second, forward, i, there),
        ),
{
    lemma_images_are_states(first, i, here);
    lemma_images_are_states(second, i, there);
    lemma_same_steps(first.model(), second.model(), forward, i, abstract_states(first, here));
    if forward {
        lemma_abstract_successors(first, i, here);
        lemma_abstract_successors(second, i, there);
    } else {
        lemma_abstract_predecessors(first, i, here);
        lemma_abstract_predecessors(second, i, there);
    }
}

/// The closure of a set of states is a set of states.
pub proof fn lemma_closure_sound<D: SymbolicDomainOrd>(
    system: &SmartSystemUpdateFn<D>,
    forward: bool,
    s: Set<Seq<bool>>,
)
    requires
        system.wf(),
        sound(system, s),
    ensures
        sound(system, closure(system, forward, s)),
{
    lemma_closure_proper(system, forward, s);
    assert forall|i: int| 0 <= i < system.model().len() implies (#[trigger] step_image(
        system,
        forward,
        i,
        system.states(),
    )).subset_of(system.states()) by {
        lemma_images_are_states(system, i, system.states());
    }
    assert(closed_under(system, forward, system.states()));
    assert forall|t: Seq<bool>| closure(system, forward, s).contains(
        t,
    ) implies system.states().contains(t) by {
        assert(s.subset_of(system.states()) && closed_under(system, forward, system.states()));
    }
}

/// The closures of two sets that stand for the same states stand for the
/// same states: reachability does not depend on the encoding.
pub proof fn lemma_closures_alike<A: SymbolicDomainOrd, B: SymbolicDomainOrd>(
    first: &SmartSystemUpdateFn<A>,
    second: &SmartSystemUpdateFn<B>,
    forward: bool,
    here: Set<Seq<bool>>,
    there: Set<Seq<bool>>,
)
    requires
        first.wf(),
        second.wf(),
        same_network(first.model(), second.model()),
        alike(first, second, here, there),
    ensures
        alike(first, second, closure(first, forward, here), closure(second, forward, there)),
{
    lemma_closure_sound(first, forward, here);
    lemma_closure_sound(second, forward, there);
    lemma_abstract_closure(first, forward, here);
    lemma_abstract_closure(second, forward, there);
    lemma_same_closure(first.model(), second.model(), forward, abstract_states(first, here));
}

/// The parts that two pairs of alike sets share are alike.
pub proof fn lemma_meets_alike<A: SymbolicDomainOrd, B: SymbolicDomainOrd>(
    first: &SmartSystemUpdateFn<A>,
    second: &SmartSystemUpdateFn<B>,
    here: Set<Seq<bool>>,
    there: Set<Seq<bool>>,
    here_too: Set<Seq<bool>>,
    there_too: Set<Seq<bool>>,
)
    requires
        first.wf(),
        second.wf(),
        alike(first, second, here, there),
        alike(first, second, here_too, there_too),
    ensures
        alike(first, second, here.intersect(here_too), there.intersect(there_too)),
        alike(first, second, here.difference(here_too), there.difference(there_too)),
{
    lemma_abstract_meet(first, here, here_too);
    lemma_abstract_meet(second, there, there_too);
}

/// One round of growing, in two systems of one network, keeps alike sets
/// alike.
pub proof fn lemma_grow_alike<A: SymbolicDomainOrd, B: SymbolicDomainOrd>(
    first: &SmartSystemUpdateFn<A>,
    second: &SmartSystemUpdateFn<B>,
    first_universe: Set<Seq<bool>>,
    second_universe: Set<Seq<bool>>,
    here: Set<Seq<bool>>,
    there: Set<Seq<bool>>,
)
    requires
        first.wf(),
        second.wf(),
        same_network(first.model(), second.model()),
        alike(first, second, first_universe, second_universe),
        alike(first, second, here, there),
    ensures
        alike(
            first,
            second,
            grow(first, first_universe, here),
            grow(second, second_universe, there),
        ),
{
    let back_here = closure(first, false, here);
    let back_there = closure(second, false, there);
    lemma_closures_alike(first, second, false, here, there);
    lemma_meets_alike(first, second, back_here, back_there, first_universe, second_universe);
    let mid_here = back_here.intersect(first_universe);
    let mid_there = back_there.intersect(second_universe);
    lemma_closures_alike(first, second, true, mid_here, mid_there);
    lemma_meets_alike(
        first,
        second,
        closure(first, true, mid_here),
        closure(second, true, mid_there),
        first_universe,
        second_universe,
    );
}

/// Any number of rounds of growing keeps alike sets alike.
pub proof fn lemma_grown_alike<A: SymbolicDomainOrd, B: SymbolicDomainOrd>(
    first: &SmartSystemUpdateFn<A>,
    second: &SmartSystemUpdateFn<B>,
    first_universe: Set<Seq<bool>>,
    second_universe: Set<Seq<bool>>,
    here: Set<Seq<bool>>,
    there: Set<Seq<bool>>,
    rounds: nat,
)
    requires
        first.wf(),
        second.wf(),
        same_network(first.model(), second.model()),
        alike(first, second, first_universe, second_universe),
        alike(first, second, here, there),
    ensures
        alike(
            first,
            second,
            grown(first, first_universe, here, rounds),
            grown(second, second_universe, there, rounds),
        ),
    decreases rounds,
{
    if rounds > 0 {
        lemma_grown_alike(
            first,
            second,
            first_universe,
            second_universe,
            here,
            there,
            (rounds - 1) as nat,
        );
        lemma_grow_alike(
            first,
            second,
            first_universe,
            second_universe,
            grown(first, first_universe, here, (rounds - 1) as nat),
            grown(second, second_universe, there, (rounds - 1) as nat),
        );
    }
}

/// The weak components of alike pivots within alike universes are alike:
/// the component of a state does not depend on the encoding.
pub proof fn lemma_components_alike<A: SymbolicDomainOrd, B: SymbolicDomainOrd>(
    first: &SmartSystemUpdateFn<A>,
    second: &SmartSystemUpdateFn<B>,
    first_universe: Set<Seq<bool>>,
    second_universe: Set<Seq<bool>>,
    first_pivot: Set<Seq<bool>>,
    second_pivot: Set<Seq<bool>>,
    first_component: Set<Seq<bool>>,
    second_component: Set<Seq<bool>>,
)
    requires
        first.wf(),
        second.wf(),
        same_network(first.model(), second.model()),
        alike(first, second, first_universe, second_universe),
        alike(first, second, first_pivot, second_pivot),
        grown_full(first, first_universe, first_pivot, first_component),
        grown_full(second, second_universe, second_pivot, second_component),
    ensures
        alike(first, second, first_component, second_component),
{
    let a = choose|rounds: nat|
        {
            &&& first_component == #[trigger] grown(first, first_universe, first_pivot, rounds)
            &&& grow(first, first_universe, first_component).subset_of(first_component)
            &&& forall|earlier: nat|
                earlier < rounds ==> !grow(
                    first,
                    first_universe,
                    #[trigger] grown(first, first_universe, first_pivot, earlier),
                ).subset_of(grown(first, first_universe, first_pivot, earlier))
        };
    let b = choose|rounds: nat|
        {
            &&& second_component == #[trigger] grown(second, second_universe, second_pivot, rounds)
            &&& grow(second, second_universe, second_component).subset_of(second_component)
            &&& forall|earlier: nat|
                earlier < rounds ==> !grow(
                    second,
                    second_universe,
                    #[trigger] grown(second, second_universe, second_pivot, earlier),
                ).subset_of(grown(second, second_universe, second_pivot, earlier))
        };
    // A round adds nothing in the one system exactly if it adds nothing in
    // the other.
    assert forall|k: nat|
        grow(first, first_universe, grown(first, first_universe, first_pivot, k)).subset_of(
            grown(first, first_universe, first_pivot, k),
        ) <==> grow(second, second_universe, grown(second, second_universe, second_pivot, k)).subset_of(
            #[trigger] grown(second, second_universe, second_pivot, k),
        ) by {
        let here = grown(first, first_universe, first_pivot, k);
        let there = grown(second, second_universe, second_pivot, k);
        lemma_grown_alike(
            first,
            second,
            first_universe,
            second_universe,
            first_pivot,
            second_pivot,
            k,
        );
        lemma_grow_alike(first, second, first_universe, second_universe, here, there);
        lemma_subset_by_meaning(first, grow(first, first_universe, here), here);
        lemma_subset_by_meaning(second, grow(second, second_universe, there), there);
    }
    if a < b {
        assert(grown(second, second_universe, second_pivot, a) == grown(
            second,
            second_universe,
            second_pivot,
            a,
        ));
        assert(!grow(second, second_universe, grown(second, second_universe, second_pivot, a)).subset_of(
            grown(second, second_universe, second_pivot, a),
        ));
    }
    if b < a {
        assert(!grow(first, first_universe, grown(first, first_universe, first_pivot, b)).subset_of(
            grown(first, first_universe, first_pivot, b),
        ));
        assert(grown(second, second_universe, second_pivot, b) == second_component);
    }
    assert(a == b);
    lemma_grown_alike(first, second, first_universe, second_universe, first_pivot, second_pivot, a);
}

} // verus!
