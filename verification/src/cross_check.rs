//! One network in all four encodings, stepped side by side: after every
//! step the four sets must hold the same number of states.

use crate::bdd::{bdd_num_vars, bdd_sat, bigint_value, recall_width, same_number, valuations};
use crate::binary::BinaryIntegerDomain;
use crate::agreement::{alike, lemma_images_alike, lemma_subset_by_meaning};
use crate::closure::{closed_under, step_image};
use crate::counting::{lemma_same_count, state_count};
use crate::sameness::{lemma_same_domains, same_network};
use crate::semantics::{
    in_domain, lemma_abstract_meet, lemma_abstract_state, lemma_abstract_union,
    lemma_abstract_unit, lemma_state_in_domain,
};
use crate::gray::GrayCodeIntegerDomain;
use crate::petri_net::PetriNetIntegerDomain;
use crate::reachability::count_states_exact;
use crate::symbolic_domain::{SymbolicDomain, SymbolicDomainOrd};
use crate::system::SmartSystemUpdateFn;
use crate::unary::UnaryIntegerDomain;
use crate::unprocessed::is_max_value;
use crate::variable_update_fn::state_of;
use biodivine_lib_bdd::Bdd;
use num_bigint::BigInt;
use vstd::prelude::*;

verus! {

/// The set after one step of the last variable whose step leads out of
/// it, with the set itself.
pub open spec fn stepped<D: SymbolicDomainOrd>(
    system: &SmartSystemUpdateFn<D>,
    forward: bool,
    s: Set<Seq<bool>>,
    r: Set<Seq<bool>>,
) -> bool {
    exists|i: int|
        {
            &&& 0 <= i < system.model().len()
            &&& forall|j: int|
                i < j < system.model().len() ==> (#[trigger] step_image(
                    system,
                    forward,
                    j,
                    s,
                )).subset_of(s)
            &&& !(#[trigger] step_image(system, forward, i, s)).subset_of(s)
            &&& r == step_image(system, forward, i, s).union(s)
        }
}

/// One step of reachability, forwards or backwards: the variables are
/// tried from the last to the first, and the first whose step leads out of
/// the set adds its image to the set. Where no step leads out of the set,
/// there is no new set.
pub fn one_step<D: SymbolicDomainOrd>(system: &SmartSystemUpdateFn<D>, forward: bool, set: &Bdd) -> (r:
    Option<Bdd>)
    requires
        system.wf(),
        bdd_num_vars(*set) == system.num_vars(),
    ensures
        match r {
            Some(next) => bdd_num_vars(next) == system.num_vars() && stepped(
                system,
                forward,
                bdd_sat(*set),
                bdd_sat(next),
            ),
            None => closed_under(system, forward, bdd_sat(*set)),
        },
{
    let ghost n = system.num_vars();
    let ghost s = bdd_sat(*set);
    let count = system.variable_count();
    let mut index: usize = count;
    while index > 0
        invariant
            system.wf(),
            n == system.num_vars(),
            s == bdd_sat(*set),
            bdd_num_vars(*set) == n,
            count == system.model().len(),
            index <= count,
            forall|j: int|
                index <= j < count ==> (#[trigger] step_image(system, forward, j, s)).subset_of(s),
        decreases index,
    {
        let variable = index - 1;
        let image = if forward {
            system.successors_of(variable, set)
        } else {
            system.predecessors_of(variable, set)
        };
        recall_width(&image);
        assert(bdd_sat(image) == step_image(system, forward, variable as int, s));
        if !image.imp(set).is_true() {
            let result = image.or(set);
            proof {
                if bdd_sat(image).subset_of(s) {
                    assert(Set::new(
                        |v: Seq<bool>|
                            v.len() == n && (bdd_sat(image).contains(v) ==> s.contains(v)),
                    ) =~= valuations(n));
                }
                assert(stepped(system, forward, s, bdd_sat(result)));
            }
            return Some(result);
        }
        proof {
            assert forall|v: Seq<bool>| bdd_sat(image).contains(v) implies s.contains(v) by {
                assert(valuations(n).contains(v));
            }
        }
        index = variable;
    }
    None
}

/// One step of backward reachability.
pub fn bwd_step<D: SymbolicDomainOrd>(system: &SmartSystemUpdateFn<D>, set: &Bdd) -> (r: Option<Bdd>)
    requires
        system.wf(),
        bdd_num_vars(*set) == system.num_vars(),
    ensures
        match r {
            Some(next) => bdd_num_vars(next) == system.num_vars() && stepped(
                system,
                false,
                bdd_sat(*set),
                bdd_sat(next),
            ),
            None => closed_under(system, false, bdd_sat(*set)),
        },
{
    one_step(system, false, set)
}

/// One step of forward reachability.
pub fn fwd_step<D: SymbolicDomainOrd>(system: &SmartSystemUpdateFn<D>, set: &Bdd) -> (r: Option<Bdd>)
    requires
        system.wf(),
        bdd_num_vars(*set) == system.num_vars(),
    ensures
        match r {
            Some(next) => bdd_num_vars(next) == system.num_vars() && stepped(
                system,
                true,
                bdd_sat(*set),
                bdd_sat(next),
            ),
            None => closed_under(system, true, bdd_sat(*set)),
        },
{
    one_step(system, true, set)
}

/// A universe and an intermediate result that fit a system.
pub open spec fn lane_ok<D: SymbolicDomainOrd>(
    system: &SmartSystemUpdateFn<D>,
    universe: Bdd,
    result: Option<Bdd>,
) -> bool {
    &&& system.wf()
    &&& bdd_num_vars(universe) == system.num_vars()
    &&& bdd_sat(universe).subset_of(system.states())
    &&& result matches Some(set) ==> bdd_num_vars(set) == system.num_vars()
}

/// What a step makes of one lane: the new result is one step from the old
/// one, and the universe loses the new result.
pub open spec fn lane_stepped<D: SymbolicDomainOrd>(
    system: &SmartSystemUpdateFn<D>,
    forward: bool,
    old_universe: Bdd,
    old_result: Option<Bdd>,
    new_universe: Bdd,
    new_result: Option<Bdd>,
) -> bool {
    match new_result {
        Some(next) => stepped(system, forward, bdd_sat(old_result.unwrap()), bdd_sat(next))
            && bdd_sat(new_universe) == bdd_sat(old_universe).difference(bdd_sat(next)),
        None => closed_under(system, forward, bdd_sat(old_result.unwrap())) && bdd_sat(new_universe)
            == bdd_sat(old_universe),
    }
}

/// One step in one lane.
fn advance<D: SymbolicDomainOrd>(
    system: &SmartSystemUpdateFn<D>,
    forward: bool,
    universe: &Bdd,
    result: &Option<Bdd>,
) -> (r: (Bdd, Option<Bdd>))
    requires
        lane_ok(system, *universe, *result),
        result is Some,
    ensures
        lane_ok(system, r.0, r.1),
        lane_stepped(system, forward, *universe, *result, r.0, r.1),
{
    let current = match result {
        Some(set) => set,
        None => universe,
    };
    let next = one_step(system, forward, current);
    let left = match &next {
        Some(set) => universe.and_not(set),
        None => universe.clone(),
    };
    (left, next)
}

/// The number of states of a result, if there is one.
fn count_of<D: SymbolicDomainOrd>(system: &SmartSystemUpdateFn<D>, result: &Option<Bdd>) -> (r:
    Option<BigInt>)
    requires
        system.wf(),
    ensures
        r is Some <==> result is Some,
        r matches Some(number) ==> bigint_value(number) == state_count(
            system,
            bdd_sat(result.unwrap()),
        ),
{
    match result {
        Some(set) => Some(count_states_exact(system, set)),
        None => None,
    }
}

/// The number of states of a result, and nothing where there is no result.
pub open spec fn count_in<D: SymbolicDomainOrd>(
    system: &SmartSystemUpdateFn<D>,
    result: Option<Bdd>,
) -> Option<int> {
    match result {
        Some(set) => Some(state_count(system, bdd_sat(set))),
        None => None,
    }
}

/// The number that a count holds, and nothing where there is no count.
pub open spec fn count_value(count: Option<BigInt>) -> Option<int> {
    match count {
        Some(number) => Some(bigint_value(number)),
        None => None,
    }
}

/// Whether two counts are the same: both missing, or both the same number.
fn same_count(left: &Option<BigInt>, right: &Option<BigInt>) -> (r: bool)
    ensures
        r <==> match (*left, *right) {
            (Some(a), Some(b)) => bigint_value(a) == bigint_value(b),
            (None, None) => true,
            _ => false,
        },
{
    match (left, right) {
        (Some(a), Some(b)) => same_number(a, b),
        (None, None) => true,
        _ => false,
    }
}

/// Two lanes whose universes stand for the same states, and whose results
/// are both missing or stand for the same states.
pub open spec fn lanes_alike<A: SymbolicDomainOrd, B: SymbolicDomainOrd>(
    first: &SmartSystemUpdateFn<A>,
    second: &SmartSystemUpdateFn<B>,
    first_universe: Bdd,
    first_result: Option<Bdd>,
    second_universe: Bdd,
    second_result: Option<Bdd>,
) -> bool {
    &&& same_network(first.model(), second.model())
    &&& alike(first, second, bdd_sat(first_universe), bdd_sat(second_universe))
    &&& match (first_result, second_result) {
        (Some(a), Some(b)) => alike(first, second, bdd_sat(a), bdd_sat(b)),
        (None, None) => true,
        _ => false,
    }
}

/// Two lanes that stand for the same states take the same step: both
/// have no step to take, or both add states that are the same.
pub proof fn lemma_steps_alike<A: SymbolicDomainOrd, B: SymbolicDomainOrd>(
    first: &SmartSystemUpdateFn<A>,
    second: &SmartSystemUpdateFn<B>,
    forward: bool,
    first_universe: Bdd,
    first_result: Option<Bdd>,
    second_universe: Bdd,
    second_result: Option<Bdd>,
    first_left: Bdd,
    first_next: Option<Bdd>,
    second_left: Bdd,
    second_next: Option<Bdd>,
)
    requires
        first.wf(),
        second.wf(),
        first_result is Some,
        second_result is Some,
        lanes_alike(first, second, first_universe, first_result, second_universe, second_result),
        lane_stepped(first, forward, first_universe, first_result, first_left, first_next),
        lane_stepped(second, forward, second_universe, second_result, second_left, second_next),
    ensures
        lanes_alike(first, second, first_left, first_next, second_left, second_next),
{
    let here = bdd_sat(first_result.unwrap());
    let there = bdd_sat(second_result.unwrap());
    let count = first.model().len();
    // A step of a variable leaves the one set exactly if it leaves the
    // other.
    assert forall|j: int| 0 <= j < count implies (step_image(first, forward, j, here).subset_of(
        here,
    ) <==> step_image(second, forward, j, there).subset_of(there)) by {
        lemma_images_alike(first, second, forward, j, here, there);
        lemma_subset_by_meaning(first, step_image(first, forward, j, here), here);
        lemma_subset_by_meaning(second, step_image(second, forward, j, there), there);
    }
    match (first_next, second_next) {
        (Some(a), Some(b)) => {
            let i = choose|i: int|
                {
                    &&& 0 <= i < first.model().len()
                    &&& forall|j: int|
                        i < j < first.model().len() ==> (#[trigger] step_image(
                            first,
                            forward,
                            j,
                            here,
                        )).subset_of(here)
                    &&& !(#[trigger] step_image(first, forward, i, here)).subset_of(here)
                    &&& bdd_sat(a) == step_image(first, forward, i, here).union(here)
                };
            let k = choose|k: int|
                {
                    &&& 0 <= k < second.model().len()
                    &&& forall|j: int|
                        k < j < second.model().len() ==> (#[trigger] step_image(
                            second,
                            forward,
                            j,
                            there,
                        )).subset_of(there)
                    &&& !(#[trigger] step_image(second, forward, k, there)).subset_of(there)
                    &&& bdd_sat(b) == step_image(second, forward, k, there).union(there)
                };
            if i < k {
                assert(step_image(first, forward, k, here).subset_of(here));
            }
            if k < i {
                assert(step_image(second, forward, i, there).subset_of(there));
            }
            assert(i == k);
            lemma_images_alike(first, second, forward, i, here, there);
            lemma_abstract_union(first, step_image(first, forward, i, here), here);
            lemma_abstract_union(second, step_image(second, forward, i, there), there);
            lemma_abstract_meet(first, bdd_sat(first_universe), bdd_sat(a));
            lemma_abstract_meet(second, bdd_sat(second_universe), bdd_sat(b));
        },
        (None, None) => {},
        (Some(a), None) => {
            let i = choose|i: int|
                {
                    &&& 0 <= i < first.model().len()
                    &&& forall|j: int|
                        i < j < first.model().len() ==> (#[trigger] step_image(
                            first,
                            forward,
                            j,
                            here,
                        )).subset_of(here)
                    &&& !(#[trigger] step_image(first, forward, i, here)).subset_of(here)
                    &&& bdd_sat(a) == step_image(first, forward, i, here).union(here)
                };
            assert(step_image(second, forward, i, there).subset_of(there));
            assert(false);
        },
        (None, Some(b)) => {
            let k = choose|k: int|
                {
                    &&& 0 <= k < second.model().len()
                    &&& forall|j: int|
                        k < j < second.model().len() ==> (#[trigger] step_image(
                            second,
                            forward,
                            j,
                            there,
                        )).subset_of(there)
                    &&& !(#[trigger] step_image(second, forward, k, there)).subset_of(there)
                    &&& bdd_sat(b) == step_image(second, forward, k, there).union(there)
                };
            assert(step_image(first, forward, k, here).subset_of(here));
            assert(false);
        },
    }
}

/// A reachability computation on one network in the unary, the binary,
/// the Gray and the one-hot encoding at once.
pub struct ComputationStep {
    steps: usize,
    universe_unary: Bdd,
    universe_binary: Bdd,
    universe_gray: Bdd,
    universe_petri_net: Bdd,
    result_unary: Option<Bdd>,
    result_binary: Option<Bdd>,
    result_gray: Option<Bdd>,
    result_petri_net: Option<Bdd>,
    system_unary: SmartSystemUpdateFn<UnaryIntegerDomain>,
    system_binary: SmartSystemUpdateFn<BinaryIntegerDomain>,
    system_gray: SmartSystemUpdateFn<GrayCodeIntegerDomain>,
    system_petri_net: SmartSystemUpdateFn<PetriNetIntegerDomain>,
}

/// Two systems with as many variables, each with the same largest value in
/// both.
pub open spec fn same_shape<A: SymbolicDomainOrd, B: SymbolicDomainOrd>(
    first: &SmartSystemUpdateFn<A>,
    second: &SmartSystemUpdateFn<B>,
) -> bool {
    &&& first.model().len() == second.model().len()
    &&& forall|i: int|
        0 <= i < first.model().len() ==> (#[trigger] first.domains()[i]).max_spec()
            == second.domains()[i].max_spec()
}

/// Two systems of one network have the same shape.
pub proof fn lemma_same_shape<A: SymbolicDomainOrd, B: SymbolicDomainOrd>(
    first: &SmartSystemUpdateFn<A>,
    second: &SmartSystemUpdateFn<B>,
)
    requires
        first.wf(),
        second.wf(),
        same_network(first.model(), second.model()),
    ensures
        same_shape(first, second),
{
    assert forall|i: int| 0 <= i < first.model().len() implies (
    #[trigger] first.domains()[i]).max_spec() == second.domains()[i].max_spec() by {
        lemma_same_maxima(first, second, i);
    }
}

/// Two systems of one network have domains of the same maxima.
pub proof fn lemma_same_maxima<A: SymbolicDomainOrd, B: SymbolicDomainOrd>(
    first: &SmartSystemUpdateFn<A>,
    second: &SmartSystemUpdateFn<B>,
    i: int,
)
    requires
        first.wf(),
        second.wf(),
        same_network(first.model(), second.model()),
        0 <= i < first.model().len(),
    ensures
        first.domains()[i].max_spec() == second.domains()[i].max_spec(),
{
    lemma_same_domains(first.model(), second.model());
    assert(is_max_value(first.model(), i, first.domains()[i].max_spec() as int));
    assert(is_max_value(second.model(), i, second.domains()[i].max_spec() as int));
}

impl ComputationStep {
    /// The number of steps since the last start.
    pub closed spec fn steps(&self) -> nat {
        self.steps as nat
    }

    /// The system in the unary encoding.
    pub closed spec fn unary(&self) -> &SmartSystemUpdateFn<UnaryIntegerDomain> {
        &self.system_unary
    }

    /// The system in the binary encoding.
    pub closed spec fn binary(&self) -> &SmartSystemUpdateFn<BinaryIntegerDomain> {
        &self.system_binary
    }

    /// The system in the Gray encoding.
    pub closed spec fn gray(&self) -> &SmartSystemUpdateFn<GrayCodeIntegerDomain> {
        &self.system_gray
    }

    /// The system in the one-hot encoding.
    pub closed spec fn petri_net(&self) -> &SmartSystemUpdateFn<PetriNetIntegerDomain> {
        &self.system_petri_net
    }

    /// The states not yet explored, in the four encodings.
    pub closed spec fn universes(&self) -> (Bdd, Bdd, Bdd, Bdd) {
        (self.universe_unary, self.universe_binary, self.universe_gray, self.universe_petri_net)
    }

    /// The intermediate results, in the four encodings.
    pub closed spec fn results(&self) -> (Option<Bdd>, Option<Bdd>, Option<Bdd>, Option<Bdd>) {
        (self.result_unary, self.result_binary, self.result_gray, self.result_petri_net)
    }

    /// The four systems have as many variables, with the same largest
    /// values: a state of one can be written down in each.
    pub open spec fn same_shapes(&self) -> bool {
        &&& same_shape(self.unary(), self.binary())
        &&& same_shape(self.unary(), self.gray())
        &&& same_shape(self.unary(), self.petri_net())
    }

    /// Four systems, each with a universe of its states and a result that
    /// fits it. Nothing is asked of how the four stand to each other.
    pub open spec fn lanes_ok(&self) -> bool {
        &&& lane_ok(self.unary(), self.universes().0, self.results().0)
        &&& lane_ok(self.binary(), self.universes().1, self.results().1)
        &&& lane_ok(self.gray(), self.universes().2, self.results().2)
        &&& lane_ok(self.petri_net(), self.universes().3, self.results().3)
    }

    /// Four systems of one network, each with a universe of its states and
    /// a result that fits it. The four universes stand for the same states,
    /// and so do the four results.
    pub open spec fn wf(&self) -> bool {
        &&& self.lanes_ok()
        &&& self.same_shapes()
        &&& lanes_alike(
            self.unary(),
            self.binary(),
            self.universes().0,
            self.results().0,
            self.universes().1,
            self.results().1,
        )
        &&& lanes_alike(
            self.unary(),
            self.gray(),
            self.universes().0,
            self.results().0,
            self.universes().2,
            self.results().2,
        )
        &&& lanes_alike(
            self.unary(),
            self.petri_net(),
            self.universes().0,
            self.results().0,
            self.universes().3,
            self.results().3,
        )
    }

    /// A computation on four systems. Every state is yet to be explored,
    /// and there is no result. Where the four are systems of one network,
    /// the computation is well formed.
    pub fn new(
        system_unary: SmartSystemUpdateFn<UnaryIntegerDomain>,
        system_binary: SmartSystemUpdateFn<BinaryIntegerDomain>,
        system_gray: SmartSystemUpdateFn<GrayCodeIntegerDomain>,
        system_petri_net: SmartSystemUpdateFn<PetriNetIntegerDomain>,
    ) -> (r: ComputationStep)
        requires
            system_unary.wf(),
            system_binary.wf(),
            system_gray.wf(),
            system_petri_net.wf(),
        ensures
            r.lanes_ok(),
            same_network(system_unary.model(), system_binary.model()) && same_network(
                system_unary.model(),
                system_gray.model(),
            ) && same_network(system_unary.model(), system_petri_net.model()) ==> r.wf(),
            r.steps() == 0,
            r.results() == (None::<Bdd>, None::<Bdd>, None::<Bdd>, None::<Bdd>),
            bdd_sat(r.universes().0) == system_unary.states(),
            bdd_sat(r.universes().1) == system_binary.states(),
            bdd_sat(r.universes().2) == system_gray.states(),
            bdd_sat(r.universes().3) == system_petri_net.states(),
            *r.unary() == system_unary,
            *r.binary() == system_binary,
            *r.gray() == system_gray,
            *r.petri_net() == system_petri_net,
    {
        proof {
            lemma_abstract_unit(&system_unary);
            lemma_abstract_unit(&system_binary);
            lemma_abstract_unit(&system_gray);
            lemma_abstract_unit(&system_petri_net);
            if same_network(system_unary.model(), system_binary.model()) && same_network(
                system_unary.model(),
                system_gray.model(),
            ) && same_network(system_unary.model(), system_petri_net.model()) {
                lemma_same_domains(system_unary.model(), system_binary.model());
                lemma_same_domains(system_unary.model(), system_gray.model());
                lemma_same_domains(system_unary.model(), system_petri_net.model());
                lemma_same_shape(&system_unary, &system_binary);
                lemma_same_shape(&system_unary, &system_gray);
                lemma_same_shape(&system_unary, &system_petri_net);
                let states = Set::new(|x: Seq<int>| in_domain(system_unary.model(), x));
                assert(states =~= Set::new(|x: Seq<int>| in_domain(system_binary.model(), x)));
                assert(states =~= Set::new(|x: Seq<int>| in_domain(system_gray.model(), x)));
                assert(states =~= Set::new(
                    |x: Seq<int>| in_domain(system_petri_net.model(), x),
                ));
            }
        }
        ComputationStep {
            steps: 0,
            result_unary: None,
            result_binary: None,
            result_gray: None,
            result_petri_net: None,
            universe_unary: system_unary.unit_vertex_set(),
            universe_binary: system_binary.unit_vertex_set(),
            universe_gray: system_gray.unit_vertex_set(),
            universe_petri_net: system_petri_net.unit_vertex_set(),
            system_unary,
            system_binary,
            system_gray,
            system_petri_net,
        }
    }

    /// Whether every state of the network was explored.
    pub fn is_done(&self) -> (r: bool)
        ensures
            r <==> bdd_sat(self.universes().0) == Set::<Seq<bool>>::empty(),
    {
        self.universe_unary.is_false()
    }

    /// Whether there is no result, so that a computation can start.
    pub fn can_initialize(&self) -> (r: bool)
        ensures
            r <==> self.results().0 is None,
    {
        self.result_unary.is_none()
    }

    /// The number of states that are not yet explored.
    pub fn remaining(&self) -> (r: BigInt)
        requires
            self.lanes_ok(),
        ensures
            bigint_value(r) == state_count(self.unary(), bdd_sat(self.universes().0)),
    {
        count_states_exact(&self.system_unary, &self.universe_unary)
    }

    /// Starts a computation at one state that is not yet explored: the
    /// state is picked in the unary encoding and encoded in all four.
    pub fn initialize(&mut self)
        requires
            old(self).lanes_ok(),
            old(self).same_shapes(),
            bdd_sat(old(self).universes().0) != Set::<Seq<bool>>::empty(),
            old(self).results().0 is None,
        ensures
            final(self).lanes_ok(),
            old(self).wf() ==> final(self).wf(),
            final(self).steps() == 0,
            final(self).universes() == old(self).universes(),
            *final(self).unary() == *old(self).unary(),
            *final(self).binary() == *old(self).binary(),
            *final(self).gray() == *old(self).gray(),
            *final(self).petri_net() == *old(self).petri_net(),
            exists|values: Seq<int>|
                {
                    &&& #[trigger] old(self).unary().state_set(values).subset_of(
                        old(self).unary().states(),
                    )
                    &&& final(self).results().0 matches Some(set) && bdd_sat(set) == old(
                        self,
                    ).unary().state_set(values)
                    &&& final(self).results().1 matches Some(set) && bdd_sat(set) == old(
                        self,
                    ).binary().state_set(values)
                    &&& final(self).results().2 matches Some(set) && bdd_sat(set) == old(
                        self,
                    ).gray().state_set(values)
                    &&& final(self).results().3 matches Some(set) && bdd_sat(set) == old(
                        self,
                    ).petri_net().state_set(values)
                },
    {
        let ghost sound_before = self.wf();
        let state = self.system_unary.pick_state_values(&self.universe_unary);
        proof {
            assert forall|i: int| 0 <= i < state@.len() implies #[trigger] state@[i]
                <= self.binary().domains()[i].max_spec() && state@[i]
                <= self.gray().domains()[i].max_spec() && state@[i]
                <= self.petri_net().domains()[i].max_spec() by {
                assert(state@[i] <= self.unary().domains()[i].max_spec());
            }
        }
        self.steps = 0;
        self.result_unary = Some(self.system_unary.encode_state(&state));
        self.result_binary = Some(self.system_binary.encode_state(&state));
        self.result_gray = Some(self.system_gray.encode_state(&state));
        self.result_petri_net = Some(self.system_petri_net.encode_state(&state));
        proof {
            let values = state@.map_values(|v: u8| v as int);
            let w = choose|w: Seq<bool>|
                #[trigger] bdd_sat(self.universe_unary).contains(w) && values == state_of(
                    self.unary().blocks(),
                    self.unary().tables(),
                    w,
                );
            lemma_state_in_domain(self.unary(), w);
            assert(in_domain(self.unary().model(), values));
            lemma_abstract_state(self.unary(), values);
            if sound_before {
                lemma_same_domains(self.unary().model(), self.binary().model());
                lemma_same_domains(self.unary().model(), self.gray().model());
                lemma_same_domains(self.unary().model(), self.petri_net().model());
                lemma_abstract_state(self.binary(), values);
                lemma_abstract_state(self.gray(), values);
                lemma_abstract_state(self.petri_net(), values);
            }
        }
    }

    /// One step in all four encodings, forwards or backwards.
    fn perform_step(&mut self, forward: bool)
        requires
            old(self).lanes_ok(),
            old(self).steps() < usize::MAX,
            old(self).results().0 is Some,
            old(self).results().1 is Some,
            old(self).results().2 is Some,
            old(self).results().3 is Some,
        ensures
            final(self).lanes_ok(),
            old(self).wf() ==> final(self).wf(),
            final(self).steps() == old(self).steps() + 1,
            *final(self).unary() == *old(self).unary(),
            *final(self).binary() == *old(self).binary(),
            *final(self).gray() == *old(self).gray(),
            *final(self).petri_net() == *old(self).petri_net(),
            lane_stepped(
                old(self).unary(),
                forward,
                old(self).universes().0,
                old(self).results().0,
                final(self).universes().0,
                final(self).results().0,
            ),
            lane_stepped(
                old(self).binary(),
                forward,
                old(self).universes().1,
                old(self).results().1,
                final(self).universes().1,
                final(self).results().1,
            ),
            lane_stepped(
                old(self).gray(),
                forward,
                old(self).universes().2,
                old(self).results().2,
                final(self).universes().2,
                final(self).results().2,
            ),
            lane_stepped(
                old(self).petri_net(),
                forward,
                old(self).universes().3,
                old(self).results().3,
                final(self).universes().3,
                final(self).results().3,
            ),
    {
        let ghost sound_before = self.wf();
        self.steps = self.steps + 1;
        let (universe_unary, result_unary) = advance(
            &self.system_unary,
            forward,
            &self.universe_unary,
            &self.result_unary,
        );
        let (universe_binary, result_binary) = advance(
            &self.system_binary,
            forward,
            &self.universe_binary,
            &self.result_binary,
        );
        let (universe_gray, result_gray) = advance(
            &self.system_gray,
            forward,
            &self.universe_gray,
            &self.result_gray,
        );
        let (universe_petri_net, result_petri_net) = advance(
            &self.system_petri_net,
            forward,
            &self.universe_petri_net,
            &self.result_petri_net,
        );
        proof {
            if sound_before {
                lemma_steps_alike(
                    self.unary(),
                    self.binary(),
                    forward,
                    self.universe_unary,
                    self.result_unary,
                    self.universe_binary,
                    self.result_binary,
                    universe_unary,
                    result_unary,
                    universe_binary,
                    result_binary,
                );
                lemma_steps_alike(
                    self.unary(),
                    self.gray(),
                    forward,
                    self.universe_unary,
                    self.result_unary,
                    self.universe_gray,
                    self.result_gray,
                    universe_unary,
                    result_unary,
                    universe_gray,
                    result_gray,
                );
                lemma_steps_alike(
                    self.unary(),
                    self.petri_net(),
                    forward,
                    self.universe_unary,
                    self.result_unary,
                    self.universe_petri_net,
                    self.result_petri_net,
                    universe_unary,
                    result_unary,
                    universe_petri_net,
                    result_petri_net,
                );
            }
        }
        self.universe_unary = universe_unary;
        self.universe_binary = universe_binary;
        self.universe_gray = universe_gray;
        self.universe_petri_net = universe_petri_net;
        self.result_unary = result_unary;
        self.result_binary = result_binary;
        self.result_gray = result_gray;
        self.result_petri_net = result_petri_net;
    }

    /// One step of backward reachability in all four encodings. In each,
    /// the universe loses the new result.
    pub fn perform_bwd_step(&mut self)
        requires
            old(self).lanes_ok(),
            old(self).steps() < usize::MAX,
            old(self).results().0 is Some,
            old(self).results().1 is Some,
            old(self).results().2 is Some,
            old(self).results().3 is Some,
        ensures
            final(self).lanes_ok(),
            old(self).wf() ==> final(self).wf(),
            final(self).steps() == old(self).steps() + 1,
            *final(self).unary() == *old(self).unary(),
            *final(self).binary() == *old(self).binary(),
            *final(self).gray() == *old(self).gray(),
            *final(self).petri_net() == *old(self).petri_net(),
            lane_stepped(
                old(self).unary(),
                false,
                old(self).universes().0,
                old(self).results().0,
                final(self).universes().0,
                final(self).results().0,
            ),
            lane_stepped(
                old(self).binary(),
                false,
                old(self).universes().1,
                old(self).results().1,
                final(self).universes().1,
                final(self).results().1,
            ),
            lane_stepped(
                old(self).gray(),
                false,
                old(self).universes().2,
                old(self).results().2,
                final(self).universes().2,
                final(self).results().2,
            ),
            lane_stepped(
                old(self).petri_net(),
                false,
                old(self).universes().3,
                old(self).results().3,
                final(self).universes().3,
                final(self).results().3,
            ),
    {
        self.perform_step(false)
    }

    /// One step of forward reachability in all four encodings. In each,
    /// the universe loses the new result.
    pub fn perform_fwd_step(&mut self)
        requires
            old(self).lanes_ok(),
            old(self).steps() < usize::MAX,
            old(self).results().0 is Some,
            old(self).results().1 is Some,
            old(self).results().2 is Some,
            old(self).results().3 is Some,
        ensures
            final(self).lanes_ok(),
            old(self).wf() ==> final(self).wf(),
            final(self).steps() == old(self).steps() + 1,
            *final(self).unary() == *old(self).unary(),
            *final(self).binary() == *old(self).binary(),
            *final(self).gray() == *old(self).gray(),
            *final(self).petri_net() == *old(self).petri_net(),
            lane_stepped(
                old(self).unary(),
                true,
                old(self).universes().0,
                old(self).results().0,
                final(self).universes().0,
                final(self).results().0,
            ),
            lane_stepped(
                old(self).binary(),
                true,
                old(self).universes().1,
                old(self).results().1,
                final(self).universes().1,
                final(self).results().1,
            ),
            lane_stepped(
                old(self).gray(),
                true,
                old(self).universes().2,
                old(self).results().2,
                final(self).universes().2,
                final(self).results().2,
            ),
            lane_stepped(
                old(self).petri_net(),
                true,
                old(self).universes().3,
                old(self).results().3,
                final(self).universes().3,
                final(self).results().3,
            ),
    {
        self.perform_step(true)
    }

    /// The numbers of states of the four results, in the unary, the binary,
    /// the Gray and the one-hot encoding, each missing where its result is
    /// missing.
    pub fn counts(&self) -> (r: (Option<BigInt>, Option<BigInt>, Option<BigInt>, Option<BigInt>))
        requires
            self.lanes_ok(),
        ensures
            count_value(r.0) == count_in(self.unary(), self.results().0),
            count_value(r.1) == count_in(self.binary(), self.results().1),
            count_value(r.2) == count_in(self.gray(), self.results().2),
            count_value(r.3) == count_in(self.petri_net(), self.results().3),
    {
        (
            count_of(&self.system_unary, &self.result_unary),
            count_of(&self.system_binary, &self.result_binary),
            count_of(&self.system_gray, &self.result_gray),
            count_of(&self.system_petri_net, &self.result_petri_net),
        )
    }

    /// Whether the four results agree: all four are missing, or all four
    /// hold the same number of states. The four systems may be any; in a
    /// computation on four systems of one network the results always agree.
    pub fn check_consistency(&self) -> (r: bool)
        requires
            self.lanes_ok(),
        ensures
            r <==> count_in(self.unary(), self.results().0) == count_in(
                self.binary(),
                self.results().1,
            ) && count_in(self.binary(), self.results().1) == count_in(
                self.gray(),
                self.results().2,
            ) && count_in(self.gray(), self.results().2) == count_in(
                self.petri_net(),
                self.results().3,
            ),
            self.wf() ==> r,
    {
        proof {
            if self.wf() && self.result_unary is Some {
                let unary = bdd_sat(self.result_unary.unwrap());
                lemma_same_count(
                    self.unary(),
                    self.binary(),
                    unary,
                    bdd_sat(self.result_binary.unwrap()),
                );
                lemma_same_count(
                    self.unary(),
                    self.gray(),
                    unary,
                    bdd_sat(self.result_gray.unwrap()),
                );
                lemma_same_count(
                    self.unary(),
                    self.petri_net(),
                    unary,
                    bdd_sat(self.result_petri_net.unwrap()),
                );
            }
        }
        let (count_unary, count_binary, count_gray, count_petri_net) = self.counts();
        same_count(&count_unary, &count_binary) && same_count(&count_binary, &count_gray)
            && same_count(&count_gray, &count_petri_net)
    }

    /// The number of steps since the last start.
    pub fn step_count(&self) -> (r: usize)
        ensures
            r == self.steps(),
    {
        self.steps
    }
}

} // verus!
