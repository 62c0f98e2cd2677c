//! Sets of valuations that are closed under the steps of a system, and the
//! closure of a set: the states that can be reached from it, or from which
//! it can be reached.

use crate::bdd::{same_outside, valuations};
use crate::image::{block_set, lemma_image_monotone, lemma_moved, moved, post_image, pre_image, steps_to};
use crate::semantics::{
    abstract_post, abstract_pre, abstract_states, agree, lemma_abstract_predecessors,
    lemma_abstract_successors, lemma_same_state, lemma_state_in_domain, lemma_successor_state,
    lemma_system_tables, proper,
};
use crate::symbolic_domain::{pattern, SymbolicDomainOrd};
use crate::system::SmartSystemUpdateFn;
use crate::unprocessed::{names_of, UnprocessedVariableUpdateFn};
use crate::variable_update_fn::state_of;
use vstd::prelude::*;
use vstd::set_lib::lemma_len_subset;

verus! {

/// The image of a set under one step of variable `i`, forwards or
/// backwards.
pub open spec fn step_image<D: SymbolicDomainOrd>(
    system: &SmartSystemUpdateFn<D>,
    forward: bool,
    i: int,
    s: Set<Seq<bool>>,
) -> Set<Seq<bool>> {
    if forward {
        post_image(system.relation(i), s, system.blocks()[i], system.primed_blocks()[i])
    } else {
        pre_image(system.relation(i), s, system.blocks()[i], system.primed_blocks()[i])
    }
}

/// A set that no step of any variable leaves, forwards or backwards.
pub open spec fn closed_under<D: SymbolicDomainOrd>(
    system: &SmartSystemUpdateFn<D>,
    forward: bool,
    s: Set<Seq<bool>>,
) -> bool {
    forall|i: int|
        0 <= i < system.model().len() ==> (#[trigger] step_image(system, forward, i, s)).subset_of(s)
}

/// The closure of a set: what lies in every closed set that holds it. These
/// are the states that are reached from the set in any number of steps,
/// and backwards the states from which the set is reached.
pub open spec fn closure<D: SymbolicDomainOrd>(
    system: &SmartSystemUpdateFn<D>,
    forward: bool,
    s: Set<Seq<bool>>,
) -> Set<Seq<bool>> {
    Set::new(
        |v: Seq<bool>|
            forall|x: Set<Seq<bool>>|
                s.subset_of(x) && #[trigger] closed_under(system, forward, x) ==> x.contains(v),
    )
}

/// A closed set that holds `s` and lies in every closed set that holds
/// `s` is the closure of `s`.
pub proof fn lemma_least_is_closure<D: SymbolicDomainOrd>(
    system: &SmartSystemUpdateFn<D>,
    forward: bool,
    s: Set<Seq<bool>>,
    r: Set<Seq<bool>>,
)
    requires
        s.subset_of(r),
        closed_under(system, forward, r),
        forall|x: Set<Seq<bool>>|
            s.subset_of(x) && #[trigger] closed_under(system, forward, x) ==> r.subset_of(x),
    ensures
        r == closure(system, forward, s),
{
    assert forall|v: Seq<bool>| r.contains(v) <==> closure(system, forward, s).contains(v) by {
        if r.contains(v) {
            assert forall|x: Set<Seq<bool>>|
                s.subset_of(x) && #[trigger] closed_under(system, forward, x) implies x.contains(
                v,
            ) by {
                assert(r.subset_of(x));
            }
        }
    }
    assert(r =~= closure(system, forward, s));
}

/// The closure of a set holds the set.
pub proof fn lemma_closure_extends<D: SymbolicDomainOrd>(
    system: &SmartSystemUpdateFn<D>,
    forward: bool,
    s: Set<Seq<bool>>,
)
    ensures
        s.subset_of(closure(system, forward, s)),
{
}

/// No step leaves the closure of a set.
pub proof fn lemma_closure_closed<D: SymbolicDomainOrd>(
    system: &SmartSystemUpdateFn<D>,
    forward: bool,
    s: Set<Seq<bool>>,
)
    ensures
        closed_under(system, forward, closure(system, forward, s)),
{
    let c = closure(system, forward, s);
    assert forall|i: int| 0 <= i < system.model().len() implies (#[trigger] step_image(
        system,
        forward,
        i,
        c,
    )).subset_of(c) by {
        assert forall|v: Seq<bool>| step_image(system, forward, i, c).contains(
            v,
        ) implies c.contains(v) by {
            assert forall|x: Set<Seq<bool>>|
                s.subset_of(x) && #[trigger] closed_under(system, forward, x) implies x.contains(
                v,
            ) by {
                assert(c.subset_of(x));
                lemma_image_monotone(
                    system.relation(i),
                    c,
                    x,
                    system.blocks()[i],
                    system.primed_blocks()[i],
                );
                assert(step_image(system, forward, i, x).subset_of(x));
                assert(step_image(system, forward, i, c).subset_of(
                    step_image(system, forward, i, x),
                ));
            }
        }
    }
}

/// The closure of a closed set is the set itself, so closing twice is
/// closing once.
pub proof fn lemma_closure_idempotent<D: SymbolicDomainOrd>(
    system: &SmartSystemUpdateFn<D>,
    forward: bool,
    s: Set<Seq<bool>>,
)
    ensures
        closure(system, forward, closure(system, forward, s)) == closure(system, forward, s),
{
    let c = closure(system, forward, s);
    lemma_closure_closed(system, forward, s);
    assert forall|v: Seq<bool>| closure(system, forward, c).contains(v) implies c.contains(v) by {
        assert(c.subset_of(c) && closed_under(system, forward, c));
    }
    assert(closure(system, forward, c) =~= c);
}

/// A larger set has a larger closure.
pub proof fn lemma_closure_monotone<D: SymbolicDomainOrd>(
    system: &SmartSystemUpdateFn<D>,
    forward: bool,
    small: Set<Seq<bool>>,
    large: Set<Seq<bool>>,
)
    requires
        small.subset_of(large),
    ensures
        closure(system, forward, small).subset_of(closure(system, forward, large)),
{
    assert forall|v: Seq<bool>| closure(system, forward, small).contains(v) implies closure(
        system,
        forward,
        large,
    ).contains(v) by {
        assert forall|x: Set<Seq<bool>>|
            large.subset_of(x) && #[trigger] closed_under(system, forward, x) implies x.contains(
            v,
        ) by {
            assert(small.subset_of(x));
        }
    }
}

/// There are finitely many valuations of `n` variables.
pub proof fn lemma_valuations_finite(n: nat)
    ensures
        valuations(n).finite(),
    decreases n,
{
    if n == 0 {
        let only = Set::<Seq<bool>>::empty().insert(Seq::<bool>::empty());
        assert forall|v: Seq<bool>| valuations(0).contains(v) implies only.contains(v) by {
            assert(v =~= Seq::<bool>::empty());
        }
        assert(valuations(0).subset_of(only));
        vstd::set_lib::lemma_set_subset_finite(only, valuations(0));
    } else {
        let shorter = valuations((n - 1) as nat);
        lemma_valuations_finite((n - 1) as nat);
        let with_false = shorter.map(|v: Seq<bool>| v.push(false));
        let with_true = shorter.map(|v: Seq<bool>| v.push(true));
        shorter.lemma_map_finite(|v: Seq<bool>| v.push(false));
        shorter.lemma_map_finite(|v: Seq<bool>| v.push(true));
        let both = with_false.union(with_true);
        assert forall|v: Seq<bool>| valuations(n).contains(v) implies both.contains(v) by {
            let head = v.drop_last();
            assert(shorter.contains(head));
            assert(v =~= head.push(v.last()));
            if v.last() {
                assert(with_true.contains(v));
            } else {
                assert(with_false.contains(v));
            }
        }
        assert(valuations(n).subset_of(both));
        vstd::set_lib::lemma_set_subset_finite(both, valuations(n));
    }
}

/// The number of valuations of `n` variables that are not in a set: what
/// is left for the set to grow.
pub open spec fn room(n: nat, s: Set<Seq<bool>>) -> nat {
    valuations(n).difference(s).len()
}

/// A set that gains a valuation of `n` variables has less room left.
pub proof fn lemma_room_shrinks(n: nat, before: Set<Seq<bool>>, after: Set<Seq<bool>>, gained: Seq<
    bool,
>)
    requires
        before.subset_of(after),
        gained.len() == n,
        after.contains(gained),
        !before.contains(gained),
    ensures
        room(n, after) < room(n, before),
{
    lemma_valuations_finite(n);
    let old_room = valuations(n).difference(before);
    let new_room = valuations(n).difference(after);
    assert(old_room.subset_of(valuations(n)));
    vstd::set_lib::lemma_set_subset_finite(valuations(n), old_room);
    assert(new_room.subset_of(old_room.remove(gained)));
    vstd::set::axiom_set_remove_len(old_room, gained);
    vstd::set::axiom_set_remove_finite(old_room, gained);
    lemma_len_subset(new_room, old_room.remove(gained));
}

/// The number of valuations of `n` variables in a set.
pub open spec fn size(n: nat, s: Set<Seq<bool>>) -> nat {
    valuations(n).intersect(s).len()
}

/// A set that loses a valuation of `n` variables is smaller.
pub proof fn lemma_size_shrinks(n: nat, before: Set<Seq<bool>>, after: Set<Seq<bool>>, lost: Seq<
    bool,
>)
    requires
        after.subset_of(before),
        lost.len() == n,
        before.contains(lost),
        !after.contains(lost),
    ensures
        size(n, after) < size(n, before),
{
    lemma_valuations_finite(n);
    let large = valuations(n).intersect(before);
    let small = valuations(n).intersect(after);
    assert(large.subset_of(valuations(n)));
    vstd::set_lib::lemma_set_subset_finite(valuations(n), large);
    assert(small.subset_of(large.remove(lost)));
    vstd::set::axiom_set_remove_len(large, lost);
    vstd::set::axiom_set_remove_finite(large, lost);
    lemma_len_subset(small, large.remove(lost));
}

/// One step of variable `i` of a network on a set of states, forwards or
/// backwards. No encoding is involved.
pub open spec fn abstract_step(
    model: Seq<(String, UnprocessedVariableUpdateFn)>,
    forward: bool,
    i: int,
    xs: Set<Seq<int>>,
) -> Set<Seq<int>> {
    if forward {
        abstract_post(model, i, xs)
    } else {
        abstract_pre(model, i, xs)
    }
}

/// A set of states that no step of any variable of the network leaves.
pub open spec fn abstract_closed(
    model: Seq<(String, UnprocessedVariableUpdateFn)>,
    forward: bool,
    xs: Set<Seq<int>>,
) -> bool {
    forall|i: int|
        0 <= i < model.len() ==> (#[trigger] abstract_step(model, forward, i, xs)).subset_of(xs)
}

/// The states that are reached from a set of states of a network, or from
/// which the set is reached. No encoding is involved.
pub open spec fn abstract_closure(
    model: Seq<(String, UnprocessedVariableUpdateFn)>,
    forward: bool,
    xs: Set<Seq<int>>,
) -> Set<Seq<int>> {
    Set::new(
        |y: Seq<int>|
            forall|c: Set<Seq<int>>|
                xs.subset_of(c) && #[trigger] abstract_closed(model, forward, c) ==> c.contains(y),
    )
}

/// No step leaves the closure of a set of states of a network.
pub proof fn lemma_abstract_closure_closed(
    model: Seq<(String, UnprocessedVariableUpdateFn)>,
    forward: bool,
    xs: Set<Seq<int>>,
)
    ensures
        abstract_closed(model, forward, abstract_closure(model, forward, xs)),
        xs.subset_of(abstract_closure(model, forward, xs)),
{
    let whole = abstract_closure(model, forward, xs);
    assert forall|i: int| 0 <= i < model.len() implies (#[trigger] abstract_step(
        model,
        forward,
        i,
        whole,
    )).subset_of(whole) by {
        assert forall|y: Seq<int>| abstract_step(model, forward, i, whole).contains(
            y,
        ) implies whole.contains(y) by {
            assert forall|c: Set<Seq<int>>|
                xs.subset_of(c) && #[trigger] abstract_closed(model, forward, c) implies c.contains(
                y,
            ) by {
                assert(whole.subset_of(c));
                assert(abstract_step(model, forward, i, c).subset_of(c));
                if forward {
                    let x = choose|x: Seq<int>|
                        #[trigger] whole.contains(x) && y == x.update(
                            i,
                            model[i].1.next_value(names_of(model), x),
                        );
                    assert(c.contains(x));
                    assert(abstract_post(model, i, c).contains(y));
                } else {
                    assert(abstract_pre(model, i, c).contains(y));
                }
            }
        }
    }
}

/// The closure of a set of states is a set of states.
pub proof fn lemma_closure_proper<D: SymbolicDomainOrd>(
    system: &SmartSystemUpdateFn<D>,
    forward: bool,
    s: Set<Seq<bool>>,
)
    requires
        system.wf(),
        proper(system, s),
    ensures
        proper(system, closure(system, forward, s)),
{
    let n = system.num_vars();
    let on = system.standard_positions();
    let whole = closure(system, forward, s);
    // The part of the closure that holds, with a valuation, every
    // valuation that agrees with it on the unprimed blocks.
    let full = Set::new(
        |v: Seq<bool>|
            whole.contains(v) && (v.len() == n ==> forall|b: Seq<bool>|
                b.len() == n && agree(v, b, on) ==> #[trigger] whole.contains(b)),
    );
    lemma_closure_extends(system, forward, s);
    lemma_closure_closed(system, forward, s);
    assert forall|a: Seq<bool>, b: Seq<bool>|
        a.len() == n && b.len() == n && #[trigger] full.contains(a) && agree(
            a,
            b,
            on,
        ) implies #[trigger] full.contains(b) by {
        assert(whole.contains(b));
        assert forall|c: Seq<bool>| c.len() == n && agree(b, c, on) implies #[trigger] whole.contains(
            c,
        ) by {
            assert(agree(a, c, on));
        }
    }
    assert(proper(system, full));
    assert forall|v: Seq<bool>| s.contains(v) implies full.contains(v) by {
        if v.len() == n {
            assert forall|b: Seq<bool>| b.len() == n && agree(v, b, on) implies #[trigger] whole.contains(
                b,
            ) by {
                assert(s.contains(b));
            }
        }
    }
    assert forall|i: int| 0 <= i < system.model().len() implies (#[trigger] step_image(
        system,
        forward,
        i,
        full,
    )).subset_of(full) by {
        let image = step_image(system, forward, i, full);
        lemma_image_monotone(
            system.relation(i),
            full,
            whole,
            system.blocks()[i],
            system.primed_blocks()[i],
        );
        assert(step_image(system, forward, i, whole).subset_of(whole));
        if forward {
            lemma_abstract_successors(system, i, full);
        } else {
            lemma_abstract_predecessors(system, i, full);
        }
        assert(proper(system, image));
        assert forall|v: Seq<bool>| image.contains(v) implies full.contains(v) by {
            assert(step_image(system, forward, i, whole).contains(v));
            if v.len() == n {
                assert forall|b: Seq<bool>| b.len() == n && agree(v, b, on) implies #[trigger] whole.contains(
                    b,
                ) by {
                    assert(image.contains(b));
                    assert(step_image(system, forward, i, whole).contains(b));
                }
            }
        }
    }
    assert(closed_under(system, forward, full));
    assert forall|a: Seq<bool>, b: Seq<bool>|
        a.len() == n && b.len() == n && #[trigger] whole.contains(a) && agree(
            a,
            b,
            on,
        ) implies #[trigger] whole.contains(b) by {
        assert(full.contains(a));
    }
}

/// Whatever the encoding, the closure of a set of states stands for the
/// closure of the states that the set stands for. So the systems of one
/// network in different encodings reach the same states from the same
/// states, forwards and backwards.
pub proof fn lemma_abstract_closure<D: SymbolicDomainOrd>(
    system: &SmartSystemUpdateFn<D>,
    forward: bool,
    s: Set<Seq<bool>>,
)
    requires
        system.wf(),
        proper(system, s),
    ensures
        abstract_states(system, closure(system, forward, s)) == abstract_closure(
            system.model(),
            forward,
            abstract_states(system, s),
        ),
{
    lemma_system_tables(system);
    let n = system.num_vars();
    let blocks = system.blocks();
    let tables = system.tables();
    let model = system.model();
    let whole = closure(system, forward, s);
    let start = abstract_states(system, s);
    let reached = abstract_states(system, whole);
    let wanted = abstract_closure(model, forward, start);
    lemma_abstract_closure_closed(model, forward, start);
    lemma_closure_extends(system, forward, s);
    lemma_closure_closed(system, forward, s);
    lemma_closure_proper(system, forward, s);

    // What is reached is wanted: the valuations of wanted states, with the
    // set itself, are closed.
    let cover = Set::new(
        |t: Seq<bool>|
            s.contains(t) || (system.states().contains(t) && wanted.contains(
                state_of(blocks, tables, t),
            )),
    );
    assert forall|t: Seq<bool>| cover.contains(t) && system.states().contains(
        t,
    ) implies wanted.contains(state_of(blocks, tables, t)) by {
        if s.contains(t) {
            assert(start.contains(state_of(blocks, tables, t)));
        }
    }
    assert forall|i: int| 0 <= i < model.len() implies (#[trigger] step_image(
        system,
        forward,
        i,
        cover,
    )).subset_of(cover) by {
        let block = blocks[i];
        let primed = system.primed_blocks()[i];
        assert(abstract_step(model, forward, i, wanted).subset_of(wanted));
        assert forall|v: Seq<bool>| step_image(system, forward, i, cover).contains(
            v,
        ) implies cover.contains(v) by {
            if forward {
                let w = choose|w: Seq<bool>|
                    #[trigger] system.relation(i).contains(w) && cover.contains(w) && steps_to(
                        w,
                        v,
                        block,
                        primed,
                    );
                lemma_successor_state(system, i, w, v);
                let x = state_of(blocks, tables, w);
                assert(wanted.contains(x));
                assert(abstract_post(model, i, wanted).contains(state_of(blocks, tables, v)));
            } else {
                let w = choose|w: Seq<bool>|
                    #[trigger] system.relation(i).contains(w) && same_outside(
                        v,
                        w,
                        block_set(primed),
                    ) && cover.contains(moved(w, block, primed));
                let m = moved(w, block, primed);
                assert(crate::image::twin_blocks(block, primed, n));
                lemma_moved(w, block, primed, n);
                lemma_successor_state(system, i, w, m);
                assert(wanted.contains(state_of(blocks, tables, m)));
                assert forall|j: int| 0 <= j < blocks.len() implies pattern(
                    #[trigger] blocks[j],
                    w,
                ) == pattern(blocks[j], v) by {
                    assert(crate::image::twin_blocks(blocks[j], system.primed_blocks()[j], n));
                    assert forall|a: int| 0 <= a < blocks[j].len() implies w[blocks[j][a]]
                        == v[blocks[j][a]] by {
                        crate::semantics::lemma_apart(system, i, j, a);
                    }
                    assert(pattern(blocks[j], w) =~= pattern(blocks[j], v));
                }
                lemma_same_state(blocks, tables, w, v);
                lemma_state_in_domain(system, v);
                assert(abstract_pre(model, i, wanted).contains(state_of(blocks, tables, v)));
            }
        }
    }
    assert(s.subset_of(cover) && closed_under(system, forward, cover));
    assert forall|y: Seq<int>| reached.contains(y) implies wanted.contains(y) by {
        let t = choose|t: Seq<bool>|
            #[trigger] whole.contains(t) && system.states().contains(t) && state_of(
                blocks,
                tables,
                t,
            ) == y;
        assert(cover.contains(t));
    }

    // What is wanted is reached: the states that are reached hold the
    // start and are closed.
    assert forall|x: Seq<int>| start.contains(x) implies reached.contains(x) by {
        let t = choose|t: Seq<bool>|
            #[trigger] s.contains(t) && system.states().contains(t) && state_of(
                blocks,
                tables,
                t,
            ) == x;
        assert(whole.contains(t));
    }
    assert forall|i: int| 0 <= i < model.len() implies (#[trigger] abstract_step(
        model,
        forward,
        i,
        reached,
    )).subset_of(reached) by {
        let image = step_image(system, forward, i, whole);
        assert(image.subset_of(whole));
        if forward {
            lemma_abstract_successors(system, i, whole);
        } else {
            lemma_abstract_predecessors(system, i, whole);
        }
        assert(abstract_states(system, image) == abstract_step(model, forward, i, reached));
        assert forall|y: Seq<int>| abstract_states(system, image).contains(
            y,
        ) implies reached.contains(y) by {
            let t = choose|t: Seq<bool>|
                #[trigger] image.contains(t) && system.states().contains(t) && state_of(
                    blocks,
                    tables,
                    t,
                ) == y;
            assert(whole.contains(t));
        }
    }
    assert(start.subset_of(reached) && abstract_closed(model, forward, reached));
    assert forall|y: Seq<int>| wanted.contains(y) implies reached.contains(y) by {}
    assert(reached =~= wanted);
}

} // verus!
