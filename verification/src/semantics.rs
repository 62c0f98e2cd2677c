//! What the steps of a system mean for the states of its network.

use crate::bdd::same_outside;
use crate::image::{block_set, lemma_moved, moved, post_image, pre_image, steps_to, twin_blocks};
use crate::relation::{lemma_next_value_yields, step_set};
use crate::symbolic_domain::{lemma_index_of, pattern, SymbolicDomainOrd};
use crate::system::{apart, class_of, SmartSystemUpdateFn};
use crate::unprocessed::{is_max_value, mentions, names_of, UnprocessedVariableUpdateFn};
use crate::variable_update_fn::{
    distinct_rows, encodes, legal, lemma_tables, lemma_value_in, shows, state_of, value_in,
};
use vstd::prelude::*;

verus! {

/// Two valuations that show the same on every block stand for the same
/// state, if either stands for one.
pub proof fn lemma_same_state(
    blocks: Seq<Seq<int>>,
    tables: Seq<Seq<Seq<bool>>>,
    a: Seq<bool>,
    b: Seq<bool>,
)
    requires
        blocks.len() == tables.len(),
        forall|j: int| 0 <= j < blocks.len() ==> distinct_rows(#[trigger] tables[j]),
        forall|j: int|
            0 <= j < blocks.len() ==> pattern(#[trigger] blocks[j], a) == pattern(blocks[j], b),
        legal(blocks, tables, a),
    ensures
        legal(blocks, tables, b),
        state_of(blocks, tables, a) == state_of(blocks, tables, b),
{
    assert forall|j: int| 0 <= j < blocks.len() implies encodes(#[trigger] blocks[j], tables[j], b)
        && value_in(blocks[j], tables[j], a) == value_in(blocks[j], tables[j], b) by {
        assert(encodes(blocks[j], tables[j], a));
        let v = value_in(blocks[j], tables[j], a);
        assert(shows(blocks[j], tables[j], a, v));
        assert(shows(blocks[j], tables[j], b, v));
        lemma_value_in(blocks[j], tables[j], b, v);
    }
    assert(state_of(blocks, tables, a) =~= state_of(blocks, tables, b));
}

/// The rows of every table of a well-formed system differ.
pub proof fn lemma_system_tables<D: SymbolicDomainOrd>(system: &SmartSystemUpdateFn<D>)
    requires
        system.wf(),
    ensures
        system.blocks().len() == system.model().len(),
        system.tables().len() == system.model().len(),
        system.primed_blocks().len() == system.model().len(),
        forall|j: int| 0 <= j < system.tables().len() ==> distinct_rows(#[trigger] system.tables()[j]),
        forall|j: int|
            0 <= j < system.tables().len() ==> (#[trigger] system.tables()[j]).len()
                == system.domains()[j].max_spec() + 1,
{
    assert forall|j: int| 0 <= j < system.tables().len() implies distinct_rows(
        #[trigger] system.tables()[j],
    ) && system.tables()[j].len() == system.domains()[j].max_spec() + 1 by {
        lemma_tables(system.domains(), system.num_vars(), j);
    }
}

/// A position of an unprimed block lies in no primed block, and in no
/// other unprimed block.
pub proof fn lemma_apart<D: SymbolicDomainOrd>(
    system: &SmartSystemUpdateFn<D>,
    i: int,
    j: int,
    a: int,
)
    requires
        system.wf(),
        0 <= i < system.model().len(),
        0 <= j < system.model().len(),
        0 <= a < system.blocks()[j].len(),
    ensures
        !system.primed_blocks()[i].contains(system.blocks()[j][a]),
        i != j ==> !system.blocks()[i].contains(system.blocks()[j][a]),
{
    let k = system.blocks()[j][a];
    if system.primed_blocks()[i].contains(k) {
        let b = choose|b: int|
            0 <= b < system.primed_blocks()[i].len() && system.primed_blocks()[i][b] == k;
        assert(apart(system.blocks(), j, system.primed_blocks(), i));
        assert(system.blocks()[j][a] != system.primed_blocks()[i][b]);
    }
    if i != j && system.blocks()[i].contains(k) {
        let b = choose|b: int| 0 <= b < system.blocks()[i].len() && system.blocks()[i][b] == k;
        assert(apart(system.blocks(), j, system.blocks(), i));
        assert(system.blocks()[j][a] != system.blocks()[i][b]);
    }
}

/// The relation of a variable reads the unprimed blocks and the primed
/// block of the variable, and nothing else: two valuations that agree
/// there are both in it or both not.
pub proof fn lemma_relation_support<D: SymbolicDomainOrd>(
    system: &SmartSystemUpdateFn<D>,
    i: int,
    a: Seq<bool>,
    b: Seq<bool>,
)
    requires
        system.wf(),
        0 <= i < system.model().len(),
        a.len() == system.num_vars(),
        b.len() == system.num_vars(),
        forall|k: int|
            0 <= k < system.num_vars() && system.standard_positions().contains(k) ==> a[k] == b[k],
        pattern(system.primed_blocks()[i], a) == pattern(system.primed_blocks()[i], b),
        system.relation(i).contains(a),
    ensures
        system.relation(i).contains(b),
{
    lemma_system_tables(system);
    let blocks = system.blocks();
    let tables = system.tables();
    assert forall|j: int| 0 <= j < blocks.len() implies pattern(#[trigger] blocks[j], a)
        == pattern(blocks[j], b) by {
        assert(twin_blocks(blocks[j], system.primed_blocks()[j], system.num_vars()));
        assert forall|x: int| 0 <= x < blocks[j].len() implies a[blocks[j][x]]
            == b[blocks[j][x]] by {
            assert(system.standard_positions().contains(blocks[j][x]));
        }
        assert(pattern(blocks[j], a) =~= pattern(blocks[j], b));
    }
    assert(step_set(
        system.num_vars(),
        blocks,
        tables,
        system.names(),
        &system.model()[i].1,
        system.primed_blocks()[i],
        tables[i],
    ).contains(a));
    lemma_same_state(blocks, tables, a, b);
}

/// One step of a variable leads from a state to a state: the variable takes
/// the value that its update function gives, and every other variable keeps
/// its value.
pub proof fn lemma_successor_state<D: SymbolicDomainOrd>(
    system: &SmartSystemUpdateFn<D>,
    i: int,
    w: Seq<bool>,
    v: Seq<bool>,
)
    requires
        system.wf(),
        0 <= i < system.model().len(),
        system.relation(i).contains(w),
        steps_to(w, v, system.blocks()[i], system.primed_blocks()[i]),
    ensures
        system.states().contains(w),
        system.states().contains(v),
        state_of(system.blocks(), system.tables(), v) == state_of(
            system.blocks(),
            system.tables(),
            w,
        ).update(
            i,
            system.model()[i].1.next_value(
                system.names(),
                state_of(system.blocks(), system.tables(), w),
            ),
        ),
{
    lemma_system_tables(system);
    let n = system.num_vars();
    let blocks = system.blocks();
    let tables = system.tables();
    let block = blocks[i];
    let primed = system.primed_blocks()[i];
    let next = system.model()[i].1.next_value(system.names(), state_of(blocks, tables, w));
    assert(step_set(
        n,
        blocks,
        tables,
        system.names(),
        &system.model()[i].1,
        primed,
        tables[i],
    ).contains(w));
    assert(shows(primed, tables[i], w, next));
    assert forall|j: int| 0 <= j < blocks.len() implies encodes(#[trigger] blocks[j], tables[j], v)
        && value_in(blocks[j], tables[j], v) == state_of(blocks, tables, w).update(i, next)[j] by {
        if j == i {
            assert(pattern(block, v) == tables[i][next]);
            assert(shows(block, tables[i], v, next));
            lemma_value_in(block, tables[i], v, next);
        } else {
            assert(twin_blocks(blocks[j], system.primed_blocks()[j], n));
            assert forall|x: int| 0 <= x < blocks[j].len() implies w[blocks[j][x]]
                == v[blocks[j][x]] by {
                lemma_apart(system, i, j, x);
            }
            assert(pattern(blocks[j], w) =~= pattern(blocks[j], v));
            assert(encodes(blocks[j], tables[j], w));
            let x = value_in(blocks[j], tables[j], w);
            assert(shows(blocks[j], tables[j], w, x));
            assert(shows(blocks[j], tables[j], v, x));
            lemma_value_in(blocks[j], tables[j], v, x);
        }
    }
    assert(state_of(blocks, tables, v) =~= state_of(blocks, tables, w).update(i, next));
}

/// Every successor and every predecessor is a state of the network.
pub proof fn lemma_images_are_states<D: SymbolicDomainOrd>(
    system: &SmartSystemUpdateFn<D>,
    i: int,
    s: Set<Seq<bool>>,
)
    requires
        system.wf(),
        0 <= i < system.model().len(),
    ensures
        post_image(system.relation(i), s, system.blocks()[i], system.primed_blocks()[i]).subset_of(
            system.states(),
        ),
        pre_image(system.relation(i), s, system.blocks()[i], system.primed_blocks()[i]).subset_of(
            system.states(),
        ),
{
    lemma_system_tables(system);
    let n = system.num_vars();
    let blocks = system.blocks();
    let tables = system.tables();
    let block = blocks[i];
    let primed = system.primed_blocks()[i];
    assert forall|v: Seq<bool>| post_image(system.relation(i), s, block, primed).contains(
        v,
    ) implies system.states().contains(v) by {
        let w = choose|w: Seq<bool>|
            #[trigger] system.relation(i).contains(w) && s.contains(w) && steps_to(
                w,
                v,
                block,
                primed,
            );
        lemma_successor_state(system, i, w, v);
    }
    assert forall|v: Seq<bool>| pre_image(system.relation(i), s, block, primed).contains(
        v,
    ) implies system.states().contains(v) by {
        let w = choose|w: Seq<bool>|
            #[trigger] system.relation(i).contains(w) && same_outside(v, w, block_set(primed))
                && s.contains(moved(w, block, primed));
        assert(step_set(
            n,
            blocks,
            tables,
            system.names(),
            &system.model()[i].1,
            primed,
            tables[i],
        ).contains(w));
        assert forall|j: int| 0 <= j < blocks.len() implies pattern(#[trigger] blocks[j], w)
            == pattern(blocks[j], v) by {
            assert(twin_blocks(blocks[j], system.primed_blocks()[j], n));
            assert forall|x: int| 0 <= x < blocks[j].len() implies w[blocks[j][x]]
                == v[blocks[j][x]] by {
                lemma_apart(system, i, j, x);
            }
            assert(pattern(blocks[j], w) =~= pattern(blocks[j], v));
        }
        lemma_same_state(blocks, tables, w, v);
    }
}

/// Stepping forwards and stepping backwards are two views of one
/// relation: the state of `later` comes after the state of `earlier` in one
/// step of a variable exactly if the state of `earlier` is among the
/// predecessors of the state of `later`.
pub proof fn lemma_duality<D: SymbolicDomainOrd>(
    system: &SmartSystemUpdateFn<D>,
    i: int,
    earlier: Seq<bool>,
    later: Seq<bool>,
)
    requires
        system.wf(),
        0 <= i < system.model().len(),
        earlier.len() == system.num_vars(),
        later.len() == system.num_vars(),
    ensures
        post_image(
            system.relation(i),
            class_of(system.num_vars(), system.standard_positions(), earlier),
            system.blocks()[i],
            system.primed_blocks()[i],
        ).contains(later) <==> pre_image(
            system.relation(i),
            class_of(system.num_vars(), system.standard_positions(), later),
            system.blocks()[i],
            system.primed_blocks()[i],
        ).contains(earlier),
{
    lemma_system_tables(system);
    let n = system.num_vars();
    let on = system.standard_positions();
    let block = system.blocks()[i];
    let primed = system.primed_blocks()[i];
    let relation = system.relation(i);
    let x = earlier;
    let y = later;
    assert(twin_blocks(block, primed, n));
    assert forall|k: int| on.contains(k) implies !primed.contains(k) by {
        let (j, a) = choose|j: int, a: int|
            0 <= j < system.blocks().len() && 0 <= a < system.blocks()[j].len()
                && #[trigger] system.blocks()[j][a] == k;
        lemma_apart(system, i, j, a);
    }
    assert forall|a: int| 0 <= a < block.len() implies on.contains(#[trigger] block[a]) by {
        assert(system.blocks()[i][a] == block[a]);
    }
    if post_image(relation, class_of(n, on, x), block, primed).contains(y) {
        let w = choose|w: Seq<bool>|
            #[trigger] relation.contains(w) && class_of(n, on, x).contains(w) && steps_to(
                w,
                y,
                block,
                primed,
            );
        let t = Seq::new(
            n,
            |k: int|
                if primed.contains(k) {
                    w[k]
                } else {
                    x[k]
                },
        );
        assert forall|a: int| 0 <= a < primed.len() implies t[primed[a]] == w[primed[a]] by {
            assert(primed.contains(primed[a]));
        }
        assert(pattern(primed, w) =~= pattern(primed, t));
        lemma_relation_support(system, i, w, t);
        lemma_moved(t, block, primed, n);
        let m = moved(t, block, primed);
        assert forall|k: int| 0 <= k < n && on.contains(k) implies #[trigger] m[k] == y[k] by {
            if block.contains(k) {
                let a = choose|a: int| 0 <= a < block.len() && block[a] == k;
                assert(pattern(block, m)[a] == m[k]);
                assert(pattern(primed, t)[a] == t[primed[a]]);
                assert(pattern(primed, w)[a] == w[primed[a]]);
                assert(pattern(block, y)[a] == y[k]);
            } else {
                assert(m[k] == t[k]);
                assert(w[k] == y[k]);
            }
        }
        assert(relation.contains(t) && same_outside(x, t, block_set(primed)) && class_of(
            n,
            on,
            y,
        ).contains(m));
    }
    if pre_image(relation, class_of(n, on, y), block, primed).contains(x) {
        let t = choose|t: Seq<bool>|
            #[trigger] relation.contains(t) && same_outside(x, t, block_set(primed)) && class_of(
                n,
                on,
                y,
            ).contains(moved(t, block, primed));
        lemma_moved(t, block, primed, n);
        let m = moved(t, block, primed);
        let w = Seq::new(
            n,
            |k: int|
                if block.contains(k) || primed.contains(k) {
                    t[k]
                } else {
                    y[k]
                },
        );
        assert forall|k: int| 0 <= k < n && on.contains(k) implies w[k] == t[k] && w[k]
            == x[k] by {
            assert(!block_set(primed).contains(k));
            assert(x[k] == t[k]);
            if !block.contains(k) {
                assert(m[k] == y[k]);
                assert(m[k] == t[k]);
            }
        }
        assert forall|a: int| 0 <= a < primed.len() implies w[primed[a]] == t[primed[a]] by {
            assert(primed.contains(primed[a]));
        }
        assert(pattern(primed, t) =~= pattern(primed, w));
        lemma_relation_support(system, i, t, w);
        assert forall|a: int| 0 <= a < primed.len() implies pattern(primed, w)[a] == pattern(
            block,
            y,
        )[a] by {
            assert(on.contains(block[a]));
            assert(m[block[a]] == y[block[a]]);
            assert(pattern(block, m)[a] == m[block[a]]);
            assert(pattern(primed, t)[a] == t[primed[a]]);
        }
        assert(pattern(primed, w) =~= pattern(block, y));
        assert(relation.contains(w) && class_of(n, on, x).contains(w) && steps_to(
            w,
            y,
            block,
            primed,
        ));
    }
}

/// A set of states: a set that does not tell valuations apart that agree
/// on the unprimed blocks.
pub open spec fn proper<D: SymbolicDomainOrd>(system: &SmartSystemUpdateFn<D>, s: Set<Seq<bool>>) -> bool {
    forall|a: Seq<bool>, b: Seq<bool>|
        a.len() == system.num_vars() && b.len() == system.num_vars() && #[trigger] s.contains(a)
            && agree(a, b, system.standard_positions()) ==> #[trigger] s.contains(b)
}

/// Two valuations that give the same to every position of `on`.
pub open spec fn agree(a: Seq<bool>, b: Seq<bool>, on: Set<int>) -> bool {
    forall|k: int| 0 <= k < a.len() && on.contains(k) ==> #[trigger] a[k] == b[k]
}

/// The states, as lists of values, that the valuations of a set stand for.
/// This is what a set means whatever the encoding.
pub open spec fn abstract_states<D: SymbolicDomainOrd>(
    system: &SmartSystemUpdateFn<D>,
    s: Set<Seq<bool>>,
) -> Set<Seq<int>> {
    Set::new(
        |x: Seq<int>|
            exists|t: Seq<bool>|
                #[trigger] s.contains(t) && system.states().contains(t) && state_of(
                    system.blocks(),
                    system.tables(),
                    t,
                ) == x,
    )
}

/// The states that come after a state of `xs` in one step of variable `i`
/// of a network: the variable takes the value that its update function
/// gives, and the others keep theirs. No encoding is involved.
pub open spec fn abstract_post(
    model: Seq<(String, UnprocessedVariableUpdateFn)>,
    i: int,
    xs: Set<Seq<int>>,
) -> Set<Seq<int>> {
    Set::new(
        |y: Seq<int>|
            exists|x: Seq<int>|
                #[trigger] xs.contains(x) && y == x.update(
                    i,
                    model[i].1.next_value(names_of(model), x),
                ),
    )
}

/// A list with one value for each variable of a network, each from zero
/// to the largest value that the network mentions for the variable.
pub open spec fn in_domain(model: Seq<(String, UnprocessedVariableUpdateFn)>, x: Seq<int>) -> bool {
    x.len() == model.len() && forall|j: int|
        0 <= j < model.len() ==> 0 <= #[trigger] x[j] && exists|v: int|
            mentions(model, j, v) && x[j] <= v
}

/// The states from which one step of variable `i` of a network leads to a
/// state of `ys`. No encoding is involved.
pub open spec fn abstract_pre(
    model: Seq<(String, UnprocessedVariableUpdateFn)>,
    i: int,
    ys: Set<Seq<int>>,
) -> Set<Seq<int>> {
    Set::new(
        |x: Seq<int>|
            in_domain(model, x) && ys.contains(
                x.update(i, model[i].1.next_value(names_of(model), x)),
            ),
    )
}

/// The valuation `t` with the pattern `code` put on a block.
pub open spec fn placed(t: Seq<bool>, block: Seq<int>, code: Seq<bool>) -> Seq<bool> {
    Seq::new(
        t.len(),
        |k: int|
            if block.contains(k) {
                code[block.index_of(k)]
            } else {
                t[k]
            },
    )
}

/// A valuation with a pattern put on a block shows the pattern there and
/// is unchanged elsewhere.
pub proof fn lemma_placed(t: Seq<bool>, block: Seq<int>, code: Seq<bool>, n: nat)
    requires
        t.len() == n,
        block.no_duplicates(),
        block.len() == code.len(),
        forall|a: int| 0 <= a < block.len() ==> 0 <= #[trigger] block[a] < n,
    ensures
        placed(t, block, code).len() == n,
        pattern(block, placed(t, block, code)) == code,
        same_outside(placed(t, block, code), t, block_set(block)),
{
    let p = placed(t, block, code);
    assert forall|a: int| 0 <= a < block.len() implies p[block[a]] == code[a] by {
        lemma_index_of(block, a);
    }
    assert(pattern(block, p) =~= code);
}

/// The valuations of a well-formed system that stand for states stand for
/// lists of values within the domains.
pub proof fn lemma_state_in_domain<D: SymbolicDomainOrd>(
    system: &SmartSystemUpdateFn<D>,
    t: Seq<bool>,
)
    requires
        system.wf(),
        system.states().contains(t),
    ensures
        in_domain(system.model(), state_of(system.blocks(), system.tables(), t)),
        forall|j: int|
            0 <= j < system.model().len() ==> shows(
                #[trigger] system.blocks()[j],
                system.tables()[j],
                t,
                state_of(system.blocks(), system.tables(), t)[j],
            ),
{
    lemma_system_tables(system);
    let blocks = system.blocks();
    let tables = system.tables();
    let x = state_of(blocks, tables, t);
    assert forall|j: int| 0 <= j < system.model().len() implies shows(
        #[trigger] blocks[j],
        tables[j],
        t,
        x[j],
    ) && 0 <= x[j] && exists|v: int| mentions(system.model(), j, v) && x[j] <= v by {
        assert(encodes(blocks[j], tables[j], t));
        assert(shows(blocks[j], tables[j], t, x[j]));
        let top = system.domains()[j].max_spec() as int;
        assert(is_max_value(system.model(), j, top));
        assert(mentions(system.model(), j, top) && x[j] <= top);
    }
}

/// Whatever the encoding, the successors of a set of states stand for the
/// successors of the states that the set stands for. So the systems of one
/// network in different encodings step from the same states to the same
/// states.
pub proof fn lemma_abstract_successors<D: SymbolicDomainOrd>(
    system: &SmartSystemUpdateFn<D>,
    i: int,
    s: Set<Seq<bool>>,
)
    requires
        system.wf(),
        0 <= i < system.model().len(),
        proper(system, s),
    ensures
        abstract_states(
            system,
            post_image(system.relation(i), s, system.blocks()[i], system.primed_blocks()[i]),
        ) == abstract_post(system.model(), i, abstract_states(system, s)),
        proper(
            system,
            post_image(system.relation(i), s, system.blocks()[i], system.primed_blocks()[i]),
        ),
{
    lemma_system_tables(system);
    let n = system.num_vars();
    let on = system.standard_positions();
    let blocks = system.blocks();
    let tables = system.tables();
    let block = blocks[i];
    let primed = system.primed_blocks()[i];
    let relation = system.relation(i);
    let model = system.model();
    let image = post_image(relation, s, block, primed);
    let left = abstract_states(system, image);
    let right = abstract_post(model, i, abstract_states(system, s));
    assert(twin_blocks(block, primed, n));
    assert forall|k: int| on.contains(k) implies !primed.contains(k) by {
        let (j, a) = choose|j: int, a: int|
            0 <= j < blocks.len() && 0 <= a < blocks[j].len() && #[trigger] blocks[j][a] == k;
        lemma_apart(system, i, j, a);
    }
    assert forall|a: int| 0 <= a < block.len() implies on.contains(#[trigger] block[a]) by {
        assert(blocks[i][a] == block[a]);
    }
    assert forall|y: Seq<int>| left.contains(y) implies right.contains(y) by {
        let v = choose|v: Seq<bool>|
            #[trigger] image.contains(v) && system.states().contains(v) && state_of(
                blocks,
                tables,
                v,
            ) == y;
        let w = choose|w: Seq<bool>|
            #[trigger] relation.contains(w) && s.contains(w) && steps_to(w, v, block, primed);
        lemma_successor_state(system, i, w, v);
        let x = state_of(blocks, tables, w);
        assert(s.contains(w) && system.states().contains(w) && state_of(blocks, tables, w) == x);
        assert(abstract_states(system, s).contains(x));
    }
    assert forall|y: Seq<int>| right.contains(y) implies left.contains(y) by {
        let x = choose|x: Seq<int>|
            #[trigger] abstract_states(system, s).contains(x) && y == x.update(
                i,
                model[i].1.next_value(names_of(model), x),
            );
        let t = choose|t: Seq<bool>|
            #[trigger] s.contains(t) && system.states().contains(t) && state_of(
                blocks,
                tables,
                t,
            ) == x;
        let next = model[i].1.next_value(names_of(model), x);
        lemma_next_value_yields(&model[i].1, names_of(model), x);
        assert(mentions(model, i, next));
        assert(0 <= next < tables[i].len());
        system.domains()[i].lemma_wf();
        D::lemma_table(system.domains()[i].max_spec());
        assert(tables[i][next].len() == primed.len());
        let w = placed(t, primed, tables[i][next]);
        lemma_placed(t, primed, tables[i][next], n);
        assert(agree(t, w, on));
        assert(s.contains(w));
        assert forall|j: int| 0 <= j < blocks.len() implies pattern(#[trigger] blocks[j], t)
            == pattern(blocks[j], w) by {
            assert(twin_blocks(blocks[j], system.primed_blocks()[j], n));
            assert forall|a: int| 0 <= a < blocks[j].len() implies t[blocks[j][a]]
                == w[blocks[j][a]] by {
                lemma_apart(system, i, j, a);
            }
            assert(pattern(blocks[j], t) =~= pattern(blocks[j], w));
        }
        lemma_same_state(blocks, tables, t, w);
        assert(shows(primed, tables[i], w, next));
        assert(relation.contains(w));
        let v = moved(w, block, primed);
        lemma_moved(w, block, primed, n);
        assert(relation.contains(w) && s.contains(w) && steps_to(w, v, block, primed));
        assert(image.contains(v));
        lemma_successor_state(system, i, w, v);
        assert(image.contains(v) && system.states().contains(v) && state_of(blocks, tables, v)
            == y);
    }
    assert(left =~= right);
    assert forall|a: Seq<bool>, b: Seq<bool>|
        a.len() == n && b.len() == n && #[trigger] image.contains(a) && agree(
            a,
            b,
            on,
        ) implies #[trigger] image.contains(b) by {
        let w = choose|w: Seq<bool>|
            #[trigger] relation.contains(w) && s.contains(w) && steps_to(w, a, block, primed);
        let u = Seq::new(
            n,
            |k: int|
                if on.contains(k) || primed.contains(k) {
                    w[k]
                } else {
                    b[k]
                },
        );
        assert(agree(w, u, on));
        assert(s.contains(u));
        assert forall|x: int| 0 <= x < primed.len() implies u[primed[x]] == w[primed[x]] by {
            assert(primed.contains(primed[x]));
        }
        assert(pattern(primed, w) =~= pattern(primed, u));
        lemma_relation_support(system, i, w, u);
        assert forall|x: int| 0 <= x < primed.len() implies pattern(primed, u)[x] == pattern(
            block,
            b,
        )[x] by {
            assert(pattern(primed, w)[x] == pattern(block, a)[x]);
            assert(on.contains(block[x]));
            assert(a[block[x]] == b[block[x]]);
        }
        assert(pattern(primed, u) =~= pattern(block, b));
        assert forall|k: int|
            0 <= k < u.len() && !block.contains(k) && !primed.contains(k) implies #[trigger] u[k]
            == b[k] by {
            if on.contains(k) {
                assert(w[k] == a[k]);
                assert(a[k] == b[k]);
            }
        }
        assert(relation.contains(u) && s.contains(u) && steps_to(u, b, block, primed));
    }
}

/// Whatever the encoding, the predecessors of a set of states stand for
/// the predecessors of the states that the set stands for.
pub proof fn lemma_abstract_predecessors<D: SymbolicDomainOrd>(
    system: &SmartSystemUpdateFn<D>,
    i: int,
    s: Set<Seq<bool>>,
)
    requires
        system.wf(),
        0 <= i < system.model().len(),
        proper(system, s),
    ensures
        abstract_states(
            system,
            pre_image(system.relation(i), s, system.blocks()[i], system.primed_blocks()[i]),
        ) == abstract_pre(system.model(), i, abstract_states(system, s)),
        proper(
            system,
            pre_image(system.relation(i), s, system.blocks()[i], system.primed_blocks()[i]),
        ),
{
    lemma_system_tables(system);
    let n = system.num_vars();
    let on = system.standard_positions();
    let blocks = system.blocks();
    let tables = system.tables();
    let block = blocks[i];
    let primed = system.primed_blocks()[i];
    let relation = system.relation(i);
    let model = system.model();
    let names = names_of(model);
    let image = pre_image(relation, s, block, primed);
    let left = abstract_states(system, image);
    let right = abstract_pre(model, i, abstract_states(system, s));
    assert(twin_blocks(block, primed, n));
    system.domains()[i].lemma_wf();
    D::lemma_table(system.domains()[i].max_spec());
    assert forall|k: int| on.contains(k) implies !primed.contains(k) by {
        let (j, a) = choose|j: int, a: int|
            0 <= j < blocks.len() && 0 <= a < blocks[j].len() && #[trigger] blocks[j][a] == k;
        lemma_apart(system, i, j, a);
    }
    assert forall|a: int| 0 <= a < block.len() implies on.contains(#[trigger] block[a]) by {
        assert(blocks[i][a] == block[a]);
    }
    assert forall|x: Seq<int>| left.contains(x) implies right.contains(x) by {
        let t = choose|t: Seq<bool>|
            #[trigger] image.contains(t) && system.states().contains(t) && state_of(
                blocks,
                tables,
                t,
            ) == x;
        let w = choose|w: Seq<bool>|
            #[trigger] relation.contains(w) && same_outside(t, w, block_set(primed))
                && s.contains(moved(w, block, primed));
        lemma_state_in_domain(system, t);
        let m = moved(w, block, primed);
        lemma_moved(w, block, primed, n);
        lemma_successor_state(system, i, w, m);
        assert forall|j: int| 0 <= j < blocks.len() implies pattern(#[trigger] blocks[j], w)
            == pattern(blocks[j], t) by {
            assert(twin_blocks(blocks[j], system.primed_blocks()[j], n));
            assert forall|a: int| 0 <= a < blocks[j].len() implies w[blocks[j][a]]
                == t[blocks[j][a]] by {
                lemma_apart(system, i, j, a);
            }
            assert(pattern(blocks[j], w) =~= pattern(blocks[j], t));
        }
        lemma_same_state(blocks, tables, w, t);
        let y = x.update(i, model[i].1.next_value(names, x));
        assert(s.contains(m) && system.states().contains(m) && state_of(blocks, tables, m) == y);
        assert(abstract_states(system, s).contains(y));
    }
    assert forall|x: Seq<int>| right.contains(x) implies left.contains(x) by {
        let next = model[i].1.next_value(names, x);
        let y = x.update(i, next);
        let u = choose|u: Seq<bool>|
            #[trigger] s.contains(u) && system.states().contains(u) && state_of(
                blocks,
                tables,
                u,
            ) == y;
        lemma_state_in_domain(system, u);
        lemma_next_value_yields(&model[i].1, names, x);
        assert(mentions(model, i, next));
        assert(0 <= next < tables[i].len());
        // The current value of the variable lies within its domain.
        let bound = choose|v: int| mentions(model, i, v) && x[i] <= v;
        assert(0 <= x[i] < tables[i].len());
        assert(tables[i][x[i]].len() == block.len());
        assert(tables[i][next].len() == primed.len());
        let t0 = placed(u, block, tables[i][x[i]]);
        lemma_placed(u, block, tables[i][x[i]], n);
        let w = placed(t0, primed, tables[i][next]);
        lemma_placed(t0, primed, tables[i][next], n);
        // Both stand for the state `x`.
        assert forall|j: int| 0 <= j < blocks.len() implies encodes(
            #[trigger] blocks[j],
            tables[j],
            w,
        ) && value_in(blocks[j], tables[j], w) == x[j] by {
            assert(twin_blocks(blocks[j], system.primed_blocks()[j], n));
            if j == i {
                assert forall|a: int| 0 <= a < block.len() implies w[block[a]]
                    == t0[block[a]] by {
                    lemma_apart(system, i, i, a);
                }
                assert(pattern(block, w) =~= pattern(block, t0));
                assert(shows(block, tables[i], w, x[i]));
                lemma_value_in(block, tables[i], w, x[i]);
            } else {
                assert forall|a: int| 0 <= a < blocks[j].len() implies w[blocks[j][a]]
                    == u[blocks[j][a]] by {
                    lemma_apart(system, i, j, a);
                }
                assert(pattern(blocks[j], w) =~= pattern(blocks[j], u));
                assert(shows(blocks[j], tables[j], u, y[j]));
                assert(shows(blocks[j], tables[j], w, x[j]));
                lemma_value_in(blocks[j], tables[j], w, x[j]);
            }
        }
        assert(state_of(blocks, tables, w) =~= x);
        assert(shows(primed, tables[i], w, next));
        assert(relation.contains(w));
        let m = moved(w, block, primed);
        lemma_moved(w, block, primed, n);
        assert forall|k: int| 0 <= k < n && on.contains(k) implies #[trigger] u[k] == m[k] by {
            if block.contains(k) {
                let a = choose|a: int| 0 <= a < block.len() && block[a] == k;
                assert(pattern(block, m)[a] == m[k]);
                assert(pattern(primed, w)[a] == tables[i][next][a]);
                assert(shows(block, tables[i], u, y[i]));
                assert(pattern(block, u)[a] == u[k]);
            } else {
                assert(m[k] == w[k]);
                assert(w[k] == t0[k]);
                assert(t0[k] == u[k]);
            }
        }
        assert(agree(u, m, on));
        assert(s.contains(m));
        assert(same_outside(w, w, block_set(primed)));
        assert(relation.contains(w) && same_outside(w, w, block_set(primed)) && s.contains(
            moved(w, block, primed),
        ));
        assert(image.contains(w));
        assert(image.contains(w) && system.states().contains(w) && state_of(blocks, tables, w)
            == x);
    }
    assert(left =~= right);
    assert forall|a: Seq<bool>, b: Seq<bool>|
        a.len() == n && b.len() == n && #[trigger] image.contains(a) && agree(
            a,
            b,
            on,
        ) implies #[trigger] image.contains(b) by {
        let w = choose|w: Seq<bool>|
            #[trigger] relation.contains(w) && same_outside(a, w, block_set(primed))
                && s.contains(moved(w, block, primed));
        let u = Seq::new(
            n,
            |k: int|
                if primed.contains(k) {
                    w[k]
                } else {
                    b[k]
                },
        );
        assert forall|k: int| 0 <= k < n && on.contains(k) implies w[k] == u[k] by {
            assert(!block_set(primed).contains(k));
            assert(a[k] == w[k]);
            assert(a[k] == b[k]);
        }
        assert forall|x: int| 0 <= x < primed.len() implies u[primed[x]] == w[primed[x]] by {
            assert(primed.contains(primed[x]));
        }
        assert(pattern(primed, w) =~= pattern(primed, u));
        lemma_relation_support(system, i, w, u);
        lemma_moved(w, block, primed, n);
        lemma_moved(u, block, primed, n);
        let mw = moved(w, block, primed);
        let mu = moved(u, block, primed);
        assert forall|k: int| 0 <= k < n && on.contains(k) implies #[trigger] mw[k] == mu[k] by {
            if block.contains(k) {
                let x = choose|x: int| 0 <= x < block.len() && block[x] == k;
                assert(pattern(block, mw)[x] == mw[k]);
                assert(pattern(block, mu)[x] == mu[k]);
                assert(pattern(primed, w)[x] == pattern(primed, u)[x]);
            }
        }
        assert(agree(mw, mu, on));
        assert(s.contains(mu));
        assert(relation.contains(u) && same_outside(b, u, block_set(primed)) && s.contains(
            moved(u, block, primed),
        ));
    }
}

/// A valuation of `n` variables that shows, on each of the first `upto`
/// blocks, the pattern of the value that the list `x` gives.
pub open spec fn encoded(
    blocks: Seq<Seq<int>>,
    tables: Seq<Seq<Seq<bool>>>,
    x: Seq<int>,
    n: nat,
    upto: int,
) -> Seq<bool>
    decreases upto,
{
    if upto <= 0 {
        Seq::new(n, |k: int| false)
    } else {
        placed(encoded(blocks, tables, x, n, upto - 1), blocks[upto - 1], tables[upto - 1][x[upto - 1]])
    }
}

/// The encoded valuation of a state shows on every block the value of the
/// state.
pub proof fn lemma_encoded<D: SymbolicDomainOrd>(
    system: &SmartSystemUpdateFn<D>,
    x: Seq<int>,
    upto: int,
)
    requires
        system.wf(),
        in_domain(system.model(), x),
        0 <= upto <= system.model().len(),
    ensures
        encoded(system.blocks(), system.tables(), x, system.num_vars(), upto).len()
            == system.num_vars(),
        forall|j: int|
            0 <= j < upto ==> shows(
                #[trigger] system.blocks()[j],
                system.tables()[j],
                encoded(system.blocks(), system.tables(), x, system.num_vars(), upto),
                x[j],
            ),
    decreases upto,
{
    lemma_system_tables(system);
    let n = system.num_vars();
    let blocks = system.blocks();
    let tables = system.tables();
    if upto > 0 {
        lemma_encoded(system, x, upto - 1);
        let last = upto - 1;
        let before = encoded(blocks, tables, x, n, last);
        let after = encoded(blocks, tables, x, n, upto);
        let bound = choose|v: int| mentions(system.model(), last, v) && x[last] <= v;
        assert(0 <= x[last] < tables[last].len());
        system.domains()[last].lemma_wf();
        D::lemma_table(system.domains()[last].max_spec());
        assert(twin_blocks(blocks[last], system.primed_blocks()[last], n));
        assert(tables[last][x[last]].len() == blocks[last].len());
        lemma_placed(before, blocks[last], tables[last][x[last]], n);
        assert forall|j: int| 0 <= j < upto implies shows(
            #[trigger] blocks[j],
            tables[j],
            after,
            x[j],
        ) by {
            if j < last {
                assert(shows(blocks[j], tables[j], before, x[j]));
                assert(twin_blocks(blocks[j], system.primed_blocks()[j], n));
                assert forall|a: int| 0 <= a < blocks[j].len() implies after[blocks[j][a]]
                    == before[blocks[j][a]] by {
                    lemma_apart(system, last, j, a);
                }
                assert(pattern(blocks[j], after) =~= pattern(blocks[j], before));
            }
        }
    }
}

/// The states of a network are the lists of values within its domains: the
/// set of all states of a system stands for exactly these, whatever the
/// encoding.
pub proof fn lemma_abstract_unit<D: SymbolicDomainOrd>(system: &SmartSystemUpdateFn<D>)
    requires
        system.wf(),
    ensures
        abstract_states(system, system.states()) == Set::new(
            |x: Seq<int>| in_domain(system.model(), x),
        ),
        proper(system, system.states()),
{
    lemma_system_tables(system);
    let n = system.num_vars();
    let blocks = system.blocks();
    let tables = system.tables();
    let left = abstract_states(system, system.states());
    let right = Set::new(|x: Seq<int>| in_domain(system.model(), x));
    assert forall|x: Seq<int>| left.contains(x) implies right.contains(x) by {
        let t = choose|t: Seq<bool>|
            #[trigger] system.states().contains(t) && system.states().contains(t) && state_of(
                blocks,
                tables,
                t,
            ) == x;
        lemma_state_in_domain(system, t);
    }
    assert forall|x: Seq<int>| right.contains(x) implies left.contains(x) by {
        let t = encoded(blocks, tables, x, n, blocks.len() as int);
        lemma_encoded(system, x, blocks.len() as int);
        lemma_shown_state(system, t, x);
        assert(system.states().contains(t) && system.states().contains(t) && state_of(
            blocks,
            tables,
            t,
        ) == x);
    }
    assert(left =~= right);
    assert forall|a: Seq<bool>, b: Seq<bool>|
        a.len() == n && b.len() == n && #[trigger] system.states().contains(a) && agree(
            a,
            b,
            system.standard_positions(),
        ) implies #[trigger] system.states().contains(b) by {
        lemma_agreeing(system, a, b);
        lemma_same_state(blocks, tables, a, b);
    }
}

/// Two valuations that agree on the unprimed positions show the same on
/// every unprimed block.
pub proof fn lemma_agreeing<D: SymbolicDomainOrd>(
    system: &SmartSystemUpdateFn<D>,
    a: Seq<bool>,
    b: Seq<bool>,
)
    requires
        system.wf(),
        a.len() == system.num_vars(),
        b.len() == system.num_vars(),
        agree(a, b, system.standard_positions()),
    ensures
        forall|j: int|
            0 <= j < system.blocks().len() ==> pattern(#[trigger] system.blocks()[j], a)
                == pattern(system.blocks()[j], b),
{
    let blocks = system.blocks();
    assert forall|j: int| 0 <= j < blocks.len() implies pattern(#[trigger] blocks[j], a)
        == pattern(blocks[j], b) by {
        assert(twin_blocks(blocks[j], system.primed_blocks()[j], system.num_vars()));
        assert forall|x: int| 0 <= x < blocks[j].len() implies a[blocks[j][x]]
            == b[blocks[j][x]] by {
            assert(system.standard_positions().contains(blocks[j][x]));
        }
        assert(pattern(blocks[j], a) =~= pattern(blocks[j], b));
    }
}

/// A valuation that shows on every block the value of a list stands for
/// the state of that list.
pub proof fn lemma_shown_state<D: SymbolicDomainOrd>(
    system: &SmartSystemUpdateFn<D>,
    t: Seq<bool>,
    x: Seq<int>,
)
    requires
        system.wf(),
        t.len() == system.num_vars(),
        x.len() == system.model().len(),
        forall|j: int|
            0 <= j < system.model().len() ==> shows(
                #[trigger] system.blocks()[j],
                system.tables()[j],
                t,
                x[j],
            ),
    ensures
        system.states().contains(t),
        state_of(system.blocks(), system.tables(), t) == x,
{
    lemma_system_tables(system);
    let blocks = system.blocks();
    let tables = system.tables();
    assert forall|j: int| 0 <= j < blocks.len() implies encodes(#[trigger] blocks[j], tables[j], t)
        && value_in(blocks[j], tables[j], t) == x[j] by {
        assert(shows(blocks[j], tables[j], t, x[j]));
        lemma_value_in(blocks[j], tables[j], t, x[j]);
    }
    assert(state_of(blocks, tables, t) =~= x);
}

/// The set of one state stands for that state and no other, whatever the
/// encoding.
pub proof fn lemma_abstract_state<D: SymbolicDomainOrd>(
    system: &SmartSystemUpdateFn<D>,
    values: Seq<int>,
)
    requires
        system.wf(),
        in_domain(system.model(), values),
    ensures
        abstract_states(system, system.state_set(values)) == Set::<Seq<int>>::empty().insert(
            values,
        ),
        proper(system, system.state_set(values)),
        system.state_set(values).subset_of(system.states()),
{
    lemma_system_tables(system);
    let n = system.num_vars();
    let blocks = system.blocks();
    let tables = system.tables();
    let set = system.state_set(values);
    let left = abstract_states(system, set);
    let right = Set::<Seq<int>>::empty().insert(values);
    assert forall|x: Seq<int>| left.contains(x) implies right.contains(x) by {
        let t = choose|t: Seq<bool>|
            #[trigger] set.contains(t) && system.states().contains(t) && state_of(
                blocks,
                tables,
                t,
            ) == x;
        lemma_shown_state(system, t, values);
    }
    assert forall|x: Seq<int>| right.contains(x) implies left.contains(x) by {
        let t = encoded(blocks, tables, values, n, blocks.len() as int);
        lemma_encoded(system, values, blocks.len() as int);
        lemma_shown_state(system, t, values);
        assert(set.contains(t) && system.states().contains(t) && state_of(blocks, tables, t)
            == x);
    }
    assert(left =~= right);
    assert forall|t: Seq<bool>| set.contains(t) implies system.states().contains(t) by {
        lemma_shown_state(system, t, values);
    }
    assert forall|a: Seq<bool>, b: Seq<bool>|
        a.len() == n && b.len() == n && #[trigger] set.contains(a) && agree(
            a,
            b,
            system.standard_positions(),
        ) implies #[trigger] set.contains(b) by {
        lemma_agreeing(system, a, b);
        assert forall|j: int| 0 <= j < blocks.len() implies shows(
            #[trigger] blocks[j],
            tables[j],
            b,
            values[j],
        ) by {
            assert(shows(blocks[j], tables[j], a, values[j]));
        }
    }
}

/// The union of two sets of states is a set of states, and stands for the
/// states of both.
pub proof fn lemma_abstract_union<D: SymbolicDomainOrd>(
    system: &SmartSystemUpdateFn<D>,
    first: Set<Seq<bool>>,
    second: Set<Seq<bool>>,
)
    requires
        proper(system, first),
        proper(system, second),
    ensures
        proper(system, first.union(second)),
        abstract_states(system, first.union(second)) == abstract_states(system, first).union(
            abstract_states(system, second),
        ),
{
    let both = first.union(second);
    assert forall|a: Seq<bool>, b: Seq<bool>|
        a.len() == system.num_vars() && b.len() == system.num_vars() && #[trigger] both.contains(a)
            && agree(a, b, system.standard_positions()) implies #[trigger] both.contains(b) by {
        if first.contains(a) {
            assert(first.contains(b));
        } else {
            assert(second.contains(b));
        }
    }
    let left = abstract_states(system, both);
    let right = abstract_states(system, first).union(abstract_states(system, second));
    assert forall|x: Seq<int>| left.contains(x) <==> right.contains(x) by {
        if left.contains(x) {
            let t = choose|t: Seq<bool>|
                #[trigger] both.contains(t) && system.states().contains(t) && state_of(
                    system.blocks(),
                    system.tables(),
                    t,
                ) == x;
            if first.contains(t) {
                assert(abstract_states(system, first).contains(x));
            } else {
                assert(second.contains(t));
                assert(abstract_states(system, second).contains(x));
            }
        }
        if abstract_states(system, first).contains(x) {
            let t = choose|t: Seq<bool>|
                #[trigger] first.contains(t) && system.states().contains(t) && state_of(
                    system.blocks(),
                    system.tables(),
                    t,
                ) == x;
            assert(both.contains(t));
        }
        if abstract_states(system, second).contains(x) {
            let t = choose|t: Seq<bool>|
                #[trigger] second.contains(t) && system.states().contains(t) && state_of(
                    system.blocks(),
                    system.tables(),
                    t,
                ) == x;
            assert(both.contains(t));
        }
    }
    assert(left =~= right);
}

/// Two valuations that stand for the same state agree on the unprimed
/// blocks.
pub proof fn lemma_same_state_agrees<D: SymbolicDomainOrd>(
    system: &SmartSystemUpdateFn<D>,
    a: Seq<bool>,
    b: Seq<bool>,
)
    requires
        system.wf(),
        system.states().contains(a),
        system.states().contains(b),
        state_of(system.blocks(), system.tables(), a) == state_of(
            system.blocks(),
            system.tables(),
            b,
        ),
    ensures
        agree(a, b, system.standard_positions()),
{
    let blocks = system.blocks();
    let tables = system.tables();
    lemma_state_in_domain(system, a);
    lemma_state_in_domain(system, b);
    assert forall|k: int|
        0 <= k < a.len() && system.standard_positions().contains(k) implies #[trigger] a[k]
        == b[k] by {
        let (j, x) = choose|j: int, x: int|
            0 <= j < blocks.len() && 0 <= x < blocks[j].len() && #[trigger] blocks[j][x] == k;
        let v = state_of(blocks, tables, a)[j];
        assert(shows(blocks[j], tables[j], a, v));
        assert(shows(blocks[j], tables[j], b, v));
        assert(pattern(blocks[j], a)[x] == a[k]);
        assert(pattern(blocks[j], b)[x] == b[k]);
    }
}

/// The states that two sets of states share, and the states of the first
/// that the second lacks, are sets of states and stand for what the names
/// say.
pub proof fn lemma_abstract_meet<D: SymbolicDomainOrd>(
    system: &SmartSystemUpdateFn<D>,
    first: Set<Seq<bool>>,
    second: Set<Seq<bool>>,
)
    requires
        system.wf(),
        proper(system, first),
        proper(system, second),
    ensures
        proper(system, first.intersect(second)),
        proper(system, first.difference(second)),
        abstract_states(system, first.intersect(second)) == abstract_states(
            system,
            first,
        ).intersect(abstract_states(system, second)),
        abstract_states(system, first.difference(second)) == abstract_states(
            system,
            first,
        ).difference(abstract_states(system, second)),
{
    let n = system.num_vars();
    let blocks = system.blocks();
    let tables = system.tables();
    let on = system.standard_positions();
    let both = first.intersect(second);
    let rest = first.difference(second);
    assert forall|a: Seq<bool>, b: Seq<bool>|
        a.len() == n && b.len() == n && #[trigger] both.contains(a) && agree(
            a,
            b,
            on,
        ) implies #[trigger] both.contains(b) by {
        assert(first.contains(b));
        assert(second.contains(b));
    }
    assert forall|a: Seq<bool>, b: Seq<bool>|
        a.len() == n && b.len() == n && #[trigger] rest.contains(a) && agree(
            a,
            b,
            on,
        ) implies #[trigger] rest.contains(b) by {
        assert(first.contains(b));
        if second.contains(b) {
            assert forall|k: int| 0 <= k < b.len() && on.contains(k) implies #[trigger] b[k]
                == a[k] by {
                assert(a[k] == b[k]);
            }
            assert(agree(b, a, on));
            assert(second.contains(a));
        }
    }
    assert forall|x: Seq<int>|
        abstract_states(system, both).contains(x) <==> abstract_states(system, first).contains(x)
            && abstract_states(system, second).contains(x) by {
        if abstract_states(system, both).contains(x) {
            let t = choose|t: Seq<bool>|
                #[trigger] both.contains(t) && system.states().contains(t) && state_of(
                    blocks,
                    tables,
                    t,
                ) == x;
            assert(first.contains(t) && second.contains(t));
        }
        if abstract_states(system, first).contains(x) && abstract_states(system, second).contains(
            x,
        ) {
            let t = choose|t: Seq<bool>|
                #[trigger] first.contains(t) && system.states().contains(t) && state_of(
                    blocks,
                    tables,
                    t,
                ) == x;
            let u = choose|u: Seq<bool>|
                #[trigger] second.contains(u) && system.states().contains(u) && state_of(
                    blocks,
                    tables,
                    u,
                ) == x;
            lemma_same_state_agrees(system, u, t);
            assert(second.contains(t));
            assert(both.contains(t));
        }
    }
    assert(abstract_states(system, both) =~= abstract_states(system, first).intersect(
        abstract_states(system, second),
    ));
    assert forall|x: Seq<int>|
        abstract_states(system, rest).contains(x) <==> abstract_states(system, first).contains(x)
            && !abstract_states(system, second).contains(x) by {
        if abstract_states(system, rest).contains(x) {
            let t = choose|t: Seq<bool>|
                #[trigger] rest.contains(t) && system.states().contains(t) && state_of(
                    blocks,
                    tables,
                    t,
                ) == x;
            assert(first.contains(t));
            if abstract_states(system, second).contains(x) {
                let u = choose|u: Seq<bool>|
                    #[trigger] second.contains(u) && system.states().contains(u) && state_of(
                        blocks,
                        tables,
                        u,
                    ) == x;
                lemma_same_state_agrees(system, u, t);
                assert(second.contains(t));
            }
        }
        if abstract_states(system, first).contains(x) && !abstract_states(system, second).contains(
            x,
        ) {
            let t = choose|t: Seq<bool>|
                #[trigger] first.contains(t) && system.states().contains(t) && state_of(
                    blocks,
                    tables,
                    t,
                ) == x;
            if second.contains(t) {
                assert(abstract_states(system, second).contains(x));
            }
            assert(rest.contains(t));
        }
    }
    assert(abstract_states(system, rest) =~= abstract_states(system, first).difference(
        abstract_states(system, second),
    ));
}

} // verus!
