//! The image of a set of valuations under a relation between the current
//! and the next value of one variable.
//!
//! A relation is a set of valuations over unprimed and primed variables: the
//! unprimed block of the variable holds its current value and the primed
//! block its next value. Everything here is stated on sets of valuations.

use crate::bdd::{bdd_num_vars, bdd_sat, indices, recall_width, same_outside, valuations, var_index};
use crate::symbolic_domain::{lemma_index_of, pattern, positions};
use biodivine_lib_bdd::{Bdd, BddVariable};
use vstd::prelude::*;

verus! {

/// The positions of a block, as a set.
pub open spec fn block_set(block: Seq<int>) -> Set<int> {
    Set::new(|k: int| block.contains(k))
}

/// The valuation `v` comes after `w` in one step: it shows on the unprimed
/// block what `w` shows on the primed one, and agrees with `w` outside
/// both blocks. What `v` shows on the primed block is left open.
pub open spec fn steps_to(w: Seq<bool>, v: Seq<bool>, block: Seq<int>, primed: Seq<int>) -> bool {
    &&& w.len() == v.len()
    &&& pattern(primed, w) == pattern(block, v)
    &&& forall|k: int|
        0 <= k < w.len() && !block.contains(k) && !primed.contains(k) ==> #[trigger] w[k] == v[k]
}

/// The valuation `w` with its unprimed block overwritten by what it shows
/// on the primed block.
pub open spec fn moved(w: Seq<bool>, block: Seq<int>, primed: Seq<int>) -> Seq<bool> {
    Seq::new(
        w.len(),
        |k: int|
            if block.contains(k) {
                w[primed[block.index_of(k)]]
            } else {
                w[k]
            },
    )
}

/// The valuations that come in one step after a member of `s`.
pub open spec fn post_image(
    relation: Set<Seq<bool>>,
    s: Set<Seq<bool>>,
    block: Seq<int>,
    primed: Seq<int>,
) -> Set<Seq<bool>> {
    Set::new(
        |v: Seq<bool>|
            exists|w: Seq<bool>|
                #[trigger] relation.contains(w) && s.contains(w) && steps_to(w, v, block, primed),
    )
}

/// The valuations from which one step leads into `s`: those that the
/// relation joins, on the primed block, with a next value that lies in `s`
/// once it is moved to the unprimed block.
pub open spec fn pre_image(
    relation: Set<Seq<bool>>,
    s: Set<Seq<bool>>,
    block: Seq<int>,
    primed: Seq<int>,
) -> Set<Seq<bool>> {
    Set::new(
        |v: Seq<bool>|
            exists|w: Seq<bool>|
                #[trigger] relation.contains(w) && same_outside(v, w, block_set(primed))
                    && s.contains(moved(w, block, primed)),
    )
}

/// The valuations of `n` variables that show the same on both blocks.
pub open spec fn paired_set(n: nat, block: Seq<int>, primed: Seq<int>) -> Set<Seq<bool>> {
    Set::new(|t: Seq<bool>| t.len() == n && pattern(block, t) == pattern(primed, t))
}

/// Two blocks of the same length within `n` variables that share no
/// position, each without repetition.
pub open spec fn twin_blocks(block: Seq<int>, primed: Seq<int>, n: nat) -> bool {
    &&& block.len() == primed.len()
    &&& block.no_duplicates()
    &&& primed.no_duplicates()
    &&& forall|i: int| 0 <= i < block.len() ==> 0 <= #[trigger] block[i] < n
    &&& forall|i: int| 0 <= i < primed.len() ==> 0 <= #[trigger] primed[i] < n
    &&& forall|i: int, j: int|
        0 <= i < block.len() && 0 <= j < primed.len() ==> #[trigger] block[i] != #[trigger] primed[j]
}

/// What a moved valuation shows: on both blocks what the valuation showed
/// on the primed block, and elsewhere what the valuation showed.
pub proof fn lemma_moved(w: Seq<bool>, block: Seq<int>, primed: Seq<int>, n: nat)
    requires
        twin_blocks(block, primed, n),
        w.len() == n,
    ensures
        moved(w, block, primed).len() == n,
        pattern(block, moved(w, block, primed)) == pattern(primed, w),
        pattern(primed, moved(w, block, primed)) == pattern(primed, w),
        same_outside(moved(w, block, primed), w, block_set(block)),
        steps_to(w, moved(w, block, primed), block, primed),
{
    let m = moved(w, block, primed);
    assert forall|i: int| 0 <= i < block.len() implies m[block[i]] == w[primed[i]] by {
        lemma_index_of(block, i);
    }
    assert(pattern(block, m) =~= pattern(primed, w));
    assert forall|i: int| 0 <= i < primed.len() implies m[primed[i]] == w[primed[i]] by {
        if block.contains(primed[i]) {
            let j = choose|j: int| 0 <= j < block.len() && block[j] == primed[i];
            assert(block[j] != primed[i]);
        }
    }
    assert(pattern(primed, m) =~= pattern(primed, w));
}

/// The image of the empty set is empty, forwards and backwards.
pub proof fn lemma_image_of_empty(relation: Set<Seq<bool>>, block: Seq<int>, primed: Seq<int>)
    ensures
        post_image(relation, Set::empty(), block, primed) == Set::<Seq<bool>>::empty(),
        pre_image(relation, Set::empty(), block, primed) == Set::<Seq<bool>>::empty(),
{
    assert(post_image(relation, Set::empty(), block, primed) =~= Set::<Seq<bool>>::empty());
    assert(pre_image(relation, Set::empty(), block, primed) =~= Set::<Seq<bool>>::empty());
}

/// A larger set has a larger image, forwards and backwards.
pub proof fn lemma_image_monotone(
    relation: Set<Seq<bool>>,
    small: Set<Seq<bool>>,
    large: Set<Seq<bool>>,
    block: Seq<int>,
    primed: Seq<int>,
)
    requires
        small.subset_of(large),
    ensures
        post_image(relation, small, block, primed).subset_of(
            post_image(relation, large, block, primed),
        ),
        pre_image(relation, small, block, primed).subset_of(
            pre_image(relation, large, block, primed),
        ),
{
    assert forall|v: Seq<bool>| post_image(relation, small, block, primed).contains(
        v,
    ) implies post_image(relation, large, block, primed).contains(v) by {
        let w = choose|w: Seq<bool>|
            #[trigger] relation.contains(w) && small.contains(w) && steps_to(w, v, block, primed);
        assert(relation.contains(w) && large.contains(w) && steps_to(w, v, block, primed));
    }
    assert forall|v: Seq<bool>| pre_image(relation, small, block, primed).contains(
        v,
    ) implies pre_image(relation, large, block, primed).contains(v) by {
        let w = choose|w: Seq<bool>|
            #[trigger] relation.contains(w) && same_outside(v, w, block_set(primed))
                && small.contains(moved(w, block, primed));
        assert(relation.contains(w) && same_outside(v, w, block_set(primed)) && large.contains(
            moved(w, block, primed),
        ));
    }
}

/// The positions of a list of variables, as a set, are the positions of
/// the list.
pub proof fn lemma_indices(vars: Seq<BddVariable>)
    ensures
        indices(vars) == block_set(positions(vars)),
{
    let block = positions(vars);
    assert forall|k: int| indices(vars).contains(k) <==> block_set(block).contains(k) by {
        if indices(vars).contains(k) {
            let i = choose|i: int| 0 <= i < vars.len() && #[trigger] var_index(vars[i]) == k;
            assert(block[i] == k);
        }
        if block.contains(k) {
            let i = choose|i: int| 0 <= i < block.len() && block[i] == k;
            assert(var_index(vars[i]) == k);
        }
    }
    assert(indices(vars) =~= block_set(block));
}

/// The states that come in one step after a state of `source`, as a
/// relational product: the source is joined with the relation, the old
/// value is forgotten, and the new value is moved from the primed block to
/// the unprimed one through the pairing of the two blocks.
pub fn image_forward(
    source: &Bdd,
    relation: &Bdd,
    pairing: &Bdd,
    block: &Vec<BddVariable>,
    primed: &Vec<BddVariable>,
) -> (r: Bdd)
    requires
        bdd_num_vars(*source) == bdd_num_vars(*relation),
        bdd_num_vars(*pairing) == bdd_num_vars(*relation),
        twin_blocks(positions(block@), positions(primed@), bdd_num_vars(*relation)),
        bdd_sat(*pairing) == paired_set(
            bdd_num_vars(*relation),
            positions(block@),
            positions(primed@),
        ),
    ensures
        bdd_num_vars(r) == bdd_num_vars(*relation),
        bdd_sat(r) == post_image(
            bdd_sat(*relation),
            bdd_sat(*source),
            positions(block@),
            positions(primed@),
        ),
{
    let ghost n = bdd_num_vars(*relation);
    let ghost b = positions(block@);
    let ghost p = positions(primed@);
    recall_width(relation);
    let joined = source.and(relation);
    let forgotten = joined.exists(block.as_slice());
    let matched = forgotten.and(pairing);
    let result = matched.exists(primed.as_slice());
    proof {
        lemma_indices(block@);
        lemma_indices(primed@);
        let wanted = post_image(bdd_sat(*relation), bdd_sat(*source), b, p);
        assert forall|v: Seq<bool>| bdd_sat(result).contains(v) implies wanted.contains(v) by {
            let x = choose|x: Seq<bool>|
                #[trigger] bdd_sat(matched).contains(x) && same_outside(v, x, block_set(p));
            assert(bdd_sat(forgotten).contains(x));
            let w = choose|w: Seq<bool>|
                #[trigger] bdd_sat(joined).contains(w) && same_outside(x, w, block_set(b));
            assert(w.len() == n);
            assert forall|i: int| 0 <= i < p.len() implies pattern(p, w)[i] == pattern(b, v)[i] by {
                assert(!block_set(b).contains(p[i])) by {
                    if b.contains(p[i]) {
                        let j = choose|j: int| 0 <= j < b.len() && b[j] == p[i];
                        assert(b[j] != p[i]);
                    }
                }
                assert(x[p[i]] == w[p[i]]);
                assert(pattern(b, x)[i] == pattern(p, x)[i]);
                assert(!block_set(p).contains(b[i])) by {
                    if p.contains(b[i]) {
                        let j = choose|j: int| 0 <= j < p.len() && p[j] == b[i];
                        assert(b[i] != p[j]);
                    }
                }
                assert(v[b[i]] == x[b[i]]);
            }
            assert(pattern(p, w) =~= pattern(b, v));
            assert forall|k: int|
                0 <= k < w.len() && !b.contains(k) && !p.contains(k) implies #[trigger] w[k]
                == v[k] by {
                assert(x[k] == w[k]);
                assert(v[k] == x[k]);
            }
            assert(bdd_sat(*relation).contains(w) && bdd_sat(*source).contains(w) && steps_to(
                w,
                v,
                b,
                p,
            ));
        }
        assert forall|v: Seq<bool>| wanted.contains(v) implies bdd_sat(result).contains(v) by {
            let w = choose|w: Seq<bool>|
                #[trigger] bdd_sat(*relation).contains(w) && bdd_sat(*source).contains(w)
                    && steps_to(w, v, b, p);
            assert(w.len() == n);
            let x = moved(w, b, p);
            lemma_moved(w, b, p, n);
            assert(bdd_sat(joined).contains(w) && same_outside(x, w, block_set(b)));
            assert(bdd_sat(forgotten).contains(x));
            assert(paired_set(n, b, p).contains(x));
            assert(bdd_sat(matched).contains(x));
            assert forall|k: int|
                0 <= k < v.len() && !block_set(p).contains(k) implies #[trigger] v[k] == x[k] by {
                if b.contains(k) {
                    let i = choose|i: int| 0 <= i < b.len() && b[i] == k;
                    assert(pattern(b, v)[i] == v[k]);
                    assert(pattern(p, w)[i] == w[p[i]]);
                    assert(pattern(b, x)[i] == x[k]);
                } else {
                    assert(w[k] == v[k]);
                }
            }
            assert(bdd_sat(matched).contains(x) && same_outside(v, x, block_set(p)));
        }
        assert(bdd_sat(result) =~= wanted);
    }
    result
}

/// The states from which one step leads to a state of `source`, as a
/// relational product: the source is moved from the unprimed block to the
/// primed one through the pairing of the two blocks and joined with the
/// relation, and the new value is forgotten.
pub fn image_backward(
    source: &Bdd,
    relation: &Bdd,
    pairing: &Bdd,
    block: &Vec<BddVariable>,
    primed: &Vec<BddVariable>,
) -> (r: Bdd)
    requires
        bdd_num_vars(*source) == bdd_num_vars(*relation),
        bdd_num_vars(*pairing) == bdd_num_vars(*relation),
        twin_blocks(positions(block@), positions(primed@), bdd_num_vars(*relation)),
        bdd_sat(*pairing) == paired_set(
            bdd_num_vars(*relation),
            positions(block@),
            positions(primed@),
        ),
    ensures
        bdd_num_vars(r) == bdd_num_vars(*relation),
        bdd_sat(r) == pre_image(
            bdd_sat(*relation),
            bdd_sat(*source),
            positions(block@),
            positions(primed@),
        ),
{
    let ghost n = bdd_num_vars(*relation);
    let ghost b = positions(block@);
    let ghost p = positions(primed@);
    recall_width(relation);
    let matched = source.and(pairing);
    let primed_source = matched.exists(block.as_slice());
    let joined = primed_source.and(relation);
    let result = joined.exists(primed.as_slice());
    proof {
        lemma_indices(block@);
        lemma_indices(primed@);
        let wanted = pre_image(bdd_sat(*relation), bdd_sat(*source), b, p);
        assert forall|w: Seq<bool>| bdd_sat(*relation).contains(w) implies (bdd_sat(
            primed_source,
        ).contains(w) <==> bdd_sat(*source).contains(moved(w, b, p))) by {
            assert(w.len() == n);
            lemma_moved(w, b, p, n);
            let m = moved(w, b, p);
            if bdd_sat(primed_source).contains(w) {
                let y = choose|y: Seq<bool>|
                    #[trigger] bdd_sat(matched).contains(y) && same_outside(w, y, block_set(b));
                assert forall|k: int| 0 <= k < n implies y[k] == m[k] by {
                    if b.contains(k) {
                        let i = choose|i: int| 0 <= i < b.len() && b[i] == k;
                        assert(pattern(b, y)[i] == pattern(p, y)[i]);
                        assert(!block_set(b).contains(p[i])) by {
                            if b.contains(p[i]) {
                                let j = choose|j: int| 0 <= j < b.len() && b[j] == p[i];
                                assert(b[j] != p[i]);
                            }
                        }
                        assert(w[p[i]] == y[p[i]]);
                        assert(pattern(b, m)[i] == m[k]);
                        assert(pattern(p, w)[i] == w[p[i]]);
                    } else {
                        assert(w[k] == y[k]);
                    }
                }
                assert(y =~= m);
            }
            if bdd_sat(*source).contains(m) {
                assert(paired_set(n, b, p).contains(m));
                assert(bdd_sat(matched).contains(m) && same_outside(w, m, block_set(b)));
            }
        }
        assert forall|v: Seq<bool>| bdd_sat(result).contains(v) implies wanted.contains(v) by {
            let w = choose|w: Seq<bool>|
                #[trigger] bdd_sat(joined).contains(w) && same_outside(v, w, block_set(p));
            assert(bdd_sat(*relation).contains(w));
            assert(bdd_sat(*relation).contains(w) && same_outside(v, w, block_set(p)) && bdd_sat(
                *source,
            ).contains(moved(w, b, p)));
        }
        assert forall|v: Seq<bool>| wanted.contains(v) implies bdd_sat(result).contains(v) by {
            let w = choose|w: Seq<bool>|
                #[trigger] bdd_sat(*relation).contains(w) && same_outside(v, w, block_set(p))
                    && bdd_sat(*source).contains(moved(w, b, p));
            assert(bdd_sat(primed_source).contains(w));
            assert(bdd_sat(joined).contains(w) && same_outside(v, w, block_set(p)));
        }
        assert(bdd_sat(result) =~= wanted);
    }
    result
}

} // verus!
