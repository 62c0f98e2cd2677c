//! A state space: several domains side by side, which together encode
//! the states of a network as lists of values.

use crate::bdd::{assignment, bdd_num_vars, bdd_sat, recall_width, valuations, variable_count};
use crate::symbolic_domain::{coded_set, pattern};
use crate::relation::{legal_set, unit_of};
use crate::symbolic_domain::{
    assigned_pattern, overlay, positions, SymbolicDomain, SymbolicDomainOrd,
};
use crate::system::flat_variables;
use crate::variable_update_fn::{blocks_of, domains_fit, lemma_tables, shows, tables_of};
use biodivine_lib_bdd::{Bdd, BddPartialValuation, BddVariable, BddVariableSet};
use vstd::prelude::*;

verus! {

/// The domains of the variables of a network, in order. A state is a list
/// with one value for each domain.
pub struct GenericStateSpaceDomain<D: SymbolicDomainOrd> {
    variable_domains: Vec<D>,
}

/// The valuations of `n` variables that show, on the first blocks, the
/// values of the list `p`.
pub open spec fn cylinder(n: nat, blocks: Seq<Seq<int>>, tables: Seq<Seq<Seq<bool>>>, p: Seq<u8>) -> Set<
    Seq<bool>,
> {
    Set::new(
        |t: Seq<bool>|
            t.len() == n && forall|i: int|
                0 <= i < p.len() ==> shows(#[trigger] blocks[i], tables[i], t, p[i] as int),
    )
}

/// A list of values for the first domains, each within its domain.
pub open spec fn within<D: SymbolicDomain>(domains: Seq<D>, p: Seq<u8>) -> bool {
    p.len() <= domains.len() && forall|i: int|
        0 <= i < p.len() ==> #[trigger] p[i] <= domains[i].max_spec()
}

/// An assignment after the patterns of the first `upto` values were
/// written to their blocks, one block after the other.
pub open spec fn written(
    m: Map<int, bool>,
    blocks: Seq<Seq<int>>,
    tables: Seq<Seq<Seq<bool>>>,
    values: Seq<u8>,
    upto: int,
) -> Map<int, bool>
    decreases upto,
{
    if upto <= 0 {
        m
    } else {
        overlay(
            written(m, blocks, tables, values, upto - 1),
            blocks[upto - 1],
            tables[upto - 1][values[upto - 1] as int],
        )
    }
}

/// The valuations that stand for one of the listed states.
pub open spec fn states_set(
    n: nat,
    blocks: Seq<Seq<int>>,
    tables: Seq<Seq<Seq<bool>>>,
    states: Seq<Vec<u8>>,
    upto: int,
) -> Set<Seq<bool>> {
    Set::new(
        |t: Seq<bool>|
            exists|j: int| 0 <= j < upto && cylinder(n, blocks, tables, (#[trigger] states[j])@).contains(t),
    )
}

/// The assignment fixes the block to the pattern of some value of the
/// table.
pub open spec fn fixes_value(m: Map<int, bool>, block: Seq<int>, table: Seq<Seq<bool>>) -> bool {
    exists|v: int| 0 <= v < table.len() && assigned_pattern(m, block) == #[trigger] table[v]
}

/// Some member of the set shows the values of the list `p` on the first
/// blocks.
pub open spec fn meets(
    s: Set<Seq<bool>>,
    n: nat,
    blocks: Seq<Seq<int>>,
    tables: Seq<Seq<Seq<bool>>>,
    p: Seq<u8>,
) -> bool {
    exists|t: Seq<bool>| #[trigger] s.contains(t) && cylinder(n, blocks, tables, p).contains(t)
}

/// The lists of a level of the search: each list holds one value for each
/// of the first `level` domains, and comes with the part of the collection
/// that shows it, which is not empty.
pub open spec fn level_ok<D: SymbolicDomain>(
    domains: Seq<D>,
    n: nat,
    s: Set<Seq<bool>>,
    level: int,
    prefixes: Seq<Vec<u8>>,
    parts: Seq<Bdd>,
) -> bool {
    &&& prefixes.len() == parts.len()
    &&& forall|e: int|
        0 <= e < prefixes.len() ==> {
            &&& (#[trigger] prefixes[e])@.len() == level
            &&& within(domains, prefixes[e]@)
            &&& bdd_num_vars(parts[e]) == n
            &&& bdd_sat(parts[e]) == s.intersect(
                cylinder(n, blocks_of(domains), tables_of(domains), prefixes[e]@),
            )
            &&& bdd_sat(parts[e]) != Set::<Seq<bool>>::empty()
        }
}

/// The first list comes before the second in the order of lists: at the
/// first place where they differ the first has the smaller value.
pub open spec fn before(a: Seq<u8>, b: Seq<u8>) -> bool {
    exists|k: int|
        0 <= k < a.len() && k < b.len() && a.take(k) == b.take(k) && #[trigger] a[k] < b[k]
}

/// Each list comes before the lists behind it.
pub open spec fn rising(lists: Seq<Vec<u8>>) -> bool {
    forall|i: int, j: int|
        0 <= i < j < lists.len() ==> before((#[trigger] lists[i])@, (#[trigger] lists[j])@)
}

/// The list `p` is among the lists.
pub open spec fn listed(prefixes: Seq<Vec<u8>>, p: Seq<u8>) -> bool {
    exists|e: int| 0 <= e < prefixes.len() && (#[trigger] prefixes[e])@ == p
}

/// A list with one more value shows what the list shows and, on the next
/// block, the pattern of that value.
pub proof fn lemma_cylinder_push(
    n: nat,
    blocks: Seq<Seq<int>>,
    tables: Seq<Seq<Seq<bool>>>,
    p: Seq<u8>,
    v: u8,
)
    requires
        p.len() < blocks.len(),
        v < tables[p.len() as int].len(),
    ensures
        cylinder(n, blocks, tables, p.push(v)) == cylinder(n, blocks, tables, p).intersect(
            coded_set(n, blocks[p.len() as int], tables[p.len() as int][v as int]),
        ),
{
    let longer = p.push(v);
    let left = cylinder(n, blocks, tables, longer);
    let right = cylinder(n, blocks, tables, p).intersect(
        coded_set(n, blocks[p.len() as int], tables[p.len() as int][v as int]),
    );
    assert forall|t: Seq<bool>| left.contains(t) <==> right.contains(t) by {
        if left.contains(t) {
            assert(shows(blocks[p.len() as int], tables[p.len() as int], t, longer[p.len() as int] as int));
            assert forall|i: int| 0 <= i < p.len() implies shows(
                #[trigger] blocks[i],
                tables[i],
                t,
                p[i] as int,
            ) by {
                assert(shows(blocks[i], tables[i], t, longer[i] as int));
            }
        }
        if right.contains(t) {
            assert forall|i: int| 0 <= i < longer.len() implies shows(
                #[trigger] blocks[i],
                tables[i],
                t,
                longer[i] as int,
            ) by {
                if i < p.len() {
                    assert(shows(blocks[i], tables[i], t, p[i] as int));
                }
            }
        }
    }
    assert(left =~= right);
}

/// A copy of a list of values.
pub fn copy_values(values: &Vec<u8>) -> (r: Vec<u8>)
    ensures
        r@ == values@,
{
    let mut result: Vec<u8> = Vec::new();
    let mut i: usize = 0;
    while i < values.len()
        invariant
            i <= values@.len(),
            result@ == values@.take(i as int),
        decreases values@.len() - i,
    {
        result.push(values[i]);
        assert(result@ =~= values@.take(i + 1));
        i = i + 1;
    }
    assert(values@.take(i as int) =~= values@);
    result
}

impl<D: SymbolicDomainOrd> GenericStateSpaceDomain<D> {
    /// The domains of the state space, in order.
    pub closed spec fn domains(&self) -> Seq<D> {
        self.variable_domains@
    }

    /// The blocks of the domains, in order.
    pub open spec fn blocks(&self) -> Seq<Seq<int>> {
        blocks_of(self.domains())
    }

    /// The tables of the domains, in order.
    pub open spec fn tables(&self) -> Seq<Seq<Seq<bool>>> {
        tables_of(self.domains())
    }

    /// Every domain is well formed.
    pub open spec fn wf(&self) -> bool {
        forall|i: int| 0 <= i < self.domains().len() ==> (#[trigger] self.domains()[i]).wf()
    }

    /// A state space of the given domains.
    pub fn new(variable_domains: Vec<Box<D>>) -> (r: GenericStateSpaceDomain<D>)
        ensures
            r.domains().len() == variable_domains@.len(),
            forall|i: int|
                0 <= i < variable_domains@.len() ==> #[trigger] r.domains()[i]
                    == *variable_domains@[i],
    {
        let ghost given = variable_domains@;
        let mut boxed = variable_domains;
        let mut reversed: Vec<D> = Vec::new();
        while boxed.len() > 0
            invariant
                boxed@.len() <= given.len(),
                boxed@ == given.take(boxed@.len() as int),
                reversed@.len() == given.len() - boxed@.len(),
                forall|i: int|
                    0 <= i < reversed@.len() ==> #[trigger] reversed@[i] == *given[given.len() - 1
                        - i],
            decreases boxed@.len(),
        {
            let ghost m = boxed@.len() - 1;
            let last = boxed.pop().unwrap();
            assert(last == given[m]);
            reversed.push(*last);
            assert(boxed@ =~= given.take(m));
        }
        let mut result: Vec<D> = Vec::new();
        while reversed.len() > 0
            invariant
                reversed@.len() + result@.len() == given.len(),
                forall|i: int|
                    0 <= i < reversed@.len() ==> #[trigger] reversed@[i] == *given[given.len() - 1
                        - i],
                forall|i: int| 0 <= i < result@.len() ==> #[trigger] result@[i] == *given[i],
            decreases reversed@.len(),
        {
            let ghost m = reversed@.len() - 1;
            let ghost before = reversed@;
            let last = reversed.pop().unwrap();
            assert(last == before[m]);
            result.push(last);
        }
        GenericStateSpaceDomain { variable_domains: result }
    }

    /// The domain of one variable. A diagram made with it alone says
    /// nothing of the other variables: join it with the unit collection of
    /// the state space to leave out what is no state.
    pub fn get_raw_domain(&self, variable_id: usize) -> (r: &D)
        requires
            variable_id < self.domains().len(),
        ensures
            *r == self.domains()[variable_id as int],
    {
        &self.variable_domains[variable_id]
    }

    /// The variables of all domains, one block after the other.
    pub fn symbolic_variables(&self) -> (r: Vec<BddVariable>)
        requires
            self.wf(),
        ensures
            r@ == flat_variables(self.domains(), self.domains().len() as int),
    {
        let mut result: Vec<BddVariable> = Vec::new();
        let mut i: usize = 0;
        while i < self.variable_domains.len()
            invariant
                self.wf(),
                i <= self.variable_domains@.len(),
                result@ == flat_variables(self.variable_domains@, i as int),
            decreases self.variable_domains@.len() - i,
        {
            assert(self.domains()[i as int].wf());
            let block = self.variable_domains[i].symbolic_variables();
            let mut a: usize = 0;
            let ghost before = result@;
            while a < block.len()
                invariant
                    a <= block@.len(),
                    result@ == before + block@.take(a as int),
                decreases block@.len() - a,
            {
                result.push(block[a]);
                assert(result@ =~= before + block@.take(a + 1));
                a = a + 1;
            }
            assert(block@.take(a as int) =~= block@);
            i = i + 1;
        }
        result
    }

    /// The number of variables of all domains.
    pub fn symbolic_size(&self) -> (r: usize)
        requires
            self.wf(),
        ensures
            r == flat_variables(self.domains(), self.domains().len() as int).len(),
    {
        self.symbolic_variables().len()
    }

    /// The diagram of no state at all.
    pub fn empty_collection(&self, variables: &BddVariableSet) -> (r: Bdd)
        ensures
            bdd_num_vars(r) == variable_count(*variables),
            bdd_sat(r) == Set::<Seq<bool>>::empty(),
    {
        variables.mk_false()
    }

    /// The diagram of all states: the valuations that show a value on the
    /// block of every domain.
    pub fn unit_collection(&self, variables: &BddVariableSet) -> (r: Bdd)
        requires
            domains_fit(self.domains(), variable_count(*variables)),
        ensures
            bdd_num_vars(r) == variable_count(*variables),
            bdd_sat(r) == legal_set(variable_count(*variables), self.blocks(), self.tables()),
    {
        unit_of(&self.variable_domains, variables)
    }

    /// Writes the pattern of every value of a state to the block of its
    /// domain, and leaves every other variable of the valuation as it is.
    pub fn encode_bits(&self, bdd_valuation: &mut BddPartialValuation, value: &Vec<u8>)
        requires
            self.wf(),
            value@.len() == self.domains().len(),
            within(self.domains(), value@),
        ensures
            assignment(*final(bdd_valuation)) == written(
                assignment(*old(bdd_valuation)),
                self.blocks(),
                self.tables(),
                value@,
                value@.len() as int,
            ),
    {
        let ghost start = assignment(*bdd_valuation);
        let mut i: usize = 0;
        while i < self.variable_domains.len()
            invariant
                self.wf(),
                i <= self.variable_domains@.len(),
                value@.len() == self.domains().len(),
                within(self.domains(), value@),
                assignment(*bdd_valuation) == written(
                    start,
                    self.blocks(),
                    self.tables(),
                    value@,
                    i as int,
                ),
            decreases self.variable_domains@.len() - i,
        {
            assert(self.domains()[i as int].wf());
            assert(value@[i as int] <= self.domains()[i as int].max_spec());
            self.variable_domains[i].encode_bits(bdd_valuation, &value[i]);
            i = i + 1;
        }
    }

    /// The state that a valuation shows: for each domain the value whose
    /// pattern its block shows. Every block must be fixed, to the pattern
    /// of a value of its domain.
    pub fn decode_bits(&self, bdd_valuation: &BddPartialValuation) -> (r: Vec<u8>)
        requires
            self.wf(),
            forall|i: int, k: int|
                0 <= i < self.blocks().len() && 0 <= k < self.blocks()[i].len() ==> assignment(
                    *bdd_valuation,
                ).dom().contains(#[trigger] self.blocks()[i][k]),
            forall|i: int|
                0 <= i < self.blocks().len() ==> fixes_value(
                    assignment(*bdd_valuation),
                    #[trigger] self.blocks()[i],
                    self.tables()[i],
                ),
        ensures
            r@.len() == self.domains().len(),
            within(self.domains(), r@),
            forall|i: int|
                0 <= i < r@.len() ==> assigned_pattern(
                    assignment(*bdd_valuation),
                    #[trigger] self.blocks()[i],
                ) == self.tables()[i][r@[i] as int],
    {
        let mut result: Vec<u8> = Vec::new();
        let mut i: usize = 0;
        while i < self.variable_domains.len()
            invariant
                self.wf(),
                i <= self.variable_domains@.len(),
                forall|a: int, k: int|
                    0 <= a < self.blocks().len() && 0 <= k < self.blocks()[a].len()
                        ==> assignment(*bdd_valuation).dom().contains(
                        #[trigger] self.blocks()[a][k],
                    ),
                forall|a: int|
                    0 <= a < self.blocks().len() ==> fixes_value(
                        assignment(*bdd_valuation),
                        #[trigger] self.blocks()[a],
                        self.tables()[a],
                    ),
                result@.len() == i,
                forall|a: int|
                    0 <= a < i ==> #[trigger] result@[a] <= self.domains()[a].max_spec()
                        && assigned_pattern(assignment(*bdd_valuation), self.blocks()[a])
                        == self.tables()[a][result@[a] as int],
            decreases self.variable_domains@.len() - i,
        {
            proof {
                let domain = self.domains()[i as int];
                assert(domain.wf());
                let bits = positions(domain.variables());
                assert(self.blocks()[i as int] == bits);
                assert forall|k: int| 0 <= k < bits.len() implies assignment(
                    *bdd_valuation,
                ).dom().contains(#[trigger] bits[k]) by {
                    assert(assignment(*bdd_valuation).dom().contains(self.blocks()[i as int][k]));
                }
                assert(fixes_value(
                    assignment(*bdd_valuation),
                    self.blocks()[i as int],
                    self.tables()[i as int],
                ));
                let v = choose|v: int|
                    0 <= v < self.tables()[i as int].len() && assigned_pattern(
                        assignment(*bdd_valuation),
                        self.blocks()[i as int],
                    ) == #[trigger] self.tables()[i as int][v];
                assert(assigned_pattern(assignment(*bdd_valuation), bits) == D::table(
                    domain.max_spec(),
                )[v]);
            }
            let value = self.variable_domains[i].decode_bits(bdd_valuation);
            result.push(value);
            i = i + 1;
        }
        result
    }

    /// The diagram of one state.
    pub fn encode_one(&self, variables: &BddVariableSet, value: &Vec<u8>) -> (r: Bdd)
        requires
            domains_fit(self.domains(), variable_count(*variables)),
            within(self.domains(), value@),
        ensures
            bdd_num_vars(r) == variable_count(*variables),
            bdd_sat(r) == cylinder(
                variable_count(*variables),
                self.blocks(),
                self.tables(),
                value@,
            ),
    {
        let ghost n = variable_count(*variables);
        let ghost blocks = self.blocks();
        let ghost tables = self.tables();
        let mut result = variables.mk_true();
        let mut i: usize = 0;
        proof {
            assert(bdd_sat(result) =~= cylinder(n, blocks, tables, value@.take(0)));
        }
        while i < value.len()
            invariant
                domains_fit(self.domains(), variable_count(*variables)),
                within(self.domains(), value@),
                i <= value@.len(),
                n == variable_count(*variables),
                blocks == self.blocks(),
                tables == self.tables(),
                bdd_num_vars(result) == n,
                bdd_sat(result) == cylinder(n, blocks, tables, value@.take(i as int)),
            decreases value@.len() - i,
        {
            proof {
                assert(self.domains()[i as int].wf());
                assert(value@[i as int] <= self.domains()[i as int].max_spec());
                lemma_tables(self.domains(), n, i as int);
            }
            let one = self.variable_domains[i].encode_one(variables, &value[i]);
            let ghost before = bdd_sat(result);
            result = result.and(&one);
            proof {
                let shorter = value@.take(i as int);
                let longer = value@.take(i + 1);
                let after = cylinder(n, blocks, tables, longer);
                assert forall|t: Seq<bool>| bdd_sat(result).contains(t) <==> after.contains(t) by {
                    if bdd_sat(result).contains(t) {
                        assert(before.contains(t));
                        assert forall|k: int| 0 <= k < longer.len() implies shows(
                            #[trigger] blocks[k],
                            tables[k],
                            t,
                            longer[k] as int,
                        ) by {
                            if k < i {
                                assert(shows(blocks[k], tables[k], t, shorter[k] as int));
                            }
                        }
                    }
                    if after.contains(t) {
                        assert(shows(blocks[i as int], tables[i as int], t, longer[i as int] as int));
                        assert forall|k: int| 0 <= k < shorter.len() implies shows(
                            #[trigger] blocks[k],
                            tables[k],
                            t,
                            shorter[k] as int,
                        ) by {
                            assert(shows(blocks[k], tables[k], t, longer[k] as int));
                        }
                        assert(before.contains(t));
                    }
                }
                assert(bdd_sat(result) =~= after);
            }
            i = i + 1;
        }
        proof {
            assert(value@.take(i as int) =~= value@);
        }
        result
    }

    /// The diagram of a list of states.
    pub fn encode_collection(&self, variables: &BddVariableSet, collection: &[Vec<u8>]) -> (r: Bdd)
        requires
            domains_fit(self.domains(), variable_count(*variables)),
            forall|j: int|
                0 <= j < collection@.len() ==> within(self.domains(), (#[trigger] collection@[j])@),
        ensures
            bdd_num_vars(r) == variable_count(*variables),
            bdd_sat(r) == states_set(
                variable_count(*variables),
                self.blocks(),
                self.tables(),
                collection@,
                collection@.len() as int,
            ),
    {
        let ghost n = variable_count(*variables);
        let ghost blocks = self.blocks();
        let ghost tables = self.tables();
        let mut result = variables.mk_false();
        let mut j: usize = 0;
        proof {
            assert(bdd_sat(result) =~= states_set(n, blocks, tables, collection@, 0));
        }
        while j < collection.len()
            invariant
                domains_fit(self.domains(), variable_count(*variables)),
                forall|k: int|
                    0 <= k < collection@.len() ==> within(
                        self.domains(),
                        (#[trigger] collection@[k])@,
                    ),
                j <= collection@.len(),
                n == variable_count(*variables),
                blocks == self.blocks(),
                tables == self.tables(),
                bdd_num_vars(result) == n,
                bdd_sat(result) == states_set(n, blocks, tables, collection@, j as int),
            decreases collection@.len() - j,
        {
            let one = self.encode_one(variables, &collection[j]);
            let ghost before = bdd_sat(result);
            result = result.or(&one);
            proof {
                let after = states_set(n, blocks, tables, collection@, j + 1);
                assert forall|t: Seq<bool>| bdd_sat(result).contains(t) <==> after.contains(t) by {
                    if before.contains(t) {
                        let k = choose|k: int|
                            0 <= k < j && cylinder(
                                n,
                                blocks,
                                tables,
                                (#[trigger] collection@[k])@,
                            ).contains(t);
                        assert(0 <= k < j + 1 && cylinder(n, blocks, tables, collection@[k]@).contains(
                            t,
                        ));
                    }
                    if bdd_sat(one).contains(t) {
                        assert(cylinder(n, blocks, tables, collection@[j as int]@).contains(t));
                    }
                    if after.contains(t) {
                        let k = choose|k: int|
                            0 <= k < j + 1 && cylinder(
                                n,
                                blocks,
                                tables,
                                (#[trigger] collection@[k])@,
                            ).contains(t);
                        if k < j {
                            assert(before.contains(t));
                        }
                    }
                }
                assert(bdd_sat(result) =~= after);
            }
            j = j + 1;
        }
        result
    }

    /// The states of a collection: every list of values, one for each
    /// domain, that some valuation of the collection shows. Each state is
    /// listed once, and nothing else, in the order of lists.
    pub fn decode_collection(&self, variables: &BddVariableSet, collection: &Bdd) -> (r: Vec<
        Vec<u8>,
    >)
        requires
            domains_fit(self.domains(), variable_count(*variables)),
            bdd_num_vars(*collection) == variable_count(*variables),
        ensures
            forall|j: int|
                0 <= j < r@.len() ==> (#[trigger] r@[j])@.len() == self.domains().len() && within(
                    self.domains(),
                    r@[j]@,
                ) && meets(
                    bdd_sat(*collection),
                    variable_count(*variables),
                    self.blocks(),
                    self.tables(),
                    r@[j]@,
                ),
            forall|p: Seq<u8>|
                p.len() == self.domains().len() && within(self.domains(), p) && #[trigger] meets(
                    bdd_sat(*collection),
                    variable_count(*variables),
                    self.blocks(),
                    self.tables(),
                    p,
                ) ==> listed(r@, p),
            rising(r@),
    {
        let ghost n = variable_count(*variables);
        let ghost domains = self.domains();
        let ghost blocks = self.blocks();
        let ghost tables = self.tables();
        let ghost s = bdd_sat(*collection);
        let count = self.variable_domains.len();
        recall_width(collection);
        let mut prefixes: Vec<Vec<u8>> = Vec::new();
        let mut parts: Vec<Bdd> = Vec::new();
        if !collection.is_false() {
            prefixes.push(Vec::new());
            parts.push(collection.clone());
            proof {
                assert(s.intersect(cylinder(n, blocks, tables, Seq::<u8>::empty())) =~= s);
            }
        }
        proof {
            assert forall|p: Seq<u8>|
                p.len() == 0 && within(domains, p) && #[trigger] meets(
                    s,
                    n,
                    blocks,
                    tables,
                    p,
                ) implies listed(prefixes@, p) by {
                assert(p =~= Seq::<u8>::empty());
                assert(prefixes@[0]@ =~= p);
            }
        }
        let mut level: usize = 0;
        while level < count
            invariant
                level <= count,
                count == domains.len(),
                domains == self.domains(),
                blocks == blocks_of(domains),
                tables == tables_of(domains),
                n == variable_count(*variables),
                s == bdd_sat(*collection),
                domains_fit(domains, n),
                level_ok(domains, n, s, level as int, prefixes@, parts@),
                forall|p: Seq<u8>|
                    p.len() == level && within(domains, p) && #[trigger] meets(
                        s,
                        n,
                        blocks,
                        tables,
                        p,
                    ) ==> listed(prefixes@, p),
                rising(prefixes@),
            decreases count - level,
        {
            let domain = &self.variable_domains[level];
            proof {
                assert(domains[level as int].wf());
                lemma_tables(domains, n, level as int);
            }
            let max = domain.max_value();
            let mut next_prefixes: Vec<Vec<u8>> = Vec::new();
            let mut next_parts: Vec<Bdd> = Vec::new();
            let ghost mut parents: Seq<int> = Seq::empty();
            let mut e: usize = 0;
            while e < prefixes.len()
                invariant
                    e <= prefixes@.len(),
                    level < count,
                    count == domains.len(),
                    domains == self.domains(),
                    *domain == domains[level as int],
                    domain.wf(),
                    max == domain.max_spec(),
                    tables[level as int].len() == max + 1,
                    blocks == blocks_of(domains),
                    tables == tables_of(domains),
                    n == variable_count(*variables),
                    domains_fit(domains, n),
                    level_ok(domains, n, s, level as int, prefixes@, parts@),
                    level_ok(domains, n, s, level + 1, next_prefixes@, next_parts@),
                    forall|p: Seq<u8>|
                        p.len() == level + 1 && within(domains, p) && #[trigger] meets(
                            s,
                            n,
                            blocks,
                            tables,
                            p,
                        ) && (exists|a: int| 0 <= a < e && (#[trigger] prefixes@[a])@ == p.drop_last())
                            ==> listed(next_prefixes@, p),
                    rising(prefixes@),
                    rising(next_prefixes@),
                    parents.len() == next_prefixes@.len(),
                    forall|j: int|
                        0 <= j < parents.len() ==> 0 <= #[trigger] parents[j] < e
                            && next_prefixes@[j]@.drop_last() == prefixes@[parents[j]]@,
                decreases prefixes@.len() - e,
            {
                let ghost parent = prefixes@[e as int]@;
                let mut value: u8 = 0;
                let mut done = false;
                while !done
                    invariant
                        e < prefixes@.len(),
                        level < count,
                        count == domains.len(),
                        *domain == domains[level as int],
                        domain.wf(),
                        max == domain.max_spec(),
                        tables[level as int].len() == max + 1,
                        blocks == blocks_of(domains),
                        tables == tables_of(domains),
                        n == variable_count(*variables),
                        domains_fit(domains, n),
                        parent == prefixes@[e as int]@,
                        value <= max,
                        level_ok(domains, n, s, level as int, prefixes@, parts@),
                        level_ok(domains, n, s, level + 1, next_prefixes@, next_parts@),
                        rising(prefixes@),
                        rising(next_prefixes@),
                        parents.len() == next_prefixes@.len(),
                        forall|j: int|
                            0 <= j < parents.len() ==> 0 <= #[trigger] parents[j] <= e
                                && next_prefixes@[j]@.drop_last() == prefixes@[parents[j]]@ && (
                            parents[j] == e ==> next_prefixes@[j]@.last() < value || done),
                        forall|p: Seq<u8>|
                            p.len() == level + 1 && within(domains, p) && #[trigger] meets(
                                s,
                                n,
                                blocks,
                                tables,
                                p,
                            ) && ((exists|a: int|
                                0 <= a < e && (#[trigger] prefixes@[a])@ == p.drop_last()) || (
                            p.drop_last() == parent && (p.last() < value || done)))
                                ==> listed(next_prefixes@, p),
                    decreases max - value + (if done { 0int } else { 1int }),
                {
                    let one = domain.encode_one(variables, &value);
                    let narrowed = parts[e].and(&one);
                    let ghost longer = parent.push(value);
                    let ghost before_prefixes = next_prefixes@;
                    let ghost before_parts = next_parts@;
                    proof {
                        lemma_cylinder_push(n, blocks, tables, parent, value);
                        assert(bdd_sat(narrowed) =~= s.intersect(
                            cylinder(n, blocks, tables, longer),
                        ));
                    }
                    if !narrowed.is_false() {
                        let mut extended = copy_values(&prefixes[e]);
                        extended.push(value);
                        next_prefixes.push(extended);
                        next_parts.push(narrowed);
                        proof {
                            assert(extended@ == longer);
                            assert(longer.drop_last() =~= parent);
                            assert forall|i: int, j: int|
                                0 <= i < j < next_prefixes@.len() implies before(
                                (#[trigger] next_prefixes@[i])@,
                                (#[trigger] next_prefixes@[j])@,
                            ) by {
                                if j < before_prefixes.len() {
                                    assert(next_prefixes@[i] == before_prefixes[i]);
                                    assert(next_prefixes@[j] == before_prefixes[j]);
                                } else {
                                    assert(next_prefixes@[i] == before_prefixes[i]);
                                    let earlier = before_prefixes[i]@;
                                    assert(earlier.len() == level + 1);
                                    assert(earlier.drop_last() == prefixes@[parents[i]]@);
                                    if parents[i] == e {
                                        assert(earlier.take(level as int) =~= earlier.drop_last());
                                        assert(longer.take(level as int) =~= parent);
                                        assert(earlier[level as int] < longer[level as int]);
                                    } else {
                                        let above = prefixes@[parents[i]]@;
                                        assert(before(above, parent));
                                        let k = choose|k: int|
                                            0 <= k < above.len() && k < parent.len() && above.take(
                                                k,
                                            ) == parent.take(k) && #[trigger] above[k] < parent[k];
                                        assert(earlier.take(k) =~= above.take(k));
                                        assert(longer.take(k) =~= parent.take(k));
                                        assert(earlier[k] == above[k]);
                                        assert(longer[k] == parent[k]);
                                    }
                                }
                            }
                            parents = parents.push(e as int);
                            assert forall|a: int| 0 <= a < next_prefixes@.len() implies {
                                &&& (#[trigger] next_prefixes@[a])@.len() == level + 1
                                &&& within(domains, next_prefixes@[a]@)
                                &&& bdd_num_vars(next_parts@[a]) == n
                                &&& bdd_sat(next_parts@[a]) == s.intersect(
                                    cylinder(n, blocks, tables, next_prefixes@[a]@),
                                )
                                &&& bdd_sat(next_parts@[a]) != Set::<Seq<bool>>::empty()
                            } by {
                                if a < before_prefixes.len() {
                                    assert(next_prefixes@[a] == before_prefixes[a]);
                                    assert(next_parts@[a] == before_parts[a]);
                                } else {
                                    assert forall|i: int| 0 <= i < longer.len() implies #[trigger] longer[i]
                                        <= domains[i].max_spec() by {
                                        if i < parent.len() {
                                            assert(parent[i] <= domains[i].max_spec());
                                        }
                                    }
                                }
                            }
                        }
                    }
                    proof {
                        assert forall|p: Seq<u8>|
                            p.len() == level + 1 && within(domains, p) && #[trigger] meets(
                                s,
                                n,
                                blocks,
                                tables,
                                p,
                            ) && ((exists|a: int|
                                0 <= a < e && (#[trigger] prefixes@[a])@ == p.drop_last()) || (
                            p.drop_last() == parent && p.last() <= value)) implies listed(
                            next_prefixes@,
                            p,
                        ) by {
                            if p.drop_last() == parent && p.last() == value && !(exists|a: int|
                                0 <= a < e && (#[trigger] prefixes@[a])@ == p.drop_last()) {
                                assert(p =~= longer);
                                let t = choose|t: Seq<bool>|
                                    #[trigger] s.contains(t) && cylinder(
                                        n,
                                        blocks,
                                        tables,
                                        p,
                                    ).contains(t);
                                assert(bdd_sat(narrowed).contains(t));
                                assert(next_prefixes@[before_prefixes.len() as int]@ == p);
                            } else {
                                assert(listed(before_prefixes, p));
                                let a = choose|a: int|
                                    0 <= a < before_prefixes.len() && (
                                    #[trigger] before_prefixes[a])@ == p;
                                assert(next_prefixes@[a]@ == p);
                            }
                        }
                    }
                    if value == max {
                        done = true;
                    } else {
                        value = value + 1;
                    }
                }
                proof {
                    assert forall|p: Seq<u8>|
                        p.len() == level + 1 && within(domains, p) && #[trigger] meets(
                            s,
                            n,
                            blocks,
                            tables,
                            p,
                        ) && (exists|a: int|
                            0 <= a < e + 1 && (#[trigger] prefixes@[a])@
                                == p.drop_last()) implies listed(next_prefixes@, p) by {
                        let a = choose|a: int|
                            0 <= a < e + 1 && (#[trigger] prefixes@[a])@ == p.drop_last();
                        if a == e {
                            assert(p.drop_last() == parent);
                        }
                    }
                }
                e = e + 1;
            }
            proof {
                assert forall|p: Seq<u8>|
                    p.len() == level + 1 && within(domains, p) && #[trigger] meets(
                        s,
                        n,
                        blocks,
                        tables,
                        p,
                    ) implies listed(next_prefixes@, p) by {
                    let shorter = p.drop_last();
                    let t = choose|t: Seq<bool>|
                        #[trigger] s.contains(t) && cylinder(n, blocks, tables, p).contains(t);
                    assert forall|i: int| 0 <= i < shorter.len() implies shows(
                        #[trigger] blocks[i],
                        tables[i],
                        t,
                        shorter[i] as int,
                    ) by {
                        assert(shows(blocks[i], tables[i], t, p[i] as int));
                    }
                    assert(s.contains(t) && cylinder(n, blocks, tables, shorter).contains(t));
                    assert forall|i: int| 0 <= i < shorter.len() implies #[trigger] shorter[i]
                        <= domains[i].max_spec() by {
                        assert(p[i] <= domains[i].max_spec());
                    }
                    assert(meets(s, n, blocks, tables, shorter));
                    assert(listed(prefixes@, shorter));
                    let a = choose|a: int|
                        0 <= a < prefixes@.len() && (#[trigger] prefixes@[a])@ == shorter;
                    assert(0 <= a < e && prefixes@[a]@ == p.drop_last());
                }
            }
            prefixes = next_prefixes;
            parts = next_parts;
            level = level + 1;
        }
        proof {
            assert forall|j: int| 0 <= j < prefixes@.len() implies (#[trigger] prefixes@[j])@.len()
                == domains.len() && within(domains, prefixes@[j]@) && meets(
                s,
                n,
                blocks,
                tables,
                prefixes@[j]@,
            ) by {
                let part = bdd_sat(parts@[j]);
                assert(level_ok(domains, n, s, level as int, prefixes@, parts@));
                assert(prefixes@[j]@.len() == level);
                assert(part == s.intersect(cylinder(n, blocks, tables, prefixes@[j]@)));
                assert(part != Set::<Seq<bool>>::empty());
                if forall|t: Seq<bool>| !part.contains(t) {
                    assert(part =~= Set::<Seq<bool>>::empty());
                }
                let t = choose|t: Seq<bool>| part.contains(t);
                assert(s.contains(t) && cylinder(n, blocks, tables, prefixes@[j]@).contains(t));
            }
        }
        prefixes
    }
}

} // verus!