//! Symbolic domains: encodings of a bounded integer into a block of Boolean
//! variables of a decision diagram.
//!
//! A domain owns an ordered list of variables and knows, for every value
//! from zero to its maximum, the bit pattern that stands for it. Everything
//! else is derived from that pattern and stated over the set of valuations
//! that a diagram denotes.

use crate::bdd::{
    assignment, bdd_num_vars, bdd_sat, builder_names, clause_set, fixed, refused_in_name,
    unassigned, valuations, var_index, variable_count,
};
use crate::names::{bit_name, lemma_bit_name_chars, lemma_bit_name_injective, make_bit_name};
use biodivine_lib_bdd::{
    Bdd, BddPartialValuation, BddVariable, BddVariableSet, BddVariableSetBuilder,
};
use vstd::prelude::*;

verus! {

/// The positions of a list of variables, in the order of the list.
pub open spec fn positions(vars: Seq<BddVariable>) -> Seq<int> {
    Seq::new(vars.len(), |i: int| var_index(vars[i]))
}

/// The values that a valuation gives to the listed positions, in order.
pub open spec fn pattern(bits: Seq<int>, val: Seq<bool>) -> Seq<bool> {
    Seq::new(bits.len(), |i: int| val[bits[i]])
}

/// Every listed position is a variable of a set of `n` variables.
pub open spec fn fits(bits: Seq<int>, n: nat) -> bool {
    forall|i: int| 0 <= i < bits.len() ==> 0 <= #[trigger] bits[i] < n
}

/// The valuations of `n` variables that show `code` at the listed positions.
pub open spec fn coded_set(n: nat, bits: Seq<int>, code: Seq<bool>) -> Set<Seq<bool>> {
    Set::new(|val: Seq<bool>| val.len() == n && pattern(bits, val) == code)
}

/// The assignment `m` after the listed positions were given the values of
/// `code`, one by one.
pub open spec fn overlay(m: Map<int, bool>, bits: Seq<int>, code: Seq<bool>) -> Map<int, bool> {
    Map::new(
        |k: int| m.dom().contains(k) || bits.contains(k),
        |k: int|
            if bits.contains(k) {
                code[bits.index_of(k)]
            } else {
                m[k]
            },
    )
}

/// The pattern that an assignment shows at the listed positions.
pub open spec fn assigned_pattern(m: Map<int, bool>, bits: Seq<int>) -> Seq<bool> {
    Seq::new(bits.len(), |i: int| m[bits[i]])
}

/// A block of `width` distinct positions.
pub open spec fn block_ok(bits: Seq<int>, width: nat) -> bool {
    &&& bits.len() == width
    &&& bits.no_duplicates()
    &&& forall|i: int| 0 <= i < bits.len() ==> 0 <= #[trigger] bits[i]
}

/// The valuations of `n` variables that show, at the listed positions, the
/// pattern of some value of `table` from `lo` up to but not including `hi`.
pub open spec fn range_set(n: nat, bits: Seq<int>, table: Seq<Seq<bool>>, lo: int, hi: int) -> Set<
    Seq<bool>,
> {
    Set::new(
        |val: Seq<bool>|
            val.len() == n && exists|v: int|
                lo <= v < hi && 0 <= v < table.len() && pattern(bits, val) == #[trigger] table[v],
    )
}

/// The valuations of `n` variables that show the pattern of some value of
/// `table` at the listed positions.
pub open spec fn unit_set(n: nat, bits: Seq<int>, table: Seq<Seq<bool>>) -> Set<Seq<bool>> {
    range_set(n, bits, table, 0, table.len() as int)
}

/// The valuations of `n` variables that show, at the listed positions, the
/// pattern of some listed value.
pub open spec fn listed_set(n: nat, bits: Seq<int>, table: Seq<Seq<bool>>, values: Seq<u8>) -> Set<
    Seq<bool>,
> {
    Set::new(
        |val: Seq<bool>|
            val.len() == n && exists|i: int|
                0 <= i < values.len() && pattern(bits, val) == table[#[trigger] values[i] as int],
    )
}

/// A set of valuations that, among those that show the pattern of a value
/// of `table`, holds exactly those whose value lies from `lo` up to but not
/// including `hi`. Of other valuations nothing is said.
pub open spec fn selects_range(
    s: Set<Seq<bool>>,
    n: nat,
    bits: Seq<int>,
    table: Seq<Seq<bool>>,
    lo: int,
    hi: int,
) -> bool {
    forall|val: Seq<bool>, v: int|
        val.len() == n && 0 <= v < table.len() && pattern(bits, val) == #[trigger] table[v] ==> (
        #[trigger] s.contains(val) <==> lo <= v < hi)
}

/// In a list without repetition, an entry is found at its own place.
pub proof fn lemma_index_of(s: Seq<int>, i: int)
    requires
        s.no_duplicates(),
        0 <= i < s.len(),
    ensures
        s.index_of(s[i]) == i,
        s.contains(s[i]),
{
    let j = s.index_of(s[i]);
    assert(0 <= j < s.len() && s[j] == s[i]);
}

/// Giving one more position its value extends the overlay by one entry.
pub proof fn lemma_overlay_step(m: Map<int, bool>, bits: Seq<int>, code: Seq<bool>, i: int)
    requires
        bits.no_duplicates(),
        bits.len() == code.len(),
        0 <= i < bits.len(),
    ensures
        overlay(m, bits.take(i), code.take(i)).insert(bits[i], code[i]) == overlay(
            m,
            bits.take(i + 1),
            code.take(i + 1),
        ),
{
    let short = bits.take(i);
    let long = bits.take(i + 1);
    let a = overlay(m, short, code.take(i)).insert(bits[i], code[i]);
    let b = overlay(m, long, code.take(i + 1));
    assert(long.no_duplicates());
    assert(short.no_duplicates());
    assert forall|k: int| a.dom().contains(k) <==> b.dom().contains(k) by {
        if short.contains(k) {
            let j = choose|j: int| 0 <= j < short.len() && short[j] == k;
            assert(long[j] == k);
        }
        if k == bits[i] {
            assert(long[i] == k);
        }
        if long.contains(k) {
            let j = choose|j: int| 0 <= j < long.len() && long[j] == k;
            if j < i {
                assert(short[j] == k);
            }
        }
    }
    assert forall|k: int| a.dom().contains(k) implies a[k] == b[k] by {
        if k == bits[i] {
            assert(long[i] == k);
            lemma_index_of(long, i);
        } else if short.contains(k) {
            let j = short.index_of(k);
            assert(0 <= j < short.len() && short[j] == k);
            assert(long[j] == k);
            lemma_index_of(long, j);
        } else {
            if long.contains(k) {
                let j = choose|j: int| 0 <= j < long.len() && long[j] == k;
                assert(short[j] == k);
            }
        }
    }
    assert(a =~= b);
}

/// After an overlay every listed position is fixed, and shows the code.
pub proof fn lemma_overlay_pattern(m: Map<int, bool>, bits: Seq<int>, code: Seq<bool>)
    requires
        bits.no_duplicates(),
        bits.len() == code.len(),
    ensures
        assigned_pattern(overlay(m, bits, code), bits) == code,
        forall|i: int| 0 <= i < bits.len() ==> overlay(m, bits, code).dom().contains(#[trigger] bits[i]),
{
    let o = overlay(m, bits, code);
    assert forall|i: int| 0 <= i < bits.len() implies o.dom().contains(#[trigger] bits[i]) && o[bits[i]]
        == code[i] by {
        lemma_index_of(bits, i);
    }
    assert(assigned_pattern(o, bits) =~= code);
}

/// The clause of an overlay on the empty assignment holds the valuations
/// that show the code.
pub proof fn lemma_clause_of_overlay(n: nat, bits: Seq<int>, code: Seq<bool>)
    requires
        bits.no_duplicates(),
        bits.len() == code.len(),
        fits(bits, n),
    ensures
        clause_set(n, overlay(unassigned(), bits, code)) == coded_set(n, bits, code),
        forall|k: int| #[trigger]
            overlay(unassigned(), bits, code).dom().contains(k) ==> 0 <= k < n,
{
    let o = overlay(unassigned(), bits, code);
    lemma_overlay_pattern(unassigned(), bits, code);
    assert forall|k: int| #[trigger] o.dom().contains(k) implies 0 <= k < n by {
        let j = choose|j: int| 0 <= j < bits.len() && bits[j] == k;
        assert(0 <= bits[j] < n);
    }
    assert forall|val: Seq<bool>| clause_set(n, o).contains(val) <==> coded_set(
        n,
        bits,
        code,
    ).contains(val) by {
        if clause_set(n, o).contains(val) {
            assert forall|i: int| 0 <= i < bits.len() implies pattern(bits, val)[i] == code[i] by {
                assert(o.dom().contains(bits[i]));
                assert(assigned_pattern(o, bits)[i] == code[i]);
            }
            assert(pattern(bits, val) =~= code);
        }
        if coded_set(n, bits, code).contains(val) {
            assert forall|k: int| 0 <= k < n && #[trigger] o.dom().contains(k) implies val[k]
                == o[k] by {
                let j = choose|j: int| 0 <= j < bits.len() && bits[j] == k;
                assert(pattern(bits, val)[j] == code[j]);
                assert(assigned_pattern(o, bits)[j] == code[j]);
            }
        }
    }
    assert(clause_set(n, o) =~= coded_set(n, bits, code));
}

/// Whether two lists of bits are the same.
pub fn same_bits(a: &Vec<bool>, b: &Vec<bool>) -> (r: bool)
    ensures
        r <==> a@ == b@,
{
    if a.len() != b.len() {
        return false;
    }
    let mut i: usize = 0;
    while i < a.len()
        invariant
            i <= a.len(),
            a.len() == b.len(),
            forall|j: int| 0 <= j < i ==> a@[j] == b@[j],
        decreases a.len() - i,
    {
        if a[i] != b[i] {
            return false;
        }
        i = i + 1;
    }
    assert(a@ =~= b@);
    true
}

/// Where no two values share a pattern, the set of a range selects that
/// range.
pub proof fn lemma_range_selects(n: nat, bits: Seq<int>, table: Seq<Seq<bool>>, lo: int, hi: int)
    requires
        forall|a: int, b: int|
            0 <= a < b < table.len() ==> #[trigger] table[a] != #[trigger] table[b],
    ensures
        selects_range(range_set(n, bits, table, lo, hi), n, bits, table, lo, hi),
{
    let s = range_set(n, bits, table, lo, hi);
    assert forall|val: Seq<bool>, v: int|
        val.len() == n && 0 <= v < table.len() && pattern(bits, val) == #[trigger] table[v] implies (
    #[trigger] s.contains(val) <==> lo <= v < hi) by {
        if s.contains(val) {
            let w = choose|w: int|
                lo <= w < hi && 0 <= w < table.len() && pattern(bits, val) == #[trigger] table[w];
            if w < v {
                assert(table[w] != table[v]);
            }
            if v < w {
                assert(table[v] != table[w]);
            }
        }
    }
}

/// Some valuation of `n` variables shows a given code on a block.
pub proof fn lemma_coded_set_inhabited(n: nat, bits: Seq<int>, code: Seq<bool>) -> (t: Seq<bool>)
    requires
        bits.no_duplicates(),
        bits.len() == code.len(),
        fits(bits, n),
    ensures
        coded_set(n, bits, code).contains(t),
{
    let t = Seq::new(
        n,
        |k: int|
            if bits.contains(k) {
                code[bits.index_of(k)]
            } else {
                false
            },
    );
    assert forall|i: int| 0 <= i < bits.len() implies t[bits[i]] == code[i] by {
        lemma_index_of(bits, i);
    }
    assert(pattern(bits, t) =~= code);
    t
}

/// The variables of a block, each with its bit of a code.
pub fn fixed_pairs(vars: &Vec<BddVariable>, code: &Vec<bool>) -> (r: Vec<(BddVariable, bool)>)
    requires
        vars@.len() == code@.len(),
        positions(vars@).no_duplicates(),
    ensures
        r@.len() == vars@.len(),
        forall|i: int| 0 <= i < r@.len() ==> #[trigger] r@[i] == (vars@[i], code@[i]),
        fixed(r@) == overlay(unassigned(), positions(vars@), code@),
{
    let ghost bits = positions(vars@);
    let mut result: Vec<(BddVariable, bool)> = Vec::new();
    let mut i: usize = 0;
    proof {
        assert(fixed(result@) =~= overlay(unassigned(), bits.take(0), code@.take(0)));
    }
    while i < vars.len()
        invariant
            i <= vars@.len(),
            vars@.len() == code@.len(),
            bits == positions(vars@),
            bits.no_duplicates(),
            result@.len() == i,
            forall|k: int| 0 <= k < i ==> #[trigger] result@[k] == (vars@[k], code@[k]),
            fixed(result@) == overlay(unassigned(), bits.take(i as int), code@.take(i as int)),
        decreases vars@.len() - i,
    {
        let ghost before = result@;
        result.push((vars[i], code[i]));
        proof {
            assert(result@.drop_last() =~= before);
            lemma_overlay_step(unassigned(), bits, code@, i as int);
            assert(bits[i as int] == var_index(vars@[i as int]));
        }
        i = i + 1;
    }
    proof {
        assert(bits.take(i as int) =~= bits);
        assert(code@.take(i as int) =~= code@);
    }
    result
}

/// A copy of a list of variables.
pub fn copy_variables(vars: &Vec<BddVariable>) -> (r: Vec<BddVariable>)
    ensures
        r@ == vars@,
{
    let mut result: Vec<BddVariable> = Vec::new();
    let mut i: usize = 0;
    while i < vars.len()
        invariant
            i <= vars.len(),
            result@ == vars@.take(i as int),
        decreases vars.len() - i,
    {
        result.push(vars[i]);
        assert(result@ =~= vars@.take(i + 1));
        i = i + 1;
    }
    assert(vars@.take(i as int) =~= vars@);
    result
}

/// The names of the bits of a variable, in order.
pub open spec fn block_names(name: Seq<char>, count: nat) -> Seq<Seq<char>> {
    Seq::new(count, |i: int| bit_name(name, i as nat))
}

/// `count` positions in a row, from `start`.
pub open spec fn consecutive(start: int, count: nat) -> Seq<int> {
    Seq::new(count, |i: int| start + i)
}

/// A builder that holds `names` has room for `count` bits of the variable
/// `name`, and none of their names is taken or refused.
pub open spec fn can_allocate(names: Seq<Seq<char>>, name: Seq<char>, count: nat) -> bool {
    &&& names.len() + count < 65534
    &&& forall|i: nat| i < count ==> !names.contains(#[trigger] bit_name(name, i))
    &&& forall|i: int| 0 <= i < name.len() ==> !refused_in_name(#[trigger] name[i])
}

/// Registers `count` bits of the variable `name`, in order, and returns
/// their variables.
pub fn allocate_block(builder: &mut BddVariableSetBuilder, name: &str, count: usize) -> (r: Vec<
    BddVariable,
>)
    requires
        can_allocate(builder_names(*old(builder)), name@, count as nat),
    ensures
        positions(r@) == consecutive(builder_names(*old(builder)).len() as int, count as nat),
        builder_names(*final(builder)) == builder_names(*old(builder)) + block_names(
            name@,
            count as nat,
        ),
{
    let mut result: Vec<BddVariable> = Vec::new();
    let mut i: usize = 0;
    let ghost before = builder_names(*builder);
    while i < count
        invariant
            i <= count,
            before == builder_names(*old(builder)),
            can_allocate(before, name@, count as nat),
            result@.len() == i,
            positions(result@) == consecutive(before.len() as int, i as nat),
            builder_names(*builder) == before + block_names(name@, i as nat),
        decreases count - i,
    {
        let bit = make_bit_name(name, i + 1);
        proof {
            assert(bit@ == bit_name(name@, i as nat));
            let taken = builder_names(*builder);
            assert(!taken.contains(bit@)) by {
                if taken.contains(bit@) {
                    let k = choose|k: int| 0 <= k < taken.len() && taken[k] == bit@;
                    if k < before.len() {
                        assert(before[k] == bit@);
                        assert(before.contains(bit@));
                    } else {
                        let j = (k - before.len()) as nat;
                        assert(taken[k] == bit_name(name@, j));
                        lemma_bit_name_injective(name@, j, name@, i as nat);
                    }
                }
            }
            assert forall|k: int| 0 <= k < bit@.len() implies !refused_in_name(#[trigger] bit@[k]) by {
                lemma_bit_name_chars(name@, i as nat, k);
            }
        }
        let ghost taken = builder_names(*builder);
        let ghost listed = result@;
        let variable = builder.make_variable(bit.as_str());
        result.push(variable);
        proof {
            assert(builder_names(*builder) =~= before + block_names(name@, (i + 1) as nat));
            assert(positions(result@) =~= consecutive(before.len() as int, (i + 1) as nat)) by {
                assert forall|k: int| 0 <= k < i + 1 implies positions(result@)[k]
                    == before.len() + k by {
                    if k < i {
                        assert(positions(listed)[k] == before.len() + k);
                        assert(result@[k] == listed[k]);
                    }
                }
            }
        }
        i = i + 1;
    }
    result
}

/// An encoding of the integers from zero to a maximum into a block of
/// variables.
pub trait SymbolicDomain: Sized {
    /// The variables of the block, in the order of the bits.
    spec fn variables(&self) -> Seq<BddVariable>;

    /// The largest value of the domain.
    spec fn max_spec(&self) -> nat;

    /// The number of bits that the encoding takes for a given maximum.
    spec fn width(max: nat) -> nat;

    /// The bit patterns of the values from zero to a given maximum, by
    /// value.
    spec fn table(max: nat) -> Seq<Seq<bool>>;

    /// The domain's own invariant. It implies `block_ok` of the variables.
    spec fn wf(&self) -> bool;

    /// A well-formed domain has a block of the width of its maximum, at
    /// distinct positions.
    proof fn lemma_wf(&self)
        requires
            self.wf(),
        ensures
            self.max_spec() <= 255,
            block_ok(positions(self.variables()), Self::width(self.max_spec())),
    ;

    /// Every value up to the maximum has a pattern, of the width of the
    /// maximum, and no two values share one.
    proof fn lemma_table(max: nat)
        requires
            max <= 255,
        ensures
            Self::table(max).len() == max + 1,
            forall|v: int|
                0 <= v <= max ==> (#[trigger] Self::table(max)[v]).len() == Self::width(max),
            forall|a: int, b: int|
                0 <= a < b <= max ==> #[trigger] Self::table(max)[a] != #[trigger] Self::table(
                    max,
                )[b],
    ;

    /// A domain for the values up to `max_value`, on new variables of the
    /// builder that are named after `name`.
    fn new(builder: &mut BddVariableSetBuilder, name: &str, max_value: u8) -> (d: Self)
        requires
            can_allocate(builder_names(*old(builder)), name@, Self::width(max_value as nat)),
        ensures
            d.wf(),
            d.max_spec() == max_value,
            positions(d.variables()) == consecutive(
                builder_names(*old(builder)).len() as int,
                Self::width(max_value as nat),
            ),
            builder_names(*final(builder)) == builder_names(*old(builder)) + block_names(
                name@,
                Self::width(max_value as nat),
            ),
    ;

    /// The number of bits that the encoding takes for a given maximum.
    fn size_for(max_value: u8) -> (r: usize)
        ensures
            r == Self::width(max_value as nat),
            r <= 256,
    ;

    /// The largest value of the domain.
    fn max_value(&self) -> (r: u8)
        requires
            self.wf(),
        ensures
            r == self.max_spec(),
    ;

    /// The variables of the block, in the order of the bits.
    fn raw_bdd_variables(&self) -> (r: Vec<BddVariable>)
        requires
            self.wf(),
        ensures
            r@ == self.variables(),
    ;

    /// The bit pattern of a value of the domain.
    fn raw_bdd_variables_encode(&self, value: &u8) -> (r: Vec<bool>)
        requires
            self.wf(),
            *value <= self.max_spec(),
        ensures
            r@ == Self::table(self.max_spec())[*value as int],
    ;

    /// The variables that the encoding uses, in the order of the bits. The
    /// same list comes back at every call.
    fn symbolic_variables(&self) -> (r: Vec<BddVariable>)
        requires
            self.wf(),
        ensures
            r@ == self.variables(),
    {
        self.raw_bdd_variables()
    }

    /// The number of bits of the block.
    fn symbolic_size(&self) -> (r: usize)
        requires
            self.wf(),
        ensures
            r == self.variables().len(),
    {
        self.raw_bdd_variables().len()
    }

    /// Fixes the bits of the block to the pattern of `value` and leaves
    /// every other variable of the valuation as it is.
    fn encode_bits(&self, bdd_valuation: &mut BddPartialValuation, value: &u8)
        requires
            self.wf(),
            *value <= self.max_spec(),
        ensures
            assignment(*final(bdd_valuation)) == overlay(
                assignment(*old(bdd_valuation)),
                positions(self.variables()),
                Self::table(self.max_spec())[*value as int],
            ),
    {
        let vars = self.raw_bdd_variables();
        let code = self.raw_bdd_variables_encode(value);
        let ghost start = assignment(*bdd_valuation);
        let ghost bits = positions(self.variables());
        proof {
            self.lemma_wf();
            Self::lemma_table(self.max_spec());
            assert(overlay(start, bits.take(0), code@.take(0)) =~= start);
        }
        let mut i: usize = 0;
        while i < vars.len()
            invariant
                i <= vars.len(),
                bits == positions(vars@),
                bits.no_duplicates(),
                code@.len() == bits.len(),
                assignment(*bdd_valuation) == overlay(
                    start,
                    bits.take(i as int),
                    code@.take(i as int),
                ),
            decreases vars.len() - i,
        {
            proof {
                lemma_overlay_step(start, bits, code@, i as int);
            }
            bdd_valuation.set_value(vars[i], code[i]);
            i = i + 1;
        }
        proof {
            assert(bits.take(i as int) =~= bits);
            assert(code@.take(i as int) =~= code@);
        }
    }

    /// The value whose pattern the valuation shows on the block. The block
    /// must be fixed, to the pattern of a value of the domain.
    fn decode_bits(&self, bdd_valuation: &BddPartialValuation) -> (r: u8)
        requires
            self.wf(),
            forall|i: int|
                0 <= i < positions(self.variables()).len() ==> assignment(*bdd_valuation).dom().contains(
                    #[trigger] positions(self.variables())[i],
                ),
            exists|v: int|
                0 <= v < Self::table(self.max_spec()).len() && assigned_pattern(
                    assignment(*bdd_valuation),
                    positions(self.variables()),
                ) == #[trigger] Self::table(self.max_spec())[v],
        ensures
            r <= self.max_spec(),
            assigned_pattern(assignment(*bdd_valuation), positions(self.variables())) == Self::table(self.max_spec())[r as int],
    {
        let vars = self.raw_bdd_variables();
        let ghost bits = positions(self.variables());
        let ghost shown = assigned_pattern(assignment(*bdd_valuation), bits);
        let mut read: Vec<bool> = Vec::new();
        let mut i: usize = 0;
        while i < vars.len()
            invariant
                i <= vars.len(),
                bits == positions(vars@),
                shown == assigned_pattern(assignment(*bdd_valuation), bits),
                forall|k: int|
                    0 <= k < bits.len() ==> assignment(*bdd_valuation).dom().contains(
                        #[trigger] bits[k],
                    ),
                read@ == shown.take(i as int),
            decreases vars.len() - i,
        {
            assert(assignment(*bdd_valuation).dom().contains(bits[i as int]));
            let bit = bdd_valuation.get_value(vars[i]).unwrap();
            read.push(bit);
            assert(read@ =~= shown.take(i + 1));
            i = i + 1;
        }
        assert(read@ =~= shown);
        let max = self.max_value();
        let mut value: u8 = 0;
        proof {
            self.lemma_wf();
            Self::lemma_table(self.max_spec());
        }
        loop
            invariant
                self.wf(),
                Self::table(self.max_spec()).len() == max + 1,
                max == self.max_spec(),
                value <= max,
                read@ == shown,
                shown == assigned_pattern(
                    assignment(*bdd_valuation),
                    positions(self.variables()),
                ),
                forall|v: int| 0 <= v < value ==> shown != #[trigger] Self::table(self.max_spec())[v],
                exists|v: int| 0 <= v < Self::table(self.max_spec()).len() && shown == #[trigger] Self::table(self.max_spec())[v],
            decreases max - value,
        {
            let code = self.raw_bdd_variables_encode(&value);
            assert(code@ == Self::table(self.max_spec())[value as int]);
            if same_bits(&code, &read) || value == max {
                proof {
                    if code@ != read@ {
                        let v = choose|v: int|
                            0 <= v < Self::table(self.max_spec()).len() && shown == #[trigger] Self::table(self.max_spec())[v];
                        assert(false);
                    }
                }
                return value;
            }
            value = value + 1;
        }
    }

    /// The diagram of no value at all.
    fn empty_collection(&self, variables: &BddVariableSet) -> (r: Bdd)
        ensures
            bdd_num_vars(r) == variable_count(*variables),
            bdd_sat(r) == Set::<Seq<bool>>::empty(),
    {
        variables.mk_false()
    }

    /// The diagram of one value: the valuations that show its pattern on
    /// the block. It depends on no variable outside the block.
    fn encode_one(&self, variables: &BddVariableSet, value: &u8) -> (r: Bdd)
        requires
            self.wf(),
            *value <= self.max_spec(),
            fits(positions(self.variables()), variable_count(*variables)),
        ensures
            bdd_num_vars(r) == variable_count(*variables),
            bdd_sat(r) == coded_set(
                variable_count(*variables),
                positions(self.variables()),
                Self::table(self.max_spec())[*value as int],
            ),
    {
        let mut valuation = BddPartialValuation::empty();
        self.encode_bits(&mut valuation, value);
        proof {
            self.lemma_wf();
            Self::lemma_table(self.max_spec());
            lemma_clause_of_overlay(
                variable_count(*variables),
                positions(self.variables()),
                Self::table(self.max_spec())[*value as int],
            );
        }
        variables.mk_conjunctive_clause(&valuation)
    }

    /// The diagram of every valuation that does not show the pattern of
    /// `value` on the block.
    fn encode_one_not(&self, variables: &BddVariableSet, value: &u8) -> (r: Bdd)
        requires
            self.wf(),
            *value <= self.max_spec(),
            fits(positions(self.variables()), variable_count(*variables)),
        ensures
            bdd_num_vars(r) == variable_count(*variables),
            bdd_sat(r) == valuations(variable_count(*variables)).difference(
                coded_set(
                    variable_count(*variables),
                    positions(self.variables()),
                    Self::table(self.max_spec())[*value as int],
                ),
            ),
    {
        self.encode_one(variables, value).not()
    }

    /// The diagram of the values of the domain from `lo` up to but not
    /// including `hi`.
    fn encode_range(&self, variables: &BddVariableSet, lo: usize, hi: usize) -> (r: Bdd)
        requires
            self.wf(),
            fits(positions(self.variables()), variable_count(*variables)),
        ensures
            bdd_num_vars(r) == variable_count(*variables),
            bdd_sat(r) == range_set(
                variable_count(*variables),
                positions(self.variables()),
                Self::table(self.max_spec()),
                lo as int,
                hi as int,
            ),
    {
        let max = self.max_value() as usize;
        let end = if hi <= max {
            hi
        } else {
            max + 1
        };
        let ghost n = variable_count(*variables);
        let ghost bits = positions(self.variables());
        let ghost table = Self::table(self.max_spec());
        let mut result = variables.mk_false();
        let mut v = lo;
        proof {
            self.lemma_wf();
            Self::lemma_table(self.max_spec());
            assert(range_set(n, bits, table, lo as int, lo as int) =~= Set::<Seq<bool>>::empty());
        }
        while v < end
            invariant
                self.wf(),
                fits(positions(self.variables()), variable_count(*variables)),
                n == variable_count(*variables),
                bits == positions(self.variables()),
                table == Self::table(self.max_spec()),
                max == self.max_spec(),
                end <= max + 1,
                max <= 255,
                table.len() == max + 1,
                lo <= v,
                v == lo || v <= end,
                end <= hi,
                end == hi || end == max + 1,
                bdd_num_vars(result) == n,
                bdd_sat(result) == range_set(n, bits, table, lo as int, v as int),
            decreases end - v,
        {
            let value = v as u8;
            let one = self.encode_one(variables, &value);
            result = result.or(&one);
            proof {
                assert(table[v as int] == Self::table(self.max_spec())[value as int]);
                assert(bdd_sat(result) =~= range_set(n, bits, table, lo as int, v + 1)) by {
                    assert forall|val: Seq<bool>|
                        range_set(n, bits, table, lo as int, v + 1).contains(val) implies range_set(
                        n,
                        bits,
                        table,
                        lo as int,
                        v as int,
                    ).contains(val) || coded_set(n, bits, table[v as int]).contains(val) by {
                        let w = choose|w: int|
                            lo <= w < v + 1 && 0 <= w < table.len() && pattern(bits, val)
                                == #[trigger] table[w];
                        if w < v {
                            assert(range_set(n, bits, table, lo as int, v as int).contains(val));
                        }
                    }
                }
            }
            v = v + 1;
        }
        proof {
            let reached = range_set(n, bits, table, lo as int, v as int);
            let wanted = range_set(n, bits, table, lo as int, hi as int);
            assert forall|val: Seq<bool>| reached.contains(val) <==> wanted.contains(val) by {
                if reached.contains(val) {
                    let w = choose|w: int|
                        lo <= w < v && 0 <= w < table.len() && pattern(bits, val)
                            == #[trigger] table[w];
                    assert(lo <= w < hi);
                }
                if wanted.contains(val) {
                    let w = choose|w: int|
                        lo <= w < hi && 0 <= w < table.len() && pattern(bits, val)
                            == #[trigger] table[w];
                    assert(lo <= w < v);
                }
            }
            assert(reached =~= wanted);
        }
        result
    }

    /// The diagram of all values of the domain: the valuations that show
    /// the pattern of some value on the block.
    fn unit_collection(&self, variables: &BddVariableSet) -> (r: Bdd)
        requires
            self.wf(),
            fits(positions(self.variables()), variable_count(*variables)),
        ensures
            bdd_num_vars(r) == variable_count(*variables),
            bdd_sat(r) == unit_set(variable_count(*variables), positions(self.variables()), Self::table(self.max_spec())),
    {
        let max = self.max_value() as usize;
        proof {
            self.lemma_wf();
            Self::lemma_table(self.max_spec());
        }
        self.encode_range(variables, 0, max + 1)
    }

    /// The diagram of a list of values of the domain: the disjunction of
    /// the clauses that fix the block to the pattern of a listed value.
    fn encode_collection(&self, variables: &BddVariableSet, collection: &[u8]) -> (r: Bdd)
        requires
            self.wf(),
            fits(positions(self.variables()), variable_count(*variables)),
            forall|i: int| 0 <= i < collection@.len() ==> collection@[i] <= self.max_spec(),
        ensures
            bdd_num_vars(r) == variable_count(*variables),
            bdd_sat(r) == listed_set(
                variable_count(*variables),
                positions(self.variables()),
                Self::table(self.max_spec()),
                collection@,
            ),
    {
        let ghost n = variable_count(*variables);
        let ghost bits = positions(self.variables());
        let ghost table = Self::table(self.max_spec());
        proof {
            self.lemma_wf();
            Self::lemma_table(self.max_spec());
        }
        let mut clauses: Vec<BddPartialValuation> = Vec::new();
        let mut i: usize = 0;
        while i < collection.len()
            invariant
                self.wf(),
                forall|k: int| 0 <= k < collection@.len() ==> collection@[k] <= self.max_spec(),
                bits == positions(self.variables()),
                table == Self::table(self.max_spec()),
                i <= collection.len(),
                clauses@.len() == i,
                forall|j: int|
                    0 <= j < i ==> assignment(#[trigger] clauses@[j]) == overlay(
                        unassigned(),
                        bits,
                        table[collection@[j] as int],
                    ),
            decreases collection.len() - i,
        {
            let mut valuation = BddPartialValuation::empty();
            self.encode_bits(&mut valuation, &collection[i]);
            clauses.push(valuation);
            i = i + 1;
        }
        proof {
            assert forall|j: int| 0 <= j < clauses@.len() implies clause_set(
                n,
                assignment(#[trigger] clauses@[j]),
            ) == coded_set(n, bits, table[collection@[j] as int]) && forall|k: int| #[trigger]
                assignment(clauses@[j]).dom().contains(k) ==> 0 <= k < n by {
                lemma_clause_of_overlay(n, bits, table[collection@[j] as int]);
            }
        }
        let result = variables.mk_dnf(clauses.as_slice());
        proof {
            let wanted = listed_set(n, bits, table, collection@);
            assert forall|val: Seq<bool>| bdd_sat(result).contains(val) <==> wanted.contains(
                val,
            ) by {
                if bdd_sat(result).contains(val) {
                    let j = choose|j: int|
                        0 <= j < clauses@.len() && clause_set(
                            n,
                            assignment(#[trigger] clauses@[j]),
                        ).contains(val);
                    assert(coded_set(n, bits, table[collection@[j] as int]).contains(val));
                    assert(pattern(bits, val) == table[collection@[j] as int]);
                }
                if wanted.contains(val) {
                    let j = choose|j: int|
                        0 <= j < collection@.len() && pattern(bits, val)
                            == table[#[trigger] collection@[j] as int];
                    assert(coded_set(n, bits, table[collection@[j] as int]).contains(val));
                    assert(clause_set(n, assignment(clauses@[j])).contains(val));
                }
            }
            assert(bdd_sat(result) =~= wanted);
        }
        result
    }

    /// The values of the domain whose pattern some valuation of the
    /// collection shows, in rising order.
    fn decode_collection(&self, variables: &BddVariableSet, collection: &Bdd) -> (r: Vec<u8>)
        requires
            self.wf(),
            fits(positions(self.variables()), variable_count(*variables)),
            bdd_num_vars(*collection) == variable_count(*variables),
        ensures
            forall|i: int, j: int| 0 <= i < j < r@.len() ==> r@[i] < r@[j],
            forall|v: u8|
                r@.contains(v) <==> v <= self.max_spec() && !bdd_sat(*collection).disjoint(
                    coded_set(
                        variable_count(*variables),
                        positions(self.variables()),
                        Self::table(self.max_spec())[v as int],
                    ),
                ),
    {
        let ghost n = variable_count(*variables);
        let ghost bits = positions(self.variables());
        let ghost table = Self::table(self.max_spec());
        let max = self.max_value();
        let mut result: Vec<u8> = Vec::new();
        let mut value: u8 = 0;
        let mut done = false;
        while !done
            invariant
                self.wf(),
                fits(positions(self.variables()), variable_count(*variables)),
                bdd_num_vars(*collection) == variable_count(*variables),
                n == variable_count(*variables),
                bits == positions(self.variables()),
                table == Self::table(self.max_spec()),
                max == self.max_spec(),
                value <= max,
                forall|i: int, j: int| 0 <= i < j < result@.len() ==> result@[i] < result@[j],
                forall|i: int| 0 <= i < result@.len() ==> result@[i] < value || (done && result@[i] <= max),
                forall|v: u8|
                    result@.contains(v) <==> (v < value || (done && v <= max)) && !bdd_sat(
                        *collection,
                    ).disjoint(coded_set(n, bits, table[v as int])),
            decreases max - value + (if done { 0int } else { 1int }),
        {
            let one = self.encode_one(variables, &value);
            let common = collection.and(&one);
            let ghost before = result@;
            if !common.is_false() {
                result.push(value);
            }
            proof {
                let here = coded_set(n, bits, table[value as int]);
                assert(bdd_sat(common) =~= bdd_sat(*collection).intersect(here));
                if bdd_sat(common) == Set::<Seq<bool>>::empty() {
                    assert(bdd_sat(*collection).disjoint(here)) by {
                        assert forall|val: Seq<bool>| !(bdd_sat(*collection).contains(val) && here.contains(val)) by {
                            assert(!bdd_sat(common).contains(val));
                        }
                    }
                } else {
                    assert(!bdd_sat(*collection).disjoint(here)) by {
                        if bdd_sat(*collection).disjoint(here) {
                            assert(bdd_sat(common) =~= Set::<Seq<bool>>::empty());
                        }
                    }
                    assert(result@ == before.push(value));
                    assert(result@[before.len() as int] == value);
                }
                assert forall|v: u8|
                    result@.contains(v) <==> v <= value && !bdd_sat(*collection).disjoint(
                        coded_set(n, bits, table[v as int]),
                    ) by {
                    if result@.contains(v) {
                        let k = choose|k: int| 0 <= k < result@.len() && result@[k] == v;
                        if k < before.len() {
                            assert(before[k] == v);
                            assert(before.contains(v));
                        }
                    }
                    if v < value && before.contains(v) {
                        let k = choose|k: int| 0 <= k < before.len() && before[k] == v;
                        assert(result@[k] == v);
                    }
                }
            }
            if value == max {
                done = true;
            } else {
                value = value + 1;
            }
        }
        result
    }

    /// The one value that a diagram stands for. The diagram must be the
    /// diagram of a single value of the domain.
    fn decode_one(&self, variables: &BddVariableSet, value: &Bdd) -> (r: u8)
        requires
            self.wf(),
            fits(positions(self.variables()), variable_count(*variables)),
            bdd_num_vars(*value) == variable_count(*variables),
            exists|v: int|
                0 <= v <= self.max_spec() && bdd_sat(*value) == coded_set(
                    variable_count(*variables),
                    positions(self.variables()),
                    #[trigger] Self::table(self.max_spec())[v],
                ),
        ensures
            r <= self.max_spec(),
            bdd_sat(*value) == coded_set(
                variable_count(*variables),
                positions(self.variables()),
                Self::table(self.max_spec())[r as int],
            ),
    {
        let ghost n = variable_count(*variables);
        let ghost bits = positions(self.variables());
        let ghost table = Self::table(self.max_spec());
        let ghost v = choose|v: int|
            0 <= v <= self.max_spec() && bdd_sat(*value) == coded_set(n, bits, #[trigger] table[v]);
        let found = self.decode_collection(variables, value);
        proof {
            self.lemma_wf();
            Self::lemma_table(self.max_spec());
            let t = lemma_coded_set_inhabited(n, bits, table[v]);
            assert(bdd_sat(*value).contains(t) && coded_set(n, bits, table[v]).contains(t));
            assert(!bdd_sat(*value).disjoint(coded_set(n, bits, table[v as u8 as int])));
            assert(found@.contains(v as u8));
            assert(found@.len() > 0);
            let first = found@[0];
            assert(found@.contains(first));
            assert(!bdd_sat(*value).disjoint(coded_set(n, bits, table[first as int])));
            let shared = choose|w: Seq<bool>|
                bdd_sat(*value).contains(w) && coded_set(n, bits, table[first as int]).contains(w);
            assert(pattern(bits, shared) == table[v]);
            assert(pattern(bits, shared) == table[first as int]);
            if first < v {
                assert(table[first as int] != table[v]);
            }
            if v < first {
                assert(table[v] != table[first as int]);
            }
        }
        found[0]
    }
}

/// A domain whose values are ordered: it can encode the values below, up
/// to, above and from a bound. Each diagram is stated for the valuations
/// that show the pattern of a value; of other valuations nothing is said,
/// except by an encoding that builds the diagram from the diagrams of the
/// values in the range: that diagram holds no other valuation.
pub trait SymbolicDomainOrd: SymbolicDomain {
    /// The values below the bound.
    fn encode_lt(&self, bdd_variable_set: &BddVariableSet, exclusive_upper_bound: &u8) -> (r: Bdd)
        requires
            self.wf(),
            fits(positions(self.variables()), variable_count(*bdd_variable_set)),
        ensures
            bdd_num_vars(r) == variable_count(*bdd_variable_set),
            selects_range(
                bdd_sat(r),
                variable_count(*bdd_variable_set),
                positions(self.variables()),
                Self::table(self.max_spec()),
                0,
                *exclusive_upper_bound as int,
            ),
        default_ensures
            bdd_sat(r) == range_set(
                variable_count(*bdd_variable_set),
                positions(self.variables()),
                Self::table(self.max_spec()),
                0,
                *exclusive_upper_bound as int,
            ),
    {
        proof {
            self.lemma_wf();
            Self::lemma_table(self.max_spec());
            lemma_range_selects(
                variable_count(*bdd_variable_set),
                positions(self.variables()),
                Self::table(self.max_spec()),
                0,
                *exclusive_upper_bound as int,
            );
        }
        self.encode_range(bdd_variable_set, 0, *exclusive_upper_bound as usize)
    }

    /// The values up to the bound.
    fn encode_le(&self, bdd_variable_set: &BddVariableSet, upper_bound: &u8) -> (r: Bdd)
        requires
            self.wf(),
            fits(positions(self.variables()), variable_count(*bdd_variable_set)),
        ensures
            bdd_num_vars(r) == variable_count(*bdd_variable_set),
            selects_range(
                bdd_sat(r),
                variable_count(*bdd_variable_set),
                positions(self.variables()),
                Self::table(self.max_spec()),
                0,
                *upper_bound + 1,
            ),
        default_ensures
            bdd_sat(r) == range_set(
                variable_count(*bdd_variable_set),
                positions(self.variables()),
                Self::table(self.max_spec()),
                0,
                *upper_bound + 1,
            ),
    {
        proof {
            self.lemma_wf();
            Self::lemma_table(self.max_spec());
            lemma_range_selects(
                variable_count(*bdd_variable_set),
                positions(self.variables()),
                Self::table(self.max_spec()),
                0,
                *upper_bound + 1,
            );
        }
        self.encode_range(bdd_variable_set, 0, *upper_bound as usize + 1)
    }

    /// The values above the bound.
    fn encode_gt(&self, bdd_variable_set: &BddVariableSet, exclusive_lower_bound: &u8) -> (r: Bdd)
        requires
            self.wf(),
            fits(positions(self.variables()), variable_count(*bdd_variable_set)),
        ensures
            bdd_num_vars(r) == variable_count(*bdd_variable_set),
            selects_range(
                bdd_sat(r),
                variable_count(*bdd_variable_set),
                positions(self.variables()),
                Self::table(self.max_spec()),
                *exclusive_lower_bound + 1,
                256,
            ),
        default_ensures
            bdd_sat(r) == range_set(
                variable_count(*bdd_variable_set),
                positions(self.variables()),
                Self::table(self.max_spec()),
                *exclusive_lower_bound + 1,
                256,
            ),
    {
        proof {
            self.lemma_wf();
            Self::lemma_table(self.max_spec());
            lemma_range_selects(
                variable_count(*bdd_variable_set),
                positions(self.variables()),
                Self::table(self.max_spec()),
                *exclusive_lower_bound + 1,
                256,
            );
        }
        self.encode_range(bdd_variable_set, *exclusive_lower_bound as usize + 1, 256)
    }

    /// The values from the bound on.
    fn encode_ge(&self, bdd_variable_set: &BddVariableSet, lower_bound: &u8) -> (r: Bdd)
        requires
            self.wf(),
            fits(positions(self.variables()), variable_count(*bdd_variable_set)),
        ensures
            bdd_num_vars(r) == variable_count(*bdd_variable_set),
            selects_range(
                bdd_sat(r),
                variable_count(*bdd_variable_set),
                positions(self.variables()),
                Self::table(self.max_spec()),
                *lower_bound as int,
                256,
            ),
        default_ensures
            bdd_sat(r) == range_set(
                variable_count(*bdd_variable_set),
                positions(self.variables()),
                Self::table(self.max_spec()),
                *lower_bound as int,
                256,
            ),
    {
        proof {
            self.lemma_wf();
            Self::lemma_table(self.max_spec());
            lemma_range_selects(
                variable_count(*bdd_variable_set),
                positions(self.variables()),
                Self::table(self.max_spec()),
                *lower_bound as int,
                256,
            );
        }
        self.encode_range(bdd_variable_set, *lower_bound as usize, 256)
    }
}

/// The diagram of a value of the domain lies within the diagram of all
/// values: intersecting the two gives the diagram of the value again.
pub proof fn lemma_value_within_unit<D: SymbolicDomain>(domain: &D, n: nat, value: nat)
    requires
        domain.wf(),
        value <= domain.max_spec(),
    ensures
        coded_set(n, positions(domain.variables()), D::table(domain.max_spec())[value as int])
            .intersect(unit_set(n, positions(domain.variables()), D::table(domain.max_spec())))
            == coded_set(
            n,
            positions(domain.variables()),
            D::table(domain.max_spec())[value as int],
        ),
{
    domain.lemma_wf();
    D::lemma_table(domain.max_spec());
    let bits = positions(domain.variables());
    let table = D::table(domain.max_spec());
    let one = coded_set(n, bits, table[value as int]);
    assert forall|val: Seq<bool>| one.contains(val) implies unit_set(n, bits, table).contains(
        val,
    ) by {
        assert(pattern(bits, val) == table[value as int]);
    }
    assert(one.intersect(unit_set(n, bits, table)) =~= one);
}

/// The diagram of all values of the domain is the union of the diagrams of
/// its values: a valuation lies in it exactly if it lies in the diagram of
/// some value up to the maximum.
pub proof fn lemma_unit_is_union<D: SymbolicDomain>(domain: &D, n: nat, val: Seq<bool>)
    requires
        domain.wf(),
    ensures
        unit_set(n, positions(domain.variables()), D::table(domain.max_spec())).contains(val)
            <==> exists|value: int|
            0 <= value <= domain.max_spec() && coded_set(
                n,
                positions(domain.variables()),
                #[trigger] D::table(domain.max_spec())[value],
            ).contains(val),
{
    domain.lemma_wf();
    D::lemma_table(domain.max_spec());
    let bits = positions(domain.variables());
    let table = D::table(domain.max_spec());
    if unit_set(n, bits, table).contains(val) {
        let v = choose|v: int|
            0 <= v < table.len() && 0 <= v < table.len() && pattern(bits, val)
                == #[trigger] table[v];
        assert(0 <= v <= domain.max_spec() && coded_set(n, bits, table[v]).contains(val));
    }
    if exists|value: int|
        0 <= value <= domain.max_spec() && coded_set(n, bits, #[trigger] table[value]).contains(
            val,
        ) {
        let v = choose|value: int|
            0 <= value <= domain.max_spec() && coded_set(n, bits, #[trigger] table[value]).contains(
                val,
            );
        assert(0 <= v < table.len() && pattern(bits, val) == table[v]);
    }
}

/// Decoding what was encoded gives the value back: after the bits of a
/// value were written into any assignment, the block shows the pattern of
/// that value and of no other value of the domain.
pub proof fn lemma_decode_encode<D: SymbolicDomain>(
    domain: &D,
    before: Map<int, bool>,
    value: nat,
    decoded: nat,
)
    requires
        domain.wf(),
        value <= domain.max_spec(),
        decoded <= domain.max_spec(),
        assigned_pattern(
            overlay(
                before,
                positions(domain.variables()),
                D::table(domain.max_spec())[value as int],
            ),
            positions(domain.variables()),
        ) == D::table(domain.max_spec())[decoded as int],
    ensures
        decoded == value,
        forall|i: int|
            0 <= i < positions(domain.variables()).len() ==> overlay(
                before,
                positions(domain.variables()),
                D::table(domain.max_spec())[value as int],
            ).dom().contains(#[trigger] positions(domain.variables())[i]),
{
    domain.lemma_wf();
    D::lemma_table(domain.max_spec());
    let bits = positions(domain.variables());
    let table = D::table(domain.max_spec());
    assert(table[value as int].len() == bits.len());
    lemma_overlay_pattern(before, bits, table[value as int]);
    if decoded < value {
        assert(table[decoded as int] != table[value as int]);
    }
    if value < decoded {
        assert(table[value as int] != table[decoded as int]);
    }
}

/// A pattern that is the pattern of no value of a domain is shown by no
/// valuation of the domain's unit collection: what is encoded from outside
/// the domain never denotes a value of the domain.
pub proof fn lemma_foreign_pattern_outside_unit(
    n: nat,
    bits: Seq<int>,
    table: Seq<Seq<bool>>,
    code: Seq<bool>,
)
    requires
        forall|v: int| 0 <= v < table.len() ==> #[trigger] table[v] != code,
    ensures
        coded_set(n, bits, code).intersect(unit_set(n, bits, table)) == Set::<Seq<bool>>::empty(),
{
    let both = coded_set(n, bits, code).intersect(unit_set(n, bits, table));
    assert forall|val: Seq<bool>| !both.contains(val) by {
        if both.contains(val) {
            let v = choose|v: int|
                0 <= v < table.len() && 0 <= v < table.len() && pattern(bits, val)
                    == #[trigger] table[v];
            assert(table[v] != code);
        }
    }
    assert(both =~= Set::<Seq<bool>>::empty());
}

} // verus!
