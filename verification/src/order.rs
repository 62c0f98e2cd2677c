//! The order of the variables of a network: by name.

use crate::unprocessed::UnprocessedVariableUpdateFn;
use vstd::prelude::*;

verus! {

/// Whether `a` comes before `b` in the order of strings: at the first
/// place where they differ `a` has the smaller character, or `a` ends
/// there and `b` goes on.
pub open spec fn lex_less(a: Seq<char>, b: Seq<char>) -> bool
    decreases a.len(),
{
    if b.len() == 0 {
        false
    } else if a.len() == 0 {
        true
    } else if a[0] != b[0] {
        (a[0] as int) < (b[0] as int)
    } else {
        lex_less(a.drop_first(), b.drop_first())
    }
}

/// `str::lt`: whether the first string comes before the second. Strings
/// are ordered by their characters' code points, place by place.
#[verifier::external_body]
pub(crate) fn name_before(a: &str, b: &str) -> (r: bool)
    ensures
        r == lex_less(a@, b@),
{
    a < b
}

/// A list that is in order, with one more entry put behind the last entry
/// that does not come after it.
pub open spec fn insert_by_name(
    sorted: Seq<(String, UnprocessedVariableUpdateFn)>,
    entry: (String, UnprocessedVariableUpdateFn),
) -> Seq<(String, UnprocessedVariableUpdateFn)>
    decreases sorted.len(),
{
    if sorted.len() > 0 && lex_less(entry.0@, sorted.last().0@) {
        insert_by_name(sorted.drop_last(), entry).push(sorted.last())
    } else {
        sorted.push(entry)
    }
}

/// The entries of a network in the order of their names. Entries of the
/// same name keep the order in which they come.
pub open spec fn sorted_model(input: Seq<(String, UnprocessedVariableUpdateFn)>) -> Seq<
    (String, UnprocessedVariableUpdateFn),
>
    decreases input.len(),
{
    if input.len() == 0 {
        Seq::empty()
    } else {
        insert_by_name(sorted_model(input.drop_first()), input[0])
    }
}

/// Inserting by name puts the entry at the place before which no entry
/// comes after it and from which on every entry does.
pub proof fn lemma_insert_at(
    sorted: Seq<(String, UnprocessedVariableUpdateFn)>,
    entry: (String, UnprocessedVariableUpdateFn),
    place: int,
)
    requires
        0 <= place <= sorted.len(),
        forall|q: int| place <= q < sorted.len() ==> lex_less(entry.0@, (#[trigger] sorted[q]).0@),
        place == 0 || !lex_less(entry.0@, sorted[place - 1].0@),
    ensures
        insert_by_name(sorted, entry) == sorted.insert(place, entry),
    decreases sorted.len(),
{
    if place == sorted.len() {
        assert(sorted.push(entry) =~= sorted.insert(place, entry));
    } else {
        assert(lex_less(entry.0@, sorted[sorted.len() - 1].0@));
        let shorter = sorted.drop_last();
        assert forall|q: int| place <= q < shorter.len() implies lex_less(
            entry.0@,
            (#[trigger] shorter[q]).0@,
        ) by {
            assert(shorter[q] == sorted[q]);
        }
        if place > 0 {
            assert(shorter[place - 1] == sorted[place - 1]);
        }
        lemma_insert_at(shorter, entry, place);
        assert(shorter.insert(place, entry).push(sorted.last()) =~= sorted.insert(place, entry));
    }
}

/// Sorts the entries of a network by name.
pub fn sort_by_name(input: Vec<(String, UnprocessedVariableUpdateFn)>) -> (r: Vec<
    (String, UnprocessedVariableUpdateFn),
>)
    ensures
        r@ == sorted_model(input@),
{
    let ghost whole = input@;
    let mut rest = input;
    let mut sorted: Vec<(String, UnprocessedVariableUpdateFn)> = Vec::new();
    proof {
        assert(whole.subrange(whole.len() as int, whole.len() as int) =~= Seq::empty());
    }
    while rest.len() > 0
        invariant
            rest@ == whole.subrange(0, rest@.len() as int),
            rest@.len() <= whole.len(),
            sorted@ == sorted_model(whole.subrange(rest@.len() as int, whole.len() as int)),
        decreases rest@.len(),
    {
        let ghost m = rest@.len() - 1;
        let entry = rest.pop().unwrap();
        proof {
            assert(entry == whole[m]);
            let tail = whole.subrange(m, whole.len() as int);
            assert(tail.drop_first() =~= whole.subrange(m + 1, whole.len() as int));
            assert(tail[0] == whole[m]);
            assert(rest@ =~= whole.subrange(0, m));
        }
        let mut place: usize = sorted.len();
        while place > 0 && name_before(entry.0.as_str(), sorted[place - 1].0.as_str())
            invariant
                place <= sorted@.len(),
                forall|q: int|
                    place <= q < sorted@.len() ==> lex_less(entry.0@, (#[trigger] sorted@[q]).0@),
            decreases place,
        {
            place = place - 1;
        }
        proof {
            lemma_insert_at(sorted@, entry, place as int);
        }
        sorted.insert(place, entry);
    }
    proof {
        assert(whole.subrange(0, whole.len() as int) =~= whole);
    }
    sorted
}

/// No string comes before itself, and of two strings at most one comes
/// before the other.
pub proof fn lemma_lex_asymmetric(a: Seq<char>, b: Seq<char>)
    ensures
        !(lex_less(a, b) && lex_less(b, a)),
    decreases a.len(),
{
    if a.len() > 0 && b.len() > 0 && a[0] == b[0] {
        lemma_lex_asymmetric(a.drop_first(), b.drop_first());
    }
}

/// Of two different strings one comes before the other.
pub proof fn lemma_lex_total(a: Seq<char>, b: Seq<char>)
    ensures
        a == b || lex_less(a, b) || lex_less(b, a),
    decreases a.len(),
{
    if a.len() == 0 || b.len() == 0 {
        if a.len() == 0 && b.len() == 0 {
            assert(a =~= b);
        }
    } else if a[0] == b[0] {
        lemma_lex_total(a.drop_first(), b.drop_first());
        if a.drop_first() == b.drop_first() {
            assert(a.len() == b.len()) by {
                assert(a.drop_first().len() == a.len() - 1);
                assert(b.drop_first().len() == b.len() - 1);
            }
            assert forall|k: int| 0 <= k < a.len() implies a[k] == b[k] by {
                if k > 0 {
                    assert(a[k] == a.drop_first()[k - 1]);
                    assert(b[k] == b.drop_first()[k - 1]);
                }
            }
            assert(a =~= b);
        }
    } else {
        assert(a[0] as int != b[0] as int);
    }
}

/// What comes before a string comes before everything after that string.
pub proof fn lemma_lex_transitive(a: Seq<char>, b: Seq<char>, c: Seq<char>)
    requires
        lex_less(a, b),
        lex_less(b, c),
    ensures
        lex_less(a, c),
    decreases a.len(),
{
    if a.len() > 0 && b.len() > 0 && c.len() > 0 && a[0] == b[0] && b[0] == c[0] {
        lemma_lex_transitive(a.drop_first(), b.drop_first(), c.drop_first());
    }
}

/// A list whose names never fall: no entry comes before an earlier one.
pub open spec fn ordered(list: Seq<(String, UnprocessedVariableUpdateFn)>) -> bool {
    forall|i: int, j: int|
        0 <= i < j < list.len() ==> !lex_less((#[trigger] list[j]).0@, (#[trigger] list[i]).0@)
}

/// Both lists hold the same entries.
pub open spec fn same_entries(
    first: Seq<(String, UnprocessedVariableUpdateFn)>,
    second: Seq<(String, UnprocessedVariableUpdateFn)>,
) -> bool {
    &&& forall|i: int| 0 <= i < first.len() ==> second.contains(#[trigger] first[i])
    &&& forall|j: int| 0 <= j < second.len() ==> first.contains(#[trigger] second[j])
}

/// Inserting by name keeps a list in order, and adds the entry and
/// nothing else.
pub proof fn lemma_insert_ordered(
    sorted: Seq<(String, UnprocessedVariableUpdateFn)>,
    entry: (String, UnprocessedVariableUpdateFn),
)
    requires
        ordered(sorted),
    ensures
        ordered(insert_by_name(sorted, entry)),
        insert_by_name(sorted, entry).len() == sorted.len() + 1,
        insert_by_name(sorted, entry).contains(entry),
        forall|i: int|
            0 <= i < sorted.len() ==> insert_by_name(sorted, entry).contains(#[trigger] sorted[i]),
        forall|k: int|
            0 <= k < insert_by_name(sorted, entry).len() ==> (#[trigger] insert_by_name(
                sorted,
                entry,
            )[k]) == entry || sorted.contains(insert_by_name(sorted, entry)[k]),
    decreases sorted.len(),
{
    let result = insert_by_name(sorted, entry);
    if sorted.len() > 0 && lex_less(entry.0@, sorted.last().0@) {
        let shorter = sorted.drop_last();
        let last = sorted.last();
        assert forall|i: int, j: int| 0 <= i < j < shorter.len() implies !lex_less(
            (#[trigger] shorter[j]).0@,
            (#[trigger] shorter[i]).0@,
        ) by {
            assert(shorter[i] == sorted[i] && shorter[j] == sorted[j]);
        }
        lemma_insert_ordered(shorter, entry);
        let inner = insert_by_name(shorter, entry);
        assert(result == inner.push(last));
        assert forall|i: int, j: int| 0 <= i < j < result.len() implies !lex_less(
            (#[trigger] result[j]).0@,
            (#[trigger] result[i]).0@,
        ) by {
            if j == inner.len() {
                assert(result[i] == inner[i]);
                if inner[i] == entry {
                    lemma_lex_asymmetric(entry.0@, last.0@);
                } else {
                    assert(shorter.contains(inner[i]));
                    let k = choose|k: int| 0 <= k < shorter.len() && shorter[k] == inner[i];
                    assert(sorted[k] == inner[i]);
                    assert(!lex_less(sorted[sorted.len() - 1].0@, sorted[k].0@));
                }
            } else {
                assert(result[i] == inner[i] && result[j] == inner[j]);
            }
        }
        let at = choose|at: int| 0 <= at < inner.len() && inner[at] == entry;
        assert(result[at] == entry);
        assert forall|i: int| 0 <= i < sorted.len() implies result.contains(
            #[trigger] sorted[i],
        ) by {
            if i < shorter.len() {
                assert(inner.contains(shorter[i]));
                let k = choose|k: int| 0 <= k < inner.len() && inner[k] == shorter[i];
                assert(result[k] == sorted[i]);
            } else {
                assert(result[inner.len() as int] == sorted[i]);
            }
        }
        assert forall|k: int| 0 <= k < result.len() implies (#[trigger] result[k]) == entry
            || sorted.contains(result[k]) by {
            if k < inner.len() {
                assert(result[k] == inner[k]);
                if inner[k] != entry {
                    let q = choose|q: int| 0 <= q < shorter.len() && shorter[q] == inner[k];
                    assert(sorted[q] == result[k]);
                }
            } else {
                assert(sorted[sorted.len() - 1] == result[k]);
            }
        }
    } else {
        assert(result == sorted.push(entry));
        assert forall|i: int, j: int| 0 <= i < j < result.len() implies !lex_less(
            (#[trigger] result[j]).0@,
            (#[trigger] result[i]).0@,
        ) by {
            if j == sorted.len() {
                assert(result[i] == sorted[i]);
                let last = sorted.last();
                if lex_less(entry.0@, sorted[i].0@) {
                    lemma_lex_total(sorted[i].0@, last.0@);
                    if i < sorted.len() - 1 {
                        assert(!lex_less(sorted[sorted.len() - 1].0@, sorted[i].0@));
                    }
                    if lex_less(sorted[i].0@, last.0@) {
                        lemma_lex_transitive(entry.0@, sorted[i].0@, last.0@);
                    }
                }
            } else {
                assert(result[i] == sorted[i] && result[j] == sorted[j]);
            }
        }
        assert(result[sorted.len() as int] == entry);
        assert forall|i: int| 0 <= i < sorted.len() implies result.contains(
            #[trigger] sorted[i],
        ) by {
            assert(result[i] == sorted[i]);
        }
        assert forall|k: int| 0 <= k < result.len() implies (#[trigger] result[k]) == entry
            || sorted.contains(result[k]) by {
            if k < sorted.len() {
                assert(sorted[k] == result[k]);
            }
        }
    }
}

/// The sorted network holds the entries of the network, as many as the
/// network has, and its names never fall.
pub proof fn lemma_sorted_model(input: Seq<(String, UnprocessedVariableUpdateFn)>)
    ensures
        ordered(sorted_model(input)),
        sorted_model(input).len() == input.len(),
        same_entries(input, sorted_model(input)),
    decreases input.len(),
{
    if input.len() > 0 {
        let rest = input.drop_first();
        lemma_sorted_model(rest);
        let inner = sorted_model(rest);
        lemma_insert_ordered(inner, input[0]);
        let result = sorted_model(input);
        assert forall|i: int| 0 <= i < input.len() implies result.contains(#[trigger] input[i]) by {
            if i > 0 {
                assert(rest[i - 1] == input[i]);
                assert(inner.contains(rest[i - 1]));
                let k = choose|k: int| 0 <= k < inner.len() && inner[k] == input[i];
                assert(result.contains(inner[k]));
            }
        }
        assert forall|j: int| 0 <= j < result.len() implies input.contains(
            #[trigger] result[j],
        ) by {
            if result[j] == input[0] {
                assert(input[0] == result[j]);
            } else {
                assert(inner.contains(result[j]));
                let k = choose|k: int| 0 <= k < inner.len() && inner[k] == result[j];
                assert(rest.contains(inner[k]));
                let q = choose|q: int| 0 <= q < rest.len() && rest[q] == inner[k];
                assert(input[q + 1] == result[j]);
            }
        }
    }
}

} // verus!
