//! Sequence and multiset facts the batch pipeline's proofs lean on.

use vstd::prelude::*;
use vstd::seq_lib::lemma_flatten_concat;
use vstd::seq_lib::lemma_multiset_commutative;
use vstd::seq_lib::to_multiset_build;
use vstd::seq_lib::to_multiset_remove;

verus! {

/// Filtering a sequence extended by one element keeps the old selection and
/// appends the new element exactly when it satisfies the predicate.
pub proof fn lemma_filter_push<A>(s: Seq<A>, p: spec_fn(A) -> bool, x: A)
    ensures
        s.push(x).filter(p) == if p(x) {
            s.filter(p).push(x)
        } else {
            s.filter(p)
        },
{
    reveal(Seq::filter);
    assert(s.push(x).drop_last() =~= s);
    assert(s.push(x).last() == x);
}

/// Appending one element to one inner sequence inserts exactly that element
/// into the multiset of the flattened whole.
pub proof fn lemma_flatten_update_push<A>(ss: Seq<Seq<A>>, j: int, x: A)
    requires
        0 <= j < ss.len(),
    ensures
        ss.update(j, ss[j].push(x)).flatten().to_multiset() == ss.flatten().to_multiset().insert(
            x,
        ),
{
    let a = ss.subrange(0, j);
    let m = seq![ss[j]];
    let m2 = seq![ss[j].push(x)];
    let b = ss.subrange(j + 1, ss.len() as int);
    assert(ss =~= (a + m) + b);
    assert(ss.update(j, ss[j].push(x)) =~= (a + m2) + b);
    lemma_flatten_concat(a + m, b);
    lemma_flatten_concat(a, m);
    lemma_flatten_concat(a + m2, b);
    lemma_flatten_concat(a, m2);
    m.lemma_flatten_one_element();
    m2.lemma_flatten_one_element();
    assert(ss.flatten() == (a.flatten() + ss[j]) + b.flatten());
    assert(ss.update(j, ss[j].push(x)).flatten() == (a.flatten() + ss[j].push(x)) + b.flatten());
    lemma_multiset_commutative(a.flatten() + ss[j], b.flatten());
    lemma_multiset_commutative(a.flatten(), ss[j]);
    lemma_multiset_commutative(a.flatten() + ss[j].push(x), b.flatten());
    lemma_multiset_commutative(a.flatten(), ss[j].push(x));
    to_multiset_build(ss[j], x);
    assert(ss.update(j, ss[j].push(x)).flatten().to_multiset() =~= ss.flatten().to_multiset().insert(
        x,
    ));
}

/// Sequences equal as multisets stay equal as multisets under a pointwise map.
pub proof fn lemma_to_multiset_map<A, B>(s1: Seq<A>, s2: Seq<A>, f: spec_fn(A) -> B)
    requires
        s1.to_multiset() == s2.to_multiset(),
    ensures
        s1.map_values(f).to_multiset() == s2.map_values(f).to_multiset(),
    decreases s1.len(),
{
    broadcast use vstd::seq_lib::group_to_multiset_ensures;

    if s1.len() == 0 {
        assert(s1.to_multiset().len() == 0);
        assert(s2.to_multiset().len() == s2.len());
        assert(s2.len() == 0);
        assert(s1.map_values(f) =~= s2.map_values(f));
    } else {
        let x = s1.last();
        let d1 = s1.drop_last();
        assert(d1.push(x) =~= s1);
        to_multiset_build(d1, x);
        assert(s1.to_multiset().count(x) > 0);
        assert(s2.to_multiset().count(x) > 0);
        assert(s2.contains(x));
        let i = choose|i: int| 0 <= i < s2.len() && s2[i] == x;
        to_multiset_remove(s2, i);
        assert(d1.to_multiset() =~= s2.remove(i).to_multiset());
        lemma_to_multiset_map(d1, s2.remove(i), f);
        assert(s1.map_values(f) =~= d1.map_values(f).push(f(x)));
        to_multiset_build(d1.map_values(f), f(x));
        assert(s2.remove(i).map_values(f) =~= s2.map_values(f).remove(i));
        to_multiset_remove(s2.map_values(f), i);
        assert(s2.map_values(f)[i] == f(x));
        assert(s1.map_values(f).to_multiset() =~= s2.map_values(f).to_multiset());
    }
}

/// An element occurs in a flattened sequence exactly when some inner sequence
/// holds it.
pub proof fn lemma_flatten_contains<A>(ss: Seq<Seq<A>>, x: A)
    ensures
        ss.flatten().contains(x) <==> exists|j: int|
            0 <= j < ss.len() && (#[trigger] ss[j]).contains(x),
    decreases ss.len(),
{
    if ss.len() == 0 {
    } else {
        lemma_flatten_contains(ss.drop_first(), x);
        assert(ss.flatten() == ss.first() + ss.drop_first().flatten());
        if ss.flatten().contains(x) {
            let i = choose|i: int| 0 <= i < ss.flatten().len() && ss.flatten()[i] == x;
            if i < ss.first().len() {
                assert(ss[0].contains(x));
            } else {
                assert(ss.drop_first().flatten().contains(x));
                let j = choose|j: int|
                    0 <= j < ss.drop_first().len() && (#[trigger] ss.drop_first()[j]).contains(x);
                assert(ss[j + 1].contains(x));
            }
        }
        if exists|j: int| 0 <= j < ss.len() && (#[trigger] ss[j]).contains(x) {
            let j = choose|j: int| 0 <= j < ss.len() && (#[trigger] ss[j]).contains(x);
            if j == 0 {
                let i = choose|i: int| 0 <= i < ss[0].len() && ss[0][i] == x;
                assert(ss.flatten()[i] == x);
            } else {
                assert(ss.drop_first()[j - 1].contains(x));
                assert(ss.drop_first().flatten().contains(x));
                let i = choose|i: int|
                    0 <= i < ss.drop_first().flatten().len() && ss.drop_first().flatten()[i] == x;
                assert(ss.flatten()[ss.first().len() + i] == x);
            }
        }
    }
}

} // verus!
