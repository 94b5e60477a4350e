//! Mathematical model behind coin selection: total values of input
//! sequences, powers of two for the search budget, and existence of an
//! exact-sum subset among a collection of inputs.

use vstd::prelude::*;
use vstd::multiset::Multiset;

use crate::branch_and_bound::OutPointValue;

verus! {

/// Total value carried by a sequence of inputs.
pub open spec fn sum_values(s: Seq<OutPointValue>) -> int
    decreases s.len(),
{
    if s.len() == 0 {
        0
    } else {
        s[0].1 + sum_values(s.skip(1))
    }
}

/// 2^n, the number of leaves of a complete binary decision tree of height n.
pub open spec fn two_to_the(n: nat) -> nat
    decreases n,
{
    if n == 0 {
        1nat
    } else {
        2 * two_to_the((n - 1) as nat)
    }
}

/// There is a sub-collection of `s` (order irrelevant) whose values sum to
/// exactly `need`.
pub open spec fn exists_exact(s: Seq<OutPointValue>, need: int) -> bool {
    exists|w: Seq<OutPointValue>|
        #[trigger] w.to_multiset().subset_of(s.to_multiset()) && sum_values(w) == need
}

/// Input values never increase along the sequence.
pub open spec fn sorted_descending(s: Seq<OutPointValue>) -> bool {
    forall|i: int, j: int| 0 <= i <= j < s.len() ==> s[i].1 >= s[j].1
}

pub proof fn lemma_two_to_the_pos(n: nat)
    ensures
        two_to_the(n) >= 1,
    decreases n,
{
    if n > 0 {
        lemma_two_to_the_pos((n - 1) as nat);
    }
}

pub proof fn lemma_sum_concat(a: Seq<OutPointValue>, b: Seq<OutPointValue>)
    ensures
        sum_values(a + b) == sum_values(a) + sum_values(b),
    decreases a.len(),
{
    if a.len() == 0 {
        assert(a + b =~= b);
    } else {
        assert((a + b).skip(1) =~= a.skip(1) + b);
        lemma_sum_concat(a.skip(1), b);
    }
}

pub proof fn lemma_sum_nonneg(s: Seq<OutPointValue>)
    ensures
        sum_values(s) >= 0,
    decreases s.len(),
{
    if s.len() > 0 {
        lemma_sum_nonneg(s.skip(1));
    }
}

/// Peeling one element off the front of a suffix.
pub proof fn lemma_sum_skip_index(s: Seq<OutPointValue>, i: int)
    requires
        0 <= i < s.len(),
    ensures
        sum_values(s.skip(i)) == s[i].1 + sum_values(s.skip(i + 1)),
{
    assert(s.skip(i).skip(1) =~= s.skip(i + 1));
    assert(sum_values(s.skip(i)) == s.skip(i)[0].1 + sum_values(s.skip(i).skip(1)));
}

pub proof fn lemma_sum_push(s: Seq<OutPointValue>, x: OutPointValue)
    ensures
        sum_values(s.push(x)) == sum_values(s) + x.1,
{
    assert(s.push(x) =~= s + seq![x]);
    lemma_sum_concat(s, seq![x]);
    lemma_sum_singleton(x);
}

pub proof fn lemma_sum_singleton(x: OutPointValue)
    ensures
        sum_values(seq![x]) == x.1,
{
    assert(seq![x].skip(1) =~= Seq::<OutPointValue>::empty());
    assert(sum_values(Seq::<OutPointValue>::empty()) == 0);
    assert(sum_values(seq![x]) == seq![x][0].1 + sum_values(seq![x].skip(1)));
}

pub proof fn lemma_sum_take_step(s: Seq<OutPointValue>, i: int)
    requires
        0 <= i < s.len(),
    ensures
        sum_values(s.take(i + 1)) == sum_values(s.take(i)) + s[i].1,
{
    assert(s.take(i + 1) =~= s.take(i).push(s[i]));
    lemma_sum_push(s.take(i), s[i]);
}

/// Removing the element at index `i` removes exactly its value from the sum.
pub proof fn lemma_sum_remove(s: Seq<OutPointValue>, i: int)
    requires
        0 <= i < s.len(),
    ensures
        sum_values(s.remove(i)) == sum_values(s) - s[i].1,
{
    let left = s.subrange(0, i);
    let right = s.subrange(i + 1, s.len() as int);
    lemma_sum_concat(left, right);
    assert(s =~= left + (seq![s[i]] + right));
    lemma_sum_concat(left, seq![s[i]] + right);
    lemma_sum_concat(seq![s[i]], right);
    lemma_sum_singleton(s[i]);
    assert(s.remove(i) == left + right);
}

/// Two sequences holding the same inputs (as a multiset) have the same sum.
pub proof fn lemma_sum_permutation(a: Seq<OutPointValue>, b: Seq<OutPointValue>)
    requires
        a.to_multiset() == b.to_multiset(),
    ensures
        sum_values(a) == sum_values(b),
    decreases a.len(),
{
    broadcast use vstd::seq_lib::group_to_multiset_ensures;
    broadcast use vstd::multiset::group_multiset_axioms;

    if a.len() == 0 {
        assert(b.to_multiset().len() == 0);
    } else {
        let x = a[0];
        assert(a.contains(x));
        assert(b.to_multiset().count(x) > 0);
        assert(b.contains(x));
        let j = choose|j: int| 0 <= j < b.len() && b[j] == x;
        assert(a.remove(0).to_multiset() == a.to_multiset().remove(x));
        assert(b.remove(j).to_multiset() == b.to_multiset().remove(x));
        lemma_sum_permutation(a.remove(0), b.remove(j));
        lemma_sum_remove(a, 0);
        lemma_sum_remove(b, j);
    }
}

pub proof fn lemma_to_multiset_singleton(x: OutPointValue)
    ensures
        seq![x].to_multiset() =~= Multiset::<OutPointValue>::empty().insert(x),
{
    broadcast use vstd::multiset::group_multiset_axioms;

    assert(seq![x] =~= Seq::<OutPointValue>::empty().push(x));
    vstd::seq_lib::to_multiset_build(Seq::<OutPointValue>::empty(), x);
    vstd::seq_lib::to_multiset_len(Seq::<OutPointValue>::empty());
    vstd::multiset::lemma_multiset_empty_len(Seq::<OutPointValue>::empty().to_multiset());
}

/// The suffix from `i` holds `s[i]` once more than the suffix from `i + 1`.
pub proof fn lemma_to_multiset_skip_step(s: Seq<OutPointValue>, i: int)
    requires
        0 <= i < s.len(),
    ensures
        s.skip(i).to_multiset() =~= s.skip(i + 1).to_multiset().insert(s[i]),
{
    broadcast use vstd::multiset::group_multiset_axioms;

    assert(s.skip(i) =~= seq![s[i]] + s.skip(i + 1));
    vstd::seq_lib::lemma_multiset_commutative(seq![s[i]], s.skip(i + 1));
    lemma_to_multiset_singleton(s[i]);
}

/// A prefix of a sequence holds a sub-multiset of its inputs.
pub proof fn lemma_to_multiset_take_subset(s: Seq<OutPointValue>, k: int)
    requires
        0 <= k <= s.len(),
    ensures
        s.take(k).to_multiset().subset_of(s.to_multiset()),
{
    broadcast use vstd::multiset::group_multiset_axioms;

    assert(s =~= s.take(k) + s.skip(k));
    vstd::seq_lib::lemma_multiset_commutative(s.take(k), s.skip(k));
}

/// An empty sequence's contents sit inside any multiset.
pub proof fn lemma_to_multiset_empty_subset(s: Seq<OutPointValue>, m: Multiset<OutPointValue>)
    requires
        s.len() == 0,
    ensures
        s.to_multiset().subset_of(m),
{
    broadcast use vstd::multiset::group_multiset_axioms;

    vstd::seq_lib::to_multiset_len(s);
    vstd::multiset::lemma_multiset_empty_len(s.to_multiset());
}

/// Taking one copy of each of `b`'s elements back out of `a + b` leaves `a`.
pub proof fn lemma_multiset_add_sub(a: Multiset<OutPointValue>, b: Multiset<OutPointValue>)
    ensures
        a.add(b) =~= b.add(a),
        a.add(b).sub(b) =~= a,
        b.add(a).sub(b) =~= a,
        b.subset_of(a.add(b)),
{
    broadcast use vstd::multiset::group_multiset_axioms;
}

/// Inserting the same input on both sides preserves multiset inclusion,
/// as does inserting on the larger side alone.
pub proof fn lemma_multiset_subset_insert(
    m1: Multiset<OutPointValue>,
    m2: Multiset<OutPointValue>,
    x: OutPointValue,
)
    requires
        m1.subset_of(m2),
    ensures
        m1.subset_of(m2.insert(x)),
        m1.insert(x).subset_of(m2.insert(x)),
{
    broadcast use vstd::multiset::group_multiset_axioms;
}

pub proof fn lemma_exists_exact_nonneg(s: Seq<OutPointValue>, need: int)
    requires
        exists_exact(s, need),
    ensures
        need >= 0,
{
    let w = choose|w: Seq<OutPointValue>|
        #[trigger] w.to_multiset().subset_of(s.to_multiset()) && sum_values(w) == need;
    lemma_sum_nonneg(w);
}

/// Out of an empty collection only the empty sum can be formed.
pub proof fn lemma_exists_exact_empty(s: Seq<OutPointValue>, need: int)
    requires
        s.len() == 0,
        exists_exact(s, need),
    ensures
        need == 0,
{
    broadcast use vstd::seq_lib::group_to_multiset_ensures;
    broadcast use vstd::multiset::group_multiset_axioms;

    let w = choose|w: Seq<OutPointValue>|
        #[trigger] w.to_multiset().subset_of(s.to_multiset()) && sum_values(w) == need;
    assert(forall|x: OutPointValue| s.to_multiset().count(x) == 0) by {
        assert(forall|x: OutPointValue| !s.contains(x));
    }
    assert(w.to_multiset() =~= Multiset::<OutPointValue>::empty());
    assert(w.to_multiset().len() == 0);
    assert(w.len() == 0);
}

/// An exact subset of `s` either uses the first element of `s` or it does
/// not; either way the rest of it is an exact subset of the remainder.
pub proof fn lemma_exists_exact_step(s: Seq<OutPointValue>, need: int)
    requires
        s.len() > 0,
        exists_exact(s, need),
    ensures
        exists_exact(s.skip(1), need - s[0].1) || exists_exact(s.skip(1), need),
{
    broadcast use vstd::seq_lib::group_to_multiset_ensures;
    broadcast use vstd::multiset::group_multiset_axioms;

    let w = choose|w: Seq<OutPointValue>|
        #[trigger] w.to_multiset().subset_of(s.to_multiset()) && sum_values(w) == need;
    let x = s[0];
    let rest = s.skip(1);
    assert(s =~= seq![x] + rest);
    vstd::seq_lib::lemma_multiset_commutative(seq![x], rest);
    assert(seq![x] =~= Seq::<OutPointValue>::empty().push(x));
    assert(seq![x].to_multiset() =~= Multiset::<OutPointValue>::empty().insert(x));
    assert(s.to_multiset() =~= rest.to_multiset().insert(x));

    if w.to_multiset().count(x) > 0 {
        assert(w.contains(x));
        let i = choose|i: int| 0 <= i < w.len() && w[i] == x;
        let w2 = w.remove(i);
        assert(w2.to_multiset() == w.to_multiset().remove(x));
        lemma_sum_remove(w, i);
        assert(w2.to_multiset().subset_of(rest.to_multiset())) by {
            assert(forall|y: OutPointValue|
                #[trigger] w2.to_multiset().count(y) <= rest.to_multiset().count(y)) by {
                assert(forall|y: OutPointValue| #[trigger] w.to_multiset().count(y)
                    <= rest.to_multiset().insert(x).count(y));
            }
        }
        assert(sum_values(w2) == need - x.1);
        assert(exists_exact(s.skip(1), need - s[0].1));
    } else {
        assert(w.to_multiset().subset_of(rest.to_multiset())) by {
            assert(forall|y: OutPointValue|
                #[trigger] w.to_multiset().count(y) <= rest.to_multiset().count(y)) by {
                assert(forall|y: OutPointValue| #[trigger] w.to_multiset().count(y)
                    <= rest.to_multiset().insert(x).count(y));
            }
        }
        assert(exists_exact(s.skip(1), need));
    }
}

/// Whether an exact subset exists depends only on the inputs as a multiset,
/// not on their order.
pub proof fn lemma_exists_exact_permutation(a: Seq<OutPointValue>, b: Seq<OutPointValue>, need: int)
    requires
        a.to_multiset() == b.to_multiset(),
    ensures
        exists_exact(a, need) == exists_exact(b, need),
{
    if exists_exact(a, need) {
        let w = choose|w: Seq<OutPointValue>|
            #[trigger] w.to_multiset().subset_of(a.to_multiset()) && sum_values(w) == need;
        assert(w.to_multiset().subset_of(b.to_multiset()));
        assert(exists_exact(b, need));
    }
    if exists_exact(b, need) {
        let w = choose|w: Seq<OutPointValue>|
            #[trigger] w.to_multiset().subset_of(b.to_multiset()) && sum_values(w) == need;
        assert(w.to_multiset().subset_of(a.to_multiset()));
        assert(exists_exact(a, need));
    }
}

} // verus!
