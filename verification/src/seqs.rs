//! Small reusable facts about sequences: distinctness of elements, and how
//! `contains` behaves under removal of one element.

use vstd::prelude::*;

verus! {

/// No element occurs twice.
pub open spec fn seq_unique<T>(s: Seq<T>) -> bool {
    forall|i: int, j: int| 0 <= i < j < s.len() ==> s[i] != s[j]
}

/// Membership after removing the element at index `i`: exactly the values
/// found at some other index.
pub proof fn lemma_remove_contains<T>(s: Seq<T>, i: int, x: T)
    requires
        0 <= i < s.len(),
    ensures
        s.remove(i).contains(x) <==> (exists|j: int|
            0 <= j < s.len() && j != i && s[j] == x),
{
    let r = s.remove(i);
    if r.contains(x) {
        let k = choose|k: int| 0 <= k < r.len() && r[k] == x;
        if k < i {
            assert(s[k] == x);
        } else {
            assert(s[k + 1] == x);
        }
    }
    if exists|j: int| 0 <= j < s.len() && j != i && s[j] == x {
        let j = choose|j: int| 0 <= j < s.len() && j != i && s[j] == x;
        if j < i {
            assert(r[j] == x);
        } else {
            assert(r[j - 1] == x);
        }
    }
}

/// How `filter` acts on a sequence extended by one element.
pub proof fn lemma_filter_push<T>(s: Seq<T>, pred: spec_fn(T) -> bool, x: T)
    ensures
        pred(x) ==> s.push(x).filter(pred) == s.filter(pred).push(x),
        !pred(x) ==> s.push(x).filter(pred) == s.filter(pred),
{
    reveal(Seq::filter);
    assert(s.push(x).drop_last() =~= s);
    assert(s.push(x).last() == x);
}

/// A sequence is a prefix of itself extended by one element.
pub proof fn lemma_prefix_push<T>(s: Seq<T>, x: T)
    ensures
        s.is_prefix_of(s.push(x)),
{
    assert(s =~= s.push(x).subrange(0, s.len() as int));
}

/// Being a prefix is transitive.
pub proof fn lemma_prefix_trans<T>(a: Seq<T>, b: Seq<T>, c: Seq<T>)
    requires
        a.is_prefix_of(b),
        b.is_prefix_of(c),
    ensures
        a.is_prefix_of(c),
{
    assert(a =~= c.subrange(0, a.len() as int)) by {
        assert forall|i: int| 0 <= i < a.len() implies a[i] == c.subrange(0, a.len() as int)[i] by {
            assert(a[i] == b.subrange(0, b.len() as int)[i]);
        }
    }
}

/// Removal keeps the remaining elements distinct.
pub proof fn lemma_remove_unique<T>(s: Seq<T>, i: int)
    requires
        0 <= i < s.len(),
        seq_unique(s),
    ensures
        seq_unique(s.remove(i)),
{
    let r = s.remove(i);
    assert forall|a: int, b: int| 0 <= a < b < r.len() implies r[a] != r[b] by {
        let sa: int = if a < i { a } else { a + 1 };
        let sb: int = if b < i { b } else { b + 1 };
        assert(r[a] == s[sa]);
        assert(r[b] == s[sb]);
    }
}

} // verus!
