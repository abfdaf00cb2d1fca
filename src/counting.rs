//! Counting facts over sequences, used to bound the work of the traversals.
use vstd::prelude::*;

verus! {

/// Number of `true` entries of `s`.
pub open spec fn count_true(s: Seq<bool>) -> nat
    decreases s.len(),
{
    if s.len() == 0 {
        0
    } else {
        count_true(s.drop_last()) + if s.last() {
            1nat
        } else {
            0nat
        }
    }
}

/// Number of entries of `s` that differ from `none`.
pub open spec fn count_set(s: Seq<usize>, none: usize) -> nat
    decreases s.len(),
{
    if s.len() == 0 {
        0
    } else {
        count_set(s.drop_last(), none) + if s.last() != none {
            1nat
        } else {
            0nat
        }
    }
}

/// At most every entry is `true`, and fewer when one is not.
pub proof fn lemma_count_true_bound(s: Seq<bool>)
    ensures
        count_true(s) <= s.len(),
        (exists|i: int| 0 <= i < s.len() && !s[i]) ==> count_true(s) < s.len(),
    decreases s.len(),
{
    if s.len() > 0 {
        lemma_count_true_bound(s.drop_last());
        if exists|i: int| 0 <= i < s.len() && !s[i] {
            let i = choose|i: int| 0 <= i < s.len() && !s[i];
            if i < s.len() - 1 {
                assert(!s.drop_last()[i]);
            }
        }
    }
}

/// Appending an entry adds it to the count.
pub proof fn lemma_count_true_push(s: Seq<bool>, b: bool)
    ensures
        count_true(s.push(b)) == count_true(s) + if b {
            1nat
        } else {
            0nat
        },
{
    assert(s.push(b).drop_last() =~= s);
}

/// Setting a `false` entry adds one.
pub proof fn lemma_count_true_set(s: Seq<bool>, i: int)
    requires
        0 <= i < s.len(),
        !s[i],
    ensures
        count_true(s.update(i, true)) == count_true(s) + 1,
    decreases s.len(),
{
    let t = s.update(i, true);
    if i == s.len() - 1 {
        assert(t.drop_last() =~= s.drop_last());
    } else {
        assert(t.drop_last() =~= s.drop_last().update(i, true));
        lemma_count_true_set(s.drop_last(), i);
    }
}

/// At most every entry is set, and fewer when one is not.
pub proof fn lemma_count_set_bound(s: Seq<usize>, none: usize)
    ensures
        count_set(s, none) <= s.len(),
        (exists|i: int| 0 <= i < s.len() && s[i] == none) ==> count_set(s, none) < s.len(),
    decreases s.len(),
{
    if s.len() > 0 {
        lemma_count_set_bound(s.drop_last(), none);
        if exists|i: int| 0 <= i < s.len() && s[i] == none {
            let i = choose|i: int| 0 <= i < s.len() && s[i] == none;
            if i < s.len() - 1 {
                assert(s.drop_last()[i] == none);
            }
        }
    }
}

/// Setting an unset entry adds one.
pub proof fn lemma_count_set_update(s: Seq<usize>, none: usize, i: int, v: usize)
    requires
        0 <= i < s.len(),
        s[i] == none,
        v != none,
    ensures
        count_set(s.update(i, v), none) == count_set(s, none) + 1,
    decreases s.len(),
{
    let t = s.update(i, v);
    if i == s.len() - 1 {
        assert(t.drop_last() =~= s.drop_last());
    } else {
        assert(t.drop_last() =~= s.drop_last().update(i, v));
        lemma_count_set_update(s.drop_last(), none, i, v);
    }
}

/// Appending an unset entry leaves the count.
pub proof fn lemma_count_set_push_none(s: Seq<usize>, none: usize)
    ensures
        count_set(s.push(none), none) == count_set(s, none),
{
    assert(s.push(none).drop_last() =~= s);
}

} // verus!
