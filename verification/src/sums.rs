//! Sums over sequences, used to bound the sizes of tables before they are built.
use vstd::prelude::*;

verus! {

/// The sum of `f` over the elements of `s`.
pub open spec fn sum_by<T>(s: Seq<T>, f: spec_fn(T) -> int) -> int
    decreases s.len(),
{
    if s.len() == 0 {
        0
    } else {
        sum_by(s.drop_last(), f) + f(s.last())
    }
}

pub proof fn lemma_sum_push<T>(s: Seq<T>, x: T, f: spec_fn(T) -> int)
    ensures
        sum_by(s.push(x), f) == sum_by(s, f) + f(x),
{
    assert(s.push(x).drop_last() =~= s);
}

pub proof fn lemma_sum_update<T>(s: Seq<T>, i: int, x: T, f: spec_fn(T) -> int)
    requires
        0 <= i < s.len(),
    ensures
        sum_by(s.update(i, x), f) == sum_by(s, f) - f(s[i]) + f(x),
    decreases s.len(),
{
    if i == s.len() - 1 {
        assert(s.update(i, x).drop_last() =~= s.drop_last());
    } else {
        lemma_sum_update(s.drop_last(), i, x, f);
        assert(s.update(i, x).drop_last() =~= s.drop_last().update(i, x));
    }
}

/// The sum over a prefix is no larger than the sum over the whole.
pub proof fn lemma_sum_prefix<T>(s: Seq<T>, n: int, f: spec_fn(T) -> int)
    requires
        0 <= n <= s.len(),
        forall|i: int| 0 <= i < s.len() ==> f(#[trigger] s[i]) >= 0,
    ensures
        0 <= sum_by(s.take(n), f) <= sum_by(s, f),
    decreases s.len() + n,
{
    if n < s.len() {
        lemma_sum_prefix(s.drop_last(), n, f);
        assert(s.drop_last().take(n) =~= s.take(n));
        assert(s.last() == s[s.len() - 1]);
    } else if n > 0 {
        assert(s.take(n) =~= s);
        assert forall|i: int| 0 <= i < s.drop_last().len() implies f(
            #[trigger] s.drop_last()[i],
        ) >= 0 by {
            assert(s.drop_last()[i] == s[i]);
        }
        lemma_sum_prefix(s.drop_last(), n - 1, f);
        assert(s.drop_last().take(n - 1) =~= s.drop_last());
        assert(s.last() == s[s.len() - 1]);
    }
}

} // verus!
