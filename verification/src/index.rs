//! Finding a number in a list of numbers.

use vstd::prelude::*;

verus! {

/// The first place of `s` that holds `x`, or -1 where none does.
pub open spec fn first_index_of(s: Seq<u64>, x: u64) -> int
    decreases s.len(),
{
    if s.len() == 0 {
        -1
    } else {
        let i = first_index_of(s.drop_last(), x);
        if i >= 0 {
            i
        } else if s.last() == x {
            s.len() - 1
        } else {
            -1
        }
    }
}

/// No number occurs twice.
pub open spec fn distinct(s: Seq<u64>) -> bool {
    forall|i: int, j: int| 0 <= i < j < s.len() ==> s[i] != s[j]
}

/// The first place of `x` lies within the list and holds `x`, and `x`
/// stands nowhere before it.
pub proof fn lemma_first_index_of(s: Seq<u64>, x: u64)
    ensures
        -1 <= first_index_of(s, x) < s.len(),
        first_index_of(s, x) >= 0 ==> s[first_index_of(s, x)] == x,
        forall|j: int| 0 <= j < s.len() && s[j] == x ==> 0 <= first_index_of(s, x) <= j,
    decreases s.len(),
{
    if s.len() > 0 {
        lemma_first_index_of(s.drop_last(), x);
        let i = first_index_of(s.drop_last(), x);
        if i >= 0 {
            assert(s.drop_last()[i] == s[i]);
        }
        assert forall|j: int| 0 <= j < s.len() && s[j] == x implies 0 <= first_index_of(s, x)
            <= j by {
            if j < s.len() - 1 {
                assert(s.drop_last()[j] == x);
            }
        }
    }
}

/// The place of `x` is `i` where `s[i]` is `x` and nothing before it is.
pub proof fn lemma_first_index_is(s: Seq<u64>, x: u64, i: int)
    requires
        0 <= i < s.len(),
        s[i] == x,
        forall|j: int| 0 <= j < i ==> s[j] != x,
    ensures
        first_index_of(s, x) == i,
{
    lemma_first_index_of(s, x);
}

/// `x` has no place where nothing in `s` is `x`.
pub proof fn lemma_first_index_none(s: Seq<u64>, x: u64)
    requires
        forall|j: int| 0 <= j < s.len() ==> s[j] != x,
    ensures
        first_index_of(s, x) == -1,
{
    lemma_first_index_of(s, x);
}

/// The first place of `c` in a list with one more number.
pub proof fn lemma_first_index_push(keys: Seq<u64>, x: u64, c: u64)
    ensures
        first_index_of(keys.push(x), c) == if first_index_of(keys, c) >= 0 {
            first_index_of(keys, c)
        } else if x == c {
            keys.len() as int
        } else {
            -1
        },
{
    assert(keys.push(x).drop_last() =~= keys);
}

/// Among the first `n` numbers of a list without repetition, `x` has the
/// place that it has in the list, where that is one of the first `n`.
pub proof fn lemma_first_index_below(s: Seq<u64>, n: int, x: u64)
    requires
        0 <= n <= s.len(),
    ensures
        first_index_of(s.take(n), x) == if 0 <= first_index_of(s, x) < n {
            first_index_of(s, x)
        } else {
            -1
        },
{
    lemma_first_index_of(s, x);
    lemma_first_index_of(s.take(n), x);
    let i = first_index_of(s.take(n), x);
    let k = first_index_of(s, x);
    if i >= 0 {
        assert(s.take(n)[i] == s[i]);
        assert(s.take(n)[k] == x);
    } else if 0 <= k < n {
        assert(s.take(n)[k] == x);
    }
}

/// In a list without repetition, the place of `s[i]` is `i`.
pub proof fn lemma_first_index_of_distinct(s: Seq<u64>, i: int)
    requires
        distinct(s),
        0 <= i < s.len(),
    ensures
        first_index_of(s, s[i]) == i,
{
    lemma_first_index_of(s, s[i]);
}

/// The first place of `v` that holds `x`.
pub fn find_u64(v: &Vec<u64>, x: u64) -> (r: Option<usize>)
    ensures
        match r {
            Some(i) => i as int == first_index_of(v@, x),
            None => first_index_of(v@, x) == -1,
        },
{
    let mut i: usize = 0;
    while i < v.len()
        invariant
            i <= v.len(),
            forall|k: int| 0 <= k < i ==> v[k] != x,
        decreases v.len() - i,
    {
        if v[i] == x {
            proof {
                lemma_first_index_is(v@, x, i as int);
            }
            return Some(i);
        }
        i += 1;
    }
    proof {
        lemma_first_index_none(v@, x);
    }
    None
}

} // verus!
