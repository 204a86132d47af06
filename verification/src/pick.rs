//! Picking the greatest of a row of numbers.

use vstd::prelude::*;

verus! {

/// The position of the greatest number, the first of equals; zero where there is none.
pub open spec fn first_max(s: Seq<int>) -> int
    decreases s.len(),
{
    if s.len() <= 1 {
        0
    } else {
        let earlier = first_max(s.drop_last());
        if s.last() > s[earlier] {
            s.len() - 1
        } else {
            earlier
        }
    }
}

/// The position of the greatest number, the last of equals; zero where there is none.
pub open spec fn last_max(s: Seq<int>) -> int
    decreases s.len(),
{
    if s.len() <= 1 {
        0
    } else {
        let earlier = last_max(s.drop_last());
        if s.last() >= s[earlier] {
            s.len() - 1
        } else {
            earlier
        }
    }
}

/// No number is greater than the one at the position, and none before it is as great.
pub proof fn first_max_is_greatest(s: Seq<int>)
    requires
        s.len() > 0,
    ensures
        0 <= first_max(s) < s.len(),
        forall|i: int| 0 <= i < s.len() ==> #[trigger] s[i] <= s[first_max(s)],
        forall|i: int| 0 <= i < first_max(s) ==> #[trigger] s[i] < s[first_max(s)],
    decreases s.len(),
{
    if s.len() > 1 {
        let shorter = s.drop_last();
        first_max_is_greatest(shorter);
        assert forall|i: int| 0 <= i < s.len() implies #[trigger] s[i] <= s[first_max(s)] by {
            if i < s.len() - 1 {
                assert(shorter[i] <= shorter[first_max(shorter)]);
            }
        }
        assert forall|i: int| 0 <= i < first_max(s) implies #[trigger] s[i] < s[first_max(s)] by {
            assert(shorter[i] <= shorter[first_max(shorter)]);
        }
    }
}

/// No number is greater than the one at the position, and none behind it is as great.
pub proof fn last_max_is_greatest(s: Seq<int>)
    requires
        s.len() > 0,
    ensures
        0 <= last_max(s) < s.len(),
        forall|i: int| 0 <= i < s.len() ==> #[trigger] s[i] <= s[last_max(s)],
        forall|i: int| last_max(s) < i < s.len() ==> #[trigger] s[i] < s[last_max(s)],
    decreases s.len(),
{
    if s.len() > 1 {
        let shorter = s.drop_last();
        last_max_is_greatest(shorter);
        assert forall|i: int| 0 <= i < s.len() implies #[trigger] s[i] <= s[last_max(s)] by {
            if i < s.len() - 1 {
                assert(shorter[i] <= shorter[last_max(shorter)]);
            }
        }
        assert forall|i: int| last_max(s) < i < s.len() implies #[trigger] s[i] < s[last_max(s)] by {
            if i < s.len() - 1 {
                assert(shorter[i] < shorter[last_max(shorter)]);
            }
        }
    }
}

/// The numbers of `s`.
pub open spec fn ints(s: Seq<i32>) -> Seq<int> {
    Seq::new(s.len(), |i: int| s[i] as int)
}

/// The position of the greatest number, the first of equals; zero where there is none.
pub fn first_max_of(v: &Vec<i32>) -> (r: usize)
    ensures
        r == first_max(ints(v@)),
        v@.len() > 0 ==> r < v@.len(),
{
    if v.len() == 0 {
        return 0;
    }
    let mut best: usize = 0;
    let mut i: usize = 1;
    while i < v.len()
        invariant
            1 <= i <= v@.len(),
            best < i,
            best == first_max(ints(v@).take(i as int)),
        decreases v@.len() - i,
    {
        let ghost longer = ints(v@).take(i + 1);
        assert(longer.drop_last() =~= ints(v@).take(i as int));
        if v[i] > v[best] {
            best = i;
        }
        i = i + 1;
    }
    assert(ints(v@).take(i as int) =~= ints(v@));
    best
}

} // verus!
