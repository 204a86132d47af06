//! Adding up a row of numbers, wherever they stand in it.

use vstd::prelude::*;

verus! {

/// The numbers added up.
pub open spec fn sum(s: Seq<int>) -> int {
    s.fold_left(0, |total: int, n: int| total + n)
}

/// `n`, or zero where it is below.
pub open spec fn floored(n: int) -> int {
    if n > 0 {
        n
    } else {
        0
    }
}

/// A sum grows by what is added at the end of the row; that of nothing is zero, and that of one
/// number the number.
pub proof fn one_more_adds_to_the_sum(s: Seq<int>, n: int)
    ensures
        sum(s.push(n)) == sum(s) + n,
        sum(Seq::empty()) == 0,
        sum(seq![n]) == n,
{
    assert(s.push(n).drop_last() =~= s);
    let one = seq![n];
    assert(one.drop_last() =~= Seq::<int>::empty());
    reveal_with_fuel(Seq::fold_left, 2);
}

/// Two rows behind one another come to what they come to together.
pub proof fn sums_of_parts_add_up(a: Seq<int>, b: Seq<int>)
    ensures
        sum(a + b) == sum(a) + sum(b),
    decreases b.len(),
{
    one_more_adds_to_the_sum(a, 0);
    if b.len() == 0 {
        assert(a + b =~= a);
        assert(b =~= Seq::empty());
    } else {
        sums_of_parts_add_up(a, b.drop_last());
        one_more_adds_to_the_sum(a + b.drop_last(), b.last());
        one_more_adds_to_the_sum(b.drop_last(), b.last());
        assert((a + b.drop_last()).push(b.last()) =~= a + b);
        assert(b.drop_last().push(b.last()) =~= b);
    }
}

/// A number adds the same to the sum wherever in the row it stands.
pub proof fn a_number_counts_anywhere(s: Seq<int>, i: int, n: int)
    requires
        0 <= i <= s.len(),
    ensures
        sum(s.insert(i, n)) == sum(s) + n,
{
    let front = s.take(i);
    let back = s.skip(i);
    assert(s =~= front + back);
    assert(s.insert(i, n) =~= front.push(n) + back);
    sums_of_parts_add_up(front, back);
    sums_of_parts_add_up(front.push(n), back);
    one_more_adds_to_the_sum(front, n);
}

/// A row without a negative number comes to at least each of its numbers, and to zero just if all
/// of them are.
pub proof fn no_number_is_above_the_sum(s: Seq<int>)
    requires
        forall|i: int| 0 <= i < s.len() ==> #[trigger] s[i] >= 0,
    ensures
        sum(s) >= 0,
        forall|i: int| 0 <= i < s.len() ==> #[trigger] s[i] <= sum(s),
        sum(s) == 0 <==> forall|i: int| 0 <= i < s.len() ==> #[trigger] s[i] == 0,
    decreases s.len(),
{
    one_more_adds_to_the_sum(s, 0);
    if s.len() == 0 {
        assert(s =~= Seq::empty());
    } else {
        let shorter = s.drop_last();
        assert forall|i: int| 0 <= i < shorter.len() implies #[trigger] shorter[i] >= 0 by {
            assert(s[i] >= 0);
        }
        no_number_is_above_the_sum(shorter);
        one_more_adds_to_the_sum(shorter, s.last());
        assert(shorter.push(s.last()) =~= s);
        assert(s[s.len() - 1] >= 0);
        assert forall|i: int| 0 <= i < s.len() implies #[trigger] s[i] <= sum(s) by {
            if i < shorter.len() {
                assert(shorter[i] <= sum(shorter));
            }
        }
        if sum(s) == 0 {
            assert forall|i: int| 0 <= i < s.len() implies #[trigger] s[i] == 0 by {
                assert(s[i] >= 0 && s[i] <= sum(s));
            }
        } else {
            if forall|i: int| 0 <= i < s.len() ==> #[trigger] s[i] == 0 {
                assert forall|i: int| 0 <= i < shorter.len() implies #[trigger] shorter[i] == 0 by {
                    assert(s[i] == 0);
                }
                assert(s[s.len() - 1] == 0);
            }
        }
    }
}

/// What `f` makes of the elements, added up.
pub open spec fn total_of<A>(s: Seq<A>, f: spec_fn(A) -> int) -> int {
    sum(s.map_values(f))
}

/// One more element adds what `f` makes of it; no element adds nothing.
pub proof fn one_more_adds_to_the_total<A>(s: Seq<A>, f: spec_fn(A) -> int, x: A)
    ensures
        total_of(s.push(x), f) == total_of(s, f) + f(x),
        total_of(Seq::<A>::empty(), f) == 0,
{
    one_more_adds_to_the_sum(s.map_values(f), f(x));
    assert(s.push(x).map_values(f) =~= s.map_values(f).push(f(x)));
    assert(Seq::<A>::empty().map_values(f) =~= Seq::<int>::empty());
}

/// An element adds the same wherever in the row it stands.
pub proof fn an_element_counts_anywhere<A>(s: Seq<A>, f: spec_fn(A) -> int, i: int, x: A)
    requires
        0 <= i <= s.len(),
    ensures
        total_of(s.insert(i, x), f) == total_of(s, f) + f(x),
{
    a_number_counts_anywhere(s.map_values(f), i, f(x));
    assert(s.insert(i, x).map_values(f) =~= s.map_values(f).insert(i, f(x)));
}

} // verus!
