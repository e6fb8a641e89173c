//! The best of a sequence of numbers, and numbers put in order.

use vstd::prelude::*;

use crate::float_bits::Real;

verus! {

/// `i` is where a scan from the left ends up that moves on only to a strictly larger number.
///
/// A scan that starts on an encoding that is no number never moves. Otherwise it ends on the
/// first of the largest numbers.
pub open spec fn is_first_best<T: Real>(s: Seq<T>, i: int) -> bool {
    &&& 0 <= i < s.len()
    &&& if s[0].nan() {
        i == 0
    } else {
        &&& !s[i].nan()
        &&& forall|j: int|
            0 <= j < s.len() && !(#[trigger] s[j]).nan() ==> s[j].value() <= s[i].value()
        &&& forall|j: int| 0 <= j < i && !(#[trigger] s[j]).nan() ==> s[j].value() < s[i].value()
    }
}

/// There is one place at most where the scan can end.
pub proof fn law_first_best_unique<T: Real>(s: Seq<T>, i: int, j: int)
    requires
        is_first_best(s, i),
        is_first_best(s, j),
    ensures
        i == j,
{
    if !s[0].nan() {
        assert(s[i].value() <= s[j].value());
        assert(s[j].value() <= s[i].value());
    }
}

/// The position at which a scan for the largest number ends.
pub fn first_best<T: Real>(values: &Vec<T>) -> (best: usize)
    requires
        values.len() > 0,
    ensures
        is_first_best(values@, best as int),
{
    let mut best: usize = 0;
    let mut i: usize = 1;
    while i < values.len()
        invariant
            1 <= i <= values.len(),
            is_first_best(values@.take(i as int), best as int),
        decreases values.len() - i,
    {
        let ghost seen = values@.take(i as int);
        let ghost next = values@.take(i + 1);
        proof {
            assert(forall|j: int| 0 <= j < i ==> seen[j] == next[j]);
        }
        if values[i].exceeds(values[best]) {
            best = i;
        }
        i += 1;
    }
    proof {
        assert(values@.take(values.len() as int) =~= values@);
    }
    best
}

/// `x` put behind everything in `s` that is not larger, where `s` is in order.
pub open spec fn insert_in_order<T: Real>(s: Seq<T>, x: T) -> Seq<T>
    decreases s.len(),
{
    if s.len() == 0 || s.last().value() <= x.value() {
        s.push(x)
    } else {
        insert_in_order(s.drop_last(), x).push(s.last())
    }
}

/// The elements of `s` from the smallest to the largest, equal ones in their original order.
pub open spec fn in_order<T: Real>(s: Seq<T>) -> Seq<T>
    decreases s.len(),
{
    if s.len() == 0 {
        s
    } else {
        insert_in_order(in_order(s.drop_last()), s.last())
    }
}

/// No element is larger than one behind it.
pub open spec fn ascending<T: Real>(s: Seq<T>) -> bool {
    forall|i: int, j: int|
        0 <= i <= j < s.len() ==> (#[trigger] s[i]).value() <= (#[trigger] s[j]).value()
}

/// The elements of `s` that equal `value`, in their order.
pub open spec fn equal_to<T: Real>(s: Seq<T>, value: int) -> Seq<T> {
    s.filter(|x: T| x.value() == value)
}

proof fn lemma_insert_in_order<T: Real>(s: Seq<T>, x: T)
    requires
        ascending(s),
    ensures
        insert_in_order(s, x).len() == s.len() + 1,
        ascending(insert_in_order(s, x)),
        insert_in_order(s, x).to_multiset() =~= s.to_multiset().insert(x),
        forall|i: int| 0 <= i <= s.len() ==> (#[trigger] insert_in_order(s, x)[i]).value()
            <= x.value() || (s.len() > 0 && insert_in_order(s, x)[i].value() <= s.last().value()),
        forall|v: int| #[trigger] equal_to(insert_in_order(s, x), v) == equal_to(s.push(x), v),
    decreases s.len(),
{
    broadcast use vstd::seq_lib::group_to_multiset_ensures;

    let r = insert_in_order(s, x);
    if s.len() == 0 || s.last().value() <= x.value() {
        assert forall|i: int, j: int| 0 <= i <= j < r.len() implies (#[trigger] r[i]).value() <= (
        #[trigger] r[j]).value() by {
            if j == s.len() && i < j {
                assert(s[i].value() <= s[s.len() - 1].value());
            }
        }
    } else {
        let front = s.drop_last();
        let last = s.last();
        let below = insert_in_order(front, x);
        lemma_insert_in_order(front, x);
        assert forall|i: int, j: int| 0 <= i <= j < r.len() implies (#[trigger] r[i]).value() <= (
        #[trigger] r[j]).value() by {
            if j == r.len() - 1 && i < j {
                assert(r[i] == below[i]);
                if front.len() > 0 {
                    assert(front.last() == s[s.len() - 2]);
                    assert(s[s.len() - 2].value() <= s[s.len() - 1].value());
                }
            } else if j < r.len() - 1 {
                assert(r[i] == below[i] && r[j] == below[j]);
            }
        }
        assert forall|i: int| 0 <= i <= s.len() implies (#[trigger] r[i]).value() <= x.value()
            || r[i].value() <= s.last().value() by {
            assert(r[i].value() <= r[s.len() as int].value());
        }
        assert(s =~= front.push(last));
        assert(s.to_multiset() =~= front.to_multiset().insert(last));
        assert(r.to_multiset() =~= below.to_multiset().insert(last));
        assert forall|v: int| #[trigger] equal_to(r, v) == equal_to(s.push(x), v) by {
            let p = |y: T| y.value() == v;
            reveal(Seq::filter);
            assert(r.drop_last() =~= below);
            assert(s.push(x).drop_last() =~= s);
            assert(front.push(x).drop_last() =~= front);
            assert(equal_to(below, v) == equal_to(front.push(x), v));
            assert(below.filter(p) == front.push(x).filter(p));
            assert(last.value() > x.value());
            assert(s.drop_last() == front);
            let kept = front.filter(p);
            assert(s.filter(p) == if p(last) { kept.push(last) } else { kept });
            assert(front.push(x).filter(p) == if p(x) { kept.push(x) } else { kept });
            assert(s.push(x).filter(p) == if p(x) { s.filter(p).push(x) } else { s.filter(p) });
            let moved = below.filter(p);
            assert(r.filter(p) == if p(last) { moved.push(last) } else { moved });
        }
    }
}

/// Putting in order keeps every element, sorts them, and leaves equal ones as they stood.
pub proof fn law_in_order<T: Real>(s: Seq<T>)
    ensures
        in_order(s).len() == s.len(),
        ascending(in_order(s)),
        in_order(s).to_multiset() =~= s.to_multiset(),
        forall|v: int| #[trigger] equal_to(in_order(s), v) == equal_to(s, v),
    decreases s.len(),
{
    broadcast use vstd::seq_lib::group_to_multiset_ensures;

    if s.len() > 0 {
        let front = s.drop_last();
        law_in_order(front);
        lemma_insert_in_order(in_order(front), s.last());
        assert(s =~= front.push(s.last()));
        assert forall|v: int| #[trigger] equal_to(in_order(s), v) == equal_to(s, v) by {
            let p = |y: T| y.value() == v;
            reveal(Seq::filter);
            assert(in_order(front).push(s.last()).drop_last() =~= in_order(front));
            assert(equal_to(in_order(front), v) == equal_to(front, v));
        }
    }
}

/// Nothing has to be compared with what is no number: all elements are numbers, or there is one
/// element at most.
pub open spec fn sortable<T: Real>(s: Seq<T>) -> bool {
    s.len() > 1 ==> forall|i: int| 0 <= i < s.len() ==> !(#[trigger] s[i]).nan()
}

/// The numbers of `values` from the smallest to the largest, equal ones in their original order.
pub fn sorted<T: Real>(values: &Vec<T>) -> (r: Vec<T>)
    requires
        sortable(values@),
    ensures
        r@ == in_order(values@),
{
    let mut r: Vec<T> = Vec::new();
    let mut n: usize = 0;
    proof {
        assert(values@.take(0) =~= Seq::<T>::empty());
    }
    while n < values.len()
        invariant
            n <= values.len(),
            sortable(values@),
            values.len() > 1 ==> forall|i: int| 0 <= i < r.len() ==> !(#[trigger] r[i]).nan(),
            r@ == in_order(values@.take(n as int)),
            r.len() == n,
        decreases values.len() - n,
    {
        let x = values[n];
        let ghost before = r@;
        let mut at: usize = r.len();
        proof {
            assert(before.take(at as int) =~= before);
            assert(before.skip(at as int) =~= Seq::<T>::empty());
            assert(insert_in_order(before, x) =~= insert_in_order(before.take(at as int), x)
                + before.skip(at as int));
        }
        while at > 0 && r[at - 1].exceeds(x)
            invariant
                at <= r.len(),
                r@ == before,
                r.len() > 0 ==> !x.nan(),
                r.len() > 0 ==> forall|i: int| 0 <= i < r.len() ==> !(#[trigger] r[i]).nan(),
                insert_in_order(before, x) == insert_in_order(before.take(at as int), x)
                    + before.skip(at as int),
            decreases at,
        {
            proof {
                let front = before.take(at as int);
                assert(front.last() == before[at - 1]);
                assert(front.drop_last() =~= before.take(at - 1));
                assert(insert_in_order(front, x) == insert_in_order(front.drop_last(), x).push(
                    front.last(),
                ));
                assert(seq![before[at - 1]] + before.skip(at as int) =~= before.skip(at - 1));
                assert(insert_in_order(before.take(at - 1), x).push(before[at - 1]) + before.skip(
                    at as int,
                ) =~= insert_in_order(before.take(at - 1), x) + before.skip(at - 1));
            }
            at -= 1;
        }
        proof {
            let front = before.take(at as int);
            if at > 0 {
                assert(front.last() == before[at - 1]);
            }
            assert(insert_in_order(front, x) == front.push(x));
            assert(front.push(x) + before.skip(at as int) =~= before.insert(at as int, x));
            assert(values@.take(n + 1).drop_last() =~= values@.take(n as int));
            assert(values@.take(n + 1).last() == x);
        }
        r.insert(at, x);
        n += 1;
    }
    proof {
        assert(values@.take(values.len() as int) =~= values@);
    }
    r
}

} // verus!
