//! In-place merge sort on a slice. The merge step keeps both runs inside the
//! slice and moves one element at a time by rotating the stretch between the
//! two read positions.

use std::cmp::Ordering;
use vstd::prelude::*;
use vstd::relations::{sorted_by, total_ordering};
use vstd::seq_lib::{lemma_multiset_commutative, lemma_sorted_unique};
use vstd::std_specs::cmp::PartialOrdSpec;

verus! {

/// `a > b` as the element type's comparison sees it.
pub open spec fn exceeds<T: PartialOrd>(a: T, b: T) -> bool {
    a.partial_cmp_spec(&b) == Some(Ordering::Greater)
}

/// Between the positions `lo` and `hi`, no element exceeds one that stands
/// after it.
pub open spec fn ordered_within<T: PartialOrd>(s: Seq<T>, lo: int, hi: int) -> bool {
    forall|i: int, j: int| #![trigger s[i], s[j]] lo <= i < j < hi ==> !exceeds(s[i], s[j])
}

/// No element exceeds one that stands after it.
pub open spec fn ordered<T: PartialOrd>(s: Seq<T>) -> bool {
    ordered_within(s, 0, s.len() as int)
}

/// The comparison of `T` behaves as a total preorder: what `>` computes is
/// what its specification says, two values never exceed each other, and
/// "does not exceed" is transitive.
#[verifier::opaque]
pub open spec fn compares_as_total_order<T: PartialOrd>() -> bool {
    &&& T::obeys_partial_cmp_spec()
    &&& forall|a: T, b: T| #![trigger exceeds(a, b)] exceeds(a, b) ==> !exceeds(b, a)
    &&& forall|a: T, b: T, c: T|
        #![trigger exceeds(a, b), exceeds(b, c)]
        !exceeds(a, b) && !exceeds(b, c) ==> !exceeds(a, c)
}

/// Two values of `T` of which neither exceeds the other are one value.
pub open spec fn tells_apart<T: PartialOrd>() -> bool {
    forall|a: T, b: T|
        #![trigger exceeds(a, b), exceeds(b, a)]
        !exceeds(a, b) && !exceeds(b, a) ==> a == b
}

/// `s` with the element at `j` moved down to `i`, and the elements that
/// stood at `i..j` each moved up by one.
pub open spec fn lifted<T>(s: Seq<T>, i: int, j: int) -> Seq<T>
    recommends
        0 <= i <= j < s.len(),
{
    s.subrange(0, i).push(s[j]) + s.subrange(i, j) + s.subrange(j + 1, s.len() as int)
}

proof fn lemma_lifted_keeps_elements<T>(s: Seq<T>, i: int, j: int)
    requires
        0 <= i <= j < s.len(),
    ensures
        lifted(s, i, j).to_multiset() == s.to_multiset(),
{
    let head = s.subrange(0, i);
    let run = s.subrange(i, j);
    let one = seq![s[j]];
    let tail = s.subrange(j + 1, s.len() as int);
    assert(s =~= head + run + one + tail);
    assert(lifted(s, i, j) =~= head + one + run + tail);
    lemma_multiset_commutative(head + run + one, tail);
    lemma_multiset_commutative(head + run, one);
    lemma_multiset_commutative(head, run);
    lemma_multiset_commutative(head + one + run, tail);
    lemma_multiset_commutative(head + one, run);
    lemma_multiset_commutative(head, one);
    assert(head.to_multiset().add(run.to_multiset()).add(one.to_multiset()) =~= head.to_multiset().add(
        one.to_multiset(),
    ).add(run.to_multiset()));
}

/// Two sequences that hold the same elements and agree outside `lo..hi`
/// hold the same elements inside `lo..hi`.
proof fn lemma_range_keeps_elements<T>(a: Seq<T>, b: Seq<T>, lo: int, hi: int)
    requires
        a.len() == b.len(),
        0 <= lo <= hi <= a.len(),
        forall|k: int| 0 <= k < lo || hi <= k < a.len() ==> a[k] == b[k],
        a.to_multiset() == b.to_multiset(),
    ensures
        a.subrange(lo, hi).to_multiset() == b.subrange(lo, hi).to_multiset(),
{
    let head = a.subrange(0, lo);
    let tail = a.subrange(hi, a.len() as int);
    let mid_a = a.subrange(lo, hi);
    let mid_b = b.subrange(lo, hi);
    assert(b.subrange(0, lo) =~= head);
    assert(b.subrange(hi, b.len() as int) =~= tail);
    assert(a =~= head + mid_a + tail);
    assert(b =~= head + mid_b + tail);
    lemma_multiset_commutative(head + mid_a, tail);
    lemma_multiset_commutative(head, mid_a);
    lemma_multiset_commutative(head + mid_b, tail);
    lemma_multiset_commutative(head, mid_b);
    assert forall|v: T| mid_a.to_multiset().count(v) == mid_b.to_multiset().count(v) by {
        assert(a.to_multiset().count(v) == head.to_multiset().count(v) + mid_a.to_multiset().count(
            v,
        ) + tail.to_multiset().count(v));
        assert(b.to_multiset().count(v) == head.to_multiset().count(v) + mid_b.to_multiset().count(
            v,
        ) + tail.to_multiset().count(v));
    }
    assert(mid_a.to_multiset() =~= mid_b.to_multiset());
}

proof fn lemma_lifted_positions<T>(s: Seq<T>, i: int, j: int)
    requires
        0 <= i <= j < s.len(),
    ensures
        lifted(s, i, j).len() == s.len(),
        lifted(s, i, j)[i] == s[j],
        forall|k: int| 0 <= k < i || j < k < s.len() ==> lifted(s, i, j)[k] == s[k],
        forall|k: int| i < k <= j ==> lifted(s, i, j)[k] == s[k - 1],
{
}

proof fn lemma_comparison_is_specified<T: PartialOrd>()
    requires
        compares_as_total_order::<T>(),
    ensures
        T::obeys_partial_cmp_spec(),
{
    reveal(compares_as_total_order);
}

proof fn lemma_no_mutual_excess<T: PartialOrd>(a: T, b: T)
    requires
        compares_as_total_order::<T>(),
        exceeds(a, b),
    ensures
        !exceeds(b, a),
{
    reveal(compares_as_total_order);
}

proof fn lemma_chain<T: PartialOrd>(a: T, b: T, c: T)
    requires
        compares_as_total_order::<T>(),
        !exceeds(a, b),
        !exceeds(b, c),
    ensures
        !exceeds(a, c),
{
    reveal(compares_as_total_order);
}

/// `<[T]>::rotate_left` of std: the first `mid` elements move to the end and
/// the others to the front, each group in its order. std panics where `mid`
/// is greater than the length.
#[verifier::external_body]
fn rotate_left<T>(slice: &mut [T], mid: usize)
    requires
        mid <= old(slice)@.len(),
    ensures
        final(slice)@ == old(slice)@.subrange(mid as int, old(slice)@.len() as int) + old(
            slice,
        )@.subrange(0, mid as int),
{
    slice.rotate_left(mid)
}

/// Moves the element at `j` down to `i` by rotating `slc[i..=j]`.
fn lift<T>(slc: &mut [T], i: usize, j: usize)
    requires
        i <= j < old(slc)@.len(),
    ensures
        final(slc)@ == lifted(old(slc)@, i as int, j as int),
{
    let len: usize = slc.len();
    assert(j - i + 1 <= len);
    let (_head, tail) = slc.split_at_mut(i);
    let (stretch, _rest) = tail.split_at_mut(j - i + 1);
    rotate_left(stretch, j - i);
    assert(slc@ =~= lifted(old(slc)@, i as int, j as int));
}

/// Sorts `slc[left_i..=right_i]` and leaves the rest of the slice alone: each
/// half is sorted first, then the two runs are merged where they stand.
pub fn merge_inner<T: PartialOrd>(slc: &mut [T], left_i: usize, right_i: usize)
    requires
        left_i <= right_i < old(slc)@.len(),
    ensures
        final(slc)@.len() == old(slc)@.len(),
        forall|k: int|
            0 <= k < left_i || right_i < k < old(slc)@.len() ==> final(slc)@[k] == old(slc)@[k],
        final(slc)@.to_multiset() == old(slc)@.to_multiset(),
        final(slc)@.subrange(left_i as int, right_i + 1).to_multiset() == old(slc)@.subrange(
            left_i as int,
            right_i + 1,
        ).to_multiset(),
        compares_as_total_order::<T>() ==> ordered_within(
            final(slc)@,
            left_i as int,
            right_i + 1,
        ),
    decreases right_i - left_i,
{
    let len: usize = slc.len();
    let span: usize = right_i - left_i;
    let middle: usize = left_i + (span / 2 + span % 2);
    let mut i: usize = left_i;
    let mut j: usize = middle;

    if span >= 2 {
        merge_inner(slc, left_i, middle);
        merge_inner(slc, middle + 1, right_i);
        j += 1;
    }
    while j <= right_i
        invariant
            left_i <= i <= j <= right_i + 1,
            right_i < len == slc@.len() == old(slc)@.len(),
            forall|k: int|
                0 <= k < left_i || right_i < k < old(slc)@.len() ==> slc@[k] == old(slc)@[k],
            slc@.to_multiset() == old(slc)@.to_multiset(),
            compares_as_total_order::<T>() ==> {
                &&& ordered_within(slc@, left_i as int, i as int)
                &&& ordered_within(slc@, i as int, j as int)
                &&& ordered_within(slc@, j as int, right_i + 1)
                &&& forall|a: int, b: int|
                    #![trigger slc@[a], slc@[b]]
                    left_i <= a < i <= b <= right_i ==> !exceeds(slc@[a], slc@[b])
            },
        decreases 2 * (right_i + 1) - i - j,
    {
        if i == j {
            // The left run is used up: what is left of the right run is next.
            j += 1;
        } else if slc[i] > slc[j] {
            let ghost before = slc@;
            lift(slc, i, j);
            proof {
                lemma_lifted_positions(before, i as int, j as int);
                lemma_lifted_keeps_elements(before, i as int, j as int);
                if compares_as_total_order::<T>() {
                    lemma_comparison_is_specified::<T>();
                    lemma_no_mutual_excess(before[i as int], before[j as int]);
                    assert forall|b: int| i < b <= right_i implies !exceeds(
                        slc@[i as int],
                        #[trigger] slc@[b],
                    ) by {
                        if b <= j {
                            if b - 1 > i {
                                assert(!exceeds(before[i as int], before[b - 1]));
                                lemma_chain(before[j as int], before[i as int], before[b - 1]);
                            }
                        } else {
                            assert(!exceeds(before[j as int], before[b]));
                        }
                    }
                    assert forall|a: int, b: int|
                        #![trigger slc@[a], slc@[b]]
                        left_i <= a < i + 1 <= b <= right_i implies !exceeds(slc@[a], slc@[b]) by {
                        if a < i {
                            if b <= j {
                                assert(!exceeds(before[a], before[b - 1]));
                            } else {
                                assert(!exceeds(before[a], before[b]));
                            }
                        }
                    }
                    assert forall|a: int, b: int|
                        #![trigger slc@[a], slc@[b]]
                        left_i <= a < b < i + 1 implies !exceeds(slc@[a], slc@[b]) by {
                        if b < i {
                            assert(!exceeds(before[a], before[b]));
                        } else {
                            assert(!exceeds(before[a], before[j as int]));
                        }
                    }
                    assert forall|a: int, b: int|
                        #![trigger slc@[a], slc@[b]]
                        i + 1 <= a < b <= j implies !exceeds(slc@[a], slc@[b]) by {
                        assert(!exceeds(before[a - 1], before[b - 1]));
                    }
                    assert forall|a: int, b: int|
                        #![trigger slc@[a], slc@[b]]
                        j + 1 <= a < b <= right_i implies !exceeds(slc@[a], slc@[b]) by {
                        assert(!exceeds(before[a], before[b]));
                    }
                }
            }
            i += 1;
            if j < right_i {
                j += 1
            }
        } else {
            proof {
                if compares_as_total_order::<T>() {
                    lemma_comparison_is_specified::<T>();
                    assert forall|b: int| i < b <= right_i implies !exceeds(
                        slc@[i as int],
                        #[trigger] slc@[b],
                    ) by {
                        if b < j {
                            assert(!exceeds(slc@[i as int], slc@[b]));
                        } else if b > j {
                            assert(!exceeds(slc@[j as int], slc@[b]));
                            lemma_chain(slc@[i as int], slc@[j as int], slc@[b]);
                        }
                    }
                }
            }
            i += 1;
        }
    }
    proof {
        lemma_range_keeps_elements(old(slc)@, slc@, left_i as int, right_i + 1);
    }
}

/// Sorts the slice in place. What comes out holds the elements that went in,
/// each as often as before; where `T` is totally ordered, none of them
/// exceeds a later one.
pub fn merge_sort<T: PartialOrd>(slc: &mut [T])
    ensures
        final(slc)@.len() == old(slc)@.len(),
        final(slc)@.to_multiset() == old(slc)@.to_multiset(),
        compares_as_total_order::<T>() ==> ordered(final(slc)@),
{
    if slc.len() <= 1 {
        return ;
    }
    merge_inner(slc, 0, slc.len() - 1)
}

/// There is one ordered arrangement only: two ordered sequences that hold
/// the same elements, each as often as the other, are equal, where the order
/// is total and tells any two values apart. So what `merge_sort` leaves is
/// what any other sort by the same order leaves.
pub proof fn lemma_one_ordered_arrangement<T: PartialOrd>(a: Seq<T>, b: Seq<T>)
    requires
        compares_as_total_order::<T>(),
        tells_apart::<T>(),
        ordered(a),
        ordered(b),
        a.to_multiset() == b.to_multiset(),
    ensures
        a == b,
{
    reveal(compares_as_total_order);
    let within = |x: T, y: T| !exceeds(x, y);
    assert forall|x: T, y: T, z: T| #[trigger] within(x, y) && #[trigger] within(y, z) implies within(
        x,
        z,
    ) by {
        assert(!exceeds(x, y) && !exceeds(y, z));
    }
    assert forall|x: T, y: T| #[trigger] within(x, y) && #[trigger] within(y, x) implies x == y by {
        assert(!exceeds(x, y) && !exceeds(y, x));
    }
    assert forall|x: T, y: T| #[trigger] within(x, y) || #[trigger] within(y, x) by {
        if exceeds(x, y) {
            assert(!exceeds(y, x));
        }
    }
    assert forall|x: T| #[trigger] within(x, x) by {
        if exceeds(x, x) {
            assert(!exceeds(x, x));
        }
    }
    assert(total_ordering(within));
    assert(sorted_by(a, within)) by {
        assert forall|i: int, j: int| 0 <= i < j < a.len() implies #[trigger] within(a[i], a[j]) by {
            assert(!exceeds(a[i], a[j]));
        }
    }
    assert(sorted_by(b, within)) by {
        assert forall|i: int, j: int| 0 <= i < j < b.len() implies #[trigger] within(b[i], b[j]) by {
            assert(!exceeds(b[i], b[j]));
        }
    }
    lemma_sorted_unique(a, b, within);
}

/// The integers of every width are totally ordered by their comparison, and
/// it tells any two of them apart.
pub proof fn lemma_integers_compare_as_total_order()
    ensures
        compares_as_total_order::<u8>() && tells_apart::<u8>(),
        compares_as_total_order::<u16>() && tells_apart::<u16>(),
        compares_as_total_order::<u32>() && tells_apart::<u32>(),
        compares_as_total_order::<u64>() && tells_apart::<u64>(),
        compares_as_total_order::<u128>() && tells_apart::<u128>(),
        compares_as_total_order::<usize>() && tells_apart::<usize>(),
        compares_as_total_order::<i8>() && tells_apart::<i8>(),
        compares_as_total_order::<i16>() && tells_apart::<i16>(),
        compares_as_total_order::<i32>() && tells_apart::<i32>(),
        compares_as_total_order::<i64>() && tells_apart::<i64>(),
        compares_as_total_order::<i128>() && tells_apart::<i128>(),
        compares_as_total_order::<isize>() && tells_apart::<isize>(),
{
    reveal(compares_as_total_order);
}

} // verus!
