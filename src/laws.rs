//! Laws of marking: properties that relate several operations, or hold of every
//! order in which concurrent writers may land their writes.
use crate::sieve::{
    lemma_multiple_of_one_more, after_multiples, after_multiples_of_each, after_stride, in_stride, is_positive_multiple,
    multiple_of_some, never_revives,
};
use vstd::prelude::*;

verus! {

/// `s` after the single-slot writes of `order` land one after another, each setting
/// its index to `false`. Any schedule of concurrent writers lands its writes in some
/// such order.
pub open spec fn clear_in_order(s: Seq<bool>, order: Seq<int>) -> Seq<bool>
    decreases order.len(),
{
    if order.len() == 0 {
        s
    } else {
        clear_in_order(s, order.drop_last()).update(order.last(), false)
    }
}

/// Every index of `order` is a slot of an array of length `len`.
pub open spec fn all_below(order: Seq<int>, len: int) -> bool {
    forall|k: int| 0 <= k < order.len() ==> 0 <= #[trigger] order[k] < len
}

/// After the writes of `order`, a slot reads `true` exactly when it did before and
/// no write targeted it.
pub proof fn lemma_clear_in_order_pointwise(s: Seq<bool>, order: Seq<int>)
    requires
        all_below(order, s.len() as int),
    ensures
        clear_in_order(s, order) == Seq::new(s.len(), |i: int| s[i] && !order.contains(i)),
    decreases order.len(),
{
    if order.len() == 0 {
        assert(clear_in_order(s, order) =~= Seq::new(
            s.len(),
            |i: int| s[i] && !order.contains(i),
        ));
    } else {
        let rest = order.drop_last();
        assert(all_below(rest, s.len() as int)) by {
            assert forall|k: int| 0 <= k < rest.len() implies 0 <= #[trigger] rest[k] < s.len() by {
                assert(rest[k] == order[k]);
            }
        }
        lemma_clear_in_order_pointwise(s, rest);
        assert(order[order.len() - 1] == order.last());
        assert forall|i: int| 0 <= i < s.len() implies order.contains(i) == (rest.contains(i) || i
            == order.last()) by {
            if rest.contains(i) {
                let k = choose|k: int| 0 <= k < rest.len() && rest[k] == i;
                assert(order[k] == i);
            }
            if order.contains(i) && i != order.last() {
                let k = choose|k: int| 0 <= k < order.len() && order[k] == i;
                assert(k != order.len() - 1);
                assert(rest[k] == i);
            }
        }
        assert(clear_in_order(s, order) =~= Seq::new(
            s.len(),
            |i: int| s[i] && !order.contains(i),
        ));
    }
}

/// Monotonicity over any run of operations: if no step revives a slot, the whole run
/// revives none.
pub proof fn lemma_never_revives_chains(a: Seq<bool>, b: Seq<bool>, c: Seq<bool>)
    requires
        never_revives(a, b),
        never_revives(b, c),
    ensures
        never_revives(a, c),
{
}

/// Monotonicity of every schedule: whatever order the single-slot writes land in, no
/// slot that read `false` reads `true` afterwards.
pub proof fn lemma_writes_never_revive(s: Seq<bool>, order: Seq<int>)
    requires
        all_below(order, s.len() as int),
    ensures
        never_revives(s, clear_in_order(s, order)),
{
    lemma_clear_in_order_pointwise(s, order);
}

/// The order of single-slot writes does not matter: two schedules that write the same
/// set of slots, each any number of times, leave the same array.
pub proof fn lemma_write_order_is_irrelevant(s: Seq<bool>, o1: Seq<int>, o2: Seq<int>)
    requires
        all_below(o1, s.len() as int),
        all_below(o2, s.len() as int),
        o1.to_set() == o2.to_set(),
    ensures
        clear_in_order(s, o1) == clear_in_order(s, o2),
{
    lemma_clear_in_order_pointwise(s, o1);
    lemma_clear_in_order_pointwise(s, o2);
    assert forall|i: int| 0 <= i < s.len() implies o1.contains(i) == o2.contains(i) by {
        assert(o1.to_set().contains(i) == o1.contains(i));
        assert(o2.to_set().contains(i) == o2.contains(i));
    }
    assert(clear_in_order(s, o1) =~= clear_in_order(s, o2));
}

/// Sequential and parallel strided marking agree: any schedule that writes exactly the
/// indices of the stride, in any order, on any number of threads, leaves
/// `after_stride`, which is what both forms are specified to leave.
pub proof fn lemma_any_schedule_marks_the_stride(
    s: Seq<bool>,
    order: Seq<int>,
    start: int,
    stop: int,
    step: int,
)
    requires
        all_below(order, s.len() as int),
        forall|i: int| 0 <= i < s.len() ==> (order.contains(i) <==> in_stride(start, stop, step, i)),
    ensures
        clear_in_order(s, order) == after_stride(s, start, stop, step),
{
    lemma_clear_in_order_pointwise(s, order);
    assert(clear_in_order(s, order) =~= after_stride(s, start, stop, step));
}

/// Sequential and parallel marking of multiples agree: any schedule that writes exactly
/// the positive multiples of `n` below the length leaves `after_multiples`.
pub proof fn lemma_any_schedule_marks_the_multiples(s: Seq<bool>, order: Seq<int>, n: int)
    requires
        all_below(order, s.len() as int),
        forall|i: int| 0 <= i < s.len() ==> (order.contains(i) <==> is_positive_multiple(n, i)),
    ensures
        clear_in_order(s, order) == after_multiples(s, n),
{
    lemma_clear_in_order_pointwise(s, order);
    assert(clear_in_order(s, order) =~= after_multiples(s, n));
}

/// Marking a strided range whose indices were all marked already changes nothing; in
/// particular marking the same range twice is marking it once.
pub proof fn lemma_covered_stride_adds_nothing(
    s: Seq<bool>,
    start: int,
    stop: int,
    step: int,
    start2: int,
    stop2: int,
    step2: int,
)
    requires
        forall|i: int|
            0 <= i < s.len() && in_stride(start2, stop2, step2, i) ==> in_stride(
                start,
                stop,
                step,
                i,
            ),
    ensures
        after_stride(after_stride(s, start, stop, step), start2, stop2, step2) == after_stride(
            s,
            start,
            stop,
            step,
        ),
{
    assert(after_stride(after_stride(s, start, stop, step), start2, stop2, step2) =~= after_stride(
        s,
        start,
        stop,
        step,
    ));
}

/// Marking the multiples of `n` twice is marking them once.
pub proof fn lemma_multiples_twice_is_once(s: Seq<bool>, n: int)
    ensures
        after_multiples(after_multiples(s, n), n) == after_multiples(s, n),
{
    assert(after_multiples(after_multiples(s, n), n) =~= after_multiples(s, n));
}

/// Two markings of multiples, run one after the other, leave the same array in either
/// order.
pub proof fn lemma_multiples_commute(s: Seq<bool>, m: int, n: int)
    ensures
        after_multiples(after_multiples(s, m), n) == after_multiples(after_multiples(s, n), m),
{
    assert(after_multiples(after_multiples(s, m), n) =~= after_multiples(
        after_multiples(s, n),
        m,
    ));
}

/// The batch form does not depend on the order of its values, nor on repeated values:
/// two lists with the same set of values leave the same array.
pub proof fn lemma_batch_order_is_irrelevant(s: Seq<bool>, a: Seq<usize>, b: Seq<usize>)
    requires
        a.to_set() == b.to_set(),
    ensures
        after_multiples_of_each(s, a) == after_multiples_of_each(s, b),
{
    assert forall|i: int| 0 <= i < s.len() implies multiple_of_some(a, i) == multiple_of_some(
        b,
        i,
    ) by {
        if multiple_of_some(a, i) {
            let j = choose|j: int| 0 <= j < a.len() && is_positive_multiple(a[j] as int, i);
            assert(a.to_set().contains(a[j]));
            assert(b.contains(a[j]));
            let k = choose|k: int| 0 <= k < b.len() && b[k] == a[j];
            assert(is_positive_multiple(b[k] as int, i));
        }
        if multiple_of_some(b, i) {
            let j = choose|j: int| 0 <= j < b.len() && is_positive_multiple(b[j] as int, i);
            assert(b.to_set().contains(b[j]));
            assert(a.contains(b[j]));
            let k = choose|k: int| 0 <= k < a.len() && a[k] == b[j];
            assert(is_positive_multiple(a[k] as int, i));
        }
    }
    assert(after_multiples_of_each(s, a) =~= after_multiples_of_each(s, b));
}

/// `s` after the multiples of each value of `values` are marked, one value after another
/// in the list's order.
pub open spec fn after_multiples_in_turn(s: Seq<bool>, values: Seq<usize>) -> Seq<bool>
    decreases values.len(),
{
    if values.len() == 0 {
        s
    } else {
        after_multiples(after_multiples_in_turn(s, values.drop_last()), values.last() as int)
    }
}

/// The batch form, whose chunks run concurrently and overlap in the slots they clear,
/// leaves what marking the values one after another leaves; with
/// `lemma_batch_order_is_irrelevant`, the same holds of every order of the values.
pub proof fn lemma_batch_is_marking_in_turn(s: Seq<bool>, values: Seq<usize>)
    ensures
        after_multiples_of_each(s, values) == after_multiples_in_turn(s, values),
    decreases values.len(),
{
    if values.len() == 0 {
        assert(after_multiples_of_each(s, values) =~= s);
    } else {
        let k = values.len() - 1;
        let rest = values.drop_last();
        lemma_batch_is_marking_in_turn(s, rest);
        assert(values.take(k) =~= rest);
        assert(values.take(k + 1) =~= values);
        assert forall|i: int| 0 <= i < s.len() implies multiple_of_some(values, i) == (
        multiple_of_some(rest, i) || is_positive_multiple(values.last() as int, i)) by {
            lemma_multiple_of_one_more(values, k, i);
        }
        assert(after_multiples_of_each(s, values) =~= after_multiples_in_turn(s, values));
    }
}

/// Marking the multiples of an `n` that is at least the length generates no index and
/// changes nothing.
pub proof fn lemma_multiples_past_the_end_change_nothing(s: Seq<bool>, n: int)
    requires
        n >= s.len(),
    ensures
        after_multiples(s, n) == s,
{
    assert(after_multiples(s, n) =~= s);
}

/// On an empty array every marking operation leaves the array empty.
pub proof fn lemma_empty_array_is_unchanged(
    s: Seq<bool>,
    start: int,
    stop: int,
    step: int,
    n: int,
    values: Seq<usize>,
)
    requires
        s.len() == 0,
    ensures
        after_stride(s, start, stop, step) == s,
        after_multiples(s, n) == s,
        after_multiples_of_each(s, values) == s,
{
    assert(after_stride(s, start, stop, step) =~= s);
    assert(after_multiples(s, n) =~= s);
    assert(after_multiples_of_each(s, values) =~= s);
}

/// On a single-slot array, marking multiples (of one value or of a list of values, all
/// positive) changes nothing: slot `0` is no positive multiple.
pub proof fn lemma_single_slot_keeps_its_value(s: Seq<bool>, n: int, values: Seq<usize>)
    requires
        s.len() == 1,
        n >= 1,
        forall|j: int| 0 <= j < values.len() ==> values[j] >= 1,
    ensures
        after_multiples(s, n) == s,
        after_multiples_of_each(s, values) == s,
{
    assert(after_multiples(s, n) =~= s);
    assert(after_multiples_of_each(s, values) =~= s);
}

} // verus!
