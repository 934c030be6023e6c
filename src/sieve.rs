use rayon::iter::{IndexedParallelIterator, IntoParallelRefMutIterator, ParallelIterator};
use rayon::slice::ParallelSliceMut;
use vstd::prelude::*;

verus! {

/// True when `i` is one of `start, start + step, start + 2 * step, ...` strictly below `stop`.
pub open spec fn in_stride(start: int, stop: int, step: int, i: int) -> bool {
    start <= i < stop && (i - start) % step == 0
}

/// True when `i` is a positive multiple of `n`: one of `n, 2n, 3n, ...`.
pub open spec fn is_positive_multiple(n: int, i: int) -> bool {
    n <= i && i % n == 0
}

/// `s` with every index of the strided range `start, start + step, ... < stop` set to `false`.
pub open spec fn after_stride(s: Seq<bool>, start: int, stop: int, step: int) -> Seq<bool> {
    Seq::new(s.len(), |i: int| s[i] && !in_stride(start, stop, step, i))
}

/// `s` with every positive multiple of `n` below its length set to `false`.
pub open spec fn after_multiples(s: Seq<bool>, n: int) -> Seq<bool> {
    Seq::new(s.len(), |i: int| s[i] && !is_positive_multiple(n, i))
}

/// True when some value of `values` has `i` as a positive multiple.
pub open spec fn multiple_of_some(values: Seq<usize>, i: int) -> bool {
    exists|j: int| 0 <= j < values.len() && is_positive_multiple(values[j] as int, i)
}

/// `s` with every positive multiple of every value of `values` set to `false`.
pub open spec fn after_multiples_of_each(s: Seq<bool>, values: Seq<usize>) -> Seq<bool> {
    Seq::new(s.len(), |i: int| s[i] && !multiple_of_some(values, i))
}

/// The slots `s` of the array that start at index `offset`, after every positive multiple
/// of every value of `values` is set to `false`.
pub open spec fn after_multiples_of_each_at(s: Seq<bool>, offset: int, values: Seq<usize>) -> Seq<
    bool,
> {
    Seq::new(s.len(), |j: int| s[j] && !multiple_of_some(values, offset + j))
}

/// No slot that reads `false` in `before` reads `true` in `after`, and the length is kept.
pub open spec fn never_revives(before: Seq<bool>, after: Seq<bool>) -> bool {
    &&& after.len() == before.len()
    &&& forall|i: int| 0 <= i < before.len() && !before[i] ==> !after[i]
}

/// Every index that the strided range `start, start + step, ... < stop` generates
/// lies below `len`.
pub open spec fn stride_within(start: int, stop: int, step: int, len: int) -> bool {
    forall|i: int| #[trigger] in_stride(start, stop, step, i) ==> i < len
}

/// Between two consecutive points of a stride there is no other point.
proof fn lemma_gap_between_points(start: int, index: int, step: int, i: int)
    requires
        step >= 1,
        start <= index < i < index + step,
        (index - start) % step == 0,
    ensures
        (i - start) % step != 0,
{
    let a = index - start;
    let b = i - start;
    vstd::arithmetic::div_mod::lemma_fundamental_div_mod(a, step);
    vstd::arithmetic::div_mod::lemma_fundamental_div_mod(b, step);
    if b % step == 0 {
        assert(false) by (nonlinear_arith)
            requires
                a == step * (a / step),
                b == step * (b / step),
                a < b < a + step,
                step >= 1,
        ;
    }
}

/// The point after a point of a stride is again a point.
proof fn lemma_next_point(start: int, index: int, step: int)
    requires
        step >= 1,
        start <= index,
        (index - start) % step == 0,
    ensures
        (index + step - start) % step == 0,
{
    vstd::arithmetic::div_mod::lemma_mod_add_multiples_vanish(index - start, step);
}

/// Moving a stride's bound from one of its points `index` to the next point, or to
/// `stop` where no point lies before `stop`, adds exactly the point `index`.
proof fn lemma_stride_grows_by_one_point(
    start: int,
    index: int,
    next: int,
    stop: int,
    step: int,
)
    requires
        step >= 1,
        start <= index < stop,
        index < next,
        next == index + step || (next == stop && stop <= index + step),
        (index - start) % step == 0,
    ensures
        forall|i: int|
            in_stride(start, next, step, i) <==> (in_stride(start, index, step, i) || i == index),
{
    assert forall|i: int|
        in_stride(start, next, step, i) <==> (in_stride(start, index, step, i) || i == index) by {
        if index < i < next {
            lemma_gap_between_points(start, index, step, i);
        }
    }
}

/// Below `len`, the stride `n, 2n, ... < len` is exactly the positive multiples of `n`.
proof fn lemma_multiples_are_a_stride(n: int, len: int)
    requires
        n >= 1,
    ensures
        forall|i: int| 0 <= i < len ==> (in_stride(n, len, n, i) <==> is_positive_multiple(n, i)),
{
    assert forall|i: int| 0 <= i < len implies (in_stride(n, len, n, i) <==> is_positive_multiple(n, i)) by {
        if i >= n {
            vstd::arithmetic::div_mod::lemma_mod_add_multiples_vanish(i - n, n);
        }
    }
}

/// Sums and differences of multiples of `n` are multiples of `n`.
proof fn lemma_multiples_combine(a: int, b: int, n: int)
    requires
        n >= 1,
        a % n == 0,
        b % n == 0,
    ensures
        (a + b) % n == 0,
        (a - b) % n == 0,
{
    vstd::arithmetic::div_mod::lemma_fundamental_div_mod(a, n);
    vstd::arithmetic::div_mod::lemma_fundamental_div_mod(b, n);
    let qa = a / n;
    let qb = b / n;
    assert(a + b == (qa + qb) * n) by (nonlinear_arith)
        requires
            a == n * qa,
            b == n * qb,
    ;
    assert(a - b == (qa - qb) * n) by (nonlinear_arith)
        requires
            a == n * qa,
            b == n * qb,
    ;
    vstd::arithmetic::div_mod::lemma_mod_multiples_basic(qa + qb, n);
    vstd::arithmetic::div_mod::lemma_mod_multiples_basic(qa - qb, n);
}

/// The first positive multiple of `n` at or after `offset`, when it comes before `end`.
fn first_multiple_from(n: usize, offset: usize, end: usize) -> (r: Option<usize>)
    requires
        n >= 1,
        offset <= end,
    ensures
        r matches Some(f) ==> {
            &&& offset <= f < end
            &&& is_positive_multiple(n as int, f as int)
            &&& forall|m: int|
                offset <= m < f ==> !is_positive_multiple(n as int, m)
        },
        r is None ==> forall|m: int| offset <= m < end ==> !is_positive_multiple(n as int, m),
{
    let f: usize;
    if offset <= n {
        if n >= end {
            return None;
        }
        f = n;
        proof {
            vstd::arithmetic::div_mod::lemma_mod_self_0(n as int);
        }
    } else {
        let r: usize = offset % n;
        proof {
            vstd::arithmetic::div_mod::lemma_fundamental_div_mod(offset as int, n as int);
            vstd::arithmetic::div_mod::lemma_mod_multiples_basic(offset as int / n as int, n as int);
            assert((offset - r) % (n as int) == 0);
        }
        if r == 0 {
            if offset >= end {
                return None;
            }
            f = offset;
        } else {
            let gap: usize = n - r;
            proof {
                vstd::arithmetic::div_mod::lemma_mod_self_0(n as int);
                lemma_multiples_combine(offset - r, n as int, n as int);
                assert forall|m: int| offset <= m < offset + gap implies !is_positive_multiple(
                    n as int,
                    m,
                ) by {
                    lemma_gap_between_points(0, offset - r, n as int, m);
                }
            }
            if gap >= end - offset {
                return None;
            }
            f = offset + gap;
        }
    }
    Some(f)
}

/// A value's multiples join those of the values before it.
pub(crate) proof fn lemma_multiple_of_one_more(values: Seq<usize>, k: int, i: int)
    requires
        0 <= k < values.len(),
    ensures
        multiple_of_some(values.take(k + 1), i) == (multiple_of_some(values.take(k), i)
            || is_positive_multiple(values[k] as int, i)),
{
    let done = values.take(k);
    let next = values.take(k + 1);
    if is_positive_multiple(values[k] as int, i) {
        assert(next[k] == values[k]);
    }
    if multiple_of_some(done, i) {
        let j = choose|j: int| 0 <= j < done.len() && is_positive_multiple(done[j] as int, i);
        assert(next[j] == done[j]);
    }
    if multiple_of_some(next, i) && !is_positive_multiple(values[k] as int, i) {
        let j = choose|j: int| 0 <= j < next.len() && is_positive_multiple(next[j] as int, i);
        assert(j != k);
        assert(done[j] == next[j]);
    }
}

/// Marks, inside one chunk of an array, every positive multiple of every value of
/// `values`. The chunk holds the array's slots from `chunk_index * chunk_size` on.
/// This is the unit of work that the batch form hands out, one chunk per task.
fn clear_multiples_in_chunk(
    chunk: &mut [bool],
    chunk_index: usize,
    chunk_size: usize,
    values: &[usize],
)
    requires
        chunk_index * chunk_size + old(chunk)@.len() <= usize::MAX,
        forall|j: int| 0 <= j < values@.len() ==> values@[j] >= 1,
    ensures
        final(chunk)@ == after_multiples_of_each_at(
            old(chunk)@,
            chunk_index * chunk_size,
            values@,
        ),
{
    let ghost s0 = chunk@;
    let offset: usize = chunk_index * chunk_size;
    let len: usize = chunk.len();
    let end: usize = offset + len;
    let mut k: usize = 0;
    while k < values.len()
        invariant
            offset == chunk_index * chunk_size,
            end == offset + len,
            len == s0.len(),
            k <= values@.len(),
            forall|j: int| 0 <= j < values@.len() ==> values@[j] >= 1,
            chunk@ == after_multiples_of_each_at(s0, offset as int, values@.take(k as int)),
        decreases values@.len() - k,
    {
        let n: usize = values[k];
        let ghost before = chunk@;
        match first_multiple_from(n, offset, end) {
            Some(f) => {
                let first: usize = f - offset;
                let mut j: usize = first;
                proof {
                    vstd::arithmetic::div_mod::lemma_small_mod(0, n as nat);
                }
                while j < len
                    invariant
                        n >= 1,
                        first <= j <= len,
                        j < len ==> (j - first) % (n as int) == 0,
                        chunk@.len() == len,
                        len == before.len(),
                        forall|t: int|
                            0 <= t < len ==> #[trigger] chunk@[t] == (before[t] && !in_stride(
                                first as int,
                                j as int,
                                n as int,
                                t,
                            )),
                    decreases len - j,
                {
                    chunk[j] = false;
                    let next: usize = if len - j <= n {
                        len
                    } else {
                        j + n
                    };
                    proof {
                        lemma_stride_grows_by_one_point(
                            first as int,
                            j as int,
                            next as int,
                            len as int,
                            n as int,
                        );
                        lemma_next_point(first as int, j as int, n as int);
                    }
                    j = next;
                }
                proof {
                    vstd::arithmetic::div_mod::lemma_mod_self_0(n as int);
                    assert forall|t: int| 0 <= t < len implies in_stride(
                        first as int,
                        len as int,
                        n as int,
                        t,
                    ) == is_positive_multiple(n as int, offset + t) by {
                        if in_stride(first as int, len as int, n as int, t) {
                            lemma_multiples_combine(f as int, t - first, n as int);
                        }
                        if is_positive_multiple(n as int, offset + t) {
                            lemma_multiples_combine(offset + t, f as int, n as int);
                        }
                    }
                }
            },
            None => {},
        }
        proof {
            assert forall|t: int| 0 <= t < len implies chunk@[t] == (s0[t] && !multiple_of_some(
                values@.take(k + 1),
                offset + t,
            )) by {
                lemma_multiple_of_one_more(values@, k as int, offset + t);
            }
            assert(chunk@ =~= after_multiples_of_each_at(
                s0,
                offset as int,
                values@.take(k + 1),
            ));
        }
        k = k + 1;
    }
    assert(values@.take(values@.len() as int) =~= values@);
}

/// Sets one slot to `false`; the unit of work that the parallel forms hand out.
fn clear_slot(slot: &mut bool)
    ensures
        !*final(slot),
{
    *slot = false;
}

/// Relies on rayon's `par_iter_mut`, `step_by` and `for_each` on a slice: `clear_slot`
/// runs once on each element of `v[start..end]` whose offset from `start` is a multiple
/// of `step`, and the call returns once all of them have run. Nothing else is written.
#[verifier::external_body]
fn par_clear_stride(v: &mut Vec<bool>, start: usize, end: usize, step: usize)
    requires
        start <= end <= old(v)@.len(),
        step >= 1,
    ensures
        final(v)@ == after_stride(old(v)@, start as int, end as int, step as int),
{
    v[start..end].par_iter_mut().step_by(step).for_each(clear_slot);
}

/// Relies on rayon's `par_chunks_mut`, `enumerate` and `for_each` on a slice: `v` is cut
/// into consecutive, disjoint chunks of `chunk_size` slots (the last may be shorter),
/// chunk `k` starting at slot `k * chunk_size`; `clear_multiples_in_chunk` runs once on
/// each chunk with its index, and the call returns once all of them have run.
#[verifier::external_body]
fn par_clear_multiples_by_chunks(v: &mut Vec<bool>, chunk_size: usize, values: &[usize])
    requires
        chunk_size >= 1,
        forall|j: int| 0 <= j < values@.len() ==> values@[j] >= 1,
    ensures
        final(v)@ == after_multiples_of_each(old(v)@, values@),
{
    v.par_chunks_mut(chunk_size).enumerate().for_each(
        |(k, chunk)| clear_multiples_in_chunk(chunk, k, chunk_size, values),
    );
}

/// Slots per task in the batch form.
const BATCH_CHUNK_SLOTS: usize = 32768;

/// Why a checked marking operation refused its arguments.
#[derive(Debug, Clone, Copy, PartialEq, Eq, Structural)]
pub enum SieveError {
    /// The index is not below the array's length.
    IndexOutOfRange,
    /// The stride is zero.
    InvalidStride,
}

/// A boolean array whose slots only ever go from `true` to `false`.
#[derive(Debug, Clone)]
pub struct SieveVecBool {
    vec: Vec<bool>,
}

impl View for SieveVecBool {
    type V = Seq<bool>;

    closed spec fn view(&self) -> Seq<bool> {
        self.vec@
    }
}

impl SieveVecBool {
    /// An empty array.
    #[must_use]
    pub fn new() -> (r: Self)
        ensures
            r@ == Seq::<bool>::empty(),
    {
        SieveVecBool { vec: Vec::new() }
    }

    /// The number of slots.
    pub fn len(&self) -> (r: usize)
        ensures
            r == self@.len(),
    {
        self.vec.len()
    }

    /// Consumes the array and hands back its slots.
    #[must_use]
    pub fn into_inner(self) -> (r: Vec<bool>)
        ensures
            r@ == self@,
    {
        self.vec
    }

    /// Marks slot `index` as `false`.
    pub fn set_false_unchecked(&mut self, index: usize)
        requires
            index < old(self)@.len(),
        ensures
            final(self)@ == old(self)@.update(index as int, false),
            never_revives(old(self)@, final(self)@),
    {
        self.vec.set(index, false);
    }

    /// Marks slot `index` as `false`, or refuses an index that is not below the length
    /// and changes nothing.
    pub fn set_false(&mut self, index: usize) -> (r: Result<(), SieveError>)
        ensures
            r is Ok <==> index < old(self)@.len(),
            r is Ok ==> final(self)@ == old(self)@.update(index as int, false),
            r == Err::<(), SieveError>(SieveError::IndexOutOfRange) <==> index >= old(self)@.len(),
            r is Err ==> final(self)@ == old(self)@,
            never_revives(old(self)@, final(self)@),
    {
        if index < self.vec.len() {
            self.set_false_unchecked(index);
            Ok(())
        } else {
            Err(SieveError::IndexOutOfRange)
        }
    }

    /// Marks as `false` every index `start, start + step, start + 2 * step, ...` strictly
    /// below `stop`, one after another. Nothing changes when `start >= stop`.
    pub fn set_step_range_to_false(&mut self, start: usize, stop: usize, step_size: usize)
        requires
            step_size >= 1,
            stride_within(start as int, stop as int, step_size as int, old(self)@.len() as int),
        ensures
            final(self)@ == after_stride(old(self)@, start as int, stop as int, step_size as int),
            never_revives(old(self)@, final(self)@),
    {
        let ghost s0 = self@;
        let mut index: usize = start;
        proof {
            vstd::arithmetic::div_mod::lemma_small_mod(0, step_size as nat);
        }
        while index < stop
            invariant
                step_size >= 1,
                stride_within(start as int, stop as int, step_size as int, s0.len() as int),
                self@.len() == s0.len(),
                start <= index,
                index <= stop || index == start,
                index < stop ==> (index - start) % (step_size as int) == 0,
                forall|i: int|
                    0 <= i < s0.len() ==> #[trigger] self@[i] == (s0[i] && !in_stride(
                        start as int,
                        index as int,
                        step_size as int,
                        i,
                    )),
            decreases stop - index,
        {
            assert(in_stride(start as int, stop as int, step_size as int, index as int));
            self.set_false_unchecked(index);
            let next: usize = if stop - index <= step_size {
                stop
            } else {
                index + step_size
            };
            proof {
                lemma_stride_grows_by_one_point(
                    start as int,
                    index as int,
                    next as int,
                    stop as int,
                    step_size as int,
                );
                lemma_next_point(start as int, index as int, step_size as int);
            }
            index = next;
        }
        assert(self@ =~= after_stride(s0, start as int, stop as int, step_size as int));
    }

    /// Marks the same indices as `set_step_range_to_false`, handing them out to a
    /// thread pool; returns once every one of them is marked.
    pub fn set_step_range_to_false_par(&mut self, start: usize, stop: usize, step_size: usize)
        requires
            step_size >= 1,
            stride_within(start as int, stop as int, step_size as int, old(self)@.len() as int),
        ensures
            final(self)@ == after_stride(old(self)@, start as int, stop as int, step_size as int),
            never_revives(old(self)@, final(self)@),
    {
        let ghost s0 = self@;
        if start >= stop {
            assert(self@ =~= after_stride(s0, start as int, stop as int, step_size as int));
            return;
        }
        proof {
            vstd::arithmetic::div_mod::lemma_small_mod(0, step_size as nat);
            assert(in_stride(start as int, stop as int, step_size as int, start as int));
        }
        let len: usize = self.vec.len();
        let end: usize = if stop <= len {
            stop
        } else {
            len
        };
        par_clear_stride(&mut self.vec, start, end, step_size);
        assert(self@ =~= after_stride(s0, start as int, stop as int, step_size as int));
    }

    /// Marks as `false` every positive multiple of `n` below the length: `n, 2n, 3n, ...`.
    /// Nothing changes when `n` is at least the length.
    pub fn set_multiples_to_false(&mut self, n: usize)
        requires
            n >= 1,
        ensures
            final(self)@ == after_multiples(old(self)@, n as int),
            never_revives(old(self)@, final(self)@),
    {
        let ghost s0 = self@;
        let len: usize = self.vec.len();
        self.set_step_range_to_false(n, len, n);
        proof {
            lemma_multiples_are_a_stride(n as int, len as int);
        }
        assert(self@ =~= after_multiples(s0, n as int));
    }

    /// Marks the positive multiples of `n` as `set_multiples_to_false` does, or refuses
    /// `n == 0`, a zero stride, and changes nothing.
    pub fn set_multiples_to_false_checked(&mut self, n: usize) -> (r: Result<(), SieveError>)
        ensures
            r is Ok <==> n >= 1,
            r is Ok ==> final(self)@ == after_multiples(old(self)@, n as int),
            r == Err::<(), SieveError>(SieveError::InvalidStride) <==> n == 0,
            r is Err ==> final(self)@ == old(self)@,
            never_revives(old(self)@, final(self)@),
    {
        if n == 0 {
            Err(SieveError::InvalidStride)
        } else {
            self.set_multiples_to_false(n);
            Ok(())
        }
    }

    /// Marks the same indices as `set_multiples_to_false`, handing them out to a
    /// thread pool; returns once every one of them is marked.
    pub fn set_multiples_to_false_par(&mut self, n: usize)
        requires
            n >= 1,
        ensures
            final(self)@ == after_multiples(old(self)@, n as int),
            never_revives(old(self)@, final(self)@),
    {
        let ghost s0 = self@;
        let len: usize = self.vec.len();
        self.set_step_range_to_false_par(n, len, n);
        proof {
            lemma_multiples_are_a_stride(n as int, len as int);
        }
        assert(self@ =~= after_multiples(s0, n as int));
    }

    /// Marks as `false` every positive multiple of every value of `slice`. The array is
    /// cut into chunks that a thread pool marks at the same time, each for every value;
    /// returns once all are marked. The result does not depend on the schedule, nor on
    /// the order of the values.
    pub fn set_multiples_of_slice_to_false_par(&mut self, slice: &[usize])
        requires
            forall|j: int| 0 <= j < slice@.len() ==> slice@[j] >= 1,
        ensures
            final(self)@ == after_multiples_of_each(old(self)@, slice@),
            never_revives(old(self)@, final(self)@),
    {
        par_clear_multiples_by_chunks(&mut self.vec, BATCH_CHUNK_SLOTS, slice);
    }
}

impl Default for SieveVecBool {
    fn default() -> (r: Self)
        ensures
            r@ == Seq::<bool>::empty(),
    {
        SieveVecBool::new()
    }
}

impl From<Vec<bool>> for SieveVecBool {
    /// An array that holds the slots of `vec`; its length is `vec`'s length.
    fn from(vec: Vec<bool>) -> (r: Self)
        ensures
            r@ == vec@,
    {
        SieveVecBool { vec }
    }
}

impl vstd::std_specs::convert::FromSpecImpl<Vec<bool>> for SieveVecBool {
    open spec fn obeys_from_spec() -> bool {
        true
    }

    closed spec fn from_spec(v: Vec<bool>) -> Self {
        SieveVecBool { vec: v }
    }
}

} // verus!
