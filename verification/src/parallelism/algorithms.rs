use core::ops::Range;
use vstd::prelude::*;

verus! {

/// The stretches that are left of a range that is cut into stretches of
/// `step` indices, of which the first `modulus` get one index more: they
/// follow each other from `current` up to `end`.
pub open spec fn ranges_from(current: int, end: int, step: int, modulus: int) -> Seq<(int, int)>
    decreases end - current,
{
    if current >= end || step < 1 {
        Seq::empty()
    } else if modulus > 0 {
        seq![(current, current + step + 1)] + if current + step + 1 >= end {
            Seq::empty()
        } else {
            ranges_from(current + step + 1, end, step, modulus - 1)
        }
    } else {
        seq![(current, current + step)] + if current + step >= end {
            Seq::empty()
        } else {
            ranges_from(current + step, end, step, 0)
        }
    }
}

/// The stretches into which the indices from `start` up to `end` are cut for
/// `n_chunks` workers: with `len` indices, `len / n_chunks` indices each and
/// one more for the first `len % n_chunks`; one index each where there are
/// fewer indices than workers.
pub open spec fn subranges(start: int, end: int, n_chunks: int) -> Seq<(int, int)> {
    if end <= start || n_chunks < 1 {
        Seq::empty()
    } else {
        let len = end - start;
        let chunks = if len < n_chunks {
            len
        } else {
            n_chunks
        };
        ranges_from(start, end, len / chunks, len % chunks)
    }
}

/// The stretches lie side by side.
pub open spec fn contiguous(ranges: Seq<(int, int)>, from: int, to: int) -> bool
    decreases ranges.len(),
{
    if ranges.len() == 0 {
        from == to
    } else {
        ranges[0].0 == from && ranges[0].0 < ranges[0].1 && contiguous(
            ranges.drop_first(),
            ranges[0].1,
            to,
        )
    }
}

/// Where `count` stretches of `step` indices, the first `modulus` of them
/// longer by one, fill what is left of a range, the stretches cover it once,
/// side by side, and there are `count` of them.
pub proof fn lemma_ranges_cover(current: int, end: int, step: int, modulus: int, count: int)
    requires
        step >= 1,
        0 <= modulus <= count,
        end - current == count * step + modulus,
    ensures
        contiguous(ranges_from(current, end, step, modulus), current, end),
        ranges_from(current, end, step, modulus).len() == count,
    decreases count,
{
    if count == 0 {
        assert(count * step == 0) by (nonlinear_arith)
            requires
                count == 0,
        ;
    } else {
        assert(count * step == (count - 1) * step + step) by (nonlinear_arith);
        assert((count - 1) * step >= 0) by (nonlinear_arith)
            requires
                count >= 1,
                step >= 1,
        ;
        let next = if modulus > 0 {
            current + step + 1
        } else {
            current + step
        };
        let left = if modulus > 0 {
            modulus - 1
        } else {
            0
        };
        lemma_ranges_cover(next, end, step, left, count - 1);
        let rest = ranges_from(next, end, step, left);
        assert(ranges_from(current, end, step, modulus).drop_first() =~= rest);
    }
}

/// The stretches for the workers cover the range once, side by side, and
/// there are no more of them than workers; on a range that is not empty
/// there are as many as workers, or as indices where those are fewer.
pub proof fn lemma_subranges(start: int, end: int, n_chunks: int)
    requires
        n_chunks >= 1,
        start <= end,
    ensures
        contiguous(subranges(start, end, n_chunks), start, end),
        subranges(start, end, n_chunks).len() == if end - start < n_chunks {
            end - start
        } else {
            n_chunks
        },
{
    if start < end {
        let len = end - start;
        let chunks = if len < n_chunks {
            len
        } else {
            n_chunks
        };
        lemma_division(len, chunks);
        lemma_ranges_cover(start, end, len / chunks, len % chunks, chunks);
    }
}

/// What dividing `len` by `chunks` gives.
proof fn lemma_division(len: int, chunks: int)
    requires
        1 <= chunks <= len,
    ensures
        len == chunks * (len / chunks) + len % chunks,
        0 <= len % chunks < chunks,
        len / chunks >= 1,
{
    vstd::arithmetic::div_mod::lemma_fundamental_div_mod(len, chunks);
    vstd::arithmetic::div_mod::lemma_mod_bound(len, chunks);
    let q = len / chunks;
    let r = len % chunks;
    assert(q >= 1) by (nonlinear_arith)
        requires
            len == chunks * q + r,
            0 <= r < chunks,
            1 <= chunks <= len,
    ;
}

/// `left` indices are `count` stretches of `step` indices and one more index
/// for each of `modulus` stretches, which are no more than `count`.
pub open spec fn cut_evenly(left: int, step: int, modulus: int, count: int) -> bool {
    modulus <= count && left == count * step + modulus
}

/// Cuts a range of indices into stretches for a number of workers.
pub struct SubrangeIterator {
    modulus: usize,
    step: usize,
    current: usize,
    end: usize,
}

impl SubrangeIterator {
    #[verifier::type_invariant]
    spec fn type_inv(self) -> bool {
        self.fits()
    }

    /// What is left of the range is cut evenly: apart from one more index
    /// for each of the next `modulus` stretches, it is a number of
    /// stretches of `step` indices, and no fewer than `modulus`.
    pub closed spec fn fits(self) -> bool {
        &&& self.current <= self.end
        &&& self.current < self.end ==> {
            &&& self.step >= 1
            &&& exists|count: int|
                #[trigger] cut_evenly(
                    self.end - self.current,
                    self.step as int,
                    self.modulus as int,
                    count,
                )
        }
    }

    /// A state that is cut evenly into `count` stretches fits.
    proof fn lemma_fits(modulus: usize, step: usize, current: usize, end: usize, count: int)
        requires
            current <= end,
            current < end ==> step >= 1 && cut_evenly(
                end - current,
                step as int,
                modulus as int,
                count,
            ),
        ensures
            (SubrangeIterator { modulus, step, current, end }).fits(),
    {
        let state = SubrangeIterator { modulus, step, current, end };
        if current < end {
            assert(cut_evenly(
                state.end - state.current,
                state.step as int,
                state.modulus as int,
                count,
            ));
        }
    }

    /// The stretches still to come, in the order in which they come.
    pub closed spec fn remaining(self) -> Seq<(int, int)> {
        ranges_from(self.current as int, self.end as int, self.step as int, self.modulus as int)
    }

    /// Cuts `range` into stretches for `n_chunks` workers.
    pub fn from_range(range: Range<usize>, n_chunks: usize) -> (iter: Self)
        requires
            n_chunks > 0,
        ensures
            iter.remaining() == subranges(range.start as int, range.end as int, n_chunks as int),
    {
        if range.end <= range.start {
            return Self { modulus: 0, step: 0, current: 0, end: 0 };
        }
        let range_len = range.end - range.start;
        let chunks = if range_len < n_chunks {
            range_len
        } else {
            n_chunks
        };
        let step = range_len / chunks;
        let modulus = range_len % chunks;
        proof {
            lemma_division(range_len as int, chunks as int);
            assert(chunks * step == step * chunks) by (nonlinear_arith);
            assert(range.end - range.start == chunks * step + modulus);
            assert(cut_evenly(range.end - range.start, step as int, modulus as int, chunks as int));
            SubrangeIterator::lemma_fits(modulus, step, range.start, range.end, chunks as int);
        }
        Self { modulus, step, current: range.start, end: range.end }
    }

    /// The next stretch, if one is left.
    pub fn next(&mut self) -> (range: Option<Range<usize>>)
        ensures
            old(self).remaining().len() == 0 ==> range is None && final(self).remaining().len()
                == 0,
            old(self).remaining().len() > 0 ==> range is Some && range.unwrap().start == old(
                self,
            ).remaining()[0].0 && range.unwrap().end == old(self).remaining()[0].1
                && final(self).remaining() == old(self).remaining().drop_first(),
    {
        proof {
            use_type_invariant(&*self);
        }
        if self.current >= self.end {
            return None;
        }
        let ghost count = choose|count: int|
            #[trigger] cut_evenly(
                self.end - self.current,
                self.step as int,
                self.modulus as int,
                count,
            );
        let ghost before = *self;
        proof {
            assert(count >= 1) by (nonlinear_arith)
                requires
                    self.modulus <= count,
                    self.end - self.current == count * self.step + self.modulus,
                    self.end > self.current,
                    self.step >= 1,
            ;
            assert(count * self.step == (count - 1) * self.step + self.step) by (nonlinear_arith);
            assert((count - 1) * self.step >= 0) by (nonlinear_arith)
                requires
                    count >= 1,
                    self.step >= 1,
            ;
        }
        let this_start = self.current;
        let extra: usize = if self.modulus > 0 {
            1
        } else {
            0
        };
        let this_end = this_start + self.step + extra;
        let modulus = self.modulus - extra;
        proof {
            let rest = ranges_from(
                this_end as int,
                self.end as int,
                self.step as int,
                modulus as int,
            );
            assert(before.remaining().drop_first() =~= rest);
            assert(this_end <= self.end);
            if this_end < self.end {
                let fewer = count - 1;
                assert(self.end - this_end == fewer * self.step + modulus);
                assert(modulus <= fewer);
                assert(cut_evenly(self.end - this_end, self.step as int, modulus as int, fewer));
            }
            SubrangeIterator::lemma_fits(modulus, self.step, this_end, self.end, count - 1);
        }
        let next = SubrangeIterator { modulus, step: self.step, current: this_end, end: self.end };
        *self = next;
        Some(this_start..this_end)
    }

    /// The stretches still to come.
    pub fn collect(self) -> (ranges: Vec<Range<usize>>)
        ensures
            ranges@.len() == self.remaining().len(),
            forall|i: int|
                0 <= i < ranges@.len() ==> (#[trigger] ranges@[i]).start == self.remaining()[i].0
                    && ranges@[i].end == self.remaining()[i].1,
    {
        let mut iter = self;
        let mut ranges: Vec<Range<usize>> = Vec::new();
        loop
            invariant
                ranges@.len() + iter.remaining().len() == self.remaining().len(),
                forall|i: int|
                    0 <= i < ranges@.len() ==> (#[trigger] ranges@[i]).start
                        == self.remaining()[i].0 && ranges@[i].end == self.remaining()[i].1,
                forall|i: int|
                    0 <= i < iter.remaining().len() ==> iter.remaining()[i]
                        == self.remaining()[ranges@.len() + i],
            decreases iter.remaining().len(),
        {
            let ghost left = iter.remaining();
            match iter.next() {
                None => {
                    return ranges;
                },
                Some(range) => {
                    proof {
                        assert(left[0] == self.remaining()[ranges@.len() as int]);
                        assert forall|i: int| 0 <= i < left.drop_first().len() implies left.drop_first()[i]
                            == self.remaining()[ranges@.len() + 1 + i] by {
                            assert(left.drop_first()[i] == left[i + 1]);
                        }
                    }
                    ranges.push(range);
                },
            }
        }
    }
}

/// Stretches that lie side by side end no earlier than they begin.
pub proof fn lemma_contiguous_order(ranges: Seq<(int, int)>, from: int, to: int)
    requires
        contiguous(ranges, from, to),
    ensures
        from <= to,
        ranges.len() > 0 ==> ranges[0].0 == from && from < ranges[0].1 <= to,
    decreases ranges.len(),
{
    if ranges.len() > 0 {
        lemma_contiguous_order(ranges.drop_first(), ranges[0].1, to);
    }
}

/// The last `count` elements of `stack`, the last one first.
pub open spec fn top<T>(stack: Seq<T>, count: int) -> Seq<T> {
    Seq::new(count as nat, |i: int| stack[stack.len() - 1 - i])
}

/// The elements of `vec`, the last one first.
fn reversed<T>(vec: Vec<T>) -> (stack: Vec<T>)
    ensures
        stack@.len() == vec@.len(),
        forall|i: int| 0 <= i < vec@.len() ==> stack@[i] == vec@[vec@.len() - 1 - i],
{
    let mut vec = vec;
    let ghost whole = vec@;
    let mut stack: Vec<T> = Vec::new();
    while vec.len() > 0
        invariant
            vec@.len() + stack@.len() == whole.len(),
            forall|i: int| 0 <= i < vec@.len() ==> vec@[i] == whole[i],
            forall|i: int| 0 <= i < stack@.len() ==> stack@[i] == whole[whole.len() - 1 - i],
        decreases vec@.len(),
    {
        match vec.pop() {
            Some(value) => {
                stack.push(value);
            },
            None => {},
        }
    }
    stack
}

/// Calls `mapper` on every element of `slice`, stretch by stretch as the
/// slice is cut for `max_parallelism` workers, and returns the results in
/// the order of the elements.
pub fn parallel_map_with_parallelism<T, U, F: Fn(&T) -> U>(
    slice: &[T],
    max_parallelism: usize,
    mapper: F,
) -> (output: Vec<U>)
    requires
        max_parallelism > 0,
        forall|i: int| 0 <= i < slice@.len() ==> call_requires(mapper, (&#[trigger] slice@[i],)),
    ensures
        output@.len() == slice@.len(),
        forall|i: int|
            0 <= i < slice@.len() ==> call_ensures(mapper, (&slice@[i],), #[trigger] output@[i]),
{
    let len = slice.len();
    let mut stretches = SubrangeIterator::from_range(0..len, max_parallelism);
    let mut output: Vec<U> = Vec::new();
    proof {
        lemma_subranges(0, len as int, max_parallelism as int);
    }
    loop
        invariant
            len == slice@.len(),
            output@.len() <= len,
            contiguous(stretches.remaining(), output@.len() as int, len as int),
            forall|i: int|
                0 <= i < slice@.len() ==> call_requires(mapper, (&#[trigger] slice@[i],)),
            forall|i: int|
                0 <= i < output@.len() ==> call_ensures(
                    mapper,
                    (&slice@[i],),
                    #[trigger] output@[i],
                ),
        decreases stretches.remaining().len(),
    {
        let ghost left = stretches.remaining();
        match stretches.next() {
            None => {
                return output;
            },
            Some(subrange) => {
                proof {
                    lemma_contiguous_order(left, output@.len() as int, len as int);
                    lemma_contiguous_order(left.drop_first(), subrange.end as int, len as int);
                }
                let mut i = subrange.start;
                while i < subrange.end
                    invariant
                        subrange.start <= i <= subrange.end <= len,
                        len == slice@.len(),
                        output@.len() == i,
                        forall|k: int|
                            0 <= k < slice@.len() ==> call_requires(
                                mapper,
                                (&#[trigger] slice@[k],),
                            ),
                        forall|k: int|
                            0 <= k < output@.len() ==> call_ensures(
                                mapper,
                                (&slice@[k],),
                                #[trigger] output@[k],
                            ),
                    decreases subrange.end - i,
                {
                    output.push(mapper(&slice[i]));
                    i += 1;
                }
            },
        }
    }
}

/// Calls `mapper` on every element of `vec`, stretch by stretch as the
/// vector is cut for `max_parallelism` workers, and returns the results in
/// the order of the elements.
pub fn into_parallel_map_with_parallelism<T, U, F: Fn(T) -> U>(
    vec: Vec<T>,
    max_parallelism: usize,
    mapper: F,
) -> (output: Vec<U>)
    requires
        max_parallelism > 0,
        forall|i: int| 0 <= i < vec@.len() ==> call_requires(mapper, (#[trigger] vec@[i],)),
    ensures
        output@.len() == vec@.len(),
        forall|i: int|
            0 <= i < vec@.len() ==> call_ensures(mapper, (vec@[i],), #[trigger] output@[i]),
{
    let len = vec.len();
    let ghost input = vec@;
    let mut stack = reversed(vec);
    let mut stretches = SubrangeIterator::from_range(0..len, max_parallelism);
    let mut output: Vec<U> = Vec::new();
    proof {
        lemma_subranges(0, len as int, max_parallelism as int);
    }
    loop
        invariant
            len == input.len(),
            input == vec@,
            output@.len() + stack@.len() == len,
            contiguous(stretches.remaining(), output@.len() as int, len as int),
            forall|i: int| 0 <= i < stack@.len() ==> stack@[i] == input[len - 1 - i],
            forall|i: int| 0 <= i < input.len() ==> call_requires(mapper, (#[trigger] input[i],)),
            forall|i: int|
                0 <= i < output@.len() ==> call_ensures(mapper, (input[i],), #[trigger] output@[i]),
        decreases stretches.remaining().len(),
    {
        let ghost left = stretches.remaining();
        match stretches.next() {
            None => {
                return output;
            },
            Some(subrange) => {
                proof {
                    lemma_contiguous_order(left, output@.len() as int, len as int);
                    lemma_contiguous_order(left.drop_first(), subrange.end as int, len as int);
                }
                let mut i = subrange.start;
                while i < subrange.end
                    invariant
                        subrange.start <= i <= subrange.end <= len,
                        len == input.len(),
                        output@.len() == i,
                        output@.len() + stack@.len() == len,
                        forall|k: int| 0 <= k < stack@.len() ==> stack@[k] == input[len - 1 - k],
                        forall|k: int|
                            0 <= k < input.len() ==> call_requires(mapper, (#[trigger] input[k],)),
                        forall|k: int|
                            0 <= k < output@.len() ==> call_ensures(
                                mapper,
                                (input[k],),
                                #[trigger] output@[k],
                            ),
                    decreases subrange.end - i,
                {
                    match stack.pop() {
                        Some(value) => {
                            output.push(mapper(value));
                        },
                        None => {
                            proof {
                                assert(false);
                            }
                        },
                    }
                    i += 1;
                }
            },
        }
    }
}

/// `steps` are the first results of joining `values` with `reducer` from the
/// first value on: the first value itself, then what `reducer` makes of the
/// result before and the next value.
pub open spec fn trace<T, F: Fn(T, T) -> T>(reducer: F, values: Seq<T>, steps: Seq<T>) -> bool {
    &&& 1 <= steps.len() <= values.len()
    &&& steps[0] == values[0]
    &&& forall|k: int|
        1 <= k < steps.len() ==> call_ensures(reducer, (steps[k - 1], values[k]), #[trigger] steps[k])
}

/// `result` is what comes of `values` where `reducer` joins the first two,
/// then what came of them and the third, and so on to the last.
pub open spec fn folds_to<T, F: Fn(T, T) -> T>(reducer: F, values: Seq<T>, result: T) -> bool {
    exists|steps: Seq<T>| #[trigger]
        trace(reducer, values, steps) && steps.len() == values.len() && steps.last() == result
}

/// `reducer` accepts every pair that it is given where it joins `values`
/// from the first to the last.
pub open spec fn can_fold<T, F: Fn(T, T) -> T>(reducer: F, values: Seq<T>) -> bool {
    forall|steps: Seq<T>| #[trigger]
        trace(reducer, values, steps) && steps.len() < values.len() ==> call_requires(
            reducer,
            (steps.last(), values[steps.len() as int]),
        )
}

/// `parts` holds, for each stretch, what comes of the values of the stretch.
pub open spec fn chunk_folds<T, F: Fn(T, T) -> T>(
    reducer: F,
    values: Seq<T>,
    ranges: Seq<(int, int)>,
    parts: Seq<T>,
) -> bool {
    &&& parts.len() == ranges.len()
    &&& forall|j: int|
        0 <= j < ranges.len() ==> folds_to(
            reducer,
            values.subrange(ranges[j].0, ranges[j].1),
            #[trigger] parts[j],
        )
}

/// `reducer` accepts every pair that it is given where it joins the values
/// of each stretch, and then what came of the stretches.
pub open spec fn can_reduce<T, F: Fn(T, T) -> T>(
    reducer: F,
    values: Seq<T>,
    ranges: Seq<(int, int)>,
) -> bool {
    &&& forall|j: int|
        0 <= j < ranges.len() ==> can_fold(
            reducer,
            values.subrange((#[trigger] ranges[j]).0, ranges[j].1),
        )
    &&& forall|parts: Seq<T>| #[trigger]
        chunk_folds(reducer, values, ranges, parts) ==> can_fold(reducer, parts)
}

/// Takes `count` values from the top of the stack and joins them, the
/// topmost first.
fn fold_top<T, F: Fn(T, T) -> T>(reducer: &F, stack: &mut Vec<T>, count: usize) -> (result: T)
    requires
        1 <= count <= old(stack)@.len(),
        can_fold(*reducer, top(old(stack)@, count as int)),
    ensures
        final(stack)@ == old(stack)@.take(old(stack)@.len() - count),
        folds_to(*reducer, top(old(stack)@, count as int), result),
{
    let ghost whole = stack@;
    let ghost values = top(whole, count as int);
    let mut current = stack.pop().unwrap();
    let ghost mut steps = seq![current];
    let mut i: usize = 1;
    while i < count
        invariant
            1 <= i <= count <= whole.len(),
            values == top(whole, count as int),
            can_fold(*reducer, values),
            stack@ == whole.take(whole.len() - i),
            trace(*reducer, values, steps),
            steps.len() == i,
            steps.last() == current,
        decreases count - i,
    {
        let ghost before = steps;
        let value = stack.pop().unwrap();
        proof {
            assert(value == values[i as int]);
        }
        current = reducer(current, value);
        proof {
            steps = before.push(current);
            assert forall|k: int| 1 <= k < steps.len() implies call_ensures(
                *reducer,
                (steps[k - 1], values[k]),
                #[trigger] steps[k],
            ) by {
                if k < i {
                    assert(steps[k] == before[k]);
                    assert(steps[k - 1] == before[k - 1]);
                }
            }
            assert(stack@ =~= whole.take(whole.len() - i - 1));
        }
        i += 1;
    }
    current
}

/// Joins the values of `vec` with `reducer`: first the values of each
/// stretch, as the vector is cut for `max_parallelism` workers, from the
/// first to the last; then what came of the stretches, from the first to the
/// last. Nothing comes of an empty vector.
pub fn into_parallel_reduce_with_parallelism<T, F: Fn(T, T) -> T>(
    vec: Vec<T>,
    max_parallelism: usize,
    reducer: F,
) -> (result: Option<T>)
    requires
        max_parallelism > 0,
        can_reduce(reducer, vec@, subranges(0, vec@.len() as int, max_parallelism as int)),
    ensures
        result is None <==> vec@.len() == 0,
        result matches Some(value) ==> exists|parts: Seq<T>|
            #[trigger] chunk_folds(
                reducer,
                vec@,
                subranges(0, vec@.len() as int, max_parallelism as int),
                parts,
            ) && folds_to(reducer, parts, value),
{
    let len = vec.len();
    let ghost input = vec@;
    let ghost ranges = subranges(0, len as int, max_parallelism as int);
    let mut stack = reversed(vec);
    let mut stretches = SubrangeIterator::from_range(0..len, max_parallelism);
    let mut values: Vec<T> = Vec::new();
    proof {
        lemma_subranges(0, len as int, max_parallelism as int);
    }
    loop
        invariant_except_break
            values@.len() + stretches.remaining().len() == ranges.len(),
            forall|j: int|
                0 <= j < stretches.remaining().len() ==> stretches.remaining()[j]
                    == ranges[values@.len() + j],
            stretches.remaining().len() > 0 ==> stretches.remaining()[0].0 == len - stack@.len(),
            contiguous(stretches.remaining(), len - stack@.len(), len as int),
        invariant
            len == input.len(),
            stack@.len() <= len,
            ranges == subranges(0, len as int, max_parallelism as int),
            can_reduce(reducer, input, ranges),
            forall|i: int| 0 <= i < stack@.len() ==> stack@[i] == input[len - 1 - i],
            values@.len() <= ranges.len(),
            forall|j: int|
                0 <= j < values@.len() ==> folds_to(
                    reducer,
                    input.subrange(ranges[j].0, ranges[j].1),
                    #[trigger] values@[j],
                ),
        ensures
            values@.len() == ranges.len(),
        decreases stretches.remaining().len(),
    {
        let ghost left = stretches.remaining();
        match stretches.next() {
            None => {
                break ;
            },
            Some(subrange) => {
                let ghost j = values@.len() as int;
                proof {
                    lemma_contiguous_order(left, len - stack@.len(), len as int);
                    lemma_contiguous_order(left.drop_first(), subrange.end as int, len as int);
                    assert(left[0] == ranges[j]);
                    assert(top(stack@, subrange.end - subrange.start) =~= input.subrange(
                        subrange.start as int,
                        subrange.end as int,
                    ));
                    assert forall|k: int| 0 <= k < left.drop_first().len() implies left.drop_first()[k]
                        == ranges[j + 1 + k] by {
                        assert(left.drop_first()[k] == left[k + 1]);
                    }
                }
                let value = fold_top(&reducer, &mut stack, subrange.end - subrange.start);
                values.push(value);
            },
        }
    }
    if values.len() == 0 {
        proof {
            if len > 0 {
                assert(ranges.len() > 0);
            }
        }
        return None;
    }
    let ghost parts = values@;
    proof {
        assert(chunk_folds(reducer, input, ranges, parts));
        assert(can_fold(reducer, parts));
    }
    let count = values.len();
    let mut stack = reversed(values);
    proof {
        assert(top(stack@, count as int) =~= parts);
    }
    let value = fold_top(&reducer, &mut stack, count);
    Some(value)
}

/// Calls `mapper` on every element of `slice` and returns the results in the
/// order of the elements.
pub fn parallel_map<T, U, F: Fn(&T) -> U>(slice: &[T], mapper: F) -> (output: Vec<U>)
    requires
        forall|i: int| 0 <= i < slice@.len() ==> call_requires(mapper, (&#[trigger] slice@[i],)),
    ensures
        output@.len() == slice@.len(),
        forall|i: int|
            0 <= i < slice@.len() ==> call_ensures(mapper, (&slice@[i],), #[trigger] output@[i]),
{
    parallel_map_with_parallelism(slice, 1, mapper)
}

/// Calls `mapper` on every element of `vec` and returns the results in the
/// order of the elements.
pub fn into_parallel_map<T, U, F: Fn(T) -> U>(vec: Vec<T>, mapper: F) -> (output: Vec<U>)
    requires
        forall|i: int| 0 <= i < vec@.len() ==> call_requires(mapper, (#[trigger] vec@[i],)),
    ensures
        output@.len() == vec@.len(),
        forall|i: int|
            0 <= i < vec@.len() ==> call_ensures(mapper, (vec@[i],), #[trigger] output@[i]),
{
    into_parallel_map_with_parallelism(vec, 1, mapper)
}

/// Joins the values of `vec` with `reducer`, from the first to the last.
/// Nothing comes of an empty vector.
pub fn into_parallel_reduce<T, F: Fn(T, T) -> T>(vec: Vec<T>, reducer: F) -> (result: Option<T>)
    requires
        can_fold(reducer, vec@),
    ensures
        result is None <==> vec@.len() == 0,
        result matches Some(value) ==> folds_to(reducer, vec@, value),
{
    let len = vec.len();
    if len == 0 {
        return None;
    }
    let ghost input = vec@;
    let mut stack = reversed(vec);
    proof {
        assert(top(stack@, len as int) =~= input);
    }
    Some(fold_top(&reducer, &mut stack, len))
}

/// What comes of `values` where `join` joins the first two, then what came
/// of them and the third, and so on to the last.
pub open spec fn fold_left<T>(join: spec_fn(T, T) -> T, values: Seq<T>) -> T
    decreases values.len(),
{
    if values.len() <= 1 {
        values[0]
    } else {
        join(fold_left(join, values.drop_last()), values.last())
    }
}

/// What `reducer` makes of two values is what `join` makes of them.
pub open spec fn computes<T, F: Fn(T, T) -> T>(reducer: F, join: spec_fn(T, T) -> T) -> bool {
    forall|a: T, b: T, joined: T| #[trigger]
        call_ensures(reducer, (a, b), joined) ==> joined == join(a, b)
}

/// It does not matter which two neighbours `join` joins first.
pub open spec fn associative<T>(join: spec_fn(T, T) -> T) -> bool {
    forall|a: T, b: T, c: T| #[trigger] join(join(a, b), c) == join(a, join(b, c))
}

/// The `j`-th of the stretches that lie side by side begins where the one
/// before it ends, and is not empty.
proof fn lemma_contiguous_at(ranges: Seq<(int, int)>, from: int, to: int, j: int)
    requires
        contiguous(ranges, from, to),
        0 <= j < ranges.len(),
    ensures
        ranges[j].0 == if j == 0 {
            from
        } else {
            ranges[j - 1].1
        },
        from <= ranges[j].0 < ranges[j].1 <= to,
        j == ranges.len() - 1 ==> ranges[j].1 == to,
    decreases ranges.len(),
{
    lemma_contiguous_order(ranges, from, to);
    if j > 0 {
        lemma_contiguous_at(ranges.drop_first(), ranges[0].1, to, j - 1);
        assert(ranges.drop_first()[j - 1] == ranges[j]);
        if j > 1 {
            assert(ranges.drop_first()[j - 2] == ranges[j - 1]);
        }
    } else if ranges.len() > 1 {
        lemma_contiguous_order(ranges.drop_first(), ranges[0].1, to);
    } else {
        reveal_with_fuel(contiguous, 2);
        assert(ranges.drop_first().len() == 0);
    }
}

/// What a reducer that computes `join` makes of a list is what `join` makes
/// of it from the left.
pub proof fn lemma_folds_left<T, F: Fn(T, T) -> T>(
    reducer: F,
    join: spec_fn(T, T) -> T,
    values: Seq<T>,
    result: T,
)
    requires
        computes(reducer, join),
        folds_to(reducer, values, result),
    ensures
        result == fold_left(join, values),
{
    let steps = choose|steps: Seq<T>| #[trigger]
        trace(reducer, values, steps) && steps.len() == values.len() && steps.last() == result;
    lemma_trace_left(reducer, join, values, steps, values.len() as int);
    assert(values.take(values.len() as int) =~= values);
}

/// The steps of a reducer that computes `join` are what `join` makes of the
/// values so far.
proof fn lemma_trace_left<T, F: Fn(T, T) -> T>(
    reducer: F,
    join: spec_fn(T, T) -> T,
    values: Seq<T>,
    steps: Seq<T>,
    n: int,
)
    requires
        computes(reducer, join),
        trace(reducer, values, steps),
        1 <= n <= steps.len(),
    ensures
        steps[n - 1] == fold_left(join, values.take(n)),
    decreases n,
{
    if n > 1 {
        lemma_trace_left(reducer, join, values, steps, n - 1);
        assert(values.take(n).drop_last() =~= values.take(n - 1));
        assert(values.take(n).last() == values[n - 1]);
        assert(call_ensures(reducer, (steps[n - 2], values[n - 1]), steps[n - 1]));
    } else {
        assert(values.take(1).len() == 1);
    }
}

/// Where it does not matter which neighbours are joined first, joining two
/// lists and then what came of them is joining the one long list.
pub proof fn lemma_fold_concat<T>(join: spec_fn(T, T) -> T, a: Seq<T>, b: Seq<T>)
    requires
        associative(join),
        a.len() >= 1,
        b.len() >= 1,
    ensures
        fold_left(join, a + b) == join(fold_left(join, a), fold_left(join, b)),
    decreases b.len(),
{
    let whole = a + b;
    assert(whole.last() == b.last());
    if b.len() == 1 {
        assert(whole.drop_last() =~= a);
    } else {
        assert(whole.drop_last() =~= a + b.drop_last());
        lemma_fold_concat(join, a, b.drop_last());
        let x = fold_left(join, a);
        let y = fold_left(join, b.drop_last());
        let z = b.last();
        assert(join(join(x, y), z) == join(x, join(y, z)));
    }
}

/// Where it does not matter which neighbours are joined first, what comes
/// of the stretches, joined from the first to the last, is what comes of
/// the whole list joined from the left: the number of workers does not
/// change what a reduction gives.
pub proof fn lemma_stretches_fold_left<T, F: Fn(T, T) -> T>(
    reducer: F,
    join: spec_fn(T, T) -> T,
    values: Seq<T>,
    ranges: Seq<(int, int)>,
    parts: Seq<T>,
    result: T,
)
    requires
        computes(reducer, join),
        associative(join),
        ranges.len() >= 1,
        contiguous(ranges, 0, values.len() as int),
        chunk_folds(reducer, values, ranges, parts),
        folds_to(reducer, parts, result),
    ensures
        result == fold_left(join, values),
{
    lemma_folds_left(reducer, join, parts, result);
    lemma_parts_fold_left(reducer, join, values, ranges, parts, ranges.len() as int);
    lemma_contiguous_at(ranges, 0, values.len() as int, ranges.len() - 1);
    assert(parts.take(parts.len() as int) =~= parts);
    assert(values.subrange(0, values.len() as int) =~= values);
}

/// What comes of the first `n` stretches is what comes of the values up to
/// the end of the last of them.
proof fn lemma_parts_fold_left<T, F: Fn(T, T) -> T>(
    reducer: F,
    join: spec_fn(T, T) -> T,
    values: Seq<T>,
    ranges: Seq<(int, int)>,
    parts: Seq<T>,
    n: int,
)
    requires
        computes(reducer, join),
        associative(join),
        contiguous(ranges, 0, values.len() as int),
        chunk_folds(reducer, values, ranges, parts),
        1 <= n <= ranges.len(),
    ensures
        fold_left(join, parts.take(n)) == fold_left(join, values.subrange(0, ranges[n - 1].1)),
    decreases n,
{
    let len = values.len() as int;
    lemma_contiguous_at(ranges, 0, len, n - 1);
    let stretch = values.subrange(ranges[n - 1].0, ranges[n - 1].1);
    assert(folds_to(reducer, stretch, parts[n - 1]));
    lemma_folds_left(reducer, join, stretch, parts[n - 1]);
    if n == 1 {
        assert(parts.take(1).len() == 1);
        assert(parts.take(1)[0] == parts[0]);
    } else {
        lemma_parts_fold_left(reducer, join, values, ranges, parts, n - 1);
        lemma_contiguous_at(ranges, 0, len, n - 2);
        let before = values.subrange(0, ranges[n - 2].1);
        assert(before + stretch =~= values.subrange(0, ranges[n - 1].1));
        lemma_fold_concat(join, before, stretch);
        assert(parts.take(n).drop_last() =~= parts.take(n - 1));
        assert(parts.take(n).last() == parts[n - 1]);
    }
}

} // verus!
