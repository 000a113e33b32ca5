//! Lanes: fixed-size groups of values that are processed together.
//!
//! A group of `N` lanes is an array of `N` values; a mask is an array of `N`
//! booleans that says which lanes count. [`SimdIter`] cuts a slice into such
//! groups, [`gather_select_or_checked_u64`] reads a slice at a group of
//! indices, and [`SimdOps`] says how the lanes of a sample type are added.

use vstd::prelude::*;
use crate::sample::{Sample, SILENCE, sat_add, sat_fold, saturating_add, lemma_fold_push};

verus! {

/// The lanes of the group that starts at `pos`: the values of `src` from
/// there on, and the lanes of `or` where `src` has run out.
pub open spec fn lanes_at<T>(src: Seq<T>, or: Seq<T>, pos: int) -> Seq<T> {
    Seq::new(
        or.len(),
        |j: int|
            if pos + j < src.len() {
                src[pos + j]
            } else {
                or[j]
            },
    )
}

/// The mask of the group that starts at `pos`: a lane counts when `src`
/// still has a value for it.
pub open spec fn mask_at(len: nat, lanes: nat, pos: int) -> Seq<bool> {
    Seq::new(lanes, |j: int| pos + j < len)
}

/// The groups that cover `src` from `pos` on, each as wide as `or`. The last
/// one is filled up from `or` and masked where `src` has run out.
pub open spec fn chunks_from<T>(src: Seq<T>, or: Seq<T>, pos: int) -> Seq<(Seq<T>, Seq<bool>)>
    decreases
        (if pos < src.len() {
            src.len() - pos
        } else {
            0
        }),
{
    if pos < 0 || pos >= src.len() || or.len() == 0 {
        Seq::empty()
    } else {
        let rest = chunks_from(src, or, pos + or.len());
        seq![(lanes_at(src, or, pos), mask_at(src.len(), or.len(), pos))] + rest
    }
}

/// The number of groups that cover the values of `src` from `pos` on:
/// one for every `or.len()` values, and one more for what is left over.
pub proof fn lemma_chunk_count<T>(src: Seq<T>, or: Seq<T>, pos: int)
    requires
        0 <= pos <= src.len(),
        or.len() > 0,
    ensures
        chunks_from(src, or, pos).len() == (src.len() - pos) / (or.len() as int) + (if (src.len()
            - pos) % (or.len() as int) == 0 {
            0int
        } else {
            1int
        }),
    decreases src.len() - pos,
{
    let n = or.len() as int;
    let left = src.len() - pos;
    if left == 0 {
        assert(0int / n == 0 && 0int % n == 0) by (nonlinear_arith)
            requires
                n > 0,
        ;
    } else if left < n {
        assert(chunks_from(src, or, pos + n) =~= Seq::empty());
        assert(left / n == 0 && left % n == left) by (nonlinear_arith)
            requires
                0 < left < n,
        ;
    } else {
        lemma_chunk_count(src, or, pos + n);
        assert(left / n == (left - n) / n + 1 && left % n == (left - n) % n) by (nonlinear_arith)
            requires
                n > 0,
                left >= n,
        ;
    }
}

/// A group whose lanes all hold `value`.
pub fn splat<T: Copy, const N: usize>(value: T) -> (group: [T; N])
    ensures
        group@ == Seq::new(N as nat, |j: int| value),
{
    let mut group: [T; N] = [value;N];
    let mut j: usize = 0;
    while j < N
        invariant
            0 <= j <= N,
            forall|k: int| 0 <= k < j ==> #[trigger] group@[k] == value,
        decreases N - j,
    {
        group[j] = value;
        j += 1;
    }
    assert(group@ =~= Seq::new(N as nat, |j: int| value));
    group
}

/// A source of lane groups, each with the mask of the lanes that count.
pub trait SimdIterator<T, const N: usize> {
    /// Whether the value is in a state in which it can be advanced.
    spec fn well_formed(&self) -> bool;

    /// The groups still to come, in order, each as its lanes and its mask.
    spec fn remaining(&self) -> Seq<(Seq<T>, Seq<bool>)>;

    /// Hands out the next group, or nothing when none is left.
    fn next(&mut self) -> (item: Option<([T; N], [bool; N])>)
        requires
            old(self).well_formed(),
        ensures
            final(self).well_formed(),
            old(self).remaining().len() == 0 ==> item is None && final(self).remaining() == old(
                self,
            ).remaining(),
            old(self).remaining().len() > 0 ==> item is Some && final(self).remaining() == old(
                self,
            ).remaining().skip(1),
            item matches Some(group) ==> old(self).remaining().len() > 0 && group.0@ == old(
                self,
            ).remaining()[0].0 && group.1@ == old(self).remaining()[0].1,
    ;
}

/// Cuts a slice into groups of `N` lanes.
pub struct SimdIter<'a, T, const N: usize> {
    src: &'a [T],
    or: [T; N],
    pos: usize,
}

impl<'a, T: Copy, const N: usize> SimdIter<'a, T, N> {
    /// The slice that is being cut.
    pub closed spec fn source(&self) -> Seq<T> {
        self.src@
    }

    /// The lanes that fill up the last group.
    pub closed spec fn fallback(&self) -> Seq<T> {
        self.or@
    }

    /// The position in the slice at which the next group starts.
    pub closed spec fn position(&self) -> int {
        self.pos as int
    }

    /// Starts cutting `src` from its beginning; `or` fills up the last group.
    pub fn from_slice_or(src: &'a [T], or: [T; N]) -> (iter: SimdIter<'a, T, N>)
        ensures
            iter.well_formed(),
            iter.source() == src@,
            iter.fallback() == or@,
            iter.position() == 0,
            iter.remaining() == chunks_from(src@, or@, 0),
    {
        SimdIter { src, or, pos: 0 }
    }

    /// Starts cutting `src` from its beginning; the last group is filled up
    /// with the default value of `T`, the same in every lane.
    pub fn from_slice_or_default(src: &'a [T]) -> (iter: SimdIter<'a, T, N>) where T: Default
        ensures
            iter.well_formed(),
            iter.source() == src@,
            iter.fallback().len() == N,
            forall|j: int| 0 <= j < N ==> #[trigger] iter.fallback()[j] == iter.fallback()[0],
            iter.position() == 0,
            iter.remaining() == chunks_from(src@, iter.fallback(), 0),
    {
        let or: [T; N] = splat(T::default());
        SimdIter { src, or, pos: 0 }
    }

    /// The number of groups that the whole slice is cut into, as a lower
    /// and an upper bound. The groups that were handed out count too.
    pub fn size_hint(&self) -> (hint: (usize, Option<usize>))
        requires
            N > 0,
        ensures
            hint.0 == chunks_from(self.source(), self.fallback(), 0).len(),
            hint.1 == Some(hint.0),
    {
        let body_size: usize = self.src.len() / N;
        let tail_size: usize = if self.src.len() % N == 0 {
            0
        } else {
            1
        };
        proof {
            lemma_chunk_count(self.src@, self.or@, 0);
            let len = self.src@.len() as int;
            assert(len % (N as int) != 0 ==> len / (N as int) < len) by (nonlinear_arith)
                requires
                    N > 0,
                    len >= 0,
            ;
        }
        let size: usize = body_size + tail_size;
        (size, Some(size))
    }
}

impl<'a, T: Copy, const N: usize> SimdIterator<T, N> for SimdIter<'a, T, N> {
    closed spec fn well_formed(&self) -> bool {
        self.pos <= self.src@.len()
    }

    closed spec fn remaining(&self) -> Seq<(Seq<T>, Seq<bool>)> {
        chunks_from(self.src@, self.or@, self.pos as int)
    }

    fn next(&mut self) -> (item: Option<([T; N], [bool; N])>)
        ensures
            final(self).source() == old(self).source(),
            final(self).fallback() == old(self).fallback(),
    {
        let len: usize = self.src.len();
        if self.pos >= len || N == 0 {
            return None;
        }
        let start: usize = self.pos;
        let mut lanes: [T; N] = self.or;
        let mut mask: [bool; N] = splat(false);
        let mut j: usize = 0;
        while j < N && j < len - start
            invariant
                start < len == self.src@.len(),
                0 <= j <= N,
                j <= len - start,
                forall|k: int|
                    0 <= k < N ==> #[trigger] lanes@[k] == (if k < j {
                        self.src@[start + k]
                    } else {
                        self.or@[k]
                    }),
                forall|k: int| 0 <= k < N ==> #[trigger] mask@[k] == (k < j),
            decreases N - j,
        {
            lanes[j] = self.src[start + j];
            mask[j] = true;
            j += 1;
        }
        self.pos = if len - start >= N {
            start + N
        } else {
            len
        };
        proof {
            let src = self.src@;
            let or = self.or@;
            assert(lanes@ =~= lanes_at(src, or, start as int));
            assert(mask@ =~= mask_at(src.len(), or.len(), start as int));
            let rest = chunks_from(src, or, start + N);
            assert(chunks_from(src, or, self.pos as int) == rest);
            assert(chunks_from(src, or, start as int).skip(1) =~= rest);
        }
        Some((lanes, mask))
    }
}

/// Reads `source` at each index of `idxs`. A lane whose mask is off, or
/// whose index lies outside `source`, takes its value from `or` instead.
pub fn gather_select_or_checked_u64<T: Copy, const N: usize>(
    source: &[T],
    idxs: [u64; N],
    mask: [bool; N],
    or: [T; N],
) -> (gathered: [T; N])
    ensures
        forall|j: int|
            0 <= j < N ==> #[trigger] gathered@[j] == (if mask@[j] && idxs@[j] < source@.len() {
                source@[idxs@[j] as int]
            } else {
                or@[j]
            }),
{
    let len: usize = source.len();
    let mut gathered: [T; N] = or;
    let mut j: usize = 0;
    while j < N
        invariant
            0 <= j <= N,
            len == source@.len(),
            forall|k: int|
                0 <= k < N ==> #[trigger] gathered@[k] == (if k < j && mask@[k] && idxs@[k]
                    < source@.len() {
                    source@[idxs@[k] as int]
                } else {
                    or@[k]
                }),
        decreases N - j,
    {
        if mask[j] && idxs[j] < len as u64 {
            gathered[j] = source[idxs[j] as usize];
        }
        j += 1;
    }
    gathered
}

/// How the lanes of a sample type are added.
pub trait SimdOps: Sized + Copy {
    /// The sum of two lane values.
    spec fn lane_sum(a: Self, b: Self) -> Self;

    /// The sum of all the lanes of one group.
    spec fn lanes_total(lanes: Seq<Self>) -> Self;

    /// Adds two groups lane by lane.
    fn add<const N: usize>(a: [Self; N], b: [Self; N]) -> (sum: [Self; N])
        ensures
            forall|j: int| 0 <= j < N ==> #[trigger] sum@[j] == Self::lane_sum(a@[j], b@[j]),
    ;

    /// Adds up the lanes of one group, from the first lane to the last.
    fn horizontal_add<const N: usize>(a: [Self; N]) -> (sum: Self)
        ensures
            sum == Self::lanes_total(a@),
    ;
}

impl SimdOps for Sample {
    open spec fn lane_sum(a: Sample, b: Sample) -> Sample {
        sat_add(a, b)
    }

    open spec fn lanes_total(lanes: Seq<Sample>) -> Sample {
        sat_fold(SILENCE, lanes)
    }

    fn add<const N: usize>(a: [Sample; N], b: [Sample; N]) -> (sum: [Sample; N]) {
        let mut sum: [Sample; N] = a;
        let mut j: usize = 0;
        while j < N
            invariant
                0 <= j <= N,
                forall|k: int|
                    0 <= k < N ==> #[trigger] sum@[k] == (if k < j {
                        sat_add(a@[k], b@[k])
                    } else {
                        a@[k]
                    }),
            decreases N - j,
        {
            sum[j] = saturating_add(a[j], b[j]);
            j += 1;
        }
        sum
    }

    fn horizontal_add<const N: usize>(a: [Sample; N]) -> (sum: Sample) {
        let mut sum: Sample = SILENCE;
        let mut j: usize = 0;
        while j < N
            invariant
                0 <= j <= N,
                sum == sat_fold(SILENCE, a@.take(j as int)),
            decreases N - j,
        {
            proof {
                assert(a@.take(j + 1) =~= a@.take(j as int).push(a@[j as int]));
                lemma_fold_push(SILENCE, a@.take(j as int), a@[j as int]);
            }
            sum = saturating_add(sum, a[j]);
            j += 1;
        }
        assert(a@.take(N as int) =~= a@);
        sum
    }
}

} // verus!
