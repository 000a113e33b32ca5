//! The sample representation and its saturating arithmetic.
//!
//! Samples are 16-bit signed integers. Mixing never wraps: every addition is
//! held to the representable range, and a mix is the left-to-right fold of
//! that addition over the values that are present.

use vstd::prelude::*;

verus! {

/// One value of a flattened, channel-interleaved stream.
pub type Sample = i16;

/// The neutral sample: adding it changes nothing.
pub const SILENCE: Sample = 0;

/// The sum of two samples, held to the range of [`Sample`].
pub open spec fn sat_add(a: Sample, b: Sample) -> Sample {
    if a + b > Sample::MAX {
        Sample::MAX
    } else if a + b < Sample::MIN {
        Sample::MIN
    } else {
        (a + b) as Sample
    }
}

/// The left-to-right saturating sum of `values`, starting from `acc`.
pub open spec fn sat_fold(acc: Sample, values: Seq<Sample>) -> Sample
    decreases values.len(),
{
    if values.len() == 0 {
        acc
    } else {
        sat_add(sat_fold(acc, values.drop_last()), values.last())
    }
}

/// The mix of a set of present values with an optional extra value.
///
/// The extra value comes first in the fold. The mix is absent only when
/// there is no value at all.
pub open spec fn mix(values: Seq<Sample>, main: Option<Sample>) -> Option<Sample> {
    match main {
        Some(m) => Some(sat_fold(m, values)),
        None => if values.len() == 0 {
            None
        } else {
            Some(sat_fold(SILENCE, values))
        },
    }
}

/// Adds two samples, saturating at the ends of the range.
pub fn saturating_add(a: Sample, b: Sample) -> (r: Sample)
    ensures
        r == sat_add(a, b),
{
    let wide: i32 = a as i32 + b as i32;
    if wide > Sample::MAX as i32 {
        Sample::MAX
    } else if wide < Sample::MIN as i32 {
        Sample::MIN
    } else {
        wide as Sample
    }
}

/// Folding one more value extends the fold by one saturating addition.
pub proof fn lemma_fold_push(acc: Sample, values: Seq<Sample>, v: Sample)
    ensures
        sat_fold(acc, values.push(v)) == sat_add(sat_fold(acc, values), v),
{
    assert(values.push(v).drop_last() =~= values);
}

/// Folding a concatenation is folding the first part, then the second.
pub proof fn lemma_fold_concat(acc: Sample, front: Seq<Sample>, back: Seq<Sample>)
    ensures
        sat_fold(acc, front + back) == sat_fold(sat_fold(acc, front), back),
    decreases back.len(),
{
    if back.len() == 0 {
        assert(front + back =~= front);
    } else {
        lemma_fold_concat(acc, front, back.drop_last());
        assert((front + back).drop_last() =~= front + back.drop_last());
        assert((front + back).last() == back.last());
    }
}

/// Values that are all silent leave the accumulator as it was.
pub proof fn lemma_fold_silence(acc: Sample, values: Seq<Sample>)
    requires
        forall|i: int| 0 <= i < values.len() ==> values[i] == SILENCE,
    ensures
        sat_fold(acc, values) == acc,
    decreases values.len(),
{
    if values.len() > 0 {
        lemma_fold_silence(acc, values.drop_last());
    }
}

} // verus!
