//! Partition planning: split a source of `total_length` bytes into
//! `part_count` contiguous, non-overlapping ranges that cover it exactly.
//! Every part gets the nominal size `total_length / part_count`; the final
//! part also absorbs the remainder, so it is never smaller than the others.

use vstd::prelude::*;
use crate::UploadError;

verus! {

/// One contiguous byte range of the source, uploaded as one part.
/// Part numbers are 1-based, as object stores require.
#[derive(Clone, Copy, Debug, PartialEq, Eq, Structural)]
pub struct PartRange {
    pub part_number: u64,
    pub offset: u64,
    pub length: u64,
}

/// The nominal part size: every part but the last has exactly this length.
pub open spec fn nominal_size(total_length: u64, part_count: u64) -> int {
    total_length as int / part_count as int
}

/// The range of the part at 0-based index `i` of the plan.
pub open spec fn planned_range(total_length: u64, part_count: u64, i: int) -> PartRange {
    let base = nominal_size(total_length, part_count);
    let rem = total_length as int % part_count as int;
    PartRange {
        part_number: (i + 1) as u64,
        offset: (i * base) as u64,
        length: if i == part_count - 1 {
            (base + rem) as u64
        } else {
            base as u64
        },
    }
}

/// The whole plan for a source of `total_length` bytes in `part_count` parts.
pub open spec fn spec_plan(total_length: u64, part_count: u64) -> Seq<PartRange> {
    Seq::new(part_count as nat, |i: int| planned_range(total_length, part_count, i))
}

/// An input is plannable when there is at least one part and no part would
/// be empty: each of the `part_count` parts must get at least one byte.
pub open spec fn plannable(total_length: u64, part_count: u64) -> bool {
    1 <= part_count <= total_length
}

/// The sum of the lengths of a sequence of ranges.
pub open spec fn sum_of_lengths(ranges: Seq<PartRange>) -> int
    decreases ranges.len(),
{
    if ranges.len() == 0 {
        0
    } else {
        sum_of_lengths(ranges.drop_last()) + ranges.last().length
    }
}

/// What it means for `ranges` to partition a source of `total_length` bytes:
/// part numbers ascend from 1, the first range starts at offset 0, each range
/// begins exactly where the previous one ends, no range is empty, and the
/// lengths sum to the whole source length.
pub open spec fn is_valid_partition(ranges: Seq<PartRange>, total_length: u64) -> bool {
    &&& ranges.len() > 0
    &&& ranges[0].offset == 0
    &&& forall|i: int| 0 <= i < ranges.len() ==> #[trigger] ranges[i].part_number == i + 1
    &&& forall|i: int| 0 <= i < ranges.len() ==> #[trigger] ranges[i].length > 0
    &&& forall|i: int|
        0 <= i < ranges.len() - 1 ==> #[trigger] ranges[i + 1].offset == ranges[i].offset
            + ranges[i].length
    &&& sum_of_lengths(ranges) == total_length
}

/// Plan the upload: compute the ordered list of part ranges.
///
/// Fails with `InvalidPartition` exactly when `part_count` is zero or larger
/// than `total_length` (a part cannot be empty); on success the returned
/// ranges are exactly `spec_plan(total_length, part_count)`.
pub fn plan(total_length: u64, part_count: u64) -> (r: Result<Vec<PartRange>, UploadError>)
    ensures
        match r {
            Ok(ranges) => plannable(total_length, part_count) && ranges@ == spec_plan(
                total_length,
                part_count,
            ),
            Err(e) => !plannable(total_length, part_count) && e == UploadError::InvalidPartition,
        },
{
    if part_count == 0 || part_count > total_length {
        return Err(UploadError::InvalidPartition);
    }
    let base: u64 = total_length / part_count;
    let rem: u64 = total_length % part_count;
    proof {
        vstd::arithmetic::div_mod::lemma_fundamental_div_mod(
            total_length as int,
            part_count as int,
        );
        vstd::arithmetic::div_mod::lemma_div_pos_is_pos(total_length as int, part_count as int);
    }
    let mut ranges: Vec<PartRange> = Vec::new();
    let mut i: u64 = 0;
    let mut offset: u64 = 0;
    while i < part_count
        invariant
            plannable(total_length, part_count),
            base == nominal_size(total_length, part_count),
            rem == total_length as int % part_count as int,
            total_length == part_count * base + rem,
            i <= part_count,
            offset == i * base,
            ranges@.len() == i,
            forall|j: int|
                0 <= j < i ==> #[trigger] ranges@[j] == planned_range(
                    total_length,
                    part_count,
                    j,
                ),
        decreases part_count - i,
    {
        proof {
            assert((i + 1) * base <= part_count * base) by (nonlinear_arith)
                requires
                    i + 1 <= part_count,
                    base >= 0,
            ;
            assert((i + 1) * base == i * base + base) by (nonlinear_arith);
        }
        let length: u64 = if i == part_count - 1 {
            base + rem
        } else {
            base
        };
        ranges.push(PartRange { part_number: i + 1, offset, length });
        offset = offset + base;
        i = i + 1;
    }
    proof {
        assert(ranges@ =~= spec_plan(total_length, part_count));
    }
    Ok(ranges)
}

/// Bounds on the planned sizes: the nominal size is at least one byte, and
/// even the last range, which absorbs the remainder, never exceeds the
/// source length.
proof fn lemma_plan_bounds(total_length: u64, part_count: u64)
    requires
        plannable(total_length, part_count),
    ensures
        1 <= nominal_size(total_length, part_count),
        0 <= total_length as int % part_count as int,
        nominal_size(total_length, part_count) + total_length as int % part_count as int
            <= total_length,
        part_count * nominal_size(total_length, part_count) + total_length as int
            % part_count as int == total_length,
{
    let base = nominal_size(total_length, part_count);
    let rem = total_length as int % part_count as int;
    vstd::arithmetic::div_mod::lemma_fundamental_div_mod(total_length as int, part_count as int);
    vstd::arithmetic::div_mod::lemma_div_pos_is_pos(total_length as int, part_count as int);
    vstd::arithmetic::div_mod::lemma_remainder_lower(total_length as int, part_count as int);
    assert(base >= 1) by {
        if base == 0 {
            assert(part_count * 0 == 0) by (nonlinear_arith);
        }
    };
    assert(part_count * base >= base) by (nonlinear_arith)
        requires
            part_count >= 1,
            base >= 0,
    ;
}

/// The sum of the lengths of the first `k` planned ranges is `k` times the
/// nominal size, plus the remainder once the last range is included.
proof fn lemma_plan_prefix_sum(total_length: u64, part_count: u64, k: int)
    requires
        plannable(total_length, part_count),
        0 <= k <= part_count,
    ensures
        sum_of_lengths(spec_plan(total_length, part_count).take(k)) == k * nominal_size(
            total_length,
            part_count,
        ) + if k == part_count {
            total_length as int % part_count as int
        } else {
            0
        },
    decreases k,
{
    let s = spec_plan(total_length, part_count);
    let base = nominal_size(total_length, part_count);
    lemma_plan_bounds(total_length, part_count);
    if k == 0 {
        assert(s.take(0).len() == 0);
    } else {
        lemma_plan_prefix_sum(total_length, part_count, k - 1);
        assert(s.take(k).drop_last() =~= s.take(k - 1));
        assert(s.take(k).last() == s[k - 1]);
        assert(s[k - 1] == planned_range(total_length, part_count, k - 1));
        assert(s[k - 1].length == base + if k == part_count {
            total_length as int % part_count as int
        } else {
            0
        });
        assert(sum_of_lengths(s.take(k)) == sum_of_lengths(s.take(k - 1)) + s[k - 1].length);
        assert(k * base == (k - 1) * base + base) by (nonlinear_arith);
    }
}

/// The planner's output is a valid partition of the source: ranges are
/// ordered by part number starting at 1, contiguous from offset 0, none is
/// empty, and their lengths sum exactly to `total_length`.
pub proof fn lemma_plan_is_valid_partition(total_length: u64, part_count: u64)
    requires
        plannable(total_length, part_count),
    ensures
        is_valid_partition(spec_plan(total_length, part_count), total_length),
        spec_plan(total_length, part_count).len() == part_count,
{
    let s = spec_plan(total_length, part_count);
    let base = nominal_size(total_length, part_count);
    let rem = total_length as int % part_count as int;
    lemma_plan_bounds(total_length, part_count);
    assert forall|i: int| 0 <= i < s.len() - 1 implies #[trigger] s[i + 1].offset == s[i].offset
        + s[i].length by {
        assert((i + 1) * base == i * base + base) by (nonlinear_arith);
        assert((i + 1) * base <= part_count * base) by (nonlinear_arith)
            requires
                i + 1 <= part_count,
                base >= 0,
        ;
        assert(i * base >= 0) by (nonlinear_arith)
            requires
                i >= 0,
                base >= 0,
        ;
    }
    assert forall|i: int| 0 <= i < s.len() implies #[trigger] s[i].length > 0 by {
        assert((i + 1) * base <= part_count * base) by (nonlinear_arith)
            requires
                i + 1 <= part_count,
                base >= 0,
        ;
    }
    lemma_plan_prefix_sum(total_length, part_count, part_count as int);
    assert(s.take(part_count as int) =~= s);
}

/// Only the last planned range may exceed the nominal size
/// `total_length / part_count`: every other range equals it exactly, and the
/// last equals the nominal size plus the division remainder, so it is never
/// smaller than the others.
pub proof fn lemma_plan_part_sizes(total_length: u64, part_count: u64)
    requires
        plannable(total_length, part_count),
    ensures
        forall|i: int|
            0 <= i < part_count - 1 ==> #[trigger] spec_plan(total_length, part_count)[i].length
                == nominal_size(total_length, part_count),
        spec_plan(total_length, part_count)[part_count - 1].length == nominal_size(
            total_length,
            part_count,
        ) + total_length as int % part_count as int,
        spec_plan(total_length, part_count)[part_count - 1].length >= nominal_size(
            total_length,
            part_count,
        ),
{
    lemma_plan_bounds(total_length, part_count);
}

/// The bytes of the source selected by `ranges`, concatenated in range order:
/// what the store reassembles when the parts are committed in part-number
/// order.
pub open spec fn reassembled_bytes(source: Seq<u8>, ranges: Seq<PartRange>) -> Seq<u8>
    decreases ranges.len(),
{
    if ranges.len() == 0 {
        Seq::empty()
    } else {
        reassembled_bytes(source, ranges.drop_last()) + source.subrange(
            ranges.last().offset as int,
            ranges.last().offset + ranges.last().length,
        )
    }
}

/// Prefix sums of a partition grow monotonically with the prefix length.
proof fn lemma_sum_take_monotonic(ranges: Seq<PartRange>, k: int, m: int)
    requires
        0 <= k <= m <= ranges.len(),
    ensures
        sum_of_lengths(ranges.take(k)) <= sum_of_lengths(ranges.take(m)),
    decreases m - k,
{
    if k < m {
        lemma_sum_take_monotonic(ranges, k, m - 1);
        assert(ranges.take(m).drop_last() =~= ranges.take(m - 1));
    }
}

/// In a valid partition each range starts exactly at the sum of the lengths
/// before it, and the bytes of the first `k` ranges concatenate to the first
/// `sum_of_lengths(take(k))` bytes of the source.
proof fn lemma_reassemble_prefix(
    source: Seq<u8>,
    ranges: Seq<PartRange>,
    total_length: u64,
    k: int,
)
    requires
        is_valid_partition(ranges, total_length),
        source.len() == total_length,
        0 <= k <= ranges.len(),
    ensures
        k < ranges.len() ==> sum_of_lengths(ranges.take(k)) == ranges[k].offset,
        reassembled_bytes(source, ranges.take(k)) == source.take(sum_of_lengths(ranges.take(k))),
    decreases k,
{
    if k == 0 {
        assert(ranges.take(0).len() == 0);
        assert(source.take(0) =~= Seq::<u8>::empty());
    } else {
        lemma_reassemble_prefix(source, ranges, total_length, k - 1);
        let prev_end = sum_of_lengths(ranges.take(k - 1));
        assert(ranges.take(k).drop_last() =~= ranges.take(k - 1));
        assert(ranges.take(k).last() == ranges[k - 1]);
        assert(prev_end == ranges[k - 1].offset);
        let end = sum_of_lengths(ranges.take(k));
        assert(end == ranges[k - 1].offset + ranges[k - 1].length);
        if k < ranges.len() {
            assert(ranges[(k - 1) + 1].offset == ranges[k - 1].offset + ranges[k - 1].length);
        }
        assert(end <= total_length) by {
            lemma_sum_take_monotonic(ranges, k, ranges.len() as int);
            assert(ranges.take(ranges.len() as int) =~= ranges);
        }
        assert(reassembled_bytes(source, ranges.take(k)) == source.take(prev_end) + source.subrange(
            ranges[k - 1].offset as int,
            ranges[k - 1].offset + ranges[k - 1].length,
        ));
        assert(source.take(prev_end) + source.subrange(prev_end, end) =~= source.take(end));
    }
}

/// Round trip: committing the parts of a valid partition in part-number
/// order reassembles exactly the bytes of the source, so a multipart upload
/// stores the same object as a single-shot upload of the whole source.
pub proof fn lemma_partition_reassembles_source(
    source: Seq<u8>,
    ranges: Seq<PartRange>,
    total_length: u64,
)
    requires
        is_valid_partition(ranges, total_length),
        source.len() == total_length,
    ensures
        reassembled_bytes(source, ranges) == source,
{
    lemma_reassemble_prefix(source, ranges, total_length, ranges.len() as int);
    assert(ranges.take(ranges.len() as int) =~= ranges);
    assert(source.take(total_length as int) =~= source);
}

/// Planning is deterministic: any two range lists planned from the same
/// `total_length` and `part_count` are equal.  Together with `plan`'s
/// contract, which pins its result to `spec_plan`, two calls of `plan` on
/// identical arguments return identical plans.
pub proof fn lemma_plan_deterministic(
    first: Seq<PartRange>,
    second: Seq<PartRange>,
    total_length: u64,
    part_count: u64,
)
    requires
        first == spec_plan(total_length, part_count),
        second == spec_plan(total_length, part_count),
    ensures
        first == second,
{
}

/// When the source has exactly as many bytes as there are parts, every part
/// is exactly one byte: the boundary case plans with no zero-length parts.
pub proof fn lemma_plan_one_byte_parts(total_length: u64)
    requires
        total_length >= 1,
    ensures
        forall|i: int|
            0 <= i < total_length ==> #[trigger] spec_plan(total_length, total_length)[i].length
                == 1,
        forall|i: int|
            0 <= i < total_length ==> #[trigger] spec_plan(total_length, total_length)[i].offset
                == i,
{
    vstd::arithmetic::div_mod::lemma_div_by_self(total_length as int);
    vstd::arithmetic::div_mod::lemma_mod_self_0(total_length as int);
    assert forall|i: int| 0 <= i < total_length implies #[trigger] spec_plan(
        total_length,
        total_length,
    )[i].offset == i by {
        assert(i * 1 == i) by (nonlinear_arith);
    }
}

} // verus!
