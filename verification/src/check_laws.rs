//! What the checks on offsets, usages and push constant uploads admit and refuse.
use vstd::prelude::*;
use vstd::std_specs::bits::{axiom_u32_trailing_zeros, u32_trailing_zeros};

use crate::error::{BindError, PushConstantUploadError};
use crate::hub::{dynamic_binding_fault, first_offset_fault, offset_fault, DynamicBinding};
use crate::id::{has_all, has_any, DynamicOffset, PushConstantRange, ShaderStage};
use crate::push_constants::{addressed_stages, first_range_fault, range_fault, upload_fault};

verus! {

/// Bit `b` of `flags` is set.
pub open spec fn flag(flags: u32, b: u32) -> bool {
    (flags >> b) & 1u32 == 1u32
}

/// Every flag of `part` is in `whole` if and only if no bit is set in `part` alone, and the two
/// share a flag if and only if some bit is set in both.
pub proof fn law_flags_compare_bit_by_bit(whole: u32, part: u32)
    ensures
        has_all(whole, part) <==> forall|b: u32|
            b < 32 && #[trigger] flag(part, b) ==> flag(whole, b),
        has_any(whole, part) <==> exists|b: u32|
            b < 32 && #[trigger] flag(part, b) && flag(whole, b),
{
    let alone = part & !whole;
    let both = part & whole;
    assert(whole & part == both) by (bit_vector)
        requires
            both == part & whole,
    ;
    assert(alone == 0 <==> both == part) by (bit_vector)
        requires
            alone == part & !whole,
            both == part & whole,
    ;
    lemma_zero_has_no_flag(alone);
    lemma_zero_has_no_flag(both);
    if alone != 0 {
        let b = choose|b: u32| b < 32 && #[trigger] flag(alone, b);
        lemma_flags_split(whole, part, b);
        assert(flag(part, b) && !flag(whole, b));
    } else {
        assert forall|b: u32| b < 32 && #[trigger] flag(part, b) implies flag(whole, b) by {
            lemma_flags_split(whole, part, b);
            assert(!flag(alone, b));
        }
    }
    if both != 0 {
        let b = choose|b: u32| b < 32 && #[trigger] flag(both, b);
        lemma_flags_split(whole, part, b);
        assert(flag(part, b) && flag(whole, b));
    } else {
        assert forall|b: u32| b < 32 && #[trigger] flag(part, b) implies !flag(whole, b) by {
            lemma_flags_split(whole, part, b);
            assert(!flag(both, b));
        }
    }
}

proof fn lemma_flags_split(whole: u32, part: u32, b: u32)
    requires
        b < 32,
    ensures
        flag(part & !whole, b) <==> flag(part, b) && !flag(whole, b),
        flag(part & whole, b) <==> flag(part, b) && flag(whole, b),
{
    let alone = part & !whole;
    let both = part & whole;
    assert(((alone >> b) & 1u32 == 1u32 <==> (part >> b) & 1u32 == 1u32 && (whole >> b) & 1u32
        != 1u32) && ((both >> b) & 1u32 == 1u32 <==> (part >> b) & 1u32 == 1u32 && (whole >> b)
        & 1u32 == 1u32)) by (bit_vector)
        requires
            b < 32,
            alone == part & !whole,
            both == part & whole,
    ;
}

proof fn lemma_zero_has_no_flag(flags: u32)
    ensures
        flags == 0 <==> forall|b: u32| b < 32 ==> !#[trigger] flag(flags, b),
{
    axiom_u32_trailing_zeros(flags);
    if flags != 0 {
        assert(flag(flags, u32_trailing_zeros(flags)));
    } else {
        assert forall|b: u32| b < 32 implies !#[trigger] flag(flags, b) by {
            assert((0u32 >> b) & 1u32 == 0u32) by (bit_vector);
        }
    }
}

/// An offset that a dynamic binding can take: a multiple of 256 that keeps the binding inside its
/// buffer.
pub open spec fn offset_suits(info: DynamicBinding, offset: DynamicOffset) -> bool {
    offset as int % 256 == 0 && offset <= info.maximum_dynamic_offset
}

proof fn lemma_first_offset_fault(
    infos: Seq<DynamicBinding>,
    offsets: Seq<DynamicOffset>,
    n: int,
)
    requires
        0 <= n <= infos.len(),
        infos.len() == offsets.len(),
    ensures
        first_offset_fault(infos, offsets, n) is None <==> forall|i: int|
            0 <= i < n ==> offset_suits(infos[i], #[trigger] offsets[i]),
        forall|i: int|
            0 <= i < n && !offset_suits(infos[i], #[trigger] offsets[i]) && (forall|j: int|
                0 <= j < i ==> offset_suits(infos[j], #[trigger] offsets[j]))
                ==> first_offset_fault(infos, offsets, n) == offset_fault(infos[i], i, offsets[i]),
    decreases n,
{
    if n > 0 {
        lemma_first_offset_fault(infos, offsets, n - 1);
        assert(offset_fault(infos[n - 1], n - 1, offsets[n - 1]) is None <==> offset_suits(
            infos[n - 1],
            offsets[n - 1],
        ));
    }
}

/// Dynamic offsets are in order if and only if there is one for each dynamic binding and each
/// suits its own binding.
pub proof fn law_dynamic_offsets_suit(infos: Seq<DynamicBinding>, offsets: Seq<DynamicOffset>)
    ensures
        dynamic_binding_fault(infos, offsets) is None <==> infos.len() == offsets.len() && forall|
            i: int,
        |
            0 <= i < offsets.len() ==> offset_suits(infos[i], #[trigger] offsets[i]),
{
    if infos.len() == offsets.len() {
        lemma_first_offset_fault(infos, offsets, infos.len() as int);
    }
}

/// Dynamic offsets that are not in order are refused for their number, or else for the first that
/// does not suit: as unaligned if it is no multiple of 256, or else as out of bounds.
pub proof fn law_dynamic_offset_refusals(
    infos: Seq<DynamicBinding>,
    offsets: Seq<DynamicOffset>,
    i: int,
)
    ensures
        infos.len() != offsets.len() ==> dynamic_binding_fault(infos, offsets) == Some(
            BindError::MismatchedDynamicOffsetCount {
                actual: offsets.len() as usize,
                expected: infos.len() as usize,
            },
        ),
        infos.len() == offsets.len() && 0 <= i < offsets.len() && !offset_suits(
            infos[i],
            offsets[i],
        ) && (forall|j: int| 0 <= j < i ==> offset_suits(infos[j], #[trigger] offsets[j])) ==> {
            let max = infos[i].maximum_dynamic_offset;
            let (idx, offset) = (i as usize, offsets[i]);
            &&& offset as int % 256 != 0 ==> dynamic_binding_fault(infos, offsets) == Some(
                BindError::UnalignedDynamicBinding { idx, offset },
            )
            &&& offset as int % 256 == 0 ==> dynamic_binding_fault(infos, offsets) == Some(
                BindError::DynamicBindingOutOfBounds { idx, offset, max },
            )
        },
{
    if infos.len() == offsets.len() {
        lemma_first_offset_fault(infos, offsets, infos.len() as int);
    }
}

/// The range is visible to no stage outside `stages`, so an upload to `stages` addresses it.
pub open spec fn addressed(range: PushConstantRange, stages: ShaderStage) -> bool {
    range.stages & !stages == 0
}

/// Some stage sees the range and is among `stages`.
pub open spec fn shared(range: PushConstantRange, stages: ShaderStage) -> bool {
    range.stages & stages != 0
}

/// One range of a layout lets the bytes `offset..end` be uploaded to `stages`: it is addressed and
/// holds all of the bytes, or it is visible to other stages only and touches none of them.
pub open spec fn range_admits(
    range: PushConstantRange,
    stages: ShaderStage,
    offset: u32,
    end: u32,
) -> bool {
    if addressed(range, stages) {
        range.start <= offset && end <= range.end
    } else {
        !shared(range, stages) && (range.end <= offset || end <= range.start)
    }
}

/// Some addressed range is visible to the stage with bit `b`.
pub open spec fn stage_has_range(
    ranges: Seq<PushConstantRange>,
    stages: ShaderStage,
    b: u32,
) -> bool {
    exists|i: int|
        0 <= i < ranges.len() && addressed(#[trigger] ranges[i], stages) && flag(
            ranges[i].stages,
            b,
        )
}

proof fn lemma_range_fault(
    range: PushConstantRange,
    idx: int,
    stages: ShaderStage,
    offset: u32,
    end: u32,
)
    ensures
        has_all(stages, range.stages) <==> addressed(range, stages),
        has_any(stages, range.stages) <==> shared(range, stages),
        range_fault(range, idx, stages, offset, end) is None <==> range_admits(
            range,
            stages,
            offset,
            end,
        ),
{
    let part = range.stages;
    assert(stages & part == part <==> part & !stages == 0) by (bit_vector);
    assert(stages & part == part & stages) by (bit_vector);
}

proof fn lemma_first_range_fault(
    ranges: Seq<PushConstantRange>,
    stages: ShaderStage,
    offset: u32,
    end: u32,
    n: int,
)
    requires
        0 <= n <= ranges.len(),
    ensures
        first_range_fault(ranges, stages, offset, end, n) is None <==> forall|i: int|
            0 <= i < n ==> range_admits(#[trigger] ranges[i], stages, offset, end),
        forall|i: int|
            0 <= i < n && !range_admits(#[trigger] ranges[i], stages, offset, end) && (forall|
                j: int,
            |
                0 <= j < i ==> range_admits(#[trigger] ranges[j], stages, offset, end))
                ==> first_range_fault(ranges, stages, offset, end, n) == range_fault(
                ranges[i],
                i,
                stages,
                offset,
                end,
            ),
    decreases n,
{
    if n > 0 {
        lemma_first_range_fault(ranges, stages, offset, end, n - 1);
        lemma_range_fault(ranges[n - 1], n - 1, stages, offset, end);
    }
}

proof fn lemma_addressed_stages(ranges: Seq<PushConstantRange>, stages: ShaderStage, n: int, b: u32)
    requires
        0 <= n <= ranges.len(),
        b < 32,
    ensures
        flag(addressed_stages(ranges, stages, n), b) <==> exists|i: int|
            0 <= i < n && addressed(#[trigger] ranges[i], stages) && flag(ranges[i].stages, b),
        addressed_stages(ranges, stages, n) & !stages == 0,
    decreases n,
{
    if n <= 0 {
        assert((0u32 >> b) & 1u32 == 0u32 && 0u32 & !stages == 0) by (bit_vector);
    } else {
        lemma_addressed_stages(ranges, stages, n - 1, b);
        lemma_range_fault(ranges[n - 1], n - 1, stages, 0, 0);
        let rest = addressed_stages(ranges, stages, n - 1);
        let more = ranges[n - 1].stages;
        assert(((rest | more) >> b) & 1u32 == 1u32 <==> (rest >> b) & 1u32 == 1u32 || (more >> b)
            & 1u32 == 1u32) by (bit_vector)
            requires
                b < 32,
        ;
        assert(rest & !stages == 0 && more & !stages == 0 ==> (rest | more) & !stages == 0)
            by (bit_vector);
        if addressed(ranges[n - 1], stages) && flag(more, b) {
            assert(exists|i: int|
                0 <= i < n && addressed(#[trigger] ranges[i], stages) && flag(ranges[i].stages, b));
        }
    }
}

proof fn lemma_unmatched(ranges: Seq<PushConstantRange>, stages: ShaderStage)
    ensures
        ({
            let found = addressed_stages(ranges, stages, ranges.len() as int);
            &&& found == stages <==> forall|b: u32|
                b < 32 && #[trigger] flag(stages, b) ==> stage_has_range(ranges, stages, b)
            &&& forall|b: u32|
                b < 32 ==> (#[trigger] flag(stages & !found, b) <==> flag(stages, b)
                    && !stage_has_range(ranges, stages, b))
        }),
{
    let n = ranges.len() as int;
    let found = addressed_stages(ranges, stages, n);
    let left = stages & !found;
    lemma_addressed_stages(ranges, stages, n, 0);
    assert(left == 0 <==> found == stages) by (bit_vector)
        requires
            left == stages & !found,
            found & !stages == 0,
    ;
    assert forall|b: u32| b < 32 implies (#[trigger] flag(left, b) <==> flag(stages, b)
        && !stage_has_range(ranges, stages, b)) by {
        lemma_addressed_stages(ranges, stages, n, b);
        lemma_flags_split(found, stages, b);
    }
    lemma_zero_has_no_flag(left);
    if left != 0 {
        let b = choose|b: u32| b < 32 && #[trigger] flag(left, b);
        assert(flag(stages, b) && !stage_has_range(ranges, stages, b));
    } else {
        assert forall|b: u32| b < 32 && #[trigger] flag(stages, b) implies stage_has_range(
            ranges,
            stages,
            b,
        ) by {
            assert(!flag(left, b));
        }
    }
}

/// The bytes `offset..end` may be uploaded to `stages` if and only if the offset is a multiple of
/// 4, every range of the layout lets them pass, and each of the stages sees an addressed range.
pub proof fn law_upload_is_admitted(
    ranges: Seq<PushConstantRange>,
    stages: ShaderStage,
    offset: u32,
    end: u32,
)
    ensures
        upload_fault(ranges, stages, offset, end) is None <==> {
            &&& offset as int % 4 == 0
            &&& forall|i: int|
                0 <= i < ranges.len() ==> range_admits(#[trigger] ranges[i], stages, offset, end)
            &&& forall|b: u32|
                b < 32 && #[trigger] flag(stages, b) ==> stage_has_range(ranges, stages, b)
        },
{
    lemma_first_range_fault(ranges, stages, offset, end, ranges.len() as int);
    lemma_unmatched(ranges, stages);
}

/// An upload that is not admitted is refused as unaligned, or else for the first range that does
/// not let it pass, or else for the stages that see no addressed range, naming exactly those.
pub proof fn law_upload_refusals(
    ranges: Seq<PushConstantRange>,
    stages: ShaderStage,
    offset: u32,
    end: u32,
    i: int,
)
    ensures
        ({
            let fault = upload_fault(ranges, stages, offset, end);
            let idx = i as usize;
            &&& offset as int % 4 != 0 ==> fault == Some(PushConstantUploadError::Unaligned(offset))
            &&& offset as int % 4 == 0 && 0 <= i < ranges.len() && !range_admits(
                ranges[i],
                stages,
                offset,
                end,
            ) && (forall|j: int|
                0 <= j < i ==> range_admits(#[trigger] ranges[j], stages, offset, end)) ==> {
                let range = ranges[i];
                &&& addressed(range, stages) ==> fault == Some(
                    PushConstantUploadError::TooLarge { offset, end_offset: end, idx, range },
                )
                &&& !addressed(range, stages) && shared(range, stages) ==> fault == Some(
                    PushConstantUploadError::PartialRangeMatch {
                        actual: stages,
                        idx,
                        matched: range.stages,
                    },
                )
                &&& !shared(range, stages) && !addressed(range, stages) ==> fault == Some(
                    PushConstantUploadError::MissingStages {
                        actual: stages,
                        idx,
                        missing: range.stages,
                    },
                )
            }
            &&& offset as int % 4 == 0 && (forall|j: int|
                0 <= j < ranges.len() ==> range_admits(#[trigger] ranges[j], stages, offset, end))
                && fault is Some ==> {
                &&& fault matches Some(
                    PushConstantUploadError::UnmatchedStages { actual, unmatched },
                )
                &&& actual == stages
                &&& forall|b: u32|
                    b < 32 ==> (#[trigger] flag(unmatched, b) <==> flag(stages, b)
                        && !stage_has_range(ranges, stages, b))
            }
        }),
{
    lemma_first_range_fault(ranges, stages, offset, end, ranges.len() as int);
    lemma_unmatched(ranges, stages);
    if 0 <= i < ranges.len() {
        lemma_range_fault(ranges[i], i, stages, offset, end);
    }
}

/// Whatever lies inside an admitted upload and is aligned may be uploaded too.
pub proof fn law_part_of_an_upload_is_admitted(
    ranges: Seq<PushConstantRange>,
    stages: ShaderStage,
    offset: u32,
    end: u32,
    inner_offset: u32,
    inner_end: u32,
)
    requires
        upload_fault(ranges, stages, offset, end) is None,
        offset <= inner_offset <= inner_end <= end,
        inner_offset as int % 4 == 0,
    ensures
        upload_fault(ranges, stages, inner_offset, inner_end) is None,
{
    law_upload_is_admitted(ranges, stages, offset, end);
    law_upload_is_admitted(ranges, stages, inner_offset, inner_end);
    assert forall|i: int| 0 <= i < ranges.len() implies range_admits(
        #[trigger] ranges[i],
        stages,
        inner_offset,
        inner_end,
    ) by {
        assert(range_admits(ranges[i], stages, offset, end));
    }
}

/// Where a layout has one range, every aligned upload inside it to just the stages that see it is
/// admitted, whatever its length.
pub proof fn law_upload_inside_the_only_range_is_admitted(
    range: PushConstantRange,
    offset: u32,
    end: u32,
)
    requires
        offset as int % 4 == 0,
        range.start <= offset <= end <= range.end,
    ensures
        upload_fault(seq![range], range.stages, offset, end) is None,
{
    let ranges = seq![range];
    let stages = range.stages;
    assert(stages & !stages == 0) by (bit_vector);
    law_upload_is_admitted(ranges, stages, offset, end);
    assert forall|b: u32| b < 32 && #[trigger] flag(stages, b) implies stage_has_range(
        ranges,
        stages,
        b,
    ) by {
        assert(addressed(ranges[0], stages));
    }
}

} // verus!
