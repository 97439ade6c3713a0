//! Push constants: which uploads a pipeline layout admits, and how its block is cleared.
use vstd::prelude::*;

use crate::error::PushConstantUploadError;
use crate::hub::{verdict, PipelineLayout};
use crate::id::{has_all, has_any, PushConstantRange, ShaderStage, PUSH_CONSTANT_ALIGNMENT};

verus! {

/// The most words that one write of a clear covers.
pub const CLEAR_WORDS: u32 = 64;

/// What is wrong with an upload of the bytes `offset..end_offset` to `stages`, as far as one range
/// of the layout is concerned.
pub open spec fn range_fault(
    range: PushConstantRange,
    idx: int,
    stages: ShaderStage,
    offset: u32,
    end_offset: u32,
) -> Option<PushConstantUploadError> {
    if has_all(stages, range.stages) {
        if range.start <= offset && end_offset <= range.end {
            None
        } else {
            Some(PushConstantUploadError::TooLarge { offset, end_offset, idx: idx as usize, range })
        }
    } else if has_any(stages, range.stages) {
        Some(
            PushConstantUploadError::PartialRangeMatch {
                actual: stages,
                idx: idx as usize,
                matched: range.stages,
            },
        )
    } else if offset < range.end && range.start < end_offset {
        Some(
            PushConstantUploadError::MissingStages {
                actual: stages,
                idx: idx as usize,
                missing: range.stages,
            },
        )
    } else {
        None
    }
}

/// The fault of the first range among the first `n` that has one.
pub open spec fn first_range_fault(
    ranges: Seq<PushConstantRange>,
    stages: ShaderStage,
    offset: u32,
    end_offset: u32,
    n: int,
) -> Option<PushConstantUploadError>
    decreases n,
{
    if n <= 0 {
        None
    } else {
        match first_range_fault(ranges, stages, offset, end_offset, n - 1) {
            Some(e) => Some(e),
            None => range_fault(ranges[n - 1], n - 1, stages, offset, end_offset),
        }
    }
}

/// The stages of those among the first `n` ranges that are visible to no stage outside `stages`.
pub open spec fn addressed_stages(
    ranges: Seq<PushConstantRange>,
    stages: ShaderStage,
    n: int,
) -> ShaderStage
    decreases n,
{
    if n <= 0 {
        0
    } else {
        let rest = addressed_stages(ranges, stages, n - 1);
        if has_all(stages, ranges[n - 1].stages) {
            rest | ranges[n - 1].stages
        } else {
            rest
        }
    }
}

/// What is wrong with an upload of the bytes `offset..end_offset` to `stages`, if anything.
pub open spec fn upload_fault(
    ranges: Seq<PushConstantRange>,
    stages: ShaderStage,
    offset: u32,
    end_offset: u32,
) -> Option<PushConstantUploadError> {
    if offset % PUSH_CONSTANT_ALIGNMENT != 0 {
        Some(PushConstantUploadError::Unaligned(offset))
    } else {
        match first_range_fault(ranges, stages, offset, end_offset, ranges.len() as int) {
            Some(e) => Some(e),
            None => {
                let addressed = addressed_stages(ranges, stages, ranges.len() as int);
                if addressed == stages {
                    None
                } else {
                    Some(
                        PushConstantUploadError::UnmatchedStages {
                            actual: stages,
                            unmatched: stages & !addressed,
                        },
                    )
                }
            },
        }
    }
}

proof fn lemma_first_range_fault_stays(
    ranges: Seq<PushConstantRange>,
    stages: ShaderStage,
    offset: u32,
    end_offset: u32,
    m: int,
    n: int,
)
    requires
        0 <= m <= n,
        first_range_fault(ranges, stages, offset, end_offset, m) is Some,
    ensures
        first_range_fault(ranges, stages, offset, end_offset, n) == first_range_fault(
            ranges,
            stages,
            offset,
            end_offset,
            m,
        ),
    decreases n,
{
    if m < n {
        lemma_first_range_fault_stays(ranges, stages, offset, end_offset, m, n - 1);
    }
}

impl PipelineLayout {
    /// Checks that the bytes `offset..end_offset` may be uploaded to `stages`: the offset is
    /// aligned, every range visible to those stages alone holds all of the bytes, no range is
    /// shared with another stage or overlapped without being addressed, and every stage has a
    /// range. The first fault is reported.
    pub fn validate_push_constant_ranges(
        &self,
        stages: ShaderStage,
        offset: u32,
        end_offset: u32,
    ) -> (r: Result<(), PushConstantUploadError>)
        ensures
            r == verdict(upload_fault(self.push_constant_ranges@, stages, offset, end_offset)),
    {
        if offset % PUSH_CONSTANT_ALIGNMENT != 0 {
            return Err(PushConstantUploadError::Unaligned(offset));
        }
        let ghost ranges = self.push_constant_ranges@;
        let mut addressed: ShaderStage = 0;
        let mut idx: usize = 0;
        while idx < self.push_constant_ranges.len()
            invariant
                ranges == self.push_constant_ranges@,
                idx <= ranges.len(),
                offset % PUSH_CONSTANT_ALIGNMENT == 0,
                addressed == addressed_stages(ranges, stages, idx as int),
                first_range_fault(ranges, stages, offset, end_offset, idx as int) is None,
            decreases ranges.len() - idx,
        {
            let range: PushConstantRange = self.push_constant_ranges[idx];
            proof {
                if range_fault(range, idx as int, stages, offset, end_offset) is Some {
                    lemma_first_range_fault_stays(
                        ranges,
                        stages,
                        offset,
                        end_offset,
                        idx + 1,
                        ranges.len() as int,
                    );
                }
            }
            if stages & range.stages == range.stages {
                if !(range.start <= offset && end_offset <= range.end) {
                    return Err(
                        PushConstantUploadError::TooLarge { offset, end_offset, idx, range },
                    );
                }
                addressed = addressed | range.stages;
            } else if stages & range.stages != 0 {
                return Err(
                    PushConstantUploadError::PartialRangeMatch {
                        actual: stages,
                        idx,
                        matched: range.stages,
                    },
                );
            } else if offset < range.end && range.start < end_offset {
                return Err(
                    PushConstantUploadError::MissingStages {
                        actual: stages,
                        idx,
                        missing: range.stages,
                    },
                );
            }
            idx = idx + 1;
        }
        if addressed != stages {
            return Err(
                PushConstantUploadError::UnmatchedStages {
                    actual: stages,
                    unmatched: stages & !addressed,
                },
            );
        }
        Ok(())
    }
}

/// The smaller of a candidate and `q`, where `q` only counts if it lies above `p`.
pub open spec fn nearer(candidate: Option<u32>, p: u32, q: u32) -> Option<u32> {
    match candidate {
        _ if q <= p => candidate,
        Some(c) if c <= q => candidate,
        _ => Some(q),
    }
}

/// The least bound above `p` of the first `n` ranges.
pub open spec fn next_bound(ranges: Seq<PushConstantRange>, n: int, p: u32) -> Option<u32>
    decreases n,
{
    if n <= 0 {
        None
    } else {
        nearer(nearer(next_bound(ranges, n - 1, p), p, ranges[n - 1].start), p, ranges[n - 1].end)
    }
}

/// The stages that see byte `p` through one of the first `n` ranges.
pub open spec fn stages_at(ranges: Seq<PushConstantRange>, n: int, p: u32) -> ShaderStage
    decreases n,
{
    if n <= 0 {
        0
    } else {
        let rest = stages_at(ranges, n - 1, p);
        if ranges[n - 1].start <= p < ranges[n - 1].end {
            rest | ranges[n - 1].stages
        } else {
            rest
        }
    }
}

/// Some stage sees byte `p` if and only if the byte lies in a range that names a stage.
pub proof fn lemma_stages_at(ranges: Seq<PushConstantRange>, n: int, p: u32)
    requires
        0 <= n <= ranges.len(),
    ensures
        stages_at(ranges, n, p) != 0 <==> exists|i: int|
            0 <= i < n && (#[trigger] ranges[i]).start <= p < ranges[i].end && ranges[i].stages
                != 0,
    decreases n,
{
    if n > 0 {
        lemma_stages_at(ranges, n - 1, p);
        let rest = stages_at(ranges, n - 1, p);
        let stages = ranges[n - 1].stages;
        assert(rest | stages != 0 <==> rest != 0 || stages != 0) by (bit_vector);
    }
}

/// [`next_bound`] is a bound above `p`, and no bound lies between.
pub proof fn lemma_next_bound(ranges: Seq<PushConstantRange>, n: int, p: u32)
    requires
        0 <= n <= ranges.len(),
    ensures
        next_bound(ranges, n, p) matches Some(q) ==> p < q && exists|i: int|
            0 <= i < n && ((#[trigger] ranges[i]).start == q || ranges[i].end == q),
        forall|i: int|
            0 <= i < n && p < (#[trigger] ranges[i]).start ==> (next_bound(ranges, n, p) matches Some(
                q,
            ) && q <= ranges[i].start),
        forall|i: int|
            0 <= i < n && p < (#[trigger] ranges[i]).end ==> (next_bound(ranges, n, p) matches Some(
                q,
            ) && q <= ranges[i].end),
    decreases n,
{
    if n > 0 {
        lemma_next_bound(ranges, n - 1, p);
    }
}

/// The parts of the block from byte `p` on between two neighbouring bounds, each with the stages
/// that see it, leaving out those that no stage sees.
pub open spec fn segments(ranges: Seq<PushConstantRange>, p: u32) -> Seq<PushConstantRange>
    decreases u32::MAX - p,
{
    match next_bound(ranges, ranges.len() as int, p) {
        None => Seq::empty(),
        Some(q) => {
            proof {
                lemma_next_bound(ranges, ranges.len() as int, p);
            }
            let stages = stages_at(ranges, ranges.len() as int, p);
            if stages != 0 {
                seq![PushConstantRange { stages, start: p, end: q }] + segments(ranges, q)
            } else {
                segments(ranges, q)
            }
        },
    }
}

/// The parts are not empty, none starts below `p`, and each ends before the next starts.
pub proof fn lemma_segments_ordered(ranges: Seq<PushConstantRange>, p: u32)
    ensures
        forall|i: int|
            0 <= i < segments(ranges, p).len() ==> {
                let part = #[trigger] segments(ranges, p)[i];
                p <= part.start < part.end && part.stages != 0
            },
        forall|i: int, j: int|
            0 <= i < j < segments(ranges, p).len() ==> (#[trigger] segments(ranges, p)[i]).end <= (
            #[trigger] segments(ranges, p)[j]).start,
    decreases u32::MAX - p,
{
    lemma_next_bound(ranges, ranges.len() as int, p);
    match next_bound(ranges, ranges.len() as int, p) {
        None => {},
        Some(q) => {
            lemma_segments_ordered(ranges, q);
            if stages_at(ranges, ranges.len() as int, p) != 0 {
                let rest = segments(ranges, q);
                assert(forall|i: int|
                    0 < i < segments(ranges, p).len() ==> #[trigger] segments(ranges, p)[i]
                        == rest[i - 1]);
            }
        },
    }
}

/// The stages that see a byte change only at a bound.
proof fn lemma_stages_between_bounds(ranges: Seq<PushConstantRange>, n: int, p: u32, q: u32)
    requires
        0 <= n <= ranges.len(),
        p <= q,
        next_bound(ranges, ranges.len() as int, p) matches Some(b) ==> q < b,
    ensures
        stages_at(ranges, n, q) == stages_at(ranges, n, p),
        next_bound(ranges, ranges.len() as int, p) is None ==> stages_at(ranges, n, q) == 0,
    decreases n,
{
    if n > 0 {
        lemma_stages_between_bounds(ranges, n - 1, p, q);
        lemma_next_bound(ranges, ranges.len() as int, p);
    }
}

/// The parts cover the block from byte `p` on exactly as the ranges do: a byte lies in a part if
/// and only if some stage sees it, and the part carries all the stages that see it.
pub proof fn lemma_segments_cover(ranges: Seq<PushConstantRange>, p: u32, q: u32)
    requires
        p <= q,
    ensures
        stages_at(ranges, ranges.len() as int, q) != 0 ==> exists|i: int|
            0 <= i < segments(ranges, p).len() && (#[trigger] segments(ranges, p)[i]).start <= q
                < segments(ranges, p)[i].end,
        forall|i: int|
            0 <= i < segments(ranges, p).len() && (#[trigger] segments(ranges, p)[i]).start <= q
                < segments(ranges, p)[i].end ==> segments(ranges, p)[i].stages == stages_at(
                ranges,
                ranges.len() as int,
                q,
            ),
    decreases u32::MAX - p,
{
    let n = ranges.len() as int;
    lemma_next_bound(ranges, n, p);
    match next_bound(ranges, n, p) {
        None => {
            lemma_stages_between_bounds(ranges, n, p, q);
        },
        Some(b) => {
            let rest = segments(ranges, b);
            let all = segments(ranges, p);
            let stages = stages_at(ranges, n, p);
            lemma_segments_ordered(ranges, b);
            let skip: int = if stages != 0 {
                1
            } else {
                0
            };
            assert(forall|i: int| 0 <= i < rest.len() ==> #[trigger] rest[i] == all[i + skip]);
            assert(forall|i: int| skip <= i < all.len() ==> #[trigger] all[i] == rest[i - skip]);
            if q < b {
                lemma_stages_between_bounds(ranges, n, p, q);
                if stages != 0 {
                    assert(all[0].start <= q < all[0].end);
                }
            } else {
                lemma_segments_cover(ranges, b, q);
                if stages_at(ranges, n, q) != 0 {
                    let i = choose|i: int|
                        0 <= i < rest.len() && (#[trigger] rest[i]).start <= q < rest[i].end;
                    assert(all[i + skip].start <= q < all[i + skip].end);
                }
            }
        },
    }
}

/// Breaks up push constant ranges, which may overlap, into parts that do not: each part lies
/// between two neighbouring bounds and carries the stages of all the ranges around it.
pub fn compute_nonoverlapping_ranges(ranges: &[PushConstantRange]) -> (r: Vec<PushConstantRange>)
    ensures
        r@ == segments(ranges@, 0),
{
    let mut out: Vec<PushConstantRange> = Vec::new();
    let mut position: u32 = 0;
    loop
        invariant
            out@ + segments(ranges@, position) == segments(ranges@, 0),
        decreases u32::MAX - position,
    {
        let mut bound: Option<u32> = None;
        let mut stages: ShaderStage = 0;
        let mut i: usize = 0;
        while i < ranges.len()
            invariant
                i <= ranges@.len(),
                bound == next_bound(ranges@, i as int, position),
                stages == stages_at(ranges@, i as int, position),
            decreases ranges@.len() - i,
        {
            let range: PushConstantRange = ranges[i];
            bound = pick_nearer(pick_nearer(bound, position, range.start), position, range.end);
            if range.start <= position && position < range.end {
                stages = stages | range.stages;
            }
            i = i + 1;
        }
        proof {
            lemma_next_bound(ranges@, ranges@.len() as int, position);
        }
        match bound {
            None => {
                assert(out@ =~= out@ + segments(ranges@, position));
                return out;
            },
            Some(end) => {
                let ghost done = out@;
                if stages != 0 {
                    let part = PushConstantRange { stages, start: position, end };
                    out.push(part);
                    assert(done + (seq![part] + segments(ranges@, end)) =~= out@ + segments(
                        ranges@,
                        end,
                    ));
                }
                position = end;
            },
        }
    }
}

fn pick_nearer(candidate: Option<u32>, p: u32, q: u32) -> (r: Option<u32>)
    ensures
        r == nearer(candidate, p, q),
{
    if q <= p {
        candidate
    } else {
        match candidate {
            Some(c) => if c <= q {
                candidate
            } else {
                Some(q)
            },
            None => Some(q),
        }
    }
}

/// Words to be written into the push constant block.
#[derive(Debug)]
pub struct ConstantWrite {
    pub offset: u32,
    pub data: Vec<u32>,
}

/// What a [`ConstantWrite`] stands for.
#[verifier::ext_equal]
pub struct WriteModel {
    pub offset: u32,
    pub data: Seq<u32>,
}

impl View for ConstantWrite {
    type V = WriteModel;

    open spec fn view(&self) -> WriteModel {
        WriteModel { offset: self.offset, data: self.data@ }
    }
}

/// `n` zero words.
pub open spec fn zeros(n: nat) -> Seq<u32> {
    Seq::new(n, |i: int| 0u32)
}

/// How many writes it takes to clear `words` words.
pub open spec fn clear_count(words: int) -> nat {
    ((words + CLEAR_WORDS - 1) / CLEAR_WORDS as int) as nat
}

/// The `k`-th write of a clear of `words` words from byte `offset` on.
pub open spec fn clear_write(offset: int, words: int, k: int) -> WriteModel {
    let left = words - CLEAR_WORDS * k;
    WriteModel {
        offset: (offset + CLEAR_WORDS * k * PUSH_CONSTANT_ALIGNMENT) as u32,
        data: zeros(
            if left < CLEAR_WORDS {
                left as nat
            } else {
                CLEAR_WORDS as nat
            },
        ),
    }
}

/// The writes that clear the whole words among the `size_bytes` bytes from `offset` on.
pub open spec fn clear_writes(offset: int, size_bytes: int) -> Seq<WriteModel> {
    let words = size_bytes / PUSH_CONSTANT_ALIGNMENT as int;
    Seq::new(clear_count(words), |k: int| clear_write(offset, words, k))
}

/// The writes that clear the `size_bytes` bytes from `offset` on, in ascending order.
pub fn push_constant_clear(offset: u32, size_bytes: u32) -> (r: Vec<ConstantWrite>)
    requires
        offset + size_bytes <= u32::MAX,
    ensures
        r@.map_values(|w: ConstantWrite| w@) == clear_writes(offset as int, size_bytes as int),
{
    let mut out: Vec<ConstantWrite> = Vec::new();
    let size_words: u32 = size_bytes / PUSH_CONSTANT_ALIGNMENT;
    let mut count_words: u32 = 0;
    while count_words < size_words
        invariant
            size_words == size_bytes / PUSH_CONSTANT_ALIGNMENT,
            offset + size_bytes <= u32::MAX,
            count_words <= size_words,
            out@.len() == clear_count(count_words as int),
            count_words < size_words ==> count_words == CLEAR_WORDS * out@.len(),
            forall|k: int|
                0 <= k < out@.len() ==> (#[trigger] out@[k])@ == clear_write(
                    offset as int,
                    size_words as int,
                    k,
                ),
        decreases size_words - count_words,
    {
        let count_bytes: u32 = count_words * PUSH_CONSTANT_ALIGNMENT;
        let left: u32 = size_words - count_words;
        let size_to_write_words: u32 = if left < CLEAR_WORDS {
            left
        } else {
            CLEAR_WORDS
        };
        let mut data: Vec<u32> = Vec::new();
        data.resize(size_to_write_words as usize, 0u32);
        assert(data@ =~= zeros(size_to_write_words as nat));
        out.push(ConstantWrite { offset: offset + count_bytes, data });
        count_words = count_words + size_to_write_words;
    }
    assert(out@.map_values(|w: ConstantWrite| w@) =~= clear_writes(
        offset as int,
        size_bytes as int,
    ));
    out
}

} // verus!
