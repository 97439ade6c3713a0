//! What is cleared when the pipeline layout changes.
use vstd::prelude::*;

use crate::bind::Slot;
use crate::check_laws::flag;
use crate::compute::ComputeCommand;
use crate::hub::Hub;
use crate::id::{
    BindGroupLayoutId, ComputePipelineId, PipelineLayoutId, PushConstantRange,
    PUSH_CONSTANT_ALIGNMENT,
};
use crate::laws::added;
use crate::model::{
    clear_commands, clears, held, rebind_commands, rebinds, set_pipeline, step, Env, PassModel,
};
use crate::push_constants::{
    clear_write, clear_writes, lemma_next_bound, lemma_segments_cover, lemma_segments_ordered,
    lemma_stages_at, next_bound, segments, stages_at, WriteModel, CLEAR_WORDS,
};
use crate::raw::RawModel;

verus! {

/// Byte `q` lies in the words that a write covers.
pub open spec fn write_covers(w: WriteModel, q: int) -> bool {
    w.offset <= q < w.offset + PUSH_CONSTANT_ALIGNMENT * w.data.len()
}

/// A raw command that writes zero into byte `q` of the push constants of `layout_id`.
pub open spec fn clears_byte(r: RawModel, layout_id: PipelineLayoutId, q: int) -> bool {
    &&& r matches RawModel::PushComputeConstants { layout_id: id, offset, data }
    &&& id == layout_id
    &&& offset <= q < offset + PUSH_CONSTANT_ALIGNMENT * data.len()
    &&& forall|j: int| 0 <= j < data.len() ==> #[trigger] data[j] == 0
}

/// The writes of a clear cover the whole words from `offset` on and no other byte, each at most
/// [`CLEAR_WORDS`] long, and no two of them the same byte. They write nothing but zeros, go upwards
/// without a gap, and all but the last are 64 words long.
pub proof fn law_clear_covers_its_bytes(offset: u32, size_bytes: u32, q: int)
    requires
        offset + size_bytes <= u32::MAX,
    ensures
        ({
            let writes = clear_writes(offset as int, size_bytes as int);
            let words = size_bytes / PUSH_CONSTANT_ALIGNMENT;
            &&& (offset <= q < offset + PUSH_CONSTANT_ALIGNMENT * words) <==> exists|k: int|
                0 <= k < writes.len() && write_covers(#[trigger] writes[k], q)
            &&& forall|k: int|
                0 <= k < writes.len() ==> 1 <= (#[trigger] writes[k]).data.len() <= CLEAR_WORDS
            &&& forall|j: int, k: int|
                0 <= j < writes.len() && 0 <= k < writes.len() && write_covers(
                    #[trigger] writes[j],
                    q,
                ) && write_covers(#[trigger] writes[k], q) ==> j == k
            &&& forall|k: int|
                0 <= k < writes.len() ==> (#[trigger] writes[k]).offset == offset + 256 * k
            &&& forall|k: int|
                0 <= k < writes.len() - 1 ==> (#[trigger] writes[k]).data.len() == 64
            &&& forall|k: int, j: int|
                0 <= k < writes.len() && 0 <= j < writes[k].data.len()
                    ==> #[trigger] writes[k].data[j] == 0
        }),
{
    let writes = clear_writes(offset as int, size_bytes as int);
    let words = (size_bytes / PUSH_CONSTANT_ALIGNMENT) as int;
    assert forall|k: int| 0 <= k < writes.len() implies {
        let w = #[trigger] writes[k];
        &&& w.offset == offset + 256 * k
        &&& 1 <= w.data.len() <= CLEAR_WORDS
        &&& w.data.len() == (if words - 64 * k < 64 {
            words - 64 * k
        } else {
            64
        })
    } by {
        assert(writes[k] == clear_write(offset as int, words, k));
    }
    if offset <= q < offset + PUSH_CONSTANT_ALIGNMENT * words {
        let k = (q - offset) / 256;
        assert(0 <= k < writes.len());
        assert(write_covers(writes[k], q));
    }
}

/// The bounds of the ranges are whole words.
pub open spec fn word_aligned(ranges: Seq<PushConstantRange>) -> bool {
    forall|i: int|
        0 <= i < ranges.len() ==> (#[trigger] ranges[i]).start % PUSH_CONSTANT_ALIGNMENT == 0
            && ranges[i].end % PUSH_CONSTANT_ALIGNMENT == 0
}

proof fn lemma_segments_aligned(ranges: Seq<PushConstantRange>, p: u32)
    requires
        word_aligned(ranges),
        p % PUSH_CONSTANT_ALIGNMENT == 0,
    ensures
        word_aligned(segments(ranges, p)),
    decreases u32::MAX - p,
{
    lemma_next_bound(ranges, ranges.len() as int, p);
    match next_bound(ranges, ranges.len() as int, p) {
        None => {},
        Some(q) => {
            lemma_segments_aligned(ranges, q);
        },
    }
}

/// The command that makes a write.
spec fn write_command(layout_id: PipelineLayoutId, w: WriteModel) -> RawModel {
    RawModel::PushComputeConstants { layout_id, offset: w.offset, data: w.data }
}

/// The writes that clear the part `i`.
spec fn part_writes(parts: Seq<PushConstantRange>, i: int) -> Seq<WriteModel> {
    clear_writes(parts[i].start as int, parts[i].end - parts[i].start)
}

proof fn lemma_clears_has(
    layout_id: PipelineLayoutId,
    parts: Seq<PushConstantRange>,
    n: int,
    i: int,
    k: int,
) -> (m: int)
    requires
        0 <= i < n,
        0 <= k < part_writes(parts, i).len(),
    ensures
        0 <= m < clears(layout_id, parts, n).len(),
        clears(layout_id, parts, n)[m] == write_command(layout_id, part_writes(parts, i)[k]),
    decreases n,
{
    let before = clears(layout_id, parts, n - 1);
    if i == n - 1 {
        before.len() + k
    } else {
        lemma_clears_has(layout_id, parts, n - 1, i, k)
    }
}

proof fn lemma_clears_only(
    layout_id: PipelineLayoutId,
    parts: Seq<PushConstantRange>,
    n: int,
    m: int,
) -> (r: (int, int))
    requires
        0 <= m < clears(layout_id, parts, n).len(),
    ensures
        ({
            let (i, k) = r;
            &&& 0 <= i < n
            &&& 0 <= k < part_writes(parts, i).len()
            &&& m == clears(layout_id, parts, i).len() + k
            &&& clears(layout_id, parts, n)[m] == write_command(
                layout_id,
                part_writes(parts, i)[k],
            )
        }),
    decreases n,
{
    let before = clears(layout_id, parts, n - 1);
    if m < before.len() {
        lemma_clears_only(layout_id, parts, n - 1, m)
    } else {
        (n - 1, m - before.len())
    }
}

/// Byte `q` lies in a whole word of `part`, counted from the start of the part.
pub open spec fn in_whole_word(part: PushConstantRange, q: int) -> bool {
    part.start <= q < part.start + PUSH_CONSTANT_ALIGNMENT * ((part.end - part.start)
        / PUSH_CONSTANT_ALIGNMENT as int)
}

/// A command that clears byte `q` is one of the writes of a part that has `q` in a whole word;
/// its place follows from the part and from its number among the writes of the part.
proof fn lemma_clearing_part(hub: Hub, layout_id: PipelineLayoutId, m: int, q: u32) -> (r: (
    int,
    int,
))
    requires
        0 <= m < clear_commands(hub, layout_id).len(),
        clears_byte(clear_commands(hub, layout_id)[m], layout_id, q as int),
    ensures
        ({
            let parts = segments(hub.pipeline_layouts@[layout_id].push_constant_ranges@, 0);
            let (i, k) = r;
            &&& 0 <= i < parts.len()
            &&& in_whole_word(parts[i], q as int)
            &&& 0 <= k < part_writes(parts, i).len()
            &&& write_covers(part_writes(parts, i)[k], q as int)
            &&& m == clears(layout_id, parts, i).len() + k
        }),
{
    let ranges = hub.pipeline_layouts@[layout_id].push_constant_ranges@;
    let parts = segments(ranges, 0);
    lemma_segments_ordered(ranges, 0);
    let (i, k) = lemma_clears_only(layout_id, parts, parts.len() as int, m);
    let part = parts[i];
    law_clear_covers_its_bytes(part.start, (part.end - part.start) as u32, q as int);
    assert(write_covers(part_writes(parts, i)[k], q as int));
    (i, k)
}

/// Clearing the push constants of a layout writes zero into a byte if and only if the byte lies in
/// a whole word of one of the parts into which the ranges break up, and then once. Of a part whose
/// length is no multiple of a word the rest at its end stays as it was, and so does every byte that
/// lies in no part.
pub proof fn law_clearing_takes_whole_words(hub: Hub, layout_id: PipelineLayoutId, q: u32)
    ensures
        ({
            let parts = segments(hub.pipeline_layouts@[layout_id].push_constant_ranges@, 0);
            let commands = clear_commands(hub, layout_id);
            &&& (exists|m: int|
                0 <= m < commands.len() && clears_byte(
                    #[trigger] commands[m],
                    layout_id,
                    q as int,
                )) <==> (exists|i: int|
                0 <= i < parts.len() && in_whole_word(#[trigger] parts[i], q as int))
            &&& forall|i: int|
                0 <= i < parts.len() && (#[trigger] parts[i]).start <= q < parts[i].end
                    && !in_whole_word(parts[i], q as int) ==> forall|m: int|
                    0 <= m < commands.len() ==> !clears_byte(
                        #[trigger] commands[m],
                        layout_id,
                        q as int,
                    )
            &&& forall|m: int, n: int|
                0 <= m < commands.len() && 0 <= n < commands.len() && clears_byte(
                    #[trigger] commands[m],
                    layout_id,
                    q as int,
                ) && clears_byte(#[trigger] commands[n], layout_id, q as int) ==> m == n
        }),
{
    let ranges = hub.pipeline_layouts@[layout_id].push_constant_ranges@;
    let parts = segments(ranges, 0);
    let commands = clear_commands(hub, layout_id);
    lemma_segments_ordered(ranges, 0);
    if exists|i: int| 0 <= i < parts.len() && in_whole_word(#[trigger] parts[i], q as int) {
        let i = choose|i: int| 0 <= i < parts.len() && in_whole_word(#[trigger] parts[i], q as int);
        let part = parts[i];
        law_clear_covers_its_bytes(part.start, (part.end - part.start) as u32, q as int);
        let writes = part_writes(parts, i);
        let k = choose|k: int|
            0 <= k < writes.len() && write_covers(#[trigger] writes[k], q as int);
        let m = lemma_clears_has(layout_id, parts, parts.len() as int, i, k);
        assert(clears_byte(commands[m], layout_id, q as int));
    }
    if exists|m: int|
        0 <= m < commands.len() && clears_byte(#[trigger] commands[m], layout_id, q as int) {
        let m = choose|m: int|
            0 <= m < commands.len() && clears_byte(#[trigger] commands[m], layout_id, q as int);
        let (i, k) = lemma_clearing_part(hub, layout_id, m, q);
        assert(in_whole_word(parts[i], q as int));
    }
    assert forall|i: int|
        0 <= i < parts.len() && (#[trigger] parts[i]).start <= q < parts[i].end && !in_whole_word(
            parts[i],
            q as int,
        ) implies forall|m: int|
        0 <= m < commands.len() ==> !clears_byte(#[trigger] commands[m], layout_id, q as int) by {
        assert forall|m: int| 0 <= m < commands.len() implies !clears_byte(
            #[trigger] commands[m],
            layout_id,
            q as int,
        ) by {
            if clears_byte(commands[m], layout_id, q as int) {
                let (j, k) = lemma_clearing_part(hub, layout_id, m, q);
                assert(parts[j].start <= q < parts[j].end);
            }
        }
    }
    assert forall|m: int, n: int|
        0 <= m < commands.len() && 0 <= n < commands.len() && clears_byte(
            #[trigger] commands[m],
            layout_id,
            q as int,
        ) && clears_byte(#[trigger] commands[n], layout_id, q as int) implies m == n by {
        let (i, k) = lemma_clearing_part(hub, layout_id, m, q);
        let (j, l) = lemma_clearing_part(hub, layout_id, n, q);
        assert(parts[i].start <= q < parts[i].end && parts[j].start <= q < parts[j].end);
        assert(i == j);
        let part = parts[i];
        law_clear_covers_its_bytes(part.start, (part.end - part.start) as u32, q as int);
    }
}

/// Where the ranges of a layout are made of whole words, the bytes of the push constant block that
/// are cleared are exactly those that lie in some range that names a stage.
pub proof fn law_push_constants_are_cleared(hub: Hub, layout_id: PipelineLayoutId, q: u32)
    requires
        word_aligned(hub.pipeline_layouts@[layout_id].push_constant_ranges@),
    ensures
        ({
            let ranges = hub.pipeline_layouts@[layout_id].push_constant_ranges@;
            let commands = clear_commands(hub, layout_id);
            (exists|i: int|
                0 <= i < ranges.len() && (#[trigger] ranges[i]).start <= q < ranges[i].end
                    && ranges[i].stages != 0) <==> (exists|m: int|
                0 <= m < commands.len() && clears_byte(
                    #[trigger] commands[m],
                    layout_id,
                    q as int,
                ))
        }),
{
    let ranges = hub.pipeline_layouts@[layout_id].push_constant_ranges@;
    let parts = segments(ranges, 0);
    law_clearing_takes_whole_words(hub, layout_id, q);
    lemma_segments_ordered(ranges, 0);
    lemma_segments_aligned(ranges, 0);
    lemma_segments_cover(ranges, 0, q);
    lemma_stages_at(ranges, ranges.len() as int, q);
    if stages_at(ranges, ranges.len() as int, q) != 0 {
        let i = choose|i: int|
            0 <= i < parts.len() && (#[trigger] parts[i]).start <= q < parts[i].end;
        assert(in_whole_word(parts[i], q as int));
    }
    if exists|i: int| 0 <= i < parts.len() && in_whole_word(#[trigger] parts[i], q as int) {
        let i = choose|i: int| 0 <= i < parts.len() && in_whole_word(#[trigger] parts[i], q as int);
        assert(parts[i].start <= q < parts[i].end);
    }
}

/// Clearing consists of writes of zeros under the layout, each of at least one word, which go
/// upwards and do not overlap.
pub proof fn lemma_clears_ascend(hub: Hub, layout_id: PipelineLayoutId)
    ensures
        ({
            let commands = clear_commands(hub, layout_id);
            &&& forall|m: int|
                0 <= m < commands.len() ==> {
                    &&& (#[trigger] commands[m]) matches RawModel::PushComputeConstants {
                        layout_id: id,
                        offset,
                        data,
                    }
                    &&& id == layout_id
                    &&& data.len() >= 1
                    &&& forall|j: int| 0 <= j < data.len() ==> #[trigger] data[j] == 0
                }
            &&& forall|m: int, n: int|
                0 <= m < n < commands.len() ==> (
                #[trigger] commands[m])->PushComputeConstants_offset + 4
                    * commands[m]->PushComputeConstants_data.len() <= (
                #[trigger] commands[n])->PushComputeConstants_offset
        }),
{
    let parts = segments(hub.pipeline_layouts@[layout_id].push_constant_ranges@, 0);
    lemma_segments_ordered(hub.pipeline_layouts@[layout_id].push_constant_ranges@, 0);
    lemma_first_clears_ascend(layout_id, parts, parts.len() as int);
}

proof fn lemma_first_clears_ascend(
    layout_id: PipelineLayoutId,
    parts: Seq<PushConstantRange>,
    n: int,
)
    requires
        0 <= n <= parts.len(),
        forall|i: int| 0 <= i < parts.len() ==> (#[trigger] parts[i]).start < parts[i].end,
        forall|i: int, j: int|
            0 <= i < j < parts.len() ==> (#[trigger] parts[i]).end <= (#[trigger] parts[j]).start,
    ensures
        ({
            let commands = clears(layout_id, parts, n);
            &&& forall|m: int|
                0 <= m < commands.len() ==> {
                    &&& n > 0
                    &&& (#[trigger] commands[m]) matches RawModel::PushComputeConstants {
                        layout_id: id,
                        offset,
                        data,
                    }
                    &&& id == layout_id
                    &&& data.len() >= 1
                    &&& offset + 4 * data.len() <= parts[n - 1].end
                    &&& forall|j: int| 0 <= j < data.len() ==> #[trigger] data[j] == 0
                }
            &&& forall|m: int, l: int|
                0 <= m < l < commands.len() ==> (
                #[trigger] commands[m])->PushComputeConstants_offset + 4
                    * commands[m]->PushComputeConstants_data.len() <= (
                #[trigger] commands[l])->PushComputeConstants_offset
        }),
    decreases n,
{
    if n > 0 {
        lemma_first_clears_ascend(layout_id, parts, n - 1);
        let before = clears(layout_id, parts, n - 1);
        let commands = clears(layout_id, parts, n);
        let part = parts[n - 1];
        let size = (part.end - part.start) as u32;
        let writes = part_writes(parts, n - 1);
        law_clear_covers_its_bytes(part.start, size, part.start as int);
        assert forall|k: int| 0 <= k < writes.len() implies {
            let w = #[trigger] writes[k];
            w.offset + 4 * w.data.len() <= part.end
        } by {
            let q = writes[k].offset + 4 * writes[k].data.len() - 1;
            law_clear_covers_its_bytes(part.start, size, q);
            assert(write_covers(writes[k], q));
        }
        assert(forall|m: int| 0 <= m < before.len() ==> #[trigger] commands[m] == before[m]);
        assert(forall|m: int|
            before.len() <= m < commands.len() ==> #[trigger] commands[m] == write_command(
                layout_id,
                writes[m - before.len()],
            ));
        assert forall|m: int, l: int| 0 <= m < l < commands.len() implies (
        #[trigger] commands[m])->PushComputeConstants_offset + 4
            * commands[m]->PushComputeConstants_data.len() <= (
        #[trigger] commands[l])->PushComputeConstants_offset by {
            if m >= before.len() {
                let k = m - before.len();
                assert(writes[k].data.len() == 64);
                assert(writes[l - before.len()].offset == part.start + 256 * (l - before.len()));
                assert(writes[k].offset == part.start + 256 * k);
            } else if l >= before.len() {
                assert(commands[m] == before[m]);
                assert(parts[n - 2].end <= part.start);
                assert(writes[l - before.len()].offset == part.start + 256 * (l - before.len()));
            }
        }
    }
}

/// A range starts or ends at `b`.
pub open spec fn is_bound(ranges: Seq<PushConstantRange>, b: u32) -> bool {
    exists|i: int|
        0 <= i < ranges.len() && ((#[trigger] ranges[i]).start == b || ranges[i].end == b)
}

/// No range starts or ends between `lo` and `hi`, and some do at both.
pub open spec fn neighbours(ranges: Seq<PushConstantRange>, lo: u32, hi: u32) -> bool {
    &&& lo < hi
    &&& is_bound(ranges, lo)
    &&& is_bound(ranges, hi)
    &&& forall|b: u32| #[trigger] is_bound(ranges, b) ==> b <= lo || hi <= b
}

/// Byte `q` lies in a range that names a stage.
pub open spec fn seen(ranges: Seq<PushConstantRange>, q: u32) -> bool {
    exists|i: int|
        0 <= i < ranges.len() && (#[trigger] ranges[i]).start <= q < ranges[i].end
            && ranges[i].stages != 0
}

proof fn lemma_segments_neighbour(ranges: Seq<PushConstantRange>, p: u32)
    requires
        p == 0 || is_bound(ranges, p),
    ensures
        forall|i: int|
            0 <= i < segments(ranges, p).len() ==> neighbours(
                ranges,
                (#[trigger] segments(ranges, p)[i]).start,
                segments(ranges, p)[i].end,
            ),
    decreases u32::MAX - p,
{
    let n = ranges.len() as int;
    lemma_next_bound(ranges, n, p);
    match next_bound(ranges, n, p) {
        None => {},
        Some(q) => {
            assert(is_bound(ranges, q));
            lemma_segments_neighbour(ranges, q);
            if stages_at(ranges, n, p) != 0 {
                lemma_stages_at(ranges, n, p);
                let i = choose|i: int|
                    0 <= i < n && (#[trigger] ranges[i]).start <= p < ranges[i].end
                        && ranges[i].stages != 0;
                assert(is_bound(ranges, ranges[i].start));
                assert(is_bound(ranges, p));
                assert forall|b: u32| #[trigger] is_bound(ranges, b) implies b <= p || q <= b by {
                    let j = choose|j: int|
                        0 <= j < n && ((#[trigger] ranges[j]).start == b || ranges[j].end == b);
                    assert(p < ranges[j].start ==> q <= ranges[j].start);
                    assert(p < ranges[j].end ==> q <= ranges[j].end);
                }
                assert(neighbours(ranges, p, q));
            }
            let rest = segments(ranges, q);
            let all = segments(ranges, p);
            let skip = all.len() - rest.len();
            assert forall|k: int| 0 <= k < all.len() implies neighbours(
                ranges,
                (#[trigger] all[k]).start,
                all[k].end,
            ) by {
                if k >= skip {
                    assert(all[k] == rest[k - skip]);
                }
            }
        },
    }
}

proof fn lemma_stages_flags(ranges: Seq<PushConstantRange>, n: int, q: u32, b: u32)
    requires
        0 <= n <= ranges.len(),
        b < 32,
    ensures
        flag(stages_at(ranges, n, q), b) <==> exists|i: int|
            0 <= i < n && (#[trigger] ranges[i]).start <= q < ranges[i].end && flag(
                ranges[i].stages,
                b,
            ),
    decreases n,
{
    if n <= 0 {
        assert((0u32 >> b) & 1u32 == 0u32) by (bit_vector);
    } else {
        lemma_stages_flags(ranges, n - 1, q, b);
        let rest = stages_at(ranges, n - 1, q);
        let more = ranges[n - 1].stages;
        assert(((rest | more) >> b) & 1u32 == 1u32 <==> (rest >> b) & 1u32 == 1u32 || (more >> b)
            & 1u32 == 1u32) by (bit_vector)
            requires
                b < 32,
        ;
        if ranges[n - 1].start <= q < ranges[n - 1].end && flag(more, b) {
            assert(exists|i: int|
                0 <= i < n && (#[trigger] ranges[i]).start <= q < ranges[i].end && flag(
                    ranges[i].stages,
                    b,
                ));
        }
    }
}

/// The parts into which ranges break up go upwards without overlap, and each reaches from one bound
/// of the ranges to the next. A byte lies in a part if and only if a range that names a stage
/// holds it, and the part then names exactly the stages of the ranges that hold the byte.
pub proof fn law_parts_break_up_the_ranges(ranges: Seq<PushConstantRange>, q: u32, b: u32)
    ensures
        ({
            let parts = segments(ranges, 0);
            &&& forall|i: int, j: int|
                0 <= i < j < parts.len() ==> (#[trigger] parts[i]).end <= (
                #[trigger] parts[j]).start
            &&& forall|i: int|
                0 <= i < parts.len() ==> neighbours(
                    ranges,
                    (#[trigger] parts[i]).start,
                    parts[i].end,
                )
            &&& seen(ranges, q) <==> exists|i: int|
                0 <= i < parts.len() && (#[trigger] parts[i]).start <= q < parts[i].end
            &&& forall|i: int|
                0 <= i < parts.len() && (#[trigger] parts[i]).start <= q < parts[i].end && b < 32
                    ==> (flag(parts[i].stages, b) <==> exists|k: int|
                    0 <= k < ranges.len() && (#[trigger] ranges[k]).start <= q < ranges[k].end
                        && flag(ranges[k].stages, b))
        }),
{
    lemma_segments_ordered(ranges, 0);
    lemma_segments_neighbour(ranges, 0);
    lemma_segments_cover(ranges, 0, q);
    lemma_stages_at(ranges, ranges.len() as int, q);
    if b < 32 {
        lemma_stages_flags(ranges, ranges.len() as int, q, b);
    }
}

/// Between the neighbouring bounds `lo` and `hi`, byte `q` lies in a whole word of 4 bytes, counted
/// from `lo`.
pub open spec fn in_whole_word_between(lo: u32, hi: u32, q: u32) -> bool {
    lo <= q && q < lo + 4 * ((hi - lo) / 4)
}

/// A pipeline of another layout has a byte of the push constants cleared if and only if a range
/// of the new layout that names a stage holds the byte, and the byte lies in a whole word between
/// the bounds of the ranges next to it; and then once. What is cleared is written with zeros.
pub proof fn law_new_layout_clears_bytes_once(
    env: Env,
    s: PassModel,
    pipeline_id: ComputePipelineId,
    q: u32,
)
    requires
        step(env, s, ComputeCommand::SetPipeline(pipeline_id)).halt is None,
        s.binder.layout != Some(env.hub.compute_pipelines@[pipeline_id].layout_id),
    ensures
        ({
            let after = step(env, s, ComputeCommand::SetPipeline(pipeline_id)).state;
            let layout_id = env.hub.compute_pipelines@[pipeline_id].layout_id;
            let ranges = env.hub.pipeline_layouts@[layout_id].push_constant_ranges@;
            let more = after.raw.skip(s.raw.len() as int);
            &&& (exists|m: int|
                0 <= m < more.len() && clears_byte(#[trigger] more[m], layout_id, q as int))
                <==> seen(ranges, q) && (exists|lo: u32, hi: u32| #[trigger]
                neighbours(ranges, lo, hi) && in_whole_word_between(lo, hi, q))
            &&& forall|m: int, n: int|
                0 <= m < more.len() && 0 <= n < more.len() && clears_byte(
                    #[trigger] more[m],
                    layout_id,
                    q as int,
                ) && clears_byte(#[trigger] more[n], layout_id, q as int) ==> m == n
        }),
{
    let layout_id = env.hub.compute_pipelines@[pipeline_id].layout_id;
    let ranges = env.hub.pipeline_layouts@[layout_id].push_constant_ranges@;
    let parts = segments(ranges, 0);
    let after = step(env, s, ComputeCommand::SetPipeline(pipeline_id)).state;
    let more = after.raw.skip(s.raw.len() as int);
    let rebinding = rebind_commands(env.hub, s.binder, layout_id);
    let commands = clear_commands(env.hub, layout_id);
    let first = 1 + rebinding.len();
    law_new_layout_clears_push_constants(env, s, pipeline_id);
    law_clearing_takes_whole_words(env.hub, layout_id, q);
    law_parts_break_up_the_ranges(ranges, q, 0);
    assert(forall|m: int| first <= m < more.len() ==> #[trigger] more[m] == commands[m - first]);
    assert(forall|m: int| 1 <= m < first ==> #[trigger] more[m] == rebinding[m - 1]);
    assert(forall|m: int|
        0 <= m < first ==> !clears_byte(#[trigger] more[m], layout_id, q as int));
    if exists|i: int| 0 <= i < parts.len() && in_whole_word(#[trigger] parts[i], q as int) {
        let i = choose|i: int| 0 <= i < parts.len() && in_whole_word(#[trigger] parts[i], q as int);
        assert(neighbours(ranges, parts[i].start, parts[i].end));
        assert(in_whole_word_between(parts[i].start, parts[i].end, q));
        let m = choose|m: int|
            0 <= m < commands.len() && clears_byte(#[trigger] commands[m], layout_id, q as int);
        assert(clears_byte(more[m + first], layout_id, q as int));
    } else {
        assert forall|m: int| 0 <= m < more.len() implies !clears_byte(
            #[trigger] more[m],
            layout_id,
            q as int,
        ) by {
            if m >= first {
                assert(!clears_byte(commands[m - first], layout_id, q as int));
            }
        }
        if seen(ranges, q) && (exists|lo: u32, hi: u32| #[trigger]
            neighbours(ranges, lo, hi) && in_whole_word_between(lo, hi, q)) {
            let (lo, hi) = choose|lo: u32, hi: u32| #[trigger]
                neighbours(ranges, lo, hi) && in_whole_word_between(lo, hi, q);
            let i = choose|i: int|
                0 <= i < parts.len() && (#[trigger] parts[i]).start <= q < parts[i].end;
            assert(neighbours(ranges, parts[i].start, parts[i].end));
            assert(is_bound(ranges, lo) && is_bound(ranges, hi));
            assert(parts[i].start == lo && parts[i].end == hi);
            assert(in_whole_word(parts[i], q as int));
        }
    }
    assert forall|m: int, n: int|
        0 <= m < more.len() && 0 <= n < more.len() && clears_byte(
            #[trigger] more[m],
            layout_id,
            q as int,
        ) && clears_byte(#[trigger] more[n], layout_id, q as int) implies m == n by {
        assert(m >= first && n >= first);
        assert(clears_byte(commands[m - first], layout_id, q as int));
        assert(clears_byte(commands[n - first], layout_id, q as int));
    }
}

/// Binding slots anew takes nothing but binding commands.
proof fn lemma_rebinds_bind(
    slots: Seq<Slot>,
    ids: Seq<BindGroupLayoutId>,
    layout_id: PipelineLayoutId,
    n: int,
)
    ensures
        forall|k: int|
            0 <= k < rebinds(slots, ids, layout_id, n).len() ==> (
            #[trigger] rebinds(slots, ids, layout_id, n)[k]) is BindComputeDescriptorSets,
    decreases n,
{
    if n > 0 {
        lemma_rebinds_bind(slots, ids, layout_id, n - 1);
    }
}

/// Setting a pipeline of another layout binds the pipeline, binds slots anew, and then clears the
/// push constants of the new layout; no other of its raw commands writes push constants.
pub proof fn law_new_layout_clears_push_constants(
    env: Env,
    s: PassModel,
    pipeline_id: ComputePipelineId,
)
    requires
        set_pipeline(env, s, pipeline_id).halt is None,
        s.binder.layout != Some(env.hub.compute_pipelines@[pipeline_id].layout_id),
    ensures
        ({
            let layout_id = env.hub.compute_pipelines@[pipeline_id].layout_id;
            let rebinding = rebind_commands(env.hub, s.binder, layout_id);
            &&& added(s, set_pipeline(env, s, pipeline_id).state) == seq![
                RawModel::BindComputePipeline(pipeline_id),
            ] + rebinding + clear_commands(env.hub, layout_id)
            &&& forall|k: int|
                0 <= k < rebinding.len() ==> (
                #[trigger] rebinding[k]) is BindComputeDescriptorSets
        }),
{
    let layout_id = env.hub.compute_pipelines@[pipeline_id].layout_id;
    let ids = env.hub.pipeline_layouts@[layout_id].bind_group_layout_ids@;
    let slots = held(env.hub, s.binder, layout_id).slots;
    if ids.len() < slots.len() {
        lemma_rebinds_bind(slots, ids, layout_id, ids.len() as int);
    } else {
        lemma_rebinds_bind(slots, ids, layout_id, slots.len() as int);
    }
    assert(added(s, set_pipeline(env, s, pipeline_id).state) =~= seq![
        RawModel::BindComputePipeline(pipeline_id),
    ] + rebind_commands(env.hub, s.binder, layout_id) + clear_commands(env.hub, layout_id));
}

} // verus!
