//! What each command that starts work, writes push constants or leaves a debug mark does.
use vstd::prelude::*;
use vstd::utf8::{decode_utf8, valid_utf8};

use crate::bind::Slot;
use crate::command_buffer::TrackerModel;
use crate::compute::ComputeCommand;
use crate::error::{ComputePassError, DispatchError, Halt, MissingBufferUsageError};
use crate::id::{BufferAddress, BufferId};
use crate::laws::{added, is_dispatch, lemma_added_splits, lemma_step_adds, quiet};
use crate::model::{run, step, Env, PassModel};
use crate::push_constants::upload_fault;
use crate::raw::RawModel;
use crate::state::lemma_first_conflict;

verus! {

/// A layout is expected of the slot, and no bind group of that layout is in it.
pub open spec fn unmet(slot: Slot) -> bool {
    &&& slot.expected matches Some(wanted)
    &&& !(slot.provided matches Some(pair) && pair.layout_id == wanted)
}

/// `i` is the first slot that is [`unmet`].
pub open spec fn first_unmet(slots: Seq<Slot>, i: int) -> bool {
    &&& 0 <= i < slots.len()
    &&& unmet(slots[i])
    &&& forall|j: int| 0 <= j < i ==> !unmet(#[trigger] slots[j])
}

/// No slot is [`unmet`].
pub open spec fn none_unmet(slots: Seq<Slot>) -> bool {
    forall|j: int| 0 <= j < slots.len() ==> !unmet(#[trigger] slots[j])
}

/// `after` lists what `before` lists, in the same order, and `id`, once: behind the others if it
/// was not listed yet.
pub open spec fn lists_too(before: Seq<u64>, id: u64, after: Seq<u64>) -> bool {
    if before.contains(id) {
        after == before
    } else {
        after == before.push(id)
    }
}

proof fn lemma_readiness(s: PassModel)
    ensures
        forall|i: int|
            0 <= i < s.binder.slots.len() ==> (unmet(#[trigger] s.binder.slots[i])
                <==> s.binder.slots[i].conflicting()),
{
}

/// A dispatch is accepted if and only if a pipeline is set and no slot is without what is expected
/// of it. It then hands the backend one command, with the work group counts that were recorded,
/// and changes nothing else. Otherwise it changes nothing, and is refused for the first slot that
/// lacks something, or else for the missing pipeline.
pub proof fn law_dispatch_hands_over_its_counts(env: Env, s: PassModel, groups: [u32; 3])
    ensures
        ({
            let after = step(env, s, ComputeCommand::Dispatch(groups));
            let slots = s.binder.slots;
            &&& after.halt is None <==> s.pipeline is Provided && none_unmet(slots)
            &&& after.halt is None ==> after.state == (PassModel {
                raw: s.raw.push(RawModel::Dispatch(groups)),
                ..s
            })
            &&& after.halt is Some ==> after.state == s
            &&& forall|i: int| #[trigger]
                first_unmet(slots, i) ==> after.halt == Some(
                    Halt::Error(
                        ComputePassError::Dispatch(
                            DispatchError::IncompatibleBindGroup { index: i as u32 },
                        ),
                    ),
                )
            &&& none_unmet(slots) && s.pipeline is Required ==> after.halt == Some(
                Halt::Error(ComputePassError::Dispatch(DispatchError::MissingPipeline)),
            )
        }),
{
    lemma_first_conflict(s.binder.slots, s.binder.slots.len() as int);
    lemma_readiness(s);
}

/// An indirect dispatch is accepted if and only if a direct one would be, the buffer exists, and
/// its usage has the bit of value 256. It then hands the backend the transition of that buffer and
/// the dispatch out of that buffer at the offset that was recorded, and changes nothing else but
/// that the buffer is listed as used. Where a direct dispatch would be refused, this one is
/// refused in the same way. A buffer that exists is listed even if its usage is refused.
pub proof fn law_indirect_dispatch_hands_over_its_place(
    env: Env,
    s: PassModel,
    groups: [u32; 3],
    buffer_id: BufferId,
    offset: BufferAddress,
)
    ensures
        ({
            let after = step(env, s, ComputeCommand::DispatchIndirect { buffer_id, offset });
            let direct = step(env, s, ComputeCommand::Dispatch(groups));
            let usage = env.hub.buffers@[buffer_id].usage;
            let known = env.hub.buffers@.contains_key(buffer_id);
            let suits = (usage as int / 256) % 2 == 1;
            let listed = after.state.trackers.buffers;
            let trackers = TrackerModel { buffers: listed, ..s.trackers };
            &&& after.halt is None <==> direct.halt is None && known && suits
            &&& after.halt is None ==> after.state == (PassModel {
                raw: s.raw + seq![
                    RawModel::TransitionToIndirect { buffer_id },
                    RawModel::DispatchIndirect { buffer_id, offset },
                ],
                trackers,
                ..s
            })
            &&& direct.halt is None && known ==> lists_too(s.trackers.buffers, buffer_id, listed)
            &&& direct.halt is Some ==> after == direct
            &&& direct.halt is None && !known ==> after.state == s && after.halt == Some(
                Halt::Error(ComputePassError::InvalidIndirectBuffer(buffer_id)),
            )
            &&& direct.halt is None && known && !suits ==> after.state == (PassModel {
                trackers,
                ..s
            }) && after.halt == Some(
                Halt::Error(
                    ComputePassError::MissingBufferUsage(
                        MissingBufferUsageError { actual: usage, expected: 256 },
                    ),
                ),
            )
        }),
{
    let after = step(env, s, ComputeCommand::DispatchIndirect { buffer_id, offset });
    let usage = env.hub.buffers@[buffer_id].usage;
    assert(usage & 256 == 256 <==> (usage / 256) % 2 == 1) by (bit_vector);
    assert(s.raw.push(RawModel::TransitionToIndirect { buffer_id }).push(
        RawModel::DispatchIndirect { buffer_id, offset },
    ) =~= s.raw + seq![
        RawModel::TransitionToIndirect { buffer_id },
        RawModel::DispatchIndirect { buffer_id, offset },
    ]);
}

/// The words for an upload are there, and its bytes and words are numbered below `2^32`.
pub open spec fn words_present(env: Env, offset: u32, size_bytes: u32, values_offset: u32) -> bool {
    let values_end = values_offset + size_bytes as int / 4;
    offset + size_bytes < 0x1_0000_0000 && values_end < 0x1_0000_0000 && values_end
        <= env.constants.len()
}

/// Push constants are written if and only if their words are there, a layout is current and
/// exists, and it admits the upload to the compute stage, which has the bit of value 4. The
/// backend then gets one command: under that layout, at the offset that was recorded, one word for
/// every 4 bytes, taken from the pass from the place that was recorded on. Nothing else changes.
pub proof fn law_push_constants_hand_over_their_words(
    env: Env,
    s: PassModel,
    offset: u32,
    size_bytes: u32,
    values_offset: u32,
)
    ensures
        ({
            let after = step(
                env,
                s,
                ComputeCommand::SetPushConstant { offset, size_bytes, values_offset },
            );
            let present = words_present(env, offset, size_bytes, values_offset);
            let layouts = env.hub.pipeline_layouts@;
            let end = (offset + size_bytes) as u32;
            &&& !present ==> after.halt == Some(Halt::Fault)
            &&& present && s.binder.layout is None ==> after.halt == Some(
                Halt::Error(ComputePassError::Dispatch(DispatchError::MissingPipeline)),
            )
            &&& present && (s.binder.layout matches Some(id) && !layouts.contains_key(id))
                ==> after.halt == Some(Halt::Fault)
            &&& present && (s.binder.layout matches Some(id) && layouts.contains_key(id)) ==> {
                let id = s.binder.layout->0;
                match upload_fault(layouts[id].push_constant_ranges@, 4, offset, end) {
                    Some(e) => after.halt == Some(
                        Halt::Error(ComputePassError::PushConstants(e)),
                    ),
                    None => after.halt is None,
                }
            }
            &&& after.halt is Some ==> after.state == s
            &&& after.halt is None ==> {
                let raw = after.state.raw;
                &&& after.state == (PassModel { raw, ..s })
                &&& raw.len() == s.raw.len() + 1
                &&& raw.drop_last() == s.raw
                &&& raw.last() matches RawModel::PushComputeConstants {
                    layout_id,
                    offset: at,
                    data,
                }
                &&& Some(layout_id) == s.binder.layout
                &&& at == offset
                &&& data.len() == size_bytes as int / 4
                &&& forall|k: int|
                    0 <= k < data.len() ==> #[trigger] data[k] == env.constants[values_offset + k]
            }
        }),
{
    let after = step(
        env,
        s,
        ComputeCommand::SetPushConstant { offset, size_bytes, values_offset },
    );
    if after.halt is None {
        assert(after.state.raw.drop_last() =~= s.raw);
    }
}

/// Opening a debug group takes the next `len` label bytes, which must be there and be UTF-8, hands
/// them to the backend as text with the colour that was recorded, and counts one more group as
/// open; the count stays below `2^32`. Otherwise the pass is damaged, and nothing changes.
pub proof fn law_debug_group_opens(env: Env, s: PassModel, color: u32, len: usize)
    ensures
        ({
            let after = step(env, s, ComputeCommand::PushDebugGroup { color, len });
            let text = s.text.take(len as int);
            &&& after.halt is None <==> s.depth < 0xffff_ffff && len <= s.text.len() && valid_utf8(
                text,
            )
            &&& after.halt is None ==> after.state == (PassModel {
                depth: s.depth + 1,
                text: s.text.skip(len as int),
                raw: s.raw.push(RawModel::BeginDebugMarker { label: decode_utf8(text), color }),
                ..s
            })
            &&& after.halt is Some ==> after.halt == Some(Halt::Fault) && after.state == s
        }),
{
}

/// Closing a debug group needs one that is open, tells the backend, and counts one less as open.
/// Where none is open it is refused, and nothing changes.
pub proof fn law_debug_group_closes(env: Env, s: PassModel)
    ensures
        ({
            let after = step(env, s, ComputeCommand::PopDebugGroup);
            &&& s.depth > 0 ==> after.halt is None && after.state == (PassModel {
                depth: (s.depth - 1) as nat,
                raw: s.raw.push(RawModel::EndDebugMarker),
                ..s
            })
            &&& s.depth == 0 ==> after.state == s && after.halt == Some(
                Halt::Error(ComputePassError::InvalidPopDebugGroup),
            )
        }),
{
}

/// A mark takes the next `len` label bytes, which must be there and be UTF-8, and hands them to the
/// backend as text with the colour that was recorded. Otherwise the pass is damaged, and nothing
/// changes.
pub proof fn law_debug_mark_is_left(env: Env, s: PassModel, color: u32, len: usize)
    ensures
        ({
            let after = step(env, s, ComputeCommand::InsertDebugMarker { color, len });
            let text = s.text.take(len as int);
            &&& after.halt is None <==> len <= s.text.len() && valid_utf8(text)
            &&& after.halt is None ==> after.state == (PassModel {
                text: s.text.skip(len as int),
                raw: s.raw.push(RawModel::InsertDebugMarker { label: decode_utf8(text), color }),
                ..s
            })
            &&& after.halt is Some ==> after.halt == Some(Halt::Fault) && after.state == s
        }),
{
}

/// Opening a debug group and closing it again leaves the count of open groups as it was.
pub proof fn law_debug_group_closes_what_it_opened(
    env: Env,
    s: PassModel,
    color: u32,
    len: usize,
)
    requires
        step(env, s, ComputeCommand::PushDebugGroup { color, len }).halt is None,
    ensures
        ({
            let opened = step(env, s, ComputeCommand::PushDebugGroup { color, len }).state;
            let closed = step(env, opened, ComputeCommand::PopDebugGroup);
            &&& closed.halt is None
            &&& closed.state.depth == s.depth
            &&& closed.state.binder == s.binder
            &&& closed.state.raw.len() == s.raw.len() + 2
        }),
{
    law_debug_group_opens(env, s, color, len);
    law_debug_group_closes(
        env,
        step(env, s, ComputeCommand::PushDebugGroup { color, len }).state,
    );
}

/// The dispatches that `commands` ask for, in order.
pub open spec fn recorded_dispatches(commands: Seq<ComputeCommand>) -> Seq<RawModel>
    decreases commands.len(),
{
    if commands.len() == 0 {
        Seq::empty()
    } else {
        let rest = recorded_dispatches(commands.drop_first());
        match commands[0] {
            ComputeCommand::Dispatch(groups) => seq![RawModel::Dispatch(groups)] + rest,
            ComputeCommand::DispatchIndirect { buffer_id, offset } => seq![
                RawModel::DispatchIndirect { buffer_id, offset },
            ] + rest,
            _ => rest,
        }
    }
}

/// The dispatches among raw commands, in order.
pub open spec fn dispatches(raw: Seq<RawModel>) -> Seq<RawModel>
    decreases raw.len(),
{
    if raw.len() == 0 {
        Seq::empty()
    } else if raw.last() is Dispatch || raw.last() is DispatchIndirect {
        dispatches(raw.drop_last()).push(raw.last())
    } else {
        dispatches(raw.drop_last())
    }
}

proof fn lemma_dispatches_add(a: Seq<RawModel>, b: Seq<RawModel>)
    ensures
        dispatches(a + b) == dispatches(a) + dispatches(b),
    decreases b.len(),
{
    if b.len() == 0 {
        assert(a + b =~= a);
        assert(dispatches(a) + dispatches(b) =~= dispatches(a));
    } else {
        assert((a + b).drop_last() =~= a + b.drop_last());
        lemma_dispatches_add(a, b.drop_last());
        assert(dispatches(a + b) =~= dispatches(a) + dispatches(b));
    }
}

proof fn lemma_dispatches_quiet(raw: Seq<RawModel>)
    requires
        quiet(raw),
    ensures
        dispatches(raw) == Seq::<RawModel>::empty(),
    decreases raw.len(),
{
    if raw.len() > 0 {
        assert(!is_dispatch(raw[raw.len() - 1]));
        assert(quiet(raw.drop_last())) by {
            assert forall|i: int| 0 <= i < raw.drop_last().len() implies #[trigger] raw.drop_last()[i]
                == raw[i] by {}
        }
        lemma_dispatches_quiet(raw.drop_last());
    }
}

/// A pass that runs to its end hands the backend every dispatch that was recorded, in order, with
/// its counts or its place, and no other.
pub proof fn law_dispatches_read_back(env: Env, s: PassModel, commands: Seq<ComputeCommand>)
    requires
        run(env, s, commands).halt is None,
    ensures
        dispatches(added(s, run(env, s, commands).state)) == recorded_dispatches(commands),
    decreases commands.len(),
{
    let after = run(env, s, commands).state;
    if commands.len() == 0 {
        assert(added(s, after) =~= Seq::<RawModel>::empty());
    } else {
        let first = step(env, s, commands[0]);
        let one = added(s, first.state);
        lemma_step_adds(env, s, commands[0]);
        lemma_added_splits(env, s, commands);
        law_dispatches_read_back(env, first.state, commands.drop_first());
        lemma_dispatches_add(one, added(first.state, after));
        let rest = recorded_dispatches(commands.drop_first());
        match commands[0] {
            ComputeCommand::SetBindGroup { .. } => lemma_dispatches_quiet(one),
            ComputeCommand::SetPipeline(_) => lemma_dispatches_quiet(one),
            ComputeCommand::SetPushConstant { .. } => lemma_dispatches_quiet(one),
            ComputeCommand::Dispatch(groups) => {
                reveal_with_fuel(dispatches, 2);
                assert(one =~= seq![RawModel::Dispatch(groups)]);
                assert(dispatches(one) =~= one);
            },
            ComputeCommand::DispatchIndirect { buffer_id, offset } => {
                reveal_with_fuel(dispatches, 3);
                let target = RawModel::DispatchIndirect { buffer_id, offset };
                assert(one =~= seq![RawModel::TransitionToIndirect { buffer_id }, target]);
                assert(one.drop_last() =~= seq![RawModel::TransitionToIndirect { buffer_id }]);
                assert(dispatches(one) =~= seq![target]);
            },
            _ => {
                reveal_with_fuel(dispatches, 2);
                assert(dispatches(one) =~= Seq::<RawModel>::empty());
            },
        }
        assert(dispatches(added(s, after)) =~= recorded_dispatches(commands));
    }
}

} // verus!
