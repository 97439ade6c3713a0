//! What a compute pass means: the raw commands that it amounts to, and where it stops.
use vstd::prelude::*;
use vstd::utf8::{decode_utf8, valid_utf8};

use crate::bind::{kept_expectations, BindGroupPair, Slot, Slots};
use crate::command_buffer::{with_use, CommandBufferModel, TrackerModel};
use crate::compute::{ComputeCommand, PassData};
use crate::error::{ComputePassError, DispatchError, Halt, MissingBufferUsageError};
use crate::hub::{dynamic_binding_fault, Hub};
use crate::id::{
    has_all, BindGroupId, BindGroupLayoutId, BufferAddress, BufferId, ComputePipelineId,
    DynamicOffset, PipelineLayoutId, PushConstantRange, BUFFER_USAGE_INDIRECT,
    PUSH_CONSTANT_ALIGNMENT, SHADER_STAGE_COMPUTE,
};
use crate::push_constants::{clear_writes, segments, upload_fault, WriteModel};
use crate::raw::{capped, RawModel};
use crate::state::{readiness, PipelineState};

verus! {

/// What the commands of a pass can look at but not change.
pub struct Env {
    pub hub: Hub,
    pub max_bind_groups: u32,
    /// The push constant words of the pass.
    pub constants: Seq<u32>,
}

/// What the commands of a pass work on.
#[verifier::ext_equal]
pub struct PassModel {
    pub binder: Slots,
    pub pipeline: PipelineState,
    /// How many debug groups are open.
    pub depth: nat,
    /// The dynamic offsets that no command has taken yet.
    pub offsets: Seq<DynamicOffset>,
    /// The label bytes that no command has taken yet.
    pub text: Seq<u8>,
    /// The raw commands so far.
    pub raw: Seq<RawModel>,
    pub trackers: TrackerModel,
}

/// Where a command, or a list of them, leads.
#[verifier::ext_equal]
pub struct Outcome {
    pub state: PassModel,
    pub halt: Option<Halt>,
}

impl PassModel {
    pub open spec fn proceed(self) -> Outcome {
        Outcome { state: self, halt: None }
    }

    pub open spec fn refuse(self, error: ComputePassError) -> Outcome {
        Outcome { state: self, halt: Some(Halt::Error(error)) }
    }

    pub open spec fn fault(self) -> Outcome {
        Outcome { state: self, halt: Some(Halt::Fault) }
    }

    /// The state with one more raw command.
    pub open spec fn emit(self, command: RawModel) -> PassModel {
        PassModel { raw: self.raw.push(command), ..self }
    }

    /// The state with more raw commands.
    pub open spec fn emit_all(self, commands: Seq<RawModel>) -> PassModel {
        PassModel { raw: self.raw + commands, ..self }
    }
}

/// The bind groups in a run of slots.
pub open spec fn groups_in(slots: Seq<Slot>) -> Seq<BindGroupId> {
    slots.map_values(|s: Slot| s.provided->0.group_id)
}

/// The dynamic offsets in a run of slots, one slot after the other.
pub open spec fn offsets_in(slots: Seq<Slot>) -> Seq<DynamicOffset>
    decreases slots.len(),
{
    if slots.len() == 0 {
        Seq::empty()
    } else {
        offsets_in(slots.drop_last()) + slots.last().offsets
    }
}

/// Putting a bind group into a slot. Once the group is found and its offsets are in order, its
/// resources are moved into place and the slots that have become ready are bound.
pub open spec fn set_bind_group(
    env: Env,
    s: PassModel,
    index: u8,
    num_dynamic_offsets: u8,
    bind_group_id: BindGroupId,
) -> Outcome {
    if index as u32 >= env.max_bind_groups {
        s.refuse(
            ComputePassError::BindGroupIndexOutOfRange { index, max: env.max_bind_groups },
        )
    } else if num_dynamic_offsets > s.offsets.len() {
        s.fault()
    } else {
        let offsets = s.offsets.take(num_dynamic_offsets as int);
        let taken = PassModel { offsets: s.offsets.skip(num_dynamic_offsets as int), ..s };
        if !env.hub.bind_groups@.contains_key(bind_group_id) {
            taken.refuse(ComputePassError::InvalidBindGroup(bind_group_id))
        } else {
            let group = env.hub.bind_groups@[bind_group_id];
            let used = PassModel {
                trackers: TrackerModel {
                    bind_groups: with_use(s.trackers.bind_groups, bind_group_id),
                    ..s.trackers
                },
                ..taken
            };
            match dynamic_binding_fault(group.dynamic_binding_info@, offsets) {
                Some(e) => used.refuse(ComputePassError::Bind(e)),
                None => bind_ready_slots(
                    used.emit(RawModel::InsertBarriers { bind_group_id }),
                    index as int,
                    BindGroupPair { layout_id: group.layout_id, group_id: bind_group_id },
                    offsets,
                ),
            }
        }
    }
}

/// Puts the bind group into its slot and binds the slots that have become ready.
pub open spec fn bind_ready_slots(
    s: PassModel,
    index: int,
    pair: BindGroupPair,
    offsets: Seq<DynamicOffset>,
) -> Outcome {
    if index >= s.binder.slots.len() {
        s.fault()
    } else {
        let provided = PassModel { binder: s.binder.provide(index, pair, offsets), ..s };
        match s.binder.to_bind(index, pair, offsets) {
            None => provided.proceed(),
            Some((layout_id, end)) => {
                let follow_ups = provided.binder.slots.subrange(index + 1, end as int);
                provided.emit(
                    RawModel::BindComputeDescriptorSets {
                        layout_id,
                        first_set: index,
                        sets: capped(seq![pair.group_id] + groups_in(follow_ups)),
                        offsets: offsets + offsets_in(follow_ups),
                    },
                ).proceed()
            },
        }
    }
}

/// The slots once the layouts `ids` are expected of them, as far as both reach.
pub open spec fn expect_all(slots: Seq<Slot>, ids: Seq<BindGroupLayoutId>) -> Seq<Slot> {
    Seq::new(
        slots.len(),
        |i: int|
            if i < ids.len() {
                slots[i].expecting(Some(ids[i]))
            } else {
                slots[i]
            },
    )
}

/// Some slot below `n` is newly expected to hold a layout that it does not hold.
pub open spec fn mismatch_below(
    slots: Seq<Slot>,
    ids: Seq<BindGroupLayoutId>,
    n: int,
) -> bool {
    exists|j: int| 0 <= j < n && (#[trigger] slots[j]).layout_change(ids[j]) is Mismatch
}

/// The slot `i` holds what is newly expected of it, and no slot below fails.
pub open spec fn rebound(slots: Seq<Slot>, ids: Seq<BindGroupLayoutId>, i: int) -> bool {
    slots[i].layout_change(ids[i]) is Match && !mismatch_below(slots, ids, i)
}

/// The commands that bind anew those of the first `n` slots that are [`rebound`].
pub open spec fn rebinds(
    slots: Seq<Slot>,
    ids: Seq<BindGroupLayoutId>,
    layout_id: PipelineLayoutId,
    n: int,
) -> Seq<RawModel>
    decreases n,
{
    if n <= 0 {
        Seq::empty()
    } else {
        let before = rebinds(slots, ids, layout_id, n - 1);
        if rebound(slots, ids, n - 1) {
            before.push(
                RawModel::BindComputeDescriptorSets {
                    layout_id,
                    first_set: n - 1,
                    sets: seq![slots[n - 1].provided->0.group_id],
                    offsets: slots[n - 1].offsets,
                },
            )
        } else {
            before
        }
    }
}

/// The commands that make `writes`.
pub open spec fn write_commands(
    layout_id: PipelineLayoutId,
    writes: Seq<WriteModel>,
) -> Seq<RawModel> {
    writes.map_values(
        |w: WriteModel|
            RawModel::PushComputeConstants { layout_id, offset: w.offset, data: w.data },
    )
}

/// The commands that clear the first `n` of `parts`.
pub open spec fn clears(
    layout_id: PipelineLayoutId,
    parts: Seq<PushConstantRange>,
    n: int,
) -> Seq<RawModel>
    decreases n,
{
    if n <= 0 {
        Seq::empty()
    } else {
        let part = parts[n - 1];
        clears(layout_id, parts, n - 1) + write_commands(
            layout_id,
            clear_writes(part.start as int, part.end - part.start),
        )
    }
}

/// Making a pipeline the current one. If that changes the layout, the slots are held against the
/// new layout, those that now match are bound anew, and the push constants are cleared.
pub open spec fn set_pipeline(env: Env, s: PassModel, pipeline_id: ComputePipelineId) -> Outcome {
    let set = PassModel { pipeline: PipelineState::Provided, ..s };
    if !env.hub.compute_pipelines@.contains_key(pipeline_id) {
        set.refuse(ComputePassError::InvalidPipeline(pipeline_id))
    } else {
        let layout_id = env.hub.compute_pipelines@[pipeline_id].layout_id;
        let bound = PassModel {
            trackers: TrackerModel {
                compute_pipes: with_use(s.trackers.compute_pipes, pipeline_id),
                ..s.trackers
            },
            ..set
        }.emit(RawModel::BindComputePipeline(pipeline_id));
        if s.binder.layout == Some(layout_id) {
            bound.proceed()
        } else {
            rebind_resources(env, bound, layout_id)
        }
    }
}

/// The slots held against the layout `layout_id`, before its expectations are put in.
pub open spec fn held(hub: Hub, binder: Slots, layout_id: PipelineLayoutId) -> Slots {
    let layouts = hub.pipeline_layouts@;
    let old_layout = match binder.layout {
        Some(old_id) => Some(layouts[old_id]),
        None => None,
    };
    binder.relayout(layout_id, kept_expectations(old_layout, layouts[layout_id]))
}

/// The commands that bind slots anew when the layout becomes `layout_id`.
pub open spec fn rebind_commands(hub: Hub, binder: Slots, layout_id: PipelineLayoutId) -> Seq<
    RawModel,
> {
    let ids = hub.pipeline_layouts@[layout_id].bind_group_layout_ids@;
    let slots = held(hub, binder, layout_id).slots;
    rebinds(
        slots,
        ids,
        layout_id,
        if ids.len() < slots.len() {
            ids.len() as int
        } else {
            slots.len() as int
        },
    )
}

/// The commands that clear the push constants of the layout `layout_id`.
pub open spec fn clear_commands(hub: Hub, layout_id: PipelineLayoutId) -> Seq<RawModel> {
    let parts = segments(hub.pipeline_layouts@[layout_id].push_constant_ranges@, 0);
    clears(layout_id, parts, parts.len() as int)
}

/// Goes over to the layout `layout_id`.
pub open spec fn rebind_resources(
    env: Env,
    s: PassModel,
    layout_id: PipelineLayoutId,
) -> Outcome {
    let layouts = env.hub.pipeline_layouts@;
    if !layouts.contains_key(layout_id) {
        s.fault()
    } else if s.binder.layout matches Some(old_id) && !layouts.contains_key(old_id) {
        s.fault()
    } else {
        let expected = layouts[layout_id].bind_group_layout_ids@;
        let slots = expect_all(held(env.hub, s.binder, layout_id).slots, expected);
        PassModel { binder: Slots { layout: Some(layout_id), slots }, ..s }.emit_all(
            rebind_commands(env.hub, s.binder, layout_id),
        ).emit_all(clear_commands(env.hub, layout_id)).proceed()
    }
}

/// Writing push constants. The words must be there, a layout must be current, and the write must
/// suit it.
pub open spec fn set_push_constant(
    env: Env,
    s: PassModel,
    offset: u32,
    size_bytes: u32,
    values_offset: u32,
) -> Outcome {
    let end = offset + size_bytes;
    let values_end = values_offset + size_bytes / PUSH_CONSTANT_ALIGNMENT;
    if end > u32::MAX || values_end > u32::MAX || values_end > env.constants.len() {
        s.fault()
    } else {
        match s.binder.layout {
            None => s.refuse(ComputePassError::Dispatch(DispatchError::MissingPipeline)),
            Some(layout_id) => if !env.hub.pipeline_layouts@.contains_key(layout_id) {
                s.fault()
            } else {
                let ranges = env.hub.pipeline_layouts@[layout_id].push_constant_ranges@;
                match upload_fault(ranges, SHADER_STAGE_COMPUTE, offset, end as u32) {
                    Some(e) => s.refuse(ComputePassError::PushConstants(e)),
                    None => s.emit(
                        RawModel::PushComputeConstants {
                            layout_id,
                            offset,
                            data: env.constants.subrange(values_offset as int, values_end),
                        },
                    ).proceed(),
                }
            },
        }
    }
}

/// Dispatching, if the state is ready for it.
pub open spec fn dispatch(s: PassModel, groups: [u32; 3]) -> Outcome {
    match readiness(s.binder, s.pipeline) {
        Err(e) => s.refuse(ComputePassError::Dispatch(e)),
        Ok(()) => s.emit(RawModel::Dispatch(groups)).proceed(),
    }
}

/// Dispatching with arguments out of a buffer, if the state is ready for it and the buffer may be
/// so used.
pub open spec fn dispatch_indirect(
    env: Env,
    s: PassModel,
    buffer_id: BufferId,
    offset: BufferAddress,
) -> Outcome {
    match readiness(s.binder, s.pipeline) {
        Err(e) => s.refuse(ComputePassError::Dispatch(e)),
        Ok(()) => if !env.hub.buffers@.contains_key(buffer_id) {
            s.refuse(ComputePassError::InvalidIndirectBuffer(buffer_id))
        } else {
            let usage = env.hub.buffers@[buffer_id].usage;
            let used = PassModel {
                trackers: TrackerModel {
                    buffers: with_use(s.trackers.buffers, buffer_id),
                    ..s.trackers
                },
                ..s
            };
            if !has_all(usage, BUFFER_USAGE_INDIRECT) {
                used.refuse(
                    ComputePassError::MissingBufferUsage(
                        MissingBufferUsageError { actual: usage, expected: BUFFER_USAGE_INDIRECT },
                    ),
                )
            } else {
                used.emit(RawModel::TransitionToIndirect { buffer_id }).emit(
                    RawModel::DispatchIndirect { buffer_id, offset },
                ).proceed()
            }
        },
    }
}

/// The next `len` label bytes are there, and are text.
pub open spec fn label_present(s: PassModel, len: usize) -> bool {
    len <= s.text.len() && valid_utf8(s.text.take(len as int))
}

/// The text of the next `len` label bytes.
pub open spec fn label(s: PassModel, len: usize) -> Seq<char> {
    decode_utf8(s.text.take(len as int))
}

/// Opening a debug group.
pub open spec fn push_debug_group(s: PassModel, color: u32, len: usize) -> Outcome {
    if s.depth >= u32::MAX || !label_present(s, len) {
        s.fault()
    } else {
        PassModel { depth: s.depth + 1, text: s.text.skip(len as int), ..s }.emit(
            RawModel::BeginDebugMarker { label: label(s, len), color },
        ).proceed()
    }
}

/// Closing the innermost debug group.
pub open spec fn pop_debug_group(s: PassModel) -> Outcome {
    if s.depth == 0 {
        s.refuse(ComputePassError::InvalidPopDebugGroup)
    } else {
        PassModel { depth: (s.depth - 1) as nat, ..s }.emit(RawModel::EndDebugMarker).proceed()
    }
}

/// Leaving a mark.
pub open spec fn insert_debug_marker(s: PassModel, color: u32, len: usize) -> Outcome {
    if !label_present(s, len) {
        s.fault()
    } else {
        PassModel { text: s.text.skip(len as int), ..s }.emit(
            RawModel::InsertDebugMarker { label: label(s, len), color },
        ).proceed()
    }
}

/// One command.
pub open spec fn step(env: Env, s: PassModel, command: ComputeCommand) -> Outcome {
    match command {
        ComputeCommand::SetBindGroup { index, num_dynamic_offsets, bind_group_id } => {
            set_bind_group(env, s, index, num_dynamic_offsets, bind_group_id)
        },
        ComputeCommand::SetPipeline(pipeline_id) => set_pipeline(env, s, pipeline_id),
        ComputeCommand::SetPushConstant { offset, size_bytes, values_offset } => {
            set_push_constant(env, s, offset, size_bytes, values_offset)
        },
        ComputeCommand::Dispatch(groups) => dispatch(s, groups),
        ComputeCommand::DispatchIndirect { buffer_id, offset } => {
            dispatch_indirect(env, s, buffer_id, offset)
        },
        ComputeCommand::PushDebugGroup { color, len } => push_debug_group(s, color, len),
        ComputeCommand::PopDebugGroup => pop_debug_group(s),
        ComputeCommand::InsertDebugMarker { color, len } => insert_debug_marker(s, color, len),
    }
}

/// A list of commands, one after the other, up to the first that stops the pass.
pub open spec fn run(env: Env, s: PassModel, commands: Seq<ComputeCommand>) -> Outcome
    decreases commands.len(),
{
    if commands.len() == 0 {
        s.proceed()
    } else {
        let first = step(env, s, commands[0]);
        if first.halt is Some {
            first
        } else {
            run(env, first.state, commands.drop_first())
        }
    }
}

/// What a pass can look at when it is run on `buffer`.
pub open spec fn env_of(
    hub: Hub,
    buffer: CommandBufferModel,
    pass: PassData<ComputeCommand>,
) -> Env {
    Env {
        hub,
        max_bind_groups: buffer.limits.max_bind_groups,
        constants: pass.push_constant_data,
    }
}

/// What a pass starts from when it is run on `buffer`.
pub open spec fn start(
    buffer: CommandBufferModel,
    pass: PassData<ComputeCommand>,
) -> PassModel {
    PassModel {
        binder: Slots::empty(buffer.limits.max_bind_groups),
        pipeline: PipelineState::Required,
        depth: 0,
        offsets: pass.dynamic_offsets,
        text: pass.string_data,
        raw: buffer.raw.last(),
        trackers: buffer.trackers,
    }
}

/// A whole pass on a command buffer that is being recorded.
pub open spec fn run_pass(
    hub: Hub,
    buffer: CommandBufferModel,
    pass: PassData<ComputeCommand>,
) -> Outcome {
    run(env_of(hub, buffer, pass), start(buffer, pass), pass.commands)
}

/// Why the pass stops, if it does.
pub open spec fn pass_halt(
    hub: Hub,
    buffer: CommandBufferModel,
    pass: PassData<ComputeCommand>,
) -> Option<Halt> {
    if buffer.raw.len() == 0 {
        Some(Halt::Fault)
    } else {
        run_pass(hub, buffer, pass).halt
    }
}

/// The command buffer after the pass: the raw commands up to where the pass stops are in its last
/// raw command buffer, what they use is tracked, and the pass is in the trace.
pub open spec fn after_pass(
    hub: Hub,
    buffer: CommandBufferModel,
    pass: PassData<ComputeCommand>,
) -> CommandBufferModel {
    if buffer.raw.len() == 0 {
        buffer
    } else {
        let end = run_pass(hub, buffer, pass).state;
        CommandBufferModel {
            raw: buffer.raw.update(buffer.raw.len() - 1, end.raw),
            trackers: end.trackers,
            commands: match buffer.commands {
                Some(list) => Some(list.push(pass)),
                None => None,
            },
            ..buffer
        }
    }
}

} // verus!
