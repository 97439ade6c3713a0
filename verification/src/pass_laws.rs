//! What running a whole pass does to the command buffer, and what recording one keeps.
use vstd::endian::{endianness, Endian};
use vstd::prelude::*;
use vstd::utf8::decode_utf8;

use crate::bind::{Slot, Slots};
use crate::binding_laws::{
    law_bind_group_is_bound_with_its_offsets, law_new_layout_binds_slots_with_their_offsets,
    law_pipeline_is_taken_on,
};
use crate::command_buffer::{CommandBuffer, CommandBufferModel, TraceCommand};
use crate::compute::{BasePass, BasePassRef, ComputeCommand, ComputePass, PassData};
use crate::compute_ffi::recorded;
use crate::encode::Global;
use crate::error::{CommandEncoderError, ComputePassError, Halt};
use crate::hub::Hub;
use crate::id::{CommandEncoderId, DynamicOffset, MAX_BIND_GROUPS};
use crate::laws::{added, lemma_added_splits};
use crate::model::{after_pass, pass_halt, run, step, Env, PassModel};
use crate::raw::{sets_in, RawCommand, RawModel};
use crate::state::PipelineState;
use crate::text::words_ne;

verus! {

/// No commands change nothing, and a single command runs as it is. Since lists of commands run one
/// after the other, this settles what any list does.
pub proof fn law_single_command_runs_as_it_is(env: Env, s: PassModel, command: ComputeCommand)
    ensures
        run(env, s, Seq::empty()).state == s,
        run(env, s, Seq::empty()).halt is None,
        run(env, s, seq![command]) == step(env, s, command),
{
    reveal_with_fuel(run, 2);
    assert(seq![command].drop_first() =~= Seq::<ComputeCommand>::empty());
}

/// A pass on a command buffer starts afresh: with no layout and no pipeline, no open debug group,
/// one empty slot for each bind group that the device offers, up to 8, and all of its own data. What
/// it hands to the backend goes to the end of the last raw command buffer. The other raw command
/// buffers and the rest of the command buffer stay as they were, but for what is listed as used and
/// for the trace, if one is kept, which gets the pass as it was recorded, even if it is refused. A
/// command buffer without a raw command buffer is left alone, and the pass counts as damaged.
pub proof fn law_pass_goes_to_the_last_raw_buffer(
    hub: Hub,
    buffer: CommandBufferModel,
    pass: PassData<ComputeCommand>,
)
    ensures
        ({
            let after = after_pass(hub, buffer, pass);
            let max_bind_groups = buffer.limits.max_bind_groups;
            let count: nat = if max_bind_groups < 8 {
                max_bind_groups as nat
            } else {
                8
            };
            let fresh = PassModel {
                binder: Slots {
                    layout: None,
                    slots: Seq::new(
                        count,
                        |i: int| Slot { expected: None, provided: None, offsets: Seq::empty() },
                    ),
                },
                pipeline: PipelineState::Required,
                depth: 0,
                offsets: pass.dynamic_offsets,
                text: pass.string_data,
                raw: buffer.raw.last(),
                trackers: buffer.trackers,
            };
            let env = Env { hub, max_bind_groups, constants: pass.push_constant_data };
            let end = run(env, fresh, pass.commands);
            &&& buffer.raw.len() == 0 ==> after == buffer && pass_halt(hub, buffer, pass) == Some(
                Halt::Fault,
            )
            &&& buffer.raw.len() > 0 ==> {
                &&& pass_halt(hub, buffer, pass) == end.halt
                &&& after.raw.len() == buffer.raw.len()
                &&& after.raw.last() == end.state.raw
                &&& forall|i: int|
                    0 <= i < buffer.raw.len() - 1 ==> #[trigger] after.raw[i] == buffer.raw[i]
                &&& after.trackers == end.state.trackers
                &&& buffer.commands is None ==> after.commands is None
                &&& buffer.commands matches Some(list) ==> after.commands == Some(list.push(pass))
            }
            &&& after.is_recording == buffer.is_recording
            &&& after.limits == buffer.limits
        }),
{
    let fresh = Slots::empty(buffer.limits.max_bind_groups);
    assert(fresh.slots =~= Seq::new(
        fresh.slots.len(),
        |i: int| Slot { expected: None, provided: None, offsets: Seq::empty() },
    ));
}

/// A pass is run only on an encoder that exists and is being recorded into; otherwise it is refused
/// for that reason, and nothing changes. Resources and other encoders are never changed.
pub proof fn law_pass_needs_a_recording_encoder(
    before: Global,
    after: Global,
    encoder_id: CommandEncoderId,
    pass: PassData<ComputeCommand>,
)
    requires
        before.ran(after, encoder_id, pass),
    ensures
        after.hub == before.hub,
        forall|id: CommandEncoderId| #[trigger]
            after.command_buffers@.contains_key(id) <==> before.command_buffers@.contains_key(id),
        forall|id: CommandEncoderId| #[trigger]
            before.command_buffers@.contains_key(id) && id != encoder_id
                ==> after.command_buffers@[id] == before.command_buffers@[id],
        !before.command_buffers@.contains_key(encoder_id) ==> {
            &&& after.command_buffers@ == before.command_buffers@
            &&& before.halt(encoder_id, pass) == Some(
                Halt::Error(ComputePassError::Encoder(CommandEncoderError::Invalid)),
            )
        },
        before.command_buffers@.contains_key(encoder_id)
            && !before.command_buffers@[encoder_id].is_recording ==> {
            &&& after.command_buffers@ == before.command_buffers@
            &&& before.halt(encoder_id, pass) == Some(
                Halt::Error(ComputePassError::Encoder(CommandEncoderError::NotRecording)),
            )
        },
        before.command_buffers@.contains_key(encoder_id)
            && before.command_buffers@[encoder_id].is_recording ==> {
            let buffer = before.command_buffers@[encoder_id]@;
            &&& after.command_buffers@[encoder_id]@ == after_pass(before.hub, buffer, pass)
            &&& before.halt(encoder_id, pass) == pass_halt(before.hub, buffer, pass)
        },
{
    assert forall|id: CommandEncoderId| #[trigger]
        after.command_buffers@.contains_key(id) implies before.command_buffers@.contains_key(id) by {
        assert(after.command_buffers@.dom().contains(id));
    }
    assert forall|id: CommandEncoderId| before.command_buffers@.contains_key(
        id,
    ) implies #[trigger] after.command_buffers@.contains_key(id) by {
        assert(before.command_buffers@.dom().contains(id));
    }
}

/// Recording a command puts it behind the commands recorded so far, and its data behind their data.
pub proof fn law_recording_appends(
    data: PassData<ComputeCommand>,
    command: ComputeCommand,
    offsets: Seq<DynamicOffset>,
    text: Seq<u8>,
    constants: Seq<u32>,
)
    ensures
        ({
            let after = data.record(command, offsets, text, constants);
            &&& after.commands.len() == data.commands.len() + 1
            &&& after.commands.last() == command
            &&& after.commands.drop_last() == data.commands
            &&& after.dynamic_offsets == data.dynamic_offsets + offsets
            &&& after.string_data == data.string_data + text
            &&& after.push_constant_data == data.push_constant_data + constants
        }),
{
    let after = data.record(command, offsets, text, constants);
    assert(after.commands.drop_last() =~= data.commands);
}

/// A recorded pass holds exactly what was recorded, in lists of its own, and stays with its encoder.
pub proof fn law_recorded_pass_holds_its_data(
    before: ComputePass,
    after: ComputePass,
    data: PassData<ComputeCommand>,
)
    requires
        recorded(before, after, data),
    ensures
        after.parent_id == before.parent_id,
        after.base.commands@ == data.commands,
        after.base.dynamic_offsets@ == data.dynamic_offsets,
        after.base.string_data@ == data.string_data,
        after.base.push_constant_data@ == data.push_constant_data,
{
}

/// Two passes, owned or borrowed, stand for the same only if they hold the same lists.
pub proof fn law_equal_passes_hold_equal_lists(
    a: BasePass<ComputeCommand>,
    b: BasePassRef<'_, ComputeCommand>,
)
    ensures
        a@ == b@ <==> {
            &&& a.commands@ == b.commands@
            &&& a.dynamic_offsets@ == b.dynamic_offsets@
            &&& a.string_data@ == b.string_data@
            &&& a.push_constant_data@ == b.push_constant_data@
        },
{
}

/// Every 4 bytes that are recorded make one word, in order, in the byte order of the machine.
pub proof fn law_words_hold_the_bytes(bytes: Seq<u8>)
    ensures
        words_ne(bytes).len() == bytes.len() / 4,
        forall|i: int|
            0 <= i < words_ne(bytes).len() ==> (#[trigger] words_ne(bytes)[i]) as int == (
            match endianness() {
                Endian::Little => bytes[4 * i] + 256 * bytes[4 * i + 1] + 65536 * bytes[4 * i + 2]
                    + 16777216 * bytes[4 * i + 3],
                Endian::Big => bytes[4 * i + 3] + 256 * bytes[4 * i + 2] + 65536 * bytes[4 * i + 1]
                    + 16777216 * bytes[4 * i],
            }),
{
    assert forall|i: int| 0 <= i < words_ne(bytes).len() implies (
    #[trigger] words_ne(bytes)[i]) as int == (match endianness() {
        Endian::Little => bytes[4 * i] + 256 * bytes[4 * i + 1] + 65536 * bytes[4 * i + 2]
            + 16777216 * bytes[4 * i + 3],
        Endian::Big => bytes[4 * i + 3] + 256 * bytes[4 * i + 2] + 65536 * bytes[4 * i + 1]
            + 16777216 * bytes[4 * i],
    }) by {
        let four = bytes.subrange(4 * i, 4 * i + 4);
        assert(four[0] == bytes[4 * i] && four[1] == bytes[4 * i + 1] && four[2] == bytes[4 * i + 2]
            && four[3] == bytes[4 * i + 3]);
    }
}

/// A raw command carries its numbers, lists and texts to the backend as they stand in it.
pub proof fn law_raw_command_carries_its_contents(command: RawCommand)
    ensures
        command matches RawCommand::InsertBarriers { bind_group_id } ==> (command@
            matches RawModel::InsertBarriers { bind_group_id: id } && id == bind_group_id),
        command matches RawCommand::BindComputeDescriptorSets {
            layout_id,
            first_set,
            sets,
            offsets,
        } ==> (command@ matches RawModel::BindComputeDescriptorSets {
            layout_id: id,
            first_set: first,
            sets: groups,
            offsets: list,
        } && id == layout_id && first == first_set && groups == sets_in(sets) && list == offsets@),
        command matches RawCommand::BindComputePipeline(pipeline_id) ==> (command@
            matches RawModel::BindComputePipeline(id) && id == pipeline_id),
        command matches RawCommand::PushComputeConstants { layout_id, offset, data } ==> (command@
            matches RawModel::PushComputeConstants { layout_id: id, offset: at, data: words } && id
            == layout_id && at == offset && words == data@),
        command matches RawCommand::Dispatch(groups) ==> (command@ matches RawModel::Dispatch(counts)
            && counts == groups),
        command matches RawCommand::TransitionToIndirect { buffer_id } ==> (command@
            matches RawModel::TransitionToIndirect { buffer_id: id } && id == buffer_id),
        command matches RawCommand::DispatchIndirect { buffer_id, offset } ==> (command@
            matches RawModel::DispatchIndirect { buffer_id: id, offset: at } && id == buffer_id
            && at == offset),
        command matches RawCommand::BeginDebugMarker { label, color } ==> (command@
            matches RawModel::BeginDebugMarker { label: text, color: shade } && text == label@
            && shade == color),
        command is EndDebugMarker ==> command@ is EndDebugMarker,
        command matches RawCommand::InsertDebugMarker { label, color } ==> (command@
            matches RawModel::InsertDebugMarker { label: text, color: shade } && text == label@
            && shade == color),
{
}

/// A command buffer stands for its raw commands one by one, in their order, for the resources that
/// it lists, and for the passes in its trace.
pub proof fn law_command_buffer_stands_for_its_commands(buffer: CommandBuffer)
    ensures
        buffer@.is_recording == buffer.is_recording,
        buffer@.limits == buffer.limits,
        buffer@.raw.len() == buffer.raw@.len(),
        forall|i: int|
            0 <= i < buffer.raw@.len() ==> (#[trigger] buffer@.raw[i]).len()
                == buffer.raw@[i]@.len(),
        forall|i: int, j: int|
            0 <= i < buffer.raw@.len() && 0 <= j < buffer.raw@[i]@.len()
                ==> #[trigger] buffer@.raw[i][j] == buffer.raw@[i]@[j]@,
        buffer@.trackers.bind_groups == buffer.trackers.bind_groups@,
        buffer@.trackers.compute_pipes == buffer.trackers.compute_pipes@,
        buffer@.trackers.buffers == buffer.trackers.buffers@,
        buffer.commands is None <==> buffer@.commands is None,
        buffer.commands matches Some(list) ==> {
            &&& buffer@.commands->0.len() == list@.len()
            &&& forall|i: int|
                0 <= i < list@.len() ==> (list@[i] matches TraceCommand::RunComputePass { base }
                    && #[trigger] buffer@.commands->0[i] == base@)
        },
{
}

/// Raw commands that neither bind slots nor write push constants.
pub open spec fn milestones(raw: Seq<RawModel>) -> Seq<RawModel>
    decreases raw.len(),
{
    if raw.len() == 0 {
        Seq::empty()
    } else if raw.last() is BindComputeDescriptorSets || raw.last() is PushComputeConstants {
        milestones(raw.drop_last())
    } else {
        milestones(raw.drop_last()).push(raw.last())
    }
}

/// What `commands` ask of the backend besides binding slots and writing push constants, with the
/// labels out of `text`.
pub open spec fn recorded_milestones(commands: Seq<ComputeCommand>, text: Seq<u8>) -> Seq<RawModel>
    decreases commands.len(),
{
    if commands.len() == 0 {
        Seq::empty()
    } else {
        let rest = commands.drop_first();
        match commands[0] {
            ComputeCommand::SetBindGroup { bind_group_id, .. } => seq![
                RawModel::InsertBarriers { bind_group_id },
            ] + recorded_milestones(rest, text),
            ComputeCommand::SetPipeline(pipeline_id) => seq![
                RawModel::BindComputePipeline(pipeline_id),
            ] + recorded_milestones(rest, text),
            ComputeCommand::SetPushConstant { .. } => recorded_milestones(rest, text),
            ComputeCommand::Dispatch(groups) => seq![RawModel::Dispatch(groups)]
                + recorded_milestones(rest, text),
            ComputeCommand::DispatchIndirect { buffer_id, offset } => seq![
                RawModel::TransitionToIndirect { buffer_id },
                RawModel::DispatchIndirect { buffer_id, offset },
            ] + recorded_milestones(rest, text),
            ComputeCommand::PushDebugGroup { color, len } => seq![
                RawModel::BeginDebugMarker { label: decode_utf8(text.take(len as int)), color },
            ] + recorded_milestones(rest, text.skip(len as int)),
            ComputeCommand::PopDebugGroup => seq![RawModel::EndDebugMarker]
                + recorded_milestones(rest, text),
            ComputeCommand::InsertDebugMarker { color, len } => seq![
                RawModel::InsertDebugMarker { label: decode_utf8(text.take(len as int)), color },
            ] + recorded_milestones(rest, text.skip(len as int)),
        }
    }
}

proof fn lemma_milestones_add(a: Seq<RawModel>, b: Seq<RawModel>)
    ensures
        milestones(a + b) == milestones(a) + milestones(b),
    decreases b.len(),
{
    if b.len() == 0 {
        assert(a + b =~= a);
        assert(milestones(a) + milestones(b) =~= milestones(a));
    } else {
        assert((a + b).drop_last() =~= a + b.drop_last());
        lemma_milestones_add(a, b.drop_last());
        assert(milestones(a + b) =~= milestones(a) + milestones(b));
    }
}

/// One milestone, followed by none.
proof fn lemma_milestone_first(raw: Seq<RawModel>)
    requires
        raw.len() >= 1,
        !(raw[0] is BindComputeDescriptorSets || raw[0] is PushComputeConstants),
        forall|k: int|
            1 <= k < raw.len() ==> (#[trigger] raw[k]) is BindComputeDescriptorSets
                || raw[k] is PushComputeConstants,
    ensures
        milestones(raw) == seq![raw[0]],
    decreases raw.len(),
{
    if raw.len() == 1 {
        reveal_with_fuel(milestones, 2);
        assert(raw.drop_last() =~= Seq::<RawModel>::empty());
        assert(milestones(raw) =~= seq![raw[0]]);
    } else {
        let front = raw.drop_last();
        assert(forall|k: int| 0 <= k < front.len() ==> #[trigger] front[k] == raw[k]);
        lemma_milestone_first(front);
        assert(raw.last() == raw[raw.len() - 1]);
    }
}

proof fn lemma_step_milestones(env: Env, s: PassModel, command: ComputeCommand)
    requires
        s.binder.slots.len() <= MAX_BIND_GROUPS,
        step(env, s, command).halt is None,
    ensures
        recorded_milestones(seq![command], s.text) == milestones(
            added(s, step(env, s, command).state),
        ),
        step(env, s, command).state.binder.slots.len() == s.binder.slots.len(),
{
    let after = step(env, s, command).state;
    let one = added(s, after);
    reveal_with_fuel(recorded_milestones, 2);
    assert(seq![command].drop_first() =~= Seq::<ComputeCommand>::empty());
    match command {
        ComputeCommand::SetBindGroup { index, num_dynamic_offsets, bind_group_id } => {
            law_bind_group_is_bound_with_its_offsets(
                env,
                s,
                index,
                num_dynamic_offsets,
                bind_group_id,
            );
            lemma_milestone_first(one);
        },
        ComputeCommand::SetPipeline(pipeline_id) => {
            let layout_id = env.hub.compute_pipelines@[pipeline_id].layout_id;
            if s.binder.layout == Some(layout_id) {
                law_pipeline_is_taken_on(env, s, pipeline_id);
            } else {
                law_new_layout_binds_slots_with_their_offsets(env, s, pipeline_id);
            }
            lemma_milestone_first(one);
        },
        ComputeCommand::DispatchIndirect { buffer_id, offset } => {
            reveal_with_fuel(milestones, 3);
            assert(one =~= seq![
                RawModel::TransitionToIndirect { buffer_id },
                RawModel::DispatchIndirect { buffer_id, offset },
            ]);
            assert(one.drop_last() =~= seq![RawModel::TransitionToIndirect { buffer_id }]);
            assert(milestones(one) =~= one);
        },
        ComputeCommand::SetPushConstant { .. } => {
            reveal_with_fuel(milestones, 2);
            assert(milestones(one) =~= Seq::<RawModel>::empty());
        },
        _ => {
            lemma_milestone_first(one);
        },
    }
    assert(recorded_milestones(seq![command], s.text) =~= milestones(one));
}

/// A pass that runs to its end hands the backend, in the order of its commands, the barriers of
/// every bind group that was set, every pipeline, every dispatch, and every debug mark with its
/// label. Besides these it only binds slots and writes push constants.
pub proof fn law_commands_read_back(env: Env, s: PassModel, commands: Seq<ComputeCommand>)
    requires
        s.binder.slots.len() <= MAX_BIND_GROUPS,
        run(env, s, commands).halt is None,
    ensures
        milestones(added(s, run(env, s, commands).state)) == recorded_milestones(commands, s.text),
    decreases commands.len(),
{
    let after = run(env, s, commands).state;
    if commands.len() == 0 {
        assert(added(s, after) =~= Seq::<RawModel>::empty());
    } else {
        let first = step(env, s, commands[0]);
        let one = added(s, first.state);
        lemma_added_splits(env, s, commands);
        lemma_step_milestones(env, s, commands[0]);
        law_commands_read_back(env, first.state, commands.drop_first());
        lemma_milestones_add(one, added(first.state, after));
        reveal_with_fuel(recorded_milestones, 2);
        assert(seq![commands[0]].drop_first() =~= Seq::<ComputeCommand>::empty());
        assert(milestones(added(s, after)) =~= recorded_milestones(commands, s.text));
    }
}

} // verus!
