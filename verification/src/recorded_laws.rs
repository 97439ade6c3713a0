//! How a pass that was recorded command by command runs.
use vstd::prelude::*;
use vstd::utf8::valid_utf8;

use crate::command_buffer::CommandBufferModel;
use crate::compute::{
    constants_present, offsets_taken, text_taken, total_offsets, total_text, ComputeCommand,
    PassData,
};
use crate::error::Halt;
use crate::hub::Hub;
use crate::id::{
    DynamicOffset, PipelineLayoutId, MAX_BIND_GROUPS, PUSH_CONSTANT_ALIGNMENT,
    SHADER_STAGE_COMPUTE,
};
use crate::laws::law_passes_compose;
use crate::model::{
    env_of, pass_halt, run, run_pass, start, step, Env, Outcome, PassModel,
};
use crate::push_constants::upload_fault;
use crate::raw::RawModel;
use crate::text::words_ne;

verus! {

/// Each label that `commands` take out of `text` is well-formed UTF-8.
pub open spec fn labels_are_text(commands: Seq<ComputeCommand>, text: Seq<u8>) -> bool
    decreases commands.len(),
{
    commands.len() > 0 ==> {
        let len = text_taken(commands[0]) as int;
        valid_utf8(text.take(len)) && labels_are_text(commands.drop_first(), text.skip(len))
    }
}

/// Run from `depth` open debug groups, the commands never have more than `2^32 - 1` open at once.
pub open spec fn nesting_fits(commands: Seq<ComputeCommand>, depth: nat) -> bool
    decreases commands.len(),
{
    commands.len() > 0 ==> match commands[0] {
        ComputeCommand::PushDebugGroup { .. } => depth < u32::MAX && nesting_fits(
            commands.drop_first(),
            depth + 1,
        ),
        ComputeCommand::PopDebugGroup => depth == 0 || nesting_fits(
            commands.drop_first(),
            (depth - 1) as nat,
        ),
        _ => nesting_fits(commands.drop_first(), depth),
    }
}

/// The bytes and words that the commands name are numbered below `2^32`.
pub open spec fn sizes_fit(commands: Seq<ComputeCommand>) -> bool {
    forall|i: int|
        0 <= i < commands.len() ==> match #[trigger] commands[i] {
            ComputeCommand::SetPushConstant { offset, size_bytes, values_offset } => offset
                + size_bytes <= u32::MAX && values_offset + size_bytes / PUSH_CONSTANT_ALIGNMENT
                <= u32::MAX,
            _ => true,
        }
}

/// The layout of every pipeline exists.
pub open spec fn layouts_present(hub: Hub) -> bool {
    forall|id: u64| #[trigger]
        hub.compute_pipelines@.contains_key(id) ==> hub.pipeline_layouts@.contains_key(
            hub.compute_pipelines@[id].layout_id,
        )
}

proof fn lemma_totals_split(commands: Seq<ComputeCommand>)
    requires
        commands.len() > 0,
    ensures
        total_offsets(commands) == offsets_taken(commands[0]) + total_offsets(
            commands.drop_first(),
        ),
        total_text(commands) == text_taken(commands[0]) + total_text(commands.drop_first()),
    decreases commands.len(),
{
    let rest = commands.drop_first();
    if commands.len() == 1 {
        assert(commands.drop_last() =~= Seq::<ComputeCommand>::empty());
        assert(rest =~= Seq::<ComputeCommand>::empty());
    } else {
        lemma_totals_split(commands.drop_last());
        assert(commands.drop_last().drop_first() =~= rest.drop_last());
        assert(rest.last() == commands.last());
    }
}

proof fn lemma_step_consumes(env: Env, s: PassModel, command: ComputeCommand)
    requires
        step(env, s, command).halt is None,
    ensures
        offsets_taken(command) <= s.offsets.len(),
        text_taken(command) <= s.text.len(),
        step(env, s, command).state.offsets == s.offsets.skip(offsets_taken(command) as int),
        step(env, s, command).state.text == s.text.skip(text_taken(command) as int),
{
    assert(s.offsets.skip(0) =~= s.offsets);
    assert(s.text.skip(0) =~= s.text);
}

/// A list of commands that runs to its end uses up exactly the dynamic offsets and label bytes that
/// its commands ask for.
pub proof fn law_data_is_used_up(env: Env, s: PassModel, commands: Seq<ComputeCommand>)
    requires
        run(env, s, commands).halt is None,
    ensures
        total_offsets(commands) <= s.offsets.len(),
        total_text(commands) <= s.text.len(),
        run(env, s, commands).state.offsets == s.offsets.skip(total_offsets(commands) as int),
        run(env, s, commands).state.text == s.text.skip(total_text(commands) as int),
    decreases commands.len(),
{
    if commands.len() == 0 {
        assert(s.offsets.skip(0) =~= s.offsets);
        assert(s.text.skip(0) =~= s.text);
    } else {
        let first = step(env, s, commands[0]);
        lemma_step_consumes(env, s, commands[0]);
        law_data_is_used_up(env, first.state, commands.drop_first());
        lemma_totals_split(commands);
        assert(run(env, s, commands).state.offsets =~= s.offsets.skip(
            total_offsets(commands) as int,
        ));
        assert(run(env, s, commands).state.text =~= s.text.skip(total_text(commands) as int));
    }
}

/// What keeps the rest of a pass from faulting.
spec fn sound(env: Env, s: PassModel, commands: Seq<ComputeCommand>) -> bool {
    &&& total_offsets(commands) <= s.offsets.len()
    &&& total_text(commands) <= s.text.len()
    &&& forall|i: int|
        0 <= i < commands.len() ==> constants_present(
            #[trigger] commands[i],
            env.constants.len(),
        )
    &&& labels_are_text(commands, s.text)
    &&& sizes_fit(commands)
    &&& layouts_present(env.hub)
    &&& s.binder.layout matches Some(id) ==> env.hub.pipeline_layouts@.contains_key(id)
    &&& env.max_bind_groups <= s.binder.slots.len()
    &&& nesting_fits(commands, s.depth)
}

proof fn lemma_sound_run(env: Env, s: PassModel, commands: Seq<ComputeCommand>)
    requires
        sound(env, s, commands),
    ensures
        run(env, s, commands).halt != Some(Halt::Fault),
    decreases commands.len(),
{
    if commands.len() > 0 {
        let first = step(env, s, commands[0]);
        let rest = commands.drop_first();
        lemma_totals_split(commands);
        assert(constants_present(commands[0], env.constants.len()));
        assert(forall|i: int| 0 <= i < rest.len() ==> #[trigger] rest[i] == commands[i + 1]);
        if first.halt is None {
            lemma_step_consumes(env, s, commands[0]);
            lemma_sound_run(env, first.state, rest);
        }
    }
}

/// A well-formed pass on a sound device is never damaged: it runs to its end or is refused. Sound
/// means that the layout of every pipeline exists and that the device offers no more bind groups
/// than the library supports.
pub proof fn law_well_formed_pass_never_faults(
    hub: Hub,
    buffer: CommandBufferModel,
    pass: PassData<ComputeCommand>,
)
    requires
        pass.well_formed(),
        labels_are_text(pass.commands, pass.string_data),
        sizes_fit(pass.commands),
        nesting_fits(pass.commands, 0),
        layouts_present(hub),
        buffer.limits.max_bind_groups <= MAX_BIND_GROUPS,
        buffer.raw.len() > 0,
    ensures
        pass_halt(hub, buffer, pass) != Some(Halt::Fault),
{
    lemma_sound_run(env_of(hub, buffer, pass), start(buffer, pass), pass.commands);
}

/// Recording a command whose label is UTF-8 keeps every label of a pass UTF-8.
pub proof fn law_recording_keeps_labels_text(
    commands: Seq<ComputeCommand>,
    string_data: Seq<u8>,
    command: ComputeCommand,
    text: Seq<u8>,
)
    requires
        total_text(commands) == string_data.len(),
        labels_are_text(commands, string_data),
        text.len() == text_taken(command),
        valid_utf8(text),
    ensures
        labels_are_text(commands.push(command), string_data + text),
    decreases commands.len(),
{
    let longer = commands.push(command);
    let all = string_data + text;
    if commands.len() == 0 {
        reveal_with_fuel(labels_are_text, 2);
        assert(longer[0] == command);
        assert(all.take(text_taken(command) as int) =~= text);
        assert(longer.drop_first() =~= Seq::<ComputeCommand>::empty());
    } else {
        lemma_totals_split(commands);
        let len = text_taken(commands[0]) as int;
        assert(longer[0] == commands[0]);
        assert(longer.drop_first() =~= commands.drop_first().push(command));
        assert(all.take(len) =~= string_data.take(len));
        assert(all.skip(len) =~= string_data.skip(len) + text);
        law_recording_keeps_labels_text(
            commands.drop_first(),
            string_data.skip(len),
            command,
            text,
        );
    }
}

/// The state with more data at hand than any command so far will take.
spec fn with_more(s: PassModel, offsets: Seq<DynamicOffset>, text: Seq<u8>) -> PassModel {
    PassModel { offsets: s.offsets + offsets, text: s.text + text, ..s }
}

spec fn env_with_more(env: Env, constants: Seq<u32>) -> Env {
    Env { constants: env.constants + constants, ..env }
}

proof fn lemma_step_with_more(
    env: Env,
    s: PassModel,
    command: ComputeCommand,
    offsets: Seq<DynamicOffset>,
    text: Seq<u8>,
    constants: Seq<u32>,
)
    requires
        step(env, s, command).halt != Some(Halt::Fault),
    ensures
        step(env_with_more(env, constants), with_more(s, offsets, text), command) == (Outcome {
            state: with_more(step(env, s, command).state, offsets, text),
            halt: step(env, s, command).halt,
        }),
{
    let more = with_more(s, offsets, text);
    let after = step(env, s, command).state;
    match command {
        ComputeCommand::SetBindGroup { num_dynamic_offsets, .. } => {
            let n = num_dynamic_offsets as int;
            if n <= s.offsets.len() {
                assert(more.offsets.take(n) =~= s.offsets.take(n));
                assert(more.offsets.skip(n) =~= s.offsets.skip(n) + offsets);
            }
        },
        ComputeCommand::PushDebugGroup { len, .. } => {
            assert(more.text.take(len as int) =~= s.text.take(len as int));
            assert(more.text.skip(len as int) =~= s.text.skip(len as int) + text);
        },
        ComputeCommand::InsertDebugMarker { len, .. } => {
            assert(more.text.take(len as int) =~= s.text.take(len as int));
            assert(more.text.skip(len as int) =~= s.text.skip(len as int) + text);
        },
        ComputeCommand::SetPushConstant { size_bytes, values_offset, .. } => {
            let end = values_offset + size_bytes / PUSH_CONSTANT_ALIGNMENT;
            assert(env_with_more(env, constants).constants.subrange(values_offset as int, end)
                =~= env.constants.subrange(values_offset as int, end));
        },
        _ => {},
    }
    assert(step(env_with_more(env, constants), more, command).state =~= with_more(
        after,
        offsets,
        text,
    ));
}

proof fn lemma_run_with_more(
    env: Env,
    s: PassModel,
    commands: Seq<ComputeCommand>,
    offsets: Seq<DynamicOffset>,
    text: Seq<u8>,
    constants: Seq<u32>,
)
    requires
        run(env, s, commands).halt != Some(Halt::Fault),
    ensures
        run(env_with_more(env, constants), with_more(s, offsets, text), commands) == (Outcome {
            state: with_more(run(env, s, commands).state, offsets, text),
            halt: run(env, s, commands).halt,
        }),
    decreases commands.len(),
{
    if commands.len() > 0 {
        let first = step(env, s, commands[0]);
        lemma_step_with_more(env, s, commands[0], offsets, text, constants);
        if first.halt is None {
            lemma_run_with_more(
                env,
                first.state,
                commands.drop_first(),
                offsets,
                text,
                constants,
            );
        }
    }
}

/// A recorded command runs on the data that it was recorded with. If the pass before it runs to
/// its end, the command starts from there and finds its own offsets and label bytes, and nothing
/// else. If the pass before it is refused, the command changes nothing about that.
pub proof fn law_command_runs_on_its_own_data(
    hub: Hub,
    buffer: CommandBufferModel,
    pass: PassData<ComputeCommand>,
    command: ComputeCommand,
    offsets: Seq<DynamicOffset>,
    text: Seq<u8>,
    constants: Seq<u32>,
)
    requires
        pass.well_formed(),
        run_pass(hub, buffer, pass).halt != Some(Halt::Fault),
    ensures
        ({
            let before = run_pass(hub, buffer, pass);
            let longer = pass.record(command, offsets, text, constants);
            let after = run_pass(hub, buffer, longer);
            if before.halt is None {
                after == step(
                    env_of(hub, buffer, longer),
                    PassModel { offsets, text, ..before.state },
                    command,
                )
            } else {
                &&& after.halt == before.halt
                &&& after.state.raw == before.state.raw
                &&& after.state.trackers == before.state.trackers
            }
        }),
{
    let longer = pass.record(command, offsets, text, constants);
    let env = env_of(hub, buffer, pass);
    let s = start(buffer, pass);
    lemma_run_with_more(env, s, pass.commands, offsets, text, constants);
    assert(start(buffer, longer) =~= with_more(s, offsets, text));
    assert(longer.commands =~= pass.commands + seq![command]);
    law_passes_compose(
        env_of(hub, buffer, longer),
        start(buffer, longer),
        pass.commands,
        seq![command],
    );
    let before = run_pass(hub, buffer, pass);
    if before.halt is None {
        law_data_is_used_up(env, s, pass.commands);
        assert(with_more(before.state, offsets, text) =~= PassModel {
            offsets,
            text,
            ..before.state
        });
        let one = seq![command];
        assert(one[0] == command);
        assert(one.drop_first() =~= Seq::<ComputeCommand>::empty());
        reveal_with_fuel(run, 2);
    }
}

/// Push constants that were recorded as bytes reach the backend as the words that those bytes hold,
/// at the offset that was recorded.
pub proof fn law_push_constants_read_back(
    hub: Hub,
    buffer: CommandBufferModel,
    pass: PassData<ComputeCommand>,
    offset: u32,
    bytes: Seq<u8>,
    layout_id: PipelineLayoutId,
)
    requires
        pass.well_formed(),
        bytes.len() % 4 == 0,
        offset + bytes.len() <= u32::MAX,
        pass.push_constant_data.len() + bytes.len() / 4 <= u32::MAX,
        run_pass(hub, buffer, pass).halt is None,
        run_pass(hub, buffer, pass).state.binder.layout == Some(layout_id),
        hub.pipeline_layouts@.contains_key(layout_id),
        upload_fault(
            hub.pipeline_layouts@[layout_id].push_constant_ranges@,
            SHADER_STAGE_COMPUTE,
            offset,
            (offset + bytes.len()) as u32,
        ) is None,
    ensures
        ({
            let before = run_pass(hub, buffer, pass).state;
            let command = ComputeCommand::SetPushConstant {
                offset,
                size_bytes: bytes.len() as u32,
                values_offset: pass.push_constant_data.len() as u32,
            };
            let longer = pass.record(command, Seq::empty(), Seq::empty(), words_ne(bytes));
            let after = run_pass(hub, buffer, longer);
            &&& after.halt is None
            &&& after.state.raw == before.raw.push(
                RawModel::PushComputeConstants { layout_id, offset, data: words_ne(bytes) },
            )
        }),
{
    let words = words_ne(bytes);
    let command = ComputeCommand::SetPushConstant {
        offset,
        size_bytes: bytes.len() as u32,
        values_offset: pass.push_constant_data.len() as u32,
    };
    law_command_runs_on_its_own_data(
        hub,
        buffer,
        pass,
        command,
        Seq::empty(),
        Seq::empty(),
        words,
    );
    let all = pass.push_constant_data + words;
    let first = pass.push_constant_data.len() as int;
    assert(all.subrange(first, first + bytes.len() / 4) =~= words);
}

} // verus!
