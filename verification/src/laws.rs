//! What holds of every pass.
use vstd::prelude::*;
use vstd::utf8::decode_utf8;

use crate::bind::Slot;
use crate::compute::ComputeCommand;
use crate::error::Halt;
use crate::id::{BindGroupLayoutId, PipelineLayoutId, PushConstantRange};
use crate::model::{
    clear_commands, clears, held, rebind_commands, rebinds, run, step, Env, PassModel,
};
use crate::push_constants::segments;
use crate::raw::RawModel;
use crate::state::lemma_first_conflict;

verus! {

/// A raw command that opens, closes or leaves a debug mark.
pub open spec fn is_marker(r: RawModel) -> bool {
    r is BeginDebugMarker || r is EndDebugMarker || r is InsertDebugMarker
}

/// A raw command that starts work on the GPU.
pub open spec fn is_dispatch(r: RawModel) -> bool {
    r is Dispatch || r is DispatchIndirect
}

/// Raw commands that neither mark nor start work.
pub open spec fn quiet(raw: Seq<RawModel>) -> bool {
    forall|i: int| 0 <= i < raw.len() ==> !is_marker(#[trigger] raw[i]) && !is_dispatch(raw[i])
}

/// The raw commands that `after` holds beyond those of `before`.
pub open spec fn added(before: PassModel, after: PassModel) -> Seq<RawModel> {
    after.raw.skip(before.raw.len() as int)
}

proof fn lemma_rebinds_quiet(
    slots: Seq<Slot>,
    ids: Seq<BindGroupLayoutId>,
    layout_id: PipelineLayoutId,
    n: int,
)
    ensures
        quiet(rebinds(slots, ids, layout_id, n)),
    decreases n,
{
    if n > 0 {
        lemma_rebinds_quiet(slots, ids, layout_id, n - 1);
    }
}

proof fn lemma_clears_quiet(layout_id: PipelineLayoutId, parts: Seq<PushConstantRange>, n: int)
    ensures
        quiet(clears(layout_id, parts, n)),
    decreases n,
{
    if n > 0 {
        lemma_clears_quiet(layout_id, parts, n - 1);
    }
}

/// A command adds to the raw commands and takes none back.
pub proof fn lemma_step_adds(env: Env, s: PassModel, command: ComputeCommand)
    ensures
        step(env, s, command).state.raw == s.raw + added(s, step(env, s, command).state),
        command is SetBindGroup || command is SetPipeline || command is SetPushConstant ==> quiet(
            added(s, step(env, s, command).state),
        ),
{
    let after = step(env, s, command).state;
    match command {
        ComputeCommand::SetPipeline(pipeline_id) => {
            let hub = env.hub;
            let layout_id = hub.compute_pipelines@[pipeline_id].layout_id;
            let layout = hub.pipeline_layouts@[layout_id];
            let ids = layout.bind_group_layout_ids@;
            let slots = held(hub, s.binder, layout_id).slots;
            let parts = segments(layout.push_constant_ranges@, 0);
            lemma_rebinds_quiet(slots, ids, layout_id, ids.len() as int);
            lemma_rebinds_quiet(slots, ids, layout_id, slots.len() as int);
            lemma_clears_quiet(layout_id, parts, parts.len() as int);
            let bound = RawModel::BindComputePipeline(pipeline_id);
            let more = rebind_commands(hub, s.binder, layout_id) + clear_commands(hub, layout_id);
            assert(after.raw =~= s.raw || after.raw =~= s.raw.push(bound) || after.raw =~= s.raw
                + (seq![bound] + more));
        },
        _ => {},
    }
    assert(after.raw =~= s.raw + added(s, after));
}

/// A pass adds to the raw commands and takes none back: what was recorded before it is still there,
/// in front.
pub proof fn law_nothing_is_taken_back(env: Env, s: PassModel, commands: Seq<ComputeCommand>)
    ensures
        run(env, s, commands).state.raw == s.raw + added(s, run(env, s, commands).state),
    decreases commands.len(),
{
    let after = run(env, s, commands).state;
    if commands.len() > 0 {
        let first = step(env, s, commands[0]);
        lemma_step_adds(env, s, commands[0]);
        if first.halt is None {
            law_nothing_is_taken_back(env, first.state, commands.drop_first());
        }
    }
    assert(after.raw =~= s.raw + added(s, after));
}

/// What a list of commands adds is what its first command adds, followed by what the others add.
pub proof fn lemma_added_splits(env: Env, s: PassModel, commands: Seq<ComputeCommand>)
    requires
        commands.len() > 0,
        step(env, s, commands[0]).halt is None,
    ensures
        added(s, run(env, s, commands).state) == added(s, step(env, s, commands[0]).state) + added(
            step(env, s, commands[0]).state,
            run(env, s, commands).state,
        ),
{
    let first = step(env, s, commands[0]);
    lemma_step_adds(env, s, commands[0]);
    law_nothing_is_taken_back(env, first.state, commands.drop_first());
    assert(added(s, run(env, s, commands).state) =~= added(s, first.state) + added(
        first.state,
        run(env, s, commands).state,
    ));
}

/// Running two lists of commands in a row is running the one and then, unless it stopped, the
/// other. In particular a pass stops for good at the first command that stops it.
pub proof fn law_passes_compose(
    env: Env,
    s: PassModel,
    a: Seq<ComputeCommand>,
    b: Seq<ComputeCommand>,
)
    ensures
        run(env, s, a + b) == (if run(env, s, a).halt is Some {
            run(env, s, a)
        } else {
            run(env, run(env, s, a).state, b)
        }),
    decreases a.len(),
{
    if a.len() == 0 {
        assert(a + b =~= b);
    } else {
        let first = step(env, s, a[0]);
        assert((a + b)[0] == a[0]);
        assert((a + b).drop_first() =~= a.drop_first() + b);
        if first.halt is None {
            law_passes_compose(env, first.state, a.drop_first(), b);
        }
    }
}

/// A command that is refused adds no raw command.
pub proof fn law_refused_command_adds_nothing(env: Env, s: PassModel, command: ComputeCommand)
    requires
        step(env, s, command).halt matches Some(Halt::Error(_)),
    ensures
        step(env, s, command).state.raw == s.raw,
{
}

/// A pass that is refused has recorded exactly what the commands before the refused one amount to.
pub proof fn law_refusal_keeps_what_came_before(
    env: Env,
    s: PassModel,
    commands: Seq<ComputeCommand>,
) -> (k: int)
    requires
        run(env, s, commands).halt matches Some(Halt::Error(_)),
    ensures
        0 <= k < commands.len(),
        run(env, s, commands.take(k)).halt is None,
        step(env, run(env, s, commands.take(k)).state, commands[k]) == run(env, s, commands),
        run(env, s, commands).state.raw == run(env, s, commands.take(k)).state.raw,
    decreases commands.len(),
{
    let first = step(env, s, commands[0]);
    if first.halt is Some {
        assert(commands.take(0) =~= Seq::<ComputeCommand>::empty());
        law_refused_command_adds_nothing(env, s, commands[0]);
        0
    } else {
        let rest = commands.drop_first();
        let k = law_refusal_keeps_what_came_before(env, first.state, rest);
        assert(commands.take(k + 1)[0] == commands[0]);
        assert(commands.take(k + 1).drop_first() =~= rest.take(k));
        k + 1
    }
}

/// A dispatch reaches the backend only in a state that is ready for it: a pipeline is set, and no
/// slot conflicts with what the pipeline expects.
pub proof fn law_dispatch_needs_readiness(env: Env, s: PassModel, command: ComputeCommand, i: int)
    requires
        0 <= i < added(s, step(env, s, command).state).len(),
        is_dispatch(added(s, step(env, s, command).state)[i]),
    ensures
        command is Dispatch || command is DispatchIndirect,
        s.pipeline is Provided,
        forall|j: int| !#[trigger] s.binder.invalid(j),
{
    lemma_step_adds(env, s, command);
    lemma_first_conflict(s.binder.slots, s.binder.slots.len() as int);
}

/// In the raw commands of a pass that starts without a pipeline, a pipeline is bound before
/// anything is dispatched.
pub proof fn law_dispatch_follows_pipeline(
    env: Env,
    s: PassModel,
    commands: Seq<ComputeCommand>,
    i: int,
)
    requires
        0 <= i < added(s, run(env, s, commands).state).len(),
        is_dispatch(added(s, run(env, s, commands).state)[i]),
    ensures
        s.pipeline is Provided || exists|j: int|
            0 <= j < i && (#[trigger] added(
                s,
                run(env, s, commands).state,
            )[j]) is BindComputePipeline,
    decreases commands.len(),
{
    if commands.len() > 0 {
        let first = step(env, s, commands[0]);
        let after = run(env, s, commands).state;
        lemma_step_adds(env, s, commands[0]);
        let one = added(s, first.state);
        if i < one.len() {
            if first.halt is None {
                lemma_added_splits(env, s, commands);
                assert(one[i] == added(s, after)[i]);
            }
            law_dispatch_needs_readiness(env, s, commands[0], i);
        } else if first.halt is None {
            lemma_added_splits(env, s, commands);
            let rest = added(first.state, after);
            assert(rest[i - one.len()] == added(s, after)[i]);
            law_dispatch_follows_pipeline(
                env,
                first.state,
                commands.drop_first(),
                i - one.len(),
            );
            if s.pipeline is Required {
                if first.state.pipeline is Provided {
                    assert(commands[0] is SetPipeline);
                    assert(one[0] is BindComputePipeline);
                    assert(added(s, after)[0] is BindComputePipeline);
                } else {
                    let j = choose|j: int|
                        0 <= j < i - one.len() && (#[trigger] rest[j]) is BindComputePipeline;
                    assert(added(s, after)[j + one.len()] is BindComputePipeline);
                }
            }
        }
    }
}

/// How many more debug groups `raw` opens than it closes.
pub open spec fn opened(raw: Seq<RawModel>) -> int
    decreases raw.len(),
{
    if raw.len() == 0 {
        0
    } else {
        opened(raw.drop_last()) + (if raw.last() is BeginDebugMarker {
            1int
        } else if raw.last() is EndDebugMarker {
            -1int
        } else {
            0int
        })
    }
}

proof fn lemma_opened_add(a: Seq<RawModel>, b: Seq<RawModel>)
    ensures
        opened(a + b) == opened(a) + opened(b),
    decreases b.len(),
{
    if b.len() == 0 {
        assert(a + b =~= a);
    } else {
        assert((a + b).drop_last() =~= a + b.drop_last());
        lemma_opened_add(a, b.drop_last());
    }
}

proof fn lemma_opened_quiet(raw: Seq<RawModel>)
    requires
        quiet(raw),
    ensures
        opened(raw) == 0,
    decreases raw.len(),
{
    if raw.len() > 0 {
        assert forall|i: int| 0 <= i < raw.drop_last().len() implies !is_marker(
            #[trigger] raw.drop_last()[i],
        ) && !is_dispatch(raw.drop_last()[i]) by {
            assert(raw.drop_last()[i] == raw[i]);
        }
        lemma_opened_quiet(raw.drop_last());
    }
}

/// The raw commands of a pass never close a debug group that the pass has not opened, and those
/// left open at its end, or where it stops, are exactly those that the pass counts as open.
pub proof fn law_debug_groups_balance(
    env: Env,
    s: PassModel,
    commands: Seq<ComputeCommand>,
    n: int,
)
    requires
        0 <= n <= added(s, run(env, s, commands).state).len(),
    ensures
        run(env, s, commands).state.depth == s.depth + opened(
            added(s, run(env, s, commands).state),
        ),
        s.depth + opened(added(s, run(env, s, commands).state).take(n)) >= 0,
    decreases commands.len(),
{
    let after = run(env, s, commands).state;
    if commands.len() == 0 {
        assert(added(s, after) =~= Seq::<RawModel>::empty());
        assert(added(s, after).take(n) =~= Seq::<RawModel>::empty());
    } else {
        let first = step(env, s, commands[0]);
        let one = added(s, first.state);
        let m = if n < one.len() {
            n
        } else {
            one.len() as int
        };
        lemma_step_balance(env, s, commands[0], m);
        if first.halt is None {
            let rest = added(first.state, after);
            lemma_added_splits(env, s, commands);
            let k = n - m;
            law_debug_groups_balance(env, first.state, commands.drop_first(), k);
            lemma_opened_add(one, rest);
            if n < one.len() {
                assert(added(s, after).take(n) =~= one.take(n));
            } else {
                assert(added(s, after).take(n) =~= one + rest.take(k));
                assert(one.take(m) =~= one);
                lemma_opened_add(one, rest.take(k));
            }
        }
    }
}

proof fn lemma_step_balance(env: Env, s: PassModel, command: ComputeCommand, n: int)
    requires
        0 <= n <= added(s, step(env, s, command).state).len(),
    ensures
        step(env, s, command).state.depth == s.depth + opened(
            added(s, step(env, s, command).state),
        ),
        s.depth + opened(added(s, step(env, s, command).state).take(n)) >= 0,
{
    let after = step(env, s, command).state;
    let one = added(s, after);
    lemma_step_adds(env, s, command);
    if command is SetBindGroup || command is SetPipeline || command is SetPushConstant {
        lemma_opened_quiet(one);
        assert forall|i: int| 0 <= i < one.take(n).len() implies !is_marker(
            #[trigger] one.take(n)[i],
        ) && !is_dispatch(one.take(n)[i]) by {
            assert(one.take(n)[i] == one[i]);
        }
        lemma_opened_quiet(one.take(n));
    } else {
        reveal_with_fuel(opened, 4);
    }
}

/// The debug marks that `commands` stand for, labelled with `text`.
pub open spec fn recorded_markers(commands: Seq<ComputeCommand>, text: Seq<u8>) -> Seq<RawModel>
    decreases commands.len(),
{
    if commands.len() == 0 {
        Seq::empty()
    } else {
        let rest = commands.drop_first();
        match commands[0] {
            ComputeCommand::PushDebugGroup { color, len } => seq![
                RawModel::BeginDebugMarker { label: decode_utf8(text.take(len as int)), color },
            ] + recorded_markers(rest, text.skip(len as int)),
            ComputeCommand::InsertDebugMarker { color, len } => seq![
                RawModel::InsertDebugMarker { label: decode_utf8(text.take(len as int)), color },
            ] + recorded_markers(rest, text.skip(len as int)),
            ComputeCommand::PopDebugGroup => seq![RawModel::EndDebugMarker] + recorded_markers(
                rest,
                text,
            ),
            _ => recorded_markers(rest, text),
        }
    }
}

/// The debug marks among raw commands.
pub open spec fn markers(raw: Seq<RawModel>) -> Seq<RawModel>
    decreases raw.len(),
{
    if raw.len() == 0 {
        Seq::empty()
    } else if is_marker(raw.last()) {
        markers(raw.drop_last()).push(raw.last())
    } else {
        markers(raw.drop_last())
    }
}

proof fn lemma_markers_add(a: Seq<RawModel>, b: Seq<RawModel>)
    ensures
        markers(a + b) == markers(a) + markers(b),
    decreases b.len(),
{
    if b.len() == 0 {
        assert(a + b =~= a);
        assert(markers(a) + markers(b) =~= markers(a));
    } else {
        assert((a + b).drop_last() =~= a + b.drop_last());
        lemma_markers_add(a, b.drop_last());
        assert(markers(a + b) =~= markers(a) + markers(b));
    }
}

proof fn lemma_markers_quiet(raw: Seq<RawModel>)
    requires
        quiet(raw),
    ensures
        markers(raw) == Seq::<RawModel>::empty(),
    decreases raw.len(),
{
    if raw.len() > 0 {
        assert forall|i: int| 0 <= i < raw.drop_last().len() implies !is_marker(
            #[trigger] raw.drop_last()[i],
        ) && !is_dispatch(raw.drop_last()[i]) by {
            assert(raw.drop_last()[i] == raw[i]);
        }
        lemma_markers_quiet(raw.drop_last());
    }
}

/// A pass that runs to its end hands the backend every debug mark that was recorded, in order and
/// with its label, and no other.
pub proof fn law_markers_read_back(env: Env, s: PassModel, commands: Seq<ComputeCommand>)
    requires
        run(env, s, commands).halt is None,
    ensures
        markers(added(s, run(env, s, commands).state)) == recorded_markers(commands, s.text),
    decreases commands.len(),
{
    let after = run(env, s, commands).state;
    if commands.len() == 0 {
        assert(added(s, after) =~= Seq::<RawModel>::empty());
    } else {
        let first = step(env, s, commands[0]);
        let one = added(s, first.state);
        lemma_step_adds(env, s, commands[0]);
        lemma_added_splits(env, s, commands);
        law_markers_read_back(env, first.state, commands.drop_first());
        lemma_markers_add(one, added(first.state, after));
        match commands[0] {
            ComputeCommand::SetBindGroup { .. } => lemma_markers_quiet(one),
            ComputeCommand::SetPipeline(_) => lemma_markers_quiet(one),
            ComputeCommand::SetPushConstant { .. } => lemma_markers_quiet(one),
            ComputeCommand::Dispatch(_) | ComputeCommand::DispatchIndirect { .. } => {
                reveal_with_fuel(markers, 3);
            },
            _ => {
                reveal_with_fuel(markers, 2);
                assert(markers(one) =~= one);
            },
        }
        assert(markers(added(s, after)) =~= recorded_markers(commands, s.text));
    }
}

} // verus!
