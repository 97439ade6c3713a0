//! What a pass knows of its slots, and what it hands to the backend of them.
use vstd::prelude::*;

use crate::bind::{lemma_compatible_count, BindGroupPair, Slot};
use crate::command_buffer::{with_use, CommandBufferModel, TrackerModel};
use crate::compute::{ComputeCommand, PassData};
use crate::hub::Hub;
use crate::id::{
    BindGroupId, BindGroupLayoutId, ComputePipelineId, PipelineLayoutId, PushConstantRange,
    MAX_BIND_GROUPS,
};
use crate::laws::{added, lemma_added_splits};
use crate::model::{
    clear_commands, clears, env_of, groups_in, held, rebind_commands, rebinds, run, run_pass,
    set_bind_group, set_pipeline, start, step, Env, PassModel,
};
use crate::push_constants::segments;
use crate::raw::{capped, RawModel};
use crate::state::{lemma_first_conflict, readiness};

verus! {

/// The slots expect exactly what the current layout asks for: nothing if there is no layout.
pub open spec fn expectations_hold(env: Env, s: PassModel) -> bool {
    forall|i: int|
        0 <= i < s.binder.slots.len() ==> (#[trigger] s.binder.slots[i]).expected == (
        match s.binder.layout {
            None => None,
            Some(id) => {
                let ids = env.hub.pipeline_layouts@[id].bind_group_layout_ids@;
                if i < ids.len() {
                    Some(ids[i])
                } else {
                    None
                }
            },
        })
}

/// A pipeline is set exactly if there is a current layout.
pub open spec fn layout_iff_pipeline(s: PassModel) -> bool {
    s.pipeline is Provided <==> s.binder.layout is Some
}

/// A command that does not stop the pass keeps the slots in step with the current layout.
proof fn lemma_step_expectations(env: Env, s: PassModel, command: ComputeCommand)
    requires
        expectations_hold(env, s),
        layout_iff_pipeline(s),
        step(env, s, command).halt is None,
    ensures
        expectations_hold(env, step(env, s, command).state),
        layout_iff_pipeline(step(env, s, command).state),
        step(env, s, command).state.binder.slots.len() == s.binder.slots.len(),
{
}

proof fn lemma_run_expectations(env: Env, s: PassModel, commands: Seq<ComputeCommand>)
    requires
        expectations_hold(env, s),
        layout_iff_pipeline(s),
        run(env, s, commands).halt is None,
    ensures
        expectations_hold(env, run(env, s, commands).state),
        layout_iff_pipeline(run(env, s, commands).state),
        run(env, s, commands).state.binder.slots.len() == s.binder.slots.len(),
    decreases commands.len(),
{
    if commands.len() > 0 {
        lemma_step_expectations(env, s, commands[0]);
        lemma_run_expectations(env, step(env, s, commands[0]).state, commands.drop_first());
    }
}

/// After any list of commands that has not stopped the pass, a dispatch is accepted if and only if
/// a pipeline is set and every slot for which its layout names a bind group layout holds a bind
/// group of that layout.
pub proof fn law_ready_means_bound(
    hub: Hub,
    buffer: CommandBufferModel,
    pass: PassData<ComputeCommand>,
)
    requires
        run_pass(hub, buffer, pass).halt is None,
    ensures
        ({
            let s = run_pass(hub, buffer, pass).state;
            readiness(s.binder, s.pipeline) is Ok <==> {
                &&& s.binder.layout matches Some(id)
                &&& {
                    let ids = hub.pipeline_layouts@[id].bind_group_layout_ids@;
                    forall|i: int|
                        0 <= i < s.binder.slots.len() && i < ids.len() ==> {
                            &&& (#[trigger] s.binder.slots[i]).provided matches Some(pair)
                            &&& pair.layout_id == ids[i]
                        }
                }
            }
        }),
{
    let s = run_pass(hub, buffer, pass).state;
    let env = env_of(hub, buffer, pass);
    lemma_run_expectations(env, start(buffer, pass), pass.commands);
    lemma_first_conflict(s.binder.slots, s.binder.slots.len() as int);
}

/// Every id of `a` is in `b` too, at the same place.
pub open spec fn extends(a: Seq<u64>, b: Seq<u64>) -> bool {
    a.len() <= b.len() && forall|i: int| 0 <= i < a.len() ==> a[i] == #[trigger] b[i]
}

/// The resources in use only become more.
pub open spec fn trackers_extend(a: TrackerModel, b: TrackerModel) -> bool {
    &&& extends(a.bind_groups, b.bind_groups)
    &&& extends(a.compute_pipes, b.compute_pipes)
    &&& extends(a.buffers, b.buffers)
}

/// No resource is listed twice.
pub open spec fn trackers_distinct(t: TrackerModel) -> bool {
    &&& t.bind_groups.no_duplicates()
    &&& t.compute_pipes.no_duplicates()
    &&& t.buffers.no_duplicates()
}

/// The resources that a raw command names are listed as used.
pub open spec fn listed(t: TrackerModel, r: RawModel) -> bool {
    match r {
        RawModel::InsertBarriers { bind_group_id } => t.bind_groups.contains(bind_group_id),
        RawModel::BindComputeDescriptorSets { sets, .. } => forall|i: int|
            0 <= i < sets.len() ==> t.bind_groups.contains(#[trigger] sets[i]),
        RawModel::BindComputePipeline(id) => t.compute_pipes.contains(id),
        RawModel::TransitionToIndirect { buffer_id } => t.buffers.contains(buffer_id),
        RawModel::DispatchIndirect { buffer_id, .. } => t.buffers.contains(buffer_id),
        _ => true,
    }
}

/// The bind groups in the slots are listed as used.
pub open spec fn slots_listed(s: PassModel) -> bool {
    forall|i: int|
        0 <= i < s.binder.slots.len() ==> ((#[trigger] s.binder.slots[i]).provided matches Some(
            pair,
        ) ==> s.trackers.bind_groups.contains(pair.group_id))
}

proof fn lemma_with_use(ids: Seq<u64>, id: u64)
    ensures
        with_use(ids, id).contains(id),
        extends(ids, with_use(ids, id)),
        ids.no_duplicates() ==> with_use(ids, id).no_duplicates(),
        forall|other: u64| ids.contains(other) ==> #[trigger] with_use(ids, id).contains(other),
{
    if !ids.contains(id) {
        let after = ids.push(id);
        assert(after[ids.len() as int] == id);
        assert forall|other: u64| ids.contains(other) implies #[trigger] after.contains(other) by {
            let i = choose|i: int| 0 <= i < ids.len() && ids[i] == other;
            assert(after[i] == other);
        }
    }
}

proof fn lemma_extends_contains(a: Seq<u64>, b: Seq<u64>, id: u64)
    requires
        extends(a, b),
        a.contains(id),
    ensures
        b.contains(id),
{
    let i = choose|i: int| 0 <= i < a.len() && a[i] == id;
    assert(b[i] == id);
}

proof fn lemma_listed_extends(a: TrackerModel, b: TrackerModel, r: RawModel)
    requires
        trackers_extend(a, b),
        listed(a, r),
    ensures
        listed(b, r),
{
    match r {
        RawModel::InsertBarriers { bind_group_id } => lemma_extends_contains(
            a.bind_groups,
            b.bind_groups,
            bind_group_id,
        ),
        RawModel::BindComputeDescriptorSets { sets, .. } => {
            assert forall|i: int| 0 <= i < sets.len() implies b.bind_groups.contains(
                #[trigger] sets[i],
            ) by {
                lemma_extends_contains(a.bind_groups, b.bind_groups, sets[i]);
            }
        },
        RawModel::BindComputePipeline(id) => lemma_extends_contains(
            a.compute_pipes,
            b.compute_pipes,
            id,
        ),
        RawModel::TransitionToIndirect { buffer_id } => lemma_extends_contains(
            a.buffers,
            b.buffers,
            buffer_id,
        ),
        RawModel::DispatchIndirect { buffer_id, .. } => lemma_extends_contains(
            a.buffers,
            b.buffers,
            buffer_id,
        ),
        _ => {},
    }
}

proof fn lemma_rebinds_listed(
    t: TrackerModel,
    slots: Seq<Slot>,
    ids: Seq<BindGroupLayoutId>,
    layout_id: PipelineLayoutId,
    n: int,
)
    requires
        0 <= n <= slots.len(),
        forall|i: int|
            0 <= i < slots.len() ==> ((#[trigger] slots[i]).provided matches Some(pair)
                ==> t.bind_groups.contains(pair.group_id)),
    ensures
        forall|k: int|
            0 <= k < rebinds(slots, ids, layout_id, n).len() ==> listed(
                t,
                #[trigger] rebinds(slots, ids, layout_id, n)[k],
            ),
    decreases n,
{
    if n > 0 {
        lemma_rebinds_listed(t, slots, ids, layout_id, n - 1);
        let before = rebinds(slots, ids, layout_id, n - 1);
        let after = rebinds(slots, ids, layout_id, n);
        assert forall|k: int| 0 <= k < after.len() implies listed(t, #[trigger] after[k]) by {
            if k < before.len() {
                assert(after[k] == before[k]);
            } else {
                assert(slots[n - 1].provided is Some);
            }
        }
    }
}

proof fn lemma_step_listed(env: Env, s: PassModel, command: ComputeCommand)
    requires
        slots_listed(s),
        s.binder.slots.len() <= MAX_BIND_GROUPS,
    ensures
        trackers_extend(s.trackers, step(env, s, command).state.trackers),
        trackers_distinct(s.trackers) ==> trackers_distinct(step(env, s, command).state.trackers),
        slots_listed(step(env, s, command).state),
        step(env, s, command).state.binder.slots.len() == s.binder.slots.len(),
        forall|k: int|
            0 <= k < added(s, step(env, s, command).state).len() ==> listed(
                step(env, s, command).state.trackers,
                #[trigger] added(s, step(env, s, command).state)[k],
            ),
{
    let after = step(env, s, command).state;
    let one = added(s, after);
    match command {
        ComputeCommand::SetBindGroup { index, num_dynamic_offsets, bind_group_id } => {
            lemma_with_use(s.trackers.bind_groups, bind_group_id);
            assert(slots_listed(after));
            if one.len() > 1 {
                let group = env.hub.bind_groups@[bind_group_id];
                let pair = BindGroupPair { layout_id: group.layout_id, group_id: bind_group_id };
                let offsets = s.offsets.take(num_dynamic_offsets as int);
                let (_, end) = s.binder.to_bind(index as int, pair, offsets).unwrap();
                lemma_compatible_count(after.binder.slots);
                let follow_ups = after.binder.slots.subrange(index + 1, end as int);
                let sets = seq![bind_group_id] + groups_in(follow_ups);
                assert forall|i: int| 0 <= i < sets.len() implies after.trackers.bind_groups.contains(
                    #[trigger] sets[i],
                ) by {
                    if i > 0 {
                        assert(follow_ups[i - 1] == after.binder.slots[index + i]);
                        assert(after.binder.slots[index + i].compatible());
                    }
                }
                assert(one[1]->sets == capped(sets));
                assert(listed(after.trackers, one[1]));
            }
        },
        ComputeCommand::SetPipeline(pipeline_id) => {
            lemma_with_use(s.trackers.compute_pipes, pipeline_id);
            let hub = env.hub;
            let layout_id = hub.compute_pipelines@[pipeline_id].layout_id;
            let ids = hub.pipeline_layouts@[layout_id].bind_group_layout_ids@;
            let slots = held(hub, s.binder, layout_id).slots;
            let rebinding = rebind_commands(hub, s.binder, layout_id);
            let clearing = clear_commands(hub, layout_id);
            assert(forall|i: int|
                0 <= i < slots.len() ==> (#[trigger] slots[i]).provided
                    == s.binder.slots[i].provided);
            lemma_rebinds_listed(
                after.trackers,
                slots,
                ids,
                layout_id,
                if ids.len() < slots.len() {
                    ids.len() as int
                } else {
                    slots.len() as int
                },
            );
            let parts = segments(hub.pipeline_layouts@[layout_id].push_constant_ranges@, 0);
            lemma_clears_are_writes(layout_id, parts, parts.len() as int);
            if one.len() > 1 {
                assert(one =~= seq![RawModel::BindComputePipeline(pipeline_id)] + rebinding
                    + clearing);
            }
        },
        ComputeCommand::DispatchIndirect { buffer_id, .. } => {
            lemma_with_use(s.trackers.buffers, buffer_id);
        },
        _ => {},
    }
}

/// Clearing consists of writes to the push constants.
proof fn lemma_clears_are_writes(layout_id: PipelineLayoutId, parts: Seq<PushConstantRange>, n: int)
    ensures
        forall|k: int|
            0 <= k < clears(layout_id, parts, n).len() ==> (#[trigger] clears(
                layout_id,
                parts,
                n,
            )[k]) is PushComputeConstants,
    decreases n,
{
    if n > 0 {
        lemma_clears_are_writes(layout_id, parts, n - 1);
    }
}

/// Whatever a pass hands to the backend is listed as used by the command buffer, even if the pass
/// is refused later. The lists keep what they held, and hold nothing twice.
pub proof fn law_everything_used_is_listed(
    env: Env,
    s: PassModel,
    commands: Seq<ComputeCommand>,
)
    requires
        slots_listed(s),
        s.binder.slots.len() <= MAX_BIND_GROUPS,
    ensures
        trackers_extend(s.trackers, run(env, s, commands).state.trackers),
        trackers_distinct(s.trackers) ==> trackers_distinct(run(env, s, commands).state.trackers),
        forall|k: int|
            0 <= k < added(s, run(env, s, commands).state).len() ==> listed(
                run(env, s, commands).state.trackers,
                #[trigger] added(s, run(env, s, commands).state)[k],
            ),
    decreases commands.len(),
{
    if commands.len() > 0 {
        let first = step(env, s, commands[0]);
        let after = run(env, s, commands).state;
        lemma_step_listed(env, s, commands[0]);
        if first.halt is None {
            law_everything_used_is_listed(env, first.state, commands.drop_first());
            lemma_added_splits(env, s, commands);
            let one = added(s, first.state);
            let rest = added(first.state, after);
            assert forall|k: int| 0 <= k < added(s, after).len() implies listed(
                after.trackers,
                #[trigger] added(s, after)[k],
            ) by {
                if k < one.len() {
                    assert(added(s, after)[k] == one[k]);
                    lemma_listed_extends(first.state.trackers, after.trackers, one[k]);
                } else {
                    assert(added(s, after)[k] == rest[k - one.len()]);
                }
            }
        }
    }
}

/// A binding command binds at least one set, and no slot that does not exist.
pub open spec fn binding_fits(slots: int, r: RawModel) -> bool {
    r matches RawModel::BindComputeDescriptorSets { first_set, sets, .. } ==> 0 <= first_set
        && sets.len() >= 1 && first_set + sets.len() <= slots
}

proof fn lemma_rebinds_fit(
    slots: Seq<Slot>,
    ids: Seq<BindGroupLayoutId>,
    layout_id: PipelineLayoutId,
    n: int,
)
    requires
        0 <= n <= slots.len(),
    ensures
        forall|k: int|
            0 <= k < rebinds(slots, ids, layout_id, n).len() ==> binding_fits(
                slots.len() as int,
                #[trigger] rebinds(slots, ids, layout_id, n)[k],
            ),
    decreases n,
{
    if n > 0 {
        lemma_rebinds_fit(slots, ids, layout_id, n - 1);
        let before = rebinds(slots, ids, layout_id, n - 1);
        let after = rebinds(slots, ids, layout_id, n);
        assert forall|k: int| 0 <= k < after.len() implies binding_fits(
            slots.len() as int,
            #[trigger] after[k],
        ) by {
            if k < before.len() {
                assert(after[k] == before[k]);
            }
        }
    }
}

/// No command binds sets to slots that the device does not offer; so none is left out for want of
/// room.
pub proof fn law_bindings_fit(env: Env, s: PassModel, command: ComputeCommand, k: int)
    requires
        s.binder.slots.len() <= MAX_BIND_GROUPS,
        0 <= k < added(s, step(env, s, command).state).len(),
    ensures
        binding_fits(s.binder.slots.len() as int, added(s, step(env, s, command).state)[k]),
{
    let after = step(env, s, command).state;
    let one = added(s, after);
    match command {
        ComputeCommand::SetBindGroup { index, num_dynamic_offsets, bind_group_id } => {
            lemma_compatible_count(after.binder.slots);
        },
        ComputeCommand::SetPipeline(pipeline_id) => {
            let hub = env.hub;
            let layout_id = hub.compute_pipelines@[pipeline_id].layout_id;
            let ids = hub.pipeline_layouts@[layout_id].bind_group_layout_ids@;
            let slots = held(hub, s.binder, layout_id).slots;
            lemma_rebinds_fit(
                slots,
                ids,
                layout_id,
                if ids.len() < slots.len() {
                    ids.len() as int
                } else {
                    slots.len() as int
                },
            );
            let parts = segments(hub.pipeline_layouts@[layout_id].push_constant_ranges@, 0);
            lemma_clears_are_writes(layout_id, parts, parts.len() as int);
            if one.len() > 1 {
                assert(one =~= seq![RawModel::BindComputePipeline(pipeline_id)] + rebind_commands(
                    hub,
                    s.binder,
                    layout_id,
                ) + clear_commands(hub, layout_id));
            }
        },
        _ => {},
    }
}

/// Putting the bind group that a slot already holds into it again, with the same offsets, binds
/// nothing.
pub proof fn law_same_group_binds_nothing(
    env: Env,
    s: PassModel,
    index: u8,
    num_dynamic_offsets: u8,
    bind_group_id: BindGroupId,
)
    requires
        set_bind_group(env, s, index, num_dynamic_offsets, bind_group_id).halt is None,
        s.binder.slots[index as int].holds(
            bind_group_id,
            s.offsets.take(num_dynamic_offsets as int),
        ),
    ensures
        ({
            let after = set_bind_group(env, s, index, num_dynamic_offsets, bind_group_id).state;
            &&& after.binder == s.binder
            &&& added(s, after) == seq![RawModel::InsertBarriers { bind_group_id }]
        }),
{
    let after = set_bind_group(env, s, index, num_dynamic_offsets, bind_group_id).state;
    assert(added(s, after) =~= seq![RawModel::InsertBarriers { bind_group_id }]);
}

/// Putting a bind group into a slot settles that slot, if the group has the layout that is expected
/// there, and leaves the other slots alone.
pub proof fn law_bind_group_settles_its_slot(
    env: Env,
    s: PassModel,
    index: u8,
    num_dynamic_offsets: u8,
    bind_group_id: BindGroupId,
)
    requires
        set_bind_group(env, s, index, num_dynamic_offsets, bind_group_id).halt is None,
        !s.binder.slots[index as int].holds(
            bind_group_id,
            s.offsets.take(num_dynamic_offsets as int),
        ),
    ensures
        ({
            let after = set_bind_group(env, s, index, num_dynamic_offsets, bind_group_id).state;
            let layout_id = env.hub.bind_groups@[bind_group_id].layout_id;
            &&& after.binder.invalid(index as int) <==> (s.binder.slots[index as int].expected is Some
                && s.binder.slots[index as int].expected != Some(layout_id))
            &&& forall|i: int|
                0 <= i < s.binder.slots.len() && i != index
                    ==> #[trigger] after.binder.slots[i] == s.binder.slots[i]
        }),
{
}

/// A pipeline of the layout that is already current is bound and does nothing else.
pub proof fn law_same_layout_only_binds(env: Env, s: PassModel, pipeline_id: ComputePipelineId)
    requires
        env.hub.compute_pipelines@.contains_key(pipeline_id),
        s.binder.layout == Some(env.hub.compute_pipelines@[pipeline_id].layout_id),
    ensures
        set_pipeline(env, s, pipeline_id).halt is None,
        set_pipeline(env, s, pipeline_id).state.binder == s.binder,
        added(s, set_pipeline(env, s, pipeline_id).state) == seq![
            RawModel::BindComputePipeline(pipeline_id),
        ],
{
    assert(added(s, set_pipeline(env, s, pipeline_id).state) =~= seq![
        RawModel::BindComputePipeline(pipeline_id),
    ]);
}

} // verus!
