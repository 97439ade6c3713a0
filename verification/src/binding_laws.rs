//! What putting a bind group into a slot does, and what becoming the current pipeline does.
use vstd::prelude::*;

use crate::bind::{compatible_count, lemma_compatible_count, BindGroupPair, Slot};
use crate::clear_laws::lemma_clears_ascend;
use crate::command_buffer::TrackerModel;
use crate::command_laws::lists_too;
use crate::compute::ComputeCommand;
use crate::error::{ComputePassError, Halt};
use crate::hub::{dynamic_binding_fault, Hub};
use crate::id::{
    BindGroupId, BindGroupLayoutId, ComputePipelineId, DynamicOffset, PipelineLayoutId,
    MAX_BIND_GROUPS,
};
use crate::model::{
    clear_commands, groups_in, held, mismatch_below, offsets_in, rebind_commands, rebinds,
    rebound, step, Env, PassModel,
};
use crate::raw::RawModel;

verus! {

/// A layout is expected of the slot, and a bind group of that layout is in it.
pub open spec fn met(slot: Slot) -> bool {
    &&& slot.expected matches Some(wanted)
    &&& slot.provided matches Some(pair)
    &&& pair.layout_id == wanted
}

/// The slot holds the bind group `id` with just these dynamic offsets.
pub open spec fn has_group(slot: Slot, id: BindGroupId, offsets: Seq<DynamicOffset>) -> bool {
    &&& slot.provided matches Some(pair)
    &&& pair.group_id == id
    &&& slot.offsets == offsets
}

/// A bind group is taken on if and only if its slot is below the limit of the device and exists,
/// its offsets are there, the group exists, and the offsets suit it. Each other case stops the
/// pass in its own way; the offsets are used up once they are found, and the group is listed as
/// used once it is.
pub proof fn law_bind_group_is_taken_on(
    env: Env,
    s: PassModel,
    index: u8,
    num_dynamic_offsets: u8,
    bind_group_id: BindGroupId,
)
    ensures
        ({
            let after = step(
                env,
                s,
                ComputeCommand::SetBindGroup { index, num_dynamic_offsets, bind_group_id },
            );
            let taken = s.offsets.take(num_dynamic_offsets as int);
            let left = s.offsets.skip(num_dynamic_offsets as int);
            let group = env.hub.bind_groups@[bind_group_id];
            let in_range = index < env.max_bind_groups;
            let there = in_range && num_dynamic_offsets <= s.offsets.len();
            let known = there && env.hub.bind_groups@.contains_key(bind_group_id);
            let fault = dynamic_binding_fault(group.dynamic_binding_info@, taken);
            let listed = after.state.trackers.bind_groups;
            let trackers = TrackerModel { bind_groups: listed, ..s.trackers };
            let barriers = RawModel::InsertBarriers { bind_group_id };
            &&& !in_range ==> after.state == s && after.halt == Some(
                Halt::Error(
                    ComputePassError::BindGroupIndexOutOfRange { index, max: env.max_bind_groups },
                ),
            )
            &&& in_range && !there ==> after.state == s && after.halt == Some(Halt::Fault)
            &&& there && !known ==> after.state == (PassModel { offsets: left, ..s }) && after.halt
                == Some(Halt::Error(ComputePassError::InvalidBindGroup(bind_group_id)))
            &&& known ==> lists_too(s.trackers.bind_groups, bind_group_id, listed)
            &&& known && fault is Some ==> after.state == (PassModel {
                offsets: left,
                trackers,
                ..s
            }) && after.halt == Some(Halt::Error(ComputePassError::Bind(fault->0)))
            &&& known && fault is None && index >= s.binder.slots.len() ==> after.state == (
            PassModel { offsets: left, trackers, raw: s.raw.push(barriers), ..s }) && after.halt
                == Some(Halt::Fault)
            &&& after.halt is None <==> known && fault is None && index < s.binder.slots.len()
            &&& after.halt is None ==> after.state == (PassModel {
                offsets: left,
                trackers,
                binder: after.state.binder,
                raw: after.state.raw,
                ..s
            })
        }),
{
}

/// A bind group that is taken on is in its slot afterwards, with the dynamic offsets that were
/// recorded for it, in their order. What is expected of the slot, the other slots and the layout
/// stay as they were.
pub proof fn law_bind_group_fills_its_slot(
    env: Env,
    s: PassModel,
    index: u8,
    num_dynamic_offsets: u8,
    bind_group_id: BindGroupId,
)
    requires
        step(
            env,
            s,
            ComputeCommand::SetBindGroup { index, num_dynamic_offsets, bind_group_id },
        ).halt is None,
    ensures
        ({
            let after = step(
                env,
                s,
                ComputeCommand::SetBindGroup { index, num_dynamic_offsets, bind_group_id },
            ).state;
            let taken = s.offsets.take(num_dynamic_offsets as int);
            let old_slot = s.binder.slots[index as int];
            let new_slot = after.binder.slots[index as int];
            &&& after.binder.layout == s.binder.layout
            &&& after.binder.slots.len() == s.binder.slots.len()
            &&& forall|i: int|
                0 <= i < s.binder.slots.len() && i != index
                    ==> #[trigger] after.binder.slots[i] == s.binder.slots[i]
            &&& has_group(new_slot, bind_group_id, taken)
            &&& new_slot.expected == old_slot.expected
            &&& has_group(old_slot, bind_group_id, taken) ==> new_slot == old_slot
            &&& !has_group(old_slot, bind_group_id, taken) ==> new_slot.provided == Some(
                BindGroupPair {
                    layout_id: env.hub.bind_groups@[bind_group_id].layout_id,
                    group_id: bind_group_id,
                },
            )
        }),
{
}

proof fn lemma_offsets_in_flatten(slots: Seq<Slot>, lists: Seq<Seq<DynamicOffset>>)
    requires
        lists.len() == slots.len(),
        forall|i: int| 0 <= i < slots.len() ==> #[trigger] lists[i] == slots[i].offsets,
    ensures
        offsets_in(slots) == lists.flatten(),
    decreases slots.len(),
{
    if slots.len() > 0 {
        lemma_offsets_in_flatten(slots.drop_last(), lists.drop_last());
        assert(lists =~= lists.drop_last().push(lists.last()));
        lists.drop_last().lemma_flatten_push(lists.last());
    }
}

/// A bind group that is taken on has its barriers inserted. It is then bound if and only if it was
/// not in its slot before with the same offsets, a layout is current, and its slot and every slot
/// below are met. One command binds it, under the current layout and from its slot on, and with it
/// the slots that follow without a gap and that it had blocked: none if its slot was met before,
/// otherwise all up to the first that is not met. The command names the group of each slot that it
/// binds, and joins the dynamic offsets of these slots, slot by slot, each list whole and in its
/// order; so the offsets that were recorded for the group come first.
pub proof fn law_bind_group_is_bound_with_its_offsets(
    env: Env,
    s: PassModel,
    index: u8,
    num_dynamic_offsets: u8,
    bind_group_id: BindGroupId,
)
    requires
        s.binder.slots.len() <= MAX_BIND_GROUPS,
        step(
            env,
            s,
            ComputeCommand::SetBindGroup { index, num_dynamic_offsets, bind_group_id },
        ).halt is None,
    ensures
        ({
            let after = step(
                env,
                s,
                ComputeCommand::SetBindGroup { index, num_dynamic_offsets, bind_group_id },
            ).state;
            let taken = s.offsets.take(num_dynamic_offsets as int);
            let slots = after.binder.slots;
            let more = after.raw.skip(s.raw.len() as int);
            let binds = {
                &&& !has_group(s.binder.slots[index as int], bind_group_id, taken)
                &&& s.binder.layout is Some
                &&& forall|j: int| 0 <= j <= index ==> met(#[trigger] slots[j])
            };
            &&& after.raw == s.raw + more
            &&& more.len() == (if binds {
                2int
            } else {
                1int
            })
            &&& more[0] == RawModel::InsertBarriers { bind_group_id }
            &&& binds ==> {
                &&& more[1] matches RawModel::BindComputeDescriptorSets {
                    layout_id,
                    first_set,
                    sets,
                    offsets,
                }
                &&& Some(layout_id) == s.binder.layout
                &&& first_set == index
                &&& 1 <= sets.len() <= slots.len() - index
                &&& forall|j: int|
                    index <= j < index + sets.len() ==> met(#[trigger] slots[j]) && sets[j - index]
                        == slots[j].provided->0.group_id
                &&& met(s.binder.slots[index as int]) ==> sets.len() == 1
                &&& !met(s.binder.slots[index as int]) && index + sets.len() < slots.len()
                    ==> !met(slots[index + sets.len()])
                &&& offsets == Seq::new(sets.len(), |j: int| slots[index + j].offsets).flatten()
                &&& offsets.len() >= taken.len() && offsets.take(taken.len() as int) == taken
                &&& sets.len() == 1 ==> offsets == taken
            }
        }),
{
    let command = ComputeCommand::SetBindGroup { index, num_dynamic_offsets, bind_group_id };
    let after = step(env, s, command).state;
    let taken = s.offsets.take(num_dynamic_offsets as int);
    let slots = after.binder.slots;
    let more = after.raw.skip(s.raw.len() as int);
    let group = env.hub.bind_groups@[bind_group_id];
    let pair = BindGroupPair { layout_id: group.layout_id, group_id: bind_group_id };
    let i = index as int;
    let count = compatible_count(slots) as int;
    lemma_compatible_count(slots);
    assert(forall|j: int| 0 <= j < slots.len() ==> (met(#[trigger] slots[j])
        <==> slots[j].compatible()));
    assert(met(s.binder.slots[i]) <==> s.binder.slots[i].compatible());
    assert(i < count <==> forall|j: int| 0 <= j <= index ==> met(#[trigger] slots[j])) by {
        if i >= count {
            assert(!met(slots[count]));
        }
    }
    assert(after.raw =~= s.raw + more);
    match s.binder.to_bind(i, pair, taken) {
        None => {},
        Some((layout_id, end)) => {
            let follow_ups = slots.subrange(i + 1, end as int);
            let bound = slots.subrange(i, end as int);
            let lists = Seq::new(bound.len(), |j: int| slots[i + j].offsets);
            let joined = taken + offsets_in(follow_ups);
            assert(bound.len() <= MAX_BIND_GROUPS);
            assert(lists.drop_first() =~= Seq::new(
                follow_ups.len(),
                |j: int| slots[i + 1 + j].offsets,
            ));
            lemma_offsets_in_flatten(follow_ups, lists.drop_first());
            assert(lists.first() == taken);
            assert(joined =~= lists.flatten());
            assert(joined.take(taken.len() as int) =~= taken);
            if bound.len() == 1 {
                assert(follow_ups =~= Seq::<Slot>::empty());
                assert(joined =~= taken);
            }
            assert(more[1] == RawModel::BindComputeDescriptorSets {
                layout_id,
                first_set: i,
                sets: seq![bind_group_id] + groups_in(follow_ups),
                offsets: joined,
            });
        },
    }
}

/// A pipeline becomes the current one if and only if it exists and so do its layout and, if the
/// layout changes, the current one. It is listed as used once it is found. Nothing but the slots,
/// the raw commands and that list changes, and that a pipeline counts as set, which it does even
/// where it does not exist.
pub proof fn law_pipeline_is_taken_on(env: Env, s: PassModel, pipeline_id: ComputePipelineId)
    ensures
        ({
            let after = step(env, s, ComputeCommand::SetPipeline(pipeline_id));
            let known = env.hub.compute_pipelines@.contains_key(pipeline_id);
            let layout_id = env.hub.compute_pipelines@[pipeline_id].layout_id;
            let layouts = env.hub.pipeline_layouts@;
            let same = s.binder.layout == Some(layout_id);
            let there = layouts.contains_key(layout_id) && (s.binder.layout is Some
                ==> layouts.contains_key(s.binder.layout->0));
            let listed = after.state.trackers.compute_pipes;
            let trackers = TrackerModel { compute_pipes: listed, ..s.trackers };
            let pipeline = after.state.pipeline;
            let bound = s.raw.push(RawModel::BindComputePipeline(pipeline_id));
            &&& pipeline is Provided
            &&& !known ==> after.state == (PassModel { pipeline, ..s }) && after.halt == Some(
                Halt::Error(ComputePassError::InvalidPipeline(pipeline_id)),
            )
            &&& known ==> lists_too(s.trackers.compute_pipes, pipeline_id, listed)
            &&& known && (same || !there) ==> after.state == (PassModel {
                pipeline,
                trackers,
                raw: bound,
                ..s
            })
            &&& known && !same && !there ==> after.halt == Some(Halt::Fault)
            &&& after.halt is None <==> known && (same || there)
            &&& after.halt is None ==> after.state == (PassModel {
                pipeline,
                trackers,
                binder: after.state.binder,
                raw: after.state.raw,
                ..s
            })
        }),
{
}

/// A pipeline of another layout makes that layout current. Every slot keeps its bind group with its
/// dynamic offsets, and what is expected of it afterwards is what the new layout asks for, and
/// nothing where the layout does not reach.
pub proof fn law_new_layout_sets_expectations(
    env: Env,
    s: PassModel,
    pipeline_id: ComputePipelineId,
)
    requires
        step(env, s, ComputeCommand::SetPipeline(pipeline_id)).halt is None,
        s.binder.layout != Some(env.hub.compute_pipelines@[pipeline_id].layout_id),
    ensures
        ({
            let after = step(env, s, ComputeCommand::SetPipeline(pipeline_id)).state;
            let layout_id = env.hub.compute_pipelines@[pipeline_id].layout_id;
            let ids = env.hub.pipeline_layouts@[layout_id].bind_group_layout_ids@;
            &&& after.binder.layout == Some(layout_id)
            &&& after.binder.slots.len() == s.binder.slots.len()
            &&& forall|i: int|
                0 <= i < s.binder.slots.len() ==> {
                    let slot = #[trigger] after.binder.slots[i];
                    &&& slot.provided == s.binder.slots[i].provided
                    &&& slot.offsets == s.binder.slots[i].offsets
                    &&& i < ids.len() ==> slot.expected == Some(ids[i])
                    &&& i >= ids.len() ==> slot.expected is None
                }
        }),
{
}

/// The slot `i` keeps its binding when the layout changes to `layout_id`: the same bind group
/// layout was expected of it before, and the push constant ranges of both layouts are the same.
pub open spec fn stays_bound(
    hub: Hub,
    s: PassModel,
    layout_id: PipelineLayoutId,
    i: int,
) -> bool {
    let new_layout = hub.pipeline_layouts@[layout_id];
    &&& s.binder.layout matches Some(old_id)
    &&& hub.pipeline_layouts@[old_id].push_constant_ranges@ == new_layout.push_constant_ranges@
    &&& s.binder.slots[i].expected == Some(new_layout.bind_group_layout_ids@[i])
}

/// The slot `i` holds a bind group of the layout that `layout_id` asks for there.
pub open spec fn suits_layout(
    hub: Hub,
    s: PassModel,
    layout_id: PipelineLayoutId,
    i: int,
) -> bool {
    &&& s.binder.slots[i].provided matches Some(pair)
    &&& pair.layout_id == hub.pipeline_layouts@[layout_id].bind_group_layout_ids@[i]
}

/// The slot `i` has to be bound anew when the layout changes to `layout_id`: the layout reaches it
/// and it suits, but its binding does not stay, and below it every slot suits or stays bound.
pub open spec fn needs_binding(
    hub: Hub,
    s: PassModel,
    layout_id: PipelineLayoutId,
    i: int,
) -> bool {
    &&& 0 <= i < s.binder.slots.len()
    &&& i < hub.pipeline_layouts@[layout_id].bind_group_layout_ids@.len()
    &&& suits_layout(hub, s, layout_id, i)
    &&& !stays_bound(hub, s, layout_id, i)
    &&& forall|j: int|
        0 <= j < i ==> #[trigger] suits_layout(hub, s, layout_id, j) || stays_bound(
            hub,
            s,
            layout_id,
            j,
        )
}

/// The command that binds slot `i` alone, with the group and all the offsets that it holds.
pub open spec fn binds_slot(r: RawModel, layout_id: PipelineLayoutId, slot: Slot, i: int) -> bool {
    &&& r matches RawModel::BindComputeDescriptorSets { layout_id: id, first_set, sets, offsets }
    &&& id == layout_id
    &&& first_set == i
    &&& slot.provided matches Some(pair)
    &&& sets == seq![pair.group_id]
    &&& offsets == slot.offsets
}

/// What [`rebinds`] gives, place by place.
proof fn lemma_rebinds(
    slots: Seq<Slot>,
    ids: Seq<BindGroupLayoutId>,
    layout_id: PipelineLayoutId,
    n: int,
)
    requires
        0 <= n <= slots.len(),
    ensures
        ({
            let commands = rebinds(slots, ids, layout_id, n);
            &&& forall|k: int|
                0 <= k < commands.len() ==> {
                    let r = #[trigger] commands[k];
                    &&& r is BindComputeDescriptorSets
                    &&& 0 <= r->first_set < n
                    &&& rebound(slots, ids, r->first_set)
                    &&& binds_slot(r, layout_id, slots[r->first_set], r->first_set)
                }
            &&& forall|k: int, l: int|
                0 <= k < l < commands.len() ==> (#[trigger] commands[k])->first_set < (
                #[trigger] commands[l])->first_set
            &&& forall|i: int|
                0 <= i < n && #[trigger] rebound(slots, ids, i) ==> exists|k: int|
                    0 <= k < commands.len() && binds_slot(
                        #[trigger] commands[k],
                        layout_id,
                        slots[i],
                        i,
                    )
        }),
    decreases n,
{
    if n > 0 {
        lemma_rebinds(slots, ids, layout_id, n - 1);
        let before = rebinds(slots, ids, layout_id, n - 1);
        let commands = rebinds(slots, ids, layout_id, n);
        assert(forall|k: int| 0 <= k < before.len() ==> #[trigger] commands[k] == before[k]);
        assert forall|i: int| 0 <= i < n && #[trigger] rebound(slots, ids, i) implies exists|k: int|
            0 <= k < commands.len() && binds_slot(
                #[trigger] commands[k],
                layout_id,
                slots[i],
                i,
            ) by {
            if i < n - 1 {
                let k = choose|k: int|
                    0 <= k < before.len() && binds_slot(
                        #[trigger] before[k],
                        layout_id,
                        slots[i],
                        i,
                    );
                assert(binds_slot(commands[k], layout_id, slots[i], i));
            } else {
                assert(binds_slot(commands[before.len() as int], layout_id, slots[i], i));
            }
        }
    }
}

proof fn lemma_rebound(env: Env, s: PassModel, layout_id: PipelineLayoutId, i: int)
    requires
        0 <= i < s.binder.slots.len(),
        i < env.hub.pipeline_layouts@[layout_id].bind_group_layout_ids@.len(),
    ensures
        rebound(
            held(env.hub, s.binder, layout_id).slots,
            env.hub.pipeline_layouts@[layout_id].bind_group_layout_ids@,
            i,
        ) <==> needs_binding(env.hub, s, layout_id, i),
{
    let ids = env.hub.pipeline_layouts@[layout_id].bind_group_layout_ids@;
    let slots = held(env.hub, s.binder, layout_id).slots;
    assert forall|j: int| 0 <= j <= i implies {
        let change = (#[trigger] slots[j]).layout_change(ids[j]);
        &&& change is Unchanged <==> stays_bound(env.hub, s, layout_id, j)
        &&& change is Mismatch <==> !stays_bound(env.hub, s, layout_id, j) && !suits_layout(
            env.hub,
            s,
            layout_id,
            j,
        )
    } by {}
    if mismatch_below(slots, ids, i) {
        let j = choose|j: int|
            0 <= j < i && (#[trigger] slots[j]).layout_change(ids[j]) is Mismatch;
        assert(!suits_layout(env.hub, s, layout_id, j));
    } else {
        assert forall|j: int| 0 <= j < i implies #[trigger] suits_layout(env.hub, s, layout_id, j)
            || stays_bound(env.hub, s, layout_id, j) by {
            assert(!(slots[j].layout_change(ids[j]) is Mismatch));
        }
    }
}

/// A pipeline of another layout is bound first. Then every slot that needs it is bound anew, each
/// by a command of its own and only once, in the order of the slots, with the bind group that it
/// holds and all the dynamic offsets that came with that group; no other slot is bound. After that
/// come only writes of zeros to the push constants, under the new layout.
#[verifier::spinoff_prover]
pub proof fn law_new_layout_binds_slots_with_their_offsets(
    env: Env,
    s: PassModel,
    pipeline_id: ComputePipelineId,
)
    requires
        step(env, s, ComputeCommand::SetPipeline(pipeline_id)).halt is None,
        s.binder.layout != Some(env.hub.compute_pipelines@[pipeline_id].layout_id),
    ensures
        ({
            let after = step(env, s, ComputeCommand::SetPipeline(pipeline_id)).state;
            let layout_id = env.hub.compute_pipelines@[pipeline_id].layout_id;
            let slots = s.binder.slots;
            let more = after.raw.skip(s.raw.len() as int);
            &&& after.raw == s.raw + more
            &&& more.len() >= 1 && more[0] == RawModel::BindComputePipeline(pipeline_id)
            &&& forall|k: int|
                1 <= k < more.len() ==> {
                    ||| (#[trigger] more[k]) is PushComputeConstants
                    ||| (more[k] is BindComputeDescriptorSets && needs_binding(
                        env.hub,
                        s,
                        layout_id,
                        more[k]->first_set,
                    ) && binds_slot(
                        more[k],
                        layout_id,
                        slots[more[k]->first_set],
                        more[k]->first_set,
                    ))
                }
            &&& forall|i: int| #[trigger]
                needs_binding(env.hub, s, layout_id, i) ==> exists|k: int|
                    1 <= k < more.len() && binds_slot(#[trigger] more[k], layout_id, slots[i], i)
            &&& forall|k: int, l: int|
                1 <= k < l < more.len() ==> {
                    &&& (#[trigger] more[k]) is PushComputeConstants ==> (
                    #[trigger] more[l]) is PushComputeConstants
                    &&& more[l] is BindComputeDescriptorSets ==> more[k]->first_set
                        < more[l]->first_set
                }
            &&& forall|k: int|
                1 <= k < more.len() ==> ((#[trigger] more[k]) matches RawModel::PushComputeConstants {
                    layout_id: id,
                    offset,
                    data,
                } ==> id == layout_id && data.len() >= 1 && forall|j: int|
                    0 <= j < data.len() ==> #[trigger] data[j] == 0)
        }),
{
    let after = step(env, s, ComputeCommand::SetPipeline(pipeline_id)).state;
    let layout_id = env.hub.compute_pipelines@[pipeline_id].layout_id;
    let more = after.raw.skip(s.raw.len() as int);
    let ids = env.hub.pipeline_layouts@[layout_id].bind_group_layout_ids@;
    let slots = held(env.hub, s.binder, layout_id).slots;
    let rebinding = rebind_commands(env.hub, s.binder, layout_id);
    let clearing = clear_commands(env.hub, layout_id);
    let n = if ids.len() < slots.len() {
        ids.len() as int
    } else {
        slots.len() as int
    };
    lemma_rebinds(slots, ids, layout_id, n);
    lemma_clears_ascend(env.hub, layout_id);
    assert(after.raw =~= s.raw + more);
    assert(more =~= seq![RawModel::BindComputePipeline(pipeline_id)] + rebinding + clearing);
    let last = rebinding.len() as int;
    assert forall|k: int| 1 <= k < more.len() implies {
        ||| (#[trigger] more[k]) is PushComputeConstants
        ||| (more[k] is BindComputeDescriptorSets && needs_binding(
            env.hub,
            s,
            layout_id,
            more[k]->first_set,
        ) && binds_slot(
            more[k],
            layout_id,
            s.binder.slots[more[k]->first_set],
            more[k]->first_set,
        ))
    } by {
        if k <= last {
            let r = rebinding[k - 1];
            assert(more[k] == r);
            lemma_rebound(env, s, layout_id, r->first_set);
        } else {
            assert(more[k] == clearing[k - 1 - last]);
        }
    }
    assert forall|i: int| #[trigger] needs_binding(env.hub, s, layout_id, i) implies exists|k: int|
        1 <= k < more.len() && binds_slot(
            #[trigger] more[k],
            layout_id,
            s.binder.slots[i],
            i,
        ) by {
        lemma_rebound(env, s, layout_id, i);
        let k = choose|k: int|
            0 <= k < rebinding.len() && binds_slot(
                #[trigger] rebinding[k],
                layout_id,
                slots[i],
                i,
            );
        assert(binds_slot(more[k + 1], layout_id, s.binder.slots[i], i));
    }
    assert forall|k: int, l: int| 1 <= k < l < more.len() implies {
        &&& (#[trigger] more[k]) is PushComputeConstants ==> (
        #[trigger] more[l]) is PushComputeConstants
        &&& more[l] is BindComputeDescriptorSets ==> more[k]->first_set < more[l]->first_set
    } by {
        if l <= last {
            assert(more[k] == rebinding[k - 1]);
            assert(more[l] == rebinding[l - 1]);
        } else {
            assert(more[l] == clearing[l - 1 - last]);
        }
    }
    assert forall|k: int| 1 <= k < more.len() implies ((
    #[trigger] more[k]) matches RawModel::PushComputeConstants {
        layout_id: id,
        offset,
        data,
    } ==> id == layout_id && data.len() >= 1 && forall|j: int|
        0 <= j < data.len() ==> #[trigger] data[j] == 0) by {
        if k <= last {
            assert(more[k] == rebinding[k - 1]);
        } else {
            assert(more[k] == clearing[k - 1 - last]);
        }
    }
}

} // verus!
