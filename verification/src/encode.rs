//! Running a recorded pass: its commands become raw commands in a command buffer.
use std::collections::HashMap;
use vstd::prelude::*;
use vstd::std_specs::hash::group_hash_axioms;

use crate::bind::{
    copy_offsets, lemma_compatible_count, BindGroupPair, Binder, LayoutChange, Slot,
};
use crate::command_buffer::{track, CommandBuffer, TraceCommand, TrackerSet};
use crate::compute::{BasePass, BasePassRef, ComputeCommand, ComputePass, PassData};
use crate::error::{CommandEncoderError, ComputePassError, DispatchError, Halt};
use crate::hub::{check_buffer_usage, Hub, PipelineLayout};
use crate::id::{
    BindGroupId, BufferAddress, BufferId, CommandEncoderId, ComputePipelineId, DynamicOffset,
    PipelineLayoutId, PushConstantRange, BUFFER_USAGE_INDIRECT, MAX_BIND_GROUPS,
    PUSH_CONSTANT_ALIGNMENT, SHADER_STAGE_COMPUTE,
};
use crate::model::{
    after_pass, clears, dispatch, dispatch_indirect, expect_all, groups_in, insert_debug_marker,
    label, label_present, mismatch_below, offsets_in, pass_halt, pop_debug_group,
    push_debug_group, rebind_resources, rebinds, run, set_bind_group, set_pipeline,
    set_push_constant, start, step, write_commands, Env, Outcome, PassModel,
};
use crate::push_constants::{
    compute_nonoverlapping_ranges, lemma_segments_ordered, push_constant_clear, segments,
    ConstantWrite,
};
use crate::raw::{capped, raw_of, DescriptorSets, RawCommand};
use crate::state::{PipelineState, State};

verus! {

broadcast use group_hash_axioms;

/// A pass in the course of being run.
struct PassEncoder<'a> {
    hub: &'a Hub,
    max_bind_groups: u32,
    /// The push constant words of the pass.
    constants: &'a [u32],
    /// The dynamic offsets that no command has taken yet.
    dynamic_offsets: &'a [DynamicOffset],
    /// The label bytes that no command has taken yet.
    string_data: &'a [u8],
    state: State,
    raw: Vec<RawCommand>,
    trackers: TrackerSet,
}

/// The encoder is where `outcome` says, and what it looks at is the same.
spec fn reached(
    before: PassEncoder<'_>,
    after: PassEncoder<'_>,
    r: Result<(), Halt>,
    outcome: Outcome,
) -> bool {
    &&& after.wf()
    &&& after.env() == before.env()
    &&& after@ == outcome.state
    &&& r == (match outcome.halt {
        None => Ok(()),
        Some(h) => Err(h),
    })
}

impl<'a> View for PassEncoder<'a> {
    type V = PassModel;

    closed spec fn view(&self) -> PassModel {
        PassModel {
            binder: self.state.binder@,
            pipeline: self.state.pipeline,
            depth: self.state.debug_scope_depth as nat,
            offsets: self.dynamic_offsets@,
            text: self.string_data@,
            raw: raw_of(self.raw@),
            trackers: self.trackers@,
        }
    }
}

impl<'a> PassEncoder<'a> {
    spec fn env(self) -> Env {
        Env { hub: *self.hub, max_bind_groups: self.max_bind_groups, constants: self.constants@ }
    }

    spec fn wf(self) -> bool {
        self.state.binder@.slots.len() <= MAX_BIND_GROUPS
    }

    /// Appends a raw command.
    fn emit(&mut self, command: RawCommand)
        requires
            old(self).wf(),
        ensures
            final(self).wf(),
            final(self).env() == old(self).env(),
            final(self)@ == old(self)@.emit(command@),
            final(self).state == old(self).state,
    {
        self.raw.push(command);
        assert(raw_of(self.raw@) =~= raw_of(old(self).raw@).push(command@));
    }

    fn dispatch(&mut self, groups: [u32; 3]) -> (r: Result<(), Halt>)
        requires
            old(self).wf(),
        ensures
            reached(*old(self), *final(self), r, dispatch(old(self)@, groups)),
    {
        match self.state.is_ready() {
            Err(e) => return Err(Halt::Error(ComputePassError::from(e))),
            Ok(()) => {},
        }
        self.emit(RawCommand::Dispatch(groups));
        Ok(())
    }

    fn dispatch_indirect(&mut self, buffer_id: BufferId, offset: BufferAddress) -> (r: Result<
        (),
        Halt,
    >)
        requires
            old(self).wf(),
        ensures
            reached(
                *old(self),
                *final(self),
                r,
                dispatch_indirect(old(self).env(), old(self)@, buffer_id, offset),
            ),
    {
        match self.state.is_ready() {
            Err(e) => return Err(Halt::Error(ComputePassError::from(e))),
            Ok(()) => {},
        }
        let usage: u32 = match self.hub.buffers.get(&buffer_id) {
            None => return Err(Halt::Error(ComputePassError::InvalidIndirectBuffer(buffer_id))),
            Some(buffer) => buffer.usage,
        };
        track(&mut self.trackers.buffers, buffer_id);
        match check_buffer_usage(usage, BUFFER_USAGE_INDIRECT) {
            Err(e) => return Err(Halt::Error(ComputePassError::from(e))),
            Ok(()) => {},
        }
        self.emit(RawCommand::TransitionToIndirect { buffer_id });
        self.emit(RawCommand::DispatchIndirect { buffer_id, offset });
        Ok(())
    }

    /// Takes the next `len` label bytes as text; nothing if they are not there or no text.
    fn take_label(&mut self, len: usize) -> (r: Option<String>)
        requires
            old(self).wf(),
        ensures
            final(self).wf(),
            final(self).env() == old(self).env(),
            r is Some <==> label_present(old(self)@, len),
            r is None ==> final(self)@ == old(self)@,
            r matches Some(text) ==> text@ == label(old(self)@, len) && final(self)@ == (
            PassModel { text: old(self)@.text.skip(len as int), ..old(self)@ }),
            final(self).state == old(self).state,
    {
        if len > self.string_data.len() {
            return None;
        }
        let (bytes, rest) = self.string_data.split_at(len);
        assert(bytes@ =~= self@.text.take(len as int));
        assert(rest@ =~= self@.text.skip(len as int));
        match core::str::from_utf8(bytes) {
            Err(_) => None,
            Ok(text) => {
                self.string_data = rest;
                Some(text.to_owned())
            },
        }
    }

    fn push_debug_group(&mut self, color: u32, len: usize) -> (r: Result<(), Halt>)
        requires
            old(self).wf(),
        ensures
            reached(*old(self), *final(self), r, push_debug_group(old(self)@, color, len)),
    {
        if self.state.debug_scope_depth == u32::MAX {
            return Err(Halt::Fault);
        }
        match self.take_label(len) {
            None => Err(Halt::Fault),
            Some(label) => {
                self.state.debug_scope_depth = self.state.debug_scope_depth + 1;
                self.emit(RawCommand::BeginDebugMarker { label, color });
                Ok(())
            },
        }
    }

    fn pop_debug_group(&mut self) -> (r: Result<(), Halt>)
        requires
            old(self).wf(),
        ensures
            reached(*old(self), *final(self), r, pop_debug_group(old(self)@)),
    {
        if self.state.debug_scope_depth == 0 {
            return Err(Halt::Error(ComputePassError::InvalidPopDebugGroup));
        }
        self.state.debug_scope_depth = self.state.debug_scope_depth - 1;
        self.emit(RawCommand::EndDebugMarker);
        Ok(())
    }

    fn insert_debug_marker(&mut self, color: u32, len: usize) -> (r: Result<(), Halt>)
        requires
            old(self).wf(),
        ensures
            reached(*old(self), *final(self), r, insert_debug_marker(old(self)@, color, len)),
    {
        match self.take_label(len) {
            None => Err(Halt::Fault),
            Some(label) => {
                self.emit(RawCommand::InsertDebugMarker { label, color });
                Ok(())
            },
        }
    }

    fn set_push_constant(&mut self, offset: u32, size_bytes: u32, values_offset: u32) -> (r: Result<
        (),
        Halt,
    >)
        requires
            old(self).wf(),
        ensures
            reached(
                *old(self),
                *final(self),
                r,
                set_push_constant(
                    old(self).env(),
                    old(self)@,
                    offset,
                    size_bytes,
                    values_offset,
                ),
            ),
    {
        let end_offset_bytes: u32 = match offset.checked_add(size_bytes) {
            None => return Err(Halt::Fault),
            Some(end) => end,
        };
        let values_end_offset: u32 = match values_offset.checked_add(
            size_bytes / PUSH_CONSTANT_ALIGNMENT,
        ) {
            None => return Err(Halt::Fault),
            Some(end) => end,
        };
        let first: usize = values_offset as usize;
        let last: usize = values_end_offset as usize;
        if last > self.constants.len() {
            return Err(Halt::Fault);
        }
        let layout_id: PipelineLayoutId = match self.state.binder.pipeline_layout_id {
            None => return Err(
                Halt::Error(ComputePassError::Dispatch(DispatchError::MissingPipeline)),
            ),
            Some(layout_id) => layout_id,
        };
        let checked = match self.hub.pipeline_layouts.get(&layout_id) {
            None => return Err(Halt::Fault),
            Some(layout) => layout.validate_push_constant_ranges(
                SHADER_STAGE_COMPUTE,
                offset,
                end_offset_bytes,
            ),
        };
        match checked {
            Err(e) => return Err(Halt::Error(ComputePassError::from(e))),
            Ok(()) => {},
        }
        let data: Vec<u32> = copy_words(self.constants, first, last);
        self.emit(RawCommand::PushComputeConstants { layout_id, offset, data });
        Ok(())
    }

    fn set_bind_group(
        &mut self,
        index: u8,
        num_dynamic_offsets: u8,
        bind_group_id: BindGroupId,
    ) -> (r: Result<(), Halt>)
        requires
            old(self).wf(),
        ensures
            reached(
                *old(self),
                *final(self),
                r,
                set_bind_group(
                    old(self).env(),
                    old(self)@,
                    index,
                    num_dynamic_offsets,
                    bind_group_id,
                ),
            ),
    {
        let max_bind_groups: u32 = self.max_bind_groups;
        if index as u32 >= max_bind_groups {
            return Err(
                Halt::Error(
                    ComputePassError::BindGroupIndexOutOfRange { index, max: max_bind_groups },
                ),
            );
        }
        let count: usize = num_dynamic_offsets as usize;
        if count > self.dynamic_offsets.len() {
            return Err(Halt::Fault);
        }
        let (temp_offsets, rest) = self.dynamic_offsets.split_at(count);
        assert(temp_offsets@ =~= self@.offsets.take(count as int));
        assert(rest@ =~= self@.offsets.skip(count as int));
        self.dynamic_offsets = rest;
        let hub: &Hub = self.hub;
        let bind_group = match hub.bind_groups.get(&bind_group_id) {
            None => return Err(Halt::Error(ComputePassError::InvalidBindGroup(bind_group_id))),
            Some(bind_group) => bind_group,
        };
        track(&mut self.trackers.bind_groups, bind_group_id);
        match bind_group.validate_dynamic_bindings(temp_offsets) {
            Err(e) => return Err(Halt::Error(ComputePassError::from(e))),
            Ok(()) => {},
        }
        self.emit(RawCommand::InsertBarriers { bind_group_id });
        let slot: usize = index as usize;
        if slot >= self.state.binder.entries.len() {
            return Err(Halt::Fault);
        }
        let ghost before = self@;
        let ghost pair = BindGroupPair { layout_id: bind_group.layout_id, group_id: bind_group_id };
        proof {
            lemma_compatible_count(before.binder.provide(slot as int, pair, temp_offsets@).slots);
        }
        match self.state.binder.provide_entry(slot, bind_group_id, bind_group, temp_offsets) {
            None => {},
            Some((layout_id, end)) => {
                let (sets, offsets) = self.follow_ups(slot, end, bind_group_id, temp_offsets);
                self.emit(
                    RawCommand::BindComputeDescriptorSets {
                        layout_id,
                        first_set: slot,
                        sets: DescriptorSets::collect(sets),
                        offsets,
                    },
                );
            },
        }
        Ok(())
    }

    /// The bind group for slot `index` and those in the slots up to `end`, and their offsets.
    fn follow_ups(
        &self,
        index: usize,
        end: usize,
        bind_group_id: BindGroupId,
        temp_offsets: &[DynamicOffset],
    ) -> (r: (Vec<BindGroupId>, Vec<DynamicOffset>))
        requires
            index < end <= self.state.binder@.slots.len(),
            forall|j: int| index < j < end ==> (#[trigger] self.state.binder@.slots[j]).compatible(),
        ensures
            r.0@ == seq![bind_group_id] + groups_in(
                self.state.binder@.slots.subrange(index + 1, end as int),
            ),
            r.1@ == temp_offsets@ + offsets_in(
                self.state.binder@.slots.subrange(index + 1, end as int),
            ),
    {
        let ghost slots = self.state.binder@.slots;
        let mut sets: Vec<BindGroupId> = Vec::new();
        sets.push(bind_group_id);
        let mut offsets: Vec<DynamicOffset> = copy_offsets(temp_offsets);
        let mut i: usize = index + 1;
        assert(slots.subrange(index + 1, i as int) =~= Seq::<Slot>::empty());
        assert(offsets@ =~= temp_offsets@ + offsets_in(slots.subrange(index + 1, i as int)));
        assert(sets@ =~= seq![bind_group_id] + groups_in(slots.subrange(index + 1, i as int)));
        while i < end
            invariant
                index < i <= end <= slots.len(),
                slots == self.state.binder@.slots,
                forall|j: int| index < j < end ==> (#[trigger] slots[j]).compatible(),
                sets@ == seq![bind_group_id] + groups_in(slots.subrange(index + 1, i as int)),
                offsets@ == temp_offsets@ + offsets_in(slots.subrange(index + 1, i as int)),
            decreases end - i,
        {
            assert(slots[i as int] == self.state.binder.entries@[i as int]@);
            let ghost done = slots.subrange(index + 1, i as int);
            let ghost next = slots.subrange(index + 1, i + 1);
            assert(next.drop_last() =~= done);
            assert(next.last() == slots[i as int]);
            let ghost offsets_before = offsets@;
            match self.state.binder.entries[i].provided {
                Some(pair) => sets.push(pair.group_id),
                None => {},
            }
            offsets.extend_from_slice(self.state.binder.entries[i].dynamic_offsets.as_slice());
            assert(offsets@ =~= offsets_before + slots[i as int].offsets);
            assert(offsets@ =~= temp_offsets@ + offsets_in(next));
            assert(sets@ =~= seq![bind_group_id] + groups_in(next));
            i = i + 1;
        }
        (sets, offsets)
    }

    fn set_pipeline(&mut self, pipeline_id: ComputePipelineId) -> (r: Result<(), Halt>)
        requires
            old(self).wf(),
        ensures
            reached(
                *old(self),
                *final(self),
                r,
                set_pipeline(old(self).env(), old(self)@, pipeline_id),
            ),
    {
        self.state.pipeline = PipelineState::Provided;
        let layout_id: PipelineLayoutId = match self.hub.compute_pipelines.get(&pipeline_id) {
            None => return Err(Halt::Error(ComputePassError::InvalidPipeline(pipeline_id))),
            Some(pipeline) => pipeline.layout_id,
        };
        track(&mut self.trackers.compute_pipes, pipeline_id);
        self.emit(RawCommand::BindComputePipeline(pipeline_id));
        let current: bool = match self.state.binder.pipeline_layout_id {
            Some(old_id) => old_id == layout_id,
            None => false,
        };
        if current {
            return Ok(());
        }
        self.rebind_resources(layout_id)
    }

    /// Goes over to another pipeline layout.
    fn rebind_resources(&mut self, layout_id: PipelineLayoutId) -> (r: Result<(), Halt>)
        requires
            old(self).wf(),
        ensures
            reached(
                *old(self),
                *final(self),
                r,
                rebind_resources(old(self).env(), old(self)@, layout_id),
            ),
    {
        let ghost before = self@;
        let hub: &Hub = self.hub;
        let layout: &PipelineLayout = match hub.pipeline_layouts.get(&layout_id) {
            None => return Err(Halt::Fault),
            Some(layout) => layout,
        };
        let old_layout: Option<&PipelineLayout> = match self.state.binder.pipeline_layout_id {
            None => None,
            Some(old_id) => match hub.pipeline_layouts.get(&old_id) {
                None => return Err(Halt::Fault),
                Some(old_layout) => Some(old_layout),
            },
        };
        self.state.binder.change_pipeline_layout(old_layout, layout_id, layout);
        let ghost held = self.state.binder@;
        let ghost ids = layout.bind_group_layout_ids@;
        let count: usize = if layout.bind_group_layout_ids.len() < self.state.binder.entries.len() {
            layout.bind_group_layout_ids.len()
        } else {
            self.state.binder.entries.len()
        };
        let mut is_compatible: bool = true;
        let mut index: usize = 0;
        assert(raw_of(self.raw@) =~= before.raw + rebinds(held.slots, ids, layout_id, 0));
        while index < count
            invariant
                index <= count <= held.slots.len() <= MAX_BIND_GROUPS,
                count <= ids.len(),
                ids == layout.bind_group_layout_ids@,
                self.env() == old(self).env(),
                self.state.binder.entries@.len() == held.slots.len(),
                forall|j: int|
                    0 <= j < held.slots.len() ==> (#[trigger] self.state.binder.entries@[j])@ == (
                    if j < index {
                        held.slots[j].expecting(Some(ids[j]))
                    } else {
                        held.slots[j]
                    }),
                is_compatible == !mismatch_below(held.slots, ids, index as int),
                self@ == (PassModel {
                    binder: self.state.binder@,
                    raw: before.raw + rebinds(held.slots, ids, layout_id, index as int),
                    ..before
                }),
                self.state.binder.pipeline_layout_id == held.layout,
            decreases count - index,
        {
            let ghost entries = self.state.binder.entries@;
            assert(entries[index as int]@ == held.slots[index as int]);
            let change = self.state.binder.entries[index].expect_layout(
                layout.bind_group_layout_ids[index],
            );
            match change {
                LayoutChange::Match(group_id) => {
                    if is_compatible {
                        let mut sets: Vec<BindGroupId> = Vec::new();
                        sets.push(group_id);
                        assert(capped(sets@) =~= seq![group_id]);
                        let offsets: Vec<DynamicOffset> = copy_offsets(
                            self.state.binder.entries[index].dynamic_offsets.as_slice(),
                        );
                        self.emit(
                            RawCommand::BindComputeDescriptorSets {
                                layout_id,
                                first_set: index,
                                sets: DescriptorSets::collect(sets),
                                offsets,
                            },
                        );
                    }
                },
                LayoutChange::Unchanged => {},
                LayoutChange::Mismatch => {
                    is_compatible = false;
                },
            }
            proof {
                assert(mismatch_below(held.slots, ids, index + 1) == (mismatch_below(
                    held.slots,
                    ids,
                    index as int,
                ) || held.slots[index as int].layout_change(ids[index as int]) is Mismatch)) by {
                    if mismatch_below(held.slots, ids, index as int) {
                        let j = choose|j: int|
                            0 <= j < index && (#[trigger] held.slots[j]).layout_change(
                                ids[j],
                            ) is Mismatch;
                        assert(held.slots[j].layout_change(ids[j]) is Mismatch);
                    }
                }
                assert(self@.raw =~= before.raw + rebinds(
                    held.slots,
                    ids,
                    layout_id,
                    index + 1,
                ));
            }
            index = index + 1;
        }
        assert(self.state.binder@.slots =~= expect_all(held.slots, ids));
        self.clear_push_constants(layout_id, layout.push_constant_ranges.as_slice());
        Ok(())
    }

    /// Clears every byte of the push constant block that lies in one of `ranges`.
    fn clear_push_constants(&mut self, layout_id: PipelineLayoutId, ranges: &[PushConstantRange])
        requires
            old(self).wf(),
        ensures
            final(self).wf(),
            final(self).env() == old(self).env(),
            final(self)@ == old(self)@.emit_all(
                clears(layout_id, segments(ranges@, 0), segments(ranges@, 0).len() as int),
            ),
    {
        let ghost before = self@;
        let non_overlapping: Vec<PushConstantRange> = compute_nonoverlapping_ranges(ranges);
        let ghost parts = non_overlapping@;
        proof {
            lemma_segments_ordered(ranges@, 0);
        }
        let mut i: usize = 0;
        assert(self@.raw =~= before.raw + clears(layout_id, parts, 0));
        while i < non_overlapping.len()
            invariant
                i <= parts.len(),
                parts == non_overlapping@,
                self.wf(),
                self.env() == old(self).env(),
                self@ == before.emit_all(clears(layout_id, parts, i as int)),
                forall|j: int| 0 <= j < parts.len() ==> (#[trigger] parts[j]).start < parts[j].end,
            decreases parts.len() - i,
        {
            let part: PushConstantRange = non_overlapping[i];
            assert(parts[i as int] == part);
            let offset: u32 = part.start;
            let size_bytes: u32 = part.end - offset;
            let writes: Vec<ConstantWrite> = push_constant_clear(offset, size_bytes);
            self.write_all(layout_id, writes);
            assert(self@.raw =~= before.raw + clears(layout_id, parts, i + 1));
            i = i + 1;
        }
    }

    /// Appends the commands that make `writes`.
    fn write_all(&mut self, layout_id: PipelineLayoutId, writes: Vec<ConstantWrite>)
        requires
            old(self).wf(),
        ensures
            final(self).wf(),
            final(self).env() == old(self).env(),
            final(self)@ == old(self)@.emit_all(
                write_commands(layout_id, writes@.map_values(|w: ConstantWrite| w@)),
            ),
    {
        let ghost before = self@;
        let ghost models = writes@.map_values(|w: ConstantWrite| w@);
        let ghost commands = write_commands(layout_id, models);
        let mut k: usize = 0;
        assert(self@.raw =~= before.raw + commands.take(0));
        while k < writes.len()
            invariant
                k <= writes@.len(),
                models == writes@.map_values(|w: ConstantWrite| w@),
                commands == write_commands(layout_id, models),
                self.wf(),
                self.env() == old(self).env(),
                self@ == before.emit_all(commands.take(k as int)),
            decreases writes@.len() - k,
        {
            let data: Vec<u32> = copy_words(writes[k].data.as_slice(), 0, writes[k].data.len());
            assert(data@ =~= models[k as int].data);
            self.emit(
                RawCommand::PushComputeConstants { layout_id, offset: writes[k].offset, data },
            );
            assert(commands.take(k + 1) =~= commands.take(k as int).push(commands[k as int]));
            assert(self@.raw =~= before.raw + commands.take(k + 1));
            k = k + 1;
        }
        assert(commands.take(k as int) =~= commands);
    }

    /// One command.
    fn step(&mut self, command: ComputeCommand) -> (r: Result<(), Halt>)
        requires
            old(self).wf(),
        ensures
            reached(*old(self), *final(self), r, step(old(self).env(), old(self)@, command)),
    {
        match command {
            ComputeCommand::SetBindGroup { index, num_dynamic_offsets, bind_group_id } => {
                self.set_bind_group(index, num_dynamic_offsets, bind_group_id)
            },
            ComputeCommand::SetPipeline(pipeline_id) => self.set_pipeline(pipeline_id),
            ComputeCommand::SetPushConstant { offset, size_bytes, values_offset } => {
                self.set_push_constant(offset, size_bytes, values_offset)
            },
            ComputeCommand::Dispatch(groups) => self.dispatch(groups),
            ComputeCommand::DispatchIndirect { buffer_id, offset } => {
                self.dispatch_indirect(buffer_id, offset)
            },
            ComputeCommand::PushDebugGroup { color, len } => self.push_debug_group(color, len),
            ComputeCommand::PopDebugGroup => self.pop_debug_group(),
            ComputeCommand::InsertDebugMarker { color, len } => {
                self.insert_debug_marker(color, len)
            },
        }
    }

    /// The commands, one after the other, up to the first that stops the pass.
    fn run(&mut self, commands: &[ComputeCommand]) -> (r: Result<(), Halt>)
        requires
            old(self).wf(),
        ensures
            reached(*old(self), *final(self), r, run(old(self).env(), old(self)@, commands@)),
    {
        let mut i: usize = 0;
        assert(commands@.skip(0) =~= commands@);
        while i < commands.len()
            invariant
                i <= commands@.len(),
                self.wf(),
                self.env() == old(self).env(),
                run(self.env(), self@, commands@.skip(i as int)) == run(
                    old(self).env(),
                    old(self)@,
                    commands@,
                ),
            decreases commands@.len() - i,
        {
            let ghost left = commands@.skip(i as int);
            assert(left[0] == commands@[i as int]);
            assert(left.drop_first() =~= commands@.skip(i + 1));
            match self.step(commands[i]) {
                Err(halt) => return Err(halt),
                Ok(()) => {},
            }
            i = i + 1;
        }
        Ok(())
    }
}

impl CommandBuffer {
    /// Runs a pass on a command buffer that is being recorded, and says why the pass stopped
    /// before its end, if it did. What the commands before that amount to has then been recorded.
    pub fn encode_compute_pass(self, hub: &Hub, base: &BasePassRef<'_, ComputeCommand>) -> (r: (
        CommandBuffer,
        Result<(), Halt>,
    ))
        ensures
            r.0@ == after_pass(*hub, self@, base@),
            r.1 == (match pass_halt(*hub, self@, base@) {
                None => Ok::<(), Halt>(()),
                Some(h) => Err(h),
            }),
    {
        let ghost before = self@;
        let CommandBuffer { is_recording, limits, raw, trackers, commands } = self;
        let mut raws: Vec<Vec<RawCommand>> = raw;
        let ghost raws_before = raws@;
        match raws.pop() {
            None => {
                let unchanged = CommandBuffer {
                    is_recording,
                    limits,
                    raw: raws,
                    trackers,
                    commands,
                };
                assert(unchanged@.raw =~= before.raw);
                (unchanged, Err(Halt::Fault))
            },
            Some(last) => {
                let traced: Option<Vec<TraceCommand>> = match commands {
                    None => None,
                    Some(list) => {
                        let mut list: Vec<TraceCommand> = list;
                        let ghost listed = list@;
                        let copy = TraceCommand::RunComputePass { base: BasePass::from_ref(base) };
                        list.push(copy);
                        assert(list@.map_values(|c: TraceCommand| c@) =~= listed.map_values(
                            |c: TraceCommand| c@,
                        ).push(base@));
                        Some(list)
                    },
                };
                assert(raws_before.last() == last);
                assert(before.raw.last() == raw_of(last@));
                let mut encoder = PassEncoder {
                    hub,
                    max_bind_groups: limits.max_bind_groups,
                    constants: base.push_constant_data,
                    dynamic_offsets: base.dynamic_offsets,
                    string_data: base.string_data,
                    state: State {
                        binder: Binder::new(limits.max_bind_groups),
                        pipeline: PipelineState::Required,
                        debug_scope_depth: 0,
                    },
                    raw: last,
                    trackers,
                };
                assert(encoder@ =~= start(before, base@));
                let result = encoder.run(base.commands);
                let PassEncoder { raw: last, trackers, .. } = encoder;
                raws.push(last);
                let after = CommandBuffer {
                    is_recording,
                    limits,
                    raw: raws,
                    trackers,
                    commands: traced,
                };
                assert(after@.raw =~= after_pass(*hub, before, base@).raw);
                assert(after@ =~= after_pass(*hub, before, base@));
                (after, result)
            },
        }
    }
}

/// Everything that a device knows: its resources and the command buffers being recorded.
pub struct Global {
    pub hub: Hub,
    pub command_buffers: HashMap<CommandEncoderId, CommandBuffer>,
}

impl Global {
    /// Why the encoder cannot be recorded into, if it cannot.
    pub open spec fn encoder_error(self, encoder_id: CommandEncoderId) -> Option<
        CommandEncoderError,
    > {
        if !self.command_buffers@.contains_key(encoder_id) {
            Some(CommandEncoderError::Invalid)
        } else if !self.command_buffers@[encoder_id].is_recording {
            Some(CommandEncoderError::NotRecording)
        } else {
            None
        }
    }

    /// Why the pass stops before its end, if it does.
    pub open spec fn halt(
        self,
        encoder_id: CommandEncoderId,
        pass: PassData<ComputeCommand>,
    ) -> Option<Halt> {
        match self.encoder_error(encoder_id) {
            Some(e) => Some(Halt::Error(ComputePassError::Encoder(e))),
            None => pass_halt(self.hub, self.command_buffers@[encoder_id]@, pass),
        }
    }

    /// `after` is `self` once the pass has run: the command buffer of the encoder has been
    /// recorded into, unless it cannot be, and nothing else has changed.
    pub open spec fn ran(
        self,
        after: Global,
        encoder_id: CommandEncoderId,
        pass: PassData<ComputeCommand>,
    ) -> bool {
        &&& after.hub == self.hub
        &&& after.command_buffers@.dom() == self.command_buffers@.dom()
        &&& forall|id: CommandEncoderId| #[trigger]
            self.command_buffers@.contains_key(id) && id != encoder_id
                ==> after.command_buffers@[id] == self.command_buffers@[id]
        &&& if self.encoder_error(encoder_id) is Some {
            after.command_buffers@ == self.command_buffers@
        } else {
            after.command_buffers@[encoder_id]@ == after_pass(
                self.hub,
                self.command_buffers@[encoder_id]@,
                pass,
            )
        }
    }

    /// Checks that the encoder exists and is being recorded into.
    pub fn get_encoder(&self, encoder_id: CommandEncoderId) -> (r: Result<
        &CommandBuffer,
        CommandEncoderError,
    >)
        ensures
            match r {
                Ok(buffer) => self.encoder_error(encoder_id) is None && *buffer
                    == self.command_buffers@[encoder_id],
                Err(e) => self.encoder_error(encoder_id) == Some(e),
            },
    {
        match self.command_buffers.get(&encoder_id) {
            None => Err(CommandEncoderError::Invalid),
            Some(buffer) => if buffer.is_recording {
                Ok(buffer)
            } else {
                Err(CommandEncoderError::NotRecording)
            },
        }
    }

    /// Runs a pass, and says why it stopped before its end, if it did. Unlike
    /// [`command_encoder_run_compute_pass_impl`](Global::command_encoder_run_compute_pass_impl)
    /// this may be called on a damaged pass.
    pub fn try_run_compute_pass(
        &mut self,
        encoder_id: CommandEncoderId,
        base: BasePassRef<'_, ComputeCommand>,
    ) -> (r: Result<(), Halt>)
        ensures
            old(self).ran(*final(self), encoder_id, base@),
            r == (match old(self).halt(encoder_id, base@) {
                None => Ok::<(), Halt>(()),
                Some(h) => Err(h),
            }),
    {
        match self.get_encoder(encoder_id) {
            Err(e) => return Err(Halt::Error(ComputePassError::from(e))),
            Ok(_) => {},
        }
        match self.command_buffers.remove(&encoder_id) {
            None => Err(Halt::Error(ComputePassError::Encoder(CommandEncoderError::Invalid))),
            Some(buffer) => {
                let (buffer, result) = buffer.encode_compute_pass(&self.hub, &base);
                self.command_buffers.insert(encoder_id, buffer);
                assert(self.command_buffers@.dom() =~= old(self).command_buffers@.dom());
                result
            },
        }
    }

    /// Runs a pass on a command encoder. If the pass is refused, what the commands before the
    /// refused one amount to has been recorded.
    pub fn command_encoder_run_compute_pass_impl(
        &mut self,
        encoder_id: CommandEncoderId,
        base: BasePassRef<'_, ComputeCommand>,
    ) -> (r: Result<(), ComputePassError>)
        requires
            old(self).halt(encoder_id, base@) != Some(Halt::Fault),
        ensures
            old(self).ran(*final(self), encoder_id, base@),
            match r {
                Ok(()) => old(self).halt(encoder_id, base@) is None,
                Err(e) => old(self).halt(encoder_id, base@) == Some(Halt::Error(e)),
            },
    {
        match self.try_run_compute_pass(encoder_id, base) {
            Err(Halt::Error(e)) => Err(e),
            _ => Ok(()),
        }
    }

    /// Runs a recorded pass on a command encoder.
    pub fn command_encoder_run_compute_pass(
        &mut self,
        encoder_id: CommandEncoderId,
        pass: &ComputePass,
    ) -> (r: Result<(), ComputePassError>)
        requires
            old(self).halt(encoder_id, pass.data()) != Some(Halt::Fault),
        ensures
            old(self).ran(*final(self), encoder_id, pass.data()),
            match r {
                Ok(()) => old(self).halt(encoder_id, pass.data()) is None,
                Err(e) => old(self).halt(encoder_id, pass.data()) == Some(Halt::Error(e)),
            },
    {
        self.command_encoder_run_compute_pass_impl(encoder_id, pass.base.as_ref())
    }
}

/// The words `first..last`.
fn copy_words(words: &[u32], first: usize, last: usize) -> (r: Vec<u32>)
    requires
        first <= last <= words@.len(),
    ensures
        r@ == words@.subrange(first as int, last as int),
{
    let mut r: Vec<u32> = Vec::new();
    let mut i: usize = first;
    while i < last
        invariant
            first <= i <= last <= words@.len(),
            r@ == words@.subrange(first as int, i as int),
        decreases last - i,
    {
        r.push(words[i]);
        i = i + 1;
        assert(r@ =~= words@.subrange(first as int, i as int));
    }
    r
}

} // verus!
