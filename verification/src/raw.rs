//! The commands that a compute pass hands to the graphics backend.
use arrayvec::ArrayVec;
use vstd::prelude::*;

use crate::id::{
    BindGroupId, BufferAddress, BufferId, ComputePipelineId, DynamicOffset, PipelineLayoutId,
    MAX_BIND_GROUPS,
};

verus! {

/// The bind groups of one binding command, in the order of their slots. They live in an
/// `arrayvec::ArrayVec`, so that no allocation is made for them. The struct is opaque because
/// `ArrayVec` is bounded by a trait of its own crate and cannot be declared to the verifier as it
/// stands.
#[verifier::external_body]
#[derive(Debug)]
pub struct DescriptorSets {
    list: ArrayVec<[BindGroupId; MAX_BIND_GROUPS]>,
}

/// The bind groups in a list, from the first.
pub uninterp spec fn sets_in(sets: DescriptorSets) -> Seq<BindGroupId>;

/// The items that a list of at most [`MAX_BIND_GROUPS`] takes from `ids`.
pub open spec fn capped(ids: Seq<BindGroupId>) -> Seq<BindGroupId> {
    if ids.len() <= MAX_BIND_GROUPS {
        ids
    } else {
        ids.take(MAX_BIND_GROUPS as int)
    }
}

/// Collects with `<arrayvec::ArrayVec as FromIterator>::from_iter`. Claimed of it: the items are
/// kept in their order from the first, and those beyond the capacity are left out.
#[verifier::external_body]
fn array_vec_from_iter(ids: Vec<BindGroupId>) -> (r: DescriptorSets)
    ensures
        sets_in(r) == capped(ids@),
{
    DescriptorSets { list: ArrayVec::from_iter(ids) }
}

/// Reads with `arrayvec::ArrayVec::as_slice`. Claimed of it: the slice holds the items, in their
/// order.
#[verifier::external_body]
fn array_vec_as_slice(sets: &DescriptorSets) -> (r: &[BindGroupId])
    ensures
        r@ == sets_in(*sets),
{
    sets.list.as_slice()
}

impl DescriptorSets {
    /// The first [`MAX_BIND_GROUPS`] of `ids`.
    pub fn collect(ids: Vec<BindGroupId>) -> (r: DescriptorSets)
        ensures
            sets_in(r) == capped(ids@),
    {
        array_vec_from_iter(ids)
    }

    /// The bind groups, from the first.
    pub fn as_slice(&self) -> (r: &[BindGroupId])
        ensures
            r@ == sets_in(*self),
    {
        array_vec_as_slice(self)
    }
}

/// One command for the graphics backend.
#[derive(Debug)]
pub enum RawCommand {
    /// Moves everything that a bind group uses into the state that the group needs.
    InsertBarriers { bind_group_id: BindGroupId },
    /// Binds `sets` to the slots from `first_set` on.
    BindComputeDescriptorSets {
        layout_id: PipelineLayoutId,
        first_set: usize,
        sets: DescriptorSets,
        offsets: Vec<DynamicOffset>,
    },
    BindComputePipeline(ComputePipelineId),
    /// Writes `data` into the push constant block from byte `offset` on.
    PushComputeConstants { layout_id: PipelineLayoutId, offset: u32, data: Vec<u32> },
    Dispatch([u32; 3]),
    /// Moves a buffer into the state for indirect arguments.
    TransitionToIndirect { buffer_id: BufferId },
    DispatchIndirect { buffer_id: BufferId, offset: BufferAddress },
    BeginDebugMarker { label: String, color: u32 },
    EndDebugMarker,
    InsertDebugMarker { label: String, color: u32 },
}

/// What a [`RawCommand`] stands for.
#[verifier::ext_equal]
pub enum RawModel {
    InsertBarriers { bind_group_id: BindGroupId },
    BindComputeDescriptorSets {
        layout_id: PipelineLayoutId,
        first_set: int,
        sets: Seq<BindGroupId>,
        offsets: Seq<DynamicOffset>,
    },
    BindComputePipeline(ComputePipelineId),
    PushComputeConstants { layout_id: PipelineLayoutId, offset: u32, data: Seq<u32> },
    Dispatch([u32; 3]),
    TransitionToIndirect { buffer_id: BufferId },
    DispatchIndirect { buffer_id: BufferId, offset: BufferAddress },
    BeginDebugMarker { label: Seq<char>, color: u32 },
    EndDebugMarker,
    InsertDebugMarker { label: Seq<char>, color: u32 },
}

impl View for RawCommand {
    type V = RawModel;

    open spec fn view(&self) -> RawModel {
        match *self {
            RawCommand::InsertBarriers { bind_group_id } => RawModel::InsertBarriers {
                bind_group_id,
            },
            RawCommand::BindComputeDescriptorSets { layout_id, first_set, sets, offsets } => {
                RawModel::BindComputeDescriptorSets {
                    layout_id,
                    first_set: first_set as int,
                    sets: sets_in(sets),
                    offsets: offsets@,
                }
            },
            RawCommand::BindComputePipeline(id) => RawModel::BindComputePipeline(id),
            RawCommand::PushComputeConstants { layout_id, offset, data } => {
                RawModel::PushComputeConstants { layout_id, offset, data: data@ }
            },
            RawCommand::Dispatch(groups) => RawModel::Dispatch(groups),
            RawCommand::TransitionToIndirect { buffer_id } => RawModel::TransitionToIndirect {
                buffer_id,
            },
            RawCommand::DispatchIndirect { buffer_id, offset } => RawModel::DispatchIndirect {
                buffer_id,
                offset,
            },
            RawCommand::BeginDebugMarker { label, color } => RawModel::BeginDebugMarker {
                label: label@,
                color,
            },
            RawCommand::EndDebugMarker => RawModel::EndDebugMarker,
            RawCommand::InsertDebugMarker { label, color } => RawModel::InsertDebugMarker {
                label: label@,
                color,
            },
        }
    }
}

/// What a list of raw commands stands for.
pub open spec fn raw_of(commands: Seq<RawCommand>) -> Seq<RawModel> {
    commands.map_values(|c: RawCommand| c@)
}

} // verus!
