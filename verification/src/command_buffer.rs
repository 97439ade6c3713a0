//! Command buffers that are being recorded.
use vstd::prelude::*;

use crate::compute::{BasePass, ComputeCommand, PassData};
use crate::id::{BindGroupId, BufferId, ComputePipelineId};
use crate::raw::{raw_of, RawCommand, RawModel};

verus! {

/// The resources that a command buffer uses, each once, in the order of their first use.
#[derive(Debug)]
pub struct TrackerSet {
    pub bind_groups: Vec<BindGroupId>,
    pub compute_pipes: Vec<ComputePipelineId>,
    /// The buffers that hold indirect arguments.
    pub buffers: Vec<BufferId>,
}

/// What a [`TrackerSet`] stands for.
#[verifier::ext_equal]
pub struct TrackerModel {
    pub bind_groups: Seq<BindGroupId>,
    pub compute_pipes: Seq<ComputePipelineId>,
    pub buffers: Seq<BufferId>,
}

impl View for TrackerSet {
    type V = TrackerModel;

    open spec fn view(&self) -> TrackerModel {
        TrackerModel {
            bind_groups: self.bind_groups@,
            compute_pipes: self.compute_pipes@,
            buffers: self.buffers@,
        }
    }
}

/// The resources in use once `id` is used too.
pub open spec fn with_use(ids: Seq<u64>, id: u64) -> Seq<u64> {
    if ids.contains(id) {
        ids
    } else {
        ids.push(id)
    }
}

/// Notes that `id` is used.
pub fn track(ids: &mut Vec<u64>, id: u64)
    ensures
        final(ids)@ == with_use(old(ids)@, id),
{
    let mut i: usize = 0;
    while i < ids.len()
        invariant
            i <= ids@.len(),
            ids@ == old(ids)@,
            forall|j: int| 0 <= j < i ==> ids@[j] != id,
        decreases ids@.len() - i,
    {
        if ids[i] == id {
            assert(ids@.contains(id)) by {
                assert(ids@[i as int] == id);
            }
            return;
        }
        i = i + 1;
    }
    ids.push(id);
}

#[derive(Clone, Copy, Debug, PartialEq, Eq, Structural)]
pub struct Limits {
    pub max_bind_groups: u32,
}

/// An entry of the trace that a device may keep of what is asked of it.
#[derive(Debug)]
pub enum TraceCommand {
    RunComputePass { base: BasePass<ComputeCommand> },
}

impl View for TraceCommand {
    type V = PassData<ComputeCommand>;

    open spec fn view(&self) -> PassData<ComputeCommand> {
        match *self {
            TraceCommand::RunComputePass { base } => base@,
        }
    }
}

/// A command buffer, as long as commands are recorded into it.
#[derive(Debug)]
pub struct CommandBuffer {
    pub is_recording: bool,
    pub limits: Limits,
    /// The raw command buffers that make it up; commands go into the last.
    pub raw: Vec<Vec<RawCommand>>,
    pub trackers: TrackerSet,
    /// The trace of the passes run, if one is kept.
    pub commands: Option<Vec<TraceCommand>>,
}

/// What a [`CommandBuffer`] stands for.
#[verifier::ext_equal]
pub struct CommandBufferModel {
    pub is_recording: bool,
    pub limits: Limits,
    pub raw: Seq<Seq<RawModel>>,
    pub trackers: TrackerModel,
    pub commands: Option<Seq<PassData<ComputeCommand>>>,
}

impl View for CommandBuffer {
    type V = CommandBufferModel;

    open spec fn view(&self) -> CommandBufferModel {
        CommandBufferModel {
            is_recording: self.is_recording,
            limits: self.limits,
            raw: self.raw@.map_values(|r: Vec<RawCommand>| raw_of(r@)),
            trackers: self.trackers@,
            commands: match self.commands {
                Some(list) => Some(list@.map_values(|c: TraceCommand| c@)),
                None => None,
            },
        }
    }
}

} // verus!
