//! The ways in which a compute pass can be refused.
use vstd::prelude::*;

use crate::id::{
    BindGroupId, BufferAddress, BufferId, BufferUsage, ComputePipelineId, DynamicOffset,
    PushConstantRange, ShaderStage, TextureId,
};

verus! {

/// Why a command encoder cannot be recorded into.
#[derive(Clone, Copy, Debug, PartialEq, Eq, Structural)]
pub enum CommandEncoderError {
    /// There is no encoder of that name.
    Invalid,
    /// The encoder has been finished.
    NotRecording,
}

/// The indices `start..end` of a mip level or array layer.
#[derive(Clone, Copy, Debug, PartialEq, Eq, Structural)]
pub struct IndexRange {
    pub start: u32,
    pub end: u32,
}

/// A resource was asked to be in two states at once.
#[derive(Clone, Copy, Debug, PartialEq, Eq, Structural)]
pub enum UsageConflict {
    Buffer { id: BufferId, combined_use: u32 },
    Texture {
        id: TextureId,
        mip_levels: IndexRange,
        array_layers: IndexRange,
        combined_use: u32,
    },
}

/// A buffer lacks a usage that the operation needs.
#[derive(Clone, Copy, Debug, PartialEq, Eq, Structural)]
pub struct MissingBufferUsageError {
    pub actual: BufferUsage,
    pub expected: BufferUsage,
}

/// The dynamic offsets handed to a bind group do not suit it.
#[derive(Clone, Copy, Debug, PartialEq, Eq, Structural)]
pub enum BindError {
    /// There is not one offset for each dynamic binding.
    MismatchedDynamicOffsetCount { actual: usize, expected: usize },
    /// An offset is no multiple of `BIND_BUFFER_ALIGNMENT`.
    UnalignedDynamicBinding { idx: usize, offset: DynamicOffset },
    /// An offset reaches past the end of the bound buffer.
    DynamicBindingOutOfBounds { idx: usize, offset: DynamicOffset, max: BufferAddress },
}

/// Push constants do not fit the ranges of the current pipeline layout.
#[derive(Clone, Copy, Debug, PartialEq, Eq, Structural)]
pub enum PushConstantUploadError {
    /// The upload reaches outside a range that it addresses.
    TooLarge { offset: u32, end_offset: u32, idx: usize, range: PushConstantRange },
    /// A range is visible to some of the stages addressed, and to others as well.
    PartialRangeMatch { actual: ShaderStage, idx: usize, matched: ShaderStage },
    /// The upload overlaps a range of stages that it does not address.
    MissingStages { actual: ShaderStage, idx: usize, missing: ShaderStage },
    /// No range is visible to some of the stages addressed.
    UnmatchedStages { actual: ShaderStage, unmatched: ShaderStage },
    /// The offset is no multiple of `PUSH_CONSTANT_ALIGNMENT`.
    Unaligned(u32),
}

/// Why a dispatch cannot be recorded in the current state.
#[derive(Clone, Copy, Debug, PartialEq, Eq, Structural)]
pub enum DispatchError {
    /// No compute pipeline is set.
    MissingPipeline,
    /// The bind group in slot `index` does not suit the layout of the current pipeline; `index` is
    /// the first such slot.
    IncompatibleBindGroup { index: u32 },
}

/// Why a compute pass was refused.
#[derive(Clone, Copy, Debug, PartialEq, Eq, Structural)]
pub enum ComputePassError {
    Encoder(CommandEncoderError),
    InvalidBindGroup(BindGroupId),
    /// The slot `index` is not below the device's limit `max`.
    BindGroupIndexOutOfRange { index: u8, max: u32 },
    InvalidPipeline(ComputePipelineId),
    InvalidIndirectBuffer(BufferId),
    /// Kept for callers that merge usage scopes; no command of a pass gives it.
    ResourceUsageConflict(UsageConflict),
    MissingBufferUsage(MissingBufferUsageError),
    /// A debug group was closed while none was open.
    InvalidPopDebugGroup,
    Dispatch(DispatchError),
    Bind(BindError),
    PushConstants(PushConstantUploadError),
}

/// Why a pass stops before its end.
#[derive(Clone, Copy, Debug, PartialEq, Eq, Structural)]
pub enum Halt {
    /// The pass is refused.
    Error(ComputePassError),
    /// The pass is damaged: a command refers to data or to a layout that does not exist, a label
    /// is not UTF-8, or a number overflows.
    Fault,
}

impl From<CommandEncoderError> for ComputePassError {
    fn from(error: CommandEncoderError) -> (r: ComputePassError) {
        ComputePassError::Encoder(error)
    }
}

impl vstd::std_specs::convert::FromSpecImpl<CommandEncoderError> for ComputePassError {
    open spec fn obeys_from_spec() -> bool {
        true
    }

    open spec fn from_spec(error: CommandEncoderError) -> ComputePassError {
        ComputePassError::Encoder(error)
    }
}

impl From<MissingBufferUsageError> for ComputePassError {
    fn from(error: MissingBufferUsageError) -> (r: ComputePassError) {
        ComputePassError::MissingBufferUsage(error)
    }
}

impl vstd::std_specs::convert::FromSpecImpl<MissingBufferUsageError> for ComputePassError {
    open spec fn obeys_from_spec() -> bool {
        true
    }

    open spec fn from_spec(error: MissingBufferUsageError) -> ComputePassError {
        ComputePassError::MissingBufferUsage(error)
    }
}

impl From<DispatchError> for ComputePassError {
    fn from(error: DispatchError) -> (r: ComputePassError) {
        ComputePassError::Dispatch(error)
    }
}

impl vstd::std_specs::convert::FromSpecImpl<DispatchError> for ComputePassError {
    open spec fn obeys_from_spec() -> bool {
        true
    }

    open spec fn from_spec(error: DispatchError) -> ComputePassError {
        ComputePassError::Dispatch(error)
    }
}

impl From<BindError> for ComputePassError {
    fn from(error: BindError) -> (r: ComputePassError) {
        ComputePassError::Bind(error)
    }
}

impl vstd::std_specs::convert::FromSpecImpl<BindError> for ComputePassError {
    open spec fn obeys_from_spec() -> bool {
        true
    }

    open spec fn from_spec(error: BindError) -> ComputePassError {
        ComputePassError::Bind(error)
    }
}

impl From<PushConstantUploadError> for ComputePassError {
    fn from(error: PushConstantUploadError) -> (r: ComputePassError) {
        ComputePassError::PushConstants(error)
    }
}

impl vstd::std_specs::convert::FromSpecImpl<PushConstantUploadError> for ComputePassError {
    open spec fn obeys_from_spec() -> bool {
        true
    }

    open spec fn from_spec(error: PushConstantUploadError) -> ComputePassError {
        ComputePassError::PushConstants(error)
    }
}

} // verus!
