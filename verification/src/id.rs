//! Resource identifiers and the small vocabulary shared by every module.
//!
//! An identifier is an opaque 64-bit name for a resource that lives in a [`Hub`](crate::hub::Hub).
use vstd::prelude::*;

verus! {

pub type CommandEncoderId = u64;

pub type BindGroupId = u64;

pub type BindGroupLayoutId = u64;

pub type PipelineLayoutId = u64;

pub type ComputePipelineId = u64;

pub type BufferId = u64;

pub type TextureId = u64;

/// A byte position inside a buffer.
pub type BufferAddress = u64;

/// A byte offset applied to a dynamic binding when its bind group is bound.
pub type DynamicOffset = u32;

/// A set of buffer usages, one bit each.
pub type BufferUsage = u32;

/// The bit of [`BufferUsage`] that lets a buffer hold indirect dispatch arguments.
pub const BUFFER_USAGE_INDIRECT: BufferUsage = 256;

/// A set of shader stages, one bit each.
pub type ShaderStage = u32;

/// The bit of [`ShaderStage`] for compute shaders.
pub const SHADER_STAGE_COMPUTE: ShaderStage = 4;

/// The most bind groups that any device offers.
pub const MAX_BIND_GROUPS: usize = 8;

/// Push constants are addressed in units of this many bytes.
pub const PUSH_CONSTANT_ALIGNMENT: u32 = 4;

/// Dynamic offsets are multiples of this many bytes.
pub const BIND_BUFFER_ALIGNMENT: BufferAddress = 256;

/// The bytes `start..end` of the push constant block, visible to `stages`.
#[derive(Clone, Copy, Debug, PartialEq, Eq, Structural)]
pub struct PushConstantRange {
    pub stages: ShaderStage,
    pub start: u32,
    pub end: u32,
}

/// Whether every flag of `part` is also in `whole`.
pub open spec fn has_all(whole: u32, part: u32) -> bool {
    whole & part == part
}

/// Whether `a` and `b` share a flag.
pub open spec fn has_any(a: u32, b: u32) -> bool {
    a & b != 0
}

} // verus!
