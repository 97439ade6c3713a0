//! The resources that a compute pass refers to.
use std::collections::HashMap;
use vstd::prelude::*;

use crate::error::{BindError, MissingBufferUsageError};
use crate::id::{
    has_all, BindGroupId, BindGroupLayoutId, BufferAddress, BufferId, BufferUsage,
    ComputePipelineId, DynamicOffset, PipelineLayoutId, PushConstantRange, BIND_BUFFER_ALIGNMENT,
};

verus! {

/// A binding whose place in its buffer is chosen when the bind group is bound.
#[derive(Clone, Copy, Debug, PartialEq, Eq, Structural)]
pub struct DynamicBinding {
    /// The largest offset with which the binding still lies inside its buffer.
    pub maximum_dynamic_offset: BufferAddress,
}

/// A group of resources that is bound as a whole.
#[derive(Debug)]
pub struct BindGroup {
    pub layout_id: BindGroupLayoutId,
    /// The dynamic bindings, in the order in which their offsets are given.
    pub dynamic_binding_info: Vec<DynamicBinding>,
}

/// The bind group layouts and push constant ranges that a pipeline works with.
#[derive(Debug)]
pub struct PipelineLayout {
    pub bind_group_layout_ids: Vec<BindGroupLayoutId>,
    pub push_constant_ranges: Vec<PushConstantRange>,
}

#[derive(Clone, Copy, Debug, PartialEq, Eq, Structural)]
pub struct ComputePipeline {
    pub layout_id: PipelineLayoutId,
}

#[derive(Clone, Copy, Debug, PartialEq, Eq, Structural)]
pub struct Buffer {
    pub usage: BufferUsage,
}

/// Every resource of a device, by name. A name that is absent is invalid.
#[derive(Debug)]
pub struct Hub {
    pub bind_groups: HashMap<BindGroupId, BindGroup>,
    pub compute_pipelines: HashMap<ComputePipelineId, ComputePipeline>,
    pub pipeline_layouts: HashMap<PipelineLayoutId, PipelineLayout>,
    pub buffers: HashMap<BufferId, Buffer>,
}

/// What is wrong with one dynamic offset, if anything.
pub open spec fn offset_fault(info: DynamicBinding, idx: int, offset: DynamicOffset) -> Option<
    BindError,
> {
    if offset as int % BIND_BUFFER_ALIGNMENT as int != 0 {
        Some(BindError::UnalignedDynamicBinding { idx: idx as usize, offset })
    } else if offset > info.maximum_dynamic_offset {
        Some(
            BindError::DynamicBindingOutOfBounds {
                idx: idx as usize,
                offset,
                max: info.maximum_dynamic_offset,
            },
        )
    } else {
        None
    }
}

/// The fault of the first offset among the first `n` that has one.
pub open spec fn first_offset_fault(
    infos: Seq<DynamicBinding>,
    offsets: Seq<DynamicOffset>,
    n: int,
) -> Option<BindError>
    decreases n,
{
    if n <= 0 {
        None
    } else {
        match first_offset_fault(infos, offsets, n - 1) {
            Some(e) => Some(e),
            None => offset_fault(infos[n - 1], n - 1, offsets[n - 1]),
        }
    }
}

/// What is wrong with `offsets` as the dynamic offsets of a bind group, if anything.
pub open spec fn dynamic_binding_fault(
    infos: Seq<DynamicBinding>,
    offsets: Seq<DynamicOffset>,
) -> Option<BindError> {
    if infos.len() != offsets.len() {
        Some(
            BindError::MismatchedDynamicOffsetCount {
                actual: offsets.len() as usize,
                expected: infos.len() as usize,
            },
        )
    } else {
        first_offset_fault(infos, offsets, infos.len() as int)
    }
}

/// `Err` with the fault, if there is one.
pub open spec fn verdict<E>(fault: Option<E>) -> Result<(), E> {
    match fault {
        Some(e) => Err(e),
        None => Ok(()),
    }
}

proof fn lemma_first_offset_fault_stays(
    infos: Seq<DynamicBinding>,
    offsets: Seq<DynamicOffset>,
    m: int,
    n: int,
)
    requires
        0 <= m <= n,
        first_offset_fault(infos, offsets, m) is Some,
    ensures
        first_offset_fault(infos, offsets, n) == first_offset_fault(infos, offsets, m),
    decreases n,
{
    if m < n {
        lemma_first_offset_fault_stays(infos, offsets, m, n - 1);
    }
}

impl BindGroup {
    /// Checks that there is one offset for each dynamic binding, that each is aligned, and that
    /// each keeps its binding inside the buffer. The first fault is reported.
    pub fn validate_dynamic_bindings(&self, offsets: &[DynamicOffset]) -> (r: Result<(), BindError>)
        ensures
            r == verdict(dynamic_binding_fault(self.dynamic_binding_info@, offsets@)),
    {
        let count: usize = self.dynamic_binding_info.len();
        if count != offsets.len() {
            return Err(
                BindError::MismatchedDynamicOffsetCount { actual: offsets.len(), expected: count },
            );
        }
        let mut idx: usize = 0;
        while idx < count
            invariant
                idx <= count,
                count == self.dynamic_binding_info@.len(),
                count == offsets@.len(),
                first_offset_fault(self.dynamic_binding_info@, offsets@, idx as int) is None,
            decreases count - idx,
        {
            let info = self.dynamic_binding_info[idx];
            let offset: DynamicOffset = offsets[idx];
            proof {
                if offset_fault(info, idx as int, offset) is Some {
                    lemma_first_offset_fault_stays(
                        self.dynamic_binding_info@,
                        offsets@,
                        idx + 1,
                        count as int,
                    );
                }
            }
            if offset as BufferAddress % BIND_BUFFER_ALIGNMENT != 0 {
                return Err(BindError::UnalignedDynamicBinding { idx, offset });
            }
            if offset as BufferAddress > info.maximum_dynamic_offset {
                return Err(
                    BindError::DynamicBindingOutOfBounds {
                        idx,
                        offset,
                        max: info.maximum_dynamic_offset,
                    },
                );
            }
            idx = idx + 1;
        }
        Ok(())
    }
}

/// Checks that a buffer of usage `actual` may be used as `expected`.
pub fn check_buffer_usage(actual: BufferUsage, expected: BufferUsage) -> (r: Result<
    (),
    MissingBufferUsageError,
>)
    ensures
        r == (if has_all(actual, expected) {
            Ok::<(), MissingBufferUsageError>(())
        } else {
            Err(MissingBufferUsageError { actual, expected })
        }),
{
    if actual & expected == expected {
        Ok(())
    } else {
        Err(MissingBufferUsageError { actual, expected })
    }
}

} // verus!
