//! Recording commands into a compute pass.
use vstd::prelude::*;

use crate::compute::{lemma_record_well_formed, ComputeCommand, ComputePass, PassData};
use crate::id::{
    BindGroupId, BufferAddress, BufferId, ComputePipelineId, DynamicOffset,
    PUSH_CONSTANT_ALIGNMENT,
};
use crate::text::{u32_from_ne_bytes, words_ne};

verus! {

/// The pass is `data` now, still belongs to the same encoder, and is well formed if it was so
/// before.
pub open spec fn recorded(
    before: ComputePass,
    after: ComputePass,
    data: PassData<ComputeCommand>,
) -> bool {
    &&& after.data() == data
    &&& after.parent_id == before.parent_id
    &&& before.data().well_formed() ==> after.data().well_formed()
}

fn push_bare(pass: &mut ComputePass, command: ComputeCommand)
    requires
        command is SetPipeline || command is Dispatch || command is DispatchIndirect
            || command is PopDebugGroup,
    ensures
        recorded(*old(pass), *final(pass), old(pass).data().record_bare(command)),
{
    pass.base.commands.push(command);
    proof {
        let before = old(pass).data();
        assert(pass.data() =~= before.record_bare(command));
        if before.well_formed() {
            lemma_record_well_formed(before, command, Seq::empty(), Seq::empty(), Seq::empty());
        }
    }
}

fn push_text(pass: &mut ComputePass, command: ComputeCommand, text: &[u8])
    requires
        match command {
            ComputeCommand::PushDebugGroup { len, .. } => len == text@.len(),
            ComputeCommand::InsertDebugMarker { len, .. } => len == text@.len(),
            _ => false,
        },
    ensures
        recorded(
            *old(pass),
            *final(pass),
            old(pass).data().record(command, Seq::empty(), text@, Seq::empty()),
        ),
{
    pass.base.string_data.extend_from_slice(text);
    pass.base.commands.push(command);
    proof {
        let before = old(pass).data();
        assert(pass.data() =~= before.record(command, Seq::empty(), text@, Seq::empty()));
        if before.well_formed() {
            lemma_record_well_formed(before, command, Seq::empty(), text@, Seq::empty());
        }
    }
}

/// Records that a bind group goes into slot `index`, with these dynamic offsets.
pub fn wgpu_compute_pass_set_bind_group(
    pass: &mut ComputePass,
    index: u32,
    bind_group_id: BindGroupId,
    offsets: &[DynamicOffset],
)
    requires
        index <= u8::MAX,
        offsets@.len() <= u8::MAX,
    ensures
        recorded(
            *old(pass),
            *final(pass),
            old(pass).data().record(
                (ComputeCommand::SetBindGroup {
                    index: index as u8,
                    num_dynamic_offsets: offsets@.len() as u8,
                    bind_group_id,
                }),
                offsets@,
                Seq::empty(),
                Seq::empty(),
            ),
        ),
{
    let command = ComputeCommand::SetBindGroup {
        index: index as u8,
        num_dynamic_offsets: offsets.len() as u8,
        bind_group_id,
    };
    pass.base.commands.push(command);
    pass.base.dynamic_offsets.extend_from_slice(offsets);
    proof {
        let before = old(pass).data();
        assert(pass.data() =~= before.record(command, offsets@, Seq::empty(), Seq::empty()));
        if before.well_formed() {
            lemma_record_well_formed(before, command, offsets@, Seq::empty(), Seq::empty());
        }
    }
}

/// Records that a pipeline becomes the current one.
pub fn wgpu_compute_pass_set_pipeline(pass: &mut ComputePass, pipeline_id: ComputePipelineId)
    ensures
        recorded(
            *old(pass),
            *final(pass),
            old(pass).data().record_bare(ComputeCommand::SetPipeline(pipeline_id)),
        ),
{
    push_bare(pass, ComputeCommand::SetPipeline(pipeline_id));
}

/// Records that `data` is written into the push constant block at byte `offset`. The bytes are
/// taken as words in the byte order of the machine.
pub fn wgpu_compute_pass_set_push_constant(
    pass: &mut ComputePass,
    offset: u32,
    size_bytes: u32,
    data: &[u8],
)
    requires
        offset % PUSH_CONSTANT_ALIGNMENT == 0,
        size_bytes % PUSH_CONSTANT_ALIGNMENT == 0,
        data@.len() == size_bytes,
        old(pass).data().push_constant_data.len() <= u32::MAX,
    ensures
        recorded(
            *old(pass),
            *final(pass),
            old(pass).data().record(
                (ComputeCommand::SetPushConstant {
                    offset,
                    size_bytes,
                    values_offset: old(pass).data().push_constant_data.len() as u32,
                }),
                Seq::empty(),
                Seq::empty(),
                words_ne(data@),
            ),
        ),
{
    let value_offset: u32 = pass.base.push_constant_data.len() as u32;
    let len: usize = data.len();
    let count: usize = len / 4;
    let ghost before = pass.data();
    let mut i: usize = 0;
    while i < count
        invariant
            i <= count,
            len == data@.len(),
            count == len / 4,
            pass.data() == (PassData {
                push_constant_data: before.push_constant_data + words_ne(data@).take(i as int),
                ..before
            }),
            pass.parent_id == old(pass).parent_id,
        decreases count - i,
    {
        let at: usize = 4 * i;
        let bytes: [u8; 4] = [data[at], data[at + 1], data[at + 2], data[at + 3]];
        let word: u32 = u32_from_ne_bytes(bytes);
        pass.base.push_constant_data.push(word);
        assert(bytes@ =~= data@.subrange(4 * i, 4 * i + 4));
        assert(words_ne(data@)[i as int] == word);
        assert(words_ne(data@).take(i + 1) =~= words_ne(data@).take(i as int).push(word));
        i = i + 1;
        assert(pass.data() =~= (PassData {
            push_constant_data: before.push_constant_data + words_ne(data@).take(i as int),
            ..before
        }));
    }
    let command = ComputeCommand::SetPushConstant {
        offset,
        size_bytes,
        values_offset: value_offset,
    };
    pass.base.commands.push(command);
    proof {
        let words = words_ne(data@);
        assert(words.take(count as int) =~= words);
        assert(pass.data() =~= before.record(command, Seq::empty(), Seq::empty(), words));
        if before.well_formed() {
            lemma_record_well_formed(before, command, Seq::empty(), Seq::empty(), words);
        }
    }
}

/// Records a dispatch of `groups_x * groups_y * groups_z` work groups.
pub fn wgpu_compute_pass_dispatch(
    pass: &mut ComputePass,
    groups_x: u32,
    groups_y: u32,
    groups_z: u32,
)
    ensures
        recorded(
            *old(pass),
            *final(pass),
            old(pass).data().record_bare(
                ComputeCommand::Dispatch([groups_x, groups_y, groups_z]),
            ),
        ),
{
    push_bare(pass, ComputeCommand::Dispatch([groups_x, groups_y, groups_z]));
}

/// Records a dispatch whose work group counts lie in a buffer.
pub fn wgpu_compute_pass_dispatch_indirect(
    pass: &mut ComputePass,
    buffer_id: BufferId,
    offset: BufferAddress,
)
    ensures
        recorded(
            *old(pass),
            *final(pass),
            old(pass).data().record_bare(ComputeCommand::DispatchIndirect { buffer_id, offset }),
        ),
{
    push_bare(pass, ComputeCommand::DispatchIndirect { buffer_id, offset });
}

/// Records that a debug group opens. Encoding the pass needs the label to be UTF-8.
pub fn wgpu_compute_pass_push_debug_group(pass: &mut ComputePass, label: &[u8], color: u32)
    ensures
        recorded(
            *old(pass),
            *final(pass),
            old(pass).data().record(
                (ComputeCommand::PushDebugGroup { color, len: label@.len() as usize }),
                Seq::empty(),
                label@,
                Seq::empty(),
            ),
        ),
{
    push_text(pass, ComputeCommand::PushDebugGroup { color, len: label.len() }, label);
}

/// Records that the innermost open debug group closes.
pub fn wgpu_compute_pass_pop_debug_group(pass: &mut ComputePass)
    ensures
        recorded(
            *old(pass),
            *final(pass),
            old(pass).data().record_bare(ComputeCommand::PopDebugGroup),
        ),
{
    push_bare(pass, ComputeCommand::PopDebugGroup);
}

/// Records a mark. Encoding the pass needs the label to be UTF-8.
pub fn wgpu_compute_pass_insert_debug_marker(pass: &mut ComputePass, label: &[u8], color: u32)
    ensures
        recorded(
            *old(pass),
            *final(pass),
            old(pass).data().record(
                (ComputeCommand::InsertDebugMarker { color, len: label@.len() as usize }),
                Seq::empty(),
                label@,
                Seq::empty(),
            ),
        ),
{
    push_text(pass, ComputeCommand::InsertDebugMarker { color, len: label.len() }, label);
}

} // verus!
