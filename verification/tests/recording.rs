//! Recording commands into a pass.
use compute_pass::compute::{BasePass, ComputeCommand, ComputePass, ComputePassDescriptor};
use compute_pass::compute_ffi::{
    wgpu_compute_pass_dispatch, wgpu_compute_pass_dispatch_indirect,
    wgpu_compute_pass_insert_debug_marker, wgpu_compute_pass_pop_debug_group,
    wgpu_compute_pass_push_debug_group, wgpu_compute_pass_set_bind_group,
    wgpu_compute_pass_set_pipeline, wgpu_compute_pass_set_push_constant,
};

#[test]
fn new_pass_is_empty() {
    let pass = ComputePass::new(17);
    assert_eq!(pass.parent_id(), 17);
    assert!(pass.base.commands.is_empty());
    assert!(pass.base.dynamic_offsets.is_empty());
    assert!(pass.base.string_data.is_empty());
    assert!(pass.base.push_constant_data.is_empty());
}

#[test]
fn descriptor_default_is_zero() {
    assert_eq!(ComputePassDescriptor::default().todo, 0);
}

#[test]
fn debug_string_counts_commands_and_offsets() {
    let mut pass = ComputePass::new(1234567890123);
    assert_eq!(
        pass.debug_string(),
        "ComputePass { encoder_id: 1234567890123, data: 0 commands and 0 dynamic offsets }"
    );
    wgpu_compute_pass_set_bind_group(&mut pass, 0, 5, &[256, 512]);
    for _ in 0..9 {
        wgpu_compute_pass_pop_debug_group(&mut pass);
    }
    assert_eq!(
        pass.debug_string(),
        "ComputePass { encoder_id: 1234567890123, data: 10 commands and 2 dynamic offsets }"
    );
}

#[test]
fn set_bind_group_appends_offsets() {
    let mut pass = ComputePass::new(1);
    wgpu_compute_pass_set_bind_group(&mut pass, 3, 40, &[256, 0]);
    wgpu_compute_pass_set_bind_group(&mut pass, 255, 41, &[]);
    wgpu_compute_pass_set_bind_group(&mut pass, 0, 42, &[512]);
    assert_eq!(
        pass.base.commands,
        vec![
            ComputeCommand::SetBindGroup { index: 3, num_dynamic_offsets: 2, bind_group_id: 40 },
            ComputeCommand::SetBindGroup { index: 255, num_dynamic_offsets: 0, bind_group_id: 41 },
            ComputeCommand::SetBindGroup { index: 0, num_dynamic_offsets: 1, bind_group_id: 42 },
        ]
    );
    assert_eq!(pass.base.dynamic_offsets, vec![256, 0, 512]);
}

#[test]
fn set_bind_group_takes_255_offsets() {
    let mut pass = ComputePass::new(1);
    let offsets = vec![256u32; 255];
    wgpu_compute_pass_set_bind_group(&mut pass, 0, 40, &offsets);
    assert_eq!(
        pass.base.commands,
        vec![ComputeCommand::SetBindGroup {
            index: 0,
            num_dynamic_offsets: 255,
            bind_group_id: 40
        }]
    );
    assert_eq!(pass.base.dynamic_offsets, offsets);
}

#[test]
fn set_push_constant_reads_native_words() {
    let mut pass = ComputePass::new(1);
    let mut bytes = Vec::new();
    bytes.extend_from_slice(&0x0102_0304u32.to_ne_bytes());
    bytes.extend_from_slice(&0xffff_fffeu32.to_ne_bytes());
    wgpu_compute_pass_set_push_constant(&mut pass, 8, 8, &bytes);
    wgpu_compute_pass_set_push_constant(&mut pass, 0, 4, &7u32.to_ne_bytes());
    wgpu_compute_pass_set_push_constant(&mut pass, 0, 0, &[]);
    assert_eq!(pass.base.push_constant_data, vec![0x0102_0304, 0xffff_fffe, 7]);
    assert_eq!(
        pass.base.commands,
        vec![
            ComputeCommand::SetPushConstant { offset: 8, size_bytes: 8, values_offset: 0 },
            ComputeCommand::SetPushConstant { offset: 0, size_bytes: 4, values_offset: 2 },
            ComputeCommand::SetPushConstant { offset: 0, size_bytes: 0, values_offset: 3 },
        ]
    );
}

#[test]
fn other_commands_carry_their_arguments() {
    let mut pass = ComputePass::new(1);
    wgpu_compute_pass_set_pipeline(&mut pass, 9);
    wgpu_compute_pass_dispatch(&mut pass, 1, 2, 3);
    wgpu_compute_pass_dispatch_indirect(&mut pass, 11, 64);
    wgpu_compute_pass_push_debug_group(&mut pass, "h\u{e9}".as_bytes(), 0xff);
    wgpu_compute_pass_insert_debug_marker(&mut pass, b"mark", 0);
    wgpu_compute_pass_pop_debug_group(&mut pass);
    assert_eq!(
        pass.base.commands,
        vec![
            ComputeCommand::SetPipeline(9),
            ComputeCommand::Dispatch([1, 2, 3]),
            ComputeCommand::DispatchIndirect { buffer_id: 11, offset: 64 },
            ComputeCommand::PushDebugGroup { color: 0xff, len: 3 },
            ComputeCommand::InsertDebugMarker { color: 0, len: 4 },
            ComputeCommand::PopDebugGroup,
        ]
    );
    assert_eq!(pass.base.string_data, b"h\xc3\xa9mark".to_vec());
    assert_eq!(pass.parent_id(), 1);
}

#[test]
fn from_ref_copies_everything() {
    let mut pass = ComputePass::new(1);
    wgpu_compute_pass_set_bind_group(&mut pass, 0, 40, &[256]);
    wgpu_compute_pass_push_debug_group(&mut pass, b"x", 1);
    wgpu_compute_pass_set_push_constant(&mut pass, 0, 4, &9u32.to_ne_bytes());
    let copy = BasePass::from_ref(&pass.base.as_ref());
    assert_eq!(copy.commands, pass.base.commands);
    assert_eq!(copy.dynamic_offsets, vec![256]);
    assert_eq!(copy.string_data, b"x".to_vec());
    assert_eq!(copy.push_constant_data, vec![9]);
}
