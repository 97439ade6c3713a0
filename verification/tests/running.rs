//! Running passes.
use std::collections::HashMap;

use compute_pass::command_buffer::{CommandBuffer, Limits, TraceCommand, TrackerSet};
use compute_pass::compute::{BasePassRef, ComputeCommand, ComputePass};
use compute_pass::compute_ffi::{
    wgpu_compute_pass_dispatch, wgpu_compute_pass_dispatch_indirect,
    wgpu_compute_pass_insert_debug_marker, wgpu_compute_pass_pop_debug_group,
    wgpu_compute_pass_push_debug_group, wgpu_compute_pass_set_bind_group,
    wgpu_compute_pass_set_pipeline, wgpu_compute_pass_set_push_constant,
};
use compute_pass::encode::Global;
use compute_pass::error::{
    BindError, CommandEncoderError, ComputePassError, DispatchError, Halt, MissingBufferUsageError,
    PushConstantUploadError,
};
use compute_pass::hub::{
    BindGroup, Buffer, ComputePipeline, DynamicBinding, Hub, PipelineLayout,
};
use compute_pass::id::{PushConstantRange, BUFFER_USAGE_INDIRECT, SHADER_STAGE_COMPUTE};
use compute_pass::raw::RawCommand;

const ENCODER: u64 = 1;

fn command_buffer(max_bind_groups: u32) -> CommandBuffer {
    CommandBuffer {
        is_recording: true,
        limits: Limits { max_bind_groups },
        raw: vec![vec![RawCommand::EndDebugMarker], vec![RawCommand::Dispatch([9, 9, 9])]],
        trackers: TrackerSet {
            bind_groups: vec![99],
            compute_pipes: Vec::new(),
            buffers: Vec::new(),
        },
        commands: None,
    }
}

/// Bind groups 11, 12, 13 of layouts 1, 2, 3, where 12 has one dynamic binding; pipelines 20 and
/// 21 of the layouts 30 and 31; buffers 40, which may hold indirect arguments, and 41.
fn device() -> Global {
    let mut bind_groups = HashMap::new();
    bind_groups.insert(11, BindGroup { layout_id: 1, dynamic_binding_info: Vec::new() });
    bind_groups.insert(
        12,
        BindGroup {
            layout_id: 2,
            dynamic_binding_info: vec![DynamicBinding { maximum_dynamic_offset: 512 }],
        },
    );
    bind_groups.insert(13, BindGroup { layout_id: 3, dynamic_binding_info: Vec::new() });
    let mut compute_pipelines = HashMap::new();
    compute_pipelines.insert(20, ComputePipeline { layout_id: 30 });
    compute_pipelines.insert(21, ComputePipeline { layout_id: 31 });
    compute_pipelines.insert(22, ComputePipeline { layout_id: 30 });
    compute_pipelines.insert(23, ComputePipeline { layout_id: 77 });
    let mut pipeline_layouts = HashMap::new();
    pipeline_layouts.insert(
        30,
        PipelineLayout { bind_group_layout_ids: vec![1, 2], push_constant_ranges: Vec::new() },
    );
    pipeline_layouts.insert(
        31,
        PipelineLayout {
            bind_group_layout_ids: vec![1, 3],
            push_constant_ranges: vec![PushConstantRange {
                stages: SHADER_STAGE_COMPUTE,
                start: 0,
                end: 16,
            }],
        },
    );
    let mut buffers = HashMap::new();
    buffers.insert(40, Buffer { usage: BUFFER_USAGE_INDIRECT | 8 });
    buffers.insert(41, Buffer { usage: 8 });
    let mut command_buffers = HashMap::new();
    command_buffers.insert(ENCODER, command_buffer(4));
    Global {
        hub: Hub { bind_groups, compute_pipelines, pipeline_layouts, buffers },
        command_buffers,
    }
}

fn show(command: &RawCommand) -> String {
    match command {
        RawCommand::InsertBarriers { bind_group_id } => format!("barriers {}", bind_group_id),
        RawCommand::BindComputeDescriptorSets { layout_id, first_set, sets, offsets } => {
            format!("bind {} {} {:?} {:?}", layout_id, first_set, sets.as_slice(), offsets)
        }
        RawCommand::BindComputePipeline(id) => format!("pipeline {}", id),
        RawCommand::PushComputeConstants { layout_id, offset, data } => {
            format!("push {} {} {:?}", layout_id, offset, data)
        }
        RawCommand::Dispatch(groups) => format!("dispatch {:?}", groups),
        RawCommand::TransitionToIndirect { buffer_id } => format!("transition {}", buffer_id),
        RawCommand::DispatchIndirect { buffer_id, offset } => {
            format!("indirect {} {}", buffer_id, offset)
        }
        RawCommand::BeginDebugMarker { label, color } => format!("begin {} {}", label, color),
        RawCommand::EndDebugMarker => format!("end"),
        RawCommand::InsertDebugMarker { label, color } => format!("mark {} {}", label, color),
    }
}

/// What a pass has added to the command buffer.
fn added(device: &Global) -> Vec<String> {
    let buffer = &device.command_buffers[&ENCODER];
    assert_eq!(buffer.raw.len(), 2);
    assert_eq!(buffer.raw[0].len(), 1);
    assert_eq!(show(&buffer.raw[1][0]), "dispatch [9, 9, 9]");
    buffer.raw[1].iter().skip(1).map(show).collect()
}

fn run(device: &mut Global, pass: &ComputePass) -> Result<(), ComputePassError> {
    device.command_encoder_run_compute_pass(ENCODER, pass)
}

#[test]
fn unknown_or_finished_encoder_is_refused() {
    let mut d = device();
    let pass = ComputePass::new(5);
    assert_eq!(
        d.command_encoder_run_compute_pass(5, &pass),
        Err(ComputePassError::Encoder(CommandEncoderError::Invalid))
    );
    assert_eq!(d.command_buffers.len(), 1);
    d.command_buffers.get_mut(&ENCODER).unwrap().is_recording = false;
    assert_eq!(
        run(&mut d, &pass),
        Err(ComputePassError::Encoder(CommandEncoderError::NotRecording))
    );
    assert!(d.get_encoder(ENCODER).is_err());
    assert!(added(&d).is_empty());
}

#[test]
fn empty_pass_records_nothing() {
    let mut d = device();
    assert_eq!(run(&mut d, &ComputePass::new(ENCODER)), Ok(()));
    assert!(added(&d).is_empty());
    assert!(d.get_encoder(ENCODER).is_ok());
}

#[test]
fn bind_groups_are_bound_once_they_fit() {
    let mut d = device();
    let mut pass = ComputePass::new(ENCODER);
    wgpu_compute_pass_set_bind_group(&mut pass, 1, 12, &[256]);
    wgpu_compute_pass_set_pipeline(&mut pass, 20);
    wgpu_compute_pass_set_bind_group(&mut pass, 0, 11, &[]);
    wgpu_compute_pass_dispatch(&mut pass, 1, 2, 3);
    assert_eq!(run(&mut d, &pass), Ok(()));
    assert_eq!(
        added(&d),
        vec![
            "barriers 12",
            "pipeline 20",
            "barriers 11",
            "bind 30 0 [11, 12] [256]",
            "dispatch [1, 2, 3]",
        ]
    );
    let trackers = &d.command_buffers[&ENCODER].trackers;
    assert_eq!(trackers.bind_groups, vec![99, 12, 11]);
    assert_eq!(trackers.compute_pipes, vec![20]);
    assert!(trackers.buffers.is_empty());
}

#[test]
fn new_layout_rebinds_and_clears() {
    let mut d = device();
    let mut pass = ComputePass::new(ENCODER);
    wgpu_compute_pass_set_bind_group(&mut pass, 0, 11, &[]);
    wgpu_compute_pass_set_bind_group(&mut pass, 1, 13, &[]);
    wgpu_compute_pass_set_pipeline(&mut pass, 21);
    wgpu_compute_pass_set_pipeline(&mut pass, 20);
    wgpu_compute_pass_set_pipeline(&mut pass, 22);
    assert_eq!(run(&mut d, &pass), Ok(()));
    assert_eq!(
        added(&d),
        vec![
            "barriers 11",
            "barriers 13",
            "pipeline 21",
            "bind 31 0 [11] []",
            "bind 31 1 [13] []",
            "push 31 0 [0, 0, 0, 0]",
            "pipeline 20",
            "bind 30 0 [11] []",
            "pipeline 22",
        ]
    );
}

/// What setting a pipeline with the given push constant ranges adds.
fn cleared(ranges: &[(u32, u32, u32)]) -> Vec<String> {
    let mut d = device();
    let push_constant_ranges = ranges
        .iter()
        .map(|&(stages, start, end)| PushConstantRange { stages, start, end })
        .collect();
    d.hub.pipeline_layouts.insert(
        32,
        PipelineLayout { bind_group_layout_ids: Vec::new(), push_constant_ranges },
    );
    d.hub.compute_pipelines.insert(24, ComputePipeline { layout_id: 32 });
    let mut pass = ComputePass::new(ENCODER);
    wgpu_compute_pass_set_pipeline(&mut pass, 24);
    assert_eq!(run(&mut d, &pass), Ok(()));
    added(&d)
}

#[test]
fn overlapping_ranges_are_cleared_once() {
    assert_eq!(
        cleared(&[(1, 0, 16), (SHADER_STAGE_COMPUTE, 8, 24)]),
        vec!["pipeline 24", "push 32 0 [0, 0]", "push 32 8 [0, 0]", "push 32 16 [0, 0]"]
    );
}

#[test]
fn less_than_a_word_stays_uncleared() {
    assert_eq!(cleared(&[(SHADER_STAGE_COMPUTE, 0, 6)]), vec!["pipeline 24", "push 32 0 [0]"]);
    assert_eq!(
        cleared(&[(1, 0, 6), (SHADER_STAGE_COMPUTE, 4, 12)]),
        vec!["pipeline 24", "push 32 0 [0]", "push 32 6 [0]"]
    );
}

#[test]
fn range_without_stages_is_not_cleared() {
    assert_eq!(
        cleared(&[(0, 0, 8), (SHADER_STAGE_COMPUTE, 8, 16)]),
        vec!["pipeline 24", "push 32 8 [0, 0]"]
    );
}

#[test]
fn mismatch_blocks_the_slots_above() {
    let mut d = device();
    let mut pass = ComputePass::new(ENCODER);
    wgpu_compute_pass_set_bind_group(&mut pass, 0, 13, &[]);
    wgpu_compute_pass_set_bind_group(&mut pass, 1, 13, &[]);
    wgpu_compute_pass_set_pipeline(&mut pass, 21);
    wgpu_compute_pass_dispatch(&mut pass, 1, 1, 1);
    assert_eq!(
        run(&mut d, &pass),
        Err(ComputePassError::Dispatch(DispatchError::IncompatibleBindGroup { index: 0 }))
    );
    assert_eq!(
        added(&d),
        vec!["barriers 13", "barriers 13", "pipeline 21", "push 31 0 [0, 0, 0, 0]"]
    );
}

#[test]
fn binding_the_same_group_again_binds_nothing() {
    let mut d = device();
    let mut pass = ComputePass::new(ENCODER);
    wgpu_compute_pass_set_pipeline(&mut pass, 20);
    wgpu_compute_pass_set_bind_group(&mut pass, 0, 11, &[]);
    wgpu_compute_pass_set_bind_group(&mut pass, 0, 11, &[]);
    wgpu_compute_pass_set_bind_group(&mut pass, 1, 12, &[0]);
    wgpu_compute_pass_set_bind_group(&mut pass, 1, 12, &[512]);
    assert_eq!(run(&mut d, &pass), Ok(()));
    assert_eq!(
        added(&d),
        vec![
            "pipeline 20",
            "barriers 11",
            "bind 30 0 [11] []",
            "barriers 11",
            "barriers 12",
            "bind 30 1 [12] [0]",
            "barriers 12",
            "bind 30 1 [12] [512]",
        ]
    );
}

#[test]
fn bind_group_refusals() {
    let mut d = device();
    let mut pass = ComputePass::new(ENCODER);
    wgpu_compute_pass_set_bind_group(&mut pass, 4, 11, &[]);
    assert_eq!(
        run(&mut d, &pass),
        Err(ComputePassError::BindGroupIndexOutOfRange { index: 4, max: 4 })
    );
    let mut pass = ComputePass::new(ENCODER);
    wgpu_compute_pass_set_bind_group(&mut pass, 0, 55, &[256]);
    assert_eq!(run(&mut d, &pass), Err(ComputePassError::InvalidBindGroup(55)));
    assert_eq!(d.command_buffers[&ENCODER].trackers.bind_groups, vec![99]);
    let mut pass = ComputePass::new(ENCODER);
    wgpu_compute_pass_set_bind_group(&mut pass, 0, 12, &[768]);
    assert_eq!(
        run(&mut d, &pass),
        Err(ComputePassError::Bind(BindError::DynamicBindingOutOfBounds {
            idx: 0,
            offset: 768,
            max: 512
        }))
    );
    assert_eq!(d.command_buffers[&ENCODER].trackers.bind_groups, vec![99, 12]);
    assert!(added(&d).is_empty());
}

#[test]
fn dispatch_needs_a_pipeline() {
    let mut d = device();
    let mut pass = ComputePass::new(ENCODER);
    wgpu_compute_pass_dispatch(&mut pass, 1, 1, 1);
    wgpu_compute_pass_set_pipeline(&mut pass, 20);
    assert_eq!(
        run(&mut d, &pass),
        Err(ComputePassError::Dispatch(DispatchError::MissingPipeline))
    );
    let mut pass = ComputePass::new(ENCODER);
    wgpu_compute_pass_dispatch_indirect(&mut pass, 40, 0);
    assert_eq!(
        run(&mut d, &pass),
        Err(ComputePassError::Dispatch(DispatchError::MissingPipeline))
    );
    assert!(added(&d).is_empty());
}

#[test]
fn unknown_pipeline_is_refused() {
    let mut d = device();
    let mut pass = ComputePass::new(ENCODER);
    wgpu_compute_pass_set_pipeline(&mut pass, 66);
    assert_eq!(run(&mut d, &pass), Err(ComputePassError::InvalidPipeline(66)));
    assert!(added(&d).is_empty());
}

#[test]
fn indirect_dispatch_checks_its_buffer() {
    let mut d = device();
    d.hub.pipeline_layouts.get_mut(&30).unwrap().bind_group_layout_ids.clear();
    let mut pass = ComputePass::new(ENCODER);
    wgpu_compute_pass_set_pipeline(&mut pass, 20);
    wgpu_compute_pass_dispatch_indirect(&mut pass, 40, 64);
    wgpu_compute_pass_dispatch_indirect(&mut pass, 41, 0);
    assert_eq!(
        run(&mut d, &pass),
        Err(ComputePassError::MissingBufferUsage(MissingBufferUsageError {
            actual: 8,
            expected: 256
        }))
    );
    assert_eq!(added(&d), vec!["pipeline 20", "transition 40", "indirect 40 64"]);
    assert_eq!(d.command_buffers[&ENCODER].trackers.buffers, vec![40, 41]);
    let mut pass = ComputePass::new(ENCODER);
    wgpu_compute_pass_set_pipeline(&mut pass, 20);
    wgpu_compute_pass_dispatch_indirect(&mut pass, 42, 0);
    assert_eq!(run(&mut d, &pass), Err(ComputePassError::InvalidIndirectBuffer(42)));
}

#[test]
fn push_constants_arrive_as_recorded() {
    let mut d = device();
    let mut pass = ComputePass::new(ENCODER);
    wgpu_compute_pass_set_pipeline(&mut pass, 21);
    wgpu_compute_pass_set_push_constant(&mut pass, 4, 4, &0xdead_beefu32.to_ne_bytes());
    let mut bytes = Vec::new();
    bytes.extend_from_slice(&5u32.to_ne_bytes());
    bytes.extend_from_slice(&6u32.to_ne_bytes());
    wgpu_compute_pass_set_push_constant(&mut pass, 8, 8, &bytes);
    assert_eq!(run(&mut d, &pass), Ok(()));
    assert_eq!(
        added(&d),
        vec![
            "pipeline 21",
            "push 31 0 [0, 0, 0, 0]",
            "push 31 4 [3735928559]",
            "push 31 8 [5, 6]",
        ]
    );
}

#[test]
fn push_constant_refusals() {
    let mut d = device();
    let mut pass = ComputePass::new(ENCODER);
    wgpu_compute_pass_set_push_constant(&mut pass, 0, 4, &[0; 4]);
    assert_eq!(
        run(&mut d, &pass),
        Err(ComputePassError::Dispatch(DispatchError::MissingPipeline))
    );
    let mut pass = ComputePass::new(ENCODER);
    wgpu_compute_pass_set_pipeline(&mut pass, 21);
    wgpu_compute_pass_set_push_constant(&mut pass, 16, 4, &[0; 4]);
    assert_eq!(
        run(&mut d, &pass),
        Err(ComputePassError::PushConstants(PushConstantUploadError::TooLarge {
            offset: 16,
            end_offset: 20,
            idx: 0,
            range: PushConstantRange { stages: SHADER_STAGE_COMPUTE, start: 0, end: 16 }
        }))
    );
}

#[test]
fn debug_marks_arrive_with_their_labels() {
    let mut d = device();
    let mut pass = ComputePass::new(ENCODER);
    wgpu_compute_pass_push_debug_group(&mut pass, "gr\u{fc}n".as_bytes(), 1);
    wgpu_compute_pass_insert_debug_marker(&mut pass, b"", 2);
    wgpu_compute_pass_push_debug_group(&mut pass, b"inner", 3);
    wgpu_compute_pass_pop_debug_group(&mut pass);
    wgpu_compute_pass_insert_debug_marker(&mut pass, b"after", 4);
    wgpu_compute_pass_pop_debug_group(&mut pass);
    assert_eq!(run(&mut d, &pass), Ok(()));
    let expected = vec!["begin gr\u{fc}n 1", "mark  2", "begin inner 3", "end", "mark after 4", "end"];
    assert_eq!(added(&d), expected);
    wgpu_compute_pass_pop_debug_group(&mut pass);
    wgpu_compute_pass_dispatch(&mut pass, 1, 1, 1);
    let mut d = device();
    assert_eq!(run(&mut d, &pass), Err(ComputePassError::InvalidPopDebugGroup));
    assert_eq!(added(&d), expected);
}

#[test]
fn passes_run_one_after_the_other() {
    let mut d = device();
    let mut first = ComputePass::new(ENCODER);
    wgpu_compute_pass_set_pipeline(&mut first, 20);
    let mut second = ComputePass::new(ENCODER);
    wgpu_compute_pass_set_pipeline(&mut second, 20);
    assert_eq!(run(&mut d, &first), Ok(()));
    assert_eq!(run(&mut d, &second), Ok(()));
    assert_eq!(added(&d), vec!["pipeline 20", "pipeline 20"]);
    assert_eq!(d.command_buffers[&ENCODER].trackers.compute_pipes, vec![20]);
}

#[test]
fn trace_keeps_the_pass() {
    let mut d = device();
    d.command_buffers.get_mut(&ENCODER).unwrap().commands = Some(Vec::new());
    let mut pass = ComputePass::new(ENCODER);
    wgpu_compute_pass_push_debug_group(&mut pass, b"g", 0);
    wgpu_compute_pass_dispatch(&mut pass, 1, 1, 1);
    assert!(run(&mut d, &pass).is_err());
    let commands = d.command_buffers[&ENCODER].commands.as_ref().unwrap();
    assert_eq!(commands.len(), 1);
    let TraceCommand::RunComputePass { base } = &commands[0];
    assert_eq!(base.commands, pass.base.commands);
    assert_eq!(base.string_data, b"g".to_vec());
}

fn try_raw(
    commands: &[ComputeCommand],
    dynamic_offsets: &[u32],
    string_data: &[u8],
    push_constant_data: &[u32],
) -> Result<(), Halt> {
    let mut d = device();
    d.try_run_compute_pass(
        ENCODER,
        BasePassRef { commands, dynamic_offsets, string_data, push_constant_data },
    )
}

#[test]
fn damaged_passes_fault() {
    let set = ComputeCommand::SetBindGroup { index: 0, num_dynamic_offsets: 1, bind_group_id: 11 };
    assert_eq!(try_raw(&[set], &[], &[], &[]), Err(Halt::Fault));
    let open = ComputeCommand::PushDebugGroup { color: 0, len: 2 };
    assert_eq!(try_raw(&[open], &[], b"x", &[]), Err(Halt::Fault));
    assert_eq!(try_raw(&[open], &[], &[0xff, 0xfe], &[]), Err(Halt::Fault));
    assert_eq!(try_raw(&[open], &[], b"ok", &[]), Ok(()));
    let mark = ComputeCommand::InsertDebugMarker { color: 0, len: 1 };
    assert_eq!(try_raw(&[mark], &[], &[0x80], &[]), Err(Halt::Fault));
    let push = ComputeCommand::SetPushConstant { offset: 0, size_bytes: 8, values_offset: 1 };
    let pipeline = ComputeCommand::SetPipeline(21);
    assert_eq!(try_raw(&[pipeline, push], &[], &[], &[1, 2]), Err(Halt::Fault));
    assert_eq!(try_raw(&[pipeline, push], &[], &[], &[1, 2, 3]), Ok(()));
    let wide =
        ComputeCommand::SetPushConstant { offset: u32::MAX, size_bytes: 4, values_offset: 0 };
    assert_eq!(try_raw(&[pipeline, wide], &[], &[], &[1, 2]), Err(Halt::Fault));
    assert_eq!(try_raw(&[ComputeCommand::SetPipeline(23)], &[], &[], &[]), Err(Halt::Fault));
}

#[test]
fn refusal_comes_before_later_damage() {
    let pop = ComputeCommand::PopDebugGroup;
    let open = ComputeCommand::PushDebugGroup { color: 0, len: 2 };
    assert_eq!(
        try_raw(&[pop, open], &[], &[], &[]),
        Err(Halt::Error(ComputePassError::InvalidPopDebugGroup))
    );
}

#[test]
fn command_buffer_without_raw_part_faults() {
    let mut d = device();
    d.command_buffers.get_mut(&ENCODER).unwrap().raw.clear();
    let pass = ComputePass::new(ENCODER);
    assert_eq!(d.try_run_compute_pass(ENCODER, pass.base.as_ref()), Err(Halt::Fault));
}
