//! Checks on resources, push constant ranges and slots.
use compute_pass::bind::{Binder, LayoutChange};
use compute_pass::command_buffer::track;
use compute_pass::error::{
    BindError, CommandEncoderError, ComputePassError, DispatchError, MissingBufferUsageError,
    PushConstantUploadError,
};
use compute_pass::hub::{check_buffer_usage, BindGroup, DynamicBinding, PipelineLayout};
use compute_pass::id::{PushConstantRange, BUFFER_USAGE_INDIRECT, SHADER_STAGE_COMPUTE};
use compute_pass::push_constants::{compute_nonoverlapping_ranges, push_constant_clear};
use compute_pass::raw::DescriptorSets;
use compute_pass::state::{PipelineState, State};

fn group(layout_id: u64, maxima: &[u64]) -> BindGroup {
    BindGroup {
        layout_id,
        dynamic_binding_info: maxima
            .iter()
            .map(|m| DynamicBinding { maximum_dynamic_offset: *m })
            .collect(),
    }
}

fn range(stages: u32, start: u32, end: u32) -> PushConstantRange {
    PushConstantRange { stages, start, end }
}

fn layout(ids: &[u64], ranges: &[PushConstantRange]) -> PipelineLayout {
    PipelineLayout { bind_group_layout_ids: ids.to_vec(), push_constant_ranges: ranges.to_vec() }
}

#[test]
fn dynamic_offsets_are_checked_in_order() {
    let g = group(1, &[512, 1024]);
    assert_eq!(g.validate_dynamic_bindings(&[512, 1024]), Ok(()));
    assert_eq!(g.validate_dynamic_bindings(&[0, 0]), Ok(()));
    assert_eq!(
        g.validate_dynamic_bindings(&[0]),
        Err(BindError::MismatchedDynamicOffsetCount { actual: 1, expected: 2 })
    );
    assert_eq!(
        g.validate_dynamic_bindings(&[0, 128]),
        Err(BindError::UnalignedDynamicBinding { idx: 1, offset: 128 })
    );
    assert_eq!(
        g.validate_dynamic_bindings(&[768, 1]),
        Err(BindError::DynamicBindingOutOfBounds { idx: 0, offset: 768, max: 512 })
    );
}

#[test]
fn buffer_usage_needs_every_flag() {
    assert_eq!(check_buffer_usage(0x1ff, BUFFER_USAGE_INDIRECT), Ok(()));
    assert_eq!(
        check_buffer_usage(0xff, BUFFER_USAGE_INDIRECT),
        Err(MissingBufferUsageError { actual: 0xff, expected: 256 })
    );
}

#[test]
fn push_constant_uploads_are_checked() {
    let compute = SHADER_STAGE_COMPUTE;
    let l = layout(&[], &[range(compute, 4, 16), range(1, 16, 32)]);
    assert_eq!(l.validate_push_constant_ranges(compute, 4, 16), Ok(()));
    assert_eq!(
        l.validate_push_constant_ranges(compute, 6, 8),
        Err(PushConstantUploadError::Unaligned(6))
    );
    assert_eq!(
        l.validate_push_constant_ranges(compute, 8, 20),
        Err(PushConstantUploadError::TooLarge {
            offset: 8,
            end_offset: 20,
            idx: 0,
            range: range(compute, 4, 16)
        })
    );
    let shared = layout(&[], &[range(compute | 1, 0, 16)]);
    assert_eq!(
        shared.validate_push_constant_ranges(compute, 0, 4),
        Err(PushConstantUploadError::PartialRangeMatch { actual: 4, idx: 0, matched: 5 })
    );
    let other = layout(&[], &[range(1, 0, 16)]);
    assert_eq!(
        other.validate_push_constant_ranges(compute, 0, 4),
        Err(PushConstantUploadError::MissingStages { actual: 4, idx: 0, missing: 1 })
    );
    assert_eq!(
        other.validate_push_constant_ranges(compute, 16, 20),
        Err(PushConstantUploadError::UnmatchedStages { actual: 4, unmatched: 4 })
    );
}

#[test]
fn overlapping_ranges_are_broken_up() {
    let parts =
        compute_nonoverlapping_ranges(&[range(1, 0, 16), range(2, 8, 24), range(4, 32, 40)]);
    assert_eq!(parts, vec![range(1, 0, 8), range(3, 8, 16), range(2, 16, 24), range(4, 32, 40)]);
    assert_eq!(compute_nonoverlapping_ranges(&[]), vec![]);
    assert_eq!(compute_nonoverlapping_ranges(&[range(4, 4, 8)]), vec![range(4, 4, 8)]);
}

#[test]
fn clearing_goes_in_chunks() {
    let writes = push_constant_clear(8, 4 * 130);
    let shape: Vec<(u32, usize)> = writes.iter().map(|w| (w.offset, w.data.len())).collect();
    assert_eq!(shape, vec![(8, 64), (8 + 256, 64), (8 + 512, 2)]);
    assert!(writes.iter().all(|w| w.data.iter().all(|d| *d == 0)));
    assert!(push_constant_clear(0, 3).is_empty());
    assert_eq!(push_constant_clear(0, 7).len(), 1);
    assert_eq!(push_constant_clear(0, 7)[0].data.len(), 1);
}

#[test]
fn descriptor_sets_keep_the_first_eight() {
    let sets = DescriptorSets::collect(vec![9, 8, 7]);
    assert_eq!(sets.as_slice(), &[9, 8, 7]);
    let sets = DescriptorSets::collect((0..12).collect());
    assert_eq!(sets.as_slice(), &[0, 1, 2, 3, 4, 5, 6, 7]);
}

#[test]
fn binder_has_at_most_eight_slots() {
    assert_eq!(Binder::new(4).entries.len(), 4);
    assert_eq!(Binder::new(0).entries.len(), 0);
    assert_eq!(Binder::new(20).entries.len(), 8);
    assert_eq!(Binder::new(4).pipeline_layout_id, None);
}

#[test]
fn expect_layout_reports_changes() {
    let mut binder = Binder::new(1);
    assert_eq!(binder.entries[0].expect_layout(5), LayoutChange::Mismatch);
    assert_eq!(binder.entries[0].expect_layout(5), LayoutChange::Unchanged);
    assert_eq!(binder.entries[0].is_valid(), Some(false));
    binder.provide_entry(0, 50, &group(6, &[]), &[]);
    assert_eq!(binder.entries[0].expect_layout(6), LayoutChange::Match(50));
    assert_eq!(binder.entries[0].is_valid(), Some(true));
    assert_eq!(binder.entries[0].expect_layout(7), LayoutChange::Mismatch);
}

#[test]
fn providing_binds_what_was_blocked() {
    let mut binder = Binder::new(4);
    let l = layout(&[1, 2, 3], &[]);
    binder.change_pipeline_layout(None, 100, &l);
    for (i, id) in [1, 2, 3].iter().enumerate() {
        binder.entries[i].expect_layout(*id);
    }
    assert_eq!(binder.provide_entry(1, 12, &group(2, &[]), &[]), None);
    assert_eq!(binder.provide_entry(2, 13, &group(3, &[]), &[]), None);
    assert_eq!(binder.compatible_count(), 0);
    assert_eq!(binder.provide_entry(0, 11, &group(1, &[]), &[]), Some((100, 3)));
    assert_eq!(binder.compatible_count(), 3);
    // The same again changes nothing, another group of the same layout is bound alone.
    assert_eq!(binder.provide_entry(0, 11, &group(1, &[]), &[]), None);
    assert_eq!(binder.provide_entry(0, 21, &group(1, &[]), &[]), Some((100, 1)));
    assert_eq!(binder.provide_entry(0, 21, &group(1, &[0]), &[256]), Some((100, 1)));
}

#[test]
fn readiness_names_the_first_conflict() {
    let mut state = State {
        binder: Binder::new(4),
        pipeline: PipelineState::Required,
        debug_scope_depth: 0,
    };
    assert_eq!(state.is_ready(), Err(DispatchError::MissingPipeline));
    state.pipeline = PipelineState::Provided;
    assert_eq!(state.is_ready(), Ok(()));
    state.binder.entries[1].expect_layout(5);
    state.binder.entries[3].expect_layout(6);
    assert_eq!(state.binder.invalid_mask(), 0b1010);
    assert_eq!(state.is_ready(), Err(DispatchError::IncompatibleBindGroup { index: 1 }));
    state.pipeline = PipelineState::Required;
    assert_eq!(state.is_ready(), Err(DispatchError::IncompatibleBindGroup { index: 1 }));
    state.binder.provide_entry(1, 50, &group(5, &[]), &[]);
    assert_eq!(state.is_ready(), Err(DispatchError::IncompatibleBindGroup { index: 3 }));
    state.binder.provide_entry(3, 60, &group(6, &[]), &[]);
    assert_eq!(state.is_ready(), Err(DispatchError::MissingPipeline));
}

#[test]
fn expectations_survive_only_equal_push_constants() {
    let mut binder = Binder::new(3);
    let old = layout(&[1, 2, 3], &[range(4, 0, 4)]);
    binder.change_pipeline_layout(None, 100, &old);
    for (i, id) in [1, 2, 3].iter().enumerate() {
        binder.entries[i].expect_layout(*id);
    }
    binder.change_pipeline_layout(Some(&old), 101, &layout(&[1, 9], &[range(4, 0, 4)]));
    let expected: Vec<Option<u64>> = binder.entries.iter().map(|e| e.expected_layout_id).collect();
    assert_eq!(expected, vec![Some(1), Some(2), None]);
    binder.change_pipeline_layout(Some(&old), 102, &layout(&[1, 9], &[]));
    assert!(binder.entries.iter().all(|e| e.expected_layout_id.is_none()));
    assert_eq!(binder.pipeline_layout_id, Some(102));
}

#[test]
fn tracking_lists_each_once() {
    let mut ids = vec![3];
    track(&mut ids, 5);
    track(&mut ids, 3);
    track(&mut ids, 5);
    assert_eq!(ids, vec![3, 5]);
}

#[test]
fn errors_convert() {
    assert_eq!(
        ComputePassError::from(DispatchError::MissingPipeline),
        ComputePassError::Dispatch(DispatchError::MissingPipeline)
    );
    assert_eq!(
        ComputePassError::from(CommandEncoderError::Invalid),
        ComputePassError::Encoder(CommandEncoderError::Invalid)
    );
    let usage = MissingBufferUsageError { actual: 1, expected: 256 };
    assert_eq!(ComputePassError::from(usage), ComputePassError::MissingBufferUsage(usage));
    let bind = BindError::UnalignedDynamicBinding { idx: 0, offset: 3 };
    assert_eq!(ComputePassError::from(bind), ComputePassError::Bind(bind));
    let upload = PushConstantUploadError::Unaligned(2);
    assert_eq!(ComputePassError::from(upload), ComputePassError::PushConstants(upload));
}
