use std::sync::Arc;

use pipeline_layout::create_info::PipelineLayoutCreateInfo;
use pipeline_layout::device::{Device, Properties, UnsupportedFlag};
use pipeline_layout::error::{RequirementNotMet, ValidationError};
use pipeline_layout::layout::PipelineLayout;
use pipeline_layout::range::{sort_ranges, split_disjoint, PushConstantRange};
use pipeline_layout::shader::{ShaderStage, ShaderStages};

fn properties() -> Properties {
    Properties {
        max_bound_descriptor_sets: 8,
        max_push_constants_size: 128,
        max_per_stage_descriptor_samplers: 16,
        max_per_stage_descriptor_uniform_buffers: 16,
        max_per_stage_descriptor_storage_buffers: 16,
        max_per_stage_descriptor_sampled_images: 16,
        max_per_stage_descriptor_storage_images: 16,
        max_per_stage_descriptor_input_attachments: 16,
        max_per_stage_descriptor_acceleration_structures: None,
        max_descriptor_set_samplers: 16,
        max_descriptor_set_uniform_buffers: 16,
        max_descriptor_set_uniform_buffers_dynamic: 16,
        max_descriptor_set_storage_buffers: 16,
        max_descriptor_set_storage_buffers_dynamic: 16,
        max_descriptor_set_sampled_images: 16,
        max_descriptor_set_storage_images: 16,
        max_descriptor_set_input_attachments: 16,
        max_descriptor_set_acceleration_structures: None,
    }
}

fn device() -> Device {
    Device {
        id: 1,
        properties: properties(),
        unsupported_stages: vec![UnsupportedFlag {
            flag: ShaderStages::from(ShaderStage::Mesh).bits,
            requirement: RequirementNotMet {
                problem: "mesh shaders are not enabled".to_string(),
                requires_one_of: vec!["the mesh_shader feature".to_string()],
            },
        }],
        unsupported_layout_flags: vec![],
    }
}

fn stages(list: &[ShaderStage]) -> ShaderStages {
    let mut all = ShaderStages::empty();
    for stage in list {
        all = all | ShaderStages::from(*stage);
    }
    all
}

fn range(list: &[ShaderStage], offset: u32, size: u32) -> PushConstantRange {
    PushConstantRange {
        stages: stages(list),
        offset,
        size,
    }
}

use ShaderStage::{Compute, Fragment, Mesh, TessellationControl, Vertex};

#[test]
fn push_constant_ranges_disjoint() {
    let test_cases = [
        // input:
        // - `0..12`, stage=fragment
        // - `0..40`, stage=vertex
        //
        // output:
        // - `0..12`, stage=fragment|vertex
        // - `12..40`, stage=vertex
        (
            vec![range(&[Fragment], 0, 12), range(&[Vertex], 0, 40)],
            vec![range(&[Vertex, Fragment], 0, 12), range(&[Vertex], 12, 28)],
        ),
        // input:
        // - `0..12`, stage=fragment
        // - `4..40`, stage=vertex
        //
        // output:
        // - `0..4`, stage=fragment
        // - `4..12`, stage=fragment|vertex
        // - `12..40`, stage=vertex
        (
            vec![range(&[Fragment], 0, 12), range(&[Vertex], 4, 36)],
            vec![
                range(&[Fragment], 0, 4),
                range(&[Fragment, Vertex], 4, 8),
                range(&[Vertex], 12, 28),
            ],
        ),
        // input:
        // - `0..12`, stage=fragment
        // - `8..20`, stage=compute
        // - `4..16`, stage=vertex
        // - `8..32`, stage=tess_ctl
        //
        // output:
        // - `0..4`, stage=fragment
        // - `4..8`, stage=fragment|vertex
        // - `8..16`, stage=fragment|vertex|compute|tess_ctl
        // - `16..20`, stage=compute|tess_ctl
        // - `20..32` stage=tess_ctl
        (
            vec![
                range(&[Fragment], 0, 12),
                range(&[Compute], 8, 12),
                range(&[Vertex], 4, 12),
                range(&[TessellationControl], 8, 24),
            ],
            vec![
                range(&[Fragment], 0, 4),
                range(&[Fragment, Vertex], 4, 4),
                range(&[Vertex, Fragment, Compute, TessellationControl], 8, 4),
                range(&[Vertex, Compute, TessellationControl], 12, 4),
                range(&[Compute, TessellationControl], 16, 4),
                range(&[TessellationControl], 20, 12),
            ],
        ),
    ];

    let device = Arc::new(device());

    for (input, expected) in test_cases {
        let layout = PipelineLayout::new(
            device.clone(),
            PipelineLayoutCreateInfo {
                push_constant_ranges: input,
                ..Default::default()
            },
            1,
            |_device, _vk| Ok(7),
        )
        .unwrap();

        assert_eq!(layout.push_constant_ranges_disjoint(), expected.as_slice());
    }
}

#[test]
fn disjoint_ranges_of_the_documentation() {
    let ranges = sort_ranges(&vec![range(&[Vertex], 0, 4), range(&[Fragment], 0, 12)]);
    assert_eq!(
        split_disjoint(&ranges),
        vec![range(&[Vertex, Fragment], 0, 4), range(&[Fragment], 4, 8)]
    );
}

#[test]
fn disjoint_ranges_go_on_behind_a_gap() {
    let ranges = vec![range(&[Vertex], 0, 4), range(&[Fragment], 8, 4)];
    assert_eq!(split_disjoint(&ranges), ranges);
    let layout = PipelineLayout::from_handle(
        Arc::new(device()),
        7,
        1,
        PipelineLayoutCreateInfo {
            push_constant_ranges: ranges.clone(),
            ..Default::default()
        },
    );
    assert_eq!(layout.push_constant_ranges_disjoint(), ranges.as_slice());
}

#[test]
fn disjoint_ranges_behind_several_gaps() {
    let ranges = sort_ranges(&vec![
        range(&[Vertex], 4, 8),
        range(&[Fragment], 8, 8),
        range(&[Compute], 32, 4),
        range(&[TessellationControl], 64, 16),
        range(&[Mesh], 68, 4),
    ]);
    assert_eq!(
        split_disjoint(&ranges),
        vec![
            range(&[Vertex], 4, 4),
            range(&[Vertex, Fragment], 8, 4),
            range(&[Fragment], 12, 4),
            range(&[Compute], 32, 4),
            range(&[TessellationControl], 64, 4),
            range(&[TessellationControl, Mesh], 68, 4),
            range(&[TessellationControl], 72, 8),
        ]
    );
}

#[test]
fn disjoint_ranges_without_stages_or_bytes() {
    let ranges = sort_ranges(&vec![
        range(&[Vertex], 0, 0),
        range(&[], 0, 8),
        range(&[Fragment], 4, 8),
        range(&[Compute], u32::MAX, 0),
    ]);
    assert_eq!(
        split_disjoint(&ranges),
        vec![range(&[Fragment], 4, 4), range(&[Fragment], 8, 4)]
    );
}

#[test]
fn disjoint_ranges_of_adjacent_ranges() {
    let ranges = vec![range(&[Vertex], 4, 4), range(&[Fragment], 8, 4)];
    assert_eq!(split_disjoint(&ranges), ranges);
}

#[test]
fn disjoint_ranges_up_to_the_last_offset() {
    let ranges = vec![range(&[Vertex], 0, u32::MAX), range(&[Fragment], 4, 8)];
    assert_eq!(
        split_disjoint(&ranges),
        vec![
            range(&[Vertex], 0, 4),
            range(&[Vertex, Fragment], 4, 8),
            range(&[Vertex], 12, u32::MAX - 12),
        ]
    );
}

#[test]
fn disjoint_ranges_of_no_ranges() {
    assert!(split_disjoint(&vec![]).is_empty());
}

#[test]
fn disjoint_ranges_do_not_overlap_and_keep_the_stages_of_each_byte() {
    let ranges = sort_ranges(&vec![
        range(&[Vertex], 8, 24),
        range(&[Fragment], 0, 12),
        range(&[Compute], 12, 4),
    ]);
    let pieces = split_disjoint(&ranges);
    for i in 1..pieces.len() {
        assert!(pieces[i - 1].offset + pieces[i - 1].size <= pieces[i].offset);
    }
    for byte in 0..40 {
        let mut wanted = ShaderStages::empty();
        for r in &ranges {
            if r.offset <= byte && byte < r.offset + r.size {
                wanted = wanted | r.stages;
            }
        }
        let mut found = ShaderStages::empty();
        for p in &pieces {
            assert_eq!(p.offset % 4, 0);
            assert_eq!(p.size % 4, 0);
            if p.offset <= byte && byte < p.offset + p.size {
                found = found | p.stages;
            }
        }
        assert_eq!(found, wanted);
    }
}

#[test]
fn ranges_are_sorted_by_offset_size_and_stages() {
    let sorted = vec![
        range(&[Compute], 0, 4),
        range(&[Vertex], 0, 8),
        range(&[Fragment], 0, 8),
        range(&[TessellationControl], 4, 4),
    ];
    let given = vec![sorted[3], sorted[2], sorted[0], sorted[1]];
    assert_eq!(sort_ranges(&given), sorted);
    let given = vec![sorted[1], sorted[0], sorted[3], sorted[2]];
    assert_eq!(sort_ranges(&given), sorted);
}

#[test]
fn default_range_is_empty() {
    let r = PushConstantRange::default();
    assert_eq!(r, range(&[], 0, 0));
}

fn refusal(r: PushConstantRange) -> ValidationError {
    r.validate(&device()).unwrap_err()
}

fn rule(context: &str, problem: &str, vuid: &'static str) -> ValidationError {
    ValidationError {
        context: context.to_string(),
        problem: problem.to_string(),
        requires_one_of: vec![],
        vuids: vec![vuid],
    }
}

#[test]
fn range_of_an_unsupported_stage_is_refused() {
    assert_eq!(
        refusal(range(&[Vertex, Mesh], 0, 4)),
        ValidationError {
            context: "stages".to_string(),
            problem: "mesh shaders are not enabled".to_string(),
            requires_one_of: vec!["the mesh_shader feature".to_string()],
            vuids: vec!["VUID-VkPushConstantRange-stageFlags-parameter"],
        }
    );
}

#[test]
fn range_without_stages_is_refused() {
    assert_eq!(
        refusal(range(&[], 0, 8)),
        rule(
            "stages",
            "is empty",
            "VUID-VkPushConstantRange-stageFlags-requiredbitmask"
        )
    );
}

#[test]
fn range_with_a_wrong_offset_is_refused() {
    assert_eq!(
        refusal(range(&[Vertex], 128, 4)),
        rule(
            "offset",
            "is not less than the max_push_constants_size limit",
            "VUID-VkPushConstantRange-offset-00294"
        )
    );
    assert_eq!(
        refusal(range(&[Vertex], 2, 4)),
        rule(
            "offset",
            "is not a multiple of 4",
            "VUID-VkPushConstantRange-offset-00295"
        )
    );
}

#[test]
fn range_with_a_wrong_size_is_refused() {
    assert_eq!(
        refusal(range(&[Vertex], 0, 0)),
        rule("size", "is zero", "VUID-VkPushConstantRange-size-00296")
    );
    assert_eq!(
        refusal(range(&[Vertex], 0, 11)),
        rule(
            "size",
            "is not a multiple of 4",
            "VUID-VkPushConstantRange-size-00297"
        )
    );
    assert_eq!(
        refusal(range(&[Vertex], 124, 8)),
        rule(
            "",
            "size is greater than max_push_constants_size limit minus offset",
            "VUID-VkPushConstantRange-size-00298"
        )
    );
}

#[test]
fn range_up_to_the_limit_is_accepted() {
    assert!(range(&[Vertex], 0, 128).validate(&device()).is_ok());
    assert!(range(&[Vertex, Fragment], 124, 4).validate(&device()).is_ok());
}

#[test]
fn stage_sets() {
    let both = stages(&[Vertex, Fragment]);
    assert_eq!(both.bits, 0x11);
    assert!(both.intersects(stages(&[Fragment, Compute])));
    assert!(!both.intersects(stages(&[Compute])));
    assert!(both.contains(stages(&[Vertex])));
    assert!(!stages(&[Vertex]).contains(both));
    assert!(ShaderStages::empty().is_empty());
    assert_eq!(both.text(), "VERTEX | FRAGMENT");
    assert_eq!(ShaderStages::empty().text(), "empty()");
}
