use std::collections::BTreeMap;
use std::sync::Arc;

use pipeline_layout::create_info::{PipelineLayoutCreateFlags, PipelineLayoutCreateInfo};
use pipeline_layout::descriptor_set::{
    DescriptorBindingFlags, DescriptorSetLayout, DescriptorSetLayoutBinding,
    DescriptorSetLayoutCreateFlags, DescriptorType,
};
use pipeline_layout::device::{Device, Properties, UnsupportedFlag};
use pipeline_layout::error::{RequirementNotMet, ValidationError};
use pipeline_layout::range::PushConstantRange;
use pipeline_layout::shader::{ShaderStage, ShaderStages};

fn device() -> Device {
    Device {
        id: 1,
        properties: Properties {
            max_bound_descriptor_sets: 3,
            max_push_constants_size: 128,
            max_per_stage_descriptor_samplers: 4,
            max_per_stage_descriptor_uniform_buffers: 4,
            max_per_stage_descriptor_storage_buffers: 4,
            max_per_stage_descriptor_sampled_images: 4,
            max_per_stage_descriptor_storage_images: 4,
            max_per_stage_descriptor_input_attachments: 4,
            max_per_stage_descriptor_acceleration_structures: None,
            max_descriptor_set_samplers: 6,
            max_descriptor_set_uniform_buffers: 6,
            max_descriptor_set_uniform_buffers_dynamic: 2,
            max_descriptor_set_storage_buffers: 6,
            max_descriptor_set_storage_buffers_dynamic: 2,
            max_descriptor_set_sampled_images: 6,
            max_descriptor_set_storage_images: 6,
            max_descriptor_set_input_attachments: 6,
            max_descriptor_set_acceleration_structures: Some(2),
        },
        unsupported_stages: vec![],
        unsupported_layout_flags: vec![UnsupportedFlag {
            flag: 2,
            requirement: RequirementNotMet {
                problem: "independent sets are not enabled".to_string(),
                requires_one_of: vec!["the graphics_pipeline_library extension".to_string()],
            },
        }],
    }
}

fn stages(list: &[ShaderStage]) -> ShaderStages {
    let mut all = ShaderStages::empty();
    for stage in list {
        all = all | ShaderStages::from(*stage);
    }
    all
}

fn binding(
    descriptor_type: DescriptorType,
    descriptor_count: u32,
    list: &[ShaderStage],
) -> DescriptorSetLayoutBinding {
    DescriptorSetLayoutBinding {
        binding_flags: DescriptorBindingFlags { bits: 0 },
        descriptor_type,
        descriptor_count,
        stages: stages(list),
        immutable_samplers: vec![],
    }
}

fn set_on(
    device_id: u64,
    flags: u32,
    bindings: Vec<DescriptorSetLayoutBinding>,
) -> Arc<DescriptorSetLayout> {
    let mut owner = device();
    owner.id = device_id;
    let mut map = BTreeMap::new();
    for (number, binding) in bindings.into_iter().enumerate() {
        map.insert(number as u32, binding);
    }
    Arc::new(DescriptorSetLayout {
        handle: 100,
        device: Arc::new(owner),
        id: 5,
        flags: DescriptorSetLayoutCreateFlags { bits: flags },
        bindings: map,
    })
}

fn set(bindings: Vec<DescriptorSetLayoutBinding>) -> Arc<DescriptorSetLayout> {
    set_on(1, 0, bindings)
}

fn info(set_layouts: Vec<Arc<DescriptorSetLayout>>) -> PipelineLayoutCreateInfo {
    PipelineLayoutCreateInfo {
        set_layouts,
        ..Default::default()
    }
}

fn rule(context: &str, problem: &str, vuid: &'static str) -> ValidationError {
    ValidationError {
        context: context.to_string(),
        problem: problem.to_string(),
        requires_one_of: vec![],
        vuids: vec![vuid],
    }
}

fn refusal(info: PipelineLayoutCreateInfo) -> ValidationError {
    assert!(info.can_be_checked(&device()));
    info.validate(&device()).unwrap_err()
}

use DescriptorType::{
    AccelerationStructure, CombinedImageSampler, InlineUniformBlock, InputAttachment, SampledImage,
    Sampler, StorageBufferDynamic, StorageTexelBuffer, UniformBuffer, UniformBufferDynamic,
};
use ShaderStage::{Compute, Fragment, Vertex};

#[test]
fn default_info_is_accepted() {
    let info = PipelineLayoutCreateInfo::default();
    assert_eq!(info.flags.bits, 0);
    assert!(info.set_layouts.is_empty());
    assert!(info.push_constant_ranges.is_empty());
    assert!(info.can_be_checked(&device()));
    assert!(info.validate(&device()).is_ok());
}

#[test]
fn unsupported_flags_are_refused() {
    let info = PipelineLayoutCreateInfo {
        flags: PipelineLayoutCreateFlags { bits: 3 },
        ..Default::default()
    };
    assert_eq!(
        refusal(info),
        ValidationError {
            context: "flags".to_string(),
            problem: "independent sets are not enabled".to_string(),
            requires_one_of: vec!["the graphics_pipeline_library extension".to_string()],
            vuids: vec!["VUID-VkPipelineLayoutCreateInfo-flags-parameter"],
        }
    );
    let info = PipelineLayoutCreateInfo {
        flags: PipelineLayoutCreateFlags { bits: 1 },
        ..Default::default()
    };
    assert!(info.validate(&device()).is_ok());
}

#[test]
fn too_many_sets_are_refused() {
    assert!(info(vec![set(vec![]), set(vec![]), set(vec![])])
        .validate(&device())
        .is_ok());
    assert_eq!(
        refusal(info(vec![set(vec![]), set(vec![]), set(vec![]), set(vec![])])),
        rule(
            "set_layouts",
            "the length exceeds the max_bound_descriptor_sets limit",
            "VUID-VkPipelineLayoutCreateInfo-setLayoutCount-00286"
        )
    );
}

#[test]
fn second_push_descriptor_set_is_refused() {
    assert!(info(vec![set(vec![]), set_on(1, 1, vec![])])
        .validate(&device())
        .is_ok());
    assert_eq!(
        refusal(info(vec![
            set_on(1, 1, vec![]),
            set(vec![]),
            set_on(1, 3, vec![])
        ])),
        rule(
            "set_layouts",
            "contains more than one descriptor set layout whose flags \
             DescriptorSetLayoutCreateFlags::PUSH_DESCRIPTOR",
            "VUID-VkPipelineLayoutCreateInfo-pSetLayouts-00293"
        )
    );
}

#[test]
fn descriptors_of_a_stage_are_limited() {
    let within = info(vec![
        set(vec![binding(Sampler, 2, &[Fragment])]),
        set(vec![binding(CombinedImageSampler, 2, &[Fragment])]),
    ]);
    assert!(within.validate(&device()).is_ok());
    let beyond = info(vec![
        set(vec![binding(Sampler, 3, &[Fragment])]),
        set(vec![binding(CombinedImageSampler, 2, &[Vertex, Fragment])]),
    ]);
    assert_eq!(
        refusal(beyond),
        rule(
            "set_layouts",
            "the combined number of DescriptorType::Sampler + \
             DescriptorType::CombinedImageSampler descriptors accessible to the \
             ShaderStage::Fragment stage exceeds the max_per_stage_descriptor_samplers limit",
            "VUID-VkPipelineLayoutCreateInfo-descriptorType-03016"
        )
    );
}

#[test]
fn error_names_a_stage_with_the_highest_count() {
    let beyond = info(vec![set(vec![
        binding(UniformBuffer, 5, &[Vertex]),
        binding(UniformBufferDynamic, 1, &[Compute]),
        binding(UniformBuffer, 5, &[Compute]),
    ])]);
    assert_eq!(
        refusal(beyond),
        rule(
            "set_layouts",
            "the combined number of DescriptorType::UniformBuffer + \
             DescriptorType::UniformBufferDynamic descriptors accessible to the \
             ShaderStage::Compute stage exceeds the max_per_stage_descriptor_uniform_buffers limit",
            "VUID-VkPipelineLayoutCreateInfo-descriptorType-03017"
        )
    );
}

#[test]
fn limit_that_a_device_does_not_have_allows_nothing() {
    assert_eq!(
        refusal(info(vec![set(vec![binding(
            AccelerationStructure,
            1,
            &[Compute]
        )])])),
        rule(
            "set_layouts",
            "the combined number of DescriptorType::AccelerationStructure descriptors accessible \
             to the ShaderStage::Compute stage exceeds the \
             max_per_stage_descriptor_acceleration_structures limit",
            "VUID-VkPipelineLayoutCreateInfo-descriptorType-03571"
        )
    );
    assert!(info(vec![set(vec![binding(AccelerationStructure, 2, &[])])])
        .validate(&device())
        .is_ok());
}

#[test]
fn each_limit_on_a_stage_has_its_rule() {
    let cases = [
        (Sampler, "03016"),
        (UniformBufferDynamic, "03017"),
        (StorageBufferDynamic, "03018"),
        (SampledImage, "06939"),
        (StorageTexelBuffer, "03020"),
        (InputAttachment, "03021"),
        (AccelerationStructure, "03571"),
    ];
    for (descriptor_type, number) in cases {
        let e = refusal(info(vec![set(vec![binding(descriptor_type, 5, &[Vertex])])]));
        assert_eq!(
            e.vuids[0],
            format!("VUID-VkPipelineLayoutCreateInfo-descriptorType-{}", number)
        );
    }
    assert!(
        info(vec![set(vec![binding(InlineUniformBlock, 500, &[Vertex])])])
            .validate(&device())
            .is_ok()
    );
}

#[test]
fn descriptors_of_all_stages_are_limited() {
    let beyond = info(vec![set(vec![
        binding(CombinedImageSampler, 3, &[Vertex]),
        binding(SampledImage, 4, &[Fragment]),
    ])]);
    assert_eq!(
        refusal(beyond),
        rule(
            "set_layouts",
            "the combined number of DescriptorType::CombinedImageSampler + \
             DescriptorType::SampledImage + DescriptorType::UniformTexelBuffer descriptors \
             accessible across all shader stages exceeds the max_descriptor_set_sampled_images \
             limit",
            "VUID-VkPipelineLayoutCreateInfo-descriptorType-03033"
        )
    );
}

#[test]
fn each_limit_on_all_stages_has_its_rule() {
    let cases = [
        (Sampler, "03028"),
        (UniformBuffer, "03029"),
        (UniformBufferDynamic, "03030"),
        (DescriptorType::StorageBuffer, "03031"),
        (StorageBufferDynamic, "03032"),
        (SampledImage, "03033"),
        (DescriptorType::StorageImage, "03034"),
        (InputAttachment, "03035"),
        (AccelerationStructure, "03573"),
    ];
    for (descriptor_type, number) in cases {
        let e = refusal(info(vec![set(vec![binding(descriptor_type, 7, &[])])]));
        assert_eq!(
            e.vuids[0],
            format!("VUID-VkPipelineLayoutCreateInfo-descriptorType-{}", number)
        );
    }
}

fn with_ranges(push_constant_ranges: Vec<PushConstantRange>) -> PipelineLayoutCreateInfo {
    PipelineLayoutCreateInfo {
        push_constant_ranges,
        ..Default::default()
    }
}

fn range(list: &[ShaderStage], offset: u32, size: u32) -> PushConstantRange {
    PushConstantRange {
        stages: stages(list),
        offset,
        size,
    }
}

#[test]
fn error_of_a_range_says_which_one() {
    let mut ranges = vec![];
    for k in 0..11 {
        ranges.push(range(&[ShaderStage::from_index(k)], 0, 4));
    }
    ranges[10].size = 3;
    assert_eq!(
        refusal(with_ranges(ranges)),
        rule(
            "push_constant_ranges[10].size",
            "is not a multiple of 4",
            "VUID-VkPushConstantRange-size-00297"
        )
    );
    assert_eq!(
        refusal(with_ranges(vec![
            range(&[Vertex], 0, 4),
            range(&[Fragment], 64, 128)
        ])),
        rule(
            "push_constant_ranges[1]",
            "size is greater than max_push_constants_size limit minus offset",
            "VUID-VkPushConstantRange-size-00298"
        )
    );
}

#[test]
fn ranges_with_a_common_stage_are_refused() {
    assert_eq!(
        refusal(with_ranges(vec![
            range(&[Vertex, Fragment], 0, 4),
            range(&[Compute], 0, 4),
            range(&[Fragment], 4, 4),
        ])),
        rule(
            "push_constant_ranges",
            "contains more than one range with the same stage",
            "VUID-VkPipelineLayoutCreateInfo-pPushConstantRanges-00292"
        )
    );
    assert!(with_ranges(vec![
        range(&[Vertex, Fragment], 0, 4),
        range(&[Compute], 0, 4)
    ])
    .validate(&device())
    .is_ok());
}

#[test]
fn sets_of_another_device_cannot_be_checked() {
    assert!(!info(vec![set_on(2, 0, vec![])]).can_be_checked(&device()));
    // The set behind the second push descriptor set is not looked at.
    assert!(info(vec![
        set_on(1, 1, vec![]),
        set_on(1, 1, vec![]),
        set_on(2, 0, vec![])
    ])
    .can_be_checked(&device()));
}

#[test]
fn counts_beyond_32_bits_cannot_be_checked() {
    let large = || set(vec![binding(Sampler, u32::MAX, &[Vertex])]);
    assert!(info(vec![large()]).can_be_checked(&device()));
    assert!(!info(vec![large(), set(vec![binding(Sampler, 1, &[Vertex])])])
        .can_be_checked(&device()));
    assert!(!info(vec![large(), set(vec![binding(Sampler, 1, &[])])]).can_be_checked(&device()));
    assert!(info(vec![
        large(),
        set(vec![binding(InlineUniformBlock, 1, &[Vertex])])
    ])
    .can_be_checked(&device()));
}

#[test]
fn vulkan_form_of_the_parameters() {
    let mut sets = vec![];
    for handle in 0..6 {
        let mut layout = DescriptorSetLayout {
            handle: 0,
            device: Arc::new(device()),
            id: 9,
            flags: DescriptorSetLayoutCreateFlags { bits: 0 },
            bindings: BTreeMap::new(),
        };
        layout.handle = 40 + handle;
        sets.push(Arc::new(layout));
    }
    let vk = PipelineLayoutCreateInfo {
        flags: PipelineLayoutCreateFlags { bits: 6 },
        set_layouts: sets,
        push_constant_ranges: vec![range(&[Fragment], 4, 8), range(&[Vertex], 0, 12)],
    }
    .to_vk();
    assert_eq!(vk.flags(), 6);
    assert_eq!(vk.set_layouts(), &[40, 41, 42, 43, 44, 45]);
    assert_eq!(vk.push_constant_ranges(), &[(16, 4, 8), (1, 0, 12)]);
}
