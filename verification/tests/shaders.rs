use std::collections::BTreeMap;
use std::sync::Arc;

use pipeline_layout::create_info::PipelineLayoutCreateFlags;
use pipeline_layout::descriptor_set::{
    DescriptorSetLayout, DescriptorSetLayoutBinding, DescriptorSetLayoutCreateInfo, DescriptorType,
};
use pipeline_layout::device::{Device, Properties};
use pipeline_layout::error::{RuntimeError, VulkanError};
use pipeline_layout::layout::PipelineLayout;
use pipeline_layout::range::PushConstantRange;
use pipeline_layout::requirements::{
    DescriptorBindingRequirements, DescriptorBindingRequirementsIncompatible, Format,
    ImageViewType, ShaderScalarType,
};
use pipeline_layout::shader::{ShaderStage, ShaderStages};
use pipeline_layout::stages::{
    EntryPoint, EntryPointInfo, PipelineDescriptorSetLayoutCreateInfo,
    PipelineShaderStageCreateInfo,
};

use DescriptorType::{CombinedImageSampler, SampledImage, StorageBuffer, UniformBuffer};
use ShaderStage::{Compute, Fragment, Vertex};

fn device() -> Arc<Device> {
    Arc::new(Device {
        id: 1,
        properties: Properties {
            max_bound_descriptor_sets: 8,
            max_push_constants_size: 128,
            max_per_stage_descriptor_samplers: 16,
            max_per_stage_descriptor_uniform_buffers: 16,
            max_per_stage_descriptor_storage_buffers: 16,
            max_per_stage_descriptor_sampled_images: 16,
            max_per_stage_descriptor_storage_images: 16,
            max_per_stage_descriptor_input_attachments: 16,
            max_per_stage_descriptor_acceleration_structures: None,
            max_descriptor_set_samplers: 16,
            max_descriptor_set_uniform_buffers: 16,
            max_descriptor_set_uniform_buffers_dynamic: 16,
            max_descriptor_set_storage_buffers: 16,
            max_descriptor_set_storage_buffers_dynamic: 16,
            max_descriptor_set_sampled_images: 16,
            max_descriptor_set_storage_images: 16,
            max_descriptor_set_input_attachments: 16,
            max_descriptor_set_acceleration_structures: None,
        },
        unsupported_stages: vec![],
        unsupported_layout_flags: vec![],
    })
}

fn range(stage: ShaderStage, offset: u32, size: u32) -> PushConstantRange {
    PushConstantRange {
        stages: ShaderStages::from(stage),
        offset,
        size,
    }
}

fn needs(
    types: &[DescriptorType],
    descriptor_count: Option<u32>,
    stage: ShaderStage,
) -> DescriptorBindingRequirements {
    DescriptorBindingRequirements {
        descriptor_types: types.to_vec(),
        descriptor_count,
        image_format: None,
        image_multisampled: false,
        image_scalar_type: None,
        image_view_type: None,
        stages: ShaderStages::from(stage),
    }
}

fn shader(
    reqs: Vec<((u32, u32), DescriptorBindingRequirements)>,
    push_constant_requirements: Option<PushConstantRange>,
) -> PipelineShaderStageCreateInfo {
    PipelineShaderStageCreateInfo {
        entry_point: EntryPoint {
            info: EntryPointInfo {
                descriptor_binding_requirements: reqs.into_iter().collect(),
                push_constant_requirements,
            },
        },
    }
}

#[test]
fn merging_keeps_what_both_require() {
    let mut a = needs(&[CombinedImageSampler, SampledImage, UniformBuffer], Some(2), Vertex);
    a.image_format = Some(Format { number: 37 });
    let mut b = needs(&[UniformBuffer, StorageBuffer, CombinedImageSampler], Some(5), Fragment);
    b.image_scalar_type = Some(ShaderScalarType::Float);
    b.image_view_type = Some(ImageViewType::Dim2d);
    assert_eq!(a.merge(&b), Ok(()));
    assert_eq!(a.descriptor_types, vec![CombinedImageSampler, UniformBuffer]);
    assert_eq!(a.descriptor_count, Some(5));
    assert_eq!(a.image_format, Some(Format { number: 37 }));
    assert_eq!(a.image_scalar_type, Some(ShaderScalarType::Float));
    assert_eq!(a.image_view_type, Some(ImageViewType::Dim2d));
    assert_eq!(
        a.stages,
        ShaderStages::from(Vertex) | ShaderStages::from(Fragment)
    );
}

#[test]
fn merging_counts() {
    let cases = [
        (None, None, None),
        (Some(3), None, Some(3)),
        (None, Some(4), Some(4)),
        (Some(7), Some(4), Some(7)),
    ];
    for (x, y, merged) in cases {
        let mut a = needs(&[UniformBuffer], x, Vertex);
        assert_eq!(a.merge(&needs(&[UniformBuffer], y, Vertex)), Ok(()));
        assert_eq!(a.descriptor_count, merged);
    }
}

#[test]
fn contradictions_cannot_be_merged() {
    let base = needs(&[UniformBuffer], None, Vertex);
    let mut a = base.duplicate();
    a.image_format = Some(Format { number: 1 });
    a.image_scalar_type = Some(ShaderScalarType::Sint);
    a.image_view_type = Some(ImageViewType::Cube);
    let mut types = a.duplicate();
    types.descriptor_types = vec![StorageBuffer];
    let mut format = a.duplicate();
    format.image_format = Some(Format { number: 2 });
    let mut scalar = a.duplicate();
    scalar.image_scalar_type = Some(ShaderScalarType::Uint);
    let mut view = a.duplicate();
    view.image_view_type = Some(ImageViewType::Dim3d);
    let mut multisampled = a.duplicate();
    multisampled.image_multisampled = true;
    let cases = [
        (types, DescriptorBindingRequirementsIncompatible::DescriptorType),
        (format, DescriptorBindingRequirementsIncompatible::ImageFormat),
        (scalar, DescriptorBindingRequirementsIncompatible::ImageScalarType),
        (view, DescriptorBindingRequirementsIncompatible::ImageViewType),
        (
            multisampled,
            DescriptorBindingRequirementsIncompatible::ImageMultisampled,
        ),
    ];
    for (other, why) in cases {
        let before = a.duplicate();
        assert_eq!(a.merge(&other), Err(why));
        assert_eq!(a, before);
    }
}

#[test]
fn no_stages_make_one_empty_set() {
    let info = PipelineDescriptorSetLayoutCreateInfo::from_stages(&[]);
    assert_eq!(info.flags.bits, 0);
    assert_eq!(info.set_layouts.len(), 1);
    assert!(info.set_layouts[0].bindings.is_empty());
    assert!(info.push_constant_ranges.is_empty());
}

#[test]
fn union_of_stages() {
    let stages = [
        shader(
            vec![
                ((0, 0), needs(&[UniformBuffer, StorageBuffer], Some(2), Vertex)),
                ((2, 4), needs(&[StorageBuffer], None, Vertex)),
            ],
            Some(range(Vertex, 0, 16)),
        ),
        shader(
            vec![
                ((0, 0), needs(&[StorageBuffer], Some(3), Fragment)),
                ((0, 1), needs(&[CombinedImageSampler, SampledImage], Some(1), Fragment)),
            ],
            Some(range(Fragment, 0, 16)),
        ),
        shader(vec![], None),
        shader(vec![], Some(range(Compute, 0, 8))),
    ];
    let info = PipelineDescriptorSetLayoutCreateInfo::from_stages(&stages);
    assert_eq!(info.set_layouts.len(), 3);
    let numbers: Vec<Vec<u32>> = info
        .set_layouts
        .iter()
        .map(|set| set.bindings.keys().copied().collect())
        .collect();
    assert_eq!(numbers, vec![vec![0, 1], vec![], vec![4]]);
    let both = ShaderStages::from(Vertex) | ShaderStages::from(Fragment);
    let shared = &info.set_layouts[0].bindings[&0];
    assert_eq!(shared.descriptor_type, StorageBuffer);
    assert_eq!(shared.descriptor_count, 3);
    assert_eq!(shared.stages, both);
    assert_eq!(shared.binding_flags.bits, 0);
    assert!(shared.immutable_samplers.is_empty());
    let sampler = &info.set_layouts[0].bindings[&1];
    assert_eq!(sampler.descriptor_type, CombinedImageSampler);
    assert_eq!(sampler.stages, ShaderStages::from(Fragment));
    assert_eq!(info.set_layouts[2].bindings[&4].descriptor_count, 0);
    assert_eq!(
        info.push_constant_ranges,
        vec![
            PushConstantRange {
                stages: both,
                offset: 0,
                size: 16
            },
            range(Compute, 0, 8),
        ]
    );
}

#[test]
fn stages_that_contradict_have_no_union() {
    let a = shader(vec![((0, 0), needs(&[UniformBuffer], None, Vertex))], None);
    let b = shader(vec![((0, 0), needs(&[StorageBuffer], None, Fragment))], None);
    assert!(PipelineDescriptorSetLayoutCreateInfo::try_from_stages(&[a.clone(), b]).is_none());
    assert!(PipelineDescriptorSetLayoutCreateInfo::try_from_stages(&[a.clone(), a]).is_some());
    let nothing = shader(vec![((0, 0), needs(&[], None, Vertex))], None);
    assert!(PipelineDescriptorSetLayoutCreateInfo::try_from_stages(&[nothing]).is_none());
}

fn create_set(
    device: Arc<Device>,
    info: DescriptorSetLayoutCreateInfo,
) -> Result<Arc<DescriptorSetLayout>, VulkanError> {
    let id = info.bindings.len() as u64;
    Ok(Arc::new(DescriptorSetLayout {
        handle: 70 + id,
        device,
        id,
        flags: info.flags,
        bindings: info.bindings,
    }))
}

#[test]
fn union_satisfies_each_stage() {
    let stages = [
        shader(
            vec![((1, 0), needs(&[UniformBuffer, StorageBuffer], Some(2), Vertex))],
            Some(range(Vertex, 0, 16)),
        ),
        shader(
            vec![
                ((1, 0), needs(&[StorageBuffer], Some(1), Fragment)),
                ((0, 3), needs(&[SampledImage], None, Fragment)),
            ],
            Some(range(Fragment, 4, 16)),
        ),
    ];
    let info = PipelineDescriptorSetLayoutCreateInfo::from_stages(&stages)
        .into_pipeline_layout_create_info(device(), create_set)
        .unwrap();
    let layout = PipelineLayout::new(device(), info, 1, |_device, _vk| Ok(1)).unwrap();
    for stage in &stages {
        let info = &stage.entry_point.info;
        let mut required = vec![];
        for (key, reqs) in &info.descriptor_binding_requirements {
            required.push((*key, reqs));
        }
        assert_eq!(
            layout.ensure_compatible_with_shader(
                &required,
                info.push_constant_requirements.as_ref()
            ),
            Ok(())
        );
    }
}

fn two_sets() -> PipelineDescriptorSetLayoutCreateInfo {
    let mut second = DescriptorSetLayoutCreateInfo::default();
    second.insert_binding(
        6,
        DescriptorSetLayoutBinding::for_requirements(&needs(&[UniformBuffer], Some(4), Vertex)),
    );
    PipelineDescriptorSetLayoutCreateInfo {
        flags: PipelineLayoutCreateFlags { bits: 8 },
        set_layouts: vec![DescriptorSetLayoutCreateInfo::default(), second],
        push_constant_ranges: vec![range(Vertex, 4, 4)],
    }
}

#[test]
fn set_objects_are_created_in_order() {
    let info = two_sets()
        .into_pipeline_layout_create_info(device(), create_set)
        .unwrap();
    assert_eq!(info.flags.bits, 8);
    assert_eq!(info.push_constant_ranges, vec![range(Vertex, 4, 4)]);
    assert_eq!(info.set_layouts.len(), 2);
    assert_eq!(info.set_layouts[0].handle, 70);
    assert_eq!(info.set_layouts[1].handle, 71);
    assert_eq!(info.set_layouts[1].binding(6).unwrap().descriptor_count, 4);
    assert!(info.set_layouts[1].binding(0).is_none());
}

#[test]
fn sets_behind_a_failure_are_not_created() {
    let calls = std::cell::Cell::new(0);
    let error = two_sets()
        .into_pipeline_layout_create_info(device(), |_device, _info| {
            calls.set(calls.get() + 1);
            Err(VulkanError::RuntimeError(RuntimeError::OutOfHostMemory))
        })
        .unwrap_err();
    assert_eq!(error.set_num, 0);
    assert_eq!(calls.get(), 1);
}

#[test]
fn union_of_shaders_that_share_a_stage() {
    let stages = [
        shader(vec![], Some(range(Vertex, 0, 16))),
        shader(vec![], Some(range(Vertex, 0, 16))),
    ];
    let info = PipelineDescriptorSetLayoutCreateInfo::from_stages(&stages)
        .into_pipeline_layout_create_info(device(), create_set)
        .unwrap();
    let layout = PipelineLayout::new(device(), info, 1, |_device, _vk| Ok(1)).unwrap();
    assert_eq!(
        layout.ensure_compatible_with_shader(&[], Some(&range(Vertex, 0, 16))),
        Ok(())
    );
}

#[test]
fn failure_of_a_set_object_says_which_one() {
    let error = two_sets()
        .into_pipeline_layout_create_info(device(), |device, info| {
            if info.bindings.is_empty() {
                create_set(device, info)
            } else {
                Err(VulkanError::RuntimeError(RuntimeError::OutOfDeviceMemory))
            }
        })
        .unwrap_err();
    assert_eq!(error.set_num, 1);
    assert_eq!(
        error.message(),
        "an error occurred while creating a descriptor set layout for set number 1"
    );
    assert_eq!(
        error.source(),
        &VulkanError::RuntimeError(RuntimeError::OutOfDeviceMemory)
    );
}

#[test]
fn binding_made_for_requirements_meets_them() {
    let reqs = needs(&[StorageBuffer, UniformBuffer], Some(2), Compute);
    let binding = DescriptorSetLayoutBinding::for_requirements(&reqs);
    assert_eq!(binding.ensure_compatible_with_shader(&reqs), Ok(()));
}

#[test]
fn compatible_sets() {
    let set = |id: u64, samplers: Vec<u64>| {
        let mut binding = DescriptorSetLayoutBinding::for_requirements(&needs(
            &[CombinedImageSampler],
            Some(1),
            Fragment,
        ));
        binding.immutable_samplers = samplers;
        let mut bindings = BTreeMap::new();
        bindings.insert(0, binding);
        DescriptorSetLayout {
            handle: 1,
            device: device(),
            id,
            flags: DescriptorSetLayoutCreateInfo::default().flags,
            bindings,
        }
    };
    assert!(set(1, vec![5]).is_compatible_with(&set(2, vec![5])));
    assert!(!set(1, vec![5]).is_compatible_with(&set(2, vec![6])));
    assert!(!set(1, vec![5]).is_compatible_with(&set(2, vec![])));
}
