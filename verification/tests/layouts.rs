use std::cell::Cell;
use std::collections::BTreeMap;
use std::sync::Arc;

use pipeline_layout::create_info::{PipelineLayoutCreateFlags, PipelineLayoutCreateInfo};
use pipeline_layout::descriptor_set::{
    DescriptorBindingFlags, DescriptorRequirementsNotMet, DescriptorSetLayout,
    DescriptorSetLayoutBinding, DescriptorSetLayoutCreateFlags, DescriptorType,
};
use pipeline_layout::device::{Device, Properties};
use pipeline_layout::error::{RequirementNotMet, RuntimeError, ValidationError, VulkanError};
use pipeline_layout::layout::{PipelineLayout, PipelineLayoutSupersetError};
use pipeline_layout::range::PushConstantRange;
use pipeline_layout::requirements::DescriptorBindingRequirements;
use pipeline_layout::shader::{ShaderStage, ShaderStages};

use ShaderStage::{Compute, Fragment, Geometry, Vertex};

fn device() -> Arc<Device> {
    Arc::new(Device {
        id: 1,
        properties: Properties {
            max_bound_descriptor_sets: 8,
            max_push_constants_size: 128,
            max_per_stage_descriptor_samplers: 16,
            max_per_stage_descriptor_uniform_buffers: 16,
            max_per_stage_descriptor_storage_buffers: 16,
            max_per_stage_descriptor_sampled_images: 16,
            max_per_stage_descriptor_storage_images: 16,
            max_per_stage_descriptor_input_attachments: 16,
            max_per_stage_descriptor_acceleration_structures: None,
            max_descriptor_set_samplers: 16,
            max_descriptor_set_uniform_buffers: 16,
            max_descriptor_set_uniform_buffers_dynamic: 16,
            max_descriptor_set_storage_buffers: 16,
            max_descriptor_set_storage_buffers_dynamic: 16,
            max_descriptor_set_sampled_images: 16,
            max_descriptor_set_storage_images: 16,
            max_descriptor_set_input_attachments: 16,
            max_descriptor_set_acceleration_structures: None,
        },
        unsupported_stages: vec![],
        unsupported_layout_flags: vec![],
    })
}

fn stages(list: &[ShaderStage]) -> ShaderStages {
    let mut all = ShaderStages::empty();
    for stage in list {
        all = all | ShaderStages::from(*stage);
    }
    all
}

fn range(list: &[ShaderStage], offset: u32, size: u32) -> PushConstantRange {
    PushConstantRange {
        stages: stages(list),
        offset,
        size,
    }
}

fn set(id: u64, flags: u32, bindings: &[(u32, DescriptorType, u32)]) -> Arc<DescriptorSetLayout> {
    let mut map = BTreeMap::new();
    for &(number, descriptor_type, descriptor_count) in bindings {
        map.insert(
            number,
            DescriptorSetLayoutBinding {
                binding_flags: DescriptorBindingFlags { bits: 0 },
                descriptor_type,
                descriptor_count,
                stages: stages(&[Vertex, Fragment]),
                immutable_samplers: vec![],
            },
        );
    }
    Arc::new(DescriptorSetLayout {
        handle: 1000 + id,
        device: device(),
        id,
        flags: DescriptorSetLayoutCreateFlags { bits: flags },
        bindings: map,
    })
}

fn layout(
    id: u64,
    set_layouts: Vec<Arc<DescriptorSetLayout>>,
    push_constant_ranges: Vec<PushConstantRange>,
) -> Arc<PipelineLayout> {
    let info = PipelineLayoutCreateInfo {
        flags: PipelineLayoutCreateFlags { bits: 0 },
        set_layouts,
        push_constant_ranges,
    };
    PipelineLayout::new(device(), info, id, |_device, _vk| Ok(500 + id)).unwrap()
}

#[test]
fn empty() {
    let layout = layout(3, vec![], vec![]);
    assert_eq!(layout.handle(), 503);
    assert_eq!(layout.id(), 3);
    assert_eq!(layout.device().id, 1);
    assert_eq!(layout.flags().bits, 0);
    assert!(layout.set_layouts().is_empty());
    assert!(layout.push_constant_ranges().is_empty());
    assert!(layout.push_constant_ranges_disjoint().is_empty());
}

#[test]
fn creation_asks_for_what_was_given() {
    let info = PipelineLayoutCreateInfo {
        flags: PipelineLayoutCreateFlags { bits: 2 },
        set_layouts: vec![set(1, 0, &[]), set(2, 0, &[])],
        push_constant_ranges: vec![range(&[Vertex], 8, 4), range(&[Fragment], 0, 8)],
    };
    let calls = Cell::new(0);
    let layout = PipelineLayout::new(device(), info, 9, |device, vk| {
        calls.set(calls.get() + 1);
        assert_eq!(device.id, 1);
        assert_eq!(vk.flags(), 2);
        assert_eq!(vk.set_layouts(), &[1001, 1002]);
        assert_eq!(vk.push_constant_ranges(), &[(1, 8, 4), (16, 0, 8)]);
        Ok(77)
    })
    .unwrap();
    assert_eq!(calls.get(), 1);
    assert_eq!(layout.handle(), 77);
    assert_eq!(layout.flags().bits, 2);
    assert_eq!(layout.set_layouts().len(), 2);
    assert_eq!(
        layout.push_constant_ranges(),
        &[range(&[Fragment], 0, 8), range(&[Vertex], 8, 4)]
    );
}

#[test]
fn invalid_parameters_are_refused_before_creation() {
    let info = PipelineLayoutCreateInfo {
        push_constant_ranges: vec![range(&[Vertex], 0, 0)],
        ..Default::default()
    };
    let called = Cell::new(false);
    let r = PipelineLayout::new(device(), info, 1, |_device, _vk| {
        called.set(true);
        Ok(1)
    });
    assert!(!called.get());
    assert_eq!(
        r.unwrap_err(),
        VulkanError::ValidationError(ValidationError {
            context: "create_info.push_constant_ranges[0].size".to_string(),
            problem: "is zero".to_string(),
            requires_one_of: vec![],
            vuids: vec!["VUID-VkPushConstantRange-size-00296"],
        })
    );
}

#[test]
fn failed_creation_is_reported() {
    let attempt = |code: i32| {
        PipelineLayout::new(
            device(),
            PipelineLayoutCreateInfo::default(),
            1,
            move |_device, _vk| Err(code),
        )
        .unwrap_err()
    };
    assert_eq!(
        attempt(-1),
        VulkanError::RuntimeError(RuntimeError::OutOfHostMemory)
    );
    assert_eq!(
        attempt(-2),
        VulkanError::RuntimeError(RuntimeError::OutOfDeviceMemory)
    );
    assert_eq!(
        attempt(-13),
        VulkanError::RuntimeError(RuntimeError::Unnamed(-13))
    );
}

#[test]
fn unchecked_creation() {
    let info = PipelineLayoutCreateInfo {
        push_constant_ranges: vec![range(&[], 0, 4), range(&[Vertex], 0, 2)],
        ..Default::default()
    };
    let layout =
        PipelineLayout::new_unchecked(device(), info, 1, |_device, _vk| Ok(5)).unwrap();
    assert_eq!(
        layout.push_constant_ranges(),
        &[range(&[Vertex], 0, 2), range(&[], 0, 4)]
    );
    assert_eq!(
        layout.push_constant_ranges_disjoint(),
        &[range(&[Vertex], 0, 2)]
    );
    let r = PipelineLayout::new_unchecked(
        device(),
        PipelineLayoutCreateInfo::default(),
        1,
        |_device, _vk| Err(-2),
    );
    assert_eq!(r.unwrap_err(), RuntimeError::OutOfDeviceMemory);
}

#[test]
fn layout_from_a_handle() {
    let info = PipelineLayoutCreateInfo {
        set_layouts: vec![set(4, 0, &[])],
        ..Default::default()
    };
    let layout = PipelineLayout::from_handle(device(), 31, 12, info);
    assert_eq!(layout.handle(), 31);
    assert_eq!(layout.id(), 12);
    assert_eq!(layout.set_layouts()[0].handle, 1004);
}

#[test]
fn order_of_given_ranges_makes_no_difference() {
    let a = range(&[Vertex], 0, 12);
    let b = range(&[Fragment], 0, 12);
    let c = range(&[Compute], 4, 4);
    let x = layout(1, vec![], vec![a, b, c]);
    let y = layout(2, vec![], vec![c, b, a]);
    assert_eq!(x.push_constant_ranges(), &[a, b, c]);
    assert_eq!(x.push_constant_ranges(), y.push_constant_ranges());
    assert_eq!(
        x.push_constant_ranges_disjoint(),
        y.push_constant_ranges_disjoint()
    );
    assert!(x.is_compatible_with(&y, 0));
}

const UNIFORM: DescriptorType = DescriptorType::UniformBuffer;

#[test]
fn layout_is_compatible_with_itself() {
    let x = layout(1, vec![set(1, 0, &[])], vec![]);
    assert!(x.is_compatible_with(&x, 1));
    assert!(x.is_compatible_with(&x, 9));
}

#[test]
fn identical_definitions_are_compatible() {
    let x = layout(1, vec![set(1, 0, &[(0, UNIFORM, 1)]), set(2, 0, &[])], vec![]);
    let y = layout(2, vec![set(3, 0, &[(0, UNIFORM, 1)]), set(2, 0, &[])], vec![]);
    assert!(x.is_compatible_with(&y, 2));
    assert!(y.is_compatible_with(&x, 2));
}

#[test]
fn push_constants_invalidate_all_sets() {
    let x = layout(1, vec![set(1, 0, &[])], vec![range(&[Vertex], 0, 4)]);
    let y = layout(2, vec![set(1, 0, &[])], vec![range(&[Vertex], 0, 8)]);
    assert!(!x.is_compatible_with(&y, 1));
}

#[test]
fn different_set_invalidates() {
    let x = layout(1, vec![set(1, 0, &[]), set(2, 0, &[(0, UNIFORM, 1)])], vec![]);
    let other_count = layout(2, vec![set(1, 0, &[]), set(3, 0, &[(0, UNIFORM, 2)])], vec![]);
    let other_number = layout(3, vec![set(1, 0, &[]), set(4, 0, &[(1, UNIFORM, 1)])], vec![]);
    let more = layout(
        4,
        vec![
            set(1, 0, &[]),
            set(5, 0, &[(0, UNIFORM, 1), (1, UNIFORM, 1)]),
        ],
        vec![],
    );
    let other_flags = layout(5, vec![set(1, 0, &[]), set(6, 2, &[(0, UNIFORM, 1)])], vec![]);
    for y in [other_count, other_number, more, other_flags] {
        assert!(!x.is_compatible_with(&y, 2));
        assert!(!y.is_compatible_with(&x, 2));
    }
}

#[test]
fn other_layout_must_have_the_sets() {
    let x = layout(1, vec![set(1, 0, &[])], vec![]);
    let y = layout(2, vec![set(1, 0, &[]), set(2, 0, &[])], vec![]);
    assert!(x.is_compatible_with(&y, 1));
    assert!(x.is_compatible_with(&y, 2));
    assert!(!x.is_compatible_with(&y, 3));
    assert!(!y.is_compatible_with(&x, 2));
}

fn needs(types: &[DescriptorType], count: Option<u32>, list: &[ShaderStage]) -> DescriptorBindingRequirements {
    DescriptorBindingRequirements {
        descriptor_types: types.to_vec(),
        descriptor_count: count,
        image_format: None,
        image_multisampled: false,
        image_scalar_type: None,
        image_view_type: None,
        stages: stages(list),
    }
}

#[test]
fn superset_of_descriptors() {
    let x = layout(1, vec![set(1, 0, &[]), set(2, 0, &[(3, UNIFORM, 2)])], vec![]);
    let met = needs(&[DescriptorType::StorageBuffer, UNIFORM], Some(2), &[Vertex]);
    assert_eq!(x.ensure_compatible_with_shader(&[((1, 3), &met)], None), Ok(()));
    assert_eq!(
        x.ensure_compatible_with_shader(&[((1, 3), &met), ((0, 3), &met), ((7, 0), &met)], None),
        Err(PipelineLayoutSupersetError::DescriptorMissing {
            set_num: 0,
            binding_num: 3
        })
    );
    assert_eq!(
        x.ensure_compatible_with_shader(&[((2, 3), &met)], None),
        Err(PipelineLayoutSupersetError::DescriptorMissing {
            set_num: 2,
            binding_num: 3
        })
    );
    let cases = [
        (
            needs(&[DescriptorType::Sampler], Some(9), &[Compute]),
            DescriptorRequirementsNotMet::DescriptorType {
                required: vec![DescriptorType::Sampler],
                obtained: UNIFORM,
            },
        ),
        (
            needs(&[UNIFORM], Some(3), &[Compute]),
            DescriptorRequirementsNotMet::DescriptorCount {
                required: 3,
                obtained: 2,
            },
        ),
        (
            needs(&[UNIFORM], None, &[Vertex, Compute]),
            DescriptorRequirementsNotMet::ShaderStages {
                required: stages(&[Vertex, Compute]),
                obtained: stages(&[Vertex, Fragment]),
            },
        ),
    ];
    for (reqs, error) in cases {
        let e = x
            .ensure_compatible_with_shader(&[((1, 3), &reqs)], None)
            .unwrap_err();
        assert_eq!(e.source(), Some(&error));
        assert_eq!(
            e,
            PipelineLayoutSupersetError::DescriptorRequirementsNotMet {
                set_num: 1,
                binding_num: 3,
                error
            }
        );
    }
}

#[test]
fn superset_of_push_constants() {
    let own = range(&[Vertex, Fragment], 4, 12);
    let x = layout(1, vec![], vec![own, range(&[Geometry], 0, 4)]);
    let accepted = [
        range(&[Vertex], 4, 12),
        range(&[Fragment], 8, 4),
        range(&[Geometry], 0, 4),
        range(&[], 0, 128),
        range(&[Compute], 4, 0),
    ];
    for r in accepted {
        assert_eq!(x.ensure_compatible_with_shader(&[], Some(&r)), Ok(()));
    }
    for r in [range(&[Compute], 0, 128), range(&[Vertex, Compute], 4, 12)] {
        assert_eq!(
            x.ensure_compatible_with_shader(&[], Some(&r)),
            Err(PipelineLayoutSupersetError::PushConstantRange {
                first_range: PushConstantRange::default(),
                second_range: r
            })
        );
    }
    for r in [range(&[Vertex], 0, 8), range(&[Fragment, Compute], 4, 16)] {
        assert_eq!(
            x.ensure_compatible_with_shader(&[], Some(&r)),
            Err(PipelineLayoutSupersetError::PushConstantRange {
                first_range: own,
                second_range: r
            })
        );
    }
}

#[test]
fn layout_without_ranges_is_no_superset_of_a_range() {
    let x = layout(1, vec![], vec![]);
    let r = range(&[Vertex], 0, 4);
    let e = x.ensure_compatible_with_shader(&[], Some(&r)).unwrap_err();
    assert_eq!(
        e.message(),
        "our range did not completely encompass the other range\n    our stages: empty()\n    \
         our range: 0 - 0\n    other stages: VERTEX\n    other range: 0 - 4"
    );
}

#[test]
fn descriptors_are_looked_at_before_push_constants() {
    let x = layout(1, vec![], vec![range(&[Vertex], 4, 4)]);
    let reqs = needs(&[UNIFORM], None, &[Vertex]);
    assert_eq!(
        x.ensure_compatible_with_shader(&[((0, 0), &reqs)], Some(&range(&[Vertex], 0, 4))),
        Err(PipelineLayoutSupersetError::DescriptorMissing {
            set_num: 0,
            binding_num: 0
        })
    );
}

#[test]
fn messages_of_superset_errors() {
    let missing = PipelineLayoutSupersetError::DescriptorMissing {
        set_num: 10,
        binding_num: 4294967295,
    };
    assert_eq!(
        missing.message(),
        "a descriptor at set 10 binding 4294967295 is required by the shaders, but is missing \
         from the pipeline layout"
    );
    assert_eq!(missing.source(), None);
    let not_met = PipelineLayoutSupersetError::DescriptorRequirementsNotMet {
        set_num: 0,
        binding_num: 107,
        error: DescriptorRequirementsNotMet::DescriptorCount {
            required: 3,
            obtained: 2,
        },
    };
    assert_eq!(
        not_met.message(),
        "the descriptor at set 0 binding 107 does not meet the requirements"
    );
    let short = PipelineLayoutSupersetError::PushConstantRange {
        first_range: range(&[Vertex, Compute], 4, 12),
        second_range: range(&[Compute], 0, 20),
    };
    assert_eq!(
        short.message(),
        "our range did not completely encompass the other range\n    our stages: VERTEX | \
         COMPUTE\n    our range: 4 - 16\n    other stages: COMPUTE\n    other range: 0 - 20"
    );
    assert_eq!(short.source(), None);
}

#[test]
fn contexts_of_errors() {
    let e = ValidationError::from_requirement(RequirementNotMet {
        problem: "needs something".to_string(),
        requires_one_of: vec!["a".to_string(), "b".to_string()],
    });
    assert_eq!(e.context, "");
    assert!(e.vuids.is_empty());
    let e = e.add_context("size").add_context("range");
    assert_eq!(e.context, "range.size");
    assert_eq!(e.problem, "needs something");
    assert_eq!(e.requires_one_of, vec!["a".to_string(), "b".to_string()]);
}

#[test]
fn invalid_push_constant_stages() {
    assert!(range(&[], 0, 8).validate(&device()).is_err());
}

#[test]
fn invalid_push_constant_size1() {
    assert!(range(&[Vertex, Geometry, Fragment], 0, 0)
        .validate(&device())
        .is_err());
}

#[test]
fn invalid_push_constant_size2() {
    assert!(range(&[Vertex, Geometry, Fragment], 0, 11)
        .validate(&device())
        .is_err());
}

#[test]
fn sets_beyond_the_number_do_not_matter() {
    let x = layout(1, vec![set(1, 0, &[])], vec![]);
    let y = layout(2, vec![set(1, 0, &[]), set(2, 0, &[(0, UNIFORM, 1)])], vec![]);
    let z = layout(3, vec![set(1, 0, &[]), set(3, 0, &[(0, UNIFORM, 4)])], vec![]);
    assert!(x.is_compatible_with(&y, 1));
    assert!(x.is_compatible_with(&z, 1));
}

#[test]
fn layouts_are_equal_where_they_are_the_same_object() {
    let x = layout(1, vec![], vec![]);
    let y = layout(2, vec![], vec![]);
    assert!(x == x);
    assert!(x != y);
}

#[test]
fn range_whose_end_overflows() {
    let x = layout(1, vec![], vec![range(&[Vertex], 4, 4)]);
    let beyond = |list: &[ShaderStage], offset: u32| range(list, offset, u32::MAX);
    assert!(!x.can_be_compared_with(&beyond(&[Vertex], 4)));
    assert!(x.can_be_compared_with(&beyond(&[Vertex], 0)));
    // It is clear without the end, or no range is compared with it.
    let short = beyond(&[Vertex], 1);
    assert!(x.can_be_compared_with(&short));
    assert!(x.ensure_compatible_with_shader(&[], Some(&short)).is_err());
    let apart = beyond(&[Fragment], 8);
    assert!(x.can_be_compared_with(&apart));
    assert!(x.ensure_compatible_with_shader(&[], Some(&apart)).is_err());
}
