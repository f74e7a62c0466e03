//! The limits of a device on the number of descriptors.
use vstd::prelude::*;
use vstd::string::*;

use crate::descriptor_set::DescriptorType;
use crate::device::Properties;
use crate::shader::ShaderStage;

verus! {

/// A limit on the number of descriptors of some types together.
#[derive(Debug)]
pub struct DescriptorLimit {
    pub descriptor_types: Vec<DescriptorType>,
    pub limit: u32,
    pub limit_name: &'static str,
    pub vuid: &'static str,
}

/// The contents of a [`DescriptorLimit`].
#[verifier::ext_equal]
pub struct LimitView {
    pub descriptor_types: Seq<DescriptorType>,
    pub limit: u32,
    pub limit_name: Seq<char>,
    pub vuid: Seq<char>,
}

impl View for DescriptorLimit {
    type V = LimitView;

    open spec fn view(&self) -> LimitView {
        LimitView {
            descriptor_types: self.descriptor_types@,
            limit: self.limit,
            limit_name: self.limit_name@,
            vuid: self.vuid@,
        }
    }
}

/// The contents of a list of limits.
pub open spec fn limit_views(limits: Seq<DescriptorLimit>) -> Seq<LimitView> {
    limits.map_values(|limit: DescriptorLimit| limit@)
}

/// A limit that a device may not have; then it allows none.
pub open spec fn or_zero(limit: Option<u32>) -> u32 {
    match limit {
        Some(n) => n,
        None => 0,
    }
}

/// The limits on what one shader stage can access.
pub open spec fn per_stage_limits(p: Properties) -> Seq<LimitView> {
    seq![
        LimitView {
            descriptor_types: seq![DescriptorType::Sampler, DescriptorType::CombinedImageSampler],
            limit: p.max_per_stage_descriptor_samplers,
            limit_name: "max_per_stage_descriptor_samplers"@,
            vuid: "VUID-VkPipelineLayoutCreateInfo-descriptorType-03016"@,
        },
        LimitView {
            descriptor_types: seq![
                DescriptorType::UniformBuffer,
                DescriptorType::UniformBufferDynamic,
            ],
            limit: p.max_per_stage_descriptor_uniform_buffers,
            limit_name: "max_per_stage_descriptor_uniform_buffers"@,
            vuid: "VUID-VkPipelineLayoutCreateInfo-descriptorType-03017"@,
        },
        LimitView {
            descriptor_types: seq![
                DescriptorType::StorageBuffer,
                DescriptorType::StorageBufferDynamic,
            ],
            limit: p.max_per_stage_descriptor_storage_buffers,
            limit_name: "max_per_stage_descriptor_storage_buffers"@,
            vuid: "VUID-VkPipelineLayoutCreateInfo-descriptorType-03018"@,
        },
        LimitView {
            descriptor_types: seq![
                DescriptorType::CombinedImageSampler,
                DescriptorType::SampledImage,
                DescriptorType::UniformTexelBuffer,
            ],
            limit: p.max_per_stage_descriptor_sampled_images,
            limit_name: "max_per_stage_descriptor_sampled_images"@,
            vuid: "VUID-VkPipelineLayoutCreateInfo-descriptorType-06939"@,
        },
        LimitView {
            descriptor_types: seq![
                DescriptorType::StorageImage,
                DescriptorType::StorageTexelBuffer,
            ],
            limit: p.max_per_stage_descriptor_storage_images,
            limit_name: "max_per_stage_descriptor_storage_images"@,
            vuid: "VUID-VkPipelineLayoutCreateInfo-descriptorType-03020"@,
        },
        LimitView {
            descriptor_types: seq![DescriptorType::InputAttachment],
            limit: p.max_per_stage_descriptor_input_attachments,
            limit_name: "max_per_stage_descriptor_input_attachments"@,
            vuid: "VUID-VkPipelineLayoutCreateInfo-descriptorType-03021"@,
        },
        LimitView {
            descriptor_types: seq![DescriptorType::AccelerationStructure],
            limit: or_zero(p.max_per_stage_descriptor_acceleration_structures),
            limit_name: "max_per_stage_descriptor_acceleration_structures"@,
            vuid: "VUID-VkPipelineLayoutCreateInfo-descriptorType-03571"@,
        },
    ]
}

/// The limits on what all shader stages together can access.
pub open spec fn total_limits(p: Properties) -> Seq<LimitView> {
    seq![
        LimitView {
            descriptor_types: seq![DescriptorType::Sampler, DescriptorType::CombinedImageSampler],
            limit: p.max_descriptor_set_samplers,
            limit_name: "max_descriptor_set_samplers"@,
            vuid: "VUID-VkPipelineLayoutCreateInfo-descriptorType-03028"@,
        },
        LimitView {
            descriptor_types: seq![DescriptorType::UniformBuffer],
            limit: p.max_descriptor_set_uniform_buffers,
            limit_name: "max_descriptor_set_uniform_buffers"@,
            vuid: "VUID-VkPipelineLayoutCreateInfo-descriptorType-03029"@,
        },
        LimitView {
            descriptor_types: seq![DescriptorType::UniformBufferDynamic],
            limit: p.max_descriptor_set_uniform_buffers_dynamic,
            limit_name: "max_descriptor_set_uniform_buffers_dynamic"@,
            vuid: "VUID-VkPipelineLayoutCreateInfo-descriptorType-03030"@,
        },
        LimitView {
            descriptor_types: seq![DescriptorType::StorageBuffer],
            limit: p.max_descriptor_set_storage_buffers,
            limit_name: "max_descriptor_set_storage_buffers"@,
            vuid: "VUID-VkPipelineLayoutCreateInfo-descriptorType-03031"@,
        },
        LimitView {
            descriptor_types: seq![DescriptorType::StorageBufferDynamic],
            limit: p.max_descriptor_set_storage_buffers_dynamic,
            limit_name: "max_descriptor_set_storage_buffers_dynamic"@,
            vuid: "VUID-VkPipelineLayoutCreateInfo-descriptorType-03032"@,
        },
        LimitView {
            descriptor_types: seq![
                DescriptorType::CombinedImageSampler,
                DescriptorType::SampledImage,
                DescriptorType::UniformTexelBuffer,
            ],
            limit: p.max_descriptor_set_sampled_images,
            limit_name: "max_descriptor_set_sampled_images"@,
            vuid: "VUID-VkPipelineLayoutCreateInfo-descriptorType-03033"@,
        },
        LimitView {
            descriptor_types: seq![
                DescriptorType::StorageImage,
                DescriptorType::StorageTexelBuffer,
            ],
            limit: p.max_descriptor_set_storage_images,
            limit_name: "max_descriptor_set_storage_images"@,
            vuid: "VUID-VkPipelineLayoutCreateInfo-descriptorType-03034"@,
        },
        LimitView {
            descriptor_types: seq![DescriptorType::InputAttachment],
            limit: p.max_descriptor_set_input_attachments,
            limit_name: "max_descriptor_set_input_attachments"@,
            vuid: "VUID-VkPipelineLayoutCreateInfo-descriptorType-03035"@,
        },
        LimitView {
            descriptor_types: seq![DescriptorType::AccelerationStructure],
            limit: or_zero(p.max_descriptor_set_acceleration_structures),
            limit_name: "max_descriptor_set_acceleration_structures"@,
            vuid: "VUID-VkPipelineLayoutCreateInfo-descriptorType-03573"@,
        },
    ]
}

fn value_or_zero(limit: Option<u32>) -> (n: u32)
    ensures
        n == or_zero(limit),
{
    match limit {
        Some(n) => n,
        None => 0,
    }
}

/// The limits on what one shader stage can access.
pub fn make_per_stage_limits(p: &Properties) -> (limits: Vec<DescriptorLimit>)
    ensures
        limit_views(limits@) == per_stage_limits(*p),
{
    let limits = vec![
        DescriptorLimit {
            descriptor_types: vec![DescriptorType::Sampler, DescriptorType::CombinedImageSampler],
            limit: p.max_per_stage_descriptor_samplers,
            limit_name: "max_per_stage_descriptor_samplers",
            vuid: "VUID-VkPipelineLayoutCreateInfo-descriptorType-03016",
        },
        DescriptorLimit {
            descriptor_types: vec![
                DescriptorType::UniformBuffer,
                DescriptorType::UniformBufferDynamic,
            ],
            limit: p.max_per_stage_descriptor_uniform_buffers,
            limit_name: "max_per_stage_descriptor_uniform_buffers",
            vuid: "VUID-VkPipelineLayoutCreateInfo-descriptorType-03017",
        },
        DescriptorLimit {
            descriptor_types: vec![
                DescriptorType::StorageBuffer,
                DescriptorType::StorageBufferDynamic,
            ],
            limit: p.max_per_stage_descriptor_storage_buffers,
            limit_name: "max_per_stage_descriptor_storage_buffers",
            vuid: "VUID-VkPipelineLayoutCreateInfo-descriptorType-03018",
        },
        DescriptorLimit {
            descriptor_types: vec![
                DescriptorType::CombinedImageSampler,
                DescriptorType::SampledImage,
                DescriptorType::UniformTexelBuffer,
            ],
            limit: p.max_per_stage_descriptor_sampled_images,
            limit_name: "max_per_stage_descriptor_sampled_images",
            vuid: "VUID-VkPipelineLayoutCreateInfo-descriptorType-06939",
        },
        DescriptorLimit {
            descriptor_types: vec![
                DescriptorType::StorageImage,
                DescriptorType::StorageTexelBuffer,
            ],
            limit: p.max_per_stage_descriptor_storage_images,
            limit_name: "max_per_stage_descriptor_storage_images",
            vuid: "VUID-VkPipelineLayoutCreateInfo-descriptorType-03020",
        },
        DescriptorLimit {
            descriptor_types: vec![DescriptorType::InputAttachment],
            limit: p.max_per_stage_descriptor_input_attachments,
            limit_name: "max_per_stage_descriptor_input_attachments",
            vuid: "VUID-VkPipelineLayoutCreateInfo-descriptorType-03021",
        },
        DescriptorLimit {
            descriptor_types: vec![DescriptorType::AccelerationStructure],
            limit: value_or_zero(p.max_per_stage_descriptor_acceleration_structures),
            limit_name: "max_per_stage_descriptor_acceleration_structures",
            vuid: "VUID-VkPipelineLayoutCreateInfo-descriptorType-03571",
        },
    ];
    proof {
        let spec = per_stage_limits(*p);
        assert forall|i: int| 0 <= i < 7 implies limits@[i]@ == #[trigger] spec[i] by {
            assert(limits@[i]@.descriptor_types =~= spec[i].descriptor_types);
        }
        assert(limit_views(limits@) =~= spec);
    }
    limits
}

/// The limits on what all shader stages together can access.
pub fn make_total_limits(p: &Properties) -> (limits: Vec<DescriptorLimit>)
    ensures
        limit_views(limits@) == total_limits(*p),
{
    let limits = vec![
        DescriptorLimit {
            descriptor_types: vec![DescriptorType::Sampler, DescriptorType::CombinedImageSampler],
            limit: p.max_descriptor_set_samplers,
            limit_name: "max_descriptor_set_samplers",
            vuid: "VUID-VkPipelineLayoutCreateInfo-descriptorType-03028",
        },
        DescriptorLimit {
            descriptor_types: vec![DescriptorType::UniformBuffer],
            limit: p.max_descriptor_set_uniform_buffers,
            limit_name: "max_descriptor_set_uniform_buffers",
            vuid: "VUID-VkPipelineLayoutCreateInfo-descriptorType-03029",
        },
        DescriptorLimit {
            descriptor_types: vec![DescriptorType::UniformBufferDynamic],
            limit: p.max_descriptor_set_uniform_buffers_dynamic,
            limit_name: "max_descriptor_set_uniform_buffers_dynamic",
            vuid: "VUID-VkPipelineLayoutCreateInfo-descriptorType-03030",
        },
        DescriptorLimit {
            descriptor_types: vec![DescriptorType::StorageBuffer],
            limit: p.max_descriptor_set_storage_buffers,
            limit_name: "max_descriptor_set_storage_buffers",
            vuid: "VUID-VkPipelineLayoutCreateInfo-descriptorType-03031",
        },
        DescriptorLimit {
            descriptor_types: vec![DescriptorType::StorageBufferDynamic],
            limit: p.max_descriptor_set_storage_buffers_dynamic,
            limit_name: "max_descriptor_set_storage_buffers_dynamic",
            vuid: "VUID-VkPipelineLayoutCreateInfo-descriptorType-03032",
        },
        DescriptorLimit {
            descriptor_types: vec![
                DescriptorType::CombinedImageSampler,
                DescriptorType::SampledImage,
                DescriptorType::UniformTexelBuffer,
            ],
            limit: p.max_descriptor_set_sampled_images,
            limit_name: "max_descriptor_set_sampled_images",
            vuid: "VUID-VkPipelineLayoutCreateInfo-descriptorType-03033",
        },
        DescriptorLimit {
            descriptor_types: vec![
                DescriptorType::StorageImage,
                DescriptorType::StorageTexelBuffer,
            ],
            limit: p.max_descriptor_set_storage_images,
            limit_name: "max_descriptor_set_storage_images",
            vuid: "VUID-VkPipelineLayoutCreateInfo-descriptorType-03034",
        },
        DescriptorLimit {
            descriptor_types: vec![DescriptorType::InputAttachment],
            limit: p.max_descriptor_set_input_attachments,
            limit_name: "max_descriptor_set_input_attachments",
            vuid: "VUID-VkPipelineLayoutCreateInfo-descriptorType-03035",
        },
        DescriptorLimit {
            descriptor_types: vec![DescriptorType::AccelerationStructure],
            limit: value_or_zero(p.max_descriptor_set_acceleration_structures),
            limit_name: "max_descriptor_set_acceleration_structures",
            vuid: "VUID-VkPipelineLayoutCreateInfo-descriptorType-03573",
        },
    ];
    proof {
        let spec = total_limits(*p);
        assert forall|i: int| 0 <= i < 9 implies limits@[i]@ == #[trigger] spec[i] by {
            assert(limits@[i]@.descriptor_types =~= spec[i].descriptor_types);
        }
        assert(limit_views(limits@) =~= spec);
    }
    limits
}

/// The types, as messages write them.
pub open spec fn types_text(types: Seq<DescriptorType>) -> Seq<char>
    decreases types.len(),
{
    if types.len() <= 1 {
        "DescriptorType::"@ + types[0].spec_name()
    } else {
        types_text(types.drop_last()) + " + DescriptorType::"@ + types.last().spec_name()
    }
}

/// What is said where a stage has more descriptors than it may have.
pub open spec fn stage_problem(limit: LimitView, stage: ShaderStage) -> Seq<char> {
    "the combined number of "@ + types_text(limit.descriptor_types)
        + " descriptors accessible to the ShaderStage::"@ + stage.spec_name()
        + " stage exceeds the "@ + limit.limit_name + " limit"@
}

/// What is said where all stages together have more descriptors than they may have.
pub open spec fn total_problem(limit: LimitView) -> Seq<char> {
    "the combined number of "@ + types_text(limit.descriptor_types)
        + " descriptors accessible across all shader stages exceeds the "@ + limit.limit_name
        + " limit"@
}

fn append_types(text: &mut String, types: &Vec<DescriptorType>)
    requires
        types.len() > 0,
    ensures
        final(text)@ == old(text)@ + types_text(types@),
{
    text.append("DescriptorType::");
    text.append(types[0].name());
    let mut i: usize = 1;
    assert(text@ =~= old(text)@ + types_text(types@.take(1)));
    while i < types.len()
        invariant
            1 <= i <= types.len(),
            text@ == old(text)@ + types_text(types@.take(i as int)),
        decreases types.len() - i,
    {
        proof {
            assert(types@.take(i + 1).drop_last() =~= types@.take(i as int));
            assert(types@.take(i + 1).last() == types@[i as int]);
        }
        text.append(" + DescriptorType::");
        text.append(types[i].name());
        assert(text@ =~= old(text)@ + types_text(types@.take(i + 1)));
        i = i + 1;
    }
    assert(types@.take(i as int) =~= types@);
}

impl DescriptorLimit {
    pub(crate) fn stage_problem(&self, stage: ShaderStage) -> (text: String)
        requires
            self.descriptor_types.len() > 0,
        ensures
            text@ == stage_problem(self@, stage),
    {
        let mut text = "the combined number of ".to_owned();
        append_types(&mut text, &self.descriptor_types);
        text.append(" descriptors accessible to the ShaderStage::");
        text.append(stage.name());
        text.append(" stage exceeds the ");
        text.append(self.limit_name);
        text.append(" limit");
        text
    }

    pub(crate) fn total_problem(&self) -> (text: String)
        requires
            self.descriptor_types.len() > 0,
        ensures
            text@ == total_problem(self@),
    {
        let mut text = "the combined number of ".to_owned();
        append_types(&mut text, &self.descriptor_types);
        text.append(" descriptors accessible across all shader stages exceeds the ");
        text.append(self.limit_name);
        text.append(" limit");
        text
    }
}

} // verus!
