//! What it means that the parameters of a pipeline layout are accepted, limit by limit, and what is
//! said of those that are not.
use std::sync::Arc;

use vstd::prelude::*;

use crate::count;
use crate::create_info;
use crate::create_info::PipelineLayoutCreateInfo;
use crate::descriptor_set::DescriptorSetLayout;
use crate::descriptor_set::DescriptorType;
use crate::device;
use crate::device::Device;
use crate::device::Properties;
use crate::error;
use crate::limits;
use crate::range;
use crate::shader;
use crate::text;

verus! {

/// A limit that a device may not have; then it allows none.
pub open spec fn allowed(limit: Option<u32>) -> u32 {
    if limit is Some {
        limit->Some_0
    } else {
        0
    }
}

/// Whether the stage whose bit is at position `k` keeps limit `l` of the limits on one stage.
pub open spec fn keeps_in_stage(
    sets: Seq<Arc<DescriptorSetLayout>>,
    p: Properties,
    l: int,
    k: u32,
) -> bool {
    count::number_in_stage(sets, k, stage_types(l)) <= stage_limit(p, l)
}

/// Whether all stages together keep limit `l` of the limits on all stages.
pub open spec fn keeps_in_total(
    sets: Seq<Arc<DescriptorSetLayout>>,
    p: Properties,
    l: int,
) -> bool {
    count::number_in_total(sets, total_types(l)) <= total_limit(p, l)
}

/// The types that limit `l` on one stage is on.
pub open spec fn stage_types(l: int) -> spec_fn(DescriptorType) -> bool {
    if l == 0 {
        |t: DescriptorType| t == DescriptorType::Sampler || t == DescriptorType::CombinedImageSampler
    } else if l == 1 {
        |t: DescriptorType| t == DescriptorType::UniformBuffer || t == DescriptorType::UniformBufferDynamic
    } else if l == 2 {
        |t: DescriptorType| t == DescriptorType::StorageBuffer || t == DescriptorType::StorageBufferDynamic
    } else if l == 3 {
        |t: DescriptorType| t == DescriptorType::CombinedImageSampler || t == DescriptorType::SampledImage || t == DescriptorType::UniformTexelBuffer
    } else if l == 4 {
        |t: DescriptorType| t == DescriptorType::StorageImage || t == DescriptorType::StorageTexelBuffer
    } else if l == 5 {
        |t: DescriptorType| t == DescriptorType::InputAttachment
    } else {
        |t: DescriptorType| t == DescriptorType::AccelerationStructure
    }
}

/// What limit `l` on one stage allows.
pub open spec fn stage_limit(p: Properties, l: int) -> u32 {
    if l == 0 {
        p.max_per_stage_descriptor_samplers
    } else if l == 1 {
        p.max_per_stage_descriptor_uniform_buffers
    } else if l == 2 {
        p.max_per_stage_descriptor_storage_buffers
    } else if l == 3 {
        p.max_per_stage_descriptor_sampled_images
    } else if l == 4 {
        p.max_per_stage_descriptor_storage_images
    } else if l == 5 {
        p.max_per_stage_descriptor_input_attachments
    } else {
        allowed(p.max_per_stage_descriptor_acceleration_structures)
    }
}

/// The name of limit `l` on one stage.
pub open spec fn stage_limit_name(l: int) -> Seq<char> {
    if l == 0 {
        "max_per_stage_descriptor_samplers"@
    } else if l == 1 {
        "max_per_stage_descriptor_uniform_buffers"@
    } else if l == 2 {
        "max_per_stage_descriptor_storage_buffers"@
    } else if l == 3 {
        "max_per_stage_descriptor_sampled_images"@
    } else if l == 4 {
        "max_per_stage_descriptor_storage_images"@
    } else if l == 5 {
        "max_per_stage_descriptor_input_attachments"@
    } else {
        "max_per_stage_descriptor_acceleration_structures"@
    }
}

/// The rule about limit `l` on one stage.
pub open spec fn stage_vuid(l: int) -> Seq<char> {
    if l == 0 {
        "VUID-VkPipelineLayoutCreateInfo-descriptorType-03016"@
    } else if l == 1 {
        "VUID-VkPipelineLayoutCreateInfo-descriptorType-03017"@
    } else if l == 2 {
        "VUID-VkPipelineLayoutCreateInfo-descriptorType-03018"@
    } else if l == 3 {
        "VUID-VkPipelineLayoutCreateInfo-descriptorType-06939"@
    } else if l == 4 {
        "VUID-VkPipelineLayoutCreateInfo-descriptorType-03020"@
    } else if l == 5 {
        "VUID-VkPipelineLayoutCreateInfo-descriptorType-03021"@
    } else {
        "VUID-VkPipelineLayoutCreateInfo-descriptorType-03571"@
    }
}

/// The types that limit `l` on one stage is on, in words.
pub open spec fn stage_types_text(l: int) -> Seq<char> {
    if l == 0 {
        "DescriptorType::"@ + "Sampler"@ + " + DescriptorType::"@ + "CombinedImageSampler"@
    } else if l == 1 {
        "DescriptorType::"@ + "UniformBuffer"@ + " + DescriptorType::"@ + "UniformBufferDynamic"@
    } else if l == 2 {
        "DescriptorType::"@ + "StorageBuffer"@ + " + DescriptorType::"@ + "StorageBufferDynamic"@
    } else if l == 3 {
        "DescriptorType::"@ + "CombinedImageSampler"@ + " + DescriptorType::"@ + "SampledImage"@ + " + DescriptorType::"@ + "UniformTexelBuffer"@
    } else if l == 4 {
        "DescriptorType::"@ + "StorageImage"@ + " + DescriptorType::"@ + "StorageTexelBuffer"@
    } else if l == 5 {
        "DescriptorType::"@ + "InputAttachment"@
    } else {
        "DescriptorType::"@ + "AccelerationStructure"@
    }
}

/// The types that limit `l` on all stages is on.
pub open spec fn total_types(l: int) -> spec_fn(DescriptorType) -> bool {
    if l == 0 {
        |t: DescriptorType| t == DescriptorType::Sampler || t == DescriptorType::CombinedImageSampler
    } else if l == 1 {
        |t: DescriptorType| t == DescriptorType::UniformBuffer
    } else if l == 2 {
        |t: DescriptorType| t == DescriptorType::UniformBufferDynamic
    } else if l == 3 {
        |t: DescriptorType| t == DescriptorType::StorageBuffer
    } else if l == 4 {
        |t: DescriptorType| t == DescriptorType::StorageBufferDynamic
    } else if l == 5 {
        |t: DescriptorType| t == DescriptorType::CombinedImageSampler || t == DescriptorType::SampledImage || t == DescriptorType::UniformTexelBuffer
    } else if l == 6 {
        |t: DescriptorType| t == DescriptorType::StorageImage || t == DescriptorType::StorageTexelBuffer
    } else if l == 7 {
        |t: DescriptorType| t == DescriptorType::InputAttachment
    } else {
        |t: DescriptorType| t == DescriptorType::AccelerationStructure
    }
}

/// What limit `l` on all stages allows.
pub open spec fn total_limit(p: Properties, l: int) -> u32 {
    if l == 0 {
        p.max_descriptor_set_samplers
    } else if l == 1 {
        p.max_descriptor_set_uniform_buffers
    } else if l == 2 {
        p.max_descriptor_set_uniform_buffers_dynamic
    } else if l == 3 {
        p.max_descriptor_set_storage_buffers
    } else if l == 4 {
        p.max_descriptor_set_storage_buffers_dynamic
    } else if l == 5 {
        p.max_descriptor_set_sampled_images
    } else if l == 6 {
        p.max_descriptor_set_storage_images
    } else if l == 7 {
        p.max_descriptor_set_input_attachments
    } else {
        allowed(p.max_descriptor_set_acceleration_structures)
    }
}

/// The name of limit `l` on all stages.
pub open spec fn total_limit_name(l: int) -> Seq<char> {
    if l == 0 {
        "max_descriptor_set_samplers"@
    } else if l == 1 {
        "max_descriptor_set_uniform_buffers"@
    } else if l == 2 {
        "max_descriptor_set_uniform_buffers_dynamic"@
    } else if l == 3 {
        "max_descriptor_set_storage_buffers"@
    } else if l == 4 {
        "max_descriptor_set_storage_buffers_dynamic"@
    } else if l == 5 {
        "max_descriptor_set_sampled_images"@
    } else if l == 6 {
        "max_descriptor_set_storage_images"@
    } else if l == 7 {
        "max_descriptor_set_input_attachments"@
    } else {
        "max_descriptor_set_acceleration_structures"@
    }
}

/// The rule about limit `l` on all stages.
pub open spec fn total_vuid(l: int) -> Seq<char> {
    if l == 0 {
        "VUID-VkPipelineLayoutCreateInfo-descriptorType-03028"@
    } else if l == 1 {
        "VUID-VkPipelineLayoutCreateInfo-descriptorType-03029"@
    } else if l == 2 {
        "VUID-VkPipelineLayoutCreateInfo-descriptorType-03030"@
    } else if l == 3 {
        "VUID-VkPipelineLayoutCreateInfo-descriptorType-03031"@
    } else if l == 4 {
        "VUID-VkPipelineLayoutCreateInfo-descriptorType-03032"@
    } else if l == 5 {
        "VUID-VkPipelineLayoutCreateInfo-descriptorType-03033"@
    } else if l == 6 {
        "VUID-VkPipelineLayoutCreateInfo-descriptorType-03034"@
    } else if l == 7 {
        "VUID-VkPipelineLayoutCreateInfo-descriptorType-03035"@
    } else {
        "VUID-VkPipelineLayoutCreateInfo-descriptorType-03573"@
    }
}

/// The types that limit `l` on all stages is on, in words.
pub open spec fn total_types_text(l: int) -> Seq<char> {
    if l == 0 {
        "DescriptorType::"@ + "Sampler"@ + " + DescriptorType::"@ + "CombinedImageSampler"@
    } else if l == 1 {
        "DescriptorType::"@ + "UniformBuffer"@
    } else if l == 2 {
        "DescriptorType::"@ + "UniformBufferDynamic"@
    } else if l == 3 {
        "DescriptorType::"@ + "StorageBuffer"@
    } else if l == 4 {
        "DescriptorType::"@ + "StorageBufferDynamic"@
    } else if l == 5 {
        "DescriptorType::"@ + "CombinedImageSampler"@ + " + DescriptorType::"@ + "SampledImage"@ + " + DescriptorType::"@ + "UniformTexelBuffer"@
    } else if l == 6 {
        "DescriptorType::"@ + "StorageImage"@ + " + DescriptorType::"@ + "StorageTexelBuffer"@
    } else if l == 7 {
        "DescriptorType::"@ + "InputAttachment"@
    } else {
        "DescriptorType::"@ + "AccelerationStructure"@
    }
}

/// Which types are in a short list.
proof fn lemma_short_lists(a: DescriptorType, b: DescriptorType, c: DescriptorType, t: DescriptorType)
    ensures
        seq![a].contains(t) == (t == a),
        seq![a, b].contains(t) == (t == a || t == b),
        seq![a, b, c].contains(t) == (t == a || t == b || t == c),
{
    let one = seq![a];
    let two = seq![a, b];
    let three = seq![a, b, c];
    assert(one[0] == a);
    assert(two[0] == a && two[1] == b);
    assert(three[0] == a && three[1] == b && three[2] == c);
}

/// The limits on one stage are on these types and allow this much.
proof fn lemma_stage_limit(p: Properties, l: int)
    requires
        0 <= l < 7,
    ensures
        limits::per_stage_limits(p).len() == 7,
        limits::per_stage_limits(p)[l].limit == stage_limit(p, l),
        forall|t: DescriptorType| #[trigger]
            limits::per_stage_limits(p)[l].descriptor_types.contains(t) == stage_types(l)(t),
{
    let types = limits::per_stage_limits(p)[l].descriptor_types;
    assert forall|t: DescriptorType| #[trigger] types.contains(t) == stage_types(l)(t) by {
        lemma_short_lists(types[0], types[1], types[2], t);
        assert(types =~= seq![types[0]] || types =~= seq![types[0], types[1]] || types =~= seq![
            types[0],
            types[1],
            types[2],
        ]);
    }
}

/// The limits on all stages are on these types and allow this much.
proof fn lemma_total_limit(p: Properties, l: int)
    requires
        0 <= l < 9,
    ensures
        limits::total_limits(p).len() == 9,
        limits::total_limits(p)[l].limit == total_limit(p, l),
        forall|t: DescriptorType| #[trigger]
            limits::total_limits(p)[l].descriptor_types.contains(t) == total_types(l)(t),
{
    let types = limits::total_limits(p)[l].descriptor_types;
    assert forall|t: DescriptorType| #[trigger] types.contains(t) == total_types(l)(t) by {
        lemma_short_lists(types[0], types[1], types[2], t);
        assert(types =~= seq![types[0]] || types =~= seq![types[0], types[1]] || types =~= seq![
            types[0],
            types[1],
            types[2],
        ]);
    }
}

/// Whether no flag is used that the device does not support.
pub open spec fn flags_supported(device: Device, bits: u32) -> bool {
    forall|i: int|
        0 <= i < device.unsupported_layout_flags@.len() ==> (
        #[trigger] device.unsupported_layout_flags@[i]).flag & bits == 0
}

/// Whether at most one set is a push descriptor set.
pub open spec fn at_most_one_push_set(sets: Seq<Arc<DescriptorSetLayout>>) -> bool {
    forall|i: int, j: int|
        0 <= i < j < sets.len() ==> !((#[trigger] sets[i]).flags.bits & 1 != 0 && (
        #[trigger] sets[j]).flags.bits & 1 != 0)
}

/// All sets are counted exactly where at most one is a push descriptor set.
proof fn lemma_push_sets(sets: Seq<Arc<DescriptorSetLayout>>)
    ensures
        count::counted_sets(sets) <= sets.len(),
        count::counted_sets(sets) == sets.len() <==> at_most_one_push_set(sets),
{
    count::law_one_push_set(sets);
    if at_most_one_push_set(sets) {
        assert forall|i: int, j: int| 0 <= i < j < sets.len() implies !(count::is_push(
            *(#[trigger] sets[i]),
        ) && count::is_push(*(#[trigger] sets[j]))) by {
            assert(!(sets[i].flags.bits & 1 != 0 && sets[j].flags.bits & 1 != 0));
        }
    } else {
        let (i, j) = choose|i: int, j: int|
            0 <= i < j < sets.len() && (#[trigger] sets[i]).flags.bits & 1 != 0 && (
            #[trigger] sets[j]).flags.bits & 1 != 0;
        assert(count::is_push(*sets[i]) && count::is_push(*sets[j]));
    }
}

/// Parameters are accepted exactly where the device supports their flags, there are not too many
/// sets, at most one set is a push descriptor set, each stage and all stages together keep each limit
/// on descriptors, each range is accepted, and no two ranges have a stage in common.
pub proof fn law_accepted_parameters(info: PipelineLayoutCreateInfo, device: Device)
    ensures
        create_info::is_verdict(info, device, None) <==> {
            let sets = info.set_layouts@;
            let ranges = info.push_constant_ranges@;
            let p = device.properties;
            &&& flags_supported(device, info.flags.bits)
            &&& sets.len() <= p.max_bound_descriptor_sets
            &&& at_most_one_push_set(sets)
            &&& forall|l: int, k: u32|
                0 <= l < 7 && k < 15 ==> #[trigger] keeps_in_stage(sets, p, l, k)
            &&& forall|l: int| 0 <= l < 9 ==> #[trigger] keeps_in_total(sets, p, l)
            &&& forall|i: int|
                0 <= i < ranges.len() ==> range::range_error(#[trigger] ranges[i], device) is None
            &&& forall|i: int, j: int|
                0 <= i < j < ranges.len() ==> (#[trigger] ranges[i]).stages.bits & (
                #[trigger] ranges[j]).stages.bits == 0
        },
{
    let sets = info.set_layouts@;
    let ranges = info.push_constant_ranges@;
    let p = device.properties;
    let stage_limits = limits::per_stage_limits(p);
    let total_limits = limits::total_limits(p);
    create_info::law_acceptance(info, device);
    device::law_supported(device.unsupported_layout_flags@, info.flags.bits);
    device::law_nothing_missing(device.unsupported_layout_flags@, info.flags.bits);
    lemma_push_sets(sets);
    count::law_one_push_set(sets);
    assert(stage_limits.len() == 7 && total_limits.len() == 9);
    assert forall|l: int, k: u32| 0 <= l < 7 && k < 15 implies #[trigger] keeps_in_stage(
        sets,
        p,
        l,
        k,
    ) == (count::stage_count(stage_limits[l], k, sets) <= stage_limits[l].limit) by {
        lemma_stage_limit(p, l);
        count::lemma_numbers(stage_limits[l], stage_types(l), sets);
    }
    assert forall|l: int| 0 <= l < 9 implies #[trigger] keeps_in_total(sets, p, l) == (
    count::total_count(total_limits[l], sets) <= total_limits[l].limit) by {
        lemma_total_limit(p, l);
        count::lemma_numbers(total_limits[l], total_types(l), sets);
    }
    if create_info::keeps_all_rules(info, device) {
        assert forall|l: int, k: u32| 0 <= l < 7 && k < 15 implies #[trigger] keeps_in_stage(
            sets,
            p,
            l,
            k,
        ) by {
            assert(count::stage_count(stage_limits[l], k, sets) <= stage_limits[l].limit);
        }
        assert forall|l: int| 0 <= l < 9 implies #[trigger] keeps_in_total(sets, p, l) by {
            assert(count::total_count(total_limits[l], sets) <= total_limits[l].limit);
        }
        assert forall|i: int, j: int| 0 <= i < j < ranges.len() implies (
        #[trigger] ranges[i]).stages.bits & (#[trigger] ranges[j]).stages.bits == 0 by {
            assert(!shader::masks_meet(ranges[i].stages.bits, ranges[j].stages.bits));
        }
    }
    if (forall|l: int, k: u32| 0 <= l < 7 && k < 15 ==> #[trigger] keeps_in_stage(sets, p, l, k))
        && (forall|l: int| 0 <= l < 9 ==> #[trigger] keeps_in_total(sets, p, l)) {
        assert forall|l: int, k: u32|
            0 <= l < 7 && k < 15 implies #[trigger] count::stage_count(stage_limits[l], k, sets)
            <= stage_limits[l].limit by {
            assert(keeps_in_stage(sets, p, l, k));
        }
        assert forall|l: int| 0 <= l < 9 implies count::total_count(
            #[trigger] total_limits[l],
            sets,
        ) <= total_limits[l].limit by {
            assert(keeps_in_total(sets, p, l));
        }
    }
}

/// Whether the stage whose bit is at position `k` can access no more descriptors of each group of
/// types than a device allows for one stage.
pub open spec fn allowed_in_stage(
    sets: Seq<Arc<DescriptorSetLayout>>,
    p: Properties,
    k: u32,
) -> bool {
    &&& count::number_in_stage(
            sets,
            k,
            |t: DescriptorType| t == DescriptorType::Sampler || t == DescriptorType::CombinedImageSampler,
        ) <= p.max_per_stage_descriptor_samplers
    &&& count::number_in_stage(
            sets,
            k,
            |t: DescriptorType| t == DescriptorType::UniformBuffer || t == DescriptorType::UniformBufferDynamic,
        ) <= p.max_per_stage_descriptor_uniform_buffers
    &&& count::number_in_stage(
            sets,
            k,
            |t: DescriptorType| t == DescriptorType::StorageBuffer || t == DescriptorType::StorageBufferDynamic,
        ) <= p.max_per_stage_descriptor_storage_buffers
    &&& count::number_in_stage(
            sets,
            k,
            |t: DescriptorType| t == DescriptorType::CombinedImageSampler || t == DescriptorType::SampledImage || t == DescriptorType::UniformTexelBuffer,
        ) <= p.max_per_stage_descriptor_sampled_images
    &&& count::number_in_stage(
            sets,
            k,
            |t: DescriptorType| t == DescriptorType::StorageImage || t == DescriptorType::StorageTexelBuffer,
        ) <= p.max_per_stage_descriptor_storage_images
    &&& count::number_in_stage(
            sets,
            k,
            |t: DescriptorType| t == DescriptorType::InputAttachment,
        ) <= p.max_per_stage_descriptor_input_attachments
    &&& count::number_in_stage(
            sets,
            k,
            |t: DescriptorType| t == DescriptorType::AccelerationStructure,
        ) <= allowed(p.max_per_stage_descriptor_acceleration_structures)
}

/// Whether all stages together can access no more descriptors of each group of types than a device
/// allows for a pipeline layout.
pub open spec fn allowed_in_total(sets: Seq<Arc<DescriptorSetLayout>>, p: Properties) -> bool {
    &&& count::number_in_total(
            sets,
            |t: DescriptorType| t == DescriptorType::Sampler || t == DescriptorType::CombinedImageSampler,
        ) <= p.max_descriptor_set_samplers
    &&& count::number_in_total(
            sets,
            |t: DescriptorType| t == DescriptorType::UniformBuffer,
        ) <= p.max_descriptor_set_uniform_buffers
    &&& count::number_in_total(
            sets,
            |t: DescriptorType| t == DescriptorType::UniformBufferDynamic,
        ) <= p.max_descriptor_set_uniform_buffers_dynamic
    &&& count::number_in_total(
            sets,
            |t: DescriptorType| t == DescriptorType::StorageBuffer,
        ) <= p.max_descriptor_set_storage_buffers
    &&& count::number_in_total(
            sets,
            |t: DescriptorType| t == DescriptorType::StorageBufferDynamic,
        ) <= p.max_descriptor_set_storage_buffers_dynamic
    &&& count::number_in_total(
            sets,
            |t: DescriptorType| t == DescriptorType::CombinedImageSampler || t == DescriptorType::SampledImage || t == DescriptorType::UniformTexelBuffer,
        ) <= p.max_descriptor_set_sampled_images
    &&& count::number_in_total(
            sets,
            |t: DescriptorType| t == DescriptorType::StorageImage || t == DescriptorType::StorageTexelBuffer,
        ) <= p.max_descriptor_set_storage_images
    &&& count::number_in_total(
            sets,
            |t: DescriptorType| t == DescriptorType::InputAttachment,
        ) <= p.max_descriptor_set_input_attachments
    &&& count::number_in_total(
            sets,
            |t: DescriptorType| t == DescriptorType::AccelerationStructure,
        ) <= allowed(p.max_descriptor_set_acceleration_structures)
}

/// Parameters are accepted exactly where the device supports their flags, there are not too many
/// sets, at most one set is a push descriptor set, the descriptors of each group of types are no more
/// than the device allows for each stage and for all stages together, each range lies at multiples of
/// 4 within the size of the push constants and has supported stages, and no two ranges have a stage
/// in common.
pub proof fn law_accepted_exactly(info: PipelineLayoutCreateInfo, device: Device)
    ensures
        create_info::is_verdict(info, device, None) <==> {
            let sets = info.set_layouts@;
            let ranges = info.push_constant_ranges@;
            let p = device.properties;
            &&& forall|i: int|
                0 <= i < device.unsupported_layout_flags@.len() ==> (
                #[trigger] device.unsupported_layout_flags@[i]).flag & info.flags.bits == 0
            &&& sets.len() <= p.max_bound_descriptor_sets
            &&& forall|i: int, j: int|
                0 <= i < j < sets.len() ==> !((#[trigger] sets[i]).flags.bits & 1 != 0 && (
                #[trigger] sets[j]).flags.bits & 1 != 0)
            &&& forall|k: u32| k < 15 ==> #[trigger] allowed_in_stage(sets, p, k)
            &&& allowed_in_total(sets, p)
            &&& forall|i: int|
                0 <= i < ranges.len() ==> {
                    let r = #[trigger] ranges[i];
                    &&& r.stages.bits != 0
                    &&& range::stages_supported(device, r.stages.bits)
                    &&& r.offset % 4 == 0
                    &&& r.offset < p.max_push_constants_size
                    &&& r.size % 4 == 0
                    &&& r.size != 0
                    &&& r.offset + r.size <= p.max_push_constants_size
                }
            &&& forall|i: int, j: int|
                0 <= i < j < ranges.len() ==> (#[trigger] ranges[i]).stages.bits & (
                #[trigger] ranges[j]).stages.bits == 0
        },
{
    let sets = info.set_layouts@;
    let ranges = info.push_constant_ranges@;
    let p = device.properties;
    law_accepted_parameters(info, device);
    assert forall|i: int| 0 <= i < ranges.len() implies (range::range_error(
        #[trigger] ranges[i],
        device,
    ) is None) == {
        let r = ranges[i];
        &&& r.stages.bits != 0
        &&& range::stages_supported(device, r.stages.bits)
        &&& r.offset % 4 == 0
        &&& r.offset < p.max_push_constants_size
        &&& r.size % 4 == 0
        &&& r.size != 0
        &&& r.offset + r.size <= p.max_push_constants_size
    } by {
        range::law_accepted_range(ranges[i], device);
    }
    assert forall|k: u32| #[trigger] allowed_in_stage(sets, p, k) == (forall|l: int|
        0 <= l < 7 ==> #[trigger] keeps_in_stage(sets, p, l, k)) by {
        lemma_allowed_in_stage(sets, p, k);
    }
    lemma_allowed_in_total(sets, p);
    if forall|k: u32| k < 15 ==> #[trigger] allowed_in_stage(sets, p, k) {
        assert forall|l: int, k: u32| 0 <= l < 7 && k < 15 implies #[trigger] keeps_in_stage(
            sets,
            p,
            l,
            k,
        ) by {
            assert(allowed_in_stage(sets, p, k));
        }
    }
}

/// A stage keeps each limit exactly where it can access no more than is allowed.
proof fn lemma_allowed_in_stage(sets: Seq<Arc<DescriptorSetLayout>>, p: Properties, k: u32)
    ensures
        allowed_in_stage(sets, p, k) == (forall|l: int|
            0 <= l < 7 ==> #[trigger] keeps_in_stage(sets, p, l, k)),
{
    // limit by limit
    let kept_0 = keeps_in_stage(sets, p, 0, k);
    let kept_1 = keeps_in_stage(sets, p, 1, k);
    let kept_2 = keeps_in_stage(sets, p, 2, k);
    let kept_3 = keeps_in_stage(sets, p, 3, k);
    let kept_4 = keeps_in_stage(sets, p, 4, k);
    let kept_5 = keeps_in_stage(sets, p, 5, k);
    let kept_6 = keeps_in_stage(sets, p, 6, k);
}

/// All stages together keep each limit exactly where they can access no more than is allowed.
proof fn lemma_allowed_in_total(sets: Seq<Arc<DescriptorSetLayout>>, p: Properties)
    ensures
        allowed_in_total(sets, p) == (forall|l: int|
            0 <= l < 9 ==> #[trigger] keeps_in_total(sets, p, l)),
{
    // limit by limit
    let kept_0 = keeps_in_total(sets, p, 0);
    let kept_1 = keeps_in_total(sets, p, 1);
    let kept_2 = keeps_in_total(sets, p, 2);
    let kept_3 = keeps_in_total(sets, p, 3);
    let kept_4 = keeps_in_total(sets, p, 4);
    let kept_5 = keeps_in_total(sets, p, 5);
    let kept_6 = keeps_in_total(sets, p, 6);
    let kept_7 = keeps_in_total(sets, p, 7);
    let kept_8 = keeps_in_total(sets, p, 8);
}

/// Where parameters are accepted, no stage can access more descriptors of any group of types than
/// the device allows for one stage.
pub proof fn law_accepted_numbers_in_a_stage(info: PipelineLayoutCreateInfo, device: Device, k: u32)
    requires
        create_info::is_verdict(info, device, None),
        k < 15,
    ensures
        ({
            let sets = info.set_layouts@;
            let p = device.properties;
            &&& count::number_in_stage(
                    sets,
                    k,
                    |t: DescriptorType| t == DescriptorType::Sampler || t == DescriptorType::CombinedImageSampler,
                ) <= p.max_per_stage_descriptor_samplers
            &&& count::number_in_stage(
                    sets,
                    k,
                    |t: DescriptorType| t == DescriptorType::UniformBuffer || t == DescriptorType::UniformBufferDynamic,
                ) <= p.max_per_stage_descriptor_uniform_buffers
            &&& count::number_in_stage(
                    sets,
                    k,
                    |t: DescriptorType| t == DescriptorType::StorageBuffer || t == DescriptorType::StorageBufferDynamic,
                ) <= p.max_per_stage_descriptor_storage_buffers
            &&& count::number_in_stage(
                    sets,
                    k,
                    |t: DescriptorType| t == DescriptorType::CombinedImageSampler || t == DescriptorType::SampledImage || t == DescriptorType::UniformTexelBuffer,
                ) <= p.max_per_stage_descriptor_sampled_images
            &&& count::number_in_stage(
                    sets,
                    k,
                    |t: DescriptorType| t == DescriptorType::StorageImage || t == DescriptorType::StorageTexelBuffer,
                ) <= p.max_per_stage_descriptor_storage_images
            &&& count::number_in_stage(
                    sets,
                    k,
                    |t: DescriptorType| t == DescriptorType::InputAttachment,
                ) <= p.max_per_stage_descriptor_input_attachments
            &&& count::number_in_stage(
                    sets,
                    k,
                    |t: DescriptorType| t == DescriptorType::AccelerationStructure,
                ) <= allowed(p.max_per_stage_descriptor_acceleration_structures)
        }),
{
    law_accepted_parameters(info, device);
    let sets = info.set_layouts@;
    let p = device.properties;
    assert(keeps_in_stage(sets, p, 0, k));
    assert(keeps_in_stage(sets, p, 1, k));
    assert(keeps_in_stage(sets, p, 2, k));
    assert(keeps_in_stage(sets, p, 3, k));
    assert(keeps_in_stage(sets, p, 4, k));
    assert(keeps_in_stage(sets, p, 5, k));
    assert(keeps_in_stage(sets, p, 6, k));
}

/// Where parameters are accepted, all stages together cannot access more descriptors of any group of
/// types than the device allows for a pipeline layout.
pub proof fn law_accepted_numbers_in_total(info: PipelineLayoutCreateInfo, device: Device)
    requires
        create_info::is_verdict(info, device, None),
    ensures
        ({
            let sets = info.set_layouts@;
            let p = device.properties;
            &&& count::number_in_total(
                    sets,
                    |t: DescriptorType| t == DescriptorType::Sampler || t == DescriptorType::CombinedImageSampler,
                ) <= p.max_descriptor_set_samplers
            &&& count::number_in_total(
                    sets,
                    |t: DescriptorType| t == DescriptorType::UniformBuffer,
                ) <= p.max_descriptor_set_uniform_buffers
            &&& count::number_in_total(
                    sets,
                    |t: DescriptorType| t == DescriptorType::UniformBufferDynamic,
                ) <= p.max_descriptor_set_uniform_buffers_dynamic
            &&& count::number_in_total(
                    sets,
                    |t: DescriptorType| t == DescriptorType::StorageBuffer,
                ) <= p.max_descriptor_set_storage_buffers
            &&& count::number_in_total(
                    sets,
                    |t: DescriptorType| t == DescriptorType::StorageBufferDynamic,
                ) <= p.max_descriptor_set_storage_buffers_dynamic
            &&& count::number_in_total(
                    sets,
                    |t: DescriptorType| t == DescriptorType::CombinedImageSampler || t == DescriptorType::SampledImage || t == DescriptorType::UniformTexelBuffer,
                ) <= p.max_descriptor_set_sampled_images
            &&& count::number_in_total(
                    sets,
                    |t: DescriptorType| t == DescriptorType::StorageImage || t == DescriptorType::StorageTexelBuffer,
                ) <= p.max_descriptor_set_storage_images
            &&& count::number_in_total(
                    sets,
                    |t: DescriptorType| t == DescriptorType::InputAttachment,
                ) <= p.max_descriptor_set_input_attachments
            &&& count::number_in_total(
                    sets,
                    |t: DescriptorType| t == DescriptorType::AccelerationStructure,
                ) <= allowed(p.max_descriptor_set_acceleration_structures)
        }),
{
    law_accepted_parameters(info, device);
    let sets = info.set_layouts@;
    let p = device.properties;
    assert(keeps_in_total(sets, p, 0));
    assert(keeps_in_total(sets, p, 1));
    assert(keeps_in_total(sets, p, 2));
    assert(keeps_in_total(sets, p, 3));
    assert(keeps_in_total(sets, p, 4));
    assert(keeps_in_total(sets, p, 5));
    assert(keeps_in_total(sets, p, 6));
    assert(keeps_in_total(sets, p, 7));
    assert(keeps_in_total(sets, p, 8));
}

/// Accepted ranges have stages, none in common, and lie at multiples of 4 within the size of the push
/// constants.
pub proof fn law_accepted_push_constants(info: PipelineLayoutCreateInfo, device: Device, i: int)
    requires
        create_info::is_verdict(info, device, None),
        0 <= i < info.push_constant_ranges@.len(),
    ensures
        ({
            let r = info.push_constant_ranges@[i];
            &&& r.stages.bits != 0
            &&& r.offset % 4 == 0
            &&& r.size % 4 == 0
            &&& r.size != 0
            &&& r.offset + r.size <= device.properties.max_push_constants_size
            &&& forall|j: int|
                0 <= j < info.push_constant_ranges@.len() && j != i ==> r.stages.bits & (
                #[trigger] info.push_constant_ranges@[j]).stages.bits == 0
        }),
{
    law_accepted_parameters(info, device);
    let ranges = info.push_constant_ranges@;
    range::law_accepted_range(ranges[i], device);
    assert forall|j: int| 0 <= j < ranges.len() && j != i implies ranges[i].stages.bits & (
    #[trigger] ranges[j]).stages.bits == 0 by {
        let a = ranges[i].stages.bits;
        let b = ranges[j].stages.bits;
        assert(a & b == b & a) by (bit_vector);
        if i < j {
            assert(ranges[i].stages.bits & ranges[j].stages.bits == 0);
        } else {
            assert(ranges[j].stages.bits & ranges[i].stages.bits == 0);
        }
    }
}

/// Whether the outcome is this broken rule, which no device could meet.
pub open spec fn is_outcome(
    outcome: Option<error::ErrorView>,
    context: Seq<char>,
    problem: Seq<char>,
    vuid: Seq<char>,
) -> bool {
    outcome == Some(
        error::ErrorView { context, problem, requires_one_of: Seq::empty(), vuids: seq![vuid] },
    )
}

/// Refused parameters are told the first rule that they break: flags, then the number of sets, then
/// push descriptor sets.
pub proof fn law_refused_flags_and_sets(
    info: PipelineLayoutCreateInfo,
    device: Device,
    outcome: Option<error::ErrorView>,
    i: int,
)
    requires
        create_info::is_verdict(info, device, outcome),
    ensures
        0 <= i < device.unsupported_layout_flags@.len() && device.unsupported_layout_flags@[i].flag
            & info.flags.bits != 0 && (forall|j: int|
            0 <= j < i ==> (#[trigger] device.unsupported_layout_flags@[j]).flag & info.flags.bits
                == 0) ==> outcome == Some(
            error::ErrorView {
                context: "flags"@,
                problem: device.unsupported_layout_flags@[i].requirement.problem@,
                requires_one_of: device.unsupported_layout_flags@[i].requirement@.requires_one_of,
                vuids: seq!["VUID-VkPipelineLayoutCreateInfo-flags-parameter"@],
            },
        ),
        flags_supported(device, info.flags.bits) && info.set_layouts@.len()
            > device.properties.max_bound_descriptor_sets ==> is_outcome(
            outcome,
            "set_layouts"@,
            "the length exceeds the max_bound_descriptor_sets limit"@,
            "VUID-VkPipelineLayoutCreateInfo-setLayoutCount-00286"@,
        ),
        flags_supported(device, info.flags.bits) && info.set_layouts@.len()
            <= device.properties.max_bound_descriptor_sets && !at_most_one_push_set(
            info.set_layouts@,
        ) ==> is_outcome(
            outcome,
            "set_layouts"@,
            "contains more than one descriptor set layout whose flags DescriptorSetLayoutCreateFlags::PUSH_DESCRIPTOR"@,
            "VUID-VkPipelineLayoutCreateInfo-pSetLayouts-00293"@,
        ),
{
    let unsupported = device.unsupported_layout_flags@;
    device::law_supported(unsupported, info.flags.bits);
    if 0 <= i < unsupported.len() && unsupported[i].flag & info.flags.bits != 0 && (forall|j: int|
        0 <= j < i ==> (#[trigger] unsupported[j]).flag & info.flags.bits == 0) {
        device::law_first_missing(unsupported, info.flags.bits, i);
    }
    lemma_push_sets(info.set_layouts@);
}

/// Whether the rules on flags, on the number of sets and on push descriptor sets are kept.
pub open spec fn keeps_first_rules(info: PipelineLayoutCreateInfo, device: Device) -> bool {
    &&& flags_supported(device, info.flags.bits)
    &&& info.set_layouts@.len() <= device.properties.max_bound_descriptor_sets
    &&& at_most_one_push_set(info.set_layouts@)
}

/// What is said where a stage has too many descriptors.
pub open spec fn too_many_in_stage(l: int, stage: shader::ShaderStage) -> Seq<char> {
    "the combined number of "@ + stage_types_text(l)
        + " descriptors accessible to the ShaderStage::"@ + stage.spec_name()
        + " stage exceeds the "@ + stage_limit_name(l) + " limit"@
}

/// What is said where all stages together have too many descriptors.
pub open spec fn too_many_in_total(l: int) -> Seq<char> {
    "the combined number of "@ + total_types_text(l)
        + " descriptors accessible across all shader stages exceeds the "@ + total_limit_name(l)
        + " limit"@
}

/// The texts of the limits on one stage.
proof fn lemma_stage_texts(p: Properties, l: int)
    requires
        0 <= l < 7,
    ensures
        limits::types_text(limits::per_stage_limits(p)[l].descriptor_types) == stage_types_text(l),
        limits::per_stage_limits(p)[l].limit_name == stage_limit_name(l),
        limits::per_stage_limits(p)[l].vuid == stage_vuid(l),
{
    lemma_types_text(limits::per_stage_limits(p)[l].descriptor_types);
}

/// The texts of the limits on all stages.
proof fn lemma_total_texts(p: Properties, l: int)
    requires
        0 <= l < 9,
    ensures
        limits::types_text(limits::total_limits(p)[l].descriptor_types) == total_types_text(l),
        limits::total_limits(p)[l].limit_name == total_limit_name(l),
        limits::total_limits(p)[l].vuid == total_vuid(l),
{
    lemma_types_text(limits::total_limits(p)[l].descriptor_types);
}

/// What is written of up to three types.
proof fn lemma_types_text(types: Seq<DescriptorType>)
    ensures
        types.len() == 1 ==> limits::types_text(types) == "DescriptorType::"@ + types[0].spec_name(),
        types.len() == 2 ==> limits::types_text(types) == "DescriptorType::"@ + types[0].spec_name()
            + " + DescriptorType::"@ + types[1].spec_name(),
        types.len() == 3 ==> limits::types_text(types) == "DescriptorType::"@ + types[0].spec_name()
            + " + DescriptorType::"@ + types[1].spec_name() + " + DescriptorType::"@
            + types[2].spec_name(),
{
    reveal_with_fuel(limits::types_text, 4);
}

/// The busiest stage is told where a limit on one stage is the first thing that is not kept.
pub proof fn law_refused_for_a_stage(
    info: PipelineLayoutCreateInfo,
    device: Device,
    outcome: Option<error::ErrorView>,
    l: int,
    k: u32,
)
    requires
        create_info::is_verdict(info, device, outcome),
        keeps_first_rules(info, device),
        0 <= l < 7,
        k < 15,
        forall|i: int, j: u32|
            0 <= i < l && j < 15 ==> #[trigger] keeps_in_stage(
                info.set_layouts@,
                device.properties,
                i,
                j,
            ),
        !keeps_in_stage(info.set_layouts@, device.properties, l, k),
    ensures
        exists|busiest: u32|
            #![trigger shader::stage_at(busiest as int)]
            busiest < 15 && is_outcome(
                outcome,
                "set_layouts"@,
                too_many_in_stage(l, shader::stage_at(busiest as int)),
                stage_vuid(l),
            ) && forall|j: u32|
                j < 15 ==> #[trigger] count::number_in_stage(info.set_layouts@, j, stage_types(l))
                    <= count::number_in_stage(info.set_layouts@, busiest, stage_types(l)),
{
    let sets = info.set_layouts@;
    let p = device.properties;
    let stage_limits = limits::per_stage_limits(p);
    device::law_supported(device.unsupported_layout_flags@, info.flags.bits);
    lemma_push_sets(sets);
    assert forall|i: int, j: u32| 0 <= i < 7 implies #[trigger] count::stage_count(
        stage_limits[i],
        j,
        sets,
    ) == count::number_in_stage(sets, j, stage_types(i)) by {
        lemma_stage_limit(p, i);
        count::lemma_numbers(stage_limits[i], stage_types(i), sets);
    }
    lemma_stage_limit(p, l);
    assert(create_info::first_exceeded_in_stage(stage_limits, l, sets)) by {
        assert(count::stage_count(stage_limits[l], k, sets) > stage_limits[l].limit);
        assert forall|i: int| 0 <= i < l implies !create_info::exceeds_in_stage(
            #[trigger] stage_limits[i],
            sets,
        ) by {
            lemma_stage_limit(p, i);
            assert forall|j: u32| j < 15 implies #[trigger] count::stage_count(
                stage_limits[i],
                j,
                sets,
            ) <= stage_limits[i].limit by {
                assert(keeps_in_stage(sets, p, i, j));
            }
        }
    }
    let (m, busiest) = choose|m: int, busiest: u32|
        #![trigger create_info::stage_error(stage_limits[m], busiest)]
        create_info::first_exceeded_in_stage(stage_limits, m, sets) && create_info::is_busiest(
            stage_limits[m],
            busiest,
            sets,
        ) && outcome == Some(create_info::stage_error(stage_limits[m], busiest));
    if m < l {
        assert(!create_info::exceeds_in_stage(stage_limits[m], sets));
    }
    if l < m {
        assert(!create_info::exceeds_in_stage(stage_limits[l], sets));
    }
    lemma_stage_texts(p, l);
    assert forall|j: u32| j < 15 implies #[trigger] count::number_in_stage(sets, j, stage_types(l))
        <= count::number_in_stage(sets, busiest, stage_types(l)) by {
        assert(count::stage_count(stage_limits[l], j, sets) <= count::stage_count(
            stage_limits[l],
            busiest,
            sets,
        ));
    }
    let stage = shader::stage_at(busiest as int);
    assert(limits::stage_problem(stage_limits[l], stage) == too_many_in_stage(l, stage));
}

/// A limit on all stages is told where it is the first thing that is not kept.
pub proof fn law_refused_for_all_stages(
    info: PipelineLayoutCreateInfo,
    device: Device,
    outcome: Option<error::ErrorView>,
    l: int,
)
    requires
        create_info::is_verdict(info, device, outcome),
        keeps_first_rules(info, device),
        forall|i: int, j: u32|
            0 <= i < 7 && j < 15 ==> #[trigger] keeps_in_stage(
                info.set_layouts@,
                device.properties,
                i,
                j,
            ),
        0 <= l < 9,
        forall|i: int|
            0 <= i < l ==> #[trigger] keeps_in_total(info.set_layouts@, device.properties, i),
        !keeps_in_total(info.set_layouts@, device.properties, l),
    ensures
        is_outcome(outcome, "set_layouts"@, too_many_in_total(l), total_vuid(l)),
{
    let sets = info.set_layouts@;
    let p = device.properties;
    let total_limits = limits::total_limits(p);
    device::law_supported(device.unsupported_layout_flags@, info.flags.bits);
    lemma_push_sets(sets);
    lemma_stage_limits_kept(info, device);
    assert forall|i: int| 0 <= i < 9 implies create_info::exceeds_in_total(
        #[trigger] total_limits[i],
        sets,
    ) == !keeps_in_total(sets, p, i) by {
        lemma_total_limit(p, i);
        count::lemma_numbers(total_limits[i], total_types(i), sets);
    }
    assert(create_info::first_exceeded_in_total(total_limits, l, sets)) by {
        assert forall|i: int| 0 <= i < l implies !create_info::exceeds_in_total(
            #[trigger] total_limits[i],
            sets,
        ) by {
            assert(keeps_in_total(sets, p, i));
        }
    }
    let m = choose|m: int|
        create_info::first_exceeded_in_total(total_limits, m, sets) && outcome == Some(
            #[trigger] create_info::total_error(total_limits[m]),
        );
    if m < l {
        assert(!create_info::exceeds_in_total(total_limits[m], sets));
    }
    if l < m {
        assert(!create_info::exceeds_in_total(total_limits[l], sets));
    }
    lemma_total_texts(p, l);
}

/// Where the limits on one stage are kept, none of them is exceeded.
proof fn lemma_stage_limits_kept(info: PipelineLayoutCreateInfo, device: Device)
    requires
        forall|i: int, j: u32|
            0 <= i < 7 && j < 15 ==> #[trigger] keeps_in_stage(
                info.set_layouts@,
                device.properties,
                i,
                j,
            ),
    ensures
        forall|l: int|
            !(#[trigger] create_info::first_exceeded_in_stage(
                limits::per_stage_limits(device.properties),
                l,
                info.set_layouts@,
            )),
{
    let sets = info.set_layouts@;
    let p = device.properties;
    let stage_limits = limits::per_stage_limits(p);
    assert forall|l: int| !(#[trigger] create_info::first_exceeded_in_stage(
        stage_limits,
        l,
        sets,
    )) by {
        if create_info::first_exceeded_in_stage(stage_limits, l, sets) {
            let k = choose|k: u32|
                k < shader::STAGE_COUNT && #[trigger] count::stage_count(stage_limits[l], k, sets)
                    > stage_limits[l].limit;
            lemma_stage_limit(p, l);
            count::lemma_numbers(stage_limits[l], stage_types(l), sets);
            assert(keeps_in_stage(sets, p, l, k));
        }
    }
}

/// The first range that is not accepted, or that has a stage of an earlier one, is told where
/// everything about the sets is in order.
pub proof fn law_refused_for_a_range(
    info: PipelineLayoutCreateInfo,
    device: Device,
    outcome: Option<error::ErrorView>,
    n: int,
)
    requires
        create_info::is_verdict(info, device, outcome),
        keeps_first_rules(info, device),
        forall|i: int, j: u32|
            0 <= i < 7 && j < 15 ==> #[trigger] keeps_in_stage(
                info.set_layouts@,
                device.properties,
                i,
                j,
            ),
        forall|i: int|
            0 <= i < 9 ==> #[trigger] keeps_in_total(info.set_layouts@, device.properties, i),
        0 <= n < info.push_constant_ranges@.len(),
        forall|i: int|
            0 <= i < n ==> range::range_error(
                #[trigger] info.push_constant_ranges@[i],
                device,
            ) is None,
        forall|i: int, j: int|
            0 <= i < j < n ==> (#[trigger] info.push_constant_ranges@[i]).stages.bits & (
            #[trigger] info.push_constant_ranges@[j]).stages.bits == 0,
    ensures
        range::range_error(info.push_constant_ranges@[n], device) matches Some(e) ==> {
            &&& outcome is Some
            &&& outcome->Some_0.problem == e.problem
            &&& outcome->Some_0.vuids == e.vuids
            &&& outcome->Some_0.requires_one_of == e.requires_one_of
            &&& outcome->Some_0.context == "push_constant_ranges["@ + text::decimal(n as nat) + "]"@
                + if e.context.len() == 0 {
                Seq::empty()
            } else {
                "."@ + e.context
            }
        },
        range::range_error(info.push_constant_ranges@[n], device) is None && (exists|i: int|
            0 <= i < n && (#[trigger] info.push_constant_ranges@[i]).stages.bits
                & info.push_constant_ranges@[n].stages.bits != 0) ==> is_outcome(
            outcome,
            "push_constant_ranges"@,
            "contains more than one range with the same stage"@,
            "VUID-VkPipelineLayoutCreateInfo-pPushConstantRanges-00292"@,
        ),
{
    let sets = info.set_layouts@;
    let p = device.properties;
    let ranges = info.push_constant_ranges@;
    let total_limits = limits::total_limits(p);
    device::law_supported(device.unsupported_layout_flags@, info.flags.bits);
    lemma_push_sets(sets);
    lemma_stage_limits_kept(info, device);
    assert forall|l: int| !(#[trigger] create_info::first_exceeded_in_total(
        total_limits,
        l,
        sets,
    )) by {
        if create_info::first_exceeded_in_total(total_limits, l, sets) {
            lemma_total_limit(p, l);
            count::lemma_numbers(total_limits[l], total_types(l), sets);
            assert(keeps_in_total(sets, p, l));
        }
    }
    assert(outcome == create_info::ranges_error(ranges, device));
    let head = ranges.take(n);
    assert(create_info::ranges_error(head, device) is None) by {
        assert forall|i: int| 0 <= i < head.len() implies range::range_error(
            #[trigger] head[i],
            device,
        ) is None by {
            assert(head[i] == ranges[i]);
        }
        assert forall|i: int, j: int| 0 <= i < j < head.len() implies !shader::masks_meet(
            (#[trigger] head[i]).stages.bits,
            (#[trigger] head[j]).stages.bits,
        ) by {
            assert(ranges[i].stages.bits & ranges[j].stages.bits == 0);
        }
        create_info::law_accepted_ranges(head, device);
    }
    let more = ranges.take(n + 1);
    assert(more.drop_last() =~= head);
    assert(more[n] == ranges[n]);
    create_info::lemma_error_stays(ranges, device, n + 1);
    if range::range_error(ranges[n], device) is Some {
        let e = range::range_error(ranges[n], device)->Some_0;
        let name = "push_constant_ranges["@ + text::decimal(n as nat) + "]"@;
        assert(outcome == Some(error::within(create_info::range_name(n), e)));
        if e.context.len() == 0 {
            assert(name + Seq::empty() =~= name);
        } else {
            assert(name + "."@ + e.context =~= name + ("."@ + e.context));
        }
    } else if exists|i: int|
        0 <= i < n && (#[trigger] ranges[i]).stages.bits & ranges[n].stages.bits != 0 {
        let i = choose|i: int|
            0 <= i < n && (#[trigger] ranges[i]).stages.bits & ranges[n].stages.bits != 0;
        assert(shader::masks_meet(more[i].stages.bits, more[n].stages.bits));
        assert(create_info::repeats_stage(more, n));
    }
}

/// Parameters can be checked where their sets belong to the device and have no more descriptors
/// together than 32 bits can count. Where the first rules are kept, sets of another device cannot be
/// checked.
pub proof fn law_checkable(info: PipelineLayoutCreateInfo, device: Device)
    ensures
        (forall|i: int|
            0 <= i < info.set_layouts@.len() ==> (#[trigger] info.set_layouts@[i]).device.id
                == device.id) && count::number_in_total(
            info.set_layouts@,
            |t: DescriptorType| true,
        ) <= u32::MAX ==> create_info::is_checkable(info, device),
        !flags_supported(device, info.flags.bits) ==> create_info::is_checkable(info, device),
        info.set_layouts@.len() > device.properties.max_bound_descriptor_sets
            ==> create_info::is_checkable(info, device),
        keeps_first_rules(info, device) && create_info::is_checkable(info, device) ==> {
            &&& forall|i: int|
                0 <= i < info.set_layouts@.len() ==> (#[trigger] info.set_layouts@[i]).device.id
                    == device.id
            &&& forall|l: int, k: u32|
                0 <= l < 7 && k < 15 ==> #[trigger] count::number_in_stage(
                    info.set_layouts@,
                    k,
                    stage_types(l),
                ) <= u32::MAX
            &&& forall|l: int|
                0 <= l < 9 ==> count::number_in_total(
                    info.set_layouts@,
                    #[trigger] total_types(l),
                ) <= u32::MAX
        },
{
    let sets = info.set_layouts@;
    let p = device.properties;
    let stage_limits = limits::per_stage_limits(p);
    let total_limits = limits::total_limits(p);
    let n = count::counted_sets(sets);
    let counted = sets.take(n);
    device::law_supported(device.unsupported_layout_flags@, info.flags.bits);
    lemma_push_sets(sets);
    count::law_one_push_set(sets);
    assert forall|some: Seq<Arc<DescriptorSetLayout>>, l: int, k: u32|
        0 <= l < 7 implies #[trigger] count::stage_count(stage_limits[l], k, some)
        == count::number_in_stage(some, k, stage_types(l)) by {
        lemma_stage_limit(p, l);
        count::lemma_numbers(stage_limits[l], stage_types(l), some);
    }
    assert forall|some: Seq<Arc<DescriptorSetLayout>>, l: int|
        0 <= l < 9 implies #[trigger] count::total_count(total_limits[l], some)
        == count::number_in_total(some, total_types(l)) by {
        lemma_total_limit(p, l);
        count::lemma_numbers(total_limits[l], total_types(l), some);
    }
    if count::number_in_total(sets, |t: DescriptorType| true) <= u32::MAX {
        assert forall|l: int, k: u32|
            0 <= l < 7 && k < 15 implies #[trigger] count::stage_count(stage_limits[l], k, counted)
            <= u32::MAX by {
            count::lemma_part_of_all(
                sets,
                n,
                count::of_types_in_stage(stage_limits[l].descriptor_types, k),
            );
        }
        assert forall|l: int| 0 <= l < 9 implies count::total_count(
            #[trigger] total_limits[l],
            counted,
        ) <= u32::MAX by {
            count::lemma_part_of_all(sets, n, count::of_types(total_limits[l].descriptor_types));
        }
    }
    if keeps_first_rules(info, device) && create_info::is_checkable(info, device) {
        assert(counted =~= sets);
        assert forall|l: int, k: u32|
            0 <= l < 7 && k < 15 implies #[trigger] count::number_in_stage(sets, k, stage_types(l))
            <= u32::MAX by {
            assert(count::stage_count(stage_limits[l], k, sets) <= u32::MAX);
        }
        assert forall|l: int| 0 <= l < 9 implies count::number_in_total(
            sets,
            #[trigger] total_types(l),
        ) <= u32::MAX by {
            assert(count::total_count(total_limits[l], sets) <= u32::MAX);
        }
    }
}

/// The Vulkan implementation is asked for the flags that were given, for the handles of the sets in
/// order of set number, and for the stages, offset and size of each range.
pub proof fn law_what_vulkan_is_asked_for(info: PipelineLayoutCreateInfo)
    ensures
        create_info::vk_view(info).flags == info.flags.bits,
        create_info::vk_view(info).set_layouts.len() == info.set_layouts@.len(),
        forall|i: int|
            0 <= i < info.set_layouts@.len() ==> (#[trigger] create_info::vk_view(
                info,
            ).set_layouts[i]) == info.set_layouts@[i].handle,
        create_info::vk_view(info).push_constant_ranges.len() == info.push_constant_ranges@.len(),
        forall|i: int|
            0 <= i < info.push_constant_ranges@.len() ==> (#[trigger] create_info::vk_view(
                info,
            ).push_constant_ranges[i]) == (
                info.push_constant_ranges@[i].stages.bits,
                info.push_constant_ranges@[i].offset,
                info.push_constant_ranges@[i].size,
            ),
{
}

/// Where there is a second push descriptor set, parameters can be checked where the sets up to it
/// belong to the device and those in front of it have no more descriptors together than 32 bits can
/// count, whatever stands behind it, and not where one of the sets up to it belongs to another
/// device.
pub proof fn law_checkable_up_to_the_second_push_set(
    info: PipelineLayoutCreateInfo,
    device: Device,
    n: int,
)
    requires
        flags_supported(device, info.flags.bits),
        info.set_layouts@.len() <= device.properties.max_bound_descriptor_sets,
        0 <= n < info.set_layouts@.len(),
        info.set_layouts@[n].flags.bits & 1 != 0,
        exists|i: int| 0 <= i < n && (#[trigger] info.set_layouts@[i]).flags.bits & 1 != 0,
        at_most_one_push_set(info.set_layouts@.take(n)),
    ensures
        (forall|i: int|
            0 <= i <= n ==> (#[trigger] info.set_layouts@[i]).device.id == device.id)
            && count::number_in_total(info.set_layouts@.take(n), |t: DescriptorType| true)
            <= u32::MAX ==> create_info::is_checkable(info, device),
        create_info::is_checkable(info, device) ==> forall|i: int|
            0 <= i <= n ==> (#[trigger] info.set_layouts@[i]).device.id == device.id,
{
    let sets = info.set_layouts@;
    let p = device.properties;
    let stage_limits = limits::per_stage_limits(p);
    let total_limits = limits::total_limits(p);
    let before = sets.take(n);
    device::law_supported(device.unsupported_layout_flags@, info.flags.bits);
    let x = choose|x: int| 0 <= x < n && (#[trigger] sets[x]).flags.bits & 1 != 0;
    assert(count::is_push(*sets[x]));
    assert forall|i: int, j: int| 0 <= i < j < n implies !(count::is_push(*(#[trigger] sets[i]))
        && count::is_push(*(#[trigger] sets[j]))) by {
        assert(before[i] == sets[i] && before[j] == sets[j]);
    }
    count::lemma_second_push_set(sets, n);
    if count::number_in_total(before, |t: DescriptorType| true) <= u32::MAX {
        assert(before.take(n) =~= before);
        assert forall|l: int, k: u32|
            0 <= l < stage_limits.len() && k < 15 implies #[trigger] count::stage_count(
            stage_limits[l],
            k,
            before,
        ) <= u32::MAX by {
            count::lemma_part_of_all(
                before,
                n,
                count::of_types_in_stage(stage_limits[l].descriptor_types, k),
            );
        }
        assert forall|l: int| 0 <= l < total_limits.len() implies count::total_count(
            #[trigger] total_limits[l],
            before,
        ) <= u32::MAX by {
            count::lemma_part_of_all(before, n, count::of_types(total_limits[l].descriptor_types));
        }
    }
}

} // verus!
