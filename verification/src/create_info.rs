//! Parameters to create a pipeline layout, and the rules that they must keep.
use std::sync::Arc;

use vstd::prelude::*;
use vstd::string::*;

use crate::count;
use crate::count::Counting;
use crate::descriptor_set::DescriptorSetLayout;
use crate::device;
use crate::device::Device;
use crate::error;
use crate::error::ValidationError;
use crate::limits;
use crate::limits::DescriptorLimit;
use crate::outside;
use crate::outside::HandleList;
use crate::outside::RangeList;
use crate::range;
use crate::range::PushConstantRange;
use crate::shader;
use crate::shader::ShaderStage;
use crate::shader::ShaderStages;
use crate::text;

verus! {

/// Flags that control how a pipeline layout is created.
#[derive(Clone, Copy, Debug, PartialEq, Eq, Structural)]
pub struct PipelineLayoutCreateFlags {
    pub bits: u32,
}

impl PipelineLayoutCreateFlags {
    /// No flags.
    pub fn empty() -> (flags: PipelineLayoutCreateFlags)
        ensures
            flags.bits == 0,
    {
        PipelineLayoutCreateFlags { bits: 0 }
    }
}

/// Parameters to create a new `PipelineLayout`.
#[derive(Clone, Debug)]
pub struct PipelineLayoutCreateInfo {
    /// Specifies how to create the pipeline layout.
    pub flags: PipelineLayoutCreateFlags,
    /// The descriptor set layouts that should be part of the pipeline layout.
    ///
    /// They are provided in order of set number.
    ///
    /// The default value is empty.
    pub set_layouts: Vec<Arc<DescriptorSetLayout>>,
    /// The ranges of push constants that the pipeline will access.
    ///
    /// A shader stage can only appear in one element of the list, but it is possible to combine
    /// ranges for multiple shader stages if they are the same.
    ///
    /// The default value is empty.
    pub push_constant_ranges: Vec<PushConstantRange>,
}

impl Default for PipelineLayoutCreateInfo {
    fn default() -> (info: PipelineLayoutCreateInfo)
        ensures
            info.flags.bits == 0,
            info.set_layouts@.len() == 0,
            info.push_constant_ranges@.len() == 0,
    {
        PipelineLayoutCreateInfo {
            flags: PipelineLayoutCreateFlags::empty(),
            set_layouts: Vec::new(),
            push_constant_ranges: Vec::new(),
        }
    }
}

/// The parameters in the form that the Vulkan implementation takes.
#[derive(Debug)]
pub struct VkCreateInfo {
    flags: u32,
    set_layouts: HandleList,
    push_constant_ranges: RangeList,
}

/// The contents of a [`VkCreateInfo`].
#[verifier::ext_equal]
pub struct VkCreateInfoView {
    pub flags: u32,
    /// The handles of the descriptor set layouts.
    pub set_layouts: Seq<u64>,
    /// The stage mask, the offset and the size of each range.
    pub push_constant_ranges: Seq<(u32, u32, u32)>,
}

impl View for VkCreateInfo {
    type V = VkCreateInfoView;

    closed spec fn view(&self) -> VkCreateInfoView {
        VkCreateInfoView {
            flags: self.flags,
            set_layouts: outside::handles_of(self.set_layouts),
            push_constant_ranges: outside::ranges_of(self.push_constant_ranges),
        }
    }
}

impl VkCreateInfo {
    /// The flags, as a mask.
    pub fn flags(&self) -> (bits: u32)
        ensures
            bits == self@.flags,
    {
        self.flags
    }

    /// The handles of the descriptor set layouts, in order of set number.
    pub fn set_layouts(&self) -> (handles: &[u64])
        ensures
            handles@ == self@.set_layouts,
    {
        outside::handle_slice(&self.set_layouts)
    }

    /// The stage mask, the offset and the size of each push constant range.
    pub fn push_constant_ranges(&self) -> (ranges: &[(u32, u32, u32)])
        ensures
            ranges@ == self@.push_constant_ranges,
    {
        outside::range_slice(&self.push_constant_ranges)
    }
}

/// What the Vulkan implementation is asked for.
pub open spec fn vk_view(info: PipelineLayoutCreateInfo) -> VkCreateInfoView {
    VkCreateInfoView {
        flags: info.flags.bits,
        set_layouts: info.set_layouts@.map_values(|set: Arc<DescriptorSetLayout>| set.handle),
        push_constant_ranges: info.push_constant_ranges@.map_values(
            |r: PushConstantRange| (r.stages.bits, r.offset, r.size),
        ),
    }
}

impl PipelineLayoutCreateInfo {
    /// The parameters in the form that the Vulkan implementation takes.
    pub fn to_vk(&self) -> (vk: VkCreateInfo)
        ensures
            vk@ == vk_view(*self),
    {
        let mut handles: Vec<u64> = Vec::with_capacity(self.set_layouts.len());
        let mut i: usize = 0;
        while i < self.set_layouts.len()
            invariant
                i <= self.set_layouts.len(),
                handles.len() == i,
                forall|j: int| 0 <= j < i ==> #[trigger] handles@[j] == self.set_layouts@[j].handle,
            decreases self.set_layouts.len() - i,
        {
            handles.push(self.set_layouts[i].handle);
            i = i + 1;
        }
        let mut ranges: Vec<(u32, u32, u32)> = Vec::with_capacity(self.push_constant_ranges.len());
        let mut n: usize = 0;
        while n < self.push_constant_ranges.len()
            invariant
                n <= self.push_constant_ranges.len(),
                ranges.len() == n,
                forall|j: int|
                    0 <= j < n ==> #[trigger] ranges@[j] == (
                        self.push_constant_ranges@[j].stages.bits,
                        self.push_constant_ranges@[j].offset,
                        self.push_constant_ranges@[j].size,
                    ),
            decreases self.push_constant_ranges.len() - n,
        {
            let range = self.push_constant_ranges[n];
            ranges.push((range.stages.bits, range.offset, range.size));
            n = n + 1;
        }
        assert(handles@ =~= vk_view(*self).set_layouts);
        assert(ranges@ =~= vk_view(*self).push_constant_ranges);
        VkCreateInfo {
            flags: self.flags.bits,
            set_layouts: outside::collect_handles(handles),
            push_constant_ranges: outside::collect_ranges(ranges),
        }
    }
}

/// Whether some stage has more descriptors than `limit` allows.
pub open spec fn exceeds_in_stage(
    limit: limits::LimitView,
    sets: Seq<Arc<DescriptorSetLayout>>,
) -> bool {
    exists|k: u32|
        k < shader::STAGE_COUNT && #[trigger] count::stage_count(limit, k, sets) > limit.limit
}

/// Whether no stage has more descriptors that `limit` applies to than the stage whose bit is at
/// position `k`.
pub open spec fn is_busiest(
    limit: limits::LimitView,
    k: u32,
    sets: Seq<Arc<DescriptorSetLayout>>,
) -> bool {
    &&& k < shader::STAGE_COUNT
    &&& forall|j: u32|
        j < shader::STAGE_COUNT ==> #[trigger] count::stage_count(limit, j, sets)
            <= count::stage_count(limit, k, sets)
}

/// Whether `l` is the first of the limits that some stage exceeds.
pub open spec fn first_exceeded_in_stage(
    stage_limits: Seq<limits::LimitView>,
    l: int,
    sets: Seq<Arc<DescriptorSetLayout>>,
) -> bool {
    &&& 0 <= l < stage_limits.len()
    &&& exceeds_in_stage(stage_limits[l], sets)
    &&& forall|i: int| 0 <= i < l ==> !exceeds_in_stage(#[trigger] stage_limits[i], sets)
}

/// The error for a limit on one stage that the stage whose bit is at position `k` exceeds.
pub open spec fn stage_error(limit: limits::LimitView, k: u32) -> error::ErrorView {
    error::broken_rule(
        "set_layouts"@,
        limits::stage_problem(limit, shader::stage_at(k as int)),
        limit.vuid,
    )
}

/// Whether all stages together have more descriptors than `limit` allows.
pub open spec fn exceeds_in_total(
    limit: limits::LimitView,
    sets: Seq<Arc<DescriptorSetLayout>>,
) -> bool {
    count::total_count(limit, sets) > limit.limit
}

/// Whether `l` is the first of the limits that all stages together exceed.
pub open spec fn first_exceeded_in_total(
    total_limits: Seq<limits::LimitView>,
    l: int,
    sets: Seq<Arc<DescriptorSetLayout>>,
) -> bool {
    &&& 0 <= l < total_limits.len()
    &&& exceeds_in_total(total_limits[l], sets)
    &&& forall|i: int| 0 <= i < l ==> !exceeds_in_total(#[trigger] total_limits[i], sets)
}

/// The error for a limit that all stages together exceed.
pub open spec fn total_error(limit: limits::LimitView) -> error::ErrorView {
    error::broken_rule("set_layouts"@, limits::total_problem(limit), limit.vuid)
}

/// The name of range `i` in messages.
pub open spec fn range_name(i: int) -> Seq<char> {
    "push_constant_ranges["@ + text::decimal(i as nat) + "]"@
}

/// Whether range `i` has a stage that an earlier range has too.
pub open spec fn repeats_stage(ranges: Seq<PushConstantRange>, i: int) -> bool {
    exists|j: int|
        0 <= j < i && shader::masks_meet(
            (#[trigger] ranges[j]).stages.bits,
            ranges[i].stages.bits,
        )
}

/// The first rule that range `i` breaks, if there is one.
pub open spec fn range_error_at(
    ranges: Seq<PushConstantRange>,
    i: int,
    device: Device,
) -> Option<error::ErrorView> {
    match range::range_error(ranges[i], device) {
        Some(e) => Some(error::within(range_name(i), e)),
        None => if repeats_stage(ranges, i) {
            Some(
                error::broken_rule(
                    "push_constant_ranges"@,
                    "contains more than one range with the same stage"@,
                    "VUID-VkPipelineLayoutCreateInfo-pPushConstantRanges-00292"@,
                ),
            )
        } else {
            None
        },
    }
}

/// The first rule that the ranges break, if there is one.
pub open spec fn ranges_error(ranges: Seq<PushConstantRange>, device: Device) -> Option<
    error::ErrorView,
>
    decreases ranges.len(),
{
    if ranges.len() == 0 {
        None
    } else {
        match ranges_error(ranges.drop_last(), device) {
            Some(e) => Some(e),
            None => range_error_at(ranges, ranges.len() - 1, device),
        }
    }
}

/// Whether `outcome` is the first rule that the parameters break on the device, or none if they
/// break no rule.
///
/// Where several stages exceed a limit by the same count, the error may name any one of them.
pub open spec fn is_verdict(
    info: PipelineLayoutCreateInfo,
    device: Device,
    outcome: Option<error::ErrorView>,
) -> bool {
    let sets = info.set_layouts@;
    let stage_limits = limits::per_stage_limits(device.properties);
    let total_limits = limits::total_limits(device.properties);
    match device::missing_for(device.unsupported_layout_flags@, info.flags.bits) {
        Some(requirement) => outcome == Some(
            error::lacking(
                "flags"@,
                requirement,
                "VUID-VkPipelineLayoutCreateInfo-flags-parameter"@,
            ),
        ),
        None => if sets.len() > device.properties.max_bound_descriptor_sets {
            outcome == Some(
                error::broken_rule(
                    "set_layouts"@,
                    "the length exceeds the max_bound_descriptor_sets limit"@,
                    "VUID-VkPipelineLayoutCreateInfo-setLayoutCount-00286"@,
                ),
            )
        } else if count::counted_sets(sets) < sets.len() {
            outcome == Some(repeated_push_error())
        } else if exists|l: int| first_exceeded_in_stage(stage_limits, l, sets) {
            exists|l: int, k: u32|
                #![trigger stage_error(stage_limits[l], k)]
                first_exceeded_in_stage(stage_limits, l, sets) && is_busiest(
                    stage_limits[l],
                    k,
                    sets,
                ) && outcome == Some(stage_error(stage_limits[l], k))
        } else if exists|l: int| first_exceeded_in_total(total_limits, l, sets) {
            exists|l: int|
                first_exceeded_in_total(total_limits, l, sets) && outcome == Some(
                    #[trigger] total_error(total_limits[l]),
                )
        } else {
            outcome == ranges_error(info.push_constant_ranges@, device)
        },
    }
}

/// The error for a second push descriptor set.
pub open spec fn repeated_push_error() -> error::ErrorView {
    error::broken_rule(
        "set_layouts"@,
        "contains more than one descriptor set layout whose flags DescriptorSetLayoutCreateFlags::PUSH_DESCRIPTOR"@,
        "VUID-VkPipelineLayoutCreateInfo-pSetLayouts-00293"@,
    )
}

/// Whether the parameters can be checked: unless the flags or the number of sets are refused
/// already, the sets must belong to the device, and the counts of descriptors must be 32-bit
/// numbers.
pub open spec fn is_checkable(info: PipelineLayoutCreateInfo, device: Device) -> bool {
    device::missing_for(device.unsupported_layout_flags@, info.flags.bits) is None
        && info.set_layouts@.len() <= device.properties.max_bound_descriptor_sets
        ==> count::countable(
        device,
        limits::per_stage_limits(device.properties),
        limits::total_limits(device.properties),
        info.set_layouts@,
    )
}

/// Checks ranges one by one, and that no two of them have a stage in common.
fn validate_ranges(ranges: &Vec<PushConstantRange>, device: &Device) -> (r: Result<
    (),
    ValidationError,
>)
    ensures
        match r {
            Ok(_) => ranges_error(ranges@, *device) is None,
            Err(e) => ranges_error(ranges@, *device) == Some(e@),
        },
{
    let mut seen_stages = ShaderStages::empty();
    let mut i: usize = 0;
    assert(ranges@.take(0) =~= Seq::empty());
    assert(forall|c: u32| !shader::masks_meet(0, c)) by {
        assert forall|c: u32| !shader::masks_meet(0, c) by {
            assert(0u32 & c == 0u32) by (bit_vector);
        }
    }
    while i < ranges.len()
        invariant
            i <= ranges.len(),
            ranges_error(ranges@.take(i as int), *device) is None,
            forall|c: u32|
                #[trigger] shader::masks_meet(seen_stages.bits, c) <==> exists|j: int|
                    0 <= j < i && shader::masks_meet((#[trigger] ranges@[j]).stages.bits, c),
        decreases ranges.len() - i,
    {
        let range = ranges[i];
        let ghost head = ranges@.take(i + 1);
        proof {
            assert(head.drop_last() =~= ranges@.take(i as int));
            lemma_error_stays(ranges@, *device, i + 1);
            assert(repeats_stage(head, i as int) == shader::masks_meet(
                seen_stages.bits,
                range.stages.bits,
            )) by {
                if repeats_stage(head, i as int) {
                    let j = choose|j: int|
                        0 <= j < i && shader::masks_meet(
                            (#[trigger] head[j]).stages.bits,
                            head[i as int].stages.bits,
                        );
                    assert(shader::masks_meet(ranges@[j].stages.bits, range.stages.bits));
                }
                if shader::masks_meet(seen_stages.bits, range.stages.bits) {
                    let j = choose|j: int|
                        0 <= j < i && shader::masks_meet(
                            (#[trigger] ranges@[j]).stages.bits,
                            range.stages.bits,
                        );
                    assert(shader::masks_meet(head[j].stages.bits, head[i as int].stages.bits));
                }
            }
        }
        match range.validate(device) {
            Ok(_) => {},
            Err(err) => {
                let mut name = "push_constant_ranges[".to_owned();
                text::append_decimal(&mut name, i as u64);
                name.append("]");
                return Err(err.add_context(name.as_str()));
            },
        }
        if seen_stages.intersects(range.stages) {
            return Err(
                ValidationError::new(
                    "push_constant_ranges",
                    "contains more than one range with the same stage".to_owned(),
                    "VUID-VkPipelineLayoutCreateInfo-pPushConstantRanges-00292",
                ),
            );
        }
        proof {
            let seen = seen_stages.bits;
            let bits = range.stages.bits;
            assert forall|c: u32| #[trigger] shader::masks_meet(seen | bits, c) <==> exists|j: int|
                0 <= j < i + 1 && shader::masks_meet((#[trigger] ranges@[j]).stages.bits, c) by {
                shader::lemma_union_meets(seen, bits, c);
                if shader::masks_meet(seen, c) {
                    let j = choose|j: int|
                        0 <= j < i && shader::masks_meet((#[trigger] ranges@[j]).stages.bits, c);
                    assert(shader::masks_meet(ranges@[j].stages.bits, c));
                }
                assert(ranges@[i as int].stages.bits == bits);
            }
        }
        seen_stages = seen_stages | range.stages;
        i = i + 1;
    }
    assert(ranges@.take(i as int) =~= ranges@);
    Ok(())
}

/// An error in the first ranges is the error of all of them.
pub(crate) proof fn lemma_error_stays(ranges: Seq<PushConstantRange>, device: Device, n: int)
    requires
        0 <= n <= ranges.len(),
    ensures
        ranges_error(ranges.take(n), device) is Some ==> ranges_error(ranges, device)
            == ranges_error(ranges.take(n), device),
    decreases ranges.len(),
{
    if n == ranges.len() {
        assert(ranges.take(n) =~= ranges);
    } else {
        assert(ranges.drop_last().take(n) =~= ranges.take(n));
        lemma_error_stays(ranges.drop_last(), device, n);
    }
}

/// Every limit is on at least one type.
proof fn lemma_limits_have_types(p: device::Properties)
    ensures
        forall|l: int|
            0 <= l < limits::per_stage_limits(p).len() ==> (#[trigger] limits::per_stage_limits(
                p,
            )[l]).descriptor_types.len() > 0,
        forall|l: int|
            0 <= l < limits::total_limits(p).len() ==> (#[trigger] limits::total_limits(
                p,
            )[l]).descriptor_types.len() > 0,
{
}

impl PipelineLayoutCreateInfo {
    /// Whether the parameters can be checked on `device`: unless the flags or the number of sets
    /// are refused already, the sets must belong to the device, and the counts of descriptors must
    /// be 32-bit numbers.
    pub fn can_be_checked(&self, device: &Device) -> (b: bool)
        ensures
            b == is_checkable(*self, *device),
    {
        if device::check_flags(&device.unsupported_layout_flags, self.flags.bits).is_err() {
            return true;
        }
        if self.set_layouts.len() > device.properties.max_bound_descriptor_sets as usize {
            return true;
        }
        let stage_limits = limits::make_per_stage_limits(&device.properties);
        let total_limits = limits::make_total_limits(&device.properties);
        match count::count_descriptors(device, &self.set_layouts, &stage_limits, &total_limits) {
            Counting::Undefined => false,
            _ => true,
        }
    }

    /// Checks the parameters against the rules of the API and the limits of `device`.
    pub fn validate(&self, device: &Device) -> (r: Result<(), ValidationError>)
        requires
            is_checkable(*self, *device),
        ensures
            match r {
                Ok(_) => is_verdict(*self, *device, None),
                Err(e) => is_verdict(*self, *device, Some(e@)),
            },
    {
        match device::check_flags(&device.unsupported_layout_flags, self.flags.bits) {
            Ok(_) => {},
            Err(err) => {
                return Err(
                    ValidationError::lacking(
                        "flags",
                        err,
                        "VUID-VkPipelineLayoutCreateInfo-flags-parameter",
                    ),
                );
            },
        }
        if self.set_layouts.len() > device.properties.max_bound_descriptor_sets as usize {
            return Err(
                ValidationError::new(
                    "set_layouts",
                    "the length exceeds the max_bound_descriptor_sets limit".to_owned(),
                    "VUID-VkPipelineLayoutCreateInfo-setLayoutCount-00286",
                ),
            );
        }
        let stage_limits = limits::make_per_stage_limits(&device.properties);
        let total_limits = limits::make_total_limits(&device.properties);
        let counting = count::count_descriptors(
            device,
            &self.set_layouts,
            &stage_limits,
            &total_limits,
        );
        let counts = match counting {
            Counting::Counted(counts) => counts,
            // The counts are defined, so there is a second push descriptor set.
            _ => {
                return Err(
                    ValidationError::new(
                        "set_layouts",
                        "contains more than one descriptor set layout whose flags DescriptorSetLayoutCreateFlags::PUSH_DESCRIPTOR".to_owned(),
                        "VUID-VkPipelineLayoutCreateInfo-pSetLayouts-00293",
                    ),
                );
            },
        };
        let ghost sets = self.set_layouts@;
        let ghost stage_views = limits::per_stage_limits(device.properties);
        let ghost total_views = limits::total_limits(device.properties);
        proof {
            lemma_limits_have_types(device.properties);
            assert forall|l: int| 0 <= l < stage_limits.len() implies #[trigger] stage_views[l]
                == stage_limits@[l]@ by {
                assert(limits::limit_views(stage_limits@)[l] == stage_limits@[l]@);
            }
            assert forall|l: int| 0 <= l < total_limits.len() implies #[trigger] total_views[l]
                == total_limits@[l]@ by {
                assert(limits::limit_views(total_limits@)[l] == total_limits@[l]@);
            }
        }
        if let Some((l, k)) = count::first_stage_excess(&counts.per_stage, &stage_limits) {
            proof {
                lemma_stage_excess(&counts, stage_limits@, total_limits@, sets, l as int, k);
                assert(first_exceeded_in_stage(stage_views, l as int, sets)) by {
                    assert forall|i: int| 0 <= i < l implies !exceeds_in_stage(
                        #[trigger] stage_views[i],
                        sets,
                    ) by {
                        assert(stage_views[i] == stage_limits@[i]@);
                    }
                }
                assert(is_busiest(stage_views[l as int], k, sets));
            }
            let stage = ShaderStage::from_index(k);
            assert(stage_views[l as int] == stage_limits@[l as int]@);
            let e = ValidationError::new(
                "set_layouts",
                stage_limits[l].stage_problem(stage),
                stage_limits[l].vuid,
            );
            assert(e@ == stage_error(stage_views[l as int], k));
            return Err(e);
        }
        proof {
            assert forall|l: int| !first_exceeded_in_stage(stage_views, l, sets) by {
                if first_exceeded_in_stage(stage_views, l, sets) {
                    let k = choose|k: u32|
                        k < shader::STAGE_COUNT && #[trigger] count::stage_count(
                            stage_views[l],
                            k,
                            sets,
                        ) > stage_views[l].limit;
                    assert(stage_views[l] == stage_limits@[l]@);
                    assert(count::count_of(counts.per_stage@[l]@, k) == count::stage_count(
                        stage_limits@[l]@,
                        k,
                        sets,
                    ));
                }
            }
        }
        if let Some(l) = count::first_total_excess(&counts.totals, &total_limits) {
            proof {
                assert(first_exceeded_in_total(total_views, l as int, sets)) by {
                    assert forall|i: int| 0 <= i <= l implies exceeds_in_total(
                        #[trigger] total_views[i],
                        sets,
                    ) == (i == l) by {
                        assert(total_views[i] == total_limits@[i]@);
                        assert(counts.totals@[i] == count::total_count(total_limits@[i]@, sets));
                    }
                }
            }
            assert(total_views[l as int] == total_limits@[l as int]@);
            let e = ValidationError::new(
                "set_layouts",
                total_limits[l].total_problem(),
                total_limits[l].vuid,
            );
            assert(e@ == total_error(total_views[l as int]));
            return Err(e);
        }
        proof {
            assert forall|l: int| !first_exceeded_in_total(total_views, l, sets) by {
                if first_exceeded_in_total(total_views, l, sets) {
                    assert(total_views[l] == total_limits@[l]@);
                    assert(counts.totals@[l] == count::total_count(total_limits@[l]@, sets));
                }
            }
        }
        validate_ranges(&self.push_constant_ranges, device)
    }
}

/// What a search over counts finds holds of what is counted.
proof fn lemma_stage_excess(
    counts: &count::DescriptorCounts,
    stage_limits: Seq<DescriptorLimit>,
    total_limits: Seq<DescriptorLimit>,
    sets: Seq<Arc<DescriptorSetLayout>>,
    l: int,
    k: u32,
)
    requires
        counts.are_counts_of(stage_limits, total_limits, sets),
        0 <= l < stage_limits.len(),
        k < shader::STAGE_COUNT,
        count::count_of(counts.per_stage@[l]@, k) > stage_limits[l].limit,
        count::is_highest(counts.per_stage@[l]@, k),
        forall|i: int, j: u32|
            0 <= i < l && j < shader::STAGE_COUNT ==> #[trigger] count::count_of(
                counts.per_stage@[i]@,
                j,
            ) <= stage_limits[i].limit,
    ensures
        exceeds_in_stage(stage_limits[l]@, sets),
        is_busiest(stage_limits[l]@, k, sets),
        forall|i: int| 0 <= i < l ==> !exceeds_in_stage((#[trigger] stage_limits[i])@, sets),
{
    assert(count::count_of(counts.per_stage@[l]@, k) == count::stage_count(
        stage_limits[l]@,
        k,
        sets,
    ));
    assert forall|j: u32| j < shader::STAGE_COUNT implies #[trigger] count::stage_count(
        stage_limits[l]@,
        j,
        sets,
    ) <= count::stage_count(stage_limits[l]@, k, sets) by {
        assert(count::count_of(counts.per_stage@[l]@, j) == count::stage_count(
            stage_limits[l]@,
            j,
            sets,
        ));
    }
    assert forall|i: int| 0 <= i < l implies !exceeds_in_stage(
        (#[trigger] stage_limits[i])@,
        sets,
    ) by {
        assert forall|j: u32| j < shader::STAGE_COUNT implies #[trigger] count::stage_count(
            stage_limits[i]@,
            j,
            sets,
        ) <= stage_limits[i].limit by {
            assert(count::count_of(counts.per_stage@[i]@, j) == count::stage_count(
                stage_limits[i]@,
                j,
                sets,
            ));
        }
    }
}

/// Ranges break no rule exactly where each of them breaks none and no two have a stage in common.
pub proof fn law_accepted_ranges(ranges: Seq<PushConstantRange>, device: Device)
    ensures
        ranges_error(ranges, device) is None <==> {
            &&& forall|i: int|
                0 <= i < ranges.len() ==> range::range_error(#[trigger] ranges[i], device) is None
            &&& range::share_no_stage(ranges)
        },
    decreases ranges.len(),
{
    if ranges.len() > 0 {
        let rest = ranges.drop_last();
        let n = ranges.len() - 1;
        law_accepted_ranges(rest, device);
        assert forall|i: int| 0 <= i < n implies #[trigger] rest[i] == ranges[i] by {}
        if ranges_error(ranges, device) is None {
            assert forall|i: int| 0 <= i < ranges.len() implies range::range_error(
                #[trigger] ranges[i],
                device,
            ) is None by {
                if i < n {
                    assert(range::range_error(rest[i], device) is None);
                }
            }
            assert forall|i: int, j: int| 0 <= i < j < ranges.len() implies !shader::masks_meet(
                (#[trigger] ranges[i]).stages.bits,
                (#[trigger] ranges[j]).stages.bits,
            ) by {
                if j < n {
                    assert(!shader::masks_meet(rest[i].stages.bits, rest[j].stages.bits));
                }
            }
        } else if ranges_error(rest, device) is Some {
            if forall|i: int|
                0 <= i < rest.len() ==> range::range_error(#[trigger] rest[i], device) is None {
                let (i, j) = choose|i: int, j: int|
                    0 <= i < j < rest.len() && shader::masks_meet(
                        (#[trigger] rest[i]).stages.bits,
                        (#[trigger] rest[j]).stages.bits,
                    );
                assert(shader::masks_meet(ranges[i].stages.bits, ranges[j].stages.bits));
            } else {
                let i = choose|i: int|
                    0 <= i < rest.len() && range::range_error(
                        #[trigger] rest[i],
                        device,
                    ) is Some;
                assert(range::range_error(ranges[i], device) is Some);
            }
        }
    }
}

/// Ranges that break no rule end within the size of the push constants.
pub proof fn law_accepted_ranges_fit(info: PipelineLayoutCreateInfo, device: Device)
    requires
        is_verdict(info, device, None),
    ensures
        range::ends_fit(info.push_constant_ranges@),
        forall|i: int|
            0 <= i < info.push_constant_ranges@.len() ==> (
            #[trigger] info.push_constant_ranges@[i]).end()
                <= device.properties.max_push_constants_size,
{
    law_accepted_ranges(info.push_constant_ranges@, device);
    assert forall|i: int| 0 <= i < info.push_constant_ranges@.len() implies (
    #[trigger] info.push_constant_ranges@[i]).end()
        <= device.properties.max_push_constants_size by {
        assert(range::range_error(info.push_constant_ranges@[i], device) is None);
    }
}

/// Whether the parameters keep all rules.
pub open spec fn keeps_all_rules(info: PipelineLayoutCreateInfo, device: Device) -> bool {
    let sets = info.set_layouts@;
    let ranges = info.push_constant_ranges@;
    let stage_limits = limits::per_stage_limits(device.properties);
    let total_limits = limits::total_limits(device.properties);
    &&& forall|i: int|
        0 <= i < device.unsupported_layout_flags@.len() ==> !shader::masks_meet(
            (#[trigger] device.unsupported_layout_flags@[i]).flag,
            info.flags.bits,
        )
    &&& sets.len() <= device.properties.max_bound_descriptor_sets
    &&& forall|i: int, j: int|
        0 <= i < j < sets.len() ==> !(count::is_push(*(#[trigger] sets[i])) && count::is_push(
            *(#[trigger] sets[j]),
        ))
    &&& forall|l: int, k: u32|
        0 <= l < stage_limits.len() && k < shader::STAGE_COUNT ==> #[trigger] count::stage_count(
            stage_limits[l],
            k,
            sets,
        ) <= stage_limits[l].limit
    &&& forall|l: int|
        0 <= l < total_limits.len() ==> count::total_count(#[trigger] total_limits[l], sets)
            <= total_limits[l].limit
    &&& forall|i: int|
        0 <= i < ranges.len() ==> range::range_error(#[trigger] ranges[i], device) is None
    &&& range::share_no_stage(ranges)
}

/// Where some limit is exceeded in a stage, there is a first one.
proof fn lemma_first_in_stage(
    stage_limits: Seq<limits::LimitView>,
    l: int,
    sets: Seq<Arc<DescriptorSetLayout>>,
)
    requires
        0 <= l < stage_limits.len(),
        exceeds_in_stage(stage_limits[l], sets),
    ensures
        exists|i: int| first_exceeded_in_stage(stage_limits, i, sets),
    decreases l,
{
    if exists|i: int| 0 <= i < l && exceeds_in_stage(#[trigger] stage_limits[i], sets) {
        let i = choose|i: int| 0 <= i < l && exceeds_in_stage(#[trigger] stage_limits[i], sets);
        lemma_first_in_stage(stage_limits, i, sets);
    } else {
        assert(first_exceeded_in_stage(stage_limits, l, sets));
    }
}

/// Where some limit is exceeded in total, there is a first one.
proof fn lemma_first_in_total(
    total_limits: Seq<limits::LimitView>,
    l: int,
    sets: Seq<Arc<DescriptorSetLayout>>,
)
    requires
        0 <= l < total_limits.len(),
        exceeds_in_total(total_limits[l], sets),
    ensures
        exists|i: int| first_exceeded_in_total(total_limits, i, sets),
    decreases l,
{
    if exists|i: int| 0 <= i < l && exceeds_in_total(#[trigger] total_limits[i], sets) {
        let i = choose|i: int| 0 <= i < l && exceeds_in_total(#[trigger] total_limits[i], sets);
        lemma_first_in_total(total_limits, i, sets);
    } else {
        assert(first_exceeded_in_total(total_limits, l, sets));
    }
}

/// Parameters are accepted exactly where they keep all rules.
pub proof fn law_acceptance(info: PipelineLayoutCreateInfo, device: Device)
    ensures
        is_verdict(info, device, None) <==> keeps_all_rules(info, device),
{
    let sets = info.set_layouts@;
    let stage_limits = limits::per_stage_limits(device.properties);
    let total_limits = limits::total_limits(device.properties);
    device::law_nothing_missing(device.unsupported_layout_flags@, info.flags.bits);
    count::law_one_push_set(sets);
    law_accepted_ranges(info.push_constant_ranges@, device);
    if is_verdict(info, device, None) {
        assert forall|l: int, k: u32|
            0 <= l < stage_limits.len() && k < shader::STAGE_COUNT implies #[trigger] count::stage_count(
            stage_limits[l],
            k,
            sets,
        ) <= stage_limits[l].limit by {
            if exceeds_in_stage(stage_limits[l], sets) {
                lemma_first_in_stage(stage_limits, l, sets);
            }
        }
        assert forall|l: int| 0 <= l < total_limits.len() implies count::total_count(
            #[trigger] total_limits[l],
            sets,
        ) <= total_limits[l].limit by {
            if exceeds_in_total(total_limits[l], sets) {
                lemma_first_in_total(total_limits, l, sets);
            }
        }
    }
    if keeps_all_rules(info, device) {
        assert forall|l: int| !first_exceeded_in_stage(stage_limits, l, sets) by {
            if first_exceeded_in_stage(stage_limits, l, sets) {
                let k = choose|k: u32|
                    k < shader::STAGE_COUNT && #[trigger] count::stage_count(
                        stage_limits[l],
                        k,
                        sets,
                    ) > stage_limits[l].limit;
                assert(count::stage_count(stage_limits[l], k, sets) <= stage_limits[l].limit);
            }
        }
        assert forall|l: int| !first_exceeded_in_total(total_limits, l, sets) by {
            if first_exceeded_in_total(total_limits, l, sets) {
                assert(count::total_count(total_limits[l], sets) <= total_limits[l].limit);
            }
        }
    }
}

/// Parameters are not both accepted and refused.
pub proof fn law_verdict_is_decided(
    info: PipelineLayoutCreateInfo,
    device: Device,
    e: error::ErrorView,
)
    ensures
        !(is_verdict(info, device, None) && is_verdict(info, device, Some(e))),
{
}

} // verus!
