//! The pipeline layout that the shaders of a pipeline require.
use std::sync::Arc;

use vstd::prelude::*;
use vstd::string::*;

use crate::create_info::PipelineLayoutCreateFlags;
use crate::create_info::PipelineLayoutCreateInfo;
use crate::descriptor_set;
use crate::descriptor_set::DescriptorSetLayout;
use crate::descriptor_set::DescriptorSetLayoutBinding;
use crate::descriptor_set::DescriptorSetLayoutCreateInfo;
use crate::device::Device;
use crate::error::VulkanError;
use crate::layout;
use crate::outside;
use crate::range;
use crate::range::PushConstantRange;
use crate::requirements;
use crate::requirements::DescriptorBindingRequirements;
use crate::shader;
use crate::shader::ShaderStages;
use crate::text;

verus! {

/// What a shader's entry point needs from the pipeline layout.
#[derive(Clone, Debug)]
pub struct EntryPointInfo {
    /// The requirements on the descriptors, by set number and binding number.
    pub descriptor_binding_requirements: ahash::HashMap<(u32, u32), DescriptorBindingRequirements>,
    /// The range of push constants that the shader accesses, if it does.
    pub push_constant_requirements: Option<PushConstantRange>,
}

/// An entry point of a shader.
#[derive(Clone, Debug)]
pub struct EntryPoint {
    pub info: EntryPointInfo,
}

/// A shader stage of a pipeline.
#[derive(Clone, Debug)]
pub struct PipelineShaderStageCreateInfo {
    pub entry_point: EntryPoint,
}

impl PipelineShaderStageCreateInfo {
    /// The requirements of the stage on descriptors, by set number and binding number.
    pub open spec fn reqs(self) -> Map<(u32, u32), DescriptorBindingRequirements> {
        self.entry_point.info.descriptor_binding_requirements@
    }

    /// The range of push constants that the stage accesses, if it does.
    pub open spec fn range(self) -> Option<PushConstantRange> {
        self.entry_point.info.push_constant_requirements
    }
}

/// What the stages together require of the descriptor under `key`: the requirements of each one
/// merged into those of the ones before it. It is none if no stage accesses that descriptor.
pub open spec fn merged_at(
    stages: Seq<PipelineShaderStageCreateInfo>,
    key: (u32, u32),
) -> Option<requirements::RequirementsView>
    decreases stages.len(),
{
    if stages.len() == 0 {
        None
    } else {
        let before = merged_at(stages.drop_last(), key);
        let own = stages.last().reqs();
        if !own.contains_key(key) {
            before
        } else {
            match before {
                None => Some(own[key]@),
                Some(reqs) => Some(requirements::merged(reqs, own[key]@)->Ok_0),
            }
        }
    }
}

/// Whether the requirements of stage `i` on the descriptor under `key`, if it has any, can be
/// merged into those of the stages before it.
pub open spec fn merges_at(
    stages: Seq<PipelineShaderStageCreateInfo>,
    i: int,
    key: (u32, u32),
) -> bool {
    stages[i].reqs().contains_key(key) && merged_at(stages.take(i), key) is Some
        ==> requirements::merged(
        merged_at(stages.take(i), key)->Some_0,
        stages[i].reqs()[key]@,
    ) is Ok
}

/// Whether the requirements of stage `i` can be merged into those of the stages before it.
pub open spec fn can_merge_at(stages: Seq<PipelineShaderStageCreateInfo>, i: int) -> bool {
    forall|key: (u32, u32)| #[trigger] merges_at(stages, i, key)
}

/// Whether the requirements of each stage can be merged into those of the ones before it.
pub open spec fn can_merge(stages: Seq<PipelineShaderStageCreateInfo>) -> bool {
    forall|i: int| 0 <= i < stages.len() ==> #[trigger] can_merge_at(stages, i)
}

/// Whether a descriptor type is left for each descriptor that a stage accesses.
pub open spec fn types_remain(stages: Seq<PipelineShaderStageCreateInfo>) -> bool {
    forall|key: (u32, u32)|
        (#[trigger] merged_at(stages, key)) is Some ==> merged_at(
            stages,
            key,
        )->Some_0.descriptor_types.len() > 0
}

/// Whether there is a pipeline layout that satisfies all stages: their requirements can be merged,
/// a descriptor type is left for each descriptor, and the sets can be counted.
pub open spec fn joinable(stages: Seq<PipelineShaderStageCreateInfo>) -> bool {
    &&& can_merge(stages)
    &&& types_remain(stages)
    &&& forall|key: (u32, u32)| (#[trigger] merged_at(stages, key)) is Some ==> key.0 < usize::MAX
}

/// Whether `n` is the highest set number that a stage accesses, or 0 if there is none.
pub open spec fn is_highest_set(stages: Seq<PipelineShaderStageCreateInfo>, n: int) -> bool {
    &&& forall|key: (u32, u32)| (#[trigger] merged_at(stages, key)) is Some ==> key.0 <= n
    &&& n == 0 || exists|key: (u32, u32)| (#[trigger] merged_at(stages, key)) is Some && key.0 == n
}

/// Whether two ranges have the same offset and size.
pub open spec fn same_extent(a: PushConstantRange, b: PushConstantRange) -> bool {
    a.offset == b.offset && a.size == b.size
}

/// A range with the stages of `more` added, if the two have the same extent.
pub open spec fn with_stages_of(
    range: PushConstantRange,
    more: PushConstantRange,
) -> PushConstantRange {
    if same_extent(range, more) {
        PushConstantRange {
            stages: ShaderStages { bits: range.stages.bits | more.stages.bits },
            ..range
        }
    } else {
        range
    }
}

/// The ranges with one more: its stages are added to the range of the same extent, and where there
/// is none it is added at the end.
pub open spec fn with_range(
    ranges: Seq<PushConstantRange>,
    more: PushConstantRange,
) -> Seq<PushConstantRange> {
    if exists|i: int| 0 <= i < ranges.len() && same_extent(#[trigger] ranges[i], more) {
        ranges.map_values(|range: PushConstantRange| with_stages_of(range, more))
    } else {
        ranges.push(more)
    }
}

/// The push constant ranges of all stages, those of the same extent combined.
pub open spec fn combined_ranges(stages: Seq<PipelineShaderStageCreateInfo>) -> Seq<
    PushConstantRange,
>
    decreases stages.len(),
{
    if stages.len() == 0 {
        Seq::empty()
    } else {
        let before = combined_ranges(stages.drop_last());
        match stages.last().range() {
            None => before,
            Some(range) => with_range(before, range),
        }
    }
}

/// Whether no two ranges have the same extent.
pub open spec fn extents_differ(ranges: Seq<PushConstantRange>) -> bool {
    forall|i: int, j: int|
        0 <= i < j < ranges.len() ==> !same_extent(#[trigger] ranges[i], #[trigger] ranges[j])
}

/// Whether set `n` holds under binding number `b` the binding that satisfies what the stages require
/// there, or none if they require nothing there.
pub open spec fn is_binding_for(
    set: DescriptorSetLayoutCreateInfo,
    n: int,
    b: u32,
    stages: Seq<PipelineShaderStageCreateInfo>,
) -> bool {
    match merged_at(stages, (n as u32, b)) {
        Some(reqs) => set.bindings@.contains_key(b) && set.bindings@[b]@
            == descriptor_set::binding_for(reqs),
        None => !set.bindings@.contains_key(b),
    }
}

/// Whether `sets` hold the bindings that satisfy what the stages require, and no other bindings.
pub open spec fn are_sets_for(
    sets: Seq<DescriptorSetLayoutCreateInfo>,
    stages: Seq<PipelineShaderStageCreateInfo>,
) -> bool {
    forall|n: int, b: u32|
        0 <= n < sets.len() ==> #[trigger] is_binding_for(sets[n], n, b, stages)
}

/// Parameters to create a new `PipelineLayout` as well as its accompanying `DescriptorSetLayout`
/// objects.
#[derive(Clone, Debug)]
pub struct PipelineDescriptorSetLayoutCreateInfo {
    pub flags: PipelineLayoutCreateFlags,
    pub set_layouts: Vec<DescriptorSetLayoutCreateInfo>,
    pub push_constant_ranges: Vec<PushConstantRange>,
}

/// Whether a map holds what the stages require.
spec fn holds_merged(
    m: Map<(u32, u32), DescriptorBindingRequirements>,
    stages: Seq<PipelineShaderStageCreateInfo>,
) -> bool {
    forall|key: (u32, u32)| #[trigger] holds_at(m, stages, key)
}

/// Whether a map holds what the stages require under `key`.
spec fn holds_at(
    m: Map<(u32, u32), DescriptorBindingRequirements>,
    stages: Seq<PipelineShaderStageCreateInfo>,
    key: (u32, u32),
) -> bool {
    match merged_at(stages, key) {
        Some(reqs) => m.contains_key(key) && m[key]@ == reqs,
        None => !m.contains_key(key),
    }
}

/// Whether the first `n` entries have `key`.
spec fn among(
    entries: Seq<(&(u32, u32), &DescriptorBindingRequirements)>,
    n: int,
    key: (u32, u32),
) -> bool {
    exists|x: int| 0 <= x < n && *(#[trigger] entries[x]).0 == key
}

/// Merges the requirements of stage `i` into those of the ones before it, and returns the highest
/// set number; none if they cannot be merged.
fn merge_stage(
    m: &mut ahash::HashMap<(u32, u32), DescriptorBindingRequirements>,
    max_set_num: u32,
    stages: &[PipelineShaderStageCreateInfo],
    i: usize,
) -> (r: Option<u32>)
    requires
        i < stages.len(),
        holds_merged(old(m)@, stages@.take(i as int)),
        is_highest_set(stages@.take(i as int), max_set_num as int),
    ensures
        r is Some <==> can_merge_at(stages@, i as int),
        r is Some ==> holds_merged(final(m)@, stages@.take(i + 1)),
        r is Some ==> is_highest_set(stages@.take(i + 1), r->Some_0 as int),
{
    let ghost before = stages@.take(i as int);
    let ghost after = stages@.take(i + 1);
    let ghost own = stages@[i as int].reqs();
    proof {
        assert(after.drop_last() =~= before);
        assert(after.last() == stages@[i as int]);
    }
    let entries = outside::map_entries(
        &stages[i].entry_point.info.descriptor_binding_requirements,
    );
    let mut max = max_set_num;
    let mut n: usize = 0;
    while n < entries.len()
        invariant
            n <= entries.len(),
            i < stages.len(),
            forall|key: (u32, u32)| #[trigger]
                among(entries@, n as int, key) ==> merges_at(stages@, i as int, key),
            before == stages@.take(i as int),
            after == stages@.take(i + 1),
            after.drop_last() == before,
            after.last() == stages@[i as int],
            own == stages@[i as int].reqs(),
            forall|x: int|
                0 <= x < entries.len() ==> own.contains_key(*(#[trigger] entries@[x]).0)
                    && own[*entries@[x].0] == *entries@[x].1,
            forall|x: int, y: int|
                0 <= x < entries.len() && 0 <= y < entries.len() && x != y ==> *(
                #[trigger] entries@[x]).0 != *(#[trigger] entries@[y]).0,
            forall|key: (u32, u32)|
                #[trigger] among(entries@, n as int, key) ==> holds_at(m@, after, key),
            forall|key: (u32, u32)|
                !(#[trigger] among(entries@, n as int, key)) ==> holds_at(m@, before, key),
            max >= max_set_num,
            forall|key: (u32, u32)| #[trigger] among(entries@, n as int, key) ==> key.0 <= max,
            max == max_set_num || exists|key: (u32, u32)|
                #[trigger] among(entries@, n as int, key) && key.0 == max,
        decreases entries.len() - n,
    {
        let key = *entries[n].0;
        let reqs = entries[n].1;
        let ghost held = m@;
        let ghost max_before = max;
        proof {
            assert(*entries@[n as int].0 == key);
            assert(own.contains_key(key) && own[key] == *reqs);
            assert(!among(entries@, n as int, key));
            assert(holds_at(held, before, key));
            assert forall|k: (u32, u32)| #[trigger] among(entries@, n + 1, k) == (among(
                entries@,
                n as int,
                k,
            ) || k == key) by {
                if among(entries@, n + 1, k) {
                    let x = choose|x: int| 0 <= x < n + 1 && *(#[trigger] entries@[x]).0 == k;
                    if x < n {
                        assert(among(entries@, n as int, k));
                    }
                }
                if among(entries@, n as int, k) {
                    let x = choose|x: int| 0 <= x < n && *(#[trigger] entries@[x]).0 == k;
                    assert(*entries@[x].0 == k);
                }
            }
        }
        if key.0 > max {
            max = key.0;
        }
        match outside::value_mut(m, key) {
            Some(existing) => {
                // Previous shaders already added requirements, so we merge
                // requirements of the current shader into the requirements of the
                // previous ones.
                if existing.merge(reqs).is_err() {
                    assert(!merges_at(stages@, i as int, key));
                    return None;
                }
            },
            None => {
                // No previous shader had this descriptor yet, so we just insert the
                // requirements.
                outside::insert_value(m, key, reqs.duplicate());
            },
        }
        proof {
            assert(merges_at(stages@, i as int, key));
            assert(m@.contains_key(key) && Some(m@[key]@) == merged_at(after, key));
            assert forall|k: (u32, u32)| #[trigger] among(entries@, n + 1, k) implies holds_at(
                m@,
                after,
                k,
            ) by {
                if k != key {
                    assert(among(entries@, n as int, k));
                    assert(holds_at(held, after, k));
                }
            }
            assert forall|k: (u32, u32)| !(#[trigger] among(entries@, n + 1, k)) implies holds_at(
                m@,
                before,
                k,
            ) by {
                assert(k != key);
                assert(!among(entries@, n as int, k));
                assert(holds_at(held, before, k));
            }
            assert(among(entries@, n + 1, key));
            if max_before == max && max != max_set_num {
                let k = choose|k: (u32, u32)|
                    #[trigger] among(entries@, n as int, k) && k.0 == max_before;
                assert(among(entries@, n + 1, k));
            }
        }
        n = n + 1;
    }
    proof {
        assert forall|key: (u32, u32)| #[trigger] among(entries@, n as int, key)
            == own.contains_key(key) by {
            if own.contains_key(key) {
                let x = choose|x: int| 0 <= x < entries.len() && *(#[trigger] entries@[x]).0 == key;
                assert(*entries@[x].0 == key);
            }
        }
        assert forall|key: (u32, u32)| #[trigger] merges_at(stages@, i as int, key) by {
            assert(among(entries@, n as int, key) == own.contains_key(key));
        }
        assert forall|key: (u32, u32)| #[trigger] holds_at(m@, after, key) by {
            assert(among(entries@, n as int, key) == own.contains_key(key));
            assert(holds_at(m@, before, key) || holds_at(m@, after, key));
        }
        assert forall|key: (u32, u32)| (#[trigger] merged_at(after, key)) is Some implies key.0
            <= max by {
            assert(among(entries@, n as int, key) == own.contains_key(key));
            if !own.contains_key(key) {
                assert(merged_at(before, key) is Some);
            }
        }
        if max != 0 {
            if max == max_set_num {
                let key = choose|key: (u32, u32)|
                    (#[trigger] merged_at(before, key)) is Some && key.0 == max_set_num;
                assert(merged_at(after, key) is Some);
            } else {
                let key = choose|key: (u32, u32)|
                    #[trigger] among(entries@, n as int, key) && key.0 == max;
                assert(merged_at(after, key) is Some);
            }
        }
    }
    Some(max)
}

/// No two combined ranges have the same offset and size.
pub proof fn law_combined_extents_differ(stages: Seq<PipelineShaderStageCreateInfo>)
    ensures
        extents_differ(combined_ranges(stages)),
    decreases stages.len(),
{
    if stages.len() > 0 {
        law_combined_extents_differ(stages.drop_last());
    }
}

/// Adds the range of one more stage.
fn add_range(ranges: &mut Vec<PushConstantRange>, range: PushConstantRange)
    requires
        extents_differ(old(ranges)@),
    ensures
        final(ranges)@ == with_range(old(ranges)@, range),
{
    let ghost before = ranges@;
    let mut i: usize = 0;
    while i < ranges.len()
        invariant
            i <= ranges.len(),
            ranges@ == before,
            before == old(ranges)@,
            extents_differ(before),
            forall|j: int| 0 <= j < i ==> !same_extent(#[trigger] before[j], range),
        decreases ranges.len() - i,
    {
        let existing_range = ranges[i];
        if existing_range.offset == range.offset && existing_range.size == range.size {
            // If this range was already used before, add our stage to it.
            ranges[i] = PushConstantRange {
                stages: existing_range.stages | range.stages,
                offset: existing_range.offset,
                size: existing_range.size,
            };
            proof {
                assert(same_extent(before[i as int], range));
                assert forall|j: int| 0 <= j < before.len() && j != i implies !same_extent(
                    #[trigger] before[j],
                    range,
                ) by {
                    if j < i {
                        assert(!same_extent(before[j], before[i as int]));
                    } else {
                        assert(!same_extent(before[i as int], before[j]));
                    }
                }
                assert(ranges@ =~= before.map_values(
                    |r: PushConstantRange| with_stages_of(r, range),
                ));
            }
            return;
        }
        i = i + 1;
    }
    // If this range is new, insert it.
    ranges.push(range);
}

/// Whether `sets` hold a binding for each of the first `n` entries, and no other bindings.
spec fn hold_entries(
    sets: Seq<DescriptorSetLayoutCreateInfo>,
    entries: Seq<(&(u32, u32), &DescriptorBindingRequirements)>,
    n: int,
    m: Map<(u32, u32), DescriptorBindingRequirements>,
) -> bool {
    forall|x: int, b: u32|
        0 <= x < sets.len() ==> {
            &&& (#[trigger] sets[x].bindings@.contains_key(b)) == among(entries, n, (x as u32, b))
            &&& sets[x].bindings@.contains_key(b) ==> sets[x].bindings@[b]@
                == descriptor_set::binding_for(m[(x as u32, b)]@)
        }
}

/// The create infos of `count` sets, with the bindings that satisfy the requirements in the map.
fn sets_for(
    m: &ahash::HashMap<(u32, u32), DescriptorBindingRequirements>,
    count: usize,
) -> (sets: Vec<DescriptorSetLayoutCreateInfo>)
    requires
        count <= u32::MAX + 1,
        forall|key: (u32, u32)| #[trigger]
            m@.contains_key(key) ==> key.0 < count && m@[key]@.descriptor_types.len() > 0,
    ensures
        sets.len() == count,
        forall|x: int| 0 <= x < sets.len() ==> (#[trigger] sets@[x]).flags.bits == 0,
        forall|x: int, b: u32|
            0 <= x < sets.len() ==> {
                &&& (#[trigger] sets@[x].bindings@.contains_key(b)) == m@.contains_key(
                    (x as u32, b),
                )
                &&& sets@[x].bindings@.contains_key(b) ==> sets@[x].bindings@[b]@
                    == descriptor_set::binding_for(m@[(x as u32, b)]@)
            },
{
    let mut sets: Vec<DescriptorSetLayoutCreateInfo> = Vec::new();
    while sets.len() < count
        invariant
            sets.len() <= count,
            forall|x: int|
                0 <= x < sets.len() ==> (#[trigger] sets@[x]).flags.bits == 0
                    && sets@[x].bindings@ == Map::<u32, DescriptorSetLayoutBinding>::empty(),
        decreases count - sets.len(),
    {
        sets.push(DescriptorSetLayoutCreateInfo::default());
    }
    let entries = outside::map_entries(m);
    let mut n: usize = 0;
    while n < entries.len()
        invariant
            n <= entries.len(),
            sets.len() == count,
            count <= u32::MAX + 1,
            forall|x: int| 0 <= x < sets.len() ==> (#[trigger] sets@[x]).flags.bits == 0,
            forall|key: (u32, u32)| #[trigger]
                m@.contains_key(key) ==> key.0 < count && m@[key]@.descriptor_types.len() > 0,
            forall|i: int|
                0 <= i < entries.len() ==> m@.contains_key(*(#[trigger] entries@[i]).0)
                    && m@[*entries@[i].0] == *entries@[i].1,
            hold_entries(sets@, entries@, n as int, m@),
        decreases entries.len() - n,
    {
        let key = *entries[n].0;
        let reqs = entries[n].1;
        let ghost before = sets@;
        assert(m@.contains_key(*entries@[n as int].0));
        sets[key.0 as usize].insert_binding(
            key.1,
            DescriptorSetLayoutBinding::for_requirements(reqs),
        );
        proof {
            assert forall|x: int, b: u32| 0 <= x < sets.len() implies {
                &&& (#[trigger] sets@[x].bindings@.contains_key(b)) == among(
                    entries@,
                    n + 1,
                    (x as u32, b),
                )
                &&& sets@[x].bindings@.contains_key(b) ==> sets@[x].bindings@[b]@
                    == descriptor_set::binding_for(m@[(x as u32, b)]@)
            } by {
                let k = (x as u32, b);
                assert(before[x].bindings@.contains_key(b) == among(entries@, n as int, k));
                assert(among(entries@, n + 1, k) == (among(entries@, n as int, k) || k == key)) by {
                    if among(entries@, n + 1, k) {
                        let y = choose|y: int| 0 <= y < n + 1 && *(#[trigger] entries@[y]).0 == k;
                        if y < n {
                            assert(among(entries@, n as int, k));
                        }
                    }
                    if among(entries@, n as int, k) {
                        let y = choose|y: int| 0 <= y < n && *(#[trigger] entries@[y]).0 == k;
                        assert(*entries@[y].0 == k);
                    }
                    assert(*entries@[n as int].0 == key);
                }
                if x == key.0 {
                    assert(x as u32 == key.0);
                } else {
                    assert(sets@[x] == before[x]);
                }
            }
        }
        n = n + 1;
    }
    proof {
        assert forall|x: int, b: u32| 0 <= x < sets.len() implies (
        #[trigger] sets@[x].bindings@.contains_key(b)) == m@.contains_key((x as u32, b)) by {
            let k = (x as u32, b);
            assert(sets@[x].bindings@.contains_key(b) == among(entries@, n as int, k));
            if m@.contains_key(k) {
                let y = choose|y: int| 0 <= y < entries.len() && *(#[trigger] entries@[y]).0 == k;
                assert(*entries@[y].0 == k);
            }
        }
    }
    sets
}

/// Whether each entry of the map has a descriptor type.
fn all_have_types(m: &ahash::HashMap<(u32, u32), DescriptorBindingRequirements>) -> (b: bool)
    ensures
        b == forall|key: (u32, u32)| #[trigger]
            m@.contains_key(key) ==> m@[key]@.descriptor_types.len() > 0,
{
    let entries = outside::map_entries(m);
    let mut n: usize = 0;
    while n < entries.len()
        invariant
            n <= entries.len(),
            forall|i: int|
                0 <= i < entries.len() ==> m@.contains_key(*(#[trigger] entries@[i]).0)
                    && m@[*entries@[i].0] == *entries@[i].1,
            forall|i: int|
                0 <= i < n ==> (#[trigger] entries@[i]).1@.descriptor_types.len() > 0,
        decreases entries.len() - n,
    {
        if entries[n].1.descriptor_types.len() == 0 {
            assert(m@.contains_key(*entries@[n as int].0));
            return false;
        }
        n = n + 1;
    }
    proof {
        assert forall|key: (u32, u32)| #[trigger] m@.contains_key(key) implies
            m@[key]@.descriptor_types.len() > 0 by {
            let i = choose|i: int| 0 <= i < entries.len() && *(#[trigger] entries@[i]).0 == key;
            assert(entries@[i].1@.descriptor_types.len() > 0);
        }
    }
    true
}

/// Whether `info` is the union of the requirements of the stages.
pub open spec fn is_union_of(
    info: PipelineDescriptorSetLayoutCreateInfo,
    stages: Seq<PipelineShaderStageCreateInfo>,
) -> bool {
    &&& info.flags.bits == 0
    &&& is_highest_set(stages, info.set_layouts@.len() - 1)
    &&& forall|n: int|
        0 <= n < info.set_layouts@.len() ==> (#[trigger] info.set_layouts@[n]).flags.bits == 0
    &&& are_sets_for(info.set_layouts@, stages)
    &&& info.push_constant_ranges@ == combined_ranges(stages)
}

impl PipelineDescriptorSetLayoutCreateInfo {
    /// Creates a new `PipelineDescriptorSetLayoutCreateInfo` from the union of the requirements of
    /// each shader stage in `stages`.
    pub fn from_stages(
        stages: &[PipelineShaderStageCreateInfo],
    ) -> (info: PipelineDescriptorSetLayoutCreateInfo)
        requires
            joinable(stages@),
        ensures
            is_union_of(info, stages@),
    {
        PipelineDescriptorSetLayoutCreateInfo::try_from_stages(stages).unwrap()
    }

    /// Creates a new `PipelineDescriptorSetLayoutCreateInfo` from the union of the requirements of
    /// each shader stage in `stages`, if there is a layout that satisfies all of them.
    pub fn try_from_stages(
        stages: &[PipelineShaderStageCreateInfo],
    ) -> (r: Option<PipelineDescriptorSetLayoutCreateInfo>)
        ensures
            match r {
                Some(info) => joinable(stages@) && is_union_of(info, stages@),
                None => !joinable(stages@),
            },
    {
        // Produce `DescriptorBindingRequirements` for each binding, by iterating over all
        // shaders and adding the requirements of each.
        let mut descriptor_binding_requirements: ahash::HashMap<
            (u32, u32),
            DescriptorBindingRequirements,
        > = Default::default();
        let mut max_set_num: u32 = 0;
        let mut push_constant_ranges: Vec<PushConstantRange> = Vec::new();
        let mut i: usize = 0;
        assert(stages@.take(0) =~= Seq::empty());
        while i < stages.len()
            invariant
                i <= stages.len(),
                forall|j: int| 0 <= j < i ==> #[trigger] can_merge_at(stages@, j),
                holds_merged(descriptor_binding_requirements@, stages@.take(i as int)),
                is_highest_set(stages@.take(i as int), max_set_num as int),
                push_constant_ranges@ == combined_ranges(stages@.take(i as int)),
            decreases stages.len() - i,
        {
            proof {
                assert(stages@.take(i + 1).drop_last() =~= stages@.take(i as int));
                assert(stages@.take(i + 1).last() == stages@[i as int]);
                law_combined_extents_differ(stages@.take(i as int));
            }
            match merge_stage(&mut descriptor_binding_requirements, max_set_num, stages, i) {
                Some(max) => {
                    max_set_num = max;
                },
                None => {
                    return None;
                },
            }
            if let Some(range) = stages[i].entry_point.info.push_constant_requirements {
                add_range(&mut push_constant_ranges, range);
            }
            i = i + 1;
        }
        proof {
            assert(stages@.take(i as int) =~= stages@);
            assert forall|key: (u32, u32)| #[trigger]
                descriptor_binding_requirements@.contains_key(key) == (merged_at(
                    stages@,
                    key,
                ) is Some) by {
                assert(holds_at(descriptor_binding_requirements@, stages@, key));
            }
            assert forall|key: (u32, u32)| (#[trigger] merged_at(stages@, key)) is Some implies
                descriptor_binding_requirements@.contains_key(key)
                && descriptor_binding_requirements@[key]@ == merged_at(stages@, key)->Some_0 by {
                assert(holds_at(descriptor_binding_requirements@, stages@, key));
            }
        }
        if !all_have_types(&descriptor_binding_requirements) {
            return None;
        }
        if max_set_num as usize == usize::MAX {
            return None;
        }
        // Convert the descriptor binding requirements.
        let set_layouts = sets_for(&descriptor_binding_requirements, max_set_num as usize + 1);
        proof {
            assert forall|n: int, b: u32| 0 <= n < set_layouts.len() implies #[trigger] is_binding_for(
                set_layouts@[n],
                n,
                b,
                stages@,
            ) by {
                assert(holds_at(descriptor_binding_requirements@, stages@, (n as u32, b)));
                assert(set_layouts@[n].bindings@.contains_key(b)
                    == descriptor_binding_requirements@.contains_key((n as u32, b)));
            }
        }
        let info = PipelineDescriptorSetLayoutCreateInfo {
            flags: PipelineLayoutCreateFlags::empty(),
            set_layouts,
            push_constant_ranges,
        };
        Some(info)
    }

    /// Converts the `PipelineDescriptorSetLayoutCreateInfo` into a `PipelineLayoutCreateInfo` by
    /// creating the descriptor set layout objects.
    ///
    /// `create` creates the object of one set. It is called for each set in order of set number,
    /// until it fails.
    pub fn into_pipeline_layout_create_info<F>(
        self,
        device: Arc<Device>,
        create: F,
    ) -> (r: Result<PipelineLayoutCreateInfo, IntoPipelineLayoutCreateInfoError>) where
        F: Fn(Arc<Device>, DescriptorSetLayoutCreateInfo) -> Result<
            Arc<DescriptorSetLayout>,
            VulkanError,
        >,

        requires
            forall|i: int|
                0 <= i < self.set_layouts@.len() && all_succeed(
                    create,
                    device,
                    self.set_layouts@,
                    i,
                ) ==> #[trigger] create.requires((device, self.set_layouts@[i])),
        ensures
            match r {
                Ok(info) => {
                    &&& info.flags == self.flags
                    &&& info.push_constant_ranges == self.push_constant_ranges
                    &&& info.set_layouts@.len() == self.set_layouts@.len()
                    &&& forall|i: int|
                        0 <= i < self.set_layouts@.len() ==> create.ensures(
                            (device, self.set_layouts@[i]),
                            Ok(#[trigger] info.set_layouts@[i]),
                        )
                },
                Err(e) => exists|n: int|
                    fails_at(create, device, self.set_layouts@, n, e.error) && e.set_num
                        == #[trigger] set_number(n),
            },
    {
        let PipelineDescriptorSetLayoutCreateInfo { flags, set_layouts, push_constant_ranges } =
            self;
        let ghost given = set_layouts@;
        let mut created: Vec<Arc<DescriptorSetLayout>> = Vec::new();
        for create_info in it: set_layouts
            invariant
                given == it.seq(),
                given == self.set_layouts@,
                created.len() == it.index(),
                forall|i: int|
                    0 <= i < given.len() && all_succeed(create, device, given, i)
                        ==> #[trigger] create.requires((device, given[i])),
                forall|i: int|
                    0 <= i < created.len() ==> create.ensures(
                        (device, given[i]),
                        Ok(#[trigger] created@[i]),
                    ),
        {
            let ghost n = created.len() as int;
            assert(all_succeed(create, device, given, n)) by {
                assert forall|i: int| 0 <= i < n implies succeeds_at(
                    create,
                    device,
                    #[trigger] given[i],
                ) by {
                    assert(create.ensures((device, given[i]), Ok(created@[i])));
                }
            }
            assert(create.requires((device, given[n])));
            match create(device.clone(), create_info) {
                Ok(set_layout) => {
                    created.push(set_layout);
                },
                Err(error) => {
                    let set_num = truncated(created.len());
                    assert(fails_at(create, device, given, n, error));
                    assert(set_num == set_number(n));
                    return Err(IntoPipelineLayoutCreateInfoError { set_num, error });
                },
            }
        }
        Ok(PipelineLayoutCreateInfo { flags, set_layouts: created, push_constant_ranges })
    }
}

/// The number of a set, in the 32 bits that errors have for it.
pub open spec fn set_number(n: int) -> u32 {
    n as u32
}

fn truncated(n: usize) -> (r: u32)
    ensures
        r == set_number(n as int),
{
    n as u32
}

/// Whether creating the object of a set can succeed.
pub open spec fn succeeds_at<
    F: Fn(Arc<Device>, DescriptorSetLayoutCreateInfo) -> Result<
        Arc<DescriptorSetLayout>,
        VulkanError,
    >,
>(create: F, device: Arc<Device>, info: DescriptorSetLayoutCreateInfo) -> bool {
    exists|set: Arc<DescriptorSetLayout>| #[trigger] create.ensures((device, info), Ok(set))
}

/// Whether creating the objects of the sets in front of set `n` can succeed.
pub open spec fn all_succeed<
    F: Fn(Arc<Device>, DescriptorSetLayoutCreateInfo) -> Result<
        Arc<DescriptorSetLayout>,
        VulkanError,
    >,
>(create: F, device: Arc<Device>, infos: Seq<DescriptorSetLayoutCreateInfo>, n: int) -> bool {
    forall|i: int| 0 <= i < n ==> succeeds_at(create, device, #[trigger] infos[i])
}

/// Whether the objects of the sets in front of set `n` were created, and that of set `n` failed
/// with `error`.
pub open spec fn fails_at<
    F: Fn(Arc<Device>, DescriptorSetLayoutCreateInfo) -> Result<
        Arc<DescriptorSetLayout>,
        VulkanError,
    >,
>(
    create: F,
    device: Arc<Device>,
    infos: Seq<DescriptorSetLayoutCreateInfo>,
    n: int,
    error: VulkanError,
) -> bool {
    &&& 0 <= n < infos.len()
    &&& all_succeed(create, device, infos, n)
    &&& create.ensures((device, infos[n]), Err(error))
}

/// Error when creating the object of a descriptor set layout.
#[derive(Clone, Debug)]
pub struct IntoPipelineLayoutCreateInfoError {
    pub set_num: u32,
    pub error: VulkanError,
}

impl IntoPipelineLayoutCreateInfoError {
    /// What went wrong, in words.
    pub fn message(&self) -> (message: String)
        ensures
            message@
                == "an error occurred while creating a descriptor set layout for set number "@
                + text::decimal(self.set_num as nat),
    {
        let mut message =
            "an error occurred while creating a descriptor set layout for set number ".to_owned();
        text::append_decimal(&mut message, self.set_num as u64);
        message
    }

    /// The error behind this one.
    pub fn source(&self) -> (source: &VulkanError)
        ensures
            *source == self.error,
    {
        &self.error
    }
}

/// Stages that can be merged can be merged without the last one.
pub(crate) proof fn lemma_can_merge_rest(stages: Seq<PipelineShaderStageCreateInfo>)
    requires
        can_merge(stages),
        stages.len() > 0,
    ensures
        can_merge(stages.drop_last()),
{
    let rest = stages.drop_last();
    assert forall|j: int| 0 <= j < rest.len() implies #[trigger] can_merge_at(rest, j) by {
        assert(can_merge_at(stages, j));
        assert(rest.take(j) =~= stages.take(j));
        assert forall|k: (u32, u32)| #[trigger] merges_at(rest, j, k) by {
            assert(merges_at(stages, j, k));
        }
    }
}

/// A binding that meets what the stages together require meets what each of them requires.
proof fn lemma_meets_each(
    stages: Seq<PipelineShaderStageCreateInfo>,
    key: (u32, u32),
    binding: descriptor_set::BindingView,
    i: int,
)
    requires
        can_merge(stages),
        0 <= i < stages.len(),
        stages[i].reqs().contains_key(key),
        merged_at(stages, key) is Some ==> descriptor_set::not_met(
            binding,
            merged_at(stages, key)->Some_0,
        ) is None,
    ensures
        merged_at(stages, key) is Some,
        descriptor_set::not_met(binding, stages[i].reqs()[key]@) is None,
    decreases stages.len(),
{
    let n = stages.len() - 1;
    let rest = stages.drop_last();
    let own = stages[n].reqs();
    assert(stages.take(n) =~= rest);
    assert(can_merge_at(stages, n));
    assert(merges_at(stages, n, key));
    lemma_can_merge_rest(stages);
    match merged_at(rest, key) {
        Some(reqs) => {
            if own.contains_key(key) {
                descriptor_set::law_merged_is_both(binding, reqs, own[key]@);
            }
        },
        None => {},
    }
    if i < n {
        assert(rest[i] == stages[i]);
        lemma_meets_each(rest, key, binding, i);
    }
}

/// A layout whose sets are made from the union of the requirements of the stages has, for each
/// stage, every descriptor that the stage requires.
pub proof fn law_union_has_the_descriptors_of_each_stage(
    info: PipelineDescriptorSetLayoutCreateInfo,
    stages: Seq<PipelineShaderStageCreateInfo>,
    sets: Seq<Arc<DescriptorSetLayout>>,
    i: int,
    key: (u32, u32),
)
    requires
        joinable(stages),
        is_union_of(info, stages),
        sets.len() == info.set_layouts@.len(),
        forall|n: int|
            0 <= n < sets.len() ==> (#[trigger] sets[n]).bindings@
                == info.set_layouts@[n].bindings@,
        0 <= i < stages.len(),
        stages[i].reqs().contains_key(key),
    ensures
        layout::descriptor_error(sets, key.0, key.1, stages[i].reqs()[key]@) is None,
{
    lemma_required(stages, key, i);
    let reqs = merged_at(stages, key)->Some_0;
    let binding = descriptor_set::binding_for(reqs);
    descriptor_set::law_made_binding_meets(reqs);
    lemma_meets_each(stages, key, binding, i);
    let n = key.0 as int;
    assert(n < sets.len());
    assert(sets[n].bindings@ == info.set_layouts@[n].bindings@);
    assert(n as u32 == key.0);
    assert(is_binding_for(info.set_layouts@[n], n, key.1, stages));
}

/// What a stage requires, the stages together require.
proof fn lemma_required(stages: Seq<PipelineShaderStageCreateInfo>, key: (u32, u32), i: int)
    requires
        0 <= i < stages.len(),
        stages[i].reqs().contains_key(key),
    ensures
        merged_at(stages, key) is Some,
    decreases stages.len(),
{
    if i < stages.len() - 1 {
        assert(stages.drop_last()[i] == stages[i]);
        lemma_required(stages.drop_last(), key, i);
    }
}

/// The range of a stage is part of a combined range of the same extent.
pub(crate) proof fn lemma_range_is_combined(stages: Seq<PipelineShaderStageCreateInfo>, i: int)
    requires
        0 <= i < stages.len(),
        stages[i].range() is Some,
    ensures
        exists|x: int|
            0 <= x < combined_ranges(stages).len() && takes_in(
                #[trigger] combined_ranges(stages)[x],
                stages[i].range()->Some_0,
            ),
    decreases stages.len(),
{
    let n = stages.len() - 1;
    let rest = stages.drop_last();
    let before = combined_ranges(rest);
    let all = combined_ranges(stages);
    let range = stages[i].range()->Some_0;
    let bits = range.stages.bits;
    if i < n {
        assert(rest[i] == stages[i]);
        lemma_range_is_combined(rest, i);
        let x = choose|x: int| 0 <= x < before.len() && takes_in(#[trigger] before[x], range);
        let had = before[x].stages.bits;
        if let Some(more) = stages.last().range() {
            let added = more.stages.bits;
            assert((had | added) & bits == bits) by (bit_vector)
                requires
                    had & bits == bits,
            ;
        }
        assert(takes_in(all[x], range));
    } else if exists|x: int| 0 <= x < before.len() && same_extent(#[trigger] before[x], range) {
        let x = choose|x: int| 0 <= x < before.len() && same_extent(#[trigger] before[x], range);
        let had = before[x].stages.bits;
        assert((had | bits) & bits == bits) by (bit_vector);
        assert(takes_in(all[x], range));
    } else {
        assert(bits & bits == bits) by (bit_vector);
        assert(takes_in(all[before.len() as int], range));
    }
}

/// Whether `range` has the extent of `part`, and all of its stages.
pub open spec fn takes_in(range: PushConstantRange, part: PushConstantRange) -> bool {
    same_extent(range, part) && range.stages.bits & part.stages.bits == part.stages.bits
}

/// Where no two combined ranges share a stage, none of them falls short of the range of a stage.
pub proof fn law_union_encompasses_the_range_of_each_stage(
    stages: Seq<PipelineShaderStageCreateInfo>,
    i: int,
    x: int,
)
    requires
        range::share_no_stage(combined_ranges(stages)),
        0 <= i < stages.len(),
        stages[i].range() is Some,
        0 <= x < combined_ranges(stages).len(),
    ensures
        !layout::falls_short(combined_ranges(stages)[x], stages[i].range()->Some_0),
{
    let range = stages[i].range()->Some_0;
    let all = combined_ranges(stages);
    if shader::masks_meet(range.stages.bits, all[x].stages.bits) {
        lemma_range_is_combined(stages, i);
        let y = choose|y: int| 0 <= y < all.len() && takes_in(#[trigger] all[y], range);
        if x != y {
            let bits = range.stages.bits;
            let a = all[x].stages.bits;
            let b = all[y].stages.bits;
            assert(a & b != 0) by (bit_vector)
                requires
                    bits & a != 0,
                    b & bits == bits,
            ;
            shader::lemma_meet_symmetric(a, b);
        }
    }
}

/// The combined ranges have every stage of the range of each stage.
pub proof fn law_union_has_the_stages_of_each_stage(
    stages: Seq<PipelineShaderStageCreateInfo>,
    i: int,
    k: u32,
)
    requires
        0 <= i < stages.len(),
        stages[i].range() is Some,
        k < 32,
        shader::has_bit(stages[i].range()->Some_0.stages.bits, k),
    ensures
        layout::has_stage(combined_ranges(stages), k),
{
    let range = stages[i].range()->Some_0;
    let all = combined_ranges(stages);
    lemma_range_is_combined(stages, i);
    let y = choose|y: int| 0 <= y < all.len() && takes_in(#[trigger] all[y], range);
    shader::lemma_contains_bits(all[y].stages.bits, range.stages.bits);
    assert(shader::has_bit(all[y].stages.bits, k));
}

/// A pipeline layout that is made from the union of the requirements of shaders, in which no two
/// push constant ranges share a stage, lacks nothing for any of them. Parameters whose ranges share
/// a stage are not accepted.
pub proof fn law_union_satisfies_each_stage(
    info: PipelineDescriptorSetLayoutCreateInfo,
    stages: Seq<PipelineShaderStageCreateInfo>,
    made: layout::LayoutView,
    i: int,
    required: Seq<((u32, u32), &DescriptorBindingRequirements)>,
)
    requires
        joinable(stages),
        is_union_of(info, stages),
        made.set_layouts.len() == info.set_layouts@.len(),
        forall|n: int|
            0 <= n < made.set_layouts.len() ==> (#[trigger] made.set_layouts[n]).bindings@
                == info.set_layouts@[n].bindings@,
        made.push_constant_ranges.to_multiset() == info.push_constant_ranges@.to_multiset(),
        range::share_no_stage(info.push_constant_ranges@),
        0 <= i < stages.len(),
        forall|x: int|
            0 <= x < required.len() ==> stages[i].reqs().contains_key((#[trigger] required[x]).0)
                && stages[i].reqs()[required[x].0] == *required[x].1,
    ensures
        layout::shader_error(made, required, stages[i].range()) is None,
{
    layout::law_superset(made, required, stages[i].range());
    assert forall|x: int| 0 <= x < required.len() implies layout::descriptor_error(
        made.set_layouts,
        (#[trigger] required[x]).0.0,
        required[x].0.1,
        required[x].1@,
    ) is None by {
        law_union_has_the_descriptors_of_each_stage(
            info,
            stages,
            made.set_layouts,
            i,
            required[x].0,
        );
    }
    if let Some(range) = stages[i].range() {
        assert forall|y: int| 0 <= y < made.push_constant_ranges.len() implies !layout::falls_short(
            #[trigger] made.push_constant_ranges[y],
            range,
        ) by {
            broadcast use vstd::seq_lib::group_to_multiset_ensures;

            let own = made.push_constant_ranges[y];
            assert(made.push_constant_ranges.contains(own));
            assert(made.push_constant_ranges.to_multiset().count(own) > 0);
            assert(info.push_constant_ranges@.contains(own));
            let x = choose|x: int|
                0 <= x < info.push_constant_ranges@.len() && info.push_constant_ranges@[x] == own;
            law_union_encompasses_the_range_of_each_stage(stages, i, x);
        }
        assert forall|k: u32|
            k < 32 && #[trigger] shader::has_bit(range.stages.bits, k) implies layout::has_stage(
            made.push_constant_ranges,
            k,
        ) by {
            broadcast use vstd::seq_lib::group_to_multiset_ensures;

            law_union_has_the_stages_of_each_stage(stages, i, k);
            let all = info.push_constant_ranges@;
            let x = choose|x: int|
                0 <= x < all.len() && shader::has_bit((#[trigger] all[x]).stages.bits, k);
            assert(all.contains(all[x]));
            assert(all.to_multiset().count(all[x]) > 0);
            assert(made.push_constant_ranges.contains(all[x]));
            let y = choose|y: int|
                0 <= y < made.push_constant_ranges.len() && made.push_constant_ranges[y] == all[x];
            assert(shader::has_bit(made.push_constant_ranges[y].stages.bits, k));
        }
    }
}

} // verus!
