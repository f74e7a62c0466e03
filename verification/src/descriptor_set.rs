//! The layout of descriptor sets.
use std::collections::BTreeMap;
use std::sync::Arc;

use vstd::prelude::*;

use crate::device::Device;
use crate::requirements;
use crate::requirements::DescriptorBindingRequirements;
use crate::shader;
use crate::shader::ShaderStages;

verus! {

/// Describes what kind of resource may later be bound to a descriptor.
#[derive(Clone, Copy, Debug, PartialEq, Eq, Structural)]
pub enum DescriptorType {
    Sampler,
    CombinedImageSampler,
    SampledImage,
    StorageImage,
    UniformTexelBuffer,
    StorageTexelBuffer,
    UniformBuffer,
    StorageBuffer,
    UniformBufferDynamic,
    StorageBufferDynamic,
    InputAttachment,
    InlineUniformBlock,
    AccelerationStructure,
}

impl DescriptorType {
    /// The name of this type, as messages write it.
    pub open spec fn spec_name(self) -> Seq<char> {
        match self {
            DescriptorType::Sampler => "Sampler"@,
            DescriptorType::CombinedImageSampler => "CombinedImageSampler"@,
            DescriptorType::SampledImage => "SampledImage"@,
            DescriptorType::StorageImage => "StorageImage"@,
            DescriptorType::UniformTexelBuffer => "UniformTexelBuffer"@,
            DescriptorType::StorageTexelBuffer => "StorageTexelBuffer"@,
            DescriptorType::UniformBuffer => "UniformBuffer"@,
            DescriptorType::StorageBuffer => "StorageBuffer"@,
            DescriptorType::UniformBufferDynamic => "UniformBufferDynamic"@,
            DescriptorType::StorageBufferDynamic => "StorageBufferDynamic"@,
            DescriptorType::InputAttachment => "InputAttachment"@,
            DescriptorType::InlineUniformBlock => "InlineUniformBlock"@,
            DescriptorType::AccelerationStructure => "AccelerationStructure"@,
        }
    }

    /// The name of this type, as messages write it.
    pub fn name(self) -> (s: &'static str)
        ensures
            s@ == self.spec_name(),
    {
        match self {
            DescriptorType::Sampler => "Sampler",
            DescriptorType::CombinedImageSampler => "CombinedImageSampler",
            DescriptorType::SampledImage => "SampledImage",
            DescriptorType::StorageImage => "StorageImage",
            DescriptorType::UniformTexelBuffer => "UniformTexelBuffer",
            DescriptorType::StorageTexelBuffer => "StorageTexelBuffer",
            DescriptorType::UniformBuffer => "UniformBuffer",
            DescriptorType::StorageBuffer => "StorageBuffer",
            DescriptorType::UniformBufferDynamic => "UniformBufferDynamic",
            DescriptorType::StorageBufferDynamic => "StorageBufferDynamic",
            DescriptorType::InputAttachment => "InputAttachment",
            DescriptorType::InlineUniformBlock => "InlineUniformBlock",
            DescriptorType::AccelerationStructure => "AccelerationStructure",
        }
    }
}

/// Flags that control how a descriptor set layout is created.
#[derive(Clone, Copy, Debug, PartialEq, Eq, Structural)]
pub struct DescriptorSetLayoutCreateFlags {
    pub bits: u32,
}

/// The flag of a descriptor set layout whose descriptors are pushed into the command buffer.
pub const PUSH_DESCRIPTOR: u32 = 0x1;

/// Flags that control how a binding in a descriptor set is created.
#[derive(Clone, Copy, Debug, PartialEq, Eq, Structural)]
pub struct DescriptorBindingFlags {
    pub bits: u32,
}

/// A binding in a descriptor set layout.
#[derive(Clone, Debug, PartialEq, Eq)]
pub struct DescriptorSetLayoutBinding {
    /// Specifies how to create the binding.
    pub binding_flags: DescriptorBindingFlags,
    /// The content and layout of each array element of a binding.
    pub descriptor_type: DescriptorType,
    /// How many descriptors (array elements) this binding is made of.
    pub descriptor_count: u32,
    /// Which shader stages are going to access the descriptors in this binding.
    pub stages: ShaderStages,
    /// Samplers that are included as a fixed part of the descriptor set layout, by their handles.
    pub immutable_samplers: Vec<u64>,
}

/// The contents of a [`DescriptorSetLayoutBinding`].
#[verifier::ext_equal]
pub struct BindingView {
    pub binding_flags: DescriptorBindingFlags,
    pub descriptor_type: DescriptorType,
    pub descriptor_count: u32,
    pub stages: ShaderStages,
    pub immutable_samplers: Seq<u64>,
}

impl View for DescriptorSetLayoutBinding {
    type V = BindingView;

    open spec fn view(&self) -> BindingView {
        BindingView {
            binding_flags: self.binding_flags,
            descriptor_type: self.descriptor_type,
            descriptor_count: self.descriptor_count,
            stages: self.stages,
            immutable_samplers: self.immutable_samplers@,
        }
    }
}

/// The binding that satisfies the requirements of shaders.
pub open spec fn binding_for(reqs: requirements::RequirementsView) -> BindingView {
    BindingView {
        binding_flags: DescriptorBindingFlags { bits: 0 },
        descriptor_type: reqs.descriptor_types[0],
        descriptor_count: match reqs.descriptor_count {
            Some(n) => n,
            None => 0,
        },
        stages: reqs.stages,
        immutable_samplers: Seq::empty(),
    }
}

/// Error when checking whether the requirements for a binding have been met.
#[allow(inconsistent_fields)]
#[derive(Clone, Debug, PartialEq, Eq)]
pub enum DescriptorRequirementsNotMet {
    /// The binding's type is not one of those required.
    DescriptorType { required: Vec<DescriptorType>, obtained: DescriptorType },
    /// The binding has fewer descriptors than required.
    DescriptorCount { required: u32, obtained: u32 },
    /// The binding does not contain all required shader stages.
    ShaderStages { required: ShaderStages, obtained: ShaderStages },
}

/// The contents of [`DescriptorRequirementsNotMet`].
#[allow(inconsistent_fields)]
#[verifier::ext_equal]
pub enum NotMetView {
    DescriptorType { required: Seq<DescriptorType>, obtained: DescriptorType },
    DescriptorCount { required: u32, obtained: u32 },
    ShaderStages { required: ShaderStages, obtained: ShaderStages },
}

impl View for DescriptorRequirementsNotMet {
    type V = NotMetView;

    open spec fn view(&self) -> NotMetView {
        match *self {
            DescriptorRequirementsNotMet::DescriptorType { required, obtained } => {
                NotMetView::DescriptorType { required: required@, obtained }
            },
            DescriptorRequirementsNotMet::DescriptorCount { required, obtained } => {
                NotMetView::DescriptorCount { required, obtained }
            },
            DescriptorRequirementsNotMet::ShaderStages { required, obtained } => {
                NotMetView::ShaderStages { required, obtained }
            },
        }
    }
}

/// The first requirement that a binding does not meet, if there is one.
pub open spec fn not_met(binding: BindingView, reqs: requirements::RequirementsView) -> Option<
    NotMetView,
> {
    if !reqs.descriptor_types.contains(binding.descriptor_type) {
        Some(
            NotMetView::DescriptorType {
                required: reqs.descriptor_types,
                obtained: binding.descriptor_type,
            },
        )
    } else if reqs.descriptor_count is Some && binding.descriptor_count
        < reqs.descriptor_count->Some_0 {
        Some(
            NotMetView::DescriptorCount {
                required: reqs.descriptor_count->Some_0,
                obtained: binding.descriptor_count,
            },
        )
    } else if binding.stages.bits & reqs.stages.bits != reqs.stages.bits {
        Some(NotMetView::ShaderStages { required: reqs.stages, obtained: binding.stages })
    } else {
        None
    }
}

impl DescriptorSetLayoutBinding {
    /// Makes sure that the binding meets the requirements of a shader.
    pub fn ensure_compatible_with_shader(&self, reqs: &DescriptorBindingRequirements) -> (r: Result<
        (),
        DescriptorRequirementsNotMet,
    >)
        ensures
            match r {
                Ok(_) => not_met(self@, reqs@) is None,
                Err(e) => not_met(self@, reqs@) == Some(e@),
            },
    {
        if !requirements::has_type(&reqs.descriptor_types, self.descriptor_type) {
            return Err(
                DescriptorRequirementsNotMet::DescriptorType {
                    required: requirements::copy_types(&reqs.descriptor_types),
                    obtained: self.descriptor_type,
                },
            );
        }
        if let Some(required) = reqs.descriptor_count {
            if self.descriptor_count < required {
                return Err(
                    DescriptorRequirementsNotMet::DescriptorCount {
                        required,
                        obtained: self.descriptor_count,
                    },
                );
            }
        }
        if !self.stages.contains(reqs.stages) {
            return Err(
                DescriptorRequirementsNotMet::ShaderStages {
                    required: reqs.stages,
                    obtained: self.stages,
                },
            );
        }
        Ok(())
    }

    /// The binding that satisfies the requirements of shaders.
    pub fn for_requirements(reqs: &DescriptorBindingRequirements) -> (b: DescriptorSetLayoutBinding)
        requires
            reqs@.descriptor_types.len() > 0,
        ensures
            b@ == binding_for(reqs@),
    {
        let immutable_samplers: Vec<u64> = Vec::new();
        assert(immutable_samplers@ =~= Seq::empty());
        DescriptorSetLayoutBinding {
            binding_flags: DescriptorBindingFlags { bits: 0 },
            descriptor_type: reqs.descriptor_types[0],
            descriptor_count: match reqs.descriptor_count {
                Some(n) => n,
                None => 0,
            },
            stages: reqs.stages,
            immutable_samplers,
        }
    }

    fn is_same_as(&self, other: &DescriptorSetLayoutBinding) -> (b: bool)
        ensures
            b == (self@ == other@),
    {
        if self.binding_flags != other.binding_flags || self.descriptor_type
            != other.descriptor_type || self.descriptor_count != other.descriptor_count
            || self.stages != other.stages || self.immutable_samplers.len()
            != other.immutable_samplers.len() {
            return false;
        }
        let mut i: usize = 0;
        while i < self.immutable_samplers.len()
            invariant
                i <= self.immutable_samplers.len(),
                self.immutable_samplers.len() == other.immutable_samplers.len(),
                forall|j: int|
                    0 <= j < i ==> self.immutable_samplers@[j] == other.immutable_samplers@[j],
            decreases self.immutable_samplers.len() - i,
        {
            if self.immutable_samplers[i] != other.immutable_samplers[i] {
                assert(self@.immutable_samplers[i as int] != other@.immutable_samplers[i as int]);
                return false;
            }
            i = i + 1;
        }
        assert(self@ =~= other@);
        true
    }
}

/// Parameters to create a new descriptor set layout.
#[derive(Clone, Debug)]
pub struct DescriptorSetLayoutCreateInfo {
    /// Specifies how to create the descriptor set layout.
    pub flags: DescriptorSetLayoutCreateFlags,
    /// The bindings of the descriptor set layout, by binding number.
    pub bindings: BTreeMap<u32, DescriptorSetLayoutBinding>,
}

impl DescriptorSetLayoutCreateInfo {
    /// Adds a binding under the given number, in place of the one that was there.
    pub fn insert_binding(&mut self, number: u32, binding: DescriptorSetLayoutBinding)
        ensures
            final(self).flags == old(self).flags,
            final(self).bindings@ == old(self).bindings@.insert(number, binding),
    {
        broadcast use vstd::std_specs::btree::group_btree_axioms;
        broadcast use vstd::laws_cmp::group_laws_cmp;

        self.bindings.insert(number, binding);
    }
}

impl Default for DescriptorSetLayoutCreateInfo {
    fn default() -> (r: DescriptorSetLayoutCreateInfo)
        ensures
            r.flags.bits == 0,
            r.bindings@ == Map::<u32, DescriptorSetLayoutBinding>::empty(),
    {
        DescriptorSetLayoutCreateInfo {
            flags: DescriptorSetLayoutCreateFlags { bits: 0 },
            bindings: BTreeMap::new(),
        }
    }
}

/// Describes to the Vulkan implementation the layout of all descriptors within a descriptor set.
#[derive(Debug)]
pub struct DescriptorSetLayout {
    /// The raw Vulkan handle.
    pub handle: u64,
    /// The device that the object belongs to.
    pub device: Arc<Device>,
    /// Tells this object from all other descriptor set layouts.
    pub id: u64,
    /// The flags that the descriptor set layout was created with.
    pub flags: DescriptorSetLayoutCreateFlags,
    /// The bindings of the descriptor set layout, by binding number.
    pub bindings: BTreeMap<u32, DescriptorSetLayoutBinding>,
}

/// Whether two maps have the same binding numbers, and equal bindings under each.
pub open spec fn same_bindings(
    a: Map<u32, DescriptorSetLayoutBinding>,
    b: Map<u32, DescriptorSetLayoutBinding>,
) -> bool {
    &&& forall|k: u32| #[trigger] a.contains_key(k) == b.contains_key(k)
    &&& forall|k: u32| #[trigger] a.contains_key(k) ==> a[k]@ == b[k]@
}

/// Whether two descriptor set layouts are the same object, or are identically defined.
pub open spec fn sets_compatible(a: DescriptorSetLayout, b: DescriptorSetLayout) -> bool {
    a.id == b.id || (a.flags == b.flags && same_bindings(a.bindings@, b.bindings@))
}

/// Whether `entries` lists each binding of the map once.
pub open spec fn lists_bindings(
    entries: Seq<(u32, &DescriptorSetLayoutBinding)>,
    m: Map<u32, DescriptorSetLayoutBinding>,
) -> bool {
    &&& forall|i: int|
        0 <= i < entries.len() ==> m.contains_key((#[trigger] entries[i]).0) && m[entries[i].0]
            == *entries[i].1
    &&& forall|i: int, j: int|
        0 <= i < entries.len() && 0 <= j < entries.len() && i != j ==> (#[trigger] entries[i]).0
            != (#[trigger] entries[j]).0
    &&& forall|k: u32| #[trigger] m.contains_key(k) ==> exists|i: int|
        0 <= i < entries.len() && (#[trigger] entries[i]).0 == k
}

/// The bindings of a map, with their numbers.
pub(crate) fn binding_entries(m: &BTreeMap<u32, DescriptorSetLayoutBinding>) -> (entries: Vec<
    (u32, &DescriptorSetLayoutBinding),
>)
    ensures
        lists_bindings(entries@, m@),
{
    broadcast use vstd::std_specs::btree::group_btree_axioms;
    broadcast use vstd::laws_cmp::group_laws_cmp;

    let mut entries: Vec<(u32, &DescriptorSetLayoutBinding)> = Vec::new();
    let ghost pairs = vstd::std_specs::iter::IteratorSpec::remaining(
        &vstd::std_specs::btree::spec_btree_map_iter(m),
    );
    for (number, binding) in it: m.iter()
        invariant
            it.seq().no_duplicates(),
            entries.len() == it.index(),
            forall|j: int|
                #![trigger entries@[j]]
                0 <= j < entries.len() ==> entries@[j].0 == *it.seq()[j].0 && entries@[j].1
                    == it.seq()[j].1,
            pairs == it.seq(),
            forall|j: int|
                0 <= j < it.seq().len() ==> m@.contains_key(*(#[trigger] it.seq()[j]).0)
                    && m@[*it.seq()[j].0] == *it.seq()[j].1,
            forall|k: u32|
                #[trigger] m@.contains_key(k) ==> it.seq().contains((&k, &m@[k])),
    {
        entries.push((*number, binding));
    }
    proof {
        assert forall|k: u32| #[trigger] m@.contains_key(k) implies exists|i: int|
            0 <= i < entries.len() && (#[trigger] entries@[i]).0 == k by {
            assert(pairs.contains((&k, &m@[k])));
            let i = choose|i: int| 0 <= i < pairs.len() && pairs[i] == (&k, &m@[k]);
            assert(entries@[i].0 == k);
        }
    }
    entries
}

/// Whether the map has an equal binding for each entry.
fn covers_bindings(
    entries: &Vec<(u32, &DescriptorSetLayoutBinding)>,
    m: &BTreeMap<u32, DescriptorSetLayoutBinding>,
) -> (b: bool)
    ensures
        b == forall|i: int|
            0 <= i < entries.len() ==> m@.contains_key((#[trigger] entries@[i]).0)
                && m@[entries@[i].0]@ == entries@[i].1@,
{
    broadcast use vstd::std_specs::btree::group_btree_axioms;
    broadcast use vstd::laws_cmp::group_laws_cmp;

    let mut n: usize = 0;
    while n < entries.len()
        invariant
            n <= entries.len(),
            forall|i: int|
                0 <= i < n ==> m@.contains_key((#[trigger] entries@[i]).0)
                    && m@[entries@[i].0]@ == entries@[i].1@,
        decreases entries.len() - n,
    {
        let (number, binding) = entries[n];
        let ghost at: int = n + 0;
        match m.get(&number) {
            None => {
                assert(!m@.contains_key(entries@[at].0));
                return false;
            },
            Some(other) => {
                if !other.is_same_as(binding) {
                    assert(m@[entries@[at].0]@ != entries@[at].1@);
                    return false;
                }
            },
        }
        n = n + 1;
    }
    true
}

impl DescriptorSetLayout {
    /// The binding with the given number, if there is one.
    pub fn binding(&self, number: u32) -> (binding: Option<&DescriptorSetLayoutBinding>)
        ensures
            match binding {
                Some(b) => self.bindings@.contains_key(number) && self.bindings@[number] == *b,
                None => !self.bindings@.contains_key(number),
            },
    {
        broadcast use vstd::std_specs::btree::group_btree_axioms;
        broadcast use vstd::laws_cmp::group_laws_cmp;

        self.bindings.get(&number)
    }

    /// Whether `self` is compatible with `other`: they are the same object, or identically defined.
    pub fn is_compatible_with(&self, other: &DescriptorSetLayout) -> (b: bool)
        ensures
            b == sets_compatible(*self, *other),
    {
        if self.id == other.id {
            return true;
        }
        if self.flags != other.flags {
            return false;
        }
        let own = binding_entries(&self.bindings);
        let others = binding_entries(&other.bindings);
        covers_bindings(&own, &other.bindings) && covers_bindings(&others, &self.bindings)
    }
}

/// A binding meets merged requirements exactly where it meets the requirements of both.
pub proof fn law_merged_is_both(
    binding: BindingView,
    a: requirements::RequirementsView,
    b: requirements::RequirementsView,
)
    requires
        requirements::merged(a, b) is Ok,
    ensures
        not_met(binding, requirements::merged(a, b)->Ok_0) is None <==> not_met(binding, a) is None
            && not_met(binding, b) is None,
{
    let t = binding.descriptor_type;
    requirements::lemma_common_types(a.descriptor_types, b.descriptor_types, t);
    let s = binding.stages.bits;
    let x = a.stages.bits;
    let y = b.stages.bits;
    assert((s & (x | y) == x | y) == ((s & x == x) && (s & y == y))) by (bit_vector);
}

/// The binding that is made for requirements meets them.
pub proof fn law_made_binding_meets(reqs: requirements::RequirementsView)
    requires
        reqs.descriptor_types.len() > 0,
    ensures
        not_met(binding_for(reqs), reqs) is None,
{
    assert(reqs.descriptor_types.contains(reqs.descriptor_types[0]));
    let s = reqs.stages.bits;
    assert(s & s == s) by (bit_vector);
}

/// A descriptor set layout is compatible with itself.
pub proof fn law_sets_compatible_reflexive(a: DescriptorSetLayout)
    ensures
        sets_compatible(a, a),
{
}

/// Compatibility of descriptor set layouts does not depend on which one is asked.
pub proof fn law_sets_compatible_symmetric(a: DescriptorSetLayout, b: DescriptorSetLayout)
    requires
        sets_compatible(a, b),
    ensures
        sets_compatible(b, a),
{
    if a.id != b.id {
        assert forall|k: u32| #[trigger] b.bindings@.contains_key(k) implies b.bindings@[k]@
            == a.bindings@[k]@ by {
            assert(a.bindings@.contains_key(k));
        }
        assert forall|k: u32| #[trigger] b.bindings@.contains_key(k) == a.bindings@.contains_key(
            k,
        ) by {
            assert(a.bindings@.contains_key(k) == b.bindings@.contains_key(k));
        }
    }
}

/// Messages write a type as its variant is written.
pub proof fn law_type_names()
    ensures
        DescriptorType::Sampler.spec_name() == "Sampler"@,
        DescriptorType::CombinedImageSampler.spec_name() == "CombinedImageSampler"@,
        DescriptorType::SampledImage.spec_name() == "SampledImage"@,
        DescriptorType::StorageImage.spec_name() == "StorageImage"@,
        DescriptorType::UniformTexelBuffer.spec_name() == "UniformTexelBuffer"@,
        DescriptorType::StorageTexelBuffer.spec_name() == "StorageTexelBuffer"@,
        DescriptorType::UniformBuffer.spec_name() == "UniformBuffer"@,
        DescriptorType::StorageBuffer.spec_name() == "StorageBuffer"@,
        DescriptorType::UniformBufferDynamic.spec_name() == "UniformBufferDynamic"@,
        DescriptorType::StorageBufferDynamic.spec_name() == "StorageBufferDynamic"@,
        DescriptorType::InputAttachment.spec_name() == "InputAttachment"@,
        DescriptorType::InlineUniformBlock.spec_name() == "InlineUniformBlock"@,
        DescriptorType::AccelerationStructure.spec_name() == "AccelerationStructure"@,
{
}

/// Different types have different names.
pub proof fn law_type_names_differ(a: DescriptorType, b: DescriptorType)
    requires
        a != b,
    ensures
        a.spec_name() != b.spec_name(),
{
    reveal_strlit("Sampler");
    reveal_strlit("CombinedImageSampler");
    reveal_strlit("SampledImage");
    reveal_strlit("StorageImage");
    reveal_strlit("UniformTexelBuffer");
    reveal_strlit("StorageTexelBuffer");
    reveal_strlit("UniformBuffer");
    reveal_strlit("StorageBuffer");
    reveal_strlit("UniformBufferDynamic");
    reveal_strlit("StorageBufferDynamic");
    reveal_strlit("InputAttachment");
    reveal_strlit("InlineUniformBlock");
    reveal_strlit("AccelerationStructure");
    let p = a.spec_name();
    let q = b.spec_name();
    assert(p.len() != q.len() || p[0] != q[0] || p[1] != q[1] || p[7] != q[7]);
}

/// Two descriptor set layouts that are different objects are compatible exactly where they have the
/// same flags and the same binding numbers, and under each number bindings of the same type, with
/// the same number of descriptors, the same stages, the same flags and the same samplers.
pub proof fn law_compatible_sets_are_identically_defined(
    a: DescriptorSetLayout,
    b: DescriptorSetLayout,
)
    requires
        a.id != b.id,
    ensures
        sets_compatible(a, b) <==> {
            &&& a.flags.bits == b.flags.bits
            &&& forall|k: u32| #[trigger] a.bindings@.contains_key(k) <==> b.bindings@.contains_key(k)
            &&& forall|k: u32| #[trigger]
                a.bindings@.contains_key(k) ==> {
                    let x = a.bindings@[k];
                    let y = b.bindings@[k];
                    &&& x.descriptor_type == y.descriptor_type
                    &&& x.descriptor_count == y.descriptor_count
                    &&& x.stages.bits == y.stages.bits
                    &&& x.binding_flags.bits == y.binding_flags.bits
                    &&& x.immutable_samplers@ == y.immutable_samplers@
                }
        },
{
}

/// The same object is compatible with itself, and the identity of an object is its id.
pub proof fn law_same_set_is_compatible(a: DescriptorSetLayout, b: DescriptorSetLayout)
    requires
        a.id == b.id,
    ensures
        sets_compatible(a, b),
{
}

/// Different descriptor types under one number make sets incompatible.
pub proof fn law_different_types_are_incompatible(
    a: DescriptorSetLayout,
    b: DescriptorSetLayout,
    k: u32,
)
    requires
        a.id != b.id,
        a.bindings@.contains_key(k),
        b.bindings@.contains_key(k) ==> a.bindings@[k].descriptor_type
            != b.bindings@[k].descriptor_type,
    ensures
        !sets_compatible(a, b),
        !sets_compatible(b, a),
{
    law_compatible_sets_are_identically_defined(a, b);
    law_compatible_sets_are_identically_defined(b, a);
    if sets_compatible(b, a) {
        assert(b.bindings@.contains_key(k) == a.bindings@.contains_key(k));
    }
}

/// A binding meets requirements exactly where its type is one of the required types, it has at least
/// the required number of descriptors, and it has all required stages.
pub proof fn law_binding_meets_requirements(
    binding: DescriptorSetLayoutBinding,
    reqs: DescriptorBindingRequirements,
)
    ensures
        not_met(binding@, reqs@) is None <==> {
            &&& reqs.descriptor_types@.contains(binding.descriptor_type)
            &&& reqs.descriptor_count matches Some(n) ==> n <= binding.descriptor_count
            &&& forall|k: u32|
                k < 32 && #[trigger] shader::has_bit(reqs.stages.bits, k) ==> shader::has_bit(
                    binding.stages.bits,
                    k,
                )
        },
{
    shader::lemma_contains_bits(binding.stages.bits, reqs.stages.bits);
}

/// What is said of a binding that does not meet requirements: a wrong type before a low count, and
/// that before a missing stage, each with what was required and what was found.
pub proof fn law_unmet_requirement(
    binding: DescriptorSetLayoutBinding,
    reqs: DescriptorBindingRequirements,
)
    ensures
        !reqs.descriptor_types@.contains(binding.descriptor_type) ==> not_met(binding@, reqs@)
            == Some(
            NotMetView::DescriptorType {
                required: reqs.descriptor_types@,
                obtained: binding.descriptor_type,
            },
        ),
        reqs.descriptor_types@.contains(binding.descriptor_type)
            && reqs.descriptor_count is Some && binding.descriptor_count
            < reqs.descriptor_count->Some_0 ==> not_met(binding@, reqs@) == Some(
            NotMetView::DescriptorCount {
                required: reqs.descriptor_count->Some_0,
                obtained: binding.descriptor_count,
            },
        ),
        reqs.descriptor_types@.contains(binding.descriptor_type) && (
        reqs.descriptor_count matches Some(n) ==> n <= binding.descriptor_count) && (exists|k: u32|
            k < 32 && #[trigger] shader::has_bit(reqs.stages.bits, k) && !shader::has_bit(
                binding.stages.bits,
                k,
            )) ==> not_met(binding@, reqs@) == Some(
            NotMetView::ShaderStages { required: reqs.stages, obtained: binding.stages },
        ),
{
    shader::lemma_contains_bits(binding.stages.bits, reqs.stages.bits);
}

/// The binding that is made for requirements has the first of their types, their count or else none,
/// their stages, and no flags or samplers.
pub proof fn law_made_binding(reqs: DescriptorBindingRequirements, made: DescriptorSetLayoutBinding)
    requires
        reqs.descriptor_types@.len() > 0,
        made@ == binding_for(reqs@),
    ensures
        made.descriptor_type == reqs.descriptor_types@[0],
        reqs.descriptor_count matches Some(n) ==> made.descriptor_count == n,
        reqs.descriptor_count is None ==> made.descriptor_count == 0,
        made.stages.bits == reqs.stages.bits,
        made.binding_flags.bits == 0,
        made.immutable_samplers@.len() == 0,
{
}

/// The contents of an unmet requirement are what was required and what was found.
pub proof fn law_contents_of_an_unmet_requirement(e: DescriptorRequirementsNotMet)
    ensures
        e matches DescriptorRequirementsNotMet::DescriptorType { required, obtained } ==> e@
            == (NotMetView::DescriptorType { required: required@, obtained }),
        e matches DescriptorRequirementsNotMet::DescriptorCount { required, obtained } ==> e@
            == (NotMetView::DescriptorCount { required, obtained }),
        e matches DescriptorRequirementsNotMet::ShaderStages { required, obtained } ==> e@
            == (NotMetView::ShaderStages { required, obtained }),
{
}

} // verus!
