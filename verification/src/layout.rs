//! Pipeline layouts: how they are made, what they hold, and when they fit together.
use std::sync::Arc;

use vstd::prelude::*;
use vstd::string::*;

use crate::create_info;
use crate::create_info::PipelineLayoutCreateFlags;
use crate::create_info::PipelineLayoutCreateInfo;
use crate::create_info::VkCreateInfo;
use crate::descriptor_set;
use crate::descriptor_set::DescriptorRequirementsNotMet;
use crate::descriptor_set::DescriptorSetLayout;
use crate::device::Device;
use crate::error;
use crate::error::RuntimeError;
use crate::error::ValidationError;
use crate::error::VulkanError;
use crate::range;
use crate::range::PushConstantRange;
use crate::requirements;
use crate::requirements::DescriptorBindingRequirements;
use crate::shader;
use crate::shader::ShaderStages;
use crate::text;

verus! {

/// Describes the layout of descriptor sets and push constants that are made available to shaders.
#[derive(Debug)]
pub struct PipelineLayout {
    handle: u64,
    device: Arc<Device>,
    id: u64,
    flags: PipelineLayoutCreateFlags,
    set_layouts: Vec<Arc<DescriptorSetLayout>>,
    push_constant_ranges: Vec<PushConstantRange>,
    push_constant_ranges_disjoint: Vec<PushConstantRange>,
}

/// The contents of a [`PipelineLayout`].
#[verifier::ext_equal]
pub struct LayoutView {
    pub handle: u64,
    pub device: Arc<Device>,
    /// Tells the layout from all other ones.
    pub id: u64,
    pub flags: PipelineLayoutCreateFlags,
    pub set_layouts: Seq<Arc<DescriptorSetLayout>>,
    pub push_constant_ranges: Seq<PushConstantRange>,
    pub push_constant_ranges_disjoint: Seq<PushConstantRange>,
}

impl View for PipelineLayout {
    type V = LayoutView;

    closed spec fn view(&self) -> LayoutView {
        LayoutView {
            handle: self.handle,
            device: self.device,
            id: self.id,
            flags: self.flags,
            set_layouts: self.set_layouts@,
            push_constant_ranges: self.push_constant_ranges@,
            push_constant_ranges_disjoint: self.push_constant_ranges_disjoint@,
        }
    }
}

/// Whether the ranges of a layout stand in order, end within the 32-bit offsets, and split into
/// its disjoint ranges.
pub open spec fn layout_wf(layout: LayoutView) -> bool {
    &&& range::in_key_order(layout.push_constant_ranges)
    &&& range::ends_fit(layout.push_constant_ranges)
    &&& range::is_disjoint_split(
        layout.push_constant_ranges,
        layout.push_constant_ranges_disjoint,
    )
}

/// Whether `layout` is what these parts make.
pub open spec fn is_made_from(
    layout: LayoutView,
    device: Arc<Device>,
    handle: u64,
    id: u64,
    info: PipelineLayoutCreateInfo,
) -> bool {
    &&& layout_wf(layout)
    &&& layout.handle == handle
    &&& layout.device == device
    &&& layout.id == id
    &&& layout.flags == info.flags
    &&& layout.set_layouts == info.set_layouts@
    &&& layout.push_constant_ranges.to_multiset() == info.push_constant_ranges@.to_multiset()
}

/// Whether `layout` is compatible with `other` for `num_sets` sets: they are the same object, or
/// have the same push constant ranges, `other` has that many sets, and the sets of `layout` are
/// compatible with those of `other`.
pub open spec fn layouts_compatible(layout: LayoutView, other: LayoutView, num_sets: int) -> bool {
    ||| layout.id == other.id
    ||| {
        &&& layout.push_constant_ranges == other.push_constant_ranges
        &&& other.set_layouts.len() >= num_sets
        &&& forall|i: int|
            0 <= i < layout.set_layouts.len() ==> descriptor_set::sets_compatible(
                *(#[trigger] layout.set_layouts[i]),
                *other.set_layouts[i],
            )
    }
}

/// Error when checking whether a pipeline layout is a superset of another one.
#[derive(Clone, Debug, PartialEq, Eq)]
pub enum PipelineLayoutSupersetError {
    DescriptorMissing { set_num: u32, binding_num: u32 },
    DescriptorRequirementsNotMet {
        set_num: u32,
        binding_num: u32,
        error: DescriptorRequirementsNotMet,
    },
    /// `first_range`, of the layout, does not encompass `second_range`. It is empty if the layout
    /// has no range for one of the stages.
    PushConstantRange { first_range: PushConstantRange, second_range: PushConstantRange },
}

/// The contents of a [`PipelineLayoutSupersetError`].
#[verifier::ext_equal]
pub enum SupersetView {
    DescriptorMissing { set_num: u32, binding_num: u32 },
    DescriptorRequirementsNotMet {
        set_num: u32,
        binding_num: u32,
        error: descriptor_set::NotMetView,
    },
    PushConstantRange { first_range: PushConstantRange, second_range: PushConstantRange },
}

impl View for PipelineLayoutSupersetError {
    type V = SupersetView;

    open spec fn view(&self) -> SupersetView {
        match *self {
            PipelineLayoutSupersetError::DescriptorMissing { set_num, binding_num } => {
                SupersetView::DescriptorMissing { set_num, binding_num }
            },
            PipelineLayoutSupersetError::DescriptorRequirementsNotMet {
                set_num,
                binding_num,
                error,
            } => SupersetView::DescriptorRequirementsNotMet { set_num, binding_num, error: error@ },
            PipelineLayoutSupersetError::PushConstantRange { first_range, second_range } => {
                SupersetView::PushConstantRange { first_range, second_range }
            },
        }
    }
}

/// The message of a [`PipelineLayoutSupersetError`].
pub open spec fn superset_message(e: SupersetView) -> Seq<char> {
    match e {
        SupersetView::DescriptorRequirementsNotMet { set_num, binding_num, .. } => {
            "the descriptor at set "@ + text::decimal(set_num as nat) + " binding "@
                + text::decimal(binding_num as nat) + " does not meet the requirements"@
        },
        SupersetView::DescriptorMissing { set_num, binding_num } => {
            "a descriptor at set "@ + text::decimal(set_num as nat) + " binding "@
                + text::decimal(binding_num as nat)
                + " is required by the shaders, but is missing from the pipeline layout"@
        },
        SupersetView::PushConstantRange { first_range, second_range } => {
            "our range did not completely encompass the other range\n    our stages: "@
                + shader::stages_text(first_range.stages) + "\n    our range: "@ + text::decimal(
                first_range.offset as nat,
            ) + " - "@ + text::decimal(first_range.end() as nat) + "\n    other stages: "@
                + shader::stages_text(second_range.stages) + "\n    other range: "@
                + text::decimal(second_range.offset as nat) + " - "@ + text::decimal(
                second_range.end() as nat,
            )
        },
    }
}

impl PipelineLayoutSupersetError {
    /// What is wrong, in words.
    pub fn message(&self) -> (message: String)
        requires
            self matches PipelineLayoutSupersetError::PushConstantRange {
                first_range,
                second_range,
            } ==> first_range.end() <= u32::MAX && second_range.end() <= u32::MAX,
        ensures
            message@ == superset_message(self@),
    {
        match self {
            PipelineLayoutSupersetError::DescriptorRequirementsNotMet {
                set_num,
                binding_num,
                error: _,
            } => {
                let mut message = "the descriptor at set ".to_owned();
                text::append_decimal(&mut message, *set_num as u64);
                message.append(" binding ");
                text::append_decimal(&mut message, *binding_num as u64);
                message.append(" does not meet the requirements");
                message
            },
            PipelineLayoutSupersetError::DescriptorMissing { set_num, binding_num } => {
                let mut message = "a descriptor at set ".to_owned();
                text::append_decimal(&mut message, *set_num as u64);
                message.append(" binding ");
                text::append_decimal(&mut message, *binding_num as u64);
                message.append(
                    " is required by the shaders, but is missing from the pipeline layout",
                );
                message
            },
            PipelineLayoutSupersetError::PushConstantRange { first_range, second_range } => {
                let mut message =
                    "our range did not completely encompass the other range\n    our stages: ".to_owned();
                message.append(first_range.stages.text().as_str());
                message.append("\n    our range: ");
                text::append_decimal(&mut message, first_range.offset as u64);
                message.append(" - ");
                text::append_decimal(&mut message, (first_range.offset + first_range.size) as u64);
                message.append("\n    other stages: ");
                message.append(second_range.stages.text().as_str());
                message.append("\n    other range: ");
                text::append_decimal(&mut message, second_range.offset as u64);
                message.append(" - ");
                text::append_decimal(&mut message, (second_range.offset + second_range.size) as u64);
                message
            },
        }
    }

    /// The error behind this one, if there is one.
    pub fn source(&self) -> (source: Option<&DescriptorRequirementsNotMet>)
        ensures
            match source {
                Some(e) => self matches PipelineLayoutSupersetError::DescriptorRequirementsNotMet {
                    error,
                    ..
                } && *e == error,
                None => !(self is DescriptorRequirementsNotMet),
            },
    {
        match self {
            PipelineLayoutSupersetError::DescriptorRequirementsNotMet { error, .. } => Some(error),
            _ => None,
        }
    }
}

/// What is wrong with the descriptor that a shader requires under a set and a binding number, if
/// anything is.
pub open spec fn descriptor_error(
    sets: Seq<Arc<DescriptorSetLayout>>,
    set_num: u32,
    binding_num: u32,
    reqs: requirements::RequirementsView,
) -> Option<SupersetView> {
    if set_num >= sets.len() || !sets[set_num as int].bindings@.contains_key(binding_num) {
        Some(SupersetView::DescriptorMissing { set_num, binding_num })
    } else {
        match descriptor_set::not_met(sets[set_num as int].bindings@[binding_num]@, reqs) {
            Some(error) => Some(
                SupersetView::DescriptorRequirementsNotMet { set_num, binding_num, error },
            ),
            None => None,
        }
    }
}

/// The first thing that is wrong with the descriptors that a shader requires, if anything is.
pub open spec fn descriptors_error(
    sets: Seq<Arc<DescriptorSetLayout>>,
    required: Seq<((u32, u32), &DescriptorBindingRequirements)>,
) -> Option<SupersetView>
    decreases required.len(),
{
    if required.len() == 0 {
        None
    } else {
        match descriptors_error(sets, required.drop_last()) {
            Some(e) => Some(e),
            None => {
                let ((set_num, binding_num), reqs) = required.last();
                descriptor_error(sets, set_num, binding_num, reqs@)
            },
        }
    }
}

/// Whether a range of the layout shares a stage with a range of a shader, but does not encompass
/// it.
pub open spec fn falls_short(own: PushConstantRange, range: PushConstantRange) -> bool {
    shader::masks_meet(range.stages.bits, own.stages.bits) && (range.offset < own.offset
        || own.end() < range.end())
}

/// The first range that falls short of `range`, if there is one.
pub open spec fn first_short(own: Seq<PushConstantRange>, range: PushConstantRange) -> Option<
    PushConstantRange,
>
    decreases own.len(),
{
    if own.len() == 0 {
        None
    } else {
        match first_short(own.drop_last(), range) {
            Some(r) => Some(r),
            None => if falls_short(own.last(), range) {
                Some(own.last())
            } else {
                None
            },
        }
    }
}

/// Whether one of the ranges has the stage whose bit is at position `k`.
pub open spec fn has_stage(own: Seq<PushConstantRange>, k: u32) -> bool {
    exists|i: int| 0 <= i < own.len() && shader::has_bit((#[trigger] own[i]).stages.bits, k)
}

/// Whether a shader accesses bytes from a stage that no range of the layout has.
pub open spec fn lacks_stage(own: Seq<PushConstantRange>, range: PushConstantRange) -> bool {
    range.size > 0 && exists|k: u32|
        k < 32 && #[trigger] shader::has_bit(range.stages.bits, k) && !has_stage(own, k)
}

/// Whether the stage whose bit is at position `k` finds `byte` in one of the ranges.
pub open spec fn can_access(own: Seq<PushConstantRange>, k: u32, byte: int) -> bool {
    exists|i: int|
        0 <= i < own.len() && (#[trigger] own[i]).covers(byte) && shader::has_bit(
            own[i].stages.bits,
            k,
        )
}

/// Whether each stage of `range` finds each of its bytes in one of the ranges.
pub open spec fn all_accessible(own: Seq<PushConstantRange>, range: PushConstantRange) -> bool {
    forall|k: u32, byte: int|
        k < 32 && shader::has_bit(range.stages.bits, k) && range.covers(byte)
            ==> #[trigger] can_access(own, k, byte)
}

/// The range without stages and bytes.
pub open spec fn no_range() -> PushConstantRange {
    PushConstantRange { stages: ShaderStages { bits: 0 }, offset: 0, size: 0 }
}

/// The first thing that a layout lacks for a shader, if it lacks anything.
pub open spec fn shader_error(
    layout: LayoutView,
    required: Seq<((u32, u32), &DescriptorBindingRequirements)>,
    push_constant_range: Option<PushConstantRange>,
) -> Option<SupersetView> {
    match descriptors_error(layout.set_layouts, required) {
        Some(e) => Some(e),
        None => match push_constant_range {
            None => None,
            Some(range) => match first_short(layout.push_constant_ranges, range) {
                Some(own) => Some(
                    SupersetView::PushConstantRange { first_range: own, second_range: range },
                ),
                None => if lacks_stage(layout.push_constant_ranges, range) {
                    Some(
                        SupersetView::PushConstantRange {
                            first_range: no_range(),
                            second_range: range,
                        },
                    )
                } else {
                    None
                },
            },
        },
    }
}

/// Whether the end of `range` is looked at for `own`: they share a stage, and `own` does not start
/// behind it.
pub open spec fn looks_at_end(own: PushConstantRange, range: PushConstantRange) -> bool {
    shader::masks_meet(range.stages.bits, own.stages.bits) && range.offset >= own.offset
}

/// Whether the check of a range comes to its end, and that end is a 32-bit number.
pub open spec fn end_is_defined(own: Seq<PushConstantRange>, range: PushConstantRange) -> bool {
    forall|i: int|
        0 <= i < own.len() && first_short(own.take(i), range) is None && looks_at_end(
            #[trigger] own[i],
            range,
        ) ==> range.end() <= u32::MAX
}

/// What falls short among the first ranges does so among all of them.
proof fn lemma_short_stays(own: Seq<PushConstantRange>, range: PushConstantRange, n: int)
    requires
        0 <= n <= own.len(),
    ensures
        first_short(own.take(n), range) is Some ==> first_short(own, range) == first_short(
            own.take(n),
            range,
        ),
    decreases own.len(),
{
    if n == own.len() {
        assert(own.take(n) =~= own);
    } else {
        assert(own.drop_last().take(n) =~= own.take(n));
        lemma_short_stays(own.drop_last(), range, n);
    }
}

/// What is wrong among the first descriptors is wrong among all of them.
proof fn lemma_descriptors_error_stays(
    sets: Seq<Arc<DescriptorSetLayout>>,
    required: Seq<((u32, u32), &DescriptorBindingRequirements)>,
    n: int,
)
    requires
        0 <= n <= required.len(),
    ensures
        descriptors_error(sets, required.take(n)) is Some ==> descriptors_error(sets, required)
            == descriptors_error(sets, required.take(n)),
    decreases required.len(),
{
    if n == required.len() {
        assert(required.take(n) =~= required);
    } else {
        assert(required.drop_last().take(n) =~= required.take(n));
        lemma_descriptors_error_stays(sets, required.drop_last(), n);
    }
}

/// Finds the descriptor that a shader requires, and checks it.
fn check_descriptor(
    sets: &Vec<Arc<DescriptorSetLayout>>,
    set_num: u32,
    binding_num: u32,
    reqs: &DescriptorBindingRequirements,
) -> (r: Result<(), PipelineLayoutSupersetError>)
    ensures
        match r {
            Ok(_) => descriptor_error(sets@, set_num, binding_num, reqs@) is None,
            Err(e) => descriptor_error(sets@, set_num, binding_num, reqs@) == Some(e@),
        },
{
    if set_num as usize >= sets.len() {
        return Err(PipelineLayoutSupersetError::DescriptorMissing { set_num, binding_num });
    }
    match sets[set_num as usize].binding(binding_num) {
        None => Err(PipelineLayoutSupersetError::DescriptorMissing { set_num, binding_num }),
        Some(layout_binding) => match layout_binding.ensure_compatible_with_shader(reqs) {
            Ok(_) => Ok(()),
            Err(error) => Err(
                PipelineLayoutSupersetError::DescriptorRequirementsNotMet {
                    set_num,
                    binding_num,
                    error,
                },
            ),
        },
    }
}

/// The stages of all ranges.
fn all_stages(ranges: &Vec<PushConstantRange>) -> (stages: ShaderStages)
    ensures
        forall|k: u32| k < 32 ==> #[trigger] shader::has_bit(stages.bits, k) == has_stage(ranges@, k),
{
    let mut stages = ShaderStages::empty();
    let mut i: usize = 0;
    proof {
        assert forall|k: u32| !(#[trigger] shader::has_bit(stages.bits, k)) by {
            shader::lemma_bit_of_nothing(k);
        }
    }
    while i < ranges.len()
        invariant
            i <= ranges.len(),
            forall|k: u32|
                k < 32 ==> #[trigger] shader::has_bit(stages.bits, k) == has_stage(
                    ranges@.take(i as int),
                    k,
                ),
        decreases ranges.len() - i,
    {
        proof {
            let head = ranges@.take(i as int);
            let more = ranges@.take(i + 1);
            let range = ranges@[i as int];
            assert forall|k: u32| k < 32 implies #[trigger] shader::has_bit(
                stages.bits | range.stages.bits,
                k,
            ) == has_stage(more, k) by {
                shader::lemma_union_bit(stages.bits, range.stages.bits, k);
                assert(shader::has_bit(stages.bits, k) == has_stage(head, k));
                assert(more[i as int] == range);
                if has_stage(head, k) {
                    let j = choose|j: int|
                        0 <= j < head.len() && shader::has_bit(
                            (#[trigger] head[j]).stages.bits,
                            k,
                        );
                    assert(more[j] == head[j]);
                }
                if has_stage(more, k) {
                    let j = choose|j: int|
                        0 <= j < more.len() && shader::has_bit(
                            (#[trigger] more[j]).stages.bits,
                            k,
                        );
                    if j < i {
                        assert(head[j] == more[j]);
                    }
                }
            }
        }
        stages = stages | ranges[i].stages;
        i = i + 1;
    }
    assert(ranges@.take(i as int) =~= ranges@);
    stages
}

/// Whether two lists of ranges are equal.
fn same_ranges(a: &Vec<PushConstantRange>, b: &Vec<PushConstantRange>) -> (same: bool)
    ensures
        same == (a@ == b@),
{
    if a.len() != b.len() {
        return false;
    }
    let mut i: usize = 0;
    while i < a.len()
        invariant
            i <= a.len(),
            a.len() == b.len(),
            forall|j: int| 0 <= j < i ==> a@[j] == b@[j],
        decreases a.len() - i,
    {
        if a[i] != b[i] {
            assert(a@[i as int] != b@[i as int]);
            return false;
        }
        i = i + 1;
    }
    assert(a@ =~= b@);
    true
}

/// Layouts are equal where they are the same object.
impl PartialEq for PipelineLayout {
    fn eq(&self, other: &PipelineLayout) -> (b: bool) {
        self.id == other.id
    }
}

impl vstd::std_specs::cmp::PartialEqSpecImpl for PipelineLayout {
    open spec fn obeys_eq_spec() -> bool {
        true
    }

    open spec fn eq_spec(&self, other: &PipelineLayout) -> bool {
        self@.id == other@.id
    }
}

impl PipelineLayout {
    #[verifier::type_invariant]
    spec fn inv(self) -> bool {
        layout_wf(self@)
    }

    /// Creates a new `PipelineLayout`.
    ///
    /// `create` asks the Vulkan implementation for the object, and returns its handle or the
    /// result code of the failure. It is called only if the parameters are valid. `id`
    /// must differ from that of all other layouts.
    pub fn new<F>(
        device: Arc<Device>,
        create_info: PipelineLayoutCreateInfo,
        id: u64,
        create: F,
    ) -> (r: Result<Arc<PipelineLayout>, VulkanError>) where
        F: FnOnce(Arc<Device>, VkCreateInfo) -> Result<u64, i32>,

        requires
            create_info::is_checkable(create_info, *device),
            create_info::is_verdict(create_info, *device, None) ==> forall|vk: VkCreateInfo|
                vk@ == create_info::vk_view(create_info) ==> #[trigger] create.requires(
                    (device, vk),
                ),
        ensures
            match r {
                Ok(layout) => create_info::is_verdict(create_info, *device, None) && exists|
                    vk: VkCreateInfo,
                    handle: u64,
                |
                    vk@ == create_info::vk_view(create_info) && #[trigger] create.ensures(
                        (device, vk),
                        Ok(handle),
                    ) && is_made_from(layout@, device, handle, id, create_info),
                Err(VulkanError::RuntimeError(e)) => create_info::is_verdict(
                    create_info,
                    *device,
                    None,
                ) && exists|vk: VkCreateInfo, code: i32|
                    vk@ == create_info::vk_view(create_info) && #[trigger] create.ensures(
                        (device, vk),
                        Err(code),
                    ) && e == error::runtime_error(code),
                Err(VulkanError::ValidationError(e)) => exists|cause: error::ErrorView|
                    create_info::is_verdict(create_info, *device, Some(cause)) && e@
                        == #[trigger] error::within("create_info"@, cause),
            },
    {
        match PipelineLayout::validate_new(&device, &create_info) {
            Ok(_) => {},
            Err(e) => {
                return Err(VulkanError::ValidationError(e));
            },
        }
        match PipelineLayout::new_unchecked(device, create_info, id, create) {
            Ok(layout) => Ok(layout),
            Err(e) => Err(VulkanError::RuntimeError(e)),
        }
    }

    fn validate_new(device: &Device, create_info: &PipelineLayoutCreateInfo) -> (r: Result<
        (),
        ValidationError,
    >)
        requires
            create_info::is_checkable(*create_info, *device),
        ensures
            match r {
                Ok(_) => create_info::is_verdict(*create_info, *device, None) && range::ends_fit(
                    create_info.push_constant_ranges@,
                ),
                Err(e) => exists|cause: error::ErrorView|
                    create_info::is_verdict(*create_info, *device, Some(cause)) && e@
                        == #[trigger] error::within("create_info"@, cause),
            },
    {
        match create_info.validate(device) {
            Ok(_) => {
                proof {
                    create_info::law_accepted_ranges_fit(*create_info, *device);
                }
                Ok(())
            },
            Err(e) => {
                let ghost cause = e@;
                let e = e.add_context("create_info");
                assert(e@ == error::within("create_info"@, cause));
                Err(e)
            },
        }
    }

    /// Creates a new `PipelineLayout` from parameters that are known to be valid.
    ///
    /// `create` asks the Vulkan implementation for the object, and returns its handle or the
    /// result code of the failure.
    pub fn new_unchecked<F>(
        device: Arc<Device>,
        create_info: PipelineLayoutCreateInfo,
        id: u64,
        create: F,
    ) -> (r: Result<Arc<PipelineLayout>, RuntimeError>) where
        F: FnOnce(Arc<Device>, VkCreateInfo) -> Result<u64, i32>,

        requires
            range::ends_fit(create_info.push_constant_ranges@),
            forall|vk: VkCreateInfo|
                vk@ == create_info::vk_view(create_info) ==> #[trigger] create.requires(
                    (device, vk),
                ),
        ensures
            match r {
                Ok(layout) => exists|vk: VkCreateInfo, handle: u64|
                    vk@ == create_info::vk_view(create_info) && #[trigger] create.ensures(
                        (device, vk),
                        Ok(handle),
                    ) && is_made_from(layout@, device, handle, id, create_info),
                Err(e) => exists|vk: VkCreateInfo, code: i32|
                    vk@ == create_info::vk_view(create_info) && #[trigger] create.ensures(
                        (device, vk),
                        Err(code),
                    ) && e == error::runtime_error(code),
            },
    {
        let vk = create_info.to_vk();
        let outcome = create(device.clone(), vk);
        match outcome {
            Ok(handle) => Ok(PipelineLayout::from_handle(device, handle, id, create_info)),
            Err(code) => Err(RuntimeError::from(code)),
        }
    }

    /// Creates a new `PipelineLayout` from a raw object handle.
    ///
    /// `handle` must be a valid Vulkan object handle created from `device`, `create_info` must
    /// match the info used to create the object, and `id` must differ from that of all other
    /// layouts.
    pub fn from_handle(
        device: Arc<Device>,
        handle: u64,
        id: u64,
        create_info: PipelineLayoutCreateInfo,
    ) -> (layout: Arc<PipelineLayout>)
        requires
            range::ends_fit(create_info.push_constant_ranges@),
        ensures
            is_made_from(layout@, device, handle, id, create_info),
    {
        let PipelineLayoutCreateInfo { flags, set_layouts, push_constant_ranges: given } =
            create_info;
        // Sort the ranges for the purpose of comparing for equality.
        let push_constant_ranges = range::sort_ranges(&given);
        proof {
            range::lemma_same_contents_fit(given@, push_constant_ranges@);
        }
        let push_constant_ranges_disjoint = range::split_disjoint(&push_constant_ranges);
        Arc::new(
            PipelineLayout {
                handle,
                device,
                id,
                flags,
                set_layouts,
                push_constant_ranges,
                push_constant_ranges_disjoint,
            },
        )
    }

    /// The raw Vulkan handle.
    pub fn handle(&self) -> (handle: u64)
        ensures
            handle == self@.handle,
    {
        self.handle
    }

    /// The device that the layout belongs to.
    pub fn device(&self) -> (device: &Arc<Device>)
        ensures
            *device == self@.device,
    {
        &self.device
    }

    /// The number that tells the layout from all other ones.
    pub fn id(&self) -> (id: u64)
        ensures
            id == self@.id,
    {
        self.id
    }

    /// Returns the flags that the pipeline layout was created with.
    pub fn flags(&self) -> (flags: PipelineLayoutCreateFlags)
        ensures
            flags == self@.flags,
    {
        self.flags
    }

    /// Returns the descriptor set layouts this pipeline layout was created from.
    pub fn set_layouts(&self) -> (sets: &[Arc<DescriptorSetLayout>])
        ensures
            sets@ == self@.set_layouts,
    {
        self.set_layouts.as_slice()
    }

    /// Returns a slice containing the push constant ranges this pipeline layout was created from.
    ///
    /// The ranges are guaranteed to be sorted deterministically by offset, size, then stages.
    /// This means that two slices containing the same elements will always have the same order.
    pub fn push_constant_ranges(&self) -> (ranges: &[PushConstantRange])
        ensures
            ranges@ == self@.push_constant_ranges,
            range::in_key_order(ranges@),
    {
        proof {
            use_type_invariant(self);
        }
        self.push_constant_ranges.as_slice()
    }

    /// Returns a slice containing the push constant ranges with all disjoint stages.
    ///
    /// For example, if we have these `push_constant_ranges`:
    /// - `offset=0, size=4, stages=vertex`
    /// - `offset=0, size=12, stages=fragment`
    ///
    /// The returned value will be:
    /// - `offset=0, size=4, stages=vertex|fragment`
    /// - `offset=4, size=8, stages=fragment`
    ///
    /// The ranges are guaranteed to be sorted deterministically by offset, and
    /// guaranteed to be disjoint, meaning that there is no overlap between the ranges.
    pub fn push_constant_ranges_disjoint(&self) -> (pieces: &[PushConstantRange])
        ensures
            pieces@ == self@.push_constant_ranges_disjoint,
            range::is_disjoint_split(self@.push_constant_ranges, pieces@),
    {
        proof {
            use_type_invariant(self);
        }
        self.push_constant_ranges_disjoint.as_slice()
    }

    /// Returns whether `self` is compatible with `other` for the given number of sets.
    pub fn is_compatible_with(&self, other: &PipelineLayout, num_sets: u32) -> (b: bool)
        requires
            num_sets >= self@.set_layouts.len(),
        ensures
            b == layouts_compatible(self@, other@, num_sets as int),
    {
        if self == other {
            return true;
        }
        if !same_ranges(&self.push_constant_ranges, &other.push_constant_ranges) {
            return false;
        }
        if other.set_layouts.len() < num_sets as usize {
            return false;
        }
        let mut i: usize = 0;
        while i < self.set_layouts.len()
            invariant
                i <= self.set_layouts.len(),
                self.id != other.id,
                self.set_layouts.len() <= num_sets <= other.set_layouts.len(),
                forall|j: int|
                    0 <= j < i ==> descriptor_set::sets_compatible(
                        *(#[trigger] self.set_layouts@[j]),
                        *other.set_layouts@[j],
                    ),
            decreases self.set_layouts.len() - i,
        {
            if !self.set_layouts[i].is_compatible_with(&other.set_layouts[i]) {
                assert(!descriptor_set::sets_compatible(
                    *self@.set_layouts[i as int],
                    *other@.set_layouts[i as int],
                ));
                return false;
            }
            i = i + 1;
        }
        true
    }

    /// Whether [`ensure_compatible_with_shader`](PipelineLayout::ensure_compatible_with_shader) can
    /// look at `range`: where the check comes to its end, that end must be a 32-bit number.
    pub fn can_be_compared_with(&self, range: &PushConstantRange) -> (b: bool)
        ensures
            b == end_is_defined(self@.push_constant_ranges, *range),
    {
        if range.size <= u32::MAX - range.offset {
            return true;
        }
        let ghost own = self.push_constant_ranges@;
        let mut n: usize = 0;
        assert(own.take(0) =~= Seq::empty());
        while n < self.push_constant_ranges.len()
            invariant
                n <= self.push_constant_ranges.len(),
                own == self.push_constant_ranges@,
                range.end() > u32::MAX,
                first_short(own.take(n as int), *range) is None,
                forall|i: int| 0 <= i < n ==> !looks_at_end(#[trigger] own[i], *range),
            decreases self.push_constant_ranges.len() - n,
        {
            let own_range = self.push_constant_ranges[n];
            proof {
                assert(own.take(n + 1).drop_last() =~= own.take(n as int));
                assert(own.take(n + 1).last() == own[n as int]);
            }
            if range.stages.intersects(own_range.stages) {
                if range.offset >= own_range.offset {
                    assert(looks_at_end(own[n as int], *range));
                    return false;
                }
                proof {
                    assert forall|i: int| n < i < own.len() implies first_short(
                        #[trigger] own.take(i),
                        *range,
                    ) is Some by {
                        assert(own.take(i).take(n + 1) =~= own.take(n + 1));
                        lemma_short_stays(own.take(i), *range, n + 1);
                    }
                }
                return true;
            }
            n = n + 1;
        }
        true
    }

    /// Makes sure that `self` is a superset of the provided descriptor set layouts and push
    /// constant ranges. Returns an `Err` if this is not the case.
    pub fn ensure_compatible_with_shader(
        &self,
        descriptor_requirements: &[((u32, u32), &DescriptorBindingRequirements)],
        push_constant_range: Option<&PushConstantRange>,
    ) -> (r: Result<(), PipelineLayoutSupersetError>)
        requires
            push_constant_range is Some && descriptors_error(
                self@.set_layouts,
                descriptor_requirements@,
            ) is None ==> end_is_defined(self@.push_constant_ranges, *push_constant_range->Some_0),
        ensures
            match r {
                Ok(_) => shader_error(
                    self@,
                    descriptor_requirements@,
                    deref_range(push_constant_range),
                ) is None,
                Err(e) => shader_error(
                    self@,
                    descriptor_requirements@,
                    deref_range(push_constant_range),
                ) == Some(e@),
            },
    {
        proof {
            use_type_invariant(self);
        }
        let mut i: usize = 0;
        assert(descriptor_requirements@.take(0) =~= Seq::empty());
        while i < descriptor_requirements.len()
            invariant
                i <= descriptor_requirements.len(),
                descriptors_error(
                    self.set_layouts@,
                    descriptor_requirements@.take(i as int),
                ) is None,
            decreases descriptor_requirements.len() - i,
        {
            let ((set_num, binding_num), reqs) = descriptor_requirements[i];
            proof {
                let head = descriptor_requirements@.take(i + 1);
                assert(head.drop_last() =~= descriptor_requirements@.take(i as int));
                assert(head.last() == descriptor_requirements@[i as int]);
                lemma_descriptors_error_stays(
                    self.set_layouts@,
                    descriptor_requirements@,
                    i + 1,
                );
            }
            match check_descriptor(&self.set_layouts, set_num, binding_num, reqs) {
                Ok(_) => {},
                Err(e) => {
                    return Err(e);
                },
            }
            i = i + 1;
        }
        assert(descriptor_requirements@.take(i as int) =~= descriptor_requirements@);
        if let Some(range) = push_constant_range {
            let ghost own = self.push_constant_ranges@;
            let mut n: usize = 0;
            assert(own.take(0) =~= Seq::empty());
            while n < self.push_constant_ranges.len()
                invariant
                    n <= self.push_constant_ranges.len(),
                    own == self.push_constant_ranges@,
                    range::ends_fit(own),
                    end_is_defined(own, *range),
                    first_short(own.take(n as int), *range) is None,
                    descriptors_error(self.set_layouts@, descriptor_requirements@) is None,
                    push_constant_range == Some(range),
                decreases self.push_constant_ranges.len() - n,
            {
                let own_range = self.push_constant_ranges[n];
                proof {
                    assert(own.take(n + 1).drop_last() =~= own.take(n as int));
                    assert(own.take(n + 1).last() == own[n as int]);
                    lemma_short_stays(own, *range, n + 1);
                    assert(own[n as int].end() <= u32::MAX);
                }
                // check if it shares any stages; our range must start before and end after the
                // given range
                if range.stages.intersects(own_range.stages) && (range.offset < own_range.offset
                    || own_range.offset + own_range.size < range.offset + range.size) {
                    return Err(
                        PipelineLayoutSupersetError::PushConstantRange {
                            first_range: own_range,
                            second_range: *range,
                        },
                    );
                }
                n = n + 1;
            }
            assert(own.take(n as int) =~= own);
            // each stage needs a range
            let stages = all_stages(&self.push_constant_ranges);
            proof {
                shader::lemma_contains_bits(stages.bits, range.stages.bits);
            }
            if range.size > 0 && !stages.contains(range.stages) {
                assert(lacks_stage(own, *range)) by {
                    let k = choose|k: u32|
                        k < 32 && #[trigger] shader::has_bit(range.stages.bits, k)
                            && !shader::has_bit(stages.bits, k);
                    assert(!has_stage(own, k));
                }
                return Err(
                    PipelineLayoutSupersetError::PushConstantRange {
                        first_range: PushConstantRange::default(),
                        second_range: *range,
                    },
                );
            }
            assert(!lacks_stage(own, *range)) by {
                assert forall|k: u32|
                    range.size > 0 && k < 32 && #[trigger] shader::has_bit(
                        range.stages.bits,
                        k,
                    ) implies has_stage(own, k) by {
                    assert(shader::has_bit(stages.bits, k));
                }
            }
        }
        Ok(())
    }
}

/// The range behind a reference, if there is one.
pub open spec fn deref_range(range: Option<&PushConstantRange>) -> Option<PushConstantRange> {
    match range {
        Some(r) => Some(*r),
        None => None,
    }
}

/// A layout is compatible with itself.
pub proof fn law_compatible_with_itself(layout: LayoutView, num_sets: int)
    ensures
        layouts_compatible(layout, layout, num_sets),
{
}

/// Two layouts that are identically defined are compatible.
pub proof fn law_identical_definitions_are_compatible(a: LayoutView, b: LayoutView)
    requires
        a.push_constant_ranges == b.push_constant_ranges,
        a.set_layouts.len() == b.set_layouts.len(),
        forall|i: int|
            0 <= i < a.set_layouts.len() ==> descriptor_set::sets_compatible(
                *(#[trigger] a.set_layouts[i]),
                *b.set_layouts[i],
            ),
    ensures
        layouts_compatible(a, b, a.set_layouts.len() as int),
        layouts_compatible(b, a, a.set_layouts.len() as int),
{
    assert forall|i: int| 0 <= i < b.set_layouts.len() implies descriptor_set::sets_compatible(
        *(#[trigger] b.set_layouts[i]),
        *a.set_layouts[i],
    ) by {
        assert(descriptor_set::sets_compatible(*a.set_layouts[i], *b.set_layouts[i]));
        descriptor_set::law_sets_compatible_symmetric(*a.set_layouts[i], *b.set_layouts[i]);
    }
}

/// Compatibility of layouts with the same number of sets, for that number, does not depend on which
/// one is asked.
pub proof fn law_compatible_symmetric(a: LayoutView, b: LayoutView)
    requires
        a.set_layouts.len() == b.set_layouts.len(),
        layouts_compatible(a, b, a.set_layouts.len() as int),
    ensures
        layouts_compatible(b, a, a.set_layouts.len() as int),
{
    if a.id != b.id {
        law_identical_definitions_are_compatible(a, b);
    }
}

/// Different push constant ranges make different layouts incompatible for any number of sets.
pub proof fn law_push_constants_invalidate(a: LayoutView, b: LayoutView, num_sets: int)
    requires
        a.id != b.id,
        a.push_constant_ranges != b.push_constant_ranges,
    ensures
        !layouts_compatible(a, b, num_sets),
{
}

/// A set that is incompatible makes different layouts incompatible for every number of sets that
/// takes it in.
pub proof fn law_set_invalidates(a: LayoutView, b: LayoutView, n: int, num_sets: int)
    requires
        a.id != b.id,
        0 <= n < a.set_layouts.len(),
        n < b.set_layouts.len(),
        !descriptor_set::sets_compatible(*a.set_layouts[n], *b.set_layouts[n]),
        num_sets >= a.set_layouts.len(),
    ensures
        !layouts_compatible(a, b, num_sets),
{
}

/// What is compatible for a number of sets is compatible for any smaller number.
pub proof fn law_compatible_for_fewer(a: LayoutView, b: LayoutView, num_sets: int, fewer: int)
    requires
        layouts_compatible(a, b, num_sets),
        fewer <= num_sets,
    ensures
        layouts_compatible(a, b, fewer),
{
}

/// Sets of the other layout beyond the given number do not matter: two layouts that agree in push
/// constant ranges and up to that number of sets are equally compatible.
pub proof fn law_sets_beyond_do_not_matter(
    a: LayoutView,
    b: LayoutView,
    c: LayoutView,
    num_sets: int,
)
    requires
        a.id != b.id,
        a.id != c.id,
        num_sets >= a.set_layouts.len(),
        b.push_constant_ranges == c.push_constant_ranges,
        b.set_layouts.len() >= num_sets,
        c.set_layouts.len() >= num_sets,
        forall|i: int| 0 <= i < num_sets ==> #[trigger] b.set_layouts[i] == c.set_layouts[i],
    ensures
        layouts_compatible(a, b, num_sets) == layouts_compatible(a, c, num_sets),
{
    if layouts_compatible(a, b, num_sets) {
        assert forall|i: int| 0 <= i < a.set_layouts.len() implies descriptor_set::sets_compatible(
            *(#[trigger] a.set_layouts[i]),
            *c.set_layouts[i],
        ) by {
            assert(b.set_layouts[i] == c.set_layouts[i]);
        }
    }
    if layouts_compatible(a, c, num_sets) {
        assert forall|i: int| 0 <= i < a.set_layouts.len() implies descriptor_set::sets_compatible(
            *(#[trigger] a.set_layouts[i]),
            *b.set_layouts[i],
        ) by {
            assert(b.set_layouts[i] == c.set_layouts[i]);
        }
    }
}

/// The order in which push constant ranges are given makes no difference to a layout.
pub proof fn law_order_of_ranges_is_irrelevant(a: LayoutView, b: LayoutView)
    requires
        layout_wf(a),
        layout_wf(b),
        a.push_constant_ranges.to_multiset() == b.push_constant_ranges.to_multiset(),
    ensures
        a.push_constant_ranges == b.push_constant_ranges,
        a.push_constant_ranges_disjoint == b.push_constant_ranges_disjoint,
{
    range::law_order_is_canonical(a.push_constant_ranges, b.push_constant_ranges);
    range::law_split_is_unique(
        a.push_constant_ranges,
        a.push_constant_ranges_disjoint,
        b.push_constant_ranges_disjoint,
    );
}

/// A layout lacks nothing of what a shader requires exactly where each descriptor is in order, each
/// range that shares a stage with the shader encompasses its range, and each stage of that range has
/// a range. Each stage then finds each byte of the shader's range in a range of the layout.
pub proof fn law_superset(
    layout: LayoutView,
    required: Seq<((u32, u32), &DescriptorBindingRequirements)>,
    push_constant_range: Option<PushConstantRange>,
)
    ensures
        shader_error(layout, required, push_constant_range) is None <==> {
            &&& forall|i: int|
                0 <= i < required.len() ==> descriptor_error(
                    layout.set_layouts,
                    (#[trigger] required[i]).0.0,
                    required[i].0.1,
                    required[i].1@,
                ) is None
            &&& push_constant_range is Some ==> forall|i: int|
                0 <= i < layout.push_constant_ranges.len() ==> !falls_short(
                    #[trigger] layout.push_constant_ranges[i],
                    push_constant_range->Some_0,
                )
            &&& push_constant_range is Some ==> !lacks_stage(
                layout.push_constant_ranges,
                push_constant_range->Some_0,
            )
        },
        shader_error(layout, required, push_constant_range) is None && push_constant_range is Some
            ==> all_accessible(layout.push_constant_ranges, push_constant_range->Some_0),
{
    lemma_descriptors_in_order(layout.set_layouts, required);
    if let Some(range) = push_constant_range {
        lemma_none_short(layout.push_constant_ranges, range);
        if shader_error(layout, required, push_constant_range) is None {
            lemma_encompassed(layout.push_constant_ranges, range);
        }
    }
}

/// Where no range falls short and no stage is lacking, each stage finds each byte.
proof fn lemma_encompassed(own: Seq<PushConstantRange>, range: PushConstantRange)
    requires
        forall|i: int| 0 <= i < own.len() ==> !falls_short(#[trigger] own[i], range),
        !lacks_stage(own, range),
    ensures
        all_accessible(own, range),
{
    assert forall|k: u32, byte: int|
        k < 32 && shader::has_bit(range.stages.bits, k) && range.covers(
            byte,
        ) implies #[trigger] can_access(own, k, byte) by {
        assert(has_stage(own, k));
        let i = choose|i: int|
            0 <= i < own.len() && shader::has_bit((#[trigger] own[i]).stages.bits, k);
        shader::lemma_meet_bit(range.stages.bits, own[i].stages.bits);
        assert(!falls_short(own[i], range));
        assert(own[i].covers(byte));
    }
}

/// Where a layout lacks nothing for a shader, a stage that accesses a byte of the shader's range
/// finds it in a range of the layout with that stage.
pub proof fn law_shader_reads_within_ranges(
    layout: LayoutView,
    required: Seq<((u32, u32), &DescriptorBindingRequirements)>,
    range: PushConstantRange,
    k: u32,
    byte: int,
)
    requires
        shader_error(layout, required, Some(range)) is None,
        k < 32,
        shader::has_bit(range.stages.bits, k),
        range.covers(byte),
    ensures
        exists|i: int|
            0 <= i < layout.push_constant_ranges.len() && (
            #[trigger] layout.push_constant_ranges[i]).covers(byte) && shader::has_bit(
                layout.push_constant_ranges[i].stages.bits,
                k,
            ),
{
    law_superset(layout, required, Some(range));
    assert(can_access(layout.push_constant_ranges, k, byte));
}

/// A layout whose ranges share no stage lacks nothing of a shader's range, if that is not empty,
/// exactly where each stage finds each byte of it.
pub proof fn law_accessible_ranges_are_enough(
    layout: LayoutView,
    required: Seq<((u32, u32), &DescriptorBindingRequirements)>,
    range: PushConstantRange,
)
    requires
        range::share_no_stage(layout.push_constant_ranges),
        range.size > 0,
        descriptors_error(layout.set_layouts, required) is None,
    ensures
        shader_error(layout, required, Some(range)) is None <==> all_accessible(
            layout.push_constant_ranges,
            range,
        ),
{
    let own = layout.push_constant_ranges;
    law_superset(layout, required, Some(range));
    lemma_descriptors_in_order(layout.set_layouts, required);
    if all_accessible(own, range) {
        let first = range.offset as int;
        let last = range.end() - 1;
        assert forall|i: int| 0 <= i < own.len() implies !falls_short(#[trigger] own[i], range) by {
            if shader::masks_meet(range.stages.bits, own[i].stages.bits) {
                shader::lemma_meet_bit(range.stages.bits, own[i].stages.bits);
                let k = choose|k: u32|
                    k < 32 && #[trigger] shader::has_bit(range.stages.bits, k)
                        && #[trigger] shader::has_bit(own[i].stages.bits, k);
                lemma_only_range(own, i, k, first);
                lemma_only_range(own, i, k, last);
            }
        }
        assert forall|k: u32|
            k < 32 && #[trigger] shader::has_bit(range.stages.bits, k) implies has_stage(own, k) by {
            assert(can_access(own, k, first));
        }
    }
}

/// Where ranges share no stage, a stage finds a byte in its own range or not at all.
proof fn lemma_only_range(own: Seq<PushConstantRange>, i: int, k: u32, byte: int)
    requires
        range::share_no_stage(own),
        0 <= i < own.len(),
        k < 32,
        shader::has_bit(own[i].stages.bits, k),
        can_access(own, k, byte),
    ensures
        own[i].covers(byte),
{
    let j = choose|j: int|
        0 <= j < own.len() && (#[trigger] own[j]).covers(byte) && shader::has_bit(
            own[j].stages.bits,
            k,
        );
    if i != j {
        shader::lemma_meet_bit(own[i].stages.bits, own[j].stages.bits);
        shader::lemma_meet_symmetric(own[i].stages.bits, own[j].stages.bits);
    }
}

/// Nothing is wrong with the descriptors exactly where nothing is wrong with any of them.
proof fn lemma_descriptors_in_order(
    sets: Seq<Arc<DescriptorSetLayout>>,
    required: Seq<((u32, u32), &DescriptorBindingRequirements)>,
)
    ensures
        descriptors_error(sets, required) is None <==> forall|i: int|
            0 <= i < required.len() ==> descriptor_error(
                sets,
                (#[trigger] required[i]).0.0,
                required[i].0.1,
                required[i].1@,
            ) is None,
    decreases required.len(),
{
    if required.len() > 0 {
        let rest = required.drop_last();
        let n = required.len() - 1;
        lemma_descriptors_in_order(sets, rest);
        assert forall|i: int| 0 <= i < n implies #[trigger] rest[i] == required[i] by {}
        if descriptors_error(sets, required) is None {
            assert forall|i: int| 0 <= i < required.len() implies descriptor_error(
                sets,
                (#[trigger] required[i]).0.0,
                required[i].0.1,
                required[i].1@,
            ) is None by {
                if i < n {
                    assert(rest[i] == required[i]);
                }
            }
        } else if descriptors_error(sets, rest) is Some {
            let i = choose|i: int|
                0 <= i < rest.len() && descriptor_error(
                    sets,
                    (#[trigger] rest[i]).0.0,
                    rest[i].0.1,
                    rest[i].1@,
                ) is Some;
            assert(required[i] == rest[i]);
        } else {
            assert(required[n] == required.last());
        }
    }
}

/// No first range falls short exactly where none does.
proof fn lemma_none_short(own: Seq<PushConstantRange>, range: PushConstantRange)
    ensures
        first_short(own, range) is None <==> forall|i: int|
            0 <= i < own.len() ==> !falls_short(#[trigger] own[i], range),
    decreases own.len(),
{
    if own.len() > 0 {
        let rest = own.drop_last();
        let n = own.len() - 1;
        lemma_none_short(rest, range);
        if first_short(own, range) is None {
            assert forall|i: int| 0 <= i < own.len() implies !falls_short(
                #[trigger] own[i],
                range,
            ) by {
                if i < n {
                    assert(!falls_short(rest[i], range));
                }
            }
        } else if first_short(rest, range) is Some {
            let i = choose|i: int| 0 <= i < rest.len() && falls_short(#[trigger] rest[i], range);
            assert(falls_short(own[i], range));
        } else {
            assert(falls_short(own[n], range));
        }
    }
}

/// Two layouts are compatible for a number of sets exactly where they are the same object, or have
/// the same push constant ranges, the other one has that many sets, and each set is the same object
/// as the one with its number, or has the same flags and bindings.
pub proof fn law_compatible_layouts(a: LayoutView, b: LayoutView, num_sets: int)
    requires
        num_sets >= a.set_layouts.len(),
    ensures
        layouts_compatible(a, b, num_sets) <==> a.id == b.id || {
            &&& a.push_constant_ranges == b.push_constant_ranges
            &&& num_sets <= b.set_layouts.len()
            &&& forall|i: int|
                0 <= i < a.set_layouts.len() ==> same_object_or_definition(
                    *(#[trigger] a.set_layouts[i]),
                    *b.set_layouts[i],
                )
        },
{
    assert forall|i: int| 0 <= i < a.set_layouts.len() implies descriptor_set::sets_compatible(
        *(#[trigger] a.set_layouts[i]),
        *b.set_layouts[i],
    ) == same_object_or_definition(*a.set_layouts[i], *b.set_layouts[i]) by {
        if a.set_layouts[i].id != b.set_layouts[i].id {
            descriptor_set::law_compatible_sets_are_identically_defined(
                *a.set_layouts[i],
                *b.set_layouts[i],
            );
        }
    }
}

/// Whether two sets are the same object, or have the same flags, and under the same numbers bindings
/// of the same type, number of descriptors, stages, flags and samplers.
pub open spec fn same_object_or_definition(a: DescriptorSetLayout, b: DescriptorSetLayout) -> bool {
    a.id == b.id || {
        &&& a.flags.bits == b.flags.bits
        &&& forall|k: u32| #[trigger] a.bindings@.contains_key(k) <==> b.bindings@.contains_key(k)
        &&& forall|k: u32| #[trigger]
            a.bindings@.contains_key(k) ==> {
                let x = a.bindings@[k];
                let y = b.bindings@[k];
                &&& x.descriptor_type == y.descriptor_type
                &&& x.descriptor_count == y.descriptor_count
                &&& x.stages.bits == y.stages.bits
                &&& x.binding_flags.bits == y.binding_flags.bits
                &&& x.immutable_samplers@ == y.immutable_samplers@
            }
    }
}

/// Layouts with different descriptor types under one set and binding number are incompatible.
pub proof fn law_different_types_invalidate(
    a: LayoutView,
    b: LayoutView,
    n: int,
    k: u32,
    num_sets: int,
)
    requires
        a.id != b.id,
        0 <= n < a.set_layouts.len() <= num_sets,
        n < b.set_layouts.len(),
        a.set_layouts[n].id != b.set_layouts[n].id,
        a.set_layouts[n].bindings@.contains_key(k),
        b.set_layouts[n].bindings@.contains_key(k) ==> a.set_layouts[n].bindings@[k].descriptor_type
            != b.set_layouts[n].bindings@[k].descriptor_type,
    ensures
        !layouts_compatible(a, b, num_sets),
{
    law_compatible_layouts(a, b, num_sets);
    if layouts_compatible(a, b, num_sets) {
        assert(same_object_or_definition(*a.set_layouts[n], *b.set_layouts[n]));
    }
}

/// A layout holds what it was made from: each range as often as it was given, in order of offset,
/// size and stage mask, and disjoint ranges that give each stage the same bytes.
pub proof fn law_made_layout(
    layout: LayoutView,
    device: Arc<Device>,
    handle: u64,
    id: u64,
    info: PipelineLayoutCreateInfo,
)
    requires
        is_made_from(layout, device, handle, id, info),
    ensures
        layout.handle == handle,
        layout.device == device,
        layout.id == id,
        layout.flags.bits == info.flags.bits,
        layout.set_layouts == info.set_layouts@,
        forall|r: PushConstantRange|
            layout.push_constant_ranges.to_multiset().count(r)
                == #[trigger] info.push_constant_ranges@.to_multiset().count(r),
        layout.push_constant_ranges.len() == info.push_constant_ranges@.len(),
        forall|i: int, j: int|
            0 <= i < j < layout.push_constant_ranges.len() ==> {
                let a = #[trigger] layout.push_constant_ranges[i];
                let b = #[trigger] layout.push_constant_ranges[j];
                &&& a.offset <= b.offset
                &&& a.offset == b.offset ==> a.size <= b.size
                &&& a.offset == b.offset && a.size == b.size ==> a.stages.bits <= b.stages.bits
            },
        forall|i: int, j: int|
            0 <= i < j < layout.push_constant_ranges_disjoint.len() ==> (
            #[trigger] layout.push_constant_ranges_disjoint[i]).offset
                + layout.push_constant_ranges_disjoint[i].size <= (
            #[trigger] layout.push_constant_ranges_disjoint[j]).offset,
        forall|k: u32, byte: int|
            k < 32 ==> (#[trigger] range::lets_access(
                layout.push_constant_ranges_disjoint,
                k,
                byte,
            ) <==> range::lets_access(info.push_constant_ranges@, k, byte)),
{
    broadcast use vstd::seq_lib::group_to_multiset_ensures;

    let ranges = layout.push_constant_ranges;
    let pieces = layout.push_constant_ranges_disjoint;
    let given = info.push_constant_ranges@;
    range::law_sorted(ranges);
    range::law_shape_of_pieces(ranges, pieces);
    assert(ranges.to_multiset().len() == given.to_multiset().len());
    assert forall|k: u32, byte: int| k < 32 implies (#[trigger] range::lets_access(pieces, k, byte)
        <==> range::lets_access(given, k, byte)) by {
        range::law_pieces_give_the_same_access(ranges, pieces, k, byte);
        lemma_same_contents_access(ranges, given, k, byte);
        lemma_same_contents_access(given, ranges, k, byte);
    }
}

/// What a list of ranges lets a stage access does not depend on the order of the list.
proof fn lemma_same_contents_access(
    a: Seq<PushConstantRange>,
    b: Seq<PushConstantRange>,
    k: u32,
    byte: int,
)
    requires
        a.to_multiset() == b.to_multiset(),
    ensures
        range::lets_access(a, k, byte) ==> range::lets_access(b, k, byte),
{
    broadcast use vstd::seq_lib::group_to_multiset_ensures;

    if range::lets_access(a, k, byte) {
        let i = choose|i: int|
            0 <= i < a.len() && (#[trigger] a[i]).offset <= byte < a[i].offset + a[i].size
                && shader::has_bit(a[i].stages.bits, k);
        assert(a.contains(a[i]));
        assert(a.to_multiset().count(a[i]) > 0);
        assert(b.contains(a[i]));
        let j = choose|j: int| 0 <= j < b.len() && b[j] == a[i];
        assert(b[j].offset <= byte < b[j].offset + b[j].size);
    }
}

/// Whether the sets have a descriptor under a set and a binding number, of a required type, with at
/// least the required count and all required stages.
pub open spec fn provides(
    sets: Seq<Arc<DescriptorSetLayout>>,
    set_num: u32,
    binding_num: u32,
    reqs: DescriptorBindingRequirements,
) -> bool {
    &&& set_num < sets.len()
    &&& sets[set_num as int].bindings@.contains_key(binding_num)
    &&& {
        let binding = sets[set_num as int].bindings@[binding_num];
        &&& reqs.descriptor_types@.contains(binding.descriptor_type)
        &&& reqs.descriptor_count matches Some(n) ==> n <= binding.descriptor_count
        &&& forall|k: u32|
            k < 32 && #[trigger] shader::has_bit(reqs.stages.bits, k) ==> shader::has_bit(
                binding.stages.bits,
                k,
            )
    }
}

/// Nothing is wrong with a descriptor exactly where the sets provide it.
proof fn lemma_provides(
    sets: Seq<Arc<DescriptorSetLayout>>,
    set_num: u32,
    binding_num: u32,
    reqs: DescriptorBindingRequirements,
)
    ensures
        descriptor_error(sets, set_num, binding_num, reqs@) is None <==> provides(
            sets,
            set_num,
            binding_num,
            reqs,
        ),
{
    if set_num < sets.len() && sets[set_num as int].bindings@.contains_key(binding_num) {
        descriptor_set::law_binding_meets_requirements(
            sets[set_num as int].bindings@[binding_num],
            reqs,
        );
    }
}

/// Whether each range that shares a stage with `range` starts no later and ends no earlier.
pub open spec fn encompass(own: Seq<PushConstantRange>, range: PushConstantRange) -> bool {
    forall|i: int|
        0 <= i < own.len() && (#[trigger] own[i]).stages.bits & range.stages.bits != 0
            ==> own[i].offset <= range.offset && range.offset + range.size <= own[i].offset
            + own[i].size
}

/// Whether each stage of `range` is a stage of one of the ranges.
pub open spec fn have_stages_of(own: Seq<PushConstantRange>, range: PushConstantRange) -> bool {
    forall|k: u32|
        k < 32 && #[trigger] shader::has_bit(range.stages.bits, k) ==> exists|i: int|
            0 <= i < own.len() && shader::has_bit((#[trigger] own[i]).stages.bits, k)
}

/// A shader is accepted exactly where the layout provides each descriptor that it requires, each
/// range of the layout that shares a stage with its range encompasses it, and each stage of its
/// range, if that is not empty, is a stage of the layout's ranges.
pub proof fn law_accepted_shader(
    layout: LayoutView,
    required: Seq<((u32, u32), &DescriptorBindingRequirements)>,
    push_constant_range: Option<PushConstantRange>,
)
    ensures
        shader_error(layout, required, push_constant_range) is None <==> {
            &&& forall|i: int|
                0 <= i < required.len() ==> provides(
                    layout.set_layouts,
                    (#[trigger] required[i]).0.0,
                    required[i].0.1,
                    *required[i].1,
                )
            &&& push_constant_range matches Some(range) ==> encompass(
                layout.push_constant_ranges,
                range,
            ) && (range.size > 0 ==> have_stages_of(layout.push_constant_ranges, range))
        },
{
    law_superset(layout, required, push_constant_range);
    assert forall|i: int| 0 <= i < required.len() implies (descriptor_error(
        layout.set_layouts,
        (#[trigger] required[i]).0.0,
        required[i].0.1,
        required[i].1@,
    ) is None) == provides(
        layout.set_layouts,
        required[i].0.0,
        required[i].0.1,
        *required[i].1,
    ) by {
        lemma_provides(layout.set_layouts, required[i].0.0, required[i].0.1, *required[i].1);
    }
    if let Some(range) = push_constant_range {
        let own = layout.push_constant_ranges;
        lemma_encompass(own, range);
        if !lacks_stage(own, range) && range.size > 0 {
            assert forall|k: u32|
                k < 32 && #[trigger] shader::has_bit(range.stages.bits, k) implies exists|i: int|
                    0 <= i < own.len() && shader::has_bit((#[trigger] own[i]).stages.bits, k) by {
                assert(has_stage(own, k));
            }
        }
        if lacks_stage(own, range) {
            let k = choose|k: u32|
                k < 32 && #[trigger] shader::has_bit(range.stages.bits, k) && !has_stage(own, k);
            assert(!has_stage(own, k));
        }
    }
}

/// No range falls short exactly where the ranges encompass what they share a stage with.
proof fn lemma_encompass(own: Seq<PushConstantRange>, range: PushConstantRange)
    ensures
        encompass(own, range) <==> forall|i: int|
            0 <= i < own.len() ==> !falls_short(#[trigger] own[i], range),
{
    assert forall|i: int| 0 <= i < own.len() implies falls_short(#[trigger] own[i], range) == (
    own[i].stages.bits & range.stages.bits != 0 && !(own[i].offset <= range.offset && range.offset
        + range.size <= own[i].offset + own[i].size)) by {
        shader::lemma_meet_symmetric(own[i].stages.bits, range.stages.bits);
    }
}

/// A refused shader is told of the first descriptor that the layout does not provide: that it is
/// missing, or what is wrong with it.
pub proof fn law_first_descriptor_not_provided(
    layout: LayoutView,
    required: Seq<((u32, u32), &DescriptorBindingRequirements)>,
    push_constant_range: Option<PushConstantRange>,
    i: int,
)
    requires
        0 <= i < required.len(),
        forall|j: int|
            0 <= j < i ==> provides(
                layout.set_layouts,
                (#[trigger] required[j]).0.0,
                required[j].0.1,
                *required[j].1,
            ),
        !provides(layout.set_layouts, required[i].0.0, required[i].0.1, *required[i].1),
    ensures
        ({
            let (set_num, binding_num) = required[i].0;
            let sets = layout.set_layouts;
            let e = shader_error(layout, required, push_constant_range);
            if set_num < sets.len() && sets[set_num as int].bindings@.contains_key(binding_num) {
                let binding = sets[set_num as int].bindings@[binding_num];
                e == Some(
                    SupersetView::DescriptorRequirementsNotMet {
                        set_num,
                        binding_num,
                        error: descriptor_set::not_met(binding@, required[i].1@)->Some_0,
                    },
                )
            } else {
                e == Some(SupersetView::DescriptorMissing { set_num, binding_num })
            }
        }),
{
    let sets = layout.set_layouts;
    let head = required.take(i + 1);
    assert(head.drop_last() =~= required.take(i));
    assert(head.last() == required[i]);
    lemma_provides(sets, required[i].0.0, required[i].0.1, *required[i].1);
    lemma_descriptors_in_order(sets, required.take(i));
    assert forall|j: int| 0 <= j < i implies descriptor_error(
        sets,
        (#[trigger] required.take(i)[j]).0.0,
        required.take(i)[j].0.1,
        required.take(i)[j].1@,
    ) is None by {
        assert(required.take(i)[j] == required[j]);
        lemma_provides(sets, required[j].0.0, required[j].0.1, *required[j].1);
    }
    lemma_descriptors_error_stays(sets, required, i + 1);
}

/// A shader whose descriptors are provided is told of the first range that shares a stage with its
/// range and does not encompass it.
pub proof fn law_first_range_not_encompassing(
    layout: LayoutView,
    required: Seq<((u32, u32), &DescriptorBindingRequirements)>,
    range: PushConstantRange,
    i: int,
)
    requires
        forall|j: int|
            0 <= j < required.len() ==> provides(
                layout.set_layouts,
                (#[trigger] required[j]).0.0,
                required[j].0.1,
                *required[j].1,
            ),
        0 <= i < layout.push_constant_ranges.len(),
        encompass(layout.push_constant_ranges.take(i), range),
        layout.push_constant_ranges[i].stages.bits & range.stages.bits != 0,
        !(layout.push_constant_ranges[i].offset <= range.offset && range.offset + range.size
            <= layout.push_constant_ranges[i].offset + layout.push_constant_ranges[i].size),
    ensures
        shader_error(layout, required, Some(range)) == Some(
            SupersetView::PushConstantRange {
                first_range: layout.push_constant_ranges[i],
                second_range: range,
            },
        ),
{
    let own = layout.push_constant_ranges;
    law_accepted_shader(layout, required, None);
    let head = own.take(i + 1);
    assert(head.drop_last() =~= own.take(i));
    assert(head.last() == own[i]);
    lemma_encompass(own.take(i), range);
    lemma_none_short(own.take(i), range);
    shader::lemma_meet_symmetric(own[i].stages.bits, range.stages.bits);
    lemma_short_stays(own, range, i + 1);
}

/// A shader of which everything else is in order is told with an empty range that a stage of its
/// range is no stage of the layout's ranges.
pub proof fn law_stage_without_range(
    layout: LayoutView,
    required: Seq<((u32, u32), &DescriptorBindingRequirements)>,
    range: PushConstantRange,
)
    requires
        forall|j: int|
            0 <= j < required.len() ==> provides(
                layout.set_layouts,
                (#[trigger] required[j]).0.0,
                required[j].0.1,
                *required[j].1,
            ),
        encompass(layout.push_constant_ranges, range),
        range.size > 0,
        !have_stages_of(layout.push_constant_ranges, range),
    ensures
        shader_error(layout, required, Some(range)) == Some(
            SupersetView::PushConstantRange {
                first_range: PushConstantRange {
                    stages: ShaderStages { bits: 0 },
                    offset: 0,
                    size: 0,
                },
                second_range: range,
            },
        ),
{
    law_accepted_shader(layout, required, None);
    law_accepted_shader(layout, required, Some(range));
    lemma_encompass(layout.push_constant_ranges, range);
    lemma_none_short(layout.push_constant_ranges, range);
}

/// A range can be compared where its end is a 32-bit number, or no range shares a stage with it.
/// Otherwise it can be compared exactly where it starts before the first range that does.
pub proof fn law_comparable(own: Seq<PushConstantRange>, range: PushConstantRange, i: int)
    ensures
        range.offset + range.size <= u32::MAX ==> end_is_defined(own, range),
        (forall|j: int|
            0 <= j < own.len() ==> (#[trigger] own[j]).stages.bits & range.stages.bits == 0)
            ==> end_is_defined(own, range),
        range.offset + range.size > u32::MAX && 0 <= i < own.len() && own[i].stages.bits
            & range.stages.bits != 0 && (forall|j: int|
            0 <= j < i ==> (#[trigger] own[j]).stages.bits & range.stages.bits == 0) ==> (
        end_is_defined(own, range) <==> range.offset < own[i].offset),
{
    assert forall|j: int| 0 <= j < own.len() implies (#[trigger] own[j]).stages.bits
        & range.stages.bits == range.stages.bits & own[j].stages.bits by {
        let a = own[j].stages.bits;
        let b = range.stages.bits;
        assert(a & b == b & a) by (bit_vector);
    }
    if range.offset + range.size > u32::MAX && 0 <= i < own.len() && own[i].stages.bits
        & range.stages.bits != 0 && (forall|j: int|
        0 <= j < i ==> (#[trigger] own[j]).stages.bits & range.stages.bits == 0) {
        let head = own.take(i);
        assert forall|j: int| 0 <= j < head.len() implies !falls_short(
            #[trigger] head[j],
            range,
        ) by {
            assert(head[j] == own[j]);
        }
        lemma_none_short(head, range);
        if range.offset < own[i].offset {
            let more = own.take(i + 1);
            assert(more.drop_last() =~= head);
            assert(more.last() == own[i]);
            assert forall|j: int|
                0 <= j < own.len() && first_short(own.take(j), range) is None && looks_at_end(
                    #[trigger] own[j],
                    range,
                ) implies range.end() <= u32::MAX by {
                if j > i {
                    assert(own.take(j).take(i + 1) =~= more);
                    lemma_short_stays(own.take(j), range, i + 1);
                }
            }
        } else {
            assert(looks_at_end(own[i], range));
        }
    }
}

/// The contents of an error are the numbers, the cause and the ranges that it holds.
pub proof fn law_contents_of_a_superset_error(e: PipelineLayoutSupersetError)
    ensures
        e matches PipelineLayoutSupersetError::DescriptorMissing { set_num, binding_num } ==> e@
            == (SupersetView::DescriptorMissing { set_num, binding_num }),
        e matches PipelineLayoutSupersetError::DescriptorRequirementsNotMet {
            set_num,
            binding_num,
            error,
        } ==> e@ == (SupersetView::DescriptorRequirementsNotMet {
            set_num,
            binding_num,
            error: error@,
        }),
        e matches PipelineLayoutSupersetError::PushConstantRange { first_range, second_range }
            ==> e@ == (SupersetView::PushConstantRange { first_range, second_range }),
{
}

} // verus!
