//! What shaders require of the descriptors that they access.
use vstd::prelude::*;

use crate::descriptor_set::DescriptorType;
use crate::shader;
use crate::shader::ShaderStages;

verus! {

/// The Vulkan number of an image format.
#[derive(Clone, Copy, Debug, PartialEq, Eq, Structural)]
pub struct Format {
    pub number: u32,
}

/// The type of the components that a shader reads from an image.
#[derive(Clone, Copy, Debug, PartialEq, Eq, Structural)]
pub enum ShaderScalarType {
    Float,
    Sint,
    Uint,
}

/// The shape of an image, as a shader sees it.
#[derive(Clone, Copy, Debug, PartialEq, Eq, Structural)]
pub enum ImageViewType {
    Dim1d,
    Dim2d,
    Dim3d,
    Cube,
    Dim1dArray,
    Dim2dArray,
    CubeArray,
}

/// The requirements imposed by a shader on a binding within a descriptor set layout, and on any
/// resource that is bound to that binding.
#[derive(Clone, Debug, PartialEq, Eq)]
pub struct DescriptorBindingRequirements {
    /// The descriptor types that are allowed.
    pub descriptor_types: Vec<DescriptorType>,
    /// The number of descriptors (array elements) that the shader requires. `None` means that the
    /// array has no size in the shader.
    pub descriptor_count: Option<u32>,
    /// The image format that is required for image views bound to this binding, if any.
    pub image_format: Option<Format>,
    /// Whether image views bound to this binding must have multisampling enabled or disabled.
    pub image_multisampled: bool,
    /// The base scalar type required for image views bound to this binding, if any.
    pub image_scalar_type: Option<ShaderScalarType>,
    /// The view type that is required for image views bound to this binding, if any.
    pub image_view_type: Option<ImageViewType>,
    /// The shader stages that the binding must be declared for.
    pub stages: ShaderStages,
}

/// The contents of [`DescriptorBindingRequirements`].
#[verifier::ext_equal]
pub struct RequirementsView {
    pub descriptor_types: Seq<DescriptorType>,
    pub descriptor_count: Option<u32>,
    pub image_format: Option<Format>,
    pub image_multisampled: bool,
    pub image_scalar_type: Option<ShaderScalarType>,
    pub image_view_type: Option<ImageViewType>,
    pub stages: ShaderStages,
}

impl View for DescriptorBindingRequirements {
    type V = RequirementsView;

    open spec fn view(&self) -> RequirementsView {
        RequirementsView {
            descriptor_types: self.descriptor_types@,
            descriptor_count: self.descriptor_count,
            image_format: self.image_format,
            image_multisampled: self.image_multisampled,
            image_scalar_type: self.image_scalar_type,
            image_view_type: self.image_view_type,
            stages: self.stages,
        }
    }
}

/// Why the requirements of two shaders cannot be met together.
#[derive(Clone, Copy, Debug, PartialEq, Eq, Structural)]
pub enum DescriptorBindingRequirementsIncompatible {
    /// The allowed descriptor types of the two do not overlap.
    DescriptorType,
    /// The two require different formats.
    ImageFormat,
    /// The two require different scalar types.
    ImageScalarType,
    /// The two require different view types.
    ImageViewType,
    /// The two require different multisampling.
    ImageMultisampled,
}

/// Whether two requirements contradict each other.
pub open spec fn contradict<T>(a: Option<T>, b: Option<T>) -> bool {
    a is Some && b is Some && a != b
}

/// The requirement of either of the two, the first one taking precedence.
pub open spec fn first_of<T>(a: Option<T>, b: Option<T>) -> Option<T> {
    if a is Some {
        a
    } else {
        b
    }
}

/// The larger of two descriptor counts; any count is larger than none.
pub open spec fn larger_count(a: Option<u32>, b: Option<u32>) -> Option<u32> {
    match (a, b) {
        (Some(x), Some(y)) => if x >= y {
            a
        } else {
            b
        },
        (Some(_), None) => a,
        (None, _) => b,
    }
}

/// The types of `a` that are in `b` too.
pub open spec fn common_types(a: Seq<DescriptorType>, b: Seq<DescriptorType>) -> Seq<
    DescriptorType,
> {
    a.filter(|t: DescriptorType| b.contains(t))
}

/// The requirements that are met exactly where those of `a` and of `b` are, or why there are none.
pub open spec fn merged(a: RequirementsView, b: RequirementsView) -> Result<
    RequirementsView,
    DescriptorBindingRequirementsIncompatible,
> {
    if common_types(a.descriptor_types, b.descriptor_types).len() == 0 {
        Err(DescriptorBindingRequirementsIncompatible::DescriptorType)
    } else if contradict(a.image_format, b.image_format) {
        Err(DescriptorBindingRequirementsIncompatible::ImageFormat)
    } else if contradict(a.image_scalar_type, b.image_scalar_type) {
        Err(DescriptorBindingRequirementsIncompatible::ImageScalarType)
    } else if contradict(a.image_view_type, b.image_view_type) {
        Err(DescriptorBindingRequirementsIncompatible::ImageViewType)
    } else if a.image_multisampled != b.image_multisampled {
        Err(DescriptorBindingRequirementsIncompatible::ImageMultisampled)
    } else {
        Ok(
            RequirementsView {
                descriptor_types: common_types(a.descriptor_types, b.descriptor_types),
                descriptor_count: larger_count(a.descriptor_count, b.descriptor_count),
                image_format: first_of(a.image_format, b.image_format),
                image_multisampled: a.image_multisampled,
                image_scalar_type: first_of(a.image_scalar_type, b.image_scalar_type),
                image_view_type: first_of(a.image_view_type, b.image_view_type),
                stages: ShaderStages { bits: a.stages.bits | b.stages.bits },
            },
        )
    }
}

/// Whether `t` is in the list.
pub(crate) fn has_type(list: &Vec<DescriptorType>, t: DescriptorType) -> (b: bool)
    ensures
        b == list@.contains(t),
{
    let mut i: usize = 0;
    while i < list.len()
        invariant
            i <= list.len(),
            forall|j: int| 0 <= j < i ==> list@[j] != t,
        decreases list.len() - i,
    {
        if list[i] == t {
            return true;
        }
        i = i + 1;
    }
    false
}

/// A copy of the list.
pub(crate) fn copy_types(list: &Vec<DescriptorType>) -> (r: Vec<DescriptorType>)
    ensures
        r@ == list@,
{
    let mut r: Vec<DescriptorType> = Vec::new();
    let mut i: usize = 0;
    while i < list.len()
        invariant
            i <= list.len(),
            r@ =~= list@.take(i as int),
        decreases list.len() - i,
    {
        r.push(list[i]);
        i = i + 1;
    }
    assert(list@.take(i as int) =~= list@);
    r
}

/// The types of `a` that are in `b` too.
fn keep_common(a: &Vec<DescriptorType>, b: &Vec<DescriptorType>) -> (r: Vec<DescriptorType>)
    ensures
        r@ == common_types(a@, b@),
{
    let mut r: Vec<DescriptorType> = Vec::new();
    let mut i: usize = 0;
    proof {
        reveal(Seq::filter);
        assert(a@.take(0) =~= Seq::empty());
        assert(common_types(a@.take(0), b@) =~= Seq::empty());
    }
    while i < a.len()
        invariant
            i <= a.len(),
            r@ == common_types(a@.take(i as int), b@),
        decreases a.len() - i,
    {
        proof {
            reveal(Seq::filter);
            assert(a@.take(i + 1).drop_last() =~= a@.take(i as int));
            assert(a@.take(i + 1).last() == a@[i as int]);
        }
        if has_type(b, a[i]) {
            r.push(a[i]);
        }
        i = i + 1;
    }
    assert(a@.take(i as int) =~= a@);
    r
}

impl DescriptorBindingRequirements {
    /// A copy of the requirements.
    pub fn duplicate(&self) -> (r: DescriptorBindingRequirements)
        ensures
            r@ == self@,
    {
        DescriptorBindingRequirements {
            descriptor_types: copy_types(&self.descriptor_types),
            descriptor_count: self.descriptor_count,
            image_format: self.image_format,
            image_multisampled: self.image_multisampled,
            image_scalar_type: self.image_scalar_type,
            image_view_type: self.image_view_type,
            stages: self.stages,
        }
    }

    /// Merges `other` into `self`, so that `self` satisfies the requirements of both.
    /// An error is returned if the requirements conflict; `self` is then unchanged.
    pub fn merge(&mut self, other: &DescriptorBindingRequirements) -> (r: Result<
        (),
        DescriptorBindingRequirementsIncompatible,
    >)
        ensures
            match r {
                Ok(_) => merged(old(self)@, other@) == Ok::<
                    RequirementsView,
                    DescriptorBindingRequirementsIncompatible,
                >(final(self)@),
                Err(e) => merged(old(self)@, other@) == Err::<
                    RequirementsView,
                    DescriptorBindingRequirementsIncompatible,
                >(e) && final(self)@ == old(self)@,
            },
    {
        let common = keep_common(&self.descriptor_types, &other.descriptor_types);
        if common.len() == 0 {
            return Err(DescriptorBindingRequirementsIncompatible::DescriptorType);
        }
        if let (Some(first), Some(second)) = (self.image_format, other.image_format) {
            if first != second {
                return Err(DescriptorBindingRequirementsIncompatible::ImageFormat);
            }
        }
        if let (Some(first), Some(second)) = (self.image_scalar_type, other.image_scalar_type) {
            if first != second {
                return Err(DescriptorBindingRequirementsIncompatible::ImageScalarType);
            }
        }
        if let (Some(first), Some(second)) = (self.image_view_type, other.image_view_type) {
            if first != second {
                return Err(DescriptorBindingRequirementsIncompatible::ImageViewType);
            }
        }
        if self.image_multisampled != other.image_multisampled {
            return Err(DescriptorBindingRequirementsIncompatible::ImageMultisampled);
        }
        self.descriptor_types = common;
        self.descriptor_count =
        match (self.descriptor_count, other.descriptor_count) {
            (Some(x), Some(y)) => if x >= y {
                Some(x)
            } else {
                Some(y)
            },
            (Some(x), None) => Some(x),
            (None, y) => y,
        };
        if self.image_format.is_none() {
            self.image_format = other.image_format;
        }
        if self.image_scalar_type.is_none() {
            self.image_scalar_type = other.image_scalar_type;
        }
        if self.image_view_type.is_none() {
            self.image_view_type = other.image_view_type;
        }
        self.stages = self.stages | other.stages;
        Ok(())
    }
}

/// A type is common to two lists where it is in both.
pub proof fn lemma_common_types(a: Seq<DescriptorType>, b: Seq<DescriptorType>, t: DescriptorType)
    ensures
        common_types(a, b).contains(t) <==> a.contains(t) && b.contains(t),
    decreases a.len(),
{
    reveal(Seq::filter);
    if a.len() > 0 {
        let rest = a.drop_last();
        lemma_common_types(rest, b, t);
        assert(a.contains(t) <==> rest.contains(t) || a.last() == t) by {
            if a.contains(t) {
                let i = choose|i: int| 0 <= i < a.len() && a[i] == t;
                if i < rest.len() {
                    assert(rest[i] == t);
                }
            }
            if rest.contains(t) {
                let i = choose|i: int| 0 <= i < rest.len() && rest[i] == t;
                assert(a[i] == t);
            }
            assert(a[a.len() - 1] == a.last());
        }
        let before = common_types(rest, b);
        if b.contains(a.last()) {
            assert(common_types(a, b) == before.push(a.last()));
            assert(before.push(a.last()).contains(t) <==> before.contains(t) || a.last() == t) by {
                if before.push(a.last()).contains(t) {
                    let i = choose|i: int|
                        0 <= i < before.len() + 1 && before.push(a.last())[i] == t;
                    if i < before.len() {
                        assert(before[i] == t);
                    }
                }
                if before.contains(t) {
                    let i = choose|i: int| 0 <= i < before.len() && before[i] == t;
                    assert(before.push(a.last())[i] == t);
                }
                assert(before.push(a.last())[before.len() as int] == a.last());
            }
        }
    }
}

/// The first of the common types is the first type of `a` that is in `b`.
proof fn lemma_first_common_type(a: Seq<DescriptorType>, b: Seq<DescriptorType>, i: int)
    requires
        0 <= i < a.len(),
        b.contains(a[i]),
        forall|j: int| 0 <= j < i ==> !b.contains(#[trigger] a[j]),
    ensures
        common_types(a, b).len() > 0,
        common_types(a, b)[0] == a[i],
    decreases a.len(),
{
    reveal(Seq::filter);
    let rest = a.drop_last();
    if i < rest.len() {
        assert(rest[i] == a[i]);
        assert forall|j: int| 0 <= j < i implies !b.contains(#[trigger] rest[j]) by {
            assert(rest[j] == a[j]);
        }
        lemma_first_common_type(rest, b, i);
    } else {
        assert forall|j: int| 0 <= j < rest.len() implies !b.contains(#[trigger] rest[j]) by {
            assert(rest[j] == a[j]);
        }
        lemma_no_common_type(rest, b);
    }
}

/// Without a type in both lists there is no common type.
proof fn lemma_no_common_type(a: Seq<DescriptorType>, b: Seq<DescriptorType>)
    requires
        forall|j: int| 0 <= j < a.len() ==> !b.contains(#[trigger] a[j]),
    ensures
        common_types(a, b).len() == 0,
    decreases a.len(),
{
    reveal(Seq::filter);
    if a.len() > 0 {
        assert(a[a.len() - 1] == a.last());
        let rest = a.drop_last();
        assert forall|j: int| 0 <= j < rest.len() implies !b.contains(#[trigger] rest[j]) by {
            assert(rest[j] == a[j]);
        }
        lemma_no_common_type(rest, b);
    }
}

/// Whether both shaders allow the type.
pub open spec fn both_allow(
    a: DescriptorBindingRequirements,
    b: DescriptorBindingRequirements,
    t: DescriptorType,
) -> bool {
    a.descriptor_types@.contains(t) && b.descriptor_types@.contains(t)
}

/// Requirements can be merged exactly where both allow some descriptor type, they ask for no two
/// formats, scalar types or view types, and agree on multisampling. What they cannot agree on is
/// told in this order.
pub proof fn law_what_can_be_merged(
    a: DescriptorBindingRequirements,
    b: DescriptorBindingRequirements,
)
    ensures
        (forall|t: DescriptorType| !(#[trigger] both_allow(a, b, t))) ==> merged(a@, b@) == Err::<
            RequirementsView,
            DescriptorBindingRequirementsIncompatible,
        >(DescriptorBindingRequirementsIncompatible::DescriptorType),
        (exists|t: DescriptorType| #[trigger] both_allow(a, b, t)) ==> {
            let format = a.image_format is Some && b.image_format is Some && a.image_format->Some_0
                != b.image_format->Some_0;
            let scalar = a.image_scalar_type is Some && b.image_scalar_type is Some
                && a.image_scalar_type->Some_0 != b.image_scalar_type->Some_0;
            let view = a.image_view_type is Some && b.image_view_type is Some
                && a.image_view_type->Some_0 != b.image_view_type->Some_0;
            let multisampled = a.image_multisampled != b.image_multisampled;
            &&& format ==> is_refused(
                a,
                b,
                DescriptorBindingRequirementsIncompatible::ImageFormat,
            )
            &&& !format && scalar ==> is_refused(
                a,
                b,
                DescriptorBindingRequirementsIncompatible::ImageScalarType,
            )
            &&& !format && !scalar && view ==> is_refused(
                a,
                b,
                DescriptorBindingRequirementsIncompatible::ImageViewType,
            )
            &&& !format && !scalar && !view && multisampled ==> is_refused(
                a,
                b,
                DescriptorBindingRequirementsIncompatible::ImageMultisampled,
            )
            &&& !format && !scalar && !view && !multisampled ==> merged(a@, b@) is Ok
        },
{
    let x = a.descriptor_types@;
    let y = b.descriptor_types@;
    if exists|t: DescriptorType| #[trigger] both_allow(a, b, t) {
        let t = choose|t: DescriptorType| #[trigger] both_allow(a, b, t);
        lemma_common_types(x, y, t);
    } else {
        assert forall|j: int| 0 <= j < x.len() implies !y.contains(#[trigger] x[j]) by {
            assert(x.contains(x[j]));
            assert(!both_allow(a, b, x[j]));
        }
        lemma_no_common_type(x, y);
    }
}

/// Whether two requirements cannot be merged for this reason.
pub open spec fn is_refused(
    a: DescriptorBindingRequirements,
    b: DescriptorBindingRequirements,
    why: DescriptorBindingRequirementsIncompatible,
) -> bool {
    merged(a@, b@) == Err::<RequirementsView, DescriptorBindingRequirementsIncompatible>(why)
}

/// Merged requirements allow the types that both allow, beginning with the first of those that the
/// first one allows. They ask for the larger count, for what either asks of images, and have the
/// stages of both.
pub proof fn law_what_is_merged(
    a: DescriptorBindingRequirements,
    b: DescriptorBindingRequirements,
    r: DescriptorBindingRequirements,
)
    requires
        merged(a@, b@) == Ok::<RequirementsView, DescriptorBindingRequirementsIncompatible>(r@),
    ensures
        forall|t: DescriptorType|
            #[trigger] r.descriptor_types@.contains(t) <==> both_allow(a, b, t),
        r.descriptor_types@.len() > 0,
        exists|i: int|
            0 <= i < a.descriptor_types@.len() && (#[trigger] a.descriptor_types@[i])
                == r.descriptor_types@[0] && forall|j: int|
                0 <= j < i ==> !b.descriptor_types@.contains(#[trigger] a.descriptor_types@[j]),
        a.descriptor_count is None ==> r.descriptor_count == b.descriptor_count,
        b.descriptor_count is None ==> r.descriptor_count == a.descriptor_count,
        a.descriptor_count is Some && b.descriptor_count is Some ==> {
            &&& r.descriptor_count is Some
            &&& r.descriptor_count == a.descriptor_count || r.descriptor_count
                == b.descriptor_count
            &&& r.descriptor_count->Some_0 >= a.descriptor_count->Some_0
            &&& r.descriptor_count->Some_0 >= b.descriptor_count->Some_0
        },
        a.image_format is Some ==> r.image_format == a.image_format,
        a.image_format is None ==> r.image_format == b.image_format,
        a.image_scalar_type is Some ==> r.image_scalar_type == a.image_scalar_type,
        a.image_scalar_type is None ==> r.image_scalar_type == b.image_scalar_type,
        a.image_view_type is Some ==> r.image_view_type == a.image_view_type,
        a.image_view_type is None ==> r.image_view_type == b.image_view_type,
        r.image_multisampled == a.image_multisampled,
        r.image_multisampled == b.image_multisampled,
        forall|k: u32|
            k < 32 ==> (#[trigger] shader::has_bit(r.stages.bits, k) <==> shader::has_bit(
                a.stages.bits,
                k,
            ) || shader::has_bit(b.stages.bits, k)),
{
    let x = a.descriptor_types@;
    let y = b.descriptor_types@;
    assert forall|t: DescriptorType| #[trigger]
        r.descriptor_types@.contains(t) <==> both_allow(a, b, t) by {
        lemma_common_types(x, y, t);
    }
    assert forall|k: u32| k < 32 implies (#[trigger] shader::has_bit(r.stages.bits, k)
        <==> shader::has_bit(a.stages.bits, k) || shader::has_bit(b.stages.bits, k)) by {
        shader::lemma_union_bit(a.stages.bits, b.stages.bits, k);
    }
    let t = r.descriptor_types@[0];
    assert(r.descriptor_types@.contains(t));
    let n = choose|n: int| 0 <= n < x.len() && x[n] == t;
    let i = first_in(x, y, n);
    lemma_first_in(x, y, n);
    lemma_first_common_type(x, y, i);
}

/// The first place up to `n` at which a type of `a` is in `b`.
spec fn first_in(a: Seq<DescriptorType>, b: Seq<DescriptorType>, n: int) -> int
    decreases n,
{
    if n > 0 && exists|j: int| 0 <= j < n && b.contains(#[trigger] a[j]) {
        first_in(a, b, n - 1)
    } else {
        n
    }
}

proof fn lemma_first_in(a: Seq<DescriptorType>, b: Seq<DescriptorType>, n: int)
    requires
        0 <= n < a.len(),
        b.contains(a[n]) || exists|j: int| 0 <= j < n && b.contains(#[trigger] a[j]),
    ensures
        0 <= first_in(a, b, n) <= n,
        b.contains(a[first_in(a, b, n)]),
        forall|j: int| 0 <= j < first_in(a, b, n) ==> !b.contains(#[trigger] a[j]),
    decreases n,
{
    if n > 0 && exists|j: int| 0 <= j < n && b.contains(#[trigger] a[j]) {
        lemma_first_in(a, b, n - 1);
    }
}

} // verus!
