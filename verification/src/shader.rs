//! Shader stages, and sets of them.
use vstd::prelude::*;
use vstd::string::*;

verus! {

/// A shader stage within a pipeline.
#[derive(Clone, Copy, Debug, PartialEq, Eq, Structural, Hash)]
pub enum ShaderStage {
    Vertex,
    TessellationControl,
    TessellationEvaluation,
    Geometry,
    Fragment,
    Compute,
    Task,
    Mesh,
    Raygen,
    AnyHit,
    ClosestHit,
    Miss,
    Intersection,
    Callable,
    SubpassShading,
}

/// The number of shader stages.
pub const STAGE_COUNT: u32 = 15;

/// The stages, in the order of their bits.
pub open spec fn stage_at(i: int) -> ShaderStage
    recommends
        0 <= i < STAGE_COUNT,
{
    if i == 0 {
        ShaderStage::Vertex
    } else if i == 1 {
        ShaderStage::TessellationControl
    } else if i == 2 {
        ShaderStage::TessellationEvaluation
    } else if i == 3 {
        ShaderStage::Geometry
    } else if i == 4 {
        ShaderStage::Fragment
    } else if i == 5 {
        ShaderStage::Compute
    } else if i == 6 {
        ShaderStage::Task
    } else if i == 7 {
        ShaderStage::Mesh
    } else if i == 8 {
        ShaderStage::Raygen
    } else if i == 9 {
        ShaderStage::AnyHit
    } else if i == 10 {
        ShaderStage::ClosestHit
    } else if i == 11 {
        ShaderStage::Miss
    } else if i == 12 {
        ShaderStage::Intersection
    } else if i == 13 {
        ShaderStage::Callable
    } else {
        ShaderStage::SubpassShading
    }
}

/// Whether bit `k` of `bits` is set.
pub open spec fn has_bit(bits: u32, k: u32) -> bool {
    (bits >> k) & 1u32 == 1u32
}

/// Whether two masks have a bit in common.
pub open spec fn masks_meet(a: u32, b: u32) -> bool {
    a & b != 0u32
}

impl ShaderStage {
    /// The position of this stage's bit in a mask.
    pub open spec fn spec_index(self) -> u32 {
        match self {
            ShaderStage::Vertex => 0,
            ShaderStage::TessellationControl => 1,
            ShaderStage::TessellationEvaluation => 2,
            ShaderStage::Geometry => 3,
            ShaderStage::Fragment => 4,
            ShaderStage::Compute => 5,
            ShaderStage::Task => 6,
            ShaderStage::Mesh => 7,
            ShaderStage::Raygen => 8,
            ShaderStage::AnyHit => 9,
            ShaderStage::ClosestHit => 10,
            ShaderStage::Miss => 11,
            ShaderStage::Intersection => 12,
            ShaderStage::Callable => 13,
            ShaderStage::SubpassShading => 14,
        }
    }

    /// The position of this stage's bit in a mask.
    pub fn index(self) -> (k: u32)
        ensures
            k == self.spec_index(),
            k < STAGE_COUNT,
            stage_at(k as int) == self,
    {
        match self {
            ShaderStage::Vertex => 0,
            ShaderStage::TessellationControl => 1,
            ShaderStage::TessellationEvaluation => 2,
            ShaderStage::Geometry => 3,
            ShaderStage::Fragment => 4,
            ShaderStage::Compute => 5,
            ShaderStage::Task => 6,
            ShaderStage::Mesh => 7,
            ShaderStage::Raygen => 8,
            ShaderStage::AnyHit => 9,
            ShaderStage::ClosestHit => 10,
            ShaderStage::Miss => 11,
            ShaderStage::Intersection => 12,
            ShaderStage::Callable => 13,
            ShaderStage::SubpassShading => 14,
        }
    }

    /// The stage whose bit is at position `k`.
    pub fn from_index(k: u32) -> (s: ShaderStage)
        requires
            k < STAGE_COUNT,
        ensures
            s == stage_at(k as int),
            s.spec_index() == k,
    {
        match k {
            0 => ShaderStage::Vertex,
            1 => ShaderStage::TessellationControl,
            2 => ShaderStage::TessellationEvaluation,
            3 => ShaderStage::Geometry,
            4 => ShaderStage::Fragment,
            5 => ShaderStage::Compute,
            6 => ShaderStage::Task,
            7 => ShaderStage::Mesh,
            8 => ShaderStage::Raygen,
            9 => ShaderStage::AnyHit,
            10 => ShaderStage::ClosestHit,
            11 => ShaderStage::Miss,
            12 => ShaderStage::Intersection,
            13 => ShaderStage::Callable,
            _ => ShaderStage::SubpassShading,
        }
    }

    /// The name of this stage, as messages write it.
    pub open spec fn spec_name(self) -> Seq<char> {
        match self {
            ShaderStage::Vertex => "Vertex"@,
            ShaderStage::TessellationControl => "TessellationControl"@,
            ShaderStage::TessellationEvaluation => "TessellationEvaluation"@,
            ShaderStage::Geometry => "Geometry"@,
            ShaderStage::Fragment => "Fragment"@,
            ShaderStage::Compute => "Compute"@,
            ShaderStage::Task => "Task"@,
            ShaderStage::Mesh => "Mesh"@,
            ShaderStage::Raygen => "Raygen"@,
            ShaderStage::AnyHit => "AnyHit"@,
            ShaderStage::ClosestHit => "ClosestHit"@,
            ShaderStage::Miss => "Miss"@,
            ShaderStage::Intersection => "Intersection"@,
            ShaderStage::Callable => "Callable"@,
            ShaderStage::SubpassShading => "SubpassShading"@,
        }
    }

    /// The name of this stage, as messages write it.
    pub fn name(self) -> (s: &'static str)
        ensures
            s@ == self.spec_name(),
    {
        match self {
            ShaderStage::Vertex => "Vertex",
            ShaderStage::TessellationControl => "TessellationControl",
            ShaderStage::TessellationEvaluation => "TessellationEvaluation",
            ShaderStage::Geometry => "Geometry",
            ShaderStage::Fragment => "Fragment",
            ShaderStage::Compute => "Compute",
            ShaderStage::Task => "Task",
            ShaderStage::Mesh => "Mesh",
            ShaderStage::Raygen => "Raygen",
            ShaderStage::AnyHit => "AnyHit",
            ShaderStage::ClosestHit => "ClosestHit",
            ShaderStage::Miss => "Miss",
            ShaderStage::Intersection => "Intersection",
            ShaderStage::Callable => "Callable",
            ShaderStage::SubpassShading => "SubpassShading",
        }
    }

    /// The name of the flag of this stage, as messages write it.
    pub open spec fn spec_flag_name(self) -> Seq<char> {
        match self {
            ShaderStage::Vertex => "VERTEX"@,
            ShaderStage::TessellationControl => "TESSELLATION_CONTROL"@,
            ShaderStage::TessellationEvaluation => "TESSELLATION_EVALUATION"@,
            ShaderStage::Geometry => "GEOMETRY"@,
            ShaderStage::Fragment => "FRAGMENT"@,
            ShaderStage::Compute => "COMPUTE"@,
            ShaderStage::Task => "TASK"@,
            ShaderStage::Mesh => "MESH"@,
            ShaderStage::Raygen => "RAYGEN"@,
            ShaderStage::AnyHit => "ANY_HIT"@,
            ShaderStage::ClosestHit => "CLOSEST_HIT"@,
            ShaderStage::Miss => "MISS"@,
            ShaderStage::Intersection => "INTERSECTION"@,
            ShaderStage::Callable => "CALLABLE"@,
            ShaderStage::SubpassShading => "SUBPASS_SHADING"@,
        }
    }

    /// The name of the flag of this stage, as messages write it.
    pub fn flag_name(self) -> (s: &'static str)
        ensures
            s@ == self.spec_flag_name(),
    {
        match self {
            ShaderStage::Vertex => "VERTEX",
            ShaderStage::TessellationControl => "TESSELLATION_CONTROL",
            ShaderStage::TessellationEvaluation => "TESSELLATION_EVALUATION",
            ShaderStage::Geometry => "GEOMETRY",
            ShaderStage::Fragment => "FRAGMENT",
            ShaderStage::Compute => "COMPUTE",
            ShaderStage::Task => "TASK",
            ShaderStage::Mesh => "MESH",
            ShaderStage::Raygen => "RAYGEN",
            ShaderStage::AnyHit => "ANY_HIT",
            ShaderStage::ClosestHit => "CLOSEST_HIT",
            ShaderStage::Miss => "MISS",
            ShaderStage::Intersection => "INTERSECTION",
            ShaderStage::Callable => "CALLABLE",
            ShaderStage::SubpassShading => "SUBPASS_SHADING",
        }
    }
}

/// A set of shader stages, as the Vulkan stage mask: one bit per stage.
#[derive(Clone, Copy, Debug, PartialEq, Eq, Structural, Hash)]
pub struct ShaderStages {
    pub bits: u32,
}

impl ShaderStages {
    /// The set without any stage.
    pub fn empty() -> (s: ShaderStages)
        ensures
            s.bits == 0,
    {
        ShaderStages { bits: 0 }
    }

    /// Whether there is no stage in the set.
    pub fn is_empty(self) -> (b: bool)
        ensures
            b == (self.bits == 0),
    {
        self.bits == 0
    }

    /// Whether the two sets have a stage in common.
    pub fn intersects(self, other: ShaderStages) -> (b: bool)
        ensures
            b == masks_meet(self.bits, other.bits),
    {
        self.bits & other.bits != 0
    }

    /// Whether all stages of `other` are in the set.
    pub fn contains(self, other: ShaderStages) -> (b: bool)
        ensures
            b == (self.bits & other.bits == other.bits),
    {
        self.bits & other.bits == other.bits
    }

    /// Whether the stage whose bit is at position `k` is in the set.
    pub fn has(self, k: u32) -> (b: bool)
        requires
            k < STAGE_COUNT,
        ensures
            b == has_bit(self.bits, k),
    {
        (self.bits >> k) & 1 == 1
    }
}

/// The flags of the first `n` stages that a mask holds, as messages write them.
pub open spec fn flags_text(bits: u32, n: int) -> Seq<char>
    decreases n,
{
    if n <= 0 {
        Seq::empty()
    } else {
        let before = flags_text(bits, n - 1);
        if !has_bit(bits, (n - 1) as u32) {
            before
        } else if before.len() == 0 {
            stage_at(n - 1).spec_flag_name()
        } else {
            before + " | "@ + stage_at(n - 1).spec_flag_name()
        }
    }
}

/// A set of stages, as messages write it.
pub open spec fn stages_text(stages: ShaderStages) -> Seq<char> {
    let flags = flags_text(stages.bits, STAGE_COUNT as int);
    if flags.len() == 0 {
        "empty()"@
    } else {
        flags
    }
}

impl ShaderStages {
    /// The set, as messages write it: the names of the flags of its stages.
    pub fn text(self) -> (text: String)
        ensures
            text@ == stages_text(self),
    {
        let mut text = String::new();
        let mut k: u32 = 0;
        while k < STAGE_COUNT
            invariant
                k <= STAGE_COUNT,
                text@ == flags_text(self.bits, k as int),
            decreases STAGE_COUNT - k,
        {
            if self.has(k) {
                if !text.as_str().is_empty() {
                    text.append(" | ");
                }
                text.append(ShaderStage::from_index(k).flag_name());
                assert(text@ =~= flags_text(self.bits, k + 1));
            }
            k = k + 1;
        }
        if text.as_str().is_empty() {
            "empty()".to_owned()
        } else {
            text
        }
    }
}

impl core::ops::BitOr for ShaderStages {
    type Output = ShaderStages;

    fn bitor(self, rhs: ShaderStages) -> (r: ShaderStages) {
        ShaderStages { bits: self.bits | rhs.bits }
    }
}

impl vstd::std_specs::ops::BitOrSpecImpl for ShaderStages {
    open spec fn obeys_bitor_spec() -> bool {
        true
    }

    open spec fn bitor_req(self, rhs: ShaderStages) -> bool {
        true
    }

    open spec fn bitor_spec(self, rhs: ShaderStages) -> ShaderStages {
        ShaderStages { bits: self.bits | rhs.bits }
    }
}

/// The mask with only the bit at position `k`.
pub open spec fn single_bit(k: u32) -> u32 {
    1u32 << k
}

impl From<ShaderStage> for ShaderStages {
    fn from(stage: ShaderStage) -> (s: ShaderStages) {
        let k = stage.index();
        ShaderStages { bits: 1u32 << k }
    }
}

impl vstd::std_specs::convert::FromSpecImpl<ShaderStage> for ShaderStages {
    open spec fn obeys_from_spec() -> bool {
        true
    }

    open spec fn from_spec(stage: ShaderStage) -> ShaderStages {
        ShaderStages { bits: single_bit(stage.spec_index()) }
    }
}

/// A bit is in a union where it is in one of the two masks.
pub proof fn lemma_union_bit(a: u32, b: u32, k: u32)
    requires
        k < 32,
    ensures
        has_bit(a | b, k) == (has_bit(a, k) || has_bit(b, k)),
{
    assert((((a | b) >> k) & 1u32 == 1u32) == (((a >> k) & 1u32 == 1u32) || ((b >> k) & 1u32
        == 1u32))) by (bit_vector)
        requires
            k < 32,
    ;
}

/// The empty mask has no bit.
pub proof fn lemma_bit_of_nothing(k: u32)
    ensures
        !has_bit(0, k),
{
    assert((0u32 >> k) & 1u32 != 1u32) by (bit_vector);
}

/// A mask that is not empty behind its first `n` bits has a bit there.
proof fn lemma_bit_from(bits: u32, n: u32)
    requires
        n < 32,
        bits >> n != 0,
    ensures
        exists|k: u32| n <= k < 32 && #[trigger] has_bit(bits, k),
    decreases 32 - n,
{
    if !has_bit(bits, n) {
        assert(bits >> 31u32 == 0 || (bits >> 31u32) & 1u32 == 1u32) by (bit_vector);
        let next = (n + 1) as u32;
        assert(bits >> next != 0) by (bit_vector)
            requires
                n < 31,
                next == n + 1,
                (bits >> n) & 1u32 != 1u32,
                bits >> n != 0,
        ;
        lemma_bit_from(bits, next);
    }
}

/// Two masks meet where they have a bit in common.
pub proof fn lemma_meet_bit(a: u32, b: u32)
    ensures
        masks_meet(a, b) <==> exists|k: u32|
            k < 32 && #[trigger] has_bit(a, k) && #[trigger] has_bit(b, k),
{
    assert forall|k: u32| k < 32 implies #[trigger] has_bit(a & b, k) == (has_bit(a, k) && has_bit(
        b,
        k,
    )) by {
        assert((((a & b) >> k) & 1u32 == 1u32) == (((a >> k) & 1u32 == 1u32) && ((b >> k) & 1u32
            == 1u32))) by (bit_vector)
            requires
                k < 32,
        ;
    }
    if masks_meet(a, b) {
        let both = a & b;
        assert(both >> 0u32 == both) by (bit_vector);
        lemma_bit_from(both, 0);
        let k = choose|k: u32| 0 <= k < 32 && #[trigger] has_bit(both, k);
        assert(has_bit(a, k) && has_bit(b, k));
    }
    if exists|k: u32| k < 32 && #[trigger] has_bit(a, k) && #[trigger] has_bit(b, k) {
        let k = choose|k: u32| k < 32 && #[trigger] has_bit(a, k) && #[trigger] has_bit(b, k);
        assert(has_bit(a & b, k));
        lemma_bit_of_nothing(k);
    }
}

/// A mask contains another one where it has all of its bits.
pub proof fn lemma_contains_bits(a: u32, b: u32)
    ensures
        a & b == b <==> forall|k: u32| k < 32 && #[trigger] has_bit(b, k) ==> has_bit(a, k),
{
    let rest = !a;
    assert((a & b == b) == (b & rest == 0)) by (bit_vector)
        requires
            rest == !a,
    ;
    lemma_meet_bit(b, rest);
    assert forall|k: u32| k < 32 implies #[trigger] has_bit(rest, k) == !has_bit(a, k) by {
        assert(((rest >> k) & 1u32 == 1u32) == ((a >> k) & 1u32 != 1u32)) by (bit_vector)
            requires
                k < 32,
                rest == !a,
        ;
    }
    if masks_meet(b, rest) {
        let k = choose|k: u32| k < 32 && #[trigger] has_bit(b, k) && #[trigger] has_bit(rest, k);
        assert(!has_bit(a, k));
    } else {
        assert forall|k: u32| k < 32 && #[trigger] has_bit(b, k) implies has_bit(a, k) by {
            assert(has_bit(rest, k) == !has_bit(a, k));
        }
    }
}

/// Adding a mask to a union adds what it meets.
pub proof fn lemma_union_meets(a: u32, b: u32, c: u32)
    ensures
        masks_meet(a | b, c) == (masks_meet(a, c) || masks_meet(b, c)),
{
    assert(((a | b) & c != 0u32) == ((a & c != 0u32) || (b & c != 0u32))) by (bit_vector);
}

/// Whether two masks meet does not depend on their order.
pub proof fn lemma_meet_symmetric(a: u32, b: u32)
    ensures
        masks_meet(a, b) == masks_meet(b, a),
{
    assert((a & b != 0u32) == (b & a != 0u32)) by (bit_vector);
}

/// Bit `k` of a mask is set exactly where the mask meets the `k`th power of two.
pub proof fn law_bit(bits: u32, k: u32)
    requires
        k < 32,
    ensures
        has_bit(bits, k) <==> bits & (1u32 << k) != 0,
{
    assert(((bits >> k) & 1u32 == 1u32) == (bits & (1u32 << k) != 0)) by (bit_vector)
        requires
            k < 32,
    ;
}

/// The mask that a stage is converted into.
pub open spec fn stage_mask(stage: ShaderStage) -> u32 {
    <ShaderStages as vstd::std_specs::convert::FromSpec<ShaderStage>>::from_spec(stage).bits
}

/// Each stage has the bit that Vulkan gives it.
pub proof fn law_stage_masks()
    ensures
        stage_mask(ShaderStage::Vertex) == 0x1u32,
        stage_mask(ShaderStage::TessellationControl) == 0x2u32,
        stage_mask(ShaderStage::TessellationEvaluation) == 0x4u32,
        stage_mask(ShaderStage::Geometry) == 0x8u32,
        stage_mask(ShaderStage::Fragment) == 0x10u32,
        stage_mask(ShaderStage::Compute) == 0x20u32,
        stage_mask(ShaderStage::Task) == 0x40u32,
        stage_mask(ShaderStage::Mesh) == 0x80u32,
        stage_mask(ShaderStage::Raygen) == 0x100u32,
        stage_mask(ShaderStage::AnyHit) == 0x200u32,
        stage_mask(ShaderStage::ClosestHit) == 0x400u32,
        stage_mask(ShaderStage::Miss) == 0x800u32,
        stage_mask(ShaderStage::Intersection) == 0x1000u32,
        stage_mask(ShaderStage::Callable) == 0x2000u32,
        stage_mask(ShaderStage::SubpassShading) == 0x4000u32,
{
    assert(1u32 << 0u32 == 0x1u32 && 1u32 << 1u32 == 0x2u32 && 1u32 << 2u32 == 0x4u32 && 1u32 << 3u32 == 0x8u32 && 1u32 << 4u32 == 0x10u32 && 1u32 << 5u32 == 0x20u32 && 1u32 << 6u32 == 0x40u32 && 1u32 << 7u32 == 0x80u32 && 1u32 << 8u32 == 0x100u32 && 1u32 << 9u32 == 0x200u32 && 1u32 << 10u32 == 0x400u32 && 1u32 << 11u32 == 0x800u32 && 1u32 << 12u32 == 0x1000u32 && 1u32 << 13u32 == 0x2000u32 && 1u32 << 14u32 == 0x4000u32) by (bit_vector);
}

/// The stage at a position is the one that has its bit there.
pub proof fn law_stages_and_positions(stage: ShaderStage, k: u32)
    ensures
        stage.spec_index() < 15,
        stage_at(stage.spec_index() as int) == stage,
        k < 15 ==> stage_at(k as int).spec_index() == k,
{
}

/// Messages write a stage as its variant is written, and its flag in capitals.
pub proof fn law_stage_names()
    ensures
        ShaderStage::Vertex.spec_name() == "Vertex"@,
        ShaderStage::Vertex.spec_flag_name() == "VERTEX"@,
        ShaderStage::TessellationControl.spec_name() == "TessellationControl"@,
        ShaderStage::TessellationControl.spec_flag_name() == "TESSELLATION_CONTROL"@,
        ShaderStage::TessellationEvaluation.spec_name() == "TessellationEvaluation"@,
        ShaderStage::TessellationEvaluation.spec_flag_name() == "TESSELLATION_EVALUATION"@,
        ShaderStage::Geometry.spec_name() == "Geometry"@,
        ShaderStage::Geometry.spec_flag_name() == "GEOMETRY"@,
        ShaderStage::Fragment.spec_name() == "Fragment"@,
        ShaderStage::Fragment.spec_flag_name() == "FRAGMENT"@,
        ShaderStage::Compute.spec_name() == "Compute"@,
        ShaderStage::Compute.spec_flag_name() == "COMPUTE"@,
        ShaderStage::Task.spec_name() == "Task"@,
        ShaderStage::Task.spec_flag_name() == "TASK"@,
        ShaderStage::Mesh.spec_name() == "Mesh"@,
        ShaderStage::Mesh.spec_flag_name() == "MESH"@,
        ShaderStage::Raygen.spec_name() == "Raygen"@,
        ShaderStage::Raygen.spec_flag_name() == "RAYGEN"@,
        ShaderStage::AnyHit.spec_name() == "AnyHit"@,
        ShaderStage::AnyHit.spec_flag_name() == "ANY_HIT"@,
        ShaderStage::ClosestHit.spec_name() == "ClosestHit"@,
        ShaderStage::ClosestHit.spec_flag_name() == "CLOSEST_HIT"@,
        ShaderStage::Miss.spec_name() == "Miss"@,
        ShaderStage::Miss.spec_flag_name() == "MISS"@,
        ShaderStage::Intersection.spec_name() == "Intersection"@,
        ShaderStage::Intersection.spec_flag_name() == "INTERSECTION"@,
        ShaderStage::Callable.spec_name() == "Callable"@,
        ShaderStage::Callable.spec_flag_name() == "CALLABLE"@,
        ShaderStage::SubpassShading.spec_name() == "SubpassShading"@,
        ShaderStage::SubpassShading.spec_flag_name() == "SUBPASS_SHADING"@,
{
}

/// Different stages have different names and flags.
pub proof fn law_stage_names_differ(a: ShaderStage, b: ShaderStage)
    requires
        a != b,
    ensures
        a.spec_name() != b.spec_name(),
        a.spec_flag_name() != b.spec_flag_name(),
{
    reveal_strlit("Vertex");
    reveal_strlit("TessellationControl");
    reveal_strlit("TessellationEvaluation");
    reveal_strlit("Geometry");
    reveal_strlit("Fragment");
    reveal_strlit("Compute");
    reveal_strlit("Task");
    reveal_strlit("Mesh");
    reveal_strlit("Raygen");
    reveal_strlit("AnyHit");
    reveal_strlit("ClosestHit");
    reveal_strlit("Miss");
    reveal_strlit("Intersection");
    reveal_strlit("Callable");
    reveal_strlit("SubpassShading");
    reveal_strlit("VERTEX");
    reveal_strlit("TESSELLATION_CONTROL");
    reveal_strlit("TESSELLATION_EVALUATION");
    reveal_strlit("GEOMETRY");
    reveal_strlit("FRAGMENT");
    reveal_strlit("COMPUTE");
    reveal_strlit("TASK");
    reveal_strlit("MESH");
    reveal_strlit("RAYGEN");
    reveal_strlit("ANY_HIT");
    reveal_strlit("CLOSEST_HIT");
    reveal_strlit("MISS");
    reveal_strlit("INTERSECTION");
    reveal_strlit("CALLABLE");
    reveal_strlit("SUBPASS_SHADING");
    let p = a.spec_name();
    let q = b.spec_name();
    assert(p.len() != q.len() || p[0] != q[0] || p[1] != q[1] || p[p.len() - 1] != q[q.len() - 1]);
    let p = a.spec_flag_name();
    let q = b.spec_flag_name();
    assert(p.len() != q.len() || p[0] != q[0] || p[1] != q[1] || p[p.len() - 1] != q[q.len() - 1]);
}

/// What messages write of the first stages depends on their bits only.
proof fn lemma_flags_text_of_low_bits(a: u32, b: u32, n: int)
    requires
        0 <= n <= 15,
        forall|k: u32| k < n ==> #[trigger] has_bit(a, k) == has_bit(b, k),
    ensures
        flags_text(a, n) == flags_text(b, n),
    decreases n,
{
    if n > 0 {
        lemma_flags_text_of_low_bits(a, b, n - 1);
        let k = (n - 1) as u32;
        assert(has_bit(a, k) == has_bit(b, k));
    }
}

/// Positions without a bit add nothing to what messages write.
proof fn lemma_flags_text_of_high_bits(bits: u32, m: int, n: int)
    requires
        0 <= m <= n <= 15,
        forall|k: u32| m <= k < n ==> !(#[trigger] has_bit(bits, k)),
    ensures
        flags_text(bits, n) == flags_text(bits, m),
    decreases n,
{
    if m < n {
        lemma_flags_text_of_high_bits(bits, m, n - 1);
        let k = (n - 1) as u32;
        assert(!has_bit(bits, k));
    }
}

/// The name of a flag is not empty.
proof fn lemma_flag_name_is_not_empty(stage: ShaderStage)
    ensures
        stage.spec_flag_name().len() > 0,
{
    reveal_strlit("VERTEX");
    reveal_strlit("TESSELLATION_CONTROL");
    reveal_strlit("TESSELLATION_EVALUATION");
    reveal_strlit("GEOMETRY");
    reveal_strlit("FRAGMENT");
    reveal_strlit("COMPUTE");
    reveal_strlit("TASK");
    reveal_strlit("MESH");
    reveal_strlit("RAYGEN");
    reveal_strlit("ANY_HIT");
    reveal_strlit("CLOSEST_HIT");
    reveal_strlit("MISS");
    reveal_strlit("INTERSECTION");
    reveal_strlit("CALLABLE");
    reveal_strlit("SUBPASS_SHADING");
}

/// Messages write the set without stages as `empty()`, and a set of one stage as its flag.
pub proof fn law_text_of_one_stage(stage: ShaderStage)
    ensures
        stages_text(ShaderStages { bits: 0 }) == "empty()"@,
        stages_text(ShaderStages { bits: 1u32 << stage.spec_index() }) == stage.spec_flag_name(),
{
    assert forall|k: u32| !(#[trigger] has_bit(0, k)) by {
        lemma_bit_of_nothing(k);
    }
    lemma_flags_text_of_high_bits(0, 0, 15);
    let s = stage.spec_index();
    let bits = 1u32 << s;
    assert forall|k: u32| k < 15 implies #[trigger] has_bit(bits, k) == (k == s) by {
        assert((((1u32 << s) >> k) & 1u32 == 1u32) == (k == s)) by (bit_vector)
            requires
                s < 15,
                k < 15,
        ;
    }
    lemma_flags_text_of_high_bits(bits, 0, s as int);
    lemma_flags_text_of_high_bits(bits, s + 1, 15);
    assert(has_bit(bits, s));
    lemma_flag_name_is_not_empty(stage);
    assert(flags_text(bits, s as int) == Seq::<char>::empty());
    assert((s + 1 - 1) as u32 == s);
    assert(flags_text(bits, s + 1) == stage.spec_flag_name());
}

/// Messages write a further stage behind the ones with lower bits.
pub proof fn law_text_of_a_further_stage(stages: ShaderStages, stage: ShaderStage)
    requires
        stages.bits != 0,
        stages.bits < 1u32 << stage.spec_index(),
    ensures
        stages_text(ShaderStages { bits: stages.bits | (1u32 << stage.spec_index()) }) == stages_text(
            stages,
        ) + " | "@ + stage.spec_flag_name(),
{
    let s = stage.spec_index();
    let old_bits = stages.bits;
    let bits = old_bits | (1u32 << s);
    assert forall|k: u32| k < 15 implies #[trigger] has_bit(bits, k) == (k == s || has_bit(
        old_bits,
        k,
    )) by {
        assert((((old_bits | (1u32 << s)) >> k) & 1u32 == 1u32) == (k == s || (old_bits >> k) & 1u32
            == 1u32)) by (bit_vector)
            requires
                s < 15,
                k < 15,
        ;
    }
    assert forall|k: u32| s <= k < 32 implies !(#[trigger] has_bit(old_bits, k)) by {
        assert((old_bits >> k) & 1u32 != 1u32) by (bit_vector)
            requires
                old_bits < 1u32 << s,
                s <= k < 32,
        ;
    }
    lemma_flags_text_of_low_bits(bits, old_bits, s as int);
    lemma_flags_text_of_high_bits(old_bits, s as int, 15);
    lemma_flags_text_of_high_bits(bits, s + 1, 15);
    assert(old_bits >> 0u32 == old_bits) by (bit_vector);
    lemma_bit_from(old_bits, 0);
    let k = choose|k: u32| 0 <= k < 32 && #[trigger] has_bit(old_bits, k);
    lemma_flags_text_is_not_empty(old_bits, k, s as int);
    assert(has_bit(bits, s));
    lemma_flag_name_is_not_empty(stage);
}

/// Something is written where a bit is set.
proof fn lemma_flags_text_is_not_empty(bits: u32, k: u32, n: int)
    requires
        k < n <= 15,
        has_bit(bits, k),
    ensures
        flags_text(bits, n).len() > 0,
    decreases n,
{
    if k < n - 1 {
        lemma_flags_text_is_not_empty(bits, k, n - 1);
    }
    lemma_flag_name_is_not_empty(stage_at(n - 1));
}

} // verus!
