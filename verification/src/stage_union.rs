//! What the union of the requirements of shader stages consists of.
use vstd::prelude::*;

use crate::descriptor_set;
use crate::descriptor_set::DescriptorSetLayoutBinding;
use crate::descriptor_set::DescriptorType;
use crate::range;
use crate::range::PushConstantRange;
use crate::requirements;
use crate::requirements::DescriptorBindingRequirements;
use crate::shader;
use crate::stages;
use crate::stages::PipelineDescriptorSetLayoutCreateInfo;
use crate::stages::PipelineShaderStageCreateInfo;

verus! {

/// The range of push constants that stage `i` accesses, if it does.
pub open spec fn range_of(stages: Seq<PipelineShaderStageCreateInfo>, i: int) -> Option<
    PushConstantRange,
> {
    stages[i].entry_point.info.push_constant_requirements
}

/// Whether the range of stage `i` has this offset and size.
pub open spec fn uses(
    stages: Seq<PipelineShaderStageCreateInfo>,
    i: int,
    offset: u32,
    size: u32,
) -> bool {
    &&& 0 <= i < stages.len()
    &&& range_of(stages, i) is Some
    &&& range_of(stages, i)->Some_0.offset == offset
    &&& range_of(stages, i)->Some_0.size == size
}

/// Whether some stage has a range with this offset and size, with the bit at position `k`.
pub open spec fn used_with_bit(
    stages: Seq<PipelineShaderStageCreateInfo>,
    offset: u32,
    size: u32,
    k: u32,
) -> bool {
    exists|i: int| #[trigger]
        uses(stages, i, offset, size) && shader::has_bit(
            range_of(stages, i)->Some_0.stages.bits,
            k,
        )
}

/// A combined range has the offset and size of some stage's range.
proof fn lemma_origin(stages: Seq<PipelineShaderStageCreateInfo>, x: int)
    requires
        0 <= x < stages::combined_ranges(stages).len(),
    ensures
        exists|i: int| #[trigger]
            uses(
                stages,
                i,
                stages::combined_ranges(stages)[x].offset,
                stages::combined_ranges(stages)[x].size,
            ),
    decreases stages.len(),
{
    let n = stages.len() - 1;
    let rest = stages.drop_last();
    let before = stages::combined_ranges(rest);
    let all = stages::combined_ranges(stages);
    assert(stages[n] == stages.last());
    if x < before.len() {
        lemma_origin(rest, x);
        let i = choose|i: int| #[trigger] uses(rest, i, before[x].offset, before[x].size);
        assert(rest[i] == stages[i]);
        assert(uses(stages, i, all[x].offset, all[x].size));
    } else {
        assert(uses(stages, n, all[x].offset, all[x].size));
    }
}

/// A combined range has a stage exactly where some shader whose range has exactly its offset and size
/// has that stage.
pub proof fn law_stages_of_a_combined_range(
    stages: Seq<PipelineShaderStageCreateInfo>,
    x: int,
    k: u32,
)
    requires
        0 <= x < stages::combined_ranges(stages).len(),
        k < 32,
    ensures
        shader::has_bit(stages::combined_ranges(stages)[x].stages.bits, k) <==> used_with_bit(
            stages,
            stages::combined_ranges(stages)[x].offset,
            stages::combined_ranges(stages)[x].size,
            k,
        ),
    decreases stages.len(),
{
    let n = stages.len() - 1;
    let rest = stages.drop_last();
    let before = stages::combined_ranges(rest);
    let all = stages::combined_ranges(stages);
    let offset = all[x].offset;
    let size = all[x].size;
    assert(stages[n] == stages.last());
    assert forall|i: int| 0 <= i < n implies #[trigger] uses(rest, i, offset, size) == uses(
        stages,
        i,
        offset,
        size,
    ) by {
        assert(rest[i] == stages[i]);
    }
    assert(used_with_bit(stages, offset, size, k) == (used_with_bit(rest, offset, size, k) || (uses(
        stages,
        n,
        offset,
        size,
    ) && shader::has_bit(range_of(stages, n)->Some_0.stages.bits, k)))) by {
        if used_with_bit(stages, offset, size, k) {
            let i = choose|i: int| #[trigger]
                uses(stages, i, offset, size) && shader::has_bit(
                    range_of(stages, i)->Some_0.stages.bits,
                    k,
                );
            if i < n {
                assert(uses(rest, i, offset, size));
                assert(rest[i] == stages[i]);
            }
        }
        if used_with_bit(rest, offset, size, k) {
            let i = choose|i: int| #[trigger]
                uses(rest, i, offset, size) && shader::has_bit(
                    range_of(rest, i)->Some_0.stages.bits,
                    k,
                );
            assert(uses(stages, i, offset, size));
            assert(rest[i] == stages[i]);
        }
    }
    if x < before.len() {
        assert(before[x].offset == offset && before[x].size == size);
        law_stages_of_a_combined_range(rest, x, k);
        if let Some(more) = range_of(stages, n) {
            shader::lemma_union_bit(before[x].stages.bits, more.stages.bits, k);
            if stages::same_extent(before[x], more) {
                assert(all[x] == stages::with_stages_of(before[x], more));
            }
        }
    } else {
        let more = range_of(stages, n)->Some_0;
        assert(all[x] == more);
        if used_with_bit(rest, offset, size, k) {
            let i = choose|i: int| #[trigger]
                uses(rest, i, offset, size) && shader::has_bit(
                    range_of(rest, i)->Some_0.stages.bits,
                    k,
                );
            stages::lemma_range_is_combined(rest, i);
            let y = choose|y: int|
                0 <= y < before.len() && stages::takes_in(
                    #[trigger] before[y],
                    range_of(rest, i)->Some_0,
                );
            assert(stages::same_extent(before[y], more));
        }
    }
}

/// There is a combined range of an offset and size exactly where some stage's range has them, and
/// only one.
pub proof fn law_extents_of_combined_ranges(
    stages: Seq<PipelineShaderStageCreateInfo>,
    offset: u32,
    size: u32,
)
    ensures
        (exists|x: int|
            0 <= x < stages::combined_ranges(stages).len() && (
            #[trigger] stages::combined_ranges(stages)[x]).offset == offset
                && stages::combined_ranges(stages)[x].size == size) <==> (exists|i: int| #[trigger]
            uses(stages, i, offset, size)),
        forall|x: int, y: int|
            0 <= x < y < stages::combined_ranges(stages).len() ==> (
            #[trigger] stages::combined_ranges(stages)[x]).offset != (
            #[trigger] stages::combined_ranges(stages)[y]).offset || stages::combined_ranges(
                stages,
            )[x].size != stages::combined_ranges(stages)[y].size,
{
    let all = stages::combined_ranges(stages);
    if exists|x: int|
        0 <= x < all.len() && (#[trigger] all[x]).offset == offset && all[x].size == size {
        let x = choose|x: int|
            0 <= x < all.len() && (#[trigger] all[x]).offset == offset && all[x].size == size;
        lemma_origin(stages, x);
    }
    if exists|i: int| #[trigger] uses(stages, i, offset, size) {
        let i = choose|i: int| #[trigger] uses(stages, i, offset, size);
        stages::lemma_range_is_combined(stages, i);
        let x = choose|x: int|
            0 <= x < all.len() && stages::takes_in(#[trigger] all[x], range_of(stages, i)->Some_0);
        assert(all[x].offset == offset);
    }
    stages::law_combined_extents_differ(stages);
    assert forall|x: int, y: int| 0 <= x < y < all.len() implies (#[trigger] all[x]).offset != (
    #[trigger] all[y]).offset || all[x].size != all[y].size by {
        assert(!stages::same_extent(all[x], all[y]));
    }
}

/// Combined ranges stand in the order in which their offset and size are first used.
pub proof fn law_order_of_combined_ranges(
    stages: Seq<PipelineShaderStageCreateInfo>,
    x: int,
    y: int,
)
    requires
        0 <= x < y < stages::combined_ranges(stages).len(),
    ensures
        exists|i: int|
            #[trigger] uses(
                stages,
                i,
                stages::combined_ranges(stages)[x].offset,
                stages::combined_ranges(stages)[x].size,
            ) && forall|j: int|
                j <= i ==> !(#[trigger] uses(
                    stages,
                    j,
                    stages::combined_ranges(stages)[y].offset,
                    stages::combined_ranges(stages)[y].size,
                )),
    decreases stages.len(),
{
    let n = stages.len() - 1;
    let rest = stages.drop_last();
    let before = stages::combined_ranges(rest);
    let all = stages::combined_ranges(stages);
    assert(before[x].offset == all[x].offset && before[x].size == all[x].size);
    let offset = all[y].offset;
    let size = all[y].size;
    let i = if y < before.len() {
        law_order_of_combined_ranges(rest, x, y);
        choose|i: int|
            #[trigger] uses(rest, i, before[x].offset, before[x].size) && forall|j: int|
                j <= i ==> !(#[trigger] uses(rest, j, before[y].offset, before[y].size))
    } else {
        lemma_origin(rest, x);
        choose|i: int| #[trigger] uses(rest, i, before[x].offset, before[x].size)
    };
    assert(rest[i] == stages[i]);
    assert(uses(stages, i, all[x].offset, all[x].size));
    assert forall|j: int| j <= i implies !(#[trigger] uses(stages, j, offset, size)) by {
        if uses(stages, j, offset, size) {
            assert(rest[j] == stages[j]);
            assert(uses(rest, j, offset, size));
            if y >= before.len() {
                stages::lemma_range_is_combined(rest, j);
                let z = choose|z: int|
                    0 <= z < before.len() && stages::takes_in(
                        #[trigger] before[z],
                        range_of(rest, j)->Some_0,
                    );
                assert(stages::same_extent(before[z], range_of(stages, n)->Some_0));
            }
        }
    }
}

/// Where shaders that have a stage in common use the same offset and size, no two combined ranges
/// have a stage in common.
pub proof fn law_combined_ranges_share_no_stage(stages: Seq<PipelineShaderStageCreateInfo>)
    requires
        forall|i: int, j: int|
            #![trigger range_of(stages, i), range_of(stages, j)]
            0 <= i < stages.len() && 0 <= j < stages.len() && range_of(stages, i) is Some
                && range_of(stages, j) is Some && range_of(stages, i)->Some_0.stages.bits & range_of(
                stages,
                j,
            )->Some_0.stages.bits != 0 ==> range_of(stages, i)->Some_0.offset == range_of(
                stages,
                j,
            )->Some_0.offset && range_of(stages, i)->Some_0.size == range_of(
                stages,
                j,
            )->Some_0.size,
    ensures
        forall|x: int, y: int|
            0 <= x < y < stages::combined_ranges(stages).len() ==> (
            #[trigger] stages::combined_ranges(stages)[x]).stages.bits & (
            #[trigger] stages::combined_ranges(stages)[y]).stages.bits == 0,
        range::share_no_stage(stages::combined_ranges(stages)),
{
    let all = stages::combined_ranges(stages);
    assert forall|x: int, y: int| 0 <= x < y < all.len() implies (#[trigger] all[x]).stages.bits & (
    #[trigger] all[y]).stages.bits == 0 by {
        let a = all[x];
        let b = all[y];
        if a.stages.bits & b.stages.bits != 0 {
            shader::lemma_meet_bit(a.stages.bits, b.stages.bits);
            let k = choose|k: u32|
                k < 32 && #[trigger] shader::has_bit(a.stages.bits, k)
                    && #[trigger] shader::has_bit(b.stages.bits, k);
            law_stages_of_a_combined_range(stages, x, k);
            law_stages_of_a_combined_range(stages, y, k);
            let i = choose|i: int| #[trigger]
                uses(stages, i, a.offset, a.size) && shader::has_bit(
                    range_of(stages, i)->Some_0.stages.bits,
                    k,
                );
            let j = choose|j: int| #[trigger]
                uses(stages, j, b.offset, b.size) && shader::has_bit(
                    range_of(stages, j)->Some_0.stages.bits,
                    k,
                );
            shader::lemma_meet_bit(
                range_of(stages, i)->Some_0.stages.bits,
                range_of(stages, j)->Some_0.stages.bits,
            );
            law_extents_of_combined_ranges(stages, a.offset, a.size);
        }
    }
}

/// Whether stage `i` accesses the descriptor under `key`.
pub open spec fn asks(
    stages: Seq<PipelineShaderStageCreateInfo>,
    i: int,
    key: (u32, u32),
) -> bool {
    0 <= i < stages.len()
        && stages[i].entry_point.info.descriptor_binding_requirements@.contains_key(key)
}

/// What stage `i` requires of the descriptor under `key`.
pub open spec fn wants(
    stages: Seq<PipelineShaderStageCreateInfo>,
    i: int,
    key: (u32, u32),
) -> DescriptorBindingRequirements {
    stages[i].entry_point.info.descriptor_binding_requirements@[key]
}

/// Whether some stage accesses the descriptor under `key`.
pub open spec fn asked(stages: Seq<PipelineShaderStageCreateInfo>, key: (u32, u32)) -> bool {
    exists|i: int| #[trigger] asks(stages, i, key)
}

/// Whether every stage that accesses the descriptor under `key` allows the type.
pub open spec fn all_allow(
    stages: Seq<PipelineShaderStageCreateInfo>,
    key: (u32, u32),
    t: DescriptorType,
) -> bool {
    forall|i: int| #[trigger] asks(stages, i, key) ==> wants(stages, i, key).descriptor_types@.contains(t)
}

/// Whether some stage that accesses the descriptor under `key` has the bit at position `k`.
pub open spec fn asked_with_bit(
    stages: Seq<PipelineShaderStageCreateInfo>,
    key: (u32, u32),
    k: u32,
) -> bool {
    exists|i: int| #[trigger]
        asks(stages, i, key) && shader::has_bit(wants(stages, i, key).stages.bits, k)
}

/// Whether `count` is the highest count that a stage requires under `key`, or none if none does.
pub open spec fn is_highest_count(
    stages: Seq<PipelineShaderStageCreateInfo>,
    key: (u32, u32),
    count: Option<u32>,
) -> bool {
    &&& forall|i: int| #[trigger]
        asks(stages, i, key) && wants(stages, i, key).descriptor_count is Some ==> count is Some
            && wants(stages, i, key).descriptor_count->Some_0 <= count->Some_0
    &&& count is Some ==> exists|i: int| #[trigger]
        asks(stages, i, key) && wants(stages, i, key).descriptor_count == count
}

/// Whether what is asked of images under `key` is what each stage asks of them, if it asks anything,
/// and nothing else.
pub open spec fn is_asked_of_images(
    stages: Seq<PipelineShaderStageCreateInfo>,
    key: (u32, u32),
    r: requirements::RequirementsView,
) -> bool {
    &&& forall|i: int| #[trigger]
        asks(stages, i, key) ==> {
            let w = wants(stages, i, key);
            &&& w.image_format is Some ==> w.image_format == r.image_format
            &&& w.image_scalar_type is Some ==> w.image_scalar_type == r.image_scalar_type
            &&& w.image_view_type is Some ==> w.image_view_type == r.image_view_type
            &&& w.image_multisampled == r.image_multisampled
        }
    &&& r.image_format is Some ==> exists|i: int| #[trigger]
        asks(stages, i, key) && wants(stages, i, key).image_format is Some
    &&& r.image_scalar_type is Some ==> exists|i: int| #[trigger]
        asks(stages, i, key) && wants(stages, i, key).image_scalar_type is Some
    &&& r.image_view_type is Some ==> exists|i: int| #[trigger]
        asks(stages, i, key) && wants(stages, i, key).image_view_type is Some
}

/// The first stage that accesses the descriptor under `key`.
pub open spec fn is_first_to_ask(
    stages: Seq<PipelineShaderStageCreateInfo>,
    key: (u32, u32),
    f: int,
) -> bool {
    asks(stages, f, key) && forall|i: int| i < f ==> !(#[trigger] asks(stages, i, key))
}

/// Filtering twice is filtering for both.
proof fn lemma_filter_twice(
    s: Seq<DescriptorType>,
    p: spec_fn(DescriptorType) -> bool,
    q: spec_fn(DescriptorType) -> bool,
    both: spec_fn(DescriptorType) -> bool,
)
    requires
        forall|i: int| 0 <= i < s.len() ==> both(#[trigger] s[i]) == (p(s[i]) && q(s[i])),
    ensures
        s.filter(p).filter(q) == s.filter(both),
    decreases s.len(),
{
    reveal(Seq::filter);
    if s.len() > 0 {
        let rest = s.drop_last();
        assert forall|i: int| 0 <= i < rest.len() implies both(#[trigger] rest[i]) == (p(rest[i])
            && q(rest[i])) by {
            assert(rest[i] == s[i]);
        }
        lemma_filter_twice(rest, p, q, both);
        assert(s[s.len() - 1] == s.last());
        if p(s.last()) {
            assert(rest.filter(p).push(s.last()).drop_last() =~= rest.filter(p));
        }
    }
}

/// Filtering for what holds of all items keeps them.
proof fn lemma_filter_all(s: Seq<DescriptorType>, p: spec_fn(DescriptorType) -> bool)
    requires
        forall|i: int| 0 <= i < s.len() ==> p(#[trigger] s[i]),
    ensures
        s.filter(p) == s,
    decreases s.len(),
{
    reveal(Seq::filter);
    if s.len() > 0 {
        let rest = s.drop_last();
        assert forall|i: int| 0 <= i < rest.len() implies p(#[trigger] rest[i]) by {
            assert(rest[i] == s[i]);
        }
        lemma_filter_all(rest, p);
        assert(s[s.len() - 1] == s.last());
        assert(rest.push(s.last()) =~= s);
    }
}

/// The first filtered item is the first one that passes the filter, and what passes is kept.
proof fn lemma_first_filtered(s: Seq<DescriptorType>, p: spec_fn(DescriptorType) -> bool)
    ensures
        s.filter(p).len() > 0 ==> exists|j: int|
            0 <= j < s.len() && (#[trigger] s[j]) == s.filter(p)[0] && p(s[j]) && forall|i: int|
                0 <= i < j ==> !p(#[trigger] s[i]),
        (exists|j: int| 0 <= j < s.len() && p(#[trigger] s[j])) ==> s.filter(p).len() > 0,
    decreases s.len(),
{
    reveal(Seq::filter);
    if s.len() > 0 {
        let n = s.len() - 1;
        let rest = s.drop_last();
        lemma_first_filtered(rest, p);
        assert(s[n] == s.last());
        if rest.filter(p).len() > 0 {
            let j = choose|j: int|
                0 <= j < rest.len() && (#[trigger] rest[j]) == rest.filter(p)[0] && p(rest[j])
                    && forall|i: int| 0 <= i < j ==> !p(#[trigger] rest[i]);
            assert(s[j] == rest[j]);
            assert forall|i: int| 0 <= i < j implies !p(#[trigger] s[i]) by {
                assert(rest[i] == s[i]);
            }
            assert(s.filter(p)[0] == rest.filter(p)[0]);
        } else {
            assert forall|i: int| 0 <= i < n implies !p(#[trigger] s[i]) by {
                assert(rest[i] == s[i]);
            }
            if p(s[n]) {
                assert(s.filter(p)[0] == s[n]);
            }
        }
    }
}

/// Whether `r` is what the stages together require under `key`: the types that all of them allow, in
/// the order of the first one, the highest count, what is asked of images, and all of their stages.
pub open spec fn describes(
    stages: Seq<PipelineShaderStageCreateInfo>,
    key: (u32, u32),
    r: requirements::RequirementsView,
) -> bool {
    &&& exists|f: int| #[trigger]
        is_first_to_ask(stages, key, f) && r.descriptor_types == wants(
            stages,
            f,
            key,
        ).descriptor_types@.filter(|t: DescriptorType| all_allow(stages, key, t))
    &&& is_highest_count(stages, key, r.descriptor_count)
    &&& is_asked_of_images(stages, key, r)
    &&& forall|k: u32|
        k < 32 ==> (#[trigger] shader::has_bit(r.stages.bits, k) <==> asked_with_bit(
            stages,
            key,
            k,
        ))
}

/// Merged requirements are what the stages together require.
proof fn lemma_merged(stages: Seq<PipelineShaderStageCreateInfo>, key: (u32, u32))
    requires
        stages::can_merge(stages),
    ensures
        stages::merged_at(stages, key) is Some <==> asked(stages, key),
        stages::merged_at(stages, key) is Some ==> describes(
            stages,
            key,
            stages::merged_at(stages, key)->Some_0,
        ),
    decreases stages.len(),
{
    if stages.len() > 0 {
        let n = stages.len() - 1;
        let rest = stages.drop_last();
        assert(stages[n] == stages.last());
        stages::lemma_can_merge_rest(stages);
        lemma_merged(rest, key);
        assert forall|i: int| #[trigger] asks(stages, i, key) == (asks(rest, i, key) || (i == n
            && asks(stages, n, key))) by {
            if 0 <= i < n {
                assert(rest[i] == stages[i]);
            }
        }
        assert forall|i: int| #[trigger] asks(rest, i, key) implies asks(stages, i, key) && wants(
            rest,
            i,
            key,
        ) == wants(stages, i, key) by {
            assert(rest[i] == stages[i]);
        }
        if asks(stages, n, key) {
            let own = wants(stages, n, key);
            assert(stages::can_merge_at(stages, n));
            assert(stages::merges_at(stages, n, key));
            assert(stages.take(n) =~= rest);
            if stages::merged_at(rest, key) is Some {
                lemma_merged_step(stages, key);
            } else {
                lemma_first_step(stages, key);
            }
        } else {
            if stages::merged_at(rest, key) is Some {
                lemma_kept_step(stages, key);
            } else {
                assert(!asked(stages, key));
            }
        }
    }
}

/// A last stage that does not access a descriptor changes nothing.
proof fn lemma_kept_step(stages: Seq<PipelineShaderStageCreateInfo>, key: (u32, u32))
    requires
        stages.len() > 0,
        !asks(stages, stages.len() - 1, key),
        stages::merged_at(stages.drop_last(), key) is Some,
        describes(
            stages.drop_last(),
            key,
            stages::merged_at(stages.drop_last(), key)->Some_0,
        ),
    ensures
        asked(stages, key),
        describes(stages, key, stages::merged_at(stages.drop_last(), key)->Some_0),
{
    let rest = stages.drop_last();
    let r = stages::merged_at(rest, key)->Some_0;
    assert forall|i: int| #[trigger] asks(stages, i, key) == asks(rest, i, key) by {
        if 0 <= i < rest.len() {
            assert(rest[i] == stages[i]);
        }
    }
    assert forall|i: int| #[trigger] asks(rest, i, key) implies wants(rest, i, key) == wants(
        stages,
        i,
        key,
    ) by {
        assert(rest[i] == stages[i]);
    }
    let f = choose|f: int| #[trigger]
        is_first_to_ask(rest, key, f) && r.descriptor_types == wants(
            rest,
            f,
            key,
        ).descriptor_types@.filter(|t: DescriptorType| all_allow(rest, key, t));
    assert(is_first_to_ask(stages, key, f)) by {
        assert(asks(rest, f, key) && asks(stages, f, key));
        assert forall|i: int| i < f implies !(#[trigger] asks(stages, i, key)) by {
            assert(!asks(rest, i, key));
        }
    }
    assert forall|t: DescriptorType| all_allow(rest, key, t) == all_allow(stages, key, t) by {
        if all_allow(rest, key, t) {
            assert forall|i: int| #[trigger] asks(stages, i, key) implies wants(
                stages,
                i,
                key,
            ).descriptor_types@.contains(t) by {
                assert(asks(rest, i, key));
            }
        }
        if all_allow(stages, key, t) {
            assert forall|i: int| #[trigger] asks(rest, i, key) implies wants(
                rest,
                i,
                key,
            ).descriptor_types@.contains(t) by {
                assert(asks(stages, i, key));
            }
        }
    }
    assert((|t: DescriptorType| all_allow(rest, key, t)) =~= (|t: DescriptorType|
        all_allow(stages, key, t)));
    assert(is_highest_count(stages, key, r.descriptor_count)) by {
        if r.descriptor_count is Some {
            let i = choose|i: int| #[trigger]
                asks(rest, i, key) && wants(rest, i, key).descriptor_count == r.descriptor_count;
            assert(asks(stages, i, key));
        }
    }
    assert(is_asked_of_images(stages, key, r)) by {
        if r.image_format is Some {
            let i = choose|i: int| #[trigger]
                asks(rest, i, key) && wants(rest, i, key).image_format is Some;
            assert(asks(stages, i, key));
        }
        if r.image_scalar_type is Some {
            let i = choose|i: int| #[trigger]
                asks(rest, i, key) && wants(rest, i, key).image_scalar_type is Some;
            assert(asks(stages, i, key));
        }
        if r.image_view_type is Some {
            let i = choose|i: int| #[trigger]
                asks(rest, i, key) && wants(rest, i, key).image_view_type is Some;
            assert(asks(stages, i, key));
        }
    }
    assert forall|k: u32| k < 32 implies (#[trigger] shader::has_bit(r.stages.bits, k)
        <==> asked_with_bit(stages, key, k)) by {
        assert(shader::has_bit(r.stages.bits, k) <==> asked_with_bit(rest, key, k));
        if asked_with_bit(rest, key, k) {
            let i = choose|i: int| #[trigger]
                asks(rest, i, key) && shader::has_bit(wants(rest, i, key).stages.bits, k);
            assert(asks(stages, i, key));
        }
        if asked_with_bit(stages, key, k) {
            let i = choose|i: int| #[trigger]
                asks(stages, i, key) && shader::has_bit(wants(stages, i, key).stages.bits, k);
            assert(asks(rest, i, key));
        }
    }
}

/// A last stage that is the first to access a descriptor requires what it alone requires.
proof fn lemma_first_step(stages: Seq<PipelineShaderStageCreateInfo>, key: (u32, u32))
    requires
        stages.len() > 0,
        asks(stages, stages.len() - 1, key),
        !asked(stages.drop_last(), key),
    ensures
        asked(stages, key),
        describes(stages, key, wants(stages, stages.len() - 1, key)@),
{
    let n = stages.len() - 1;
    let rest = stages.drop_last();
    let own = wants(stages, n, key);
    assert forall|i: int| #[trigger] asks(stages, i, key) implies i == n by {
        if i < n {
            assert(rest[i] == stages[i]);
            assert(asks(rest, i, key));
        }
    }
    assert(is_first_to_ask(stages, key, n));
    let allow = |t: DescriptorType| all_allow(stages, key, t);
    assert forall|i: int| 0 <= i < own.descriptor_types@.len() implies allow(
        #[trigger] own.descriptor_types@[i],
    ) by {
        assert(own.descriptor_types@.contains(own.descriptor_types@[i]));
    }
    lemma_filter_all(own.descriptor_types@, allow);
    assert forall|k: u32| k < 32 implies (#[trigger] shader::has_bit(own.stages.bits, k)
        <==> asked_with_bit(stages, key, k)) by {}
}

/// A last stage that accesses a descriptor like others before it adds what it requires.
proof fn lemma_merged_step(stages: Seq<PipelineShaderStageCreateInfo>, key: (u32, u32))
    requires
        stages.len() > 0,
        asks(stages, stages.len() - 1, key),
        stages::merged_at(stages.drop_last(), key) is Some,
        describes(
            stages.drop_last(),
            key,
            stages::merged_at(stages.drop_last(), key)->Some_0,
        ),
        requirements::merged(
            stages::merged_at(stages.drop_last(), key)->Some_0,
            wants(stages, stages.len() - 1, key)@,
        ) is Ok,
    ensures
        asked(stages, key),
        describes(
            stages,
            key,
            requirements::merged(
                stages::merged_at(stages.drop_last(), key)->Some_0,
                wants(stages, stages.len() - 1, key)@,
            )->Ok_0,
        ),
{
    let n = stages.len() - 1;
    let rest = stages.drop_last();
    let own = wants(stages, n, key);
    let before = stages::merged_at(rest, key)->Some_0;
    let r = requirements::merged(before, own@)->Ok_0;
    assert forall|i: int| #[trigger] asks(stages, i, key) == (asks(rest, i, key) || i == n) by {
        if 0 <= i < n {
            assert(rest[i] == stages[i]);
        }
    }
    assert forall|i: int| #[trigger] asks(rest, i, key) implies i < n && wants(rest, i, key)
        == wants(stages, i, key) by {
        assert(rest[i] == stages[i]);
    }
    let f = choose|f: int| #[trigger]
        is_first_to_ask(rest, key, f) && before.descriptor_types == wants(
            rest,
            f,
            key,
        ).descriptor_types@.filter(|t: DescriptorType| all_allow(rest, key, t));
    assert(asks(rest, f, key) && asks(stages, f, key));
    assert(is_first_to_ask(stages, key, f)) by {
        assert forall|i: int| i < f implies !(#[trigger] asks(stages, i, key)) by {
            assert(!asks(rest, i, key));
        }
    }
    let allowed_before = |t: DescriptorType| all_allow(rest, key, t);
    let allowed_here = |t: DescriptorType| own.descriptor_types@.contains(t);
    let allowed = |t: DescriptorType| all_allow(stages, key, t);
    let first = wants(stages, f, key).descriptor_types@;
    assert forall|t: DescriptorType| #[trigger] all_allow(stages, key, t) == (all_allow(
        rest,
        key,
        t,
    ) && own.descriptor_types@.contains(t)) by {
        if all_allow(stages, key, t) {
            assert(asks(stages, n, key));
            assert forall|i: int| #[trigger] asks(rest, i, key) implies wants(
                rest,
                i,
                key,
            ).descriptor_types@.contains(t) by {
                assert(asks(stages, i, key));
            }
        }
        if all_allow(rest, key, t) && own.descriptor_types@.contains(t) {
            assert forall|i: int| #[trigger] asks(stages, i, key) implies wants(
                stages,
                i,
                key,
            ).descriptor_types@.contains(t) by {
                if i != n {
                    assert(asks(rest, i, key));
                }
            }
        }
    }
    lemma_filter_twice(first, allowed_before, allowed_here, allowed);
    assert(r.descriptor_types == first.filter(allowed));
    assert(is_highest_count(stages, key, r.descriptor_count)) by {
        if before.descriptor_count is Some {
            let i = choose|i: int| #[trigger]
                asks(rest, i, key) && wants(rest, i, key).descriptor_count
                    == before.descriptor_count;
            assert(asks(stages, i, key));
        }
        assert(asks(stages, n, key));
        assert forall|i: int| #[trigger]
            asks(stages, i, key) && wants(
                stages,
                i,
                key,
            ).descriptor_count is Some implies r.descriptor_count is Some && wants(
            stages,
            i,
            key,
        ).descriptor_count->Some_0 <= r.descriptor_count->Some_0 by {
            if i != n {
                assert(asks(rest, i, key));
            }
        }
    }
    assert(is_asked_of_images(stages, key, r)) by {
        assert(asks(stages, n, key));
        assert forall|i: int| #[trigger] asks(stages, i, key) implies {
            let w = wants(stages, i, key);
            &&& w.image_format is Some ==> w.image_format == r.image_format
            &&& w.image_scalar_type is Some ==> w.image_scalar_type == r.image_scalar_type
            &&& w.image_view_type is Some ==> w.image_view_type == r.image_view_type
            &&& w.image_multisampled == r.image_multisampled
        } by {
            if i != n {
                assert(asks(rest, i, key));
            }
        }
        if before.image_format is Some {
            let i = choose|i: int| #[trigger]
                asks(rest, i, key) && wants(rest, i, key).image_format is Some;
            assert(asks(stages, i, key));
        }
        if before.image_scalar_type is Some {
            let i = choose|i: int| #[trigger]
                asks(rest, i, key) && wants(rest, i, key).image_scalar_type is Some;
            assert(asks(stages, i, key));
        }
        if before.image_view_type is Some {
            let i = choose|i: int| #[trigger]
                asks(rest, i, key) && wants(rest, i, key).image_view_type is Some;
            assert(asks(stages, i, key));
        }
    }
    assert forall|k: u32| k < 32 implies (#[trigger] shader::has_bit(r.stages.bits, k)
        <==> asked_with_bit(stages, key, k)) by {
        shader::lemma_union_bit(before.stages.bits, own.stages.bits, k);
        assert(shader::has_bit(before.stages.bits, k) <==> asked_with_bit(rest, key, k));
        assert(asks(stages, n, key));
        if asked_with_bit(rest, key, k) {
            let i = choose|i: int| #[trigger]
                asks(rest, i, key) && shader::has_bit(wants(rest, i, key).stages.bits, k);
            assert(asks(stages, i, key));
        }
        if asked_with_bit(stages, key, k) {
            let i = choose|i: int| #[trigger]
                asks(stages, i, key) && shader::has_bit(wants(stages, i, key).stages.bits, k);
            if i != n {
                assert(asks(rest, i, key));
            }
        }
    }
}

/// Whether the type of a binding is the first one of the first stage to access it that all stages
/// which access it allow.
pub open spec fn is_first_allowed_type(
    stages: Seq<PipelineShaderStageCreateInfo>,
    key: (u32, u32),
    t: DescriptorType,
) -> bool {
    exists|f: int, j: int|
        #![trigger is_first_to_ask(stages, key, f), wants(stages, f, key).descriptor_types@[j]]
        is_first_to_ask(stages, key, f) && 0 <= j < wants(stages, f, key).descriptor_types@.len()
            && wants(stages, f, key).descriptor_types@[j] == t && all_allow(stages, key, t)
            && forall|i: int|
            0 <= i < j ==> !all_allow(
                stages,
                key,
                #[trigger] wants(stages, f, key).descriptor_types@[i],
            )
}

/// The union has one set more than the highest set number that a stage accesses, and a binding
/// exactly under the numbers that a stage accesses. A binding has the first type that all stages
/// allow, the highest count that a stage requires or else none, all stages that access it and no
/// others, and no flags or samplers.
pub proof fn law_union_exactly(
    info: PipelineDescriptorSetLayoutCreateInfo,
    stages: Seq<PipelineShaderStageCreateInfo>,
)
    requires
        stages::joinable(stages),
        stages::is_union_of(info, stages),
    ensures
        info.flags.bits == 0,
        info.set_layouts@.len() >= 1,
        forall|i: int, key: (u32, u32)| #[trigger]
            asks(stages, i, key) ==> key.0 < info.set_layouts@.len(),
        info.set_layouts@.len() > 1 ==> exists|i: int, key: (u32, u32)| #[trigger]
            asks(stages, i, key) && key.0 == info.set_layouts@.len() - 1,
        forall|n: int|
            0 <= n < info.set_layouts@.len() ==> (#[trigger] info.set_layouts@[n]).flags.bits == 0,
        forall|n: u32, b: u32|
            #![trigger info.set_layouts@[n as int].bindings@.contains_key(b)]
            n < info.set_layouts@.len() ==> (info.set_layouts@[n as int].bindings@.contains_key(b)
                <==> asked(stages, (n, b))),
        forall|n: u32, b: u32|
            n < info.set_layouts@.len()
                && #[trigger] info.set_layouts@[n as int].bindings@.contains_key(b)
                ==> is_union_binding(stages, (n, b), info.set_layouts@[n as int].bindings@[b]),
{
    assert forall|i: int, key: (u32, u32)| #[trigger]
        asks(stages, i, key) implies key.0 < info.set_layouts@.len() by {
        lemma_merged(stages, key);
        assert(asked(stages, key));
        assert(stages::merged_at(stages, key) is Some);
    }
    if info.set_layouts@.len() > 1 {
        let key = choose|key: (u32, u32)|
            (#[trigger] stages::merged_at(stages, key)) is Some && key.0 == info.set_layouts@.len()
                - 1;
        lemma_merged(stages, key);
        let i = choose|i: int| #[trigger] asks(stages, i, key);
        assert(asks(stages, i, key));
    }
    assert forall|n: u32, b: u32|
        #![trigger info.set_layouts@[n as int].bindings@.contains_key(b)]
        n < info.set_layouts@.len() implies (info.set_layouts@[n as int].bindings@.contains_key(b)
        <==> asked(stages, (n, b))) by {
        lemma_merged(stages, (n, b));
        assert((n as int) as u32 == n);
        assert(stages::is_binding_for(info.set_layouts@[n as int], n as int, b, stages));
    }
    assert forall|n: u32, b: u32|
        n < info.set_layouts@.len() && #[trigger] info.set_layouts@[n as int].bindings@.contains_key(
            b,
        ) implies is_union_binding(stages, (n, b), info.set_layouts@[n as int].bindings@[b]) by {
        let key = (n, b);
        lemma_merged(stages, key);
        assert((n as int) as u32 == n);
        assert(stages::is_binding_for(info.set_layouts@[n as int], n as int, b, stages));
        let r = stages::merged_at(stages, key)->Some_0;
        let binding = info.set_layouts@[n as int].bindings@[b];
        assert(binding@ == descriptor_set::binding_for(r));
        assert(r.descriptor_types.len() > 0);
        let f = choose|f: int| #[trigger]
            is_first_to_ask(stages, key, f) && r.descriptor_types == wants(
                stages,
                f,
                key,
            ).descriptor_types@.filter(|t: DescriptorType| all_allow(stages, key, t));
        let allow = |t: DescriptorType| all_allow(stages, key, t);
        let first = wants(stages, f, key).descriptor_types@;
        lemma_first_filtered(first, allow);
        let j = choose|j: int|
            0 <= j < first.len() && (#[trigger] first[j]) == first.filter(allow)[0] && allow(
                first[j],
            ) && forall|i: int| 0 <= i < j ==> !allow(#[trigger] first[i]);
        assert(wants(stages, f, key).descriptor_types@[j] == binding.descriptor_type);
        assert forall|i: int| 0 <= i < j implies !all_allow(
            stages,
            key,
            #[trigger] wants(stages, f, key).descriptor_types@[i],
        ) by {
            assert(!allow(first[i]));
        }
        assert(is_first_allowed_type(stages, key, binding.descriptor_type));
    }
}

/// Whether a binding is the one for what the stages require under `key`.
pub open spec fn is_union_binding(
    stages: Seq<PipelineShaderStageCreateInfo>,
    key: (u32, u32),
    binding: DescriptorSetLayoutBinding,
) -> bool {
    &&& is_first_allowed_type(stages, key, binding.descriptor_type)
    &&& is_highest_count(stages, key, Some(binding.descriptor_count)) || (is_highest_count(
        stages,
        key,
        None,
    ) && binding.descriptor_count == 0)
    &&& forall|k: u32|
        k < 32 ==> (#[trigger] shader::has_bit(binding.stages.bits, k) <==> asked_with_bit(
            stages,
            key,
            k,
        ))
    &&& binding.binding_flags.bits == 0
    &&& binding.immutable_samplers@.len() == 0
}

/// Whether two stages ask for the same of images under `key`, as far as both ask for something.
pub open spec fn agree_on_images(
    a: DescriptorBindingRequirements,
    b: DescriptorBindingRequirements,
) -> bool {
    &&& a.image_format is Some && b.image_format is Some ==> a.image_format == b.image_format
    &&& a.image_scalar_type is Some && b.image_scalar_type is Some ==> a.image_scalar_type
        == b.image_scalar_type
    &&& a.image_view_type is Some && b.image_view_type is Some ==> a.image_view_type
        == b.image_view_type
    &&& a.image_multisampled == b.image_multisampled
}

/// Whether the stages that access the descriptor under `key` all allow some type, and agree on
/// images.
pub open spec fn agree_on(stages: Seq<PipelineShaderStageCreateInfo>, key: (u32, u32)) -> bool {
    &&& exists|t: DescriptorType| all_allow(stages, key, t)
    &&& forall|i: int, j: int| #[trigger]
        asks(stages, i, key) && #[trigger] asks(stages, j, key) ==> agree_on_images(
            wants(stages, i, key),
            wants(stages, j, key),
        )
}

/// Stages have a union exactly where, for each descriptor that they access, there is a type that all
/// of them allow and they agree on images, and the number of sets can be counted.
pub proof fn law_which_stages_have_a_union(stages: Seq<PipelineShaderStageCreateInfo>)
    ensures
        stages::joinable(stages) <==> forall|key: (u32, u32)| #[trigger]
            asked(stages, key) ==> agree_on(stages, key) && key.0 < usize::MAX,
{
    if stages::joinable(stages) {
        assert forall|key: (u32, u32)| #[trigger] asked(stages, key) implies agree_on(stages, key)
            && key.0 < usize::MAX by {
            lemma_merged(stages, key);
            let r = stages::merged_at(stages, key)->Some_0;
            let f = choose|f: int| #[trigger]
                is_first_to_ask(stages, key, f) && r.descriptor_types == wants(
                    stages,
                    f,
                    key,
                ).descriptor_types@.filter(|t: DescriptorType| all_allow(stages, key, t));
            lemma_first_filtered(
                wants(stages, f, key).descriptor_types@,
                |t: DescriptorType| all_allow(stages, key, t),
            );
            assert(exists|t: DescriptorType| all_allow(stages, key, t));
        }
    }
    if forall|key: (u32, u32)| #[trigger]
        asked(stages, key) ==> agree_on(stages, key) && key.0 < usize::MAX {
        lemma_agreement_merges(stages);
        assert forall|key: (u32, u32)| (
        #[trigger] stages::merged_at(stages, key)) is Some implies stages::merged_at(
            stages,
            key,
        )->Some_0.descriptor_types.len() > 0 && key.0 < usize::MAX by {
            lemma_merged(stages, key);
            assert(asked(stages, key));
            lemma_types_remain(stages, key, stages::merged_at(stages, key)->Some_0);
        }
    }
}

/// Where a type is allowed by all, it is among the types that they require together.
proof fn lemma_types_remain(
    stages: Seq<PipelineShaderStageCreateInfo>,
    key: (u32, u32),
    r: requirements::RequirementsView,
)
    requires
        describes(stages, key, r),
        exists|t: DescriptorType| all_allow(stages, key, t),
    ensures
        forall|t: DescriptorType| #[trigger]
            all_allow(stages, key, t) ==> r.descriptor_types.contains(t),
        r.descriptor_types.len() > 0,
{
    let allow = |t: DescriptorType| all_allow(stages, key, t);
    let f = choose|f: int| #[trigger]
        is_first_to_ask(stages, key, f) && r.descriptor_types == wants(
            stages,
            f,
            key,
        ).descriptor_types@.filter(|t: DescriptorType| all_allow(stages, key, t));
    let first = wants(stages, f, key).descriptor_types@;
    assert(asks(stages, f, key));
    assert forall|t: DescriptorType| #[trigger]
        all_allow(stages, key, t) implies r.descriptor_types.contains(t) by {
        lemma_filter_keeps(first, allow, t);
    }
    let t = choose|t: DescriptorType| all_allow(stages, key, t);
    assert(all_allow(stages, key, t));
    assert(r.descriptor_types.contains(t));
}

/// What passes a filter is kept.
proof fn lemma_filter_keeps(
    s: Seq<DescriptorType>,
    p: spec_fn(DescriptorType) -> bool,
    t: DescriptorType,
)
    requires
        s.contains(t),
        p(t),
    ensures
        s.filter(p).contains(t),
    decreases s.len(),
{
    reveal(Seq::filter);
    let n = s.len() - 1;
    let rest = s.drop_last();
    let i = choose|i: int| 0 <= i < s.len() && s[i] == t;
    if i < n {
        assert(rest[i] == t);
        lemma_filter_keeps(rest, p, t);
        let j = choose|j: int| 0 <= j < rest.filter(p).len() && rest.filter(p)[j] == t;
        assert(s.filter(p)[j] == t);
    } else {
        assert(s.filter(p)[rest.filter(p).len() as int] == t);
    }
}

/// Stages that agree can be merged.
proof fn lemma_agreement_merges(stages: Seq<PipelineShaderStageCreateInfo>)
    requires
        forall|key: (u32, u32)| #[trigger] asked(stages, key) ==> agree_on(stages, key),
    ensures
        stages::can_merge(stages),
    decreases stages.len(),
{
    if stages.len() > 0 {
        let n = stages.len() - 1;
        let rest = stages.drop_last();
        assert forall|key: (u32, u32)| #[trigger] asked(rest, key) implies agree_on(rest, key) by {
            lemma_agreement_of_rest(stages, key);
        }
        lemma_agreement_merges(rest);
        assert(stages.take(n) =~= rest);
        assert forall|i: int| 0 <= i < stages.len() implies #[trigger] stages::can_merge_at(
            stages,
            i,
        ) by {
            if i < n {
                assert(stages::can_merge_at(rest, i));
                assert(rest.take(i) =~= stages.take(i));
                assert forall|key: (u32, u32)| #[trigger] stages::merges_at(stages, i, key) by {
                    assert(stages::merges_at(rest, i, key));
                }
            } else {
                assert forall|key: (u32, u32)| #[trigger] stages::merges_at(stages, n, key) by {
                    if asks(stages, n, key) && stages::merged_at(rest, key) is Some {
                        lemma_last_merges(stages, key);
                    }
                }
            }
        }
    }
}

/// Stages that agree on a descriptor agree on it without the last one.
proof fn lemma_agreement_of_rest(stages: Seq<PipelineShaderStageCreateInfo>, key: (u32, u32))
    requires
        stages.len() > 0,
        asked(stages.drop_last(), key),
        asked(stages, key) ==> agree_on(stages, key),
    ensures
        asked(stages, key),
        agree_on(stages.drop_last(), key),
{
    let rest = stages.drop_last();
    assert forall|i: int| #[trigger] asks(rest, i, key) implies asks(stages, i, key) && wants(
        rest,
        i,
        key,
    ) == wants(stages, i, key) by {
        assert(rest[i] == stages[i]);
    }
    let i = choose|i: int| #[trigger] asks(rest, i, key);
    assert(asks(stages, i, key));
    let t = choose|t: DescriptorType| all_allow(stages, key, t);
    assert(all_allow(stages, key, t));
    assert(all_allow(rest, key, t)) by {
        assert forall|j: int| #[trigger] asks(rest, j, key) implies wants(
            rest,
            j,
            key,
        ).descriptor_types@.contains(t) by {
            assert(asks(stages, j, key));
        }
    }
}

/// The last of stages that agree on a descriptor can be merged into the others.
proof fn lemma_last_merges(stages: Seq<PipelineShaderStageCreateInfo>, key: (u32, u32))
    requires
        stages.len() > 0,
        stages::can_merge(stages.drop_last()),
        asks(stages, stages.len() - 1, key),
        stages::merged_at(stages.drop_last(), key) is Some,
        asked(stages, key) ==> agree_on(stages, key),
    ensures
        requirements::merged(
            stages::merged_at(stages.drop_last(), key)->Some_0,
            wants(stages, stages.len() - 1, key)@,
        ) is Ok,
{
    let n = stages.len() - 1;
    let rest = stages.drop_last();
    let own = wants(stages, n, key);
    let before = stages::merged_at(rest, key)->Some_0;
    lemma_merged(rest, key);
    lemma_agreement_of_rest(stages, key);
    lemma_types_remain(rest, key, before);
    assert forall|i: int| #[trigger] asks(rest, i, key) implies asks(stages, i, key) && wants(
        rest,
        i,
        key,
    ) == wants(stages, i, key) by {
        assert(rest[i] == stages[i]);
    }
    let t = choose|t: DescriptorType| all_allow(stages, key, t);
    assert(all_allow(stages, key, t));
    assert(all_allow(rest, key, t)) by {
        assert forall|j: int| #[trigger] asks(rest, j, key) implies wants(
            rest,
            j,
            key,
        ).descriptor_types@.contains(t) by {
            assert(asks(stages, j, key));
        }
    }
    assert(before.descriptor_types.contains(t));
    requirements::lemma_common_types(before.descriptor_types, own.descriptor_types@, t);
    let x = choose|x: int| #[trigger] asks(rest, x, key);
    assert(asks(stages, x, key));
    assert(agree_on_images(wants(stages, x, key), own));
    if before.image_format is Some {
        let i = choose|i: int| #[trigger]
            asks(rest, i, key) && wants(rest, i, key).image_format is Some;
        assert(asks(stages, i, key));
        assert(agree_on_images(wants(stages, i, key), own));
    }
    if before.image_scalar_type is Some {
        let i = choose|i: int| #[trigger]
            asks(rest, i, key) && wants(rest, i, key).image_scalar_type is Some;
        assert(asks(stages, i, key));
        assert(agree_on_images(wants(stages, i, key), own));
    }
    if before.image_view_type is Some {
        let i = choose|i: int| #[trigger]
            asks(rest, i, key) && wants(rest, i, key).image_view_type is Some;
        assert(asks(stages, i, key));
        assert(agree_on_images(wants(stages, i, key), own));
    }
}

/// Sets that fail are told by their own number.
pub proof fn law_set_numbers(n: int)
    requires
        0 <= n <= u32::MAX,
    ensures
        stages::set_number(n) == n,
{
}

} // verus!
