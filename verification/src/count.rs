//! How many descriptors the sets of a pipeline layout give access to.
use std::sync::Arc;

use vstd::prelude::*;

use crate::descriptor_set;
use crate::descriptor_set::DescriptorSetLayout;
use crate::descriptor_set::DescriptorSetLayoutBinding;
use crate::descriptor_set::DescriptorType;
use crate::device::Device;
use crate::limits;
use crate::limits::DescriptorLimit;
use crate::outside;
use crate::requirements;
use crate::shader;
use crate::shader::ShaderStages;

verus! {

/// The sum of a weight over all bindings of a set.
pub open spec fn sum_bindings(
    m: Map<u32, DescriptorSetLayoutBinding>,
    weight: spec_fn(DescriptorSetLayoutBinding) -> nat,
) -> nat {
    m.dom().fold(0nat, |sum: nat, k: u32| sum + weight(m[k]))
}

/// The sum of a weight over all bindings of all sets.
pub open spec fn sum_sets(
    sets: Seq<Arc<DescriptorSetLayout>>,
    weight: spec_fn(DescriptorSetLayoutBinding) -> nat,
) -> nat
    decreases sets.len(),
{
    if sets.len() == 0 {
        0
    } else {
        sum_sets(sets.drop_last(), weight) + sum_bindings(sets.last().bindings@, weight)
    }
}

/// The number of descriptors of a binding, if it has one of the types.
pub open spec fn of_types(types: Seq<DescriptorType>) -> spec_fn(
    DescriptorSetLayoutBinding,
) -> nat {
    |b: DescriptorSetLayoutBinding|
        if types.contains(b.descriptor_type) {
            b.descriptor_count as nat
        } else {
            0
        }
}

/// The number of descriptors of a binding, if it has one of the types and the stage whose bit is
/// at position `k` can access it.
pub open spec fn of_types_in_stage(types: Seq<DescriptorType>, k: u32) -> spec_fn(
    DescriptorSetLayoutBinding,
) -> nat {
    |b: DescriptorSetLayoutBinding|
        if types.contains(b.descriptor_type) && shader::has_bit(b.stages.bits, k) {
            b.descriptor_count as nat
        } else {
            0
        }
}

/// The number of descriptors that a limit applies to, over all stages.
pub open spec fn total_count(
    limit: limits::LimitView,
    sets: Seq<Arc<DescriptorSetLayout>>,
) -> nat {
    sum_sets(sets, of_types(limit.descriptor_types))
}

/// The number of descriptors that a limit applies to, in the stage whose bit is at position `k`.
pub open spec fn stage_count(
    limit: limits::LimitView,
    k: u32,
    sets: Seq<Arc<DescriptorSetLayout>>,
) -> nat {
    sum_sets(sets, of_types_in_stage(limit.descriptor_types, k))
}

/// Whether the descriptors of a set are pushed.
pub open spec fn is_push(set: DescriptorSetLayout) -> bool {
    shader::masks_meet(set.flags.bits, descriptor_set::PUSH_DESCRIPTOR)
}

/// Whether set `i` is a push descriptor set, and not the first one.
pub open spec fn repeats_push(sets: Seq<Arc<DescriptorSetLayout>>, i: int) -> bool {
    is_push(*sets[i]) && exists|j: int| 0 <= j < i && is_push(*(#[trigger] sets[j]))
}

/// The number of sets in front of the second push descriptor set.
pub open spec fn counted_sets(sets: Seq<Arc<DescriptorSetLayout>>) -> int
    decreases sets.len(),
{
    if sets.len() == 0 {
        0
    } else {
        let n = sets.len() - 1;
        let before = counted_sets(sets.drop_last());
        if before < n || repeats_push(sets, n) {
            before
        } else {
            n + 1
        }
    }
}

/// Whether every count that a limit applies to is a 32-bit number.
pub open spec fn counts_fit(
    stage_limits: Seq<limits::LimitView>,
    total_limits: Seq<limits::LimitView>,
    sets: Seq<Arc<DescriptorSetLayout>>,
) -> bool {
    &&& forall|l: int, k: u32|
        0 <= l < stage_limits.len() && k < shader::STAGE_COUNT ==> #[trigger] stage_count(
            stage_limits[l],
            k,
            sets,
        ) <= u32::MAX
    &&& forall|l: int|
        0 <= l < total_limits.len() ==> total_count(#[trigger] total_limits[l], sets) <= u32::MAX
}

/// Whether the sets up to the second push descriptor set belong to the device, and the counts of
/// the sets in front of it are 32-bit numbers.
pub open spec fn countable(
    device: Device,
    stage_limits: Seq<limits::LimitView>,
    total_limits: Seq<limits::LimitView>,
    sets: Seq<Arc<DescriptorSetLayout>>,
) -> bool {
    &&& forall|i: int|
        0 <= i < sets.len() && i <= counted_sets(sets) ==> (#[trigger] sets[i]).device.id
            == device.id
    &&& counts_fit(stage_limits, total_limits, sets.take(counted_sets(sets)))
}

/// The sum of a weight over listed bindings.
spec fn sum_entries(
    entries: Seq<(u32, &DescriptorSetLayoutBinding)>,
    weight: spec_fn(DescriptorSetLayoutBinding) -> nat,
) -> nat
    decreases entries.len(),
{
    if entries.len() == 0 {
        0
    } else {
        sum_entries(entries.drop_last(), weight) + weight(*entries.last().1)
    }
}

/// The numbers of the first `n` listed bindings.
spec fn numbers_of(entries: Seq<(u32, &DescriptorSetLayoutBinding)>, n: int) -> Set<u32> {
    Set::new(|k: u32| exists|i: int| 0 <= i < n && (#[trigger] entries[i]).0 == k)
}

/// A sum over the numbers of the first listed bindings is the sum over those bindings.
proof fn lemma_sum_entries_prefix(
    entries: Seq<(u32, &DescriptorSetLayoutBinding)>,
    m: Map<u32, DescriptorSetLayoutBinding>,
    weight: spec_fn(DescriptorSetLayoutBinding) -> nat,
    n: int,
)
    requires
        descriptor_set::lists_bindings(entries, m),
        0 <= n <= entries.len(),
    ensures
        numbers_of(entries, n).finite(),
        numbers_of(entries, n).fold(0nat, |sum: nat, k: u32| sum + weight(m[k])) == sum_entries(
            entries.take(n),
            weight,
        ),
    decreases n,
{
    let f = |sum: nat, k: u32| sum + weight(m[k]);
    if n == 0 {
        assert(numbers_of(entries, 0) =~= Set::empty());
        vstd::set::fold::lemma_fold_empty(0nat, f);
    } else {
        lemma_sum_entries_prefix(entries, m, weight, n - 1);
        let k = entries[n - 1].0;
        let before = numbers_of(entries, n - 1);
        assert(!before.contains(k));
        assert(numbers_of(entries, n) =~= before.insert(k)) by {
            assert forall|x: u32| numbers_of(entries, n).contains(x) == before.insert(k).contains(
                x,
            ) by {
                if numbers_of(entries, n).contains(x) {
                    let i = choose|i: int| 0 <= i < n && (#[trigger] entries[i]).0 == x;
                    if i < n - 1 {
                        assert(before.contains(x));
                    }
                }
                if before.contains(x) {
                    let i = choose|i: int| 0 <= i < n - 1 && (#[trigger] entries[i]).0 == x;
                    assert(entries[i].0 == x);
                }
                assert(entries[n - 1].0 == k);
            }
        }
        assert(vstd::set::fold::is_fun_commutative(f));
        vstd::set::fold::lemma_fold_insert(before, 0nat, f, k);
        assert(entries.take(n).drop_last() =~= entries.take(n - 1));
        assert(entries.take(n).last() == entries[n - 1]);
    }
}

/// A sum over all bindings of a set is the sum over any list of them.
proof fn lemma_sum_entries(
    entries: Seq<(u32, &DescriptorSetLayoutBinding)>,
    m: Map<u32, DescriptorSetLayoutBinding>,
    weight: spec_fn(DescriptorSetLayoutBinding) -> nat,
)
    requires
        descriptor_set::lists_bindings(entries, m),
    ensures
        sum_bindings(m, weight) == sum_entries(entries, weight),
{
    let n = entries.len() as int;
    lemma_sum_entries_prefix(entries, m, weight, n);
    assert(entries.take(n) =~= entries);
    assert(numbers_of(entries, n) =~= m.dom()) by {
        assert forall|x: u32| numbers_of(entries, n).contains(x) == m.dom().contains(x) by {
            if m.dom().contains(x) {
                assert(m.contains_key(x));
            }
        }
    }
}

/// A sum over the first listed bindings is at most the sum over all of them.
proof fn lemma_sum_entries_grows(
    entries: Seq<(u32, &DescriptorSetLayoutBinding)>,
    weight: spec_fn(DescriptorSetLayoutBinding) -> nat,
    n: int,
)
    requires
        0 <= n <= entries.len(),
    ensures
        sum_entries(entries.take(n), weight) <= sum_entries(entries, weight),
    decreases entries.len(),
{
    if n == entries.len() {
        assert(entries.take(n) =~= entries);
    } else {
        assert(entries.drop_last().take(n) =~= entries.take(n));
        lemma_sum_entries_grows(entries.drop_last(), weight, n);
    }
}

/// A sum over the first sets is at most the sum over all of them.
proof fn lemma_sum_sets_grows(
    sets: Seq<Arc<DescriptorSetLayout>>,
    weight: spec_fn(DescriptorSetLayoutBinding) -> nat,
    n: int,
)
    requires
        0 <= n <= sets.len(),
    ensures
        sum_sets(sets.take(n), weight) <= sum_sets(sets, weight),
    decreases sets.len(),
{
    if n == sets.len() {
        assert(sets.take(n) =~= sets);
    } else {
        assert(sets.drop_last().take(n) =~= sets.take(n));
        lemma_sum_sets_grows(sets.drop_last(), weight, n);
    }
}

/// The count that a map holds for a stage: none is 0.
pub open spec fn count_of(counts: Map<u32, u32>, k: u32) -> nat {
    if counts.contains_key(k) {
        counts[k] as nat
    } else {
        0
    }
}

/// Whether the map holds counts of stages only.
pub open spec fn stages_only(counts: Map<u32, u32>) -> bool {
    forall|k: u32| #[trigger] counts.contains_key(k) ==> k < shader::STAGE_COUNT
}

/// Adds `n` to the count of each of the stages. Returns false if a count would leave the 32 bits.
fn add_to_stages(
    counts: &mut ahash::HashMap<u32, u32>,
    stages: ShaderStages,
    n: u32,
) -> (fits: bool)
    requires
        stages_only(old(counts)@),
    ensures
        stages_only(final(counts)@),
        fits ==> forall|k: u32|
            k < shader::STAGE_COUNT ==> #[trigger] count_of(final(counts)@, k) == count_of(
                old(counts)@,
                k,
            ) + if shader::has_bit(stages.bits, k) {
                n as nat
            } else {
                0
            },
        !fits ==> exists|k: u32|
            k < shader::STAGE_COUNT && shader::has_bit(stages.bits, k) && #[trigger] count_of(
                old(counts)@,
                k,
            ) + n > u32::MAX,
{
    let ghost before = counts@;
    let mut k: u32 = 0;
    while k < shader::STAGE_COUNT
        invariant
            k <= shader::STAGE_COUNT,
            before == old(counts)@,
            stages_only(counts@),
            forall|j: u32|
                k <= j < shader::STAGE_COUNT ==> #[trigger] count_of(counts@, j) == count_of(
                    before,
                    j,
                ),
            forall|j: u32|
                j < k ==> #[trigger] count_of(counts@, j) == count_of(before, j)
                    + if shader::has_bit(stages.bits, j) {
                    n as nat
                } else {
                    0
                },
        decreases shader::STAGE_COUNT - k,
    {
        if stages.has(k) {
            let ghost current = counts@;
            assert(count_of(current, k) == count_of(before, k));
            match outside::value_mut(counts, k) {
                Some(count) => {
                    if *count > u32::MAX - n {
                        assert(count_of(before, k) + n > u32::MAX);
                        return false;
                    }
                    *count = *count + n;
                },
                None => {
                    outside::insert_value(counts, k, n);
                },
            }
            proof {
                assert forall|j: u32| j != k implies #[trigger] count_of(counts@, j) == count_of(
                    current,
                    j,
                ) by {}
            }
        }
        k = k + 1;
    }
    true
}

/// Adds a binding to the counts of each stage, for each limit that applies to it.
fn add_binding_to_stages(
    per_stage: &mut Vec<ahash::HashMap<u32, u32>>,
    stage_limits: &Vec<DescriptorLimit>,
    binding: &DescriptorSetLayoutBinding,
) -> (fits: bool)
    requires
        old(per_stage).len() == stage_limits.len(),
        forall|l: int| 0 <= l < old(per_stage).len() ==> stages_only((#[trigger] old(per_stage)@[l])@),
    ensures
        final(per_stage).len() == stage_limits.len(),
        forall|l: int|
            0 <= l < final(per_stage).len() ==> stages_only((#[trigger] final(per_stage)@[l])@),
        fits ==> forall|l: int, k: u32|
            0 <= l < stage_limits.len() && k < shader::STAGE_COUNT ==> #[trigger] count_of(
                final(per_stage)@[l]@,
                k,
            ) == count_of(old(per_stage)@[l]@, k) + of_types_in_stage(
                stage_limits@[l]@.descriptor_types,
                k,
            )(*binding),
        !fits ==> exists|l: int, k: u32|
            0 <= l < stage_limits.len() && k < shader::STAGE_COUNT && #[trigger] count_of(
                old(per_stage)@[l]@,
                k,
            ) + of_types_in_stage(stage_limits@[l]@.descriptor_types, k)(*binding) > u32::MAX,
{
    let ghost before = per_stage@;
    let mut l: usize = 0;
    while l < stage_limits.len()
        invariant
            l <= stage_limits.len(),
            before == old(per_stage)@,
            before.len() == stage_limits.len(),
            per_stage.len() == stage_limits.len(),
            forall|i: int|
                0 <= i < per_stage.len() ==> stages_only((#[trigger] per_stage@[i])@),
            forall|i: int| l <= i < per_stage.len() ==> #[trigger] per_stage@[i] == before[i],
            forall|i: int, k: u32|
                0 <= i < l && k < shader::STAGE_COUNT ==> #[trigger] count_of(per_stage@[i]@, k)
                    == count_of(before[i]@, k) + of_types_in_stage(
                    stage_limits@[i]@.descriptor_types,
                    k,
                )(*binding),
        decreases stage_limits.len() - l,
    {
        let ghost current = per_stage@;
        assert(current[l as int] == before[l as int]);
        if requirements::has_type(&stage_limits[l].descriptor_types, binding.descriptor_type) {
            let counts = &mut per_stage[l];
            let fits = add_to_stages(counts, binding.stages, binding.descriptor_count);
            assert(stages_only(per_stage@[l as int]@));
            if !fits {
                proof {
                    let k = choose|k: u32|
                        k < shader::STAGE_COUNT && shader::has_bit(binding.stages.bits, k)
                            && #[trigger] count_of(before[l as int]@, k)
                            + binding.descriptor_count > u32::MAX;
                    assert(count_of(before[l as int]@, k) + of_types_in_stage(
                        stage_limits@[l as int]@.descriptor_types,
                        k,
                    )(*binding) > u32::MAX);
                    assert forall|i: int| 0 <= i < per_stage.len() implies stages_only(
                        (#[trigger] per_stage@[i])@,
                    ) by {
                        if i != l {
                            assert(per_stage@[i] == current[i]);
                        }
                    }
                }
                return false;
            }
        }
        proof {
            assert forall|i: int| 0 <= i < per_stage.len() && i != l implies #[trigger] per_stage@[i]
                == current[i] by {}
        }
        l = l + 1;
    }
    true
}

/// Adds a binding to the counts over all stages, for each limit that applies to it.
fn add_binding_to_totals(
    totals: &mut Vec<u32>,
    total_limits: &Vec<DescriptorLimit>,
    binding: &DescriptorSetLayoutBinding,
) -> (fits: bool)
    requires
        old(totals).len() == total_limits.len(),
    ensures
        final(totals).len() == total_limits.len(),
        fits ==> forall|l: int|
            0 <= l < total_limits.len() ==> #[trigger] final(totals)@[l] == old(totals)@[l]
                + of_types(total_limits@[l]@.descriptor_types)(*binding),
        !fits ==> exists|l: int|
            0 <= l < total_limits.len() && #[trigger] old(totals)@[l] + of_types(
                total_limits@[l]@.descriptor_types,
            )(*binding) > u32::MAX,
{
    let ghost before = totals@;
    let mut l: usize = 0;
    while l < total_limits.len()
        invariant
            l <= total_limits.len(),
            before == old(totals)@,
            before.len() == total_limits.len(),
            totals.len() == total_limits.len(),
            forall|i: int| l <= i < totals.len() ==> #[trigger] totals@[i] == before[i],
            forall|i: int|
                0 <= i < l ==> #[trigger] totals@[i] == before[i] + of_types(
                    total_limits@[i]@.descriptor_types,
                )(*binding),
        decreases total_limits.len() - l,
    {
        if requirements::has_type(&total_limits[l].descriptor_types, binding.descriptor_type) {
            let value = totals[l];
            if value > u32::MAX - binding.descriptor_count {
                assert(before[l as int] + of_types(total_limits@[l as int]@.descriptor_types)(
                    *binding,
                ) > u32::MAX);
                return false;
            }
            totals[l] = value + binding.descriptor_count;
        }
        l = l + 1;
    }
    true
}

/// The counts of descriptors: for each limit on one stage a map from stage to count, and for each
/// limit on all stages a count.
pub(crate) struct DescriptorCounts {
    pub(crate) per_stage: Vec<ahash::HashMap<u32, u32>>,
    pub(crate) totals: Vec<u32>,
}

impl DescriptorCounts {
    /// Whether there is a count for each limit.
    pub(crate) open spec fn wf(
        self,
        stage_limits: Seq<DescriptorLimit>,
        total_limits: Seq<DescriptorLimit>,
    ) -> bool {
        &&& self.per_stage.len() == stage_limits.len()
        &&& self.totals.len() == total_limits.len()
        &&& forall|l: int|
            0 <= l < self.per_stage.len() ==> stages_only((#[trigger] self.per_stage@[l])@)
    }

    /// Whether these are the counts of the sets.
    pub(crate) open spec fn are_counts_of(
        self,
        stage_limits: Seq<DescriptorLimit>,
        total_limits: Seq<DescriptorLimit>,
        sets: Seq<Arc<DescriptorSetLayout>>,
    ) -> bool {
        &&& self.wf(stage_limits, total_limits)
        &&& forall|l: int, k: u32|
            0 <= l < stage_limits.len() && k < shader::STAGE_COUNT ==> #[trigger] count_of(
                self.per_stage@[l]@,
                k,
            ) == stage_count(stage_limits[l]@, k, sets)
        &&& forall|l: int|
            0 <= l < total_limits.len() ==> #[trigger] self.totals@[l] == total_count(
                total_limits[l]@,
                sets,
            )
    }

    fn new(stage_limits: &Vec<DescriptorLimit>, total_limits: &Vec<DescriptorLimit>) -> (counts:
        DescriptorCounts)
        ensures
            counts.are_counts_of(stage_limits@, total_limits@, Seq::empty()),
    {
        let mut per_stage: Vec<ahash::HashMap<u32, u32>> = Vec::new();
        let mut l: usize = 0;
        while l < stage_limits.len()
            invariant
                l <= stage_limits.len(),
                per_stage.len() == l,
                forall|i: int|
                    0 <= i < l ==> (#[trigger] per_stage@[i])@ == Map::<u32, u32>::empty(),
            decreases stage_limits.len() - l,
        {
            per_stage.push(Default::default());
            l = l + 1;
        }
        let mut totals: Vec<u32> = Vec::new();
        l = 0;
        while l < total_limits.len()
            invariant
                l <= total_limits.len(),
                totals.len() == l,
                forall|i: int| 0 <= i < l ==> #[trigger] totals@[i] == 0,
            decreases total_limits.len() - l,
        {
            totals.push(0);
            l = l + 1;
        }
        DescriptorCounts { per_stage, totals }
    }

    /// Adds the bindings of a set. Returns false if a count would leave the 32 bits.
    fn add_set(
        &mut self,
        stage_limits: &Vec<DescriptorLimit>,
        total_limits: &Vec<DescriptorLimit>,
        set: &DescriptorSetLayout,
    ) -> (fits: bool)
        requires
            old(self).wf(stage_limits@, total_limits@),
        ensures
            final(self).wf(stage_limits@, total_limits@),
            fits ==> forall|l: int, k: u32|
                0 <= l < stage_limits.len() && k < shader::STAGE_COUNT ==> #[trigger] count_of(
                    final(self).per_stage@[l]@,
                    k,
                ) == count_of(old(self).per_stage@[l]@, k) + sum_bindings(
                    set.bindings@,
                    of_types_in_stage(stage_limits@[l]@.descriptor_types, k),
                ),
            fits ==> forall|l: int|
                0 <= l < total_limits.len() ==> #[trigger] final(self).totals@[l] == old(
                    self,
                ).totals@[l] + sum_bindings(
                    set.bindings@,
                    of_types(total_limits@[l]@.descriptor_types),
                ),
            !fits ==> (exists|l: int, k: u32|
                0 <= l < stage_limits.len() && k < shader::STAGE_COUNT && #[trigger] count_of(
                    old(self).per_stage@[l]@,
                    k,
                ) + sum_bindings(
                    set.bindings@,
                    of_types_in_stage(stage_limits@[l]@.descriptor_types, k),
                ) > u32::MAX) || (exists|l: int|
                0 <= l < total_limits.len() && #[trigger] old(self).totals@[l] + sum_bindings(
                    set.bindings@,
                    of_types(total_limits@[l]@.descriptor_types),
                ) > u32::MAX),
    {
        let entries = descriptor_set::binding_entries(&set.bindings);
        let ghost stages_before = self.per_stage@;
        let ghost totals_before = self.totals@;
        let mut i: usize = 0;
        assert(entries@.take(0) =~= Seq::empty());
        while i < entries.len()
            invariant
                i <= entries.len(),
                self.wf(stage_limits@, total_limits@),
                descriptor_set::lists_bindings(entries@, set.bindings@),
                stages_before == old(self).per_stage@,
                totals_before == old(self).totals@,
                forall|l: int, k: u32|
                    0 <= l < stage_limits.len() && k < shader::STAGE_COUNT ==> #[trigger] count_of(
                        self.per_stage@[l]@,
                        k,
                    ) == count_of(stages_before[l]@, k) + sum_entries(
                        entries@.take(i as int),
                        of_types_in_stage(stage_limits@[l]@.descriptor_types, k),
                    ),
                forall|l: int|
                    0 <= l < total_limits.len() ==> #[trigger] self.totals@[l] == totals_before[l]
                        + sum_entries(
                        entries@.take(i as int),
                        of_types(total_limits@[l]@.descriptor_types),
                    ),
            decreases entries.len() - i,
        {
            let (_number, binding) = entries[i];
            let ghost stages_now = self.per_stage@;
            let ghost totals_now = self.totals@;
            proof {
                assert(entries@.take(i + 1).drop_last() =~= entries@.take(i as int));
                assert(entries@.take(i + 1).last() == entries@[i as int]);
            }
            if !add_binding_to_stages(&mut self.per_stage, stage_limits, binding) {
                proof {
                    let (l, k) = choose|l: int, k: u32|
                        0 <= l < stage_limits.len() && k < shader::STAGE_COUNT
                            && #[trigger] count_of(stages_now[l]@, k) + of_types_in_stage(
                            stage_limits@[l]@.descriptor_types,
                            k,
                        )(*binding) > u32::MAX;
                    let weight = of_types_in_stage(stage_limits@[l]@.descriptor_types, k);
                    lemma_sum_entries(entries@, set.bindings@, weight);
                    lemma_sum_entries_grows(entries@, weight, i + 1);
                    assert(count_of(stages_before[l]@, k) + sum_bindings(set.bindings@, weight)
                        > u32::MAX);
                }
                return false;
            }
            if !add_binding_to_totals(&mut self.totals, total_limits, binding) {
                proof {
                    let l = choose|l: int|
                        0 <= l < total_limits.len() && #[trigger] totals_now[l] + of_types(
                            total_limits@[l]@.descriptor_types,
                        )(*binding) > u32::MAX;
                    let weight = of_types(total_limits@[l]@.descriptor_types);
                    lemma_sum_entries(entries@, set.bindings@, weight);
                    lemma_sum_entries_grows(entries@, weight, i + 1);
                    assert(totals_before[l] + sum_bindings(set.bindings@, weight) > u32::MAX);
                }
                return false;
            }
            i = i + 1;
        }
        proof {
            assert(entries@.take(i as int) =~= entries@);
            assert forall|l: int, k: u32|
                0 <= l < stage_limits.len() && k < shader::STAGE_COUNT implies #[trigger] count_of(
                self.per_stage@[l]@,
                k,
            ) == count_of(stages_before[l]@, k) + sum_bindings(
                set.bindings@,
                of_types_in_stage(stage_limits@[l]@.descriptor_types, k),
            ) by {
                lemma_sum_entries(
                    entries@,
                    set.bindings@,
                    of_types_in_stage(stage_limits@[l]@.descriptor_types, k),
                );
            }
            assert forall|l: int| 0 <= l < total_limits.len() implies #[trigger] self.totals@[l]
                == totals_before[l] + sum_bindings(
                set.bindings@,
                of_types(total_limits@[l]@.descriptor_types),
            ) by {
                lemma_sum_entries(
                    entries@,
                    set.bindings@,
                    of_types(total_limits@[l]@.descriptor_types),
                );
            }
        }
        true
    }
}

/// What came of counting the descriptors of sets.
pub(crate) enum Counting {
    /// A set belongs to another device, or a count left the 32 bits.
    Undefined,
    /// There is a second push descriptor set.
    RepeatedPush,
    Counted(DescriptorCounts),
}

/// What is counted of the first sets does not depend on the others.
proof fn lemma_counted_sets(sets: Seq<Arc<DescriptorSetLayout>>, n: int)
    requires
        0 <= n <= sets.len(),
    ensures
        0 <= counted_sets(sets) <= sets.len(),
        counted_sets(sets.take(n)) < n ==> counted_sets(sets) == counted_sets(sets.take(n)),
        counted_sets(sets.take(n)) == n ==> counted_sets(sets) >= n,
        counted_sets(sets.take(n)) <= n,
    decreases sets.len(),
{
    if n == sets.len() {
        assert(sets.take(n) =~= sets);
        if n > 0 {
            lemma_counted_sets(sets.drop_last(), n - 1);
        }
    } else {
        assert(sets.drop_last().take(n) =~= sets.take(n));
        lemma_counted_sets(sets.drop_last(), n);
    }
}

/// Counts the descriptors of the sets in front of the second push descriptor set.
pub(crate) fn count_descriptors(
    device: &Device,
    sets: &Vec<Arc<DescriptorSetLayout>>,
    stage_limits: &Vec<DescriptorLimit>,
    total_limits: &Vec<DescriptorLimit>,
) -> (r: Counting)
    ensures
        r !is Undefined <==> countable(
            *device,
            limits::limit_views(stage_limits@),
            limits::limit_views(total_limits@),
            sets@,
        ),
        match r {
            Counting::Undefined => true,
            Counting::RepeatedPush => counted_sets(sets@) < sets.len(),
            Counting::Counted(counts) => counted_sets(sets@) == sets.len() && counts.are_counts_of(
                stage_limits@,
                total_limits@,
                sets@,
            ),
        },
{
    let mut counts = DescriptorCounts::new(stage_limits, total_limits);
    let mut has_push_descriptor_set = false;
    let mut i: usize = 0;
    let ghost stage_views = limits::limit_views(stage_limits@);
    let ghost total_views = limits::limit_views(total_limits@);
    assert(sets@.take(0) =~= Seq::empty());
    while i < sets.len()
        invariant
            i <= sets.len(),
            stage_views == limits::limit_views(stage_limits@),
            total_views == limits::limit_views(total_limits@),
            counts.are_counts_of(stage_limits@, total_limits@, sets@.take(i as int)),
            counted_sets(sets@.take(i as int)) == i,
            forall|j: int| 0 <= j < i ==> (#[trigger] sets@[j]).device.id == device.id,
            has_push_descriptor_set <==> exists|j: int|
                0 <= j < i && is_push(*(#[trigger] sets@[j])),
        decreases sets.len() - i,
    {
        let ghost before = sets@.take(i as int);
        let ghost after = sets@.take(i + 1);
        proof {
            assert(after.drop_last() =~= before);
            assert(after.last() == sets@[i as int]);
            assert(repeats_push(after, i as int) == (is_push(*sets@[i as int])
                && has_push_descriptor_set)) by {
                if has_push_descriptor_set {
                    let j = choose|j: int| 0 <= j < i && is_push(*(#[trigger] sets@[j]));
                    assert(is_push(*after[j]));
                }
                if exists|j: int| 0 <= j < i && is_push(*(#[trigger] after[j])) {
                    let j = choose|j: int| 0 <= j < i && is_push(*(#[trigger] after[j]));
                    assert(is_push(*sets@[j]));
                }
            }
            lemma_counted_sets(sets@, i + 1);
        }
        let set_layout = &sets[i];
        if set_layout.device.id != device.id {
            proof {
                lemma_counted_sets(sets@, i as int);
            }
            return Counting::Undefined;
        }
        if set_layout.flags.bits & descriptor_set::PUSH_DESCRIPTOR != 0 {
            if has_push_descriptor_set {
                proof {
                    lemma_counts_fit(counts, stage_limits@, total_limits@, before);
                }
                return Counting::RepeatedPush;
            }
            has_push_descriptor_set = true;
        }
        let ghost old_counts = counts;
        if !counts.add_set(stage_limits, total_limits, set_layout) {
            proof {
                let n = counted_sets(sets@);
                let all = sets@.take(n);
                assert(all.take(i + 1) =~= after);
                let set = *sets@[i as int];
                if exists|l: int, k: u32|
                    0 <= l < stage_limits.len() && k < shader::STAGE_COUNT && #[trigger] count_of(
                        old_counts.per_stage@[l]@,
                        k,
                    ) + sum_bindings(
                        set.bindings@,
                        of_types_in_stage(stage_limits@[l]@.descriptor_types, k),
                    ) > u32::MAX {
                    let (l, k) = choose|l: int, k: u32|
                        0 <= l < stage_limits.len() && k < shader::STAGE_COUNT
                            && #[trigger] count_of(old_counts.per_stage@[l]@, k) + sum_bindings(
                            set.bindings@,
                            of_types_in_stage(stage_limits@[l]@.descriptor_types, k),
                        ) > u32::MAX;
                    lemma_sum_sets_grows(
                        all,
                        of_types_in_stage(stage_limits@[l]@.descriptor_types, k),
                        i + 1,
                    );
                    assert(stage_views[l] == stage_limits@[l]@);
                    assert(stage_count(stage_views[l], k, all) > u32::MAX);
                } else {
                    let l = choose|l: int|
                        0 <= l < total_limits.len() && #[trigger] old_counts.totals@[l]
                            + sum_bindings(
                            set.bindings@,
                            of_types(total_limits@[l]@.descriptor_types),
                        ) > u32::MAX;
                    lemma_sum_sets_grows(
                        all,
                        of_types(total_limits@[l]@.descriptor_types),
                        i + 1,
                    );
                    assert(total_views[l] == total_limits@[l]@);
                    assert(total_count(total_views[l], all) > u32::MAX);
                }
            }
            return Counting::Undefined;
        }
        i = i + 1;
    }
    proof {
        assert(sets@.take(i as int) =~= sets@);
        lemma_counts_fit(counts, stage_limits@, total_limits@, sets@);
    }
    Counting::Counted(counts)
}

/// Counts that are held in 32 bits fit into them.
proof fn lemma_counts_fit(
    counts: DescriptorCounts,
    stage_limits: Seq<DescriptorLimit>,
    total_limits: Seq<DescriptorLimit>,
    sets: Seq<Arc<DescriptorSetLayout>>,
)
    requires
        counts.are_counts_of(stage_limits, total_limits, sets),
    ensures
        counts_fit(limits::limit_views(stage_limits), limits::limit_views(total_limits), sets),
{
    let stage_views = limits::limit_views(stage_limits);
    let total_views = limits::limit_views(total_limits);
    assert forall|l: int, k: u32|
        0 <= l < stage_views.len() && k < shader::STAGE_COUNT implies #[trigger] stage_count(
        stage_views[l],
        k,
        sets,
    ) <= u32::MAX by {
        assert(count_of(counts.per_stage@[l]@, k) == stage_count(stage_limits[l]@, k, sets));
    }
    assert forall|l: int| 0 <= l < total_views.len() implies total_count(
        #[trigger] total_views[l],
        sets,
    ) <= u32::MAX by {
        assert(counts.totals@[l] == total_count(total_limits[l]@, sets));
    }
}

/// Whether no stage has a higher count than the stage whose bit is at position `k`.
pub open spec fn is_highest(counts: Map<u32, u32>, k: u32) -> bool {
    forall|j: u32|
        j < shader::STAGE_COUNT ==> #[trigger] count_of(counts, j) <= count_of(counts, k)
}

/// A stage with the highest count, and that count; none if there are no counts.
fn highest_stage(counts: &ahash::HashMap<u32, u32>) -> (r: Option<(u32, u32)>)
    requires
        stages_only(counts@),
    ensures
        match r {
            Some((k, n)) => k < shader::STAGE_COUNT && count_of(counts@, k) == n && is_highest(
                counts@,
                k,
            ),
            None => forall|j: u32| #[trigger] count_of(counts@, j) == 0,
        },
{
    let entries = outside::map_entries(counts);
    let mut best: Option<(u32, u32)> = None;
    let mut i: usize = 0;
    while i < entries.len()
        invariant
            i <= entries.len(),
            best is None <==> i == 0,
            match best {
                Some((k, n)) => (exists|j: int|
                    0 <= j < i && (#[trigger] entries@[j]) == (&k, &n)) && forall|j: int|
                    0 <= j < i ==> *(#[trigger] entries@[j]).1 <= n,
                None => true,
            },
        decreases entries.len() - i,
    {
        let k = *entries[i].0;
        let n = *entries[i].1;
        let higher = match best {
            Some((_, m)) => n >= m,
            None => true,
        };
        if higher {
            assert(entries@[i as int] == (&k, &n));
            best = Some((k, n));
        }
        i = i + 1;
    }
    proof {
        assert forall|j: u32| true implies match best {
            Some((_, n)) => #[trigger] count_of(counts@, j) <= n,
            None => count_of(counts@, j) == 0,
        } by {
            if counts@.contains_key(j) {
                let x = choose|x: int| 0 <= x < entries.len() && *(#[trigger] entries@[x]).0 == j;
                assert(*entries@[x].1 == counts@[j]);
            }
        }
    }
    best
}

/// The first limit on one stage that a stage exceeds, with a stage that has the highest count.
pub(crate) fn first_stage_excess(
    per_stage: &Vec<ahash::HashMap<u32, u32>>,
    stage_limits: &Vec<DescriptorLimit>,
) -> (r: Option<(usize, u32)>)
    requires
        per_stage.len() == stage_limits.len(),
        forall|l: int| 0 <= l < per_stage.len() ==> stages_only((#[trigger] per_stage@[l])@),
    ensures
        match r {
            Some((l, k)) => {
                &&& l < stage_limits.len()
                &&& k < shader::STAGE_COUNT
                &&& count_of(per_stage@[l as int]@, k) > stage_limits@[l as int].limit
                &&& is_highest(per_stage@[l as int]@, k)
                &&& forall|i: int, j: u32|
                    0 <= i < l && j < shader::STAGE_COUNT ==> #[trigger] count_of(
                        per_stage@[i]@,
                        j,
                    ) <= stage_limits@[i].limit
            },
            None => forall|i: int, j: u32|
                0 <= i < stage_limits.len() && j < shader::STAGE_COUNT ==> #[trigger] count_of(
                    per_stage@[i]@,
                    j,
                ) <= stage_limits@[i].limit,
        },
{
    let mut l: usize = 0;
    while l < stage_limits.len()
        invariant
            l <= stage_limits.len(),
            per_stage.len() == stage_limits.len(),
            forall|i: int| 0 <= i < per_stage.len() ==> stages_only((#[trigger] per_stage@[i])@),
            forall|i: int, j: u32|
                0 <= i < l && j < shader::STAGE_COUNT ==> #[trigger] count_of(
                    per_stage@[i]@,
                    j,
                ) <= stage_limits@[i].limit,
        decreases stage_limits.len() - l,
    {
        assert(stages_only(per_stage@[l as int]@));
        if let Some((k, n)) = highest_stage(&per_stage[l]) {
            if n > stage_limits[l].limit {
                return Some((l, k));
            }
        }
        l = l + 1;
    }
    None
}

/// The first limit on all stages together that is exceeded.
pub(crate) fn first_total_excess(
    totals: &Vec<u32>,
    total_limits: &Vec<DescriptorLimit>,
) -> (r: Option<usize>)
    requires
        totals.len() == total_limits.len(),
    ensures
        match r {
            Some(l) => {
                &&& l < total_limits.len()
                &&& totals@[l as int] > total_limits@[l as int].limit
                &&& forall|i: int|
                    0 <= i < l ==> #[trigger] totals@[i] <= total_limits@[i].limit
            },
            None => forall|i: int|
                0 <= i < total_limits.len() ==> #[trigger] totals@[i]
                    <= total_limits@[i].limit,
        },
{
    let mut l: usize = 0;
    while l < total_limits.len()
        invariant
            l <= total_limits.len(),
            totals.len() == total_limits.len(),
            forall|i: int| 0 <= i < l ==> #[trigger] totals@[i] <= total_limits@[i].limit,
        decreases total_limits.len() - l,
    {
        if totals[l] > total_limits[l].limit {
            return Some(l);
        }
        l = l + 1;
    }
    None
}

/// All sets are counted exactly where at most one of them is a push descriptor set.
pub proof fn law_one_push_set(sets: Seq<Arc<DescriptorSetLayout>>)
    ensures
        0 <= counted_sets(sets) <= sets.len(),
        counted_sets(sets) == sets.len() <==> forall|i: int, j: int|
            0 <= i < j < sets.len() ==> !(is_push(*(#[trigger] sets[i])) && is_push(
                *(#[trigger] sets[j]),
            )),
    decreases sets.len(),
{
    if sets.len() > 0 {
        let rest = sets.drop_last();
        let n = sets.len() - 1;
        law_one_push_set(rest);
        assert forall|i: int| 0 <= i < n implies #[trigger] rest[i] == sets[i] by {}
        if counted_sets(sets) == sets.len() {
            assert forall|i: int, j: int| 0 <= i < j < sets.len() implies !(is_push(
                *(#[trigger] sets[i]),
            ) && is_push(*(#[trigger] sets[j]))) by {
                if j < n {
                    assert(!(is_push(*rest[i]) && is_push(*rest[j])));
                }
            }
        } else if counted_sets(rest) < n {
            let (i, j) = choose|i: int, j: int|
                0 <= i < j < rest.len() && is_push(*(#[trigger] rest[i])) && is_push(
                    *(#[trigger] rest[j]),
                );
            assert(is_push(*sets[i]) && is_push(*sets[j]));
        }
    }
}

/// A sum over no sets is zero; a sum over the sets of two lists is the sum over both lists.
pub proof fn law_sums_add_up(
    a: Seq<Arc<DescriptorSetLayout>>,
    b: Seq<Arc<DescriptorSetLayout>>,
    weight: spec_fn(DescriptorSetLayoutBinding) -> nat,
)
    ensures
        sum_sets(Seq::empty(), weight) == 0,
        sum_sets(a + b, weight) == sum_sets(a, weight) + sum_sets(b, weight),
    decreases b.len(),
{
    if b.len() == 0 {
        assert(a + b =~= a);
    } else {
        assert((a + b).drop_last() =~= a + b.drop_last());
        assert((a + b).last() == b.last());
        law_sums_add_up(a, b.drop_last(), weight);
    }
}

/// A sum over one set takes in each of its bindings once: nothing of a set without bindings, and of a
/// further binding its weight.
pub proof fn law_sum_over_bindings(
    set: Arc<DescriptorSetLayout>,
    m: Map<u32, DescriptorSetLayoutBinding>,
    k: u32,
    binding: DescriptorSetLayoutBinding,
    weight: spec_fn(DescriptorSetLayoutBinding) -> nat,
)
    requires
        m.dom().finite(),
        !m.contains_key(k),
    ensures
        sum_sets(seq![set], weight) == sum_bindings(set.bindings@, weight),
        sum_bindings(Map::empty(), weight) == 0,
        sum_bindings(m.insert(k, binding), weight) == sum_bindings(m, weight) + weight(binding),
{
    assert(seq![set].drop_last() =~= Seq::empty());
    assert(sum_sets(seq![set].drop_last(), weight) == 0);
    let none = Map::<u32, DescriptorSetLayoutBinding>::empty();
    let f = |sum: nat, n: u32| sum + weight(none[n]);
    assert(none.dom() =~= Set::<u32>::empty());
    vstd::set::fold::lemma_fold_empty(0nat, f);
    let more = m.insert(k, binding);
    let g = |sum: nat, n: u32| sum + weight(more[n]);
    let h = |sum: nat, n: u32| sum + weight(m[n]);
    assert(more.dom() =~= m.dom().insert(k));
    assert(vstd::set::fold::is_fun_commutative(g));
    vstd::set::fold::lemma_fold_insert(m.dom(), 0nat, g, k);
    lemma_fold_of_equal_weights(m.dom(), more, m, weight);
}

/// A sum over bindings depends on the bindings under the numbers that it is taken over only.
proof fn lemma_fold_of_equal_weights(
    numbers: Set<u32>,
    a: Map<u32, DescriptorSetLayoutBinding>,
    b: Map<u32, DescriptorSetLayoutBinding>,
    weight: spec_fn(DescriptorSetLayoutBinding) -> nat,
)
    requires
        numbers.finite(),
        forall|n: u32| #[trigger] numbers.contains(n) ==> a[n] == b[n],
    ensures
        numbers.fold(0nat, |sum: nat, n: u32| sum + weight(a[n])) == numbers.fold(
            0nat,
            |sum: nat, n: u32| sum + weight(b[n]),
        ),
    decreases numbers.len(),
{
    let f = |sum: nat, n: u32| sum + weight(a[n]);
    let g = |sum: nat, n: u32| sum + weight(b[n]);
    if numbers.len() == 0 {
        assert(numbers =~= Set::<u32>::empty());
        vstd::set::fold::lemma_fold_empty(0nat, f);
        vstd::set::fold::lemma_fold_empty(0nat, g);
    } else {
        let n = numbers.choose();
        let rest = numbers.remove(n);
        lemma_fold_of_equal_weights(rest, a, b, weight);
        assert(rest.insert(n) =~= numbers);
        assert(vstd::set::fold::is_fun_commutative(f));
        assert(vstd::set::fold::is_fun_commutative(g));
        vstd::set::fold::lemma_fold_insert(rest, 0nat, f, n);
        vstd::set::fold::lemma_fold_insert(rest, 0nat, g, n);
        assert(a[n] == b[n]);
    }
}

/// The number of descriptors of the types for which `types` holds, in all sets.
pub open spec fn number_in_total(
    sets: Seq<Arc<DescriptorSetLayout>>,
    types: spec_fn(DescriptorType) -> bool,
) -> nat {
    sum_sets(
        sets,
        |b: DescriptorSetLayoutBinding|
            if types(b.descriptor_type) {
                b.descriptor_count as nat
            } else {
                0
            },
    )
}

/// The number of descriptors of the types for which `types` holds, in all sets, that the stage whose
/// bit is at position `k` can access.
pub open spec fn number_in_stage(
    sets: Seq<Arc<DescriptorSetLayout>>,
    k: u32,
    types: spec_fn(DescriptorType) -> bool,
) -> nat {
    sum_sets(
        sets,
        |b: DescriptorSetLayoutBinding|
            if types(b.descriptor_type) && shader::has_bit(b.stages.bits, k) {
                b.descriptor_count as nat
            } else {
                0
            },
    )
}

/// What a limit applies to is the number of descriptors of its types.
pub(crate) proof fn lemma_numbers(
    limit: limits::LimitView,
    types: spec_fn(DescriptorType) -> bool,
    sets: Seq<Arc<DescriptorSetLayout>>,
)
    requires
        forall|t: DescriptorType| #[trigger] limit.descriptor_types.contains(t) == types(t),
    ensures
        total_count(limit, sets) == number_in_total(sets, types),
        forall|k: u32|
            #[trigger] stage_count(limit, k, sets) == number_in_stage(sets, k, types),
{
    let w = |b: DescriptorSetLayoutBinding|
        if types(b.descriptor_type) {
            b.descriptor_count as nat
        } else {
            0
        };
    assert(of_types(limit.descriptor_types) =~= w);
    assert forall|k: u32| #[trigger] stage_count(limit, k, sets) == number_in_stage(
        sets,
        k,
        types,
    ) by {
        let v = |b: DescriptorSetLayoutBinding|
            if types(b.descriptor_type) && shader::has_bit(b.stages.bits, k) {
                b.descriptor_count as nat
            } else {
                0
            };
        assert(of_types_in_stage(limit.descriptor_types, k) =~= v);
    }
}

/// A sum of descriptor counts over some bindings of the first sets is at most the number of
/// descriptors in all sets.
pub(crate) proof fn lemma_part_of_all(
    sets: Seq<Arc<DescriptorSetLayout>>,
    n: int,
    weight: spec_fn(DescriptorSetLayoutBinding) -> nat,
)
    requires
        0 <= n <= sets.len(),
        forall|b: DescriptorSetLayoutBinding| #[trigger] weight(b) <= b.descriptor_count,
    ensures
        sum_sets(sets.take(n), weight) <= number_in_total(sets, |t: DescriptorType| true),
{
    lemma_sum_sets_grows(sets, weight, n);
    let all = |t: DescriptorType| true;
    let whole = |b: DescriptorSetLayoutBinding|
        if all(b.descriptor_type) {
            b.descriptor_count as nat
        } else {
            0
        };
    lemma_sum_sets_of_less(sets, weight, whole);
}

/// Lower weights have a lower sum.
proof fn lemma_sum_sets_of_less(
    sets: Seq<Arc<DescriptorSetLayout>>,
    less: spec_fn(DescriptorSetLayoutBinding) -> nat,
    more: spec_fn(DescriptorSetLayoutBinding) -> nat,
)
    requires
        forall|b: DescriptorSetLayoutBinding| #[trigger] less(b) <= more(b),
    ensures
        sum_sets(sets, less) <= sum_sets(sets, more),
    decreases sets.len(),
{
    if sets.len() > 0 {
        lemma_sum_sets_of_less(sets.drop_last(), less, more);
        let m = sets.last().bindings@;
        lemma_fold_of_less(m.dom(), m, less, more);
    }
}

proof fn lemma_fold_of_less(
    numbers: Set<u32>,
    m: Map<u32, DescriptorSetLayoutBinding>,
    less: spec_fn(DescriptorSetLayoutBinding) -> nat,
    more: spec_fn(DescriptorSetLayoutBinding) -> nat,
)
    requires
        numbers.finite(),
        forall|b: DescriptorSetLayoutBinding| #[trigger] less(b) <= more(b),
    ensures
        numbers.fold(0nat, |sum: nat, n: u32| sum + less(m[n])) <= numbers.fold(
            0nat,
            |sum: nat, n: u32| sum + more(m[n]),
        ),
    decreases numbers.len(),
{
    let f = |sum: nat, n: u32| sum + less(m[n]);
    let g = |sum: nat, n: u32| sum + more(m[n]);
    if numbers.len() == 0 {
        assert(numbers =~= Set::<u32>::empty());
        vstd::set::fold::lemma_fold_empty(0nat, f);
        vstd::set::fold::lemma_fold_empty(0nat, g);
    } else {
        let n = numbers.choose();
        let rest = numbers.remove(n);
        lemma_fold_of_less(rest, m, less, more);
        assert(rest.insert(n) =~= numbers);
        assert(vstd::set::fold::is_fun_commutative(f));
        assert(vstd::set::fold::is_fun_commutative(g));
        vstd::set::fold::lemma_fold_insert(rest, 0nat, f, n);
        vstd::set::fold::lemma_fold_insert(rest, 0nat, g, n);
        assert(less(m[n]) <= more(m[n]));
    }
}

/// The sets that are counted are those in front of the second push descriptor set.
pub(crate) proof fn lemma_second_push_set(sets: Seq<Arc<DescriptorSetLayout>>, n: int)
    requires
        0 <= n < sets.len(),
        is_push(*sets[n]),
        exists|i: int| 0 <= i < n && is_push(*(#[trigger] sets[i])),
        forall|i: int, j: int|
            0 <= i < j < n ==> !(is_push(*(#[trigger] sets[i])) && is_push(*(#[trigger] sets[j]))),
    ensures
        counted_sets(sets) == n,
{
    let before = sets.take(n);
    let head = sets.take(n + 1);
    law_one_push_set(before);
    assert forall|i: int, j: int| 0 <= i < j < before.len() implies !(is_push(
        *(#[trigger] before[i]),
    ) && is_push(*(#[trigger] before[j]))) by {
        assert(!(is_push(*sets[i]) && is_push(*sets[j])));
    }
    assert(head.drop_last() =~= before);
    let i = choose|i: int| 0 <= i < n && is_push(*(#[trigger] sets[i]));
    assert(is_push(*head[i]));
    assert(head[n] == sets[n]);
    assert(repeats_push(head, n));
    lemma_counted_sets(sets, n + 1);
}

} // verus!
