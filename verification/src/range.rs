//! Push constant ranges: their order, and their split into pieces that do not overlap.
use vstd::prelude::*;
use vstd::relations::*;
use vstd::seq_lib::*;

use crate::device;
use crate::device::Device;
use crate::error;
use crate::error::ValidationError;
use crate::outside;
use crate::shader;
use crate::shader::ShaderStages;

verus! {

/// Description of a range of the push constants of a pipeline layout.
#[derive(Clone, Copy, Debug, PartialEq, Eq, Structural)]
pub struct PushConstantRange {
    /// The stages which can access this range. A stage can access at most one push constant range.
    ///
    /// The default value is the empty set, which must be overridden.
    pub stages: ShaderStages,
    /// Offset in bytes from the start of the push constants to this range.
    ///
    /// The value must be a multiple of 4.
    ///
    /// The default value is `0`.
    pub offset: u32,
    /// Size in bytes of the range.
    ///
    /// The value must be a multiple of 4, and not 0.
    ///
    /// The default value is `0`, which must be overridden.
    pub size: u32,
}

impl PushConstantRange {
    /// The first byte behind the range.
    pub open spec fn end(self) -> int {
        self.offset + self.size
    }

    /// Whether `byte` lies in the range.
    pub open spec fn covers(self, byte: int) -> bool {
        self.offset <= byte < self.end()
    }
}

impl Default for PushConstantRange {
    fn default() -> (r: PushConstantRange)
        ensures
            r.stages.bits == 0,
            r.offset == 0,
            r.size == 0,
    {
        PushConstantRange { stages: ShaderStages::empty(), offset: 0, size: 0 }
    }
}

/// The first rule that a range breaks on a device, if there is one.
pub open spec fn range_error(range: PushConstantRange, device: Device) -> Option<
    error::ErrorView,
> {
    let max = device.properties.max_push_constants_size;
    match device::missing_for(device.unsupported_stages@, range.stages.bits) {
        Some(requirement) => Some(
            error::lacking(
                "stages"@,
                requirement,
                "VUID-VkPushConstantRange-stageFlags-parameter"@,
            ),
        ),
        None => if range.stages.bits == 0 {
            Some(
                error::broken_rule(
                    "stages"@,
                    "is empty"@,
                    "VUID-VkPushConstantRange-stageFlags-requiredbitmask"@,
                ),
            )
        } else if range.offset >= max {
            Some(
                error::broken_rule(
                    "offset"@,
                    "is not less than the max_push_constants_size limit"@,
                    "VUID-VkPushConstantRange-offset-00294"@,
                ),
            )
        } else if range.offset % 4 != 0 {
            Some(
                error::broken_rule(
                    "offset"@,
                    "is not a multiple of 4"@,
                    "VUID-VkPushConstantRange-offset-00295"@,
                ),
            )
        } else if range.size == 0 {
            Some(
                error::broken_rule(
                    "size"@,
                    "is zero"@,
                    "VUID-VkPushConstantRange-size-00296"@,
                ),
            )
        } else if range.size % 4 != 0 {
            Some(
                error::broken_rule(
                    "size"@,
                    "is not a multiple of 4"@,
                    "VUID-VkPushConstantRange-size-00297"@,
                ),
            )
        } else if range.end() > max {
            Some(
                error::broken_rule(
                    Seq::empty(),
                    "size is greater than max_push_constants_size limit minus offset"@,
                    "VUID-VkPushConstantRange-size-00298"@,
                ),
            )
        } else {
            None
        },
    }
}

impl PushConstantRange {
    /// Checks the range against the rules of the API and the limits of `device`.
    pub fn validate(&self, device: &Device) -> (r: Result<(), ValidationError>)
        ensures
            match r {
                Ok(_) => range_error(*self, *device) is None,
                Err(e) => range_error(*self, *device) == Some(e@),
            },
    {
        let PushConstantRange { stages, offset, size } = *self;
        match device::check_flags(&device.unsupported_stages, stages.bits) {
            Ok(_) => {},
            Err(err) => {
                return Err(
                    ValidationError::lacking(
                        "stages",
                        err,
                        "VUID-VkPushConstantRange-stageFlags-parameter",
                    ),
                );
            },
        }
        if stages.is_empty() {
            return Err(
                ValidationError::new(
                    "stages",
                    "is empty".to_owned(),
                    "VUID-VkPushConstantRange-stageFlags-requiredbitmask",
                ),
            );
        }
        let max_push_constants_size = device.properties.max_push_constants_size;
        if offset >= max_push_constants_size {
            return Err(
                ValidationError::new(
                    "offset",
                    "is not less than the max_push_constants_size limit".to_owned(),
                    "VUID-VkPushConstantRange-offset-00294",
                ),
            );
        }
        if offset % 4 != 0 {
            return Err(
                ValidationError::new(
                    "offset",
                    "is not a multiple of 4".to_owned(),
                    "VUID-VkPushConstantRange-offset-00295",
                ),
            );
        }
        if size == 0 {
            return Err(
                ValidationError::new(
                    "size",
                    "is zero".to_owned(),
                    "VUID-VkPushConstantRange-size-00296",
                ),
            );
        }
        if size % 4 != 0 {
            return Err(
                ValidationError::new(
                    "size",
                    "is not a multiple of 4".to_owned(),
                    "VUID-VkPushConstantRange-size-00297",
                ),
            );
        }
        if size > max_push_constants_size - offset {
            proof {
                reveal_strlit("");
                assert(""@ =~= Seq::<char>::empty());
            }
            return Err(
                ValidationError::new(
                    "",
                    "size is greater than max_push_constants_size limit minus offset".to_owned(),
                    "VUID-VkPushConstantRange-size-00298",
                ),
            );
        }
        Ok(())
    }
}

/// Whether every range ends within the 32-bit offsets.
pub open spec fn ends_fit(ranges: Seq<PushConstantRange>) -> bool {
    forall|i: int| 0 <= i < ranges.len() ==> (#[trigger] ranges[i]).end() <= u32::MAX
}

/// Whether no two ranges have a stage in common.
pub open spec fn share_no_stage(ranges: Seq<PushConstantRange>) -> bool {
    forall|i: int, j: int|
        0 <= i < j < ranges.len() ==> !shader::masks_meet(
            (#[trigger] ranges[i]).stages.bits,
            (#[trigger] ranges[j]).stages.bits,
        )
}

/// Whether `a` may stand before `b`: ranges are ordered by offset, then size, then stage mask.
pub open spec fn key_le(a: PushConstantRange, b: PushConstantRange) -> bool {
    ||| a.offset < b.offset
    ||| a.offset == b.offset && a.size < b.size
    ||| a.offset == b.offset && a.size == b.size && a.stages.bits <= b.stages.bits
}

/// Whether the ranges stand in order of offset, then size, then stage mask.
pub open spec fn in_key_order(ranges: Seq<PushConstantRange>) -> bool {
    forall|i: int, j: int| 0 <= i < j < ranges.len() ==> key_le(ranges[i], ranges[j])
}

/// The union of the stages of all ranges that cover `byte`.
pub open spec fn stages_at(ranges: Seq<PushConstantRange>, byte: int) -> u32
    decreases ranges.len(),
{
    if ranges.len() == 0 {
        0
    } else {
        let rest = stages_at(ranges.drop_last(), byte);
        if ranges.last().covers(byte) {
            rest | ranges.last().stages.bits
        } else {
            rest
        }
    }
}

/// Whether some range starts or ends at `x`.
pub open spec fn is_cut(ranges: Seq<PushConstantRange>, x: int) -> bool {
    exists|i: int|
        0 <= i < ranges.len() && (ranges[i].offset == x || (#[trigger] ranges[i]).end() == x)
}

/// Whether `piece` runs from a cut to the next cut behind it, with the stages of its first byte, of
/// which there are some.
pub open spec fn is_piece(ranges: Seq<PushConstantRange>, piece: PushConstantRange) -> bool {
    &&& piece.stages.bits == stages_at(ranges, piece.offset as int)
    &&& piece.stages.bits != 0
    &&& piece.size > 0
    &&& piece.end() <= u32::MAX
    &&& is_cut(ranges, piece.offset as int)
    &&& is_cut(ranges, piece.end())
    &&& forall|x: int| piece.offset < x < piece.end() ==> !is_cut(ranges, x)
}

/// Whether some piece covers `byte`.
pub open spec fn in_some_piece(pieces: Seq<PushConstantRange>, byte: int) -> bool {
    exists|i: int| 0 <= i < pieces.len() && (#[trigger] pieces[i]).covers(byte)
}

/// Whether the pieces are in order and do not overlap.
pub open spec fn in_disjoint_order(pieces: Seq<PushConstantRange>) -> bool {
    forall|i: int, j: int|
        0 <= i < j < pieces.len() ==> (#[trigger] pieces[i]).end() <= (#[trigger] pieces[j]).offset
}

/// Whether `pieces` are what `ranges` split into: pieces in order, which do not overlap, and among
/// which is every byte that a stage accesses.
pub open spec fn is_disjoint_split(
    ranges: Seq<PushConstantRange>,
    pieces: Seq<PushConstantRange>,
) -> bool {
    &&& forall|i: int| 0 <= i < pieces.len() ==> is_piece(ranges, #[trigger] pieces[i])
    &&& in_disjoint_order(pieces)
    &&& forall|byte: int| #[trigger] stages_at(ranges, byte) != 0 ==> in_some_piece(pieces, byte)
}

/// Ranges that do not cover a byte add nothing to its stages.
proof fn lemma_stages_prefix(ranges: Seq<PushConstantRange>, n: int, byte: int)
    requires
        0 <= n <= ranges.len(),
        forall|j: int| n <= j < ranges.len() ==> !(#[trigger] ranges[j]).covers(byte),
    ensures
        stages_at(ranges.take(n), byte) == stages_at(ranges, byte),
    decreases ranges.len(),
{
    if n == ranges.len() {
        assert(ranges.take(n) =~= ranges);
    } else {
        let rest = ranges.drop_last();
        assert(rest.take(n) =~= ranges.take(n));
        assert forall|j: int| n <= j < rest.len() implies !(#[trigger] rest[j]).covers(byte) by {
            assert(rest[j] == ranges[j]);
        }
        lemma_stages_prefix(rest, n, byte);
    }
}

/// A byte that some stage accesses is covered by a range.
proof fn lemma_stages_covered(ranges: Seq<PushConstantRange>, byte: int)
    requires
        stages_at(ranges, byte) != 0,
    ensures
        exists|i: int| 0 <= i < ranges.len() && (#[trigger] ranges[i]).covers(byte),
    decreases ranges.len(),
{
    if ranges.len() > 0 {
        if ranges.last().covers(byte) {
            assert(ranges[ranges.len() - 1].covers(byte));
        } else {
            lemma_stages_covered(ranges.drop_last(), byte);
            let i = choose|i: int|
                0 <= i < ranges.len() - 1 && (#[trigger] ranges.drop_last()[i]).covers(byte);
            assert(ranges[i].covers(byte));
        }
    }
}

/// Where no range starts or ends behind `a` and up to `b`, both bytes have the same stages.
proof fn lemma_stages_constant(ranges: Seq<PushConstantRange>, a: int, b: int)
    requires
        a <= b,
        forall|i: int|
            0 <= i < ranges.len() ==> !(a < (#[trigger] ranges[i]).offset <= b) && !(a
                < ranges[i].end() <= b),
    ensures
        stages_at(ranges, a) == stages_at(ranges, b),
    decreases ranges.len(),
{
    if ranges.len() > 0 {
        let rest = ranges.drop_last();
        assert forall|i: int| 0 <= i < rest.len() implies !(a < (#[trigger] rest[i]).offset <= b)
            && !(a < rest[i].end() <= b) by {
            assert(rest[i] == ranges[i]);
        }
        lemma_stages_constant(rest, a, b);
        assert(ranges.last() == ranges[ranges.len() - 1]);
    }
}

/// Bytes with no cut between them have the same stages.
proof fn lemma_stages_between_cuts(ranges: Seq<PushConstantRange>, a: int, b: int)
    requires
        a <= b,
        forall|x: int| a < x <= b ==> !is_cut(ranges, x),
    ensures
        stages_at(ranges, a) == stages_at(ranges, b),
{
    assert forall|i: int| 0 <= i < ranges.len() implies !(a < (#[trigger] ranges[i]).offset <= b)
        && !(a < ranges[i].end() <= b) by {
        if a < ranges[i].offset <= b {
            assert(is_cut(ranges, ranges[i].offset as int));
        }
        if a < ranges[i].end() <= b {
            assert(is_cut(ranges, ranges[i].end()));
        }
    }
    lemma_stages_constant(ranges, a, b);
}

/// No stage accesses a byte in front of the first of ordered ranges.
proof fn lemma_nothing_before(ranges: Seq<PushConstantRange>, byte: int)
    requires
        in_key_order(ranges),
        ranges.len() > 0,
        byte < ranges[0].offset,
    ensures
        stages_at(ranges, byte) == 0,
{
    if stages_at(ranges, byte) != 0 {
        lemma_stages_covered(ranges, byte);
        let i = choose|i: int| 0 <= i < ranges.len() && (#[trigger] ranges[i]).covers(byte);
        if i > 0 {
            assert(key_le(ranges[0], ranges[i]));
        }
    }
}

/// Whether the ends fit does not depend on the order of the ranges.
pub proof fn lemma_same_contents_fit(a: Seq<PushConstantRange>, b: Seq<PushConstantRange>)
    requires
        a.to_multiset() == b.to_multiset(),
        ends_fit(a),
    ensures
        ends_fit(b),
{
    broadcast use group_to_multiset_ensures;

    assert forall|i: int| 0 <= i < b.len() implies (#[trigger] b[i]).end() <= u32::MAX by {
        assert(b.contains(b[i]));
        assert(b.to_multiset().count(b[i]) > 0);
        assert(a.contains(b[i]));
        let j = choose|j: int| 0 <= j < a.len() && a[j] == b[i];
        assert(a[j].end() <= u32::MAX);
    }
}

/// Inserting a range adds it to the contents.
proof fn lemma_insert_contents(ranges: Seq<PushConstantRange>, i: int, range: PushConstantRange)
    requires
        0 <= i <= ranges.len(),
    ensures
        ranges.insert(i, range).to_multiset() == ranges.to_multiset().insert(range),
{
    broadcast use group_to_multiset_ensures;

    let more = ranges.insert(i, range);
    assert(more.remove(i) =~= ranges);
    assert(more[i] == range);
    assert(more.to_multiset().remove(range) == ranges.to_multiset());
    assert(more.to_multiset() =~= ranges.to_multiset().insert(range));
}

/// Whether `a` may stand before `b` in the order by offset, size and stage mask.
fn may_precede(a: &PushConstantRange, b: &PushConstantRange) -> (r: bool)
    ensures
        r == key_le(*a, *b),
{
    if a.offset != b.offset {
        a.offset < b.offset
    } else if a.size != b.size {
        a.size < b.size
    } else {
        outside::flags_at_most(a.stages.bits, b.stages.bits)
    }
}

/// Sorts ranges by offset, size, then stage mask.
pub fn sort_ranges(ranges: &Vec<PushConstantRange>) -> (sorted: Vec<PushConstantRange>)
    ensures
        in_key_order(sorted@),
        sorted@.to_multiset() == ranges@.to_multiset(),
{
    let mut sorted: Vec<PushConstantRange> = Vec::with_capacity(ranges.len());
    let mut n: usize = 0;
    assert(ranges@.take(0) =~= Seq::empty());
    while n < ranges.len()
        invariant
            n <= ranges.len(),
            sorted.len() == n,
            in_key_order(sorted@),
            sorted@.to_multiset() == ranges@.take(n as int).to_multiset(),
        decreases ranges.len() - n,
    {
        let range = ranges[n];
        let mut i: usize = sorted.len();
        while i > 0 && !may_precede(&sorted[i - 1], &range)
            invariant
                i <= sorted.len(),
                forall|j: int| i <= j < sorted.len() ==> !key_le(#[trigger] sorted@[j], range),
            decreases i,
        {
            i = i - 1;
        }
        let ghost before = sorted@;
        proof {
            lemma_insert_contents(before, i as int, range);
            to_multiset_build(ranges@.take(n as int), range);
            assert(ranges@.take(n + 1) =~= ranges@.take(n as int).push(range));
        }
        sorted.insert(i, range);
        proof {
            assert forall|x: int, y: int| 0 <= x < y < sorted.len() implies key_le(
                sorted@[x],
                sorted@[y],
            ) by {
                if x < i && y >= i {
                    if x < i - 1 {
                        assert(key_le(before[x], before[i - 1]));
                    }
                    if y > i {
                        assert(key_le(before[x], before[y - 1]));
                    }
                } else if x < i {
                    assert(key_le(before[x], before[y]));
                } else if x == i {
                    assert(!key_le(before[y - 1], range));
                } else {
                    assert(key_le(before[x - 1], before[y - 1]));
                }
            }
        }
        n = n + 1;
    }
    assert(ranges@.take(n as int) =~= ranges@);
    sorted
}

/// The stages of the byte at `min_offset`, and the next cut behind it. Where there are no such
/// stages, it may also be the last offset.
fn next_piece(ranges: &Vec<PushConstantRange>, min_offset: u32) -> (r: (ShaderStages, u32))
    requires
        in_key_order(ranges@),
        ends_fit(ranges@),
        is_cut(ranges@, min_offset as int),
    ensures
        r.0.bits == stages_at(ranges@, min_offset as int),
        r.0.bits != 0 ==> r.1 > min_offset && is_piece(
            ranges@,
            (PushConstantRange { stages: r.0, offset: min_offset, size: (r.1 - min_offset) as u32 }),
        ),
        r.0.bits == 0 ==> r.1 == u32::MAX || (r.1 > min_offset && is_cut(ranges@, r.1 as int)),
        r.0.bits == 0 ==> forall|byte: int|
            min_offset <= byte < r.1 ==> #[trigger] stages_at(ranges@, byte) == 0,
{
    let mut max_offset: u32 = u32::MAX;
    let mut stages = ShaderStages::empty();
    let mut i: usize = 0;
    let ghost mut bound: int = 0;
    while i < ranges.len()
        invariant_except_break
            i <= ranges.len(),
            bound == i,
            forall|j: int| 0 <= j < i ==> (#[trigger] ranges@[j]).offset <= min_offset,
            max_offset == u32::MAX || exists|j: int|
                0 <= j < i && (#[trigger] ranges@[j]).end() == max_offset,
        invariant
            in_key_order(ranges@),
            ends_fit(ranges@),
            0 <= bound <= ranges.len(),
            min_offset < max_offset || max_offset == u32::MAX,
            stages.bits == stages_at(ranges@.take(bound), min_offset as int),
            forall|j: int|
                0 <= j < bound && (#[trigger] ranges@[j]).covers(min_offset as int) ==> min_offset
                    < max_offset <= ranges@[j].end(),
            forall|j: int| 0 <= j < bound ==> (#[trigger] ranges@[j]).offset <= min_offset,
        ensures
            forall|j: int|
                bound <= j < ranges.len() ==> min_offset < max_offset <= (#[trigger] ranges@[j]).offset,
            max_offset == u32::MAX || is_cut(ranges@, max_offset as int),
        decreases ranges.len() - i,
    {
        let range = ranges[i];
        assert(ranges@.take(i + 1).drop_last() =~= ranges@.take(i as int));
        assert(ranges@[i as int].end() <= u32::MAX);
        // new start (begin next time from it)
        if range.offset > min_offset {
            proof {
                assert forall|j: int| i <= j < ranges.len() implies range.offset <= (
                #[trigger] ranges@[j]).offset by {
                    if j > i {
                        assert(key_le(ranges@[i as int], ranges@[j]));
                    }
                }
            }
            if range.offset < max_offset {
                max_offset = range.offset;
            }
            break;
        } else if range.offset + range.size > min_offset {
            // inside the range: take the lowest end of all ranges that overlap here
            if range.offset + range.size < max_offset {
                max_offset = range.offset + range.size;
            }
            stages = stages | range.stages;
        }
        i = i + 1;
        proof {
            bound = i as int;
        }
    }
    proof {
        assert forall|j: int| bound <= j < ranges.len() implies !(#[trigger] ranges@[j]).covers(
            min_offset as int,
        ) by {}
        lemma_stages_prefix(ranges@, bound, min_offset as int);
        assert forall|x: int| min_offset < x < max_offset implies !is_cut(ranges@, x) by {
            if is_cut(ranges@, x) {
                let j = choose|j: int|
                    0 <= j < ranges.len() && (ranges@[j].offset == x || (
                    #[trigger] ranges@[j]).end() == x);
                if j < bound {
                    assert(ranges@[j].offset <= min_offset);
                    assert(ranges@[j].covers(min_offset as int));
                }
            }
        }
        if stages.bits != 0 {
            lemma_stages_covered(ranges@, min_offset as int);
            let c = choose|c: int|
                0 <= c < ranges.len() && (#[trigger] ranges@[c]).covers(min_offset as int);
            assert(c < bound);
            assert(max_offset <= ranges@[c].end());
            if max_offset == u32::MAX {
                assert(ranges@[c].end() == max_offset);
            }
            assert(is_cut(ranges@, max_offset as int));
        } else {
            assert forall|byte: int| min_offset <= byte < max_offset implies #[trigger] stages_at(
                ranges@,
                byte,
            ) == 0 by {
                lemma_stages_between_cuts(ranges@, min_offset as int, byte);
            }
        }
    }
    (stages, max_offset)
}

/// Splits ordered ranges into pieces that do not overlap.
pub fn split_disjoint(ranges: &Vec<PushConstantRange>) -> (pieces: Vec<PushConstantRange>)
    requires
        in_key_order(ranges@),
        ends_fit(ranges@),
    ensures
        is_disjoint_split(ranges@, pieces@),
{
    let mut pieces: Vec<PushConstantRange> = Vec::with_capacity(ranges.len());
    if ranges.len() > 0 {
        let mut min_offset = ranges[0].offset;
        proof {
            assert(ranges@[0].offset == min_offset);
            assert forall|byte: int| byte < min_offset implies #[trigger] stages_at(ranges@, byte)
                == 0 by {
                lemma_nothing_before(ranges@, byte);
            }
        }
        loop
            invariant_except_break
                forall|byte: int|
                    byte < min_offset && #[trigger] stages_at(ranges@, byte) != 0 ==> in_some_piece(
                        pieces@,
                        byte,
                    ),
            invariant
                ranges.len() > 0,
                in_key_order(ranges@),
                ends_fit(ranges@),
                is_cut(ranges@, min_offset as int),
                forall|i: int| 0 <= i < pieces.len() ==> is_piece(ranges@, #[trigger] pieces@[i]),
                in_disjoint_order(pieces@),
                forall|i: int|
                    0 <= i < pieces.len() ==> (#[trigger] pieces@[i]).end() <= min_offset,
            ensures
                forall|byte: int|
                    #[trigger] stages_at(ranges@, byte) != 0 ==> in_some_piece(pieces@, byte),
            decreases u32::MAX - min_offset,
        {
            let (stages, max_offset) = next_piece(ranges, min_offset);
            let ghost before = pieces@;
            if stages.is_empty() {
                // finished all stages
                if max_offset == u32::MAX {
                    proof {
                        assert forall|byte: int| #[trigger]
                            stages_at(ranges@, byte) != 0 implies in_some_piece(pieces@, byte) by {
                            lemma_stages_covered(ranges@, byte);
                        }
                    }
                    break;
                }
            } else {
                pieces.push(
                    PushConstantRange { stages, offset: min_offset, size: max_offset - min_offset },
                );
            }
            proof {
                assert forall|byte: int|
                    byte < max_offset && #[trigger] stages_at(
                        ranges@,
                        byte,
                    ) != 0 implies in_some_piece(pieces@, byte) by {
                    if byte < min_offset {
                        let i = choose|i: int|
                            0 <= i < before.len() && (#[trigger] before[i]).covers(byte);
                        assert(pieces@[i].covers(byte));
                    } else {
                        assert(pieces@[before.len() as int].covers(byte));
                    }
                }
            }
            // prepare for next range
            min_offset = max_offset;
        }
    } else {
        assert forall|byte: int| #[trigger] stages_at(ranges@, byte) == 0 by {}
    }
    pieces
}

/// Two ordered lists that contain the same ranges have the same order.
pub proof fn law_order_is_canonical(a: Seq<PushConstantRange>, b: Seq<PushConstantRange>)
    requires
        in_key_order(a),
        in_key_order(b),
        a.to_multiset() == b.to_multiset(),
    ensures
        a == b,
{
    let leq = |x: PushConstantRange, y: PushConstantRange| key_le(x, y);
    assert(total_ordering(leq));
    assert(sorted_by(a, leq));
    assert(sorted_by(b, leq));
    lemma_sorted_unique(a, b, leq);
}

/// A stage accesses a byte exactly where one of the ranges that cover the byte has that stage.
pub proof fn law_stages_at_is_union(ranges: Seq<PushConstantRange>, byte: int, k: u32)
    requires
        k < 32,
    ensures
        shader::has_bit(stages_at(ranges, byte), k) <==> exists|i: int|
            0 <= i < ranges.len() && (#[trigger] ranges[i]).covers(byte) && shader::has_bit(
                ranges[i].stages.bits,
                k,
            ),
    decreases ranges.len(),
{
    if ranges.len() == 0 {
        shader::lemma_bit_of_nothing(k);
    } else {
        let rest = ranges.drop_last();
        law_stages_at_is_union(rest, byte, k);
        shader::lemma_union_bit(stages_at(rest, byte), ranges.last().stages.bits, k);
        if shader::has_bit(stages_at(ranges, byte), k) {
            if shader::has_bit(stages_at(rest, byte), k) {
                let i = choose|i: int|
                    0 <= i < rest.len() && (#[trigger] rest[i]).covers(byte) && shader::has_bit(
                        rest[i].stages.bits,
                        k,
                    );
                assert(ranges[i].covers(byte));
            } else {
                assert(ranges[ranges.len() - 1].covers(byte));
            }
        }
        if exists|i: int|
            0 <= i < ranges.len() && (#[trigger] ranges[i]).covers(byte) && shader::has_bit(
                ranges[i].stages.bits,
                k,
            ) {
            let i = choose|i: int|
                0 <= i < ranges.len() && (#[trigger] ranges[i]).covers(byte) && shader::has_bit(
                    ranges[i].stages.bits,
                    k,
                );
            if i < rest.len() {
                assert(rest[i].covers(byte));
            }
        }
    }
}

/// Two pieces of the same ranges with the same start are equal.
proof fn lemma_piece_unique(
    ranges: Seq<PushConstantRange>,
    p: PushConstantRange,
    q: PushConstantRange,
)
    requires
        is_piece(ranges, p),
        is_piece(ranges, q),
        p.offset == q.offset,
    ensures
        p == q,
{
    if p.end() < q.end() {
        assert(!is_cut(ranges, p.end()));
    }
    if q.end() < p.end() {
        assert(!is_cut(ranges, q.end()));
    }
}

/// Where one split has a piece and the two splits agree before it, the other split has a piece there
/// too, which starts no later.
proof fn lemma_next_piece(
    ranges: Seq<PushConstantRange>,
    p: Seq<PushConstantRange>,
    q: Seq<PushConstantRange>,
    i: int,
)
    requires
        is_disjoint_split(ranges, p),
        is_disjoint_split(ranges, q),
        0 <= i < p.len(),
        forall|j: int| 0 <= j < i && j < q.len() ==> #[trigger] q[j] == p[j],
    ensures
        i < q.len(),
        q[i].offset <= p[i].offset,
{
    let start = p[i].offset as int;
    assert(is_piece(ranges, p[i]));
    assert(stages_at(ranges, start) != 0);
    let j = choose|j: int| 0 <= j < q.len() && (#[trigger] q[j]).covers(start);
    assert(is_piece(ranges, q[j]));
    if j < i {
        assert(q[j] == p[j]);
        assert(p[j].end() <= p[i].offset);
    } else if j > i {
        assert(is_piece(ranges, q[i]));
        assert(q[i].end() <= q[j].offset);
    }
}

/// Two splits of the same ranges agree as far as both go.
proof fn lemma_splits_agree(
    ranges: Seq<PushConstantRange>,
    p: Seq<PushConstantRange>,
    q: Seq<PushConstantRange>,
    n: int,
)
    requires
        is_disjoint_split(ranges, p),
        is_disjoint_split(ranges, q),
        0 <= n <= p.len(),
        n <= q.len(),
    ensures
        forall|i: int| 0 <= i < n ==> #[trigger] p[i] == q[i],
    decreases n,
{
    if n > 0 {
        lemma_splits_agree(ranges, p, q, n - 1);
        lemma_next_piece(ranges, p, q, n - 1);
        lemma_next_piece(ranges, q, p, n - 1);
        assert(is_piece(ranges, p[n - 1]));
        assert(is_piece(ranges, q[n - 1]));
        lemma_piece_unique(ranges, p[n - 1], q[n - 1]);
    }
}

/// Ranges split into pieces in one way only.
pub proof fn law_split_is_unique(
    ranges: Seq<PushConstantRange>,
    p: Seq<PushConstantRange>,
    q: Seq<PushConstantRange>,
)
    requires
        is_disjoint_split(ranges, p),
        is_disjoint_split(ranges, q),
    ensures
        p == q,
{
    if p.len() <= q.len() {
        lemma_splits_agree(ranges, p, q, p.len() as int);
        if p.len() < q.len() {
            lemma_next_piece(ranges, q, p, p.len() as int);
        }
    } else {
        lemma_splits_agree(ranges, p, q, q.len() as int);
        lemma_next_piece(ranges, p, q, q.len() as int);
    }
    assert(p =~= q);
}

/// The pieces are sorted by offset, and no two of them overlap.
pub proof fn law_pieces_are_apart(
    ranges: Seq<PushConstantRange>,
    pieces: Seq<PushConstantRange>,
    i: int,
    j: int,
)
    requires
        is_disjoint_split(ranges, pieces),
        0 <= i < j < pieces.len(),
    ensures
        pieces[i].offset < pieces[j].offset,
        pieces[i].end() <= pieces[j].offset,
        forall|byte: int| !(pieces[i].covers(byte) && #[trigger] pieces[j].covers(byte)),
{
    assert(is_piece(ranges, pieces[i]));
    assert(is_piece(ranges, pieces[j]));
}

/// All bytes of a piece have the stages of the piece.
pub proof fn law_piece_has_the_stages_of_its_bytes(
    ranges: Seq<PushConstantRange>,
    pieces: Seq<PushConstantRange>,
    i: int,
    byte: int,
)
    requires
        is_disjoint_split(ranges, pieces),
        0 <= i < pieces.len(),
        pieces[i].covers(byte),
    ensures
        pieces[i].stages.bits == stages_at(ranges, byte),
{
    let piece = pieces[i];
    assert(is_piece(ranges, piece));
    lemma_stages_between_cuts(ranges, piece.offset as int, byte);
}

/// Every byte that a stage accesses is in a piece, and that piece has the stages that access it.
pub proof fn law_pieces_cover(
    ranges: Seq<PushConstantRange>,
    pieces: Seq<PushConstantRange>,
    byte: int,
)
    requires
        is_disjoint_split(ranges, pieces),
        stages_at(ranges, byte) != 0,
    ensures
        exists|i: int|
            0 <= i < pieces.len() && (#[trigger] pieces[i]).covers(byte) && pieces[i].stages.bits
                == stages_at(ranges, byte),
{
    let i = choose|i: int| 0 <= i < pieces.len() && (#[trigger] pieces[i]).covers(byte);
    law_piece_has_the_stages_of_its_bytes(ranges, pieces, i, byte);
}

/// Every byte of a piece is in one of the ranges.
pub proof fn law_pieces_add_nothing(
    ranges: Seq<PushConstantRange>,
    pieces: Seq<PushConstantRange>,
    i: int,
    byte: int,
)
    requires
        is_disjoint_split(ranges, pieces),
        0 <= i < pieces.len(),
        pieces[i].covers(byte),
    ensures
        exists|j: int| 0 <= j < ranges.len() && (#[trigger] ranges[j]).covers(byte),
{
    assert(is_piece(ranges, pieces[i]));
    law_piece_has_the_stages_of_its_bytes(ranges, pieces, i, byte);
    lemma_stages_covered(ranges, byte);
}

/// A stage that can access a byte finds it in a piece with that stage.
pub proof fn law_pieces_keep_all_ranges(
    ranges: Seq<PushConstantRange>,
    pieces: Seq<PushConstantRange>,
    r: int,
    byte: int,
    k: u32,
)
    requires
        is_disjoint_split(ranges, pieces),
        0 <= r < ranges.len(),
        ranges[r].covers(byte),
        k < 32,
        shader::has_bit(ranges[r].stages.bits, k),
    ensures
        exists|i: int|
            0 <= i < pieces.len() && (#[trigger] pieces[i]).covers(byte) && shader::has_bit(
                pieces[i].stages.bits,
                k,
            ),
{
    law_stages_at_is_union(ranges, byte, k);
    shader::lemma_bit_of_nothing(k);
    law_pieces_cover(ranges, pieces, byte);
}

/// Pieces of ranges whose offsets and sizes are multiples of 4 have offsets and sizes that are
/// multiples of 4.
pub proof fn law_pieces_are_aligned(
    ranges: Seq<PushConstantRange>,
    pieces: Seq<PushConstantRange>,
    i: int,
)
    requires
        is_disjoint_split(ranges, pieces),
        forall|j: int|
            0 <= j < ranges.len() ==> (#[trigger] ranges[j]).offset % 4 == 0 && ranges[j].size % 4
                == 0,
        0 <= i < pieces.len(),
    ensures
        pieces[i].offset % 4 == 0,
        pieces[i].size % 4 == 0,
{
    assert(is_piece(ranges, pieces[i]));
    lemma_cut_is_aligned(ranges, pieces[i].offset as int);
    lemma_cut_is_aligned(ranges, pieces[i].end());
}

/// Where all offsets and sizes are multiples of 4, so is every cut.
proof fn lemma_cut_is_aligned(ranges: Seq<PushConstantRange>, x: int)
    requires
        is_cut(ranges, x),
        forall|j: int|
            0 <= j < ranges.len() ==> (#[trigger] ranges[j]).offset % 4 == 0 && ranges[j].size % 4
                == 0,
    ensures
        x % 4 == 0,
{
    let j = choose|j: int|
        0 <= j < ranges.len() && (ranges[j].offset == x || (#[trigger] ranges[j]).end() == x);
    assert(ranges[j].offset % 4 == 0 && ranges[j].size % 4 == 0);
}

/// Whether a device supports all stages of a mask.
pub open spec fn stages_supported(device: Device, bits: u32) -> bool {
    forall|i: int|
        0 <= i < device.unsupported_stages@.len() ==> (#[trigger] device.unsupported_stages@[i]).flag
            & bits == 0
}

/// A range is accepted exactly where it has stages, the device supports all of them, its offset is a
/// multiple of 4 and less than the size of the push constants, its size is a multiple of 4 and not
/// zero, and it ends within the size of the push constants.
pub proof fn law_accepted_range(range: PushConstantRange, device: Device)
    ensures
        range_error(range, device) is None <==> {
            &&& range.stages.bits != 0
            &&& stages_supported(device, range.stages.bits)
            &&& range.offset % 4 == 0
            &&& range.offset < device.properties.max_push_constants_size
            &&& range.size % 4 == 0
            &&& range.size != 0
            &&& range.offset + range.size <= device.properties.max_push_constants_size
        },
{
    device::law_supported(device.unsupported_stages@, range.stages.bits);
}

/// A refused range is told the first rule that it breaks.
pub proof fn law_refused_range(range: PushConstantRange, device: Device)
    ensures
        !stages_supported(device, range.stages.bits) ==> {
            &&& range_error(range, device) is Some
            &&& range_error(range, device)->Some_0.context == "stages"@
            &&& range_error(range, device)->Some_0.vuids
                == seq!["VUID-VkPushConstantRange-stageFlags-parameter"@]
            &&& Some(range_error(range, device)->Some_0.problem) == match device::missing_for(
                device.unsupported_stages@,
                range.stages.bits,
            ) {
                Some(requirement) => Some(requirement.problem),
                None => None,
            }
        },
        stages_supported(device, range.stages.bits) ==> {
            let max = device.properties.max_push_constants_size;
            &&& range.stages.bits == 0 ==> is_told(
                range,
                device,
                "stages"@,
                "is empty"@,
                "VUID-VkPushConstantRange-stageFlags-requiredbitmask"@,
            )
            &&& range.stages.bits != 0 && range.offset >= max ==> is_told(
                range,
                device,
                "offset"@,
                "is not less than the max_push_constants_size limit"@,
                "VUID-VkPushConstantRange-offset-00294"@,
            )
            &&& range.stages.bits != 0 && range.offset < max && range.offset % 4 != 0 ==> is_told(
                range,
                device,
                "offset"@,
                "is not a multiple of 4"@,
                "VUID-VkPushConstantRange-offset-00295"@,
            )
            &&& range.stages.bits != 0 && range.offset < max && range.offset % 4 == 0 && range.size
                == 0 ==> is_told(
                range,
                device,
                "size"@,
                "is zero"@,
                "VUID-VkPushConstantRange-size-00296"@,
            )
            &&& range.stages.bits != 0 && range.offset < max && range.offset % 4 == 0 && range.size
                % 4 != 0 ==> is_told(
                range,
                device,
                "size"@,
                "is not a multiple of 4"@,
                "VUID-VkPushConstantRange-size-00297"@,
            )
            &&& range.stages.bits != 0 && range.offset < max && range.offset % 4 == 0 && range.size
                != 0 && range.size % 4 == 0 && range.offset + range.size > max ==> is_told(
                range,
                device,
                Seq::empty(),
                "size is greater than max_push_constants_size limit minus offset"@,
                "VUID-VkPushConstantRange-size-00298"@,
            )
        },
{
    device::law_supported(device.unsupported_stages@, range.stages.bits);
}

/// Whether a range is refused with this context, this problem and this rule.
pub open spec fn is_told(
    range: PushConstantRange,
    device: Device,
    context: Seq<char>,
    problem: Seq<char>,
    vuid: Seq<char>,
) -> bool {
    range_error(range, device) == Some(
        error::ErrorView {
            context,
            problem,
            requires_one_of: Seq::empty(),
            vuids: seq![vuid],
        },
    )
}

/// Of two ordered ranges the first one has the lower offset; or the same offset and the lower size;
/// or the same offset and size and no higher stage mask.
pub proof fn law_sorted(ranges: Seq<PushConstantRange>)
    ensures
        in_key_order(ranges) <==> forall|i: int, j: int|
            0 <= i < j < ranges.len() ==> {
                let a = #[trigger] ranges[i];
                let b = #[trigger] ranges[j];
                &&& a.offset <= b.offset
                &&& a.offset == b.offset ==> a.size <= b.size
                &&& a.offset == b.offset && a.size == b.size ==> a.stages.bits <= b.stages.bits
            },
{
    if in_key_order(ranges) {
        assert forall|i: int, j: int| 0 <= i < j < ranges.len() implies {
            let a = #[trigger] ranges[i];
            let b = #[trigger] ranges[j];
            &&& a.offset <= b.offset
            &&& a.offset == b.offset ==> a.size <= b.size
            &&& a.offset == b.offset && a.size == b.size ==> a.stages.bits <= b.stages.bits
        } by {
            assert(key_le(ranges[i], ranges[j]));
        }
    }
}

/// Whether one of the ranges lets the stage whose bit is at position `k` access `byte`.
pub open spec fn lets_access(list: Seq<PushConstantRange>, k: u32, byte: int) -> bool {
    exists|i: int|
        0 <= i < list.len() && (#[trigger] list[i]).offset <= byte < list[i].offset + list[i].size
            && shader::has_bit(list[i].stages.bits, k)
}

/// The pieces let each stage access exactly the bytes that the ranges let it access.
pub proof fn law_pieces_give_the_same_access(
    ranges: Seq<PushConstantRange>,
    pieces: Seq<PushConstantRange>,
    k: u32,
    byte: int,
)
    requires
        is_disjoint_split(ranges, pieces),
        k < 32,
    ensures
        lets_access(pieces, k, byte) <==> lets_access(ranges, k, byte),
{
    law_stages_at_is_union(ranges, byte, k);
    if lets_access(pieces, k, byte) {
        let i = choose|i: int|
            0 <= i < pieces.len() && (#[trigger] pieces[i]).offset <= byte < pieces[i].offset
                + pieces[i].size && shader::has_bit(pieces[i].stages.bits, k);
        assert(pieces[i].covers(byte));
        law_piece_has_the_stages_of_its_bytes(ranges, pieces, i, byte);
        let j = choose|j: int|
            0 <= j < ranges.len() && (#[trigger] ranges[j]).covers(byte) && shader::has_bit(
                ranges[j].stages.bits,
                k,
            );
        assert(ranges[j].covers(byte));
    }
    if lets_access(ranges, k, byte) {
        let j = choose|j: int|
            0 <= j < ranges.len() && (#[trigger] ranges[j]).offset <= byte < ranges[j].offset
                + ranges[j].size && shader::has_bit(ranges[j].stages.bits, k);
        assert(ranges[j].covers(byte));
        law_pieces_keep_all_ranges(ranges, pieces, j, byte, k);
        let i = choose|i: int|
            0 <= i < pieces.len() && (#[trigger] pieces[i]).covers(byte) && shader::has_bit(
                pieces[i].stages.bits,
                k,
            );
        assert(pieces[i].covers(byte));
    }
}

/// Whether the first byte of a range, or the first one behind it, is `x`.
pub open spec fn one_starts_or_ends_at(ranges: Seq<PushConstantRange>, x: int) -> bool {
    exists|j: int|
        0 <= j < ranges.len() && ((#[trigger] ranges[j]).offset == x || ranges[j].offset
            + ranges[j].size == x)
}

/// At a cut a range starts or ends.
proof fn lemma_cut(ranges: Seq<PushConstantRange>, x: int)
    requires
        is_cut(ranges, x),
    ensures
        one_starts_or_ends_at(ranges, x),
{
    let j = choose|j: int|
        0 <= j < ranges.len() && (ranges[j].offset == x || (#[trigger] ranges[j]).end() == x);
    assert(ranges[j].offset == x || ranges[j].end() == x);
}

/// Pieces have stages and bytes, do not overlap, stand in order of their offsets, start and end
/// where a range starts or ends, and have no such place within.
pub proof fn law_shape_of_pieces(ranges: Seq<PushConstantRange>, pieces: Seq<PushConstantRange>)
    requires
        is_disjoint_split(ranges, pieces),
    ensures
        forall|i: int|
            0 <= i < pieces.len() ==> (#[trigger] pieces[i]).size > 0 && pieces[i].stages.bits != 0,
        forall|i: int, j: int|
            0 <= i < j < pieces.len() ==> (#[trigger] pieces[i]).offset + pieces[i].size <= (
            #[trigger] pieces[j]).offset,
        forall|i: int|
            0 <= i < pieces.len() ==> one_starts_or_ends_at(
                ranges,
                (#[trigger] pieces[i]).offset as int,
            ) && one_starts_or_ends_at(ranges, pieces[i].offset + pieces[i].size),
        forall|i: int, j: int|
            0 <= i < pieces.len() && 0 <= j < ranges.len() ==> {
                let start = (#[trigger] pieces[i]).offset;
                let stop = start + pieces[i].size;
                &&& !(start < (#[trigger] ranges[j]).offset < stop)
                &&& !(start < ranges[j].offset + ranges[j].size < stop)
            },
{
    assert forall|i: int| 0 <= i < pieces.len() implies (#[trigger] pieces[i]).size > 0
        && pieces[i].stages.bits != 0 by {
        assert(is_piece(ranges, pieces[i]));
    }
    assert forall|i: int, j: int| 0 <= i < j < pieces.len() implies (#[trigger] pieces[i]).offset
        + pieces[i].size <= (#[trigger] pieces[j]).offset by {
        assert(pieces[i].end() <= pieces[j].offset);
    }
    assert forall|i: int| 0 <= i < pieces.len() implies one_starts_or_ends_at(
        ranges,
        (#[trigger] pieces[i]).offset as int,
    ) && one_starts_or_ends_at(ranges, pieces[i].offset + pieces[i].size) by {
        assert(is_piece(ranges, pieces[i]));
        lemma_cut(ranges, pieces[i].offset as int);
        lemma_cut(ranges, pieces[i].end());
    }
    assert forall|i: int, j: int| 0 <= i < pieces.len() && 0 <= j < ranges.len() implies {
        let start = (#[trigger] pieces[i]).offset;
        let stop = start + pieces[i].size;
        &&& !(start < (#[trigger] ranges[j]).offset < stop)
        &&& !(start < ranges[j].offset + ranges[j].size < stop)
    } by {
        assert(is_piece(ranges, pieces[i]));
        assert(is_cut(ranges, ranges[j].offset as int));
        assert(is_cut(ranges, ranges[j].end()));
    }
}

} // verus!
