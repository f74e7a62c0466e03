//! What a pipeline layout needs to know of the device that it is made for.
use vstd::prelude::*;

use crate::error;
use crate::error::RequirementNotMet;
use crate::shader;

verus! {

/// The limits of a physical device.
#[derive(Clone, Copy, Debug)]
pub struct Properties {
    pub max_bound_descriptor_sets: u32,
    pub max_push_constants_size: u32,
    pub max_per_stage_descriptor_samplers: u32,
    pub max_per_stage_descriptor_uniform_buffers: u32,
    pub max_per_stage_descriptor_storage_buffers: u32,
    pub max_per_stage_descriptor_sampled_images: u32,
    pub max_per_stage_descriptor_storage_images: u32,
    pub max_per_stage_descriptor_input_attachments: u32,
    pub max_per_stage_descriptor_acceleration_structures: Option<u32>,
    pub max_descriptor_set_samplers: u32,
    pub max_descriptor_set_uniform_buffers: u32,
    pub max_descriptor_set_uniform_buffers_dynamic: u32,
    pub max_descriptor_set_storage_buffers: u32,
    pub max_descriptor_set_storage_buffers_dynamic: u32,
    pub max_descriptor_set_sampled_images: u32,
    pub max_descriptor_set_storage_images: u32,
    pub max_descriptor_set_input_attachments: u32,
    pub max_descriptor_set_acceleration_structures: Option<u32>,
}

/// A flag that a device does not support, and what it would need for that.
#[derive(Debug)]
pub struct UnsupportedFlag {
    /// The flag, as a mask.
    pub flag: u32,
    pub requirement: RequirementNotMet,
}

/// A device, as far as pipeline layouts depend on it.
#[derive(Debug)]
pub struct Device {
    /// Tells this device from all others.
    pub id: u64,
    pub properties: Properties,
    /// The shader stages that the device does not support.
    pub unsupported_stages: Vec<UnsupportedFlag>,
    /// The pipeline layout flags that the device does not support.
    pub unsupported_layout_flags: Vec<UnsupportedFlag>,
}

/// The first listed flag that `bits` holds, if there is one: what is missing to use `bits`.
pub open spec fn missing_for(
    unsupported: Seq<UnsupportedFlag>,
    bits: u32,
) -> Option<error::RequirementView>
    decreases unsupported.len(),
{
    if unsupported.len() == 0 {
        None
    } else if shader::masks_meet(unsupported[0].flag, bits) {
        Some(unsupported[0].requirement@)
    } else {
        missing_for(unsupported.drop_first(), bits)
    }
}

/// Whether a device that lacks the listed flags supports all of `bits`.
pub(crate) fn check_flags(unsupported: &Vec<UnsupportedFlag>, bits: u32) -> (r: Result<
    (),
    RequirementNotMet,
>)
    ensures
        match r {
            Ok(_) => missing_for(unsupported@, bits) is None,
            Err(e) => missing_for(unsupported@, bits) == Some(e@),
        },
{
    let mut i: usize = 0;
    assert(unsupported@.skip(0) =~= unsupported@);
    while i < unsupported.len()
        invariant
            i <= unsupported.len(),
            missing_for(unsupported@, bits) == missing_for(unsupported@.skip(i as int), bits),
        decreases unsupported.len() - i,
    {
        assert(unsupported@.skip(i as int).drop_first() =~= unsupported@.skip(i + 1));
        if unsupported[i].flag & bits != 0 {
            return Err(unsupported[i].requirement.duplicate());
        }
        i = i + 1;
    }
    Ok(())
}

/// Nothing is missing exactly where the device supports all of the flags.
pub proof fn law_nothing_missing(unsupported: Seq<UnsupportedFlag>, bits: u32)
    ensures
        missing_for(unsupported, bits) is None <==> forall|i: int|
            0 <= i < unsupported.len() ==> !shader::masks_meet(
                (#[trigger] unsupported[i]).flag,
                bits,
            ),
    decreases unsupported.len(),
{
    if unsupported.len() > 0 {
        let rest = unsupported.drop_first();
        law_nothing_missing(rest, bits);
        assert forall|i: int| 0 <= i < rest.len() implies #[trigger] rest[i] == unsupported[i
            + 1] by {}
        if missing_for(unsupported, bits) is None {
            assert forall|i: int| 0 <= i < unsupported.len() implies !shader::masks_meet(
                (#[trigger] unsupported[i]).flag,
                bits,
            ) by {
                if i > 0 {
                    assert(!shader::masks_meet(rest[i - 1].flag, bits));
                }
            }
        } else if !shader::masks_meet(unsupported[0].flag, bits) {
            let i = choose|i: int|
                0 <= i < rest.len() && shader::masks_meet((#[trigger] rest[i]).flag, bits);
            assert(shader::masks_meet(unsupported[i + 1].flag, bits));
        }
    }
}

/// What is missing belongs to the first unsupported flag that is used.
pub proof fn law_first_missing(unsupported: Seq<UnsupportedFlag>, bits: u32, i: int)
    requires
        0 <= i < unsupported.len(),
        unsupported[i].flag & bits != 0,
        forall|j: int| 0 <= j < i ==> (#[trigger] unsupported[j]).flag & bits == 0,
    ensures
        missing_for(unsupported, bits) == Some(unsupported[i].requirement@),
        unsupported[i].requirement@.problem == unsupported[i].requirement.problem@,
        unsupported[i].requirement@.requires_one_of.len()
            == unsupported[i].requirement.requires_one_of@.len(),
        forall|n: int|
            0 <= n < unsupported[i].requirement.requires_one_of@.len() ==> (
            #[trigger] unsupported[i].requirement@.requires_one_of[n])
                == unsupported[i].requirement.requires_one_of@[n]@,
    decreases i,
{
    if i > 0 {
        assert(unsupported[0].flag & bits == 0);
        let rest = unsupported.drop_first();
        assert forall|j: int| 0 <= j < i - 1 implies (#[trigger] rest[j]).flag & bits == 0 by {
            assert(unsupported[j + 1].flag & bits == 0);
        }
        law_first_missing(rest, bits, i - 1);
    }
}

/// Nothing is missing exactly where no unsupported flag is used.
pub proof fn law_supported(unsupported: Seq<UnsupportedFlag>, bits: u32)
    ensures
        missing_for(unsupported, bits) is None <==> forall|i: int|
            0 <= i < unsupported.len() ==> (#[trigger] unsupported[i]).flag & bits == 0,
{
    law_nothing_missing(unsupported, bits);
    if missing_for(unsupported, bits) is None {
        assert forall|i: int| 0 <= i < unsupported.len() implies (#[trigger] unsupported[i]).flag
            & bits == 0 by {
            assert(!shader::masks_meet(unsupported[i].flag, bits));
        }
    }
}

} // verus!
