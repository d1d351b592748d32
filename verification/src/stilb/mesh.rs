//! The integer side of merging host meshes into the baker's combined mesh:
//! per-vertex flags and re-based, re-wound triangle indices.
use vstd::prelude::*;
use crate::stilb::bindings::CoordinateSystem;

verus! {

/// The flags stored with each vertex: the lightmap group in the low 16 bits
/// and whether back faces take part in global illumination in bit 16.
pub fn vertex_flags(lightmap_group: u32, backface_gi: bool) -> (flags: u32)
    ensures
        flags == lightmap_group % 0x10000 + if backface_gi { 0x10000int } else { 0int },
{
    let mut flags: u32 = 0;
    flags = flags | (lightmap_group & 0xFFFF);
    if backface_gi {
        flags = flags | (1u32 << 16u32);
    }
    proof {
        assert((0u32 | (lightmap_group & 0xFFFF)) == lightmap_group % 0x10000) by (bit_vector);
        assert(((lightmap_group & 0xFFFF) | (1u32 << 16u32)) == (lightmap_group & 0xFFFF) + 0x10000) by (bit_vector);
        assert((lightmap_group & 0xFFFF) == lightmap_group % 0x10000) by (bit_vector);
    }
    flags
}

/// Position in the host's index list of the index that lands at position `k`
/// of the appended list: the same position in the default convention; with
/// the second and third corner of every triangle swapped in Unity's, whose
/// triangles wind the other way.
pub open spec fn source_position(system: CoordinateSystem, k: int) -> int {
    match system {
        CoordinateSystem::Default => k,
        CoordinateSystem::Unity => if k % 3 == 1 {
            k + 1
        } else if k % 3 == 2 {
            k - 1
        } else {
            k
        },
    }
}

/// Swapping the second and third corner twice gives back the order it started from.
pub proof fn lemma_rewinding_twice(system: CoordinateSystem, k: int)
    requires
        0 <= k,
    ensures
        source_position(system, source_position(system, k)) == k,
{
}

/// Appends the host's triangle indices, shifted by `offset` (the number of
/// vertices already in the combined mesh) and re-wound for Unity's
/// convention.
pub fn append_indices(target: &mut Vec<u32>, indices: &[u32], offset: u32, system: CoordinateSystem)
    requires
        forall|k: int| 0 <= k < indices@.len() ==> #[trigger] indices@[k] + offset <= u32::MAX,
        system == CoordinateSystem::Unity ==> indices@.len() % 3 == 0,
    ensures
        final(target)@.len() == old(target)@.len() + indices@.len(),
        forall|k: int| 0 <= k < old(target)@.len() ==> #[trigger] final(target)@[k] == old(target)@[k],
        forall|k: int|
            0 <= k < indices@.len() ==> #[trigger] final(target)@[old(target)@.len() + k] == indices@[source_position(
                system,
                k,
            )] + offset,
{
    let ghost start = target@.len();
    let mut k: usize = 0;
    while k < indices.len()
        invariant
            forall|j: int| 0 <= j < indices@.len() ==> #[trigger] indices@[j] + offset <= u32::MAX,
            system == CoordinateSystem::Unity ==> indices@.len() % 3 == 0,
            k <= indices@.len(),
            start == old(target)@.len(),
            target@.len() == start + k,
            forall|j: int| 0 <= j < start ==> #[trigger] target@[j] == old(target)@[j],
            forall|j: int| 0 <= j < k ==> #[trigger] target@[start + j] == indices@[source_position(system, j)] + offset,
        decreases indices@.len() - k,
    {
        let source: usize = match system {
            CoordinateSystem::Default => k,
            CoordinateSystem::Unity => if k % 3 == 1 {
                k + 1
            } else if k % 3 == 2 {
                k - 1
            } else {
                k
            },
        };
        proof {
            if system == CoordinateSystem::Unity && k % 3 == 1 {
                vstd::arithmetic::div_mod::lemma_fundamental_div_mod(indices@.len() as int, 3);
                vstd::arithmetic::div_mod::lemma_fundamental_div_mod(k as int, 3);
                assert(k + 1 < indices@.len());
            }
        }
        target.push(indices[source] + offset);
        k = k + 1;
    }
}

} // verus!
