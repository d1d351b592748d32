//! Device setup decisions of the standalone baker.
use std::collections::HashSet;
use vstd::prelude::*;
use crate::stilb::vulkan_core::{QueueFamily, chosen, graphics_by, compute_by};

verus! {

broadcast use vstd::std_specs::hash::group_hash_axioms;

/// The queue families the baker submits graphics, compute and presentation
/// work to.
#[derive(Clone, Copy, Debug, PartialEq, Eq, Structural)]
pub struct QueueFamilyIndices {
    pub graphics: u32,
    pub compute: u32,
    pub present: u32,
}

/// Picks the graphics, compute and presentation queue families the same way
/// the lightmap baker does; `None` when no family supports graphics or none
/// supports compute.
pub fn find_queue_families(families: &[QueueFamily]) -> (r: Option<QueueFamilyIndices>)
    requires
        families@.len() <= u32::MAX,
    ensures
        match r {
            Some(q) => chosen(
                families@,
                crate::stilb::vulkan_core::QueueFamilyIndices {
                    graphics: q.graphics,
                    compute: q.compute,
                    present: q.present,
                },
            ),
            None => !graphics_by(families@, families@.len() as int) || !compute_by(
                families@,
                families@.len() as int,
            ),
        },
{
    match crate::stilb::vulkan_core::find_queue_families(families) {
        Some(q) => Some(QueueFamilyIndices { graphics: q.graphics, compute: q.compute, present: q.present }),
        None => None,
    }
}

/// The set of distinct queue families among the three picked: one queue is
/// created per family in it.
pub fn distinct_queue_families(q: QueueFamilyIndices) -> (families: HashSet<u32>)
    ensures
        families@ == set![q.compute, q.graphics, q.present],
{
    let mut families: HashSet<u32> = HashSet::new();
    families.insert(q.compute);
    families.insert(q.graphics);
    families.insert(q.present);
    proof {
        assert(families@ =~= set![q.compute, q.graphics, q.present]);
    }
    families
}

/// A device extension the baker may enable.
#[derive(Clone, Copy, Debug, PartialEq, Eq, Structural)]
pub enum DeviceExtension {
    Swapchain,
    BufferDeviceAddress,
    AccelerationStructure,
    DeferredHostOperations,
    RayQuery,
}

/// The device extensions to enable: the swapchain when a window is shown,
/// buffer device addresses always, and the ray query chain when the device
/// offers ray queries.
pub fn device_extensions(enable_window: bool, has_ray_query: bool) -> (v: Vec<DeviceExtension>)
    ensures
        v@ == (if enable_window { seq![DeviceExtension::Swapchain] } else { Seq::empty() })
            + seq![DeviceExtension::BufferDeviceAddress]
            + (if has_ray_query {
                seq![
                    DeviceExtension::AccelerationStructure,
                    DeviceExtension::DeferredHostOperations,
                    DeviceExtension::RayQuery,
                ]
            } else {
                Seq::empty()
            }),
{
    let mut v: Vec<DeviceExtension> = Vec::new();
    if enable_window {
        v.push(DeviceExtension::Swapchain);
    }
    v.push(DeviceExtension::BufferDeviceAddress);
    if has_ray_query {
        v.push(DeviceExtension::AccelerationStructure);
        v.push(DeviceExtension::DeferredHostOperations);
        v.push(DeviceExtension::RayQuery);
    }
    v
}

} // verus!
