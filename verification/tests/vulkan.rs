use std::collections::HashSet;
use lightmapper::baker::vulkan_core::find_queue_families as baker_queue_families;
use lightmapper::baker::vulkan_core::{device_extensions, distinct_queue_families, DeviceExtension as E, QueueFamilyIndices as Q};
use lightmapper::stilb::vulkan_core::{find_memory_type, find_queue_families, QueueFamily, QueueFamilyIndices};

fn fam(graphics: bool, compute: bool) -> QueueFamily {
    QueueFamily { graphics, compute }
}

#[test]
fn queue_families_stop_once_both_are_found() {
    let r = find_queue_families(&[fam(false, true), fam(true, false), fam(true, true)]);
    assert_eq!(r, Some(QueueFamilyIndices { graphics: 1, compute: 0, present: 1 }));
    let r = find_queue_families(&[fam(true, true), fam(true, true)]);
    assert_eq!(r, Some(QueueFamilyIndices { graphics: 0, compute: 0, present: 0 }));
    let r = find_queue_families(&[fam(true, false), fam(true, false), fam(false, true)]);
    assert_eq!(r, Some(QueueFamilyIndices { graphics: 1, compute: 2, present: 1 }));
}

#[test]
fn queue_families_missing() {
    assert_eq!(find_queue_families(&[fam(false, true)]), None);
    assert_eq!(find_queue_families(&[fam(true, false), fam(false, false)]), None);
    assert_eq!(find_queue_families(&[]), None);
    assert!(baker_queue_families(&[fam(false, false)]).is_none());
    let q = baker_queue_families(&[fam(false, true), fam(true, false)]).unwrap();
    assert_eq!((q.graphics, q.compute, q.present), (1, 0, 1));
}

#[test]
fn memory_type_selection() {
    let flags = [0b1, 0b11, 0b110];
    assert_eq!(find_memory_type(0b110, &flags, 0b10), Some(1));
    assert_eq!(find_memory_type(0b100, &flags, 0b10), Some(2));
    assert_eq!(find_memory_type(0b111, &flags, 0b1000), None);
    assert_eq!(find_memory_type(0, &flags, 0), None);
    assert_eq!(find_memory_type(0b1, &flags, 0), Some(0));
}

#[test]
fn one_queue_per_distinct_family() {
    assert_eq!(distinct_queue_families(Q { graphics: 0, compute: 0, present: 0 }), HashSet::from([0]));
    assert_eq!(distinct_queue_families(Q { graphics: 1, compute: 0, present: 1 }), HashSet::from([0, 1]));
    assert_eq!(distinct_queue_families(Q { graphics: 0, compute: 2, present: 1 }), HashSet::from([2, 0, 1]));
}

#[test]
fn device_extension_lists() {
    assert_eq!(device_extensions(false, false), vec![E::BufferDeviceAddress]);
    assert_eq!(
        device_extensions(true, true),
        vec![E::Swapchain, E::BufferDeviceAddress, E::AccelerationStructure, E::DeferredHostOperations, E::RayQuery]
    );
    assert_eq!(
        device_extensions(false, true),
        vec![E::BufferDeviceAddress, E::AccelerationStructure, E::DeferredHostOperations, E::RayQuery]
    );
}
