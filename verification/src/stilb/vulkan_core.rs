//! Device setup decisions: which queue families the baker uses and which
//! memory type backs an allocation.
use vstd::prelude::*;

verus! {

/// The queue families the baker submits graphics, compute and presentation
/// work to.
#[derive(Clone, Copy, Debug, PartialEq, Eq, Structural)]
pub struct QueueFamilyIndices {
    pub graphics: u32,
    pub compute: u32,
    pub present: u32,
}

/// What a queue family supports.
#[derive(Clone, Copy, Debug, PartialEq, Eq, Structural)]
pub struct QueueFamily {
    pub graphics: bool,
    pub compute: bool,
}

/// Some family at index at most `k` supports graphics.
pub open spec fn graphics_by(fs: Seq<QueueFamily>, k: int) -> bool {
    exists|j: int| 0 <= j <= k && j < fs.len() && #[trigger] fs[j].graphics
}

/// Some family at index at most `k` supports compute.
pub open spec fn compute_by(fs: Seq<QueueFamily>, k: int) -> bool {
    exists|j: int| 0 <= j <= k && j < fs.len() && #[trigger] fs[j].compute
}

/// The choice that the family scan makes: families are scanned in order up
/// to the first index by which both a graphics and a compute family have been
/// seen; the last graphics family and the last compute family seen up to
/// there are taken, and presentation goes to the graphics family.
pub open spec fn chosen(fs: Seq<QueueFamily>, q: QueueFamilyIndices) -> bool {
    let g = q.graphics as int;
    let c = q.compute as int;
    let k = if g > c { g } else { c };
    &&& q.present == q.graphics
    &&& 0 <= g < fs.len()
    &&& 0 <= c < fs.len()
    &&& fs[g].graphics
    &&& fs[c].compute
    &&& forall|j: int| g < j <= k ==> !(#[trigger] fs[j]).graphics
    &&& forall|j: int| c < j <= k ==> !(#[trigger] fs[j]).compute
    &&& forall|k2: int| 0 <= k2 < k ==> !(#[trigger] graphics_by(fs, k2) && compute_by(fs, k2))
}

/// Picks the graphics, compute and presentation queue families from what each
/// family supports; `None` when no family supports graphics or none supports
/// compute.
pub fn find_queue_families(families: &[QueueFamily]) -> (r: Option<QueueFamilyIndices>)
    requires
        families@.len() <= u32::MAX,
    ensures
        match r {
            Some(q) => chosen(families@, q),
            None => !graphics_by(families@, families@.len() as int) || !compute_by(
                families@,
                families@.len() as int,
            ),
        },
{
    let mut graphics: Option<u32> = None;
    let mut compute: Option<u32> = None;
    let mut i: usize = 0;
    while i < families.len()
        invariant
            i <= families.len(),
            families@.len() <= u32::MAX,
            match graphics {
                Some(g) => g < i && families@[g as int].graphics && forall|j: int|
                    g < j < i ==> !(#[trigger] families@[j]).graphics,
                None => forall|j: int| 0 <= j < i ==> !(#[trigger] families@[j]).graphics,
            },
            match compute {
                Some(c) => c < i && families@[c as int].compute && forall|j: int|
                    c < j < i ==> !(#[trigger] families@[j]).compute,
                None => forall|j: int| 0 <= j < i ==> !(#[trigger] families@[j]).compute,
            },
            forall|k2: int| 0 <= k2 < i ==> !(#[trigger] graphics_by(families@, k2) && compute_by(families@, k2)),
            !(graphics is Some && compute is Some),
        decreases families.len() - i,
    {
        let f = families[i];
        if f.compute {
            compute = Some(i as u32);
        }
        if f.graphics {
            graphics = Some(i as u32);
        }
        if graphics.is_some() && compute.is_some() {
            let q = QueueFamilyIndices {
                graphics: graphics.unwrap(),
                compute: compute.unwrap(),
                present: graphics.unwrap(),
            };
            proof {
                let g = q.graphics as int;
                let c = q.compute as int;
                assert(g == i || c == i);
                assert forall|k2: int| 0 <= k2 < i implies !(#[trigger] graphics_by(families@, k2) && compute_by(families@, k2)) by {
                }
            }
            return Some(q);
        }
        proof {
            assert forall|k2: int| 0 <= k2 < i + 1 implies !(#[trigger] graphics_by(families@, k2) && compute_by(families@, k2)) by {
                if k2 == i {
                    if graphics_by(families@, k2) && compute_by(families@, k2) {
                        let a = choose|j: int| 0 <= j <= k2 && j < families@.len() && #[trigger] families@[j].graphics;
                        let b = choose|j: int| 0 <= j <= k2 && j < families@.len() && #[trigger] families@[j].compute;
                        assert(graphics.is_some());
                        assert(compute.is_some());
                    }
                }
            }
        }
        i = i + 1;
    }
    proof {
        if graphics_by(families@, families@.len() as int) && compute_by(families@, families@.len() as int) {
            let a = choose|j: int| 0 <= j <= families@.len() && j < families@.len() && #[trigger] families@[j].graphics;
            let b = choose|j: int| 0 <= j <= families@.len() && j < families@.len() && #[trigger] families@[j].compute;
            let k = if a > b { a } else { b };
            assert(graphics_by(families@, k));
            assert(compute_by(families@, k));
        }
    }
    None
}

/// The first memory type that the resource may use (bit `i` of `type_filter`)
/// and that has every property bit of `required`; `None` when there is none.
/// `property_flags[i]` holds the property bits of memory type `i`.
pub fn find_memory_type(type_filter: u32, property_flags: &[u32], required: u32) -> (r: Option<u32>)
    requires
        property_flags@.len() <= 32,
    ensures
        match r {
            Some(i) => {
                &&& i < property_flags@.len()
                &&& property_flags@[i as int] & required == required
                &&& (type_filter >> i) & 1 == 1
                &&& forall|j: u32|
                    j < i ==> !((type_filter >> j) & 1 == 1 && #[trigger] property_flags@[j as int] & required
                        == required)
                &&& usable_memory_type(type_filter, property_flags@[i as int], required, i)
                &&& forall|j: u32| j < i ==> !#[trigger] usable_memory_type(type_filter, property_flags@[j as int], required, j)
            },
            None => {
                &&& forall|j: u32| j < property_flags@.len() ==> !#[trigger] usable_memory_type(
                    type_filter,
                    property_flags@[j as int],
                    required,
                    j,
                )
                &&& forall|j: u32|
                    j < property_flags@.len() ==> !((type_filter >> j) & 1 == 1 && #[trigger] property_flags@[j as int]
                        & required == required)
            },
        },
{
    let count = property_flags.len() as u32;
    let mut i: u32 = 0;
    while i < count
        invariant
            count == property_flags@.len(),
            count <= 32,
            i <= count,
            forall|j: u32| j < i ==> !#[trigger] usable_memory_type(type_filter, property_flags@[j as int], required, j),
        decreases count - i,
    {
        let is_type_supported = (type_filter & (1u32 << i)) != 0;
        let has_required_properties = (property_flags[i as usize] & required) == required;
        if is_type_supported && has_required_properties {
            proof {
                lemma_usable_memory_type(type_filter, property_flags@[i as int], required, i);
                assert forall|j: u32| j < i implies !((type_filter >> j) & 1 == 1 && #[trigger] property_flags@[j as int]
                    & required == required) by {
                    lemma_usable_memory_type(type_filter, property_flags@[j as int], required, j);
                }
            }
            return Some(i);
        }
        i = i + 1;
    }
    proof {
        assert forall|j: u32| j < property_flags@.len() implies !((type_filter >> j) & 1 == 1
            && #[trigger] property_flags@[j as int] & required == required) by {
            lemma_usable_memory_type(type_filter, property_flags@[j as int], required, j);
        }
    }
    None
}

/// Memory type `i`, with property bits `flags`, is allowed by `type_filter`
/// and has every bit of `required`.
pub open spec fn usable_memory_type(type_filter: u32, flags: u32, required: u32, i: u32) -> bool {
    &&& i < 32
    &&& (type_filter & (1u32 << i)) != 0
    &&& (flags & required) == required
}

/// A memory type is usable exactly when bit `i` of the filter is set and
/// its property bits include every required bit.
pub proof fn lemma_usable_memory_type(type_filter: u32, flags: u32, required: u32, i: u32)
    requires
        i < 32,
    ensures
        usable_memory_type(type_filter, flags, required, i) <==> ((type_filter >> i) & 1 == 1 && flags & required
            == required),
{
    assert(((type_filter & (1u32 << i)) != 0) == ((type_filter >> i) & 1 == 1)) by (bit_vector)
        requires
            i < 32,
    ;
}

} // verus!
