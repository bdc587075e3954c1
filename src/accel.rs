use vstd::prelude::*;

verus! {

/// A stable index into the scene's object list.
#[derive(Debug, Copy, Clone, PartialEq, Eq, Structural)]
pub struct ObjectId {
    pub index: usize,
}

/// A compact object index, as the acceleration tree stores it.
#[derive(Debug, Copy, Clone, PartialEq, Eq, Structural)]
pub struct SmallId {
    pub index: u32,
}

impl SmallId {
    /// The same object as an `ObjectId`.
    pub fn to_large(self) -> (r: ObjectId)
        ensures
            r.index == self.index,
    {
        ObjectId { index: self.index as usize }
    }
}

/// The ids of the objects whose flag is set, in increasing order; used to
/// list the light sources of a scene once before rendering.
pub fn flagged_ids(flags: &Vec<bool>) -> (r: Vec<ObjectId>)
    ensures
        forall|k: int| 0 <= k < r@.len() ==> (#[trigger] r@[k]).index < flags@.len() && flags@[r@[k].index as int],
        forall|k1: int, k2: int| 0 <= k1 < k2 < r@.len() ==> (#[trigger] r@[k1]).index < (#[trigger] r@[k2]).index,
        forall|i: int| 0 <= i < flags@.len() && #[trigger] flags@[i] ==> exists|k: int| 0 <= k < r@.len() && (#[trigger] r@[k]).index == i,
{
    let mut result: Vec<ObjectId> = Vec::new();
    let mut i: usize = 0;
    while i < flags.len()
        invariant
            i <= flags@.len(),
            forall|k: int| 0 <= k < result@.len() ==> (#[trigger] result@[k]).index < i && flags@[result@[k].index as int],
            forall|k1: int, k2: int| 0 <= k1 < k2 < result@.len() ==> (#[trigger] result@[k1]).index < (#[trigger] result@[k2]).index,
            forall|j: int| 0 <= j < i && #[trigger] flags@[j] ==> exists|k: int| 0 <= k < result@.len() && (#[trigger] result@[k]).index == j,
        decreases flags@.len() - i,
    {
        if flags[i] {
            let ghost before = result@;
            result.push(ObjectId { index: i });
            assert forall|j: int| 0 <= j < i + 1 && #[trigger] flags@[j] implies exists|k: int| 0 <= k < result@.len() && (#[trigger] result@[k]).index == j by {
                if j < i {
                    let k = choose|k: int| 0 <= k < before.len() && (#[trigger] before[k]).index == j;
                    assert(result@[k] == before[k]);
                } else {
                    assert(result@[before.len() as int].index == j);
                }
            }
        }
        i = i + 1;
    }
    result
}

/// The trivial acceleration structure: every query scans all objects.
#[derive(Debug)]
pub struct NoAccel;

} // verus!
