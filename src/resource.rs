use vstd::prelude::*;

verus! {

/// Identifies one asynchronous resource. Minted by the resource system; the
/// tracker only compares these tokens.
#[derive(Clone, Copy, Debug, PartialEq, Eq, Structural, Hash, PartialOrd, Ord)]
pub struct ResourceId(pub u64);

/// The ids appear in strictly increasing order (so each at most once).
pub open spec fn strictly_ascending(s: Seq<ResourceId>) -> bool {
    forall|i: int, j: int| 0 <= i < j < s.len() ==> s[i].0 < s[j].0
}

/// The set of ids that a sequence holds.
pub open spec fn members(s: Seq<ResourceId>) -> Set<ResourceId> {
    Set::new(|x: ResourceId| s.contains(x))
}

/// The first position whose id is not below `id`: where `id` stands, or
/// would be inserted, in an ascending sequence.
fn lower_bound(ids: &Vec<ResourceId>, id: ResourceId) -> (p: usize)
    requires
        strictly_ascending(ids@),
    ensures
        p <= ids@.len(),
        forall|k: int| 0 <= k < p ==> ids@[k].0 < id.0,
        p < ids@.len() ==> id.0 <= ids@[p as int].0,
{
    let mut p: usize = 0;
    while p < ids.len() && ids[p].0 < id.0
        invariant
            p <= ids@.len(),
            forall|k: int| 0 <= k < p ==> ids@[k].0 < id.0,
        decreases ids@.len() - p,
    {
        p = p + 1;
    }
    p
}

/// Adds `id` to an ascending id list, keeping it ascending; no change when it
/// is already there.
pub fn insert_id(ids: &mut Vec<ResourceId>, id: ResourceId)
    requires
        strictly_ascending(old(ids)@),
    ensures
        strictly_ascending(final(ids)@),
        members(final(ids)@) == members(old(ids)@).insert(id),
{
    let p = lower_bound(ids, id);
    if p < ids.len() && ids[p].0 == id.0 {
        assert(ids@[p as int] == id);
        assert(members(ids@) =~= members(ids@).insert(id));
    } else {
        let ghost before = ids@;
        ids.insert(p, id);
        assert forall|x: ResourceId| ids@.contains(x) <==> (before.contains(x) || x == id) by {
            if ids@.contains(x) {
                let k = choose|k: int| 0 <= k < ids@.len() && ids@[k] == x;
                if k < p {
                    assert(before[k] == x);
                } else if k > p {
                    assert(before[k - 1] == x);
                }
            }
            if before.contains(x) {
                let k = choose|k: int| 0 <= k < before.len() && before[k] == x;
                if k < p {
                    assert(ids@[k] == x);
                } else {
                    assert(ids@[k + 1] == x);
                }
            }
            if x == id {
                assert(ids@[p as int] == x);
            }
        }
        assert forall|x: ResourceId| #[trigger] members(ids@).contains(x) <==> members(
            before,
        ).insert(id).contains(x) by {
            assert(ids@.contains(x) <==> (before.contains(x) || x == id));
        }
        assert(members(ids@) =~= members(before).insert(id));
        assert forall|i: int, j: int| 0 <= i < j < ids@.len() implies ids@[i].0 < ids@[j].0 by {
            if j < p {
                assert(ids@[i] == before[i] && ids@[j] == before[j]);
            } else if j == p {
                assert(ids@[i] == before[i]);
            } else if i < p {
                assert(ids@[i] == before[i] && ids@[j] == before[j - 1]);
            } else if i == p {
                assert(ids@[j] == before[j - 1]);
            } else {
                assert(ids@[i] == before[i - 1] && ids@[j] == before[j - 1]);
            }
        }
    }
}

/// Takes `id` out of an ascending id list, keeping it ascending; no change
/// when it is absent.
pub fn remove_id(ids: &mut Vec<ResourceId>, id: ResourceId)
    requires
        strictly_ascending(old(ids)@),
    ensures
        strictly_ascending(final(ids)@),
        members(final(ids)@) == members(old(ids)@).remove(id),
{
    let p = lower_bound(ids, id);
    if p < ids.len() && ids[p].0 == id.0 {
        let ghost before = ids@;
        ids.remove(p);
        assert forall|x: ResourceId| ids@.contains(x) <==> (before.contains(x) && x != id) by {
            if ids@.contains(x) {
                let k = choose|k: int| 0 <= k < ids@.len() && ids@[k] == x;
                if k < p {
                    assert(before[k] == x);
                } else {
                    assert(before[k + 1] == x);
                }
            }
            if before.contains(x) && x != id {
                let k = choose|k: int| 0 <= k < before.len() && before[k] == x;
                if k < p {
                    assert(ids@[k] == x);
                } else if k > p {
                    assert(ids@[k - 1] == x);
                }
            }
        }
        assert(members(ids@) =~= members(before).remove(id));
        assert forall|i: int, j: int| 0 <= i < j < ids@.len() implies ids@[i].0 < ids@[j].0 by {
            if j < p {
                assert(ids@[i] == before[i] && ids@[j] == before[j]);
            } else if i < p {
                assert(ids@[i] == before[i] && ids@[j] == before[j + 1]);
            } else {
                assert(ids@[i] == before[i + 1] && ids@[j] == before[j + 1]);
            }
        }
    } else {
        assert forall|x: ResourceId| ids@.contains(x) implies x != id by {
            let k = choose|k: int| 0 <= k < ids@.len() && ids@[k] == x;
            if k < p {
            } else if k > p {
                assert(ids@[p as int].0 < ids@[k].0);
            }
        }
        assert(members(ids@) =~= members(ids@).remove(id));
    }
}

} // verus!
