use vstd::prelude::*;
use crate::models::DiskInfo;

verus! {

/// Bytes held back on every root so that concurrent writers on the same
/// volume do not race the pool into exhaustion: 100 MiB.
pub const SAFETY_MARGIN: u64 = 100 * 1024 * 1024;

/// Whether one probed root can take a file of `required` bytes: it must
/// be accessible, report a nonzero total, and have the required bytes
/// plus the safety margin available.
pub open spec fn spec_qualifies(d: DiskInfo, required: int) -> bool {
    &&& d.is_accessible
    &&& d.total_space >= 1
    &&& d.available_space >= required + SAFETY_MARGIN
}

/// The root that best-fit placement picks from a pool of snapshots: the
/// first root holding the greatest available space among those that
/// qualify, or `None` when none qualifies.
pub open spec fn spec_choose_root(disks: Seq<DiskInfo>, required: int) -> Option<int>
    decreases disks.len(),
{
    if disks.len() == 0 {
        None
    } else {
        let k = disks.len() - 1;
        let rest = spec_choose_root(disks.drop_last(), required);
        if spec_qualifies(disks[k], required) {
            match rest {
                Option::None => Option::Some(k),
                Option::Some(j) => if disks[k].available_space > disks[j].available_space {
                    Option::Some(k)
                } else {
                    Option::Some(j)
                },
            }
        } else {
            rest
        }
    }
}

/// Picks the storage root for a new file of `required_bytes` bytes from
/// the given capacity snapshots: best fit by remaining capacity.
pub fn choose_root(disks: &Vec<DiskInfo>, required_bytes: u64) -> (r: Option<usize>)
    ensures
        match r {
            Option::Some(k) => Option::Some(k as int) == spec_choose_root(
                disks@,
                required_bytes as int,
            ) && k < disks@.len(),
            Option::None => spec_choose_root(disks@, required_bytes as int) is None,
        },
{
    let n = disks.len();
    let mut best: Option<usize> = None;
    let mut i: usize = 0;
    while i < n
        invariant
            i <= n,
            n == disks@.len(),
            match best {
                Option::Some(j) => Option::Some(j as int) == spec_choose_root(
                    disks@.take(i as int),
                    required_bytes as int,
                ) && j < i,
                Option::None => spec_choose_root(disks@.take(i as int), required_bytes as int)
                    is None,
            },
        decreases n - i,
    {
        proof {
            assert(disks@.take(i + 1).drop_last() =~= disks@.take(i as int));
            assert(disks@.take(i + 1).last() == disks@[i as int]);
        }
        let d = &disks[i];
        let qualifies = d.is_accessible && d.total_space >= 1 && (d.available_space as u128)
            >= (required_bytes as u128) + (SAFETY_MARGIN as u128);
        if qualifies {
            match best {
                Option::None => {
                    best = Some(i);
                },
                Option::Some(j) => {
                    if disks[i].available_space > disks[j].available_space {
                        best = Some(i);
                    }
                },
            }
        }
        i = i + 1;
    }
    proof {
        assert(disks@.take(n as int) =~= disks@);
    }
    best
}

/// Law: placement never returns a root that fails the margin constraint,
/// and returns one whenever any root satisfies it.
pub proof fn lemma_choose_root_qualifies(disks: Seq<DiskInfo>, required: int)
    ensures
        (spec_choose_root(disks, required) is Some) <==> (exists|k: int|
            0 <= k < disks.len() && spec_qualifies(#[trigger] disks[k], required)),
        spec_choose_root(disks, required) matches Some(j) ==> 0 <= j < disks.len()
            && spec_qualifies(disks[j], required),
    decreases disks.len(),
{
    if disks.len() > 0 {
        let k = disks.len() - 1;
        lemma_choose_root_qualifies(disks.drop_last(), required);
        assert(forall|j: int| 0 <= j < disks.len() - 1 ==> #[trigger] disks.drop_last()[j]
            == disks[j]);
        if spec_choose_root(disks, required) is None {
            assert forall|j: int| 0 <= j < disks.len() implies !spec_qualifies(
                #[trigger] disks[j],
                required,
            ) by {
                if j < disks.len() - 1 {
                    assert(disks.drop_last()[j] == disks[j]);
                }
            }
        }
    }
}

/// Law: the chosen root holds at least as much available space as every
/// qualifying root, and strictly more than every qualifying root that
/// comes before it — so the result is the first root of greatest
/// available space among those that qualify.
pub proof fn lemma_choose_root_best(disks: Seq<DiskInfo>, required: int)
    ensures
        spec_choose_root(disks, required) matches Some(j) ==> forall|k: int|
            0 <= k < disks.len() && spec_qualifies(#[trigger] disks[k], required)
                ==> disks[k].available_space <= disks[j].available_space
                    && (k < j ==> disks[k].available_space < disks[j].available_space),
    decreases disks.len(),
{
    if disks.len() > 0 {
        lemma_choose_root_best(disks.drop_last(), required);
        lemma_choose_root_qualifies(disks.drop_last(), required);
        assert(forall|j: int| 0 <= j < disks.len() - 1 ==> #[trigger] disks.drop_last()[j]
            == disks[j]);
        if spec_choose_root(disks, required) is Some {
            let j = spec_choose_root(disks, required)->Some_0;
            assert forall|k: int|
                0 <= k < disks.len() && spec_qualifies(#[trigger] disks[k], required)
                    implies disks[k].available_space <= disks[j].available_space
                        && (k < j ==> disks[k].available_space < disks[j].available_space) by {
                if k < disks.len() - 1 {
                    assert(disks.drop_last()[k] == disks[k]);
                }
            }
        }
    }
}

} // verus!
