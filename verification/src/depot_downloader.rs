//! The depots that an operation was asked to download.
use vstd::prelude::*;

verus! {

/// A depot with the manifest to install and the key to decrypt it.
#[derive(Clone, Debug, PartialEq, Eq)]
pub struct ResolvedDepotSpec {
    pub depot_id: u32,
    pub manifest_id: u64,
    pub depot_key: Vec<u8>,
    pub manifest_request_code: u64,
}

/// The key that the operation carries for a depot; where it names the depot
/// more than once, the last one.
pub open spec fn key_of(depots: Seq<ResolvedDepotSpec>, depot_id: u32) -> Option<Seq<u8>>
    decreases depots.len(),
{
    if depots.len() == 0 {
        None
    } else if depots.last().depot_id == depot_id {
        Some(depots.last().depot_key@)
    } else {
        key_of(depots.drop_last(), depot_id)
    }
}

/// The key that the operation carries for a depot.
pub fn key_of_depot<'a>(depots: &'a [ResolvedDepotSpec], depot_id: u32) -> (key: Option<
    &'a Vec<u8>,
>)
    ensures
        match key {
            Some(key) => key_of(depots@, depot_id) == Some(key@),
            None => key_of(depots@, depot_id) is None,
        },
{
    let mut at: usize = depots.len();
    proof {
        assert(depots@.take(at as int) == depots@);
    }
    while at > 0
        invariant
            at <= depots@.len(),
            key_of(depots@, depot_id) == key_of(depots@.take(at as int), depot_id),
        decreases at,
    {
        proof {
            assert(depots@.take(at as int).last() == depots@[at - 1]);
            assert(depots@.take(at as int).drop_last() == depots@.take(at - 1));
        }
        if depots[at - 1].depot_id == depot_id {
            return Some(&depots[at - 1].depot_key);
        }
        at -= 1;
    }
    None
}

/// The key of a depot is the one that was named for it last; a depot that was
/// not named has none.
pub proof fn law_last_key_counts(
    depots: Seq<ResolvedDepotSpec>,
    depot: ResolvedDepotSpec,
    depot_id: u32,
)
    ensures
        key_of(Seq::empty(), depot_id) is None,
        key_of(depots.push(depot), depot.depot_id) == Some(depot.depot_key@),
        depot_id != depot.depot_id ==> key_of(depots.push(depot), depot_id) == key_of(
            depots,
            depot_id,
        ),
{
    assert(depots.push(depot).drop_last() == depots);
}

} // verus!
