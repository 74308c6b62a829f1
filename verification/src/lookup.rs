use crate::groups::{FavoriteGroups, GroupView};
use crate::location::{is_private, location_to_world_id, world_id, PRIVATE_LOCATION};
use crate::worlds::WorldCache;
use vstd::prelude::*;

verus! {

/// The locations by which `groups` are keyed, in their order.
pub open spec fn locations(groups: Seq<GroupView>) -> Seq<Seq<char>> {
    Seq::new(groups.len(), |i: int| groups[i].location)
}

/// The world to ask for on account of a group at `location`, where the worlds
/// in `known` need not be asked for: none for the private location, for a
/// location that lies in no world, and for a world that is known. Only the
/// private location itself is private: one that goes on behind it with a
/// separator names a world like any other.
pub open spec fn wanted(location: Seq<char>, known: Set<Seq<char>>) -> Option<Seq<char>> {
    if location == PRIVATE_LOCATION@ {
        None
    } else {
        match world_id(location) {
            Some(id) => if known.contains(id) {
                None
            } else {
                Some(id)
            },
            None => None,
        }
    }
}

/// The worlds to ask for on account of groups at `locations`: each wanted
/// world once, in the order in which the locations first name them.
pub open spec fn lookups(locations: Seq<Seq<char>>, known: Set<Seq<char>>) -> Seq<Seq<char>>
    decreases locations.len(),
{
    if locations.len() == 0 {
        Seq::empty()
    } else {
        let before = lookups(locations.drop_last(), known);
        match wanted(locations.last(), known) {
            Some(id) => if before.contains(id) {
                before
            } else {
                before.push(id)
            },
            None => before,
        }
    }
}

/// The test that a location passes that is not the private location.
pub open spec fn is_public() -> spec_fn(Seq<char>) -> bool {
    |location: Seq<char>| location != PRIVATE_LOCATION@
}

/// No world is asked for twice, and a world is asked for just when some
/// location wants it.
pub proof fn lemma_lookups_once(locations: Seq<Seq<char>>, known: Set<Seq<char>>)
    ensures
        lookups(locations, known).no_duplicates(),
        forall|id: Seq<char>|
            lookups(locations, known).contains(id) <==> exists|i: int|
                0 <= i < locations.len() && wanted(#[trigger] locations[i], known) == Some(id),
    decreases locations.len(),
{
    let found = lookups(locations, known);
    if locations.len() > 0 {
        let front = locations.drop_last();
        let before = lookups(front, known);
        lemma_lookups_once(front, known);
        assert forall|id: Seq<char>| found.contains(id) implies exists|i: int|
            0 <= i < locations.len() && wanted(#[trigger] locations[i], known) == Some(id) by {
            if before.contains(id) {
                let i = choose|i: int|
                    0 <= i < front.len() && wanted(#[trigger] front[i], known) == Some(id);
                assert(wanted(locations[i], known) == Some(id));
            } else {
                let k = choose|k: int| 0 <= k < found.len() && found[k] == id;
                assert(k == before.len());
                assert(wanted(locations[locations.len() - 1], known) == Some(id));
            }
        }
        assert forall|id: Seq<char>|
            (exists|i: int|
                0 <= i < locations.len() && wanted(#[trigger] locations[i], known) == Some(
                    id,
                )) implies found.contains(id) by {
            let i = choose|i: int|
                0 <= i < locations.len() && wanted(#[trigger] locations[i], known) == Some(id);
            if i < front.len() {
                assert(front[i] == locations[i]);
                assert(before.contains(id));
            }
            if before.contains(id) {
                let k = choose|k: int| 0 <= k < before.len() && before[k] == id;
                assert(found[k] == id);
            } else {
                assert(found[before.len() as int] == id);
            }
        }
    }
}

/// The private location lies in no world and wants none, and locations ask
/// for the same worlds with or without the private ones among them.
pub proof fn lemma_private_location_asks_nothing(locations: Seq<Seq<char>>, known: Set<Seq<char>>)
    ensures
        world_id(PRIVATE_LOCATION@) is None,
        wanted(PRIVATE_LOCATION@, known) is None,
        lookups(locations.filter(is_public()), known) == lookups(locations, known),
    decreases locations.len(),
{
    reveal_strlit("private");
    assert(PRIVATE_LOCATION@.len() == 7);
    reveal(Seq::filter);
    if locations.len() > 0 {
        let front = locations.drop_last();
        lemma_private_location_asks_nothing(front, known);
        if locations.last() != PRIVATE_LOCATION@ {
            assert(front.filter(is_public()).push(locations.last()).drop_last()
                =~= front.filter(is_public()));
        }
    }
}

/// Tells whether `id` is among `ids`.
fn is_listed(ids: &Vec<String>, id: &String) -> (listed: bool)
    ensures
        listed == ids.deep_view().contains(id@),
{
    let mut i: usize = 0;
    while i < ids.len()
        invariant
            i <= ids.len(),
            forall|j: int| 0 <= j < i ==> #[trigger] ids.deep_view()[j] != id@,
        decreases ids.len() - i,
    {
        if ids[i] == *id {
            assert(ids.deep_view()[i as int] == id@);
            return true;
        }
        i += 1;
    }
    false
}

/// The ids of the worlds that are to be asked for: one for each world that
/// a group's location names and `worlds` does not hold.
pub fn world_ids_to_fetch(groups: &FavoriteGroups, worlds: &WorldCache) -> (ids: Vec<String>)
    ensures
        ids.deep_view() == lookups(locations(groups@), worlds@.dom()),
{
    let ghost all = locations(groups@);
    let ghost known = worlds@.dom();
    let mut ids: Vec<String> = Vec::new();
    let mut i: usize = 0;
    assert(all.take(0) =~= Seq::<Seq<char>>::empty());
    assert(ids.deep_view() =~= Seq::<Seq<char>>::empty());
    while i < groups.len()
        invariant
            i <= groups@.len(),
            all == locations(groups@),
            known == worlds@.dom(),
            ids.deep_view() == lookups(all.take(i as int), known),
        decreases groups@.len() - i,
    {
        let ghost before = ids.deep_view();
        assert(all.take(i + 1).drop_last() =~= all.take(i as int));
        assert(all.take(i + 1).last() == groups@[i as int].location);
        match groups.get(i) {
            Some(group) => {
                if !is_private(group.location.as_str()) {
                    match location_to_world_id(group.location.as_str()) {
                        Some(id) => {
                            if !worlds.contains(id.as_str()) && !is_listed(&ids, &id) {
                                ids.push(id);
                                assert(ids.deep_view() =~= before.push(id@));
                            }
                        },
                        None => {},
                    }
                }
            },
            None => {},
        }
        i += 1;
    }
    assert(all.take(i as int) =~= all);
    ids
}

} // verus!
