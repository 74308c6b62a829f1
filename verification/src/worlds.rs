use crate::entity::World;
use crate::location::{location_to_world_id, world_id};
use vstd::hash_map::StringHashMap;
use vstd::prelude::*;

verus! {

/// The worlds that are known, each under its id. A world that has come in
/// stays; one that comes in again takes the place of the one with its id.
pub struct WorldCache {
    worlds: StringHashMap<World>,
}

impl View for WorldCache {
    type V = Map<Seq<char>, World>;

    closed spec fn view(&self) -> Map<Seq<char>, World> {
        self.worlds@
    }
}

/// The world in which `location` lies, where `worlds` holds it.
pub open spec fn world_at(worlds: Map<Seq<char>, World>, location: Seq<char>) -> Option<World> {
    match world_id(location) {
        Some(id) => if worlds.contains_key(id) {
            Some(worlds[id])
        } else {
            None
        },
        None => None,
    }
}

impl WorldCache {
    /// A cache that holds no world.
    pub fn new() -> (cache: Self)
        ensures
            cache@ == Map::<Seq<char>, World>::empty(),
    {
        WorldCache { worlds: StringHashMap::new() }
    }

    /// Takes in `world` under its id.
    pub fn merge(&mut self, world: World)
        ensures
            final(self)@ == old(self)@.insert(world@.id, world),
    {
        self.worlds.insert(world.id.clone(), world);
    }

    /// Tells whether the world with id `id` is known.
    pub fn contains(&self, id: &str) -> (known: bool)
        ensures
            known == self@.contains_key(id@),
    {
        self.worlds.contains_key(id)
    }

    /// The world with id `id`, where it is known.
    pub fn get(&self, id: &str) -> (world: Option<&World>)
        ensures
            match world {
                Some(found) => self@.contains_key(id@) && *found == self@[id@],
                None => !self@.contains_key(id@),
            },
    {
        self.worlds.get(id)
    }

    /// The number of worlds that are known.
    pub fn len(&self) -> (count: usize)
        ensures
            count == self@.len(),
    {
        self.worlds.len()
    }

    /// The world in which `location` lies, where it is known.
    pub fn world_of(&self, location: &str) -> (world: Option<&World>)
        ensures
            match world {
                Some(found) => world_at(self@, location@) == Some(*found),
                None => world_at(self@, location@) is None,
            },
    {
        match location_to_world_id(location) {
            Some(id) => self.worlds.get(id.as_str()),
            None => None,
        }
    }
}

/// Taking a world in twice is the same as taking it in once.
pub proof fn lemma_merge_idempotent(worlds: Map<Seq<char>, World>, world: World)
    ensures
        worlds.insert(world@.id, world).insert(world@.id, world) == worlds.insert(world@.id, world),
{
    assert(worlds.insert(world@.id, world).insert(world@.id, world) =~= worlds.insert(
        world@.id,
        world,
    ));
}

/// Worlds with different ids can be taken in in either order.
pub proof fn lemma_merge_commutes(worlds: Map<Seq<char>, World>, first: World, second: World)
    requires
        first@.id != second@.id,
    ensures
        worlds.insert(first@.id, first).insert(second@.id, second) == worlds.insert(
            second@.id,
            second,
        ).insert(first@.id, first),
{
    assert(worlds.insert(first@.id, first).insert(second@.id, second) =~= worlds.insert(
        second@.id,
        second,
    ).insert(first@.id, first));
}

} // verus!
