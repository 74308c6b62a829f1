use crate::entity::{Favorite, Friend, World};
use crate::fetcher::{
    action_for, distinct_tickets, issued, issued_times, outcome_of, request, settled, Action,
    Dispatch, FetchTask, Fetcher, Method, RequestView,
};
use crate::groups::{well_grouped, FavoriteGroups, GroupView};
use crate::lookup::{lemma_lookups_once, locations, lookups, world_ids_to_fetch};
use crate::partition::{
    all_members, favorited, lemma_partition_keeps_everyone, lemma_place_all_members, partition,
    place_all, remainder,
};
use crate::worlds::WorldCache;
use vstd::prelude::*;
use vstd::string::StringExecFns;

verus! {

/// Where the list of favorites is asked for.
pub const FAVORITES_URL: &'static str = "https://vrchat.com/api/1/favorites?n=100&type=friend";

/// Where the list of friends is asked for.
pub const FRIENDS_URL: &'static str = "https://vrchat.com/api/1/auth/user/friends";

/// Where a world is asked for: its id follows.
pub const WORLDS_URL: &'static str = "https://vrchat.com/api/1/worlds/";

/// What a request asks for.
#[derive(Clone, Copy, Debug, PartialEq, Eq, Structural)]
pub enum Resource {
    Favorites,
    Friends,
    World,
}

/// A request that is to be sent, with what it asks for.
#[derive(Clone, Debug, PartialEq, Eq)]
pub struct Fetch {
    pub resource: Resource,
    pub dispatch: Dispatch,
}

/// A request that is to be sent, as text.
pub struct FetchView {
    pub resource: Resource,
    pub ticket: usize,
    pub request: RequestView,
}

impl View for Fetch {
    type V = FetchView;

    open spec fn view(&self) -> FetchView {
        FetchView {
            resource: self.resource,
            ticket: self.dispatch.ticket,
            request: self.dispatch.request@,
        }
    }
}

/// What can happen to the model.
pub enum Msg {
    /// The list of friends has arrived.
    DidFetchFriends(Vec<Friend>),
    /// The list of favorites has arrived.
    DidFetchFavorites(Vec<Favorite>),
    /// A world has arrived.
    DidFetchWorld(World),
    /// The user asks for the friends to be read again.
    Reload,
}

/// What is to be done after the model has taken in a message.
pub struct Update {
    /// Whether the model is to be shown again.
    pub should_render: bool,
    /// The requests that are to be sent, in this order.
    pub fetches: Vec<Fetch>,
}

/// The state of the friends board.
pub struct Model {
    counter: i32,
    friends: Vec<Friend>,
    favorites: Vec<Favorite>,
    favorite_friends: FavoriteGroups,
    worlds: WorldCache,
    fetcher: Fetcher,
}

/// The state of the friends board as mathematical values.
pub struct ModelView {
    pub counter: int,
    /// Those of the friends that arrived last who were not favorited.
    pub friends: Seq<Friend>,
    pub favorites: Seq<Favorite>,
    /// The favorited among the friends that arrived last, by location.
    pub groups: Seq<GroupView>,
    /// The worlds that are known, by id.
    pub worlds: Map<Seq<char>, World>,
    /// The requests that are tracked.
    pub tasks: Seq<FetchTask>,
}

impl View for Model {
    type V = ModelView;

    closed spec fn view(&self) -> ModelView {
        ModelView {
            counter: self.counter as int,
            friends: self.friends@,
            favorites: self.favorites@,
            groups: self.favorite_friends@,
            worlds: self.worlds@,
            tasks: self.fetcher@,
        }
    }
}

/// The request for `resource` at `url`, sent as the next one after `tasks`.
pub open spec fn fetch_after(tasks: Seq<FetchTask>, resource: Resource, url: Seq<char>) -> FetchView {
    FetchView {
        resource,
        ticket: issued(tasks).last().ticket,
        request: request(Method::Get, url, None),
    }
}

/// The requests for the worlds `ids`, sent one after the other after `tasks`.
pub open spec fn world_fetches(tasks: Seq<FetchTask>, ids: Seq<Seq<char>>) -> Seq<FetchView> {
    Seq::new(
        ids.len(),
        |k: int|
            fetch_after(issued_times(tasks, k as nat), Resource::World, WORLDS_URL@ + ids[k]),
    )
}

/// The views of `fetches`, in order.
pub open spec fn fetch_views(fetches: Seq<Fetch>) -> Seq<FetchView> {
    Seq::new(fetches.len(), |k: int| fetches[k]@)
}

/// The groups into which `favorites` sorts `friends`: the groups there were
/// before play no part.
pub open spec fn grouped(friends: Seq<Friend>, favorites: Seq<Favorite>) -> Seq<GroupView> {
    place_all(Seq::empty(), favorited(friends, favorites))
}

/// The worlds that `model` has to ask for once `friends` have arrived and
/// have been sorted: those that the new groups' locations name and that are
/// not known.
pub open spec fn worlds_to_ask(model: ModelView, friends: Seq<Friend>) -> Seq<Seq<char>> {
    lookups(locations(grouped(friends, model.favorites)), model.worlds.dom())
}

/// The model after it has taken in `msg`.
pub open spec fn next(model: ModelView, msg: Msg) -> ModelView {
    match msg {
        Msg::DidFetchFriends(friends) => ModelView {
            friends: remainder(friends@, model.favorites),
            groups: grouped(friends@, model.favorites),
            tasks: issued_times(model.tasks, worlds_to_ask(model, friends@).len()),
            ..model
        },
        Msg::DidFetchFavorites(favorites) => ModelView {
            favorites: favorites@,
            tasks: issued(model.tasks),
            ..model
        },
        Msg::DidFetchWorld(world) => ModelView {
            worlds: model.worlds.insert(world@.id, world),
            ..model
        },
        Msg::Reload => ModelView { tasks: issued(model.tasks), ..model },
    }
}

/// The requests that are to be sent once `model` has taken in `msg`.
pub open spec fn asked(model: ModelView, msg: Msg) -> Seq<FetchView> {
    match msg {
        Msg::DidFetchFriends(friends) => world_fetches(
            model.tasks,
            worlds_to_ask(model, friends@),
        ),
        Msg::DidFetchFavorites(favorites) => seq![
            fetch_after(model.tasks, Resource::Friends, FRIENDS_URL@),
        ],
        Msg::DidFetchWorld(world) => Seq::empty(),
        Msg::Reload => seq![fetch_after(model.tasks, Resource::Friends, FRIENDS_URL@)],
    }
}

/// Whether the model is to be shown again once it has taken in `msg`.
pub open spec fn renders(msg: Msg) -> bool {
    !(msg is DidFetchFavorites)
}

/// A world that is known stays known, whatever the model takes in.
pub proof fn lemma_worlds_only_grow(model: ModelView, msg: Msg, id: Seq<char>)
    requires
        model.worlds.contains_key(id),
    ensures
        next(model, msg).worlds.contains_key(id),
{
}

/// No world that is known is asked for.
pub proof fn lemma_known_world_not_asked(model: ModelView, friends: Seq<Friend>, id: Seq<char>)
    requires
        model.worlds.contains_key(id),
    ensures
        !worlds_to_ask(model, friends).contains(id),
{
    lemma_lookups_once(locations(grouped(friends, model.favorites)), model.worlds.dom());
}

/// When friends arrive, no two of the requests that are to be sent ask for
/// the same world, and each asks for a world that some group's location names
/// and that is not known.
pub proof fn lemma_each_world_asked_once(model: ModelView, friends: Vec<Friend>)
    ensures
        ({
            let fetches = asked(model, Msg::DidFetchFriends(friends));
            let ids = worlds_to_ask(model, friends@);
            &&& fetches.len() == ids.len()
            &&& ids.no_duplicates()
            &&& forall|a: int|
                0 <= a < fetches.len() ==> (#[trigger] fetches[a]).request.url == WORLDS_URL@
                    + ids[a] && !model.worlds.contains_key(ids[a])
            &&& forall|a: int, b: int|
                0 <= a < b < fetches.len() ==> (#[trigger] fetches[a]).request.url != (
                #[trigger] fetches[b]).request.url
        }),
{
    let fetches = asked(model, Msg::DidFetchFriends(friends));
    let ids = worlds_to_ask(model, friends@);
    lemma_lookups_once(locations(grouped(friends@, model.favorites)), model.worlds.dom());
    assert forall|a: int| 0 <= a < fetches.len() implies !model.worlds.contains_key(ids[a]) by {
        assert(ids.contains(ids[a]));
    }
    assert forall|a: int, b: int| 0 <= a < b < fetches.len() implies (
    #[trigger] fetches[a]).request.url != (#[trigger] fetches[b]).request.url by {
        let start = WORLDS_URL@.len() as int;
        assert((WORLDS_URL@ + ids[a]).subrange(start, start + ids[a].len()) =~= ids[a]);
        assert((WORLDS_URL@ + ids[b]).subrange(start, start + ids[b].len()) =~= ids[b]);
        assert(ids[a] != ids[b]);
    }
}

/// Friends that arrive replace the ones there were, in the groups too: what
/// is left over and what the groups hold are, counted as often as they
/// occur, the friends that arrived, and nothing else. The groups are well
/// grouped, and neither they nor what is left over depend on what the model
/// held before, but for its favorites.
pub proof fn lemma_arriving_friends_replace(model: ModelView, other: ModelView, friends: Vec<Friend>)
    requires
        model.favorites == other.favorites,
    ensures
        ({
            let after = next(model, Msg::DidFetchFriends(friends));
            let beside = next(other, Msg::DidFetchFriends(friends));
            &&& well_grouped(after.groups)
            &&& (after.friends + all_members(after.groups)).to_multiset()
                == friends@.to_multiset()
            &&& after.groups == beside.groups
            &&& after.friends == beside.friends
        }),
{
    let none = Seq::<GroupView>::empty();
    lemma_place_all_members(none, favorited(friends@, model.favorites), Seq::empty());
    lemma_partition_keeps_everyone(friends@, model.favorites, none);
    assert(friends@ + all_members(none) =~= friends@);
}

/// The same friends arriving again, as after a reload, leave the groups and
/// what is left over as they were: nobody stands in a group twice.
pub proof fn lemma_same_friends_again(model: ModelView, friends: Vec<Friend>)
    ensures
        ({
            let once = next(model, Msg::DidFetchFriends(friends));
            let reloaded = next(once, Msg::Reload);
            let twice = next(reloaded, Msg::DidFetchFriends(friends));
            &&& twice.groups == once.groups
            &&& twice.friends == once.friends
        }),
{
}

impl Model {
    /// A model that knows nothing yet, with the request for the favorites,
    /// which is to be sent first.
    pub fn create() -> (made: (Model, Fetch))
        ensures
            made.0@ == (ModelView {
                counter: 0,
                friends: Seq::empty(),
                favorites: Seq::empty(),
                groups: Seq::empty(),
                worlds: Map::empty(),
                tasks: issued(Seq::empty()),
            }),
            made.1@ == fetch_after(Seq::empty(), Resource::Favorites, FAVORITES_URL@),
            well_grouped(made.0@.groups),
            distinct_tickets(made.0@.tasks),
    {
        let mut me = Model {
            counter: 0,
            friends: Vec::new(),
            favorites: Vec::new(),
            favorite_friends: FavoriteGroups::new(),
            worlds: WorldCache::new(),
            fetcher: Fetcher::new(),
        };
        let fetch = me.fetch_favorites();
        proof {
            use_type_invariant(&me.favorite_friends);
            use_type_invariant(&me.fetcher);
        }
        (me, fetch)
    }

    /// Takes in `msg` and says what is to be done.
    pub fn update(&mut self, msg: Msg) -> (update: Update)
        ensures
            final(self)@ == next(old(self)@, msg),
            fetch_views(update.fetches@) == asked(old(self)@, msg),
            update.should_render == renders(msg),
            well_grouped(final(self)@.groups),
            distinct_tickets(final(self)@.tasks),
    {
        let update = match msg {
            Msg::DidFetchFriends(friends) => {
                self.friends = friends;
                let fetches = self.pick_up_favorite_friends();
                Update { should_render: true, fetches }
            },
            Msg::DidFetchFavorites(favorites) => {
                self.favorites = favorites;
                let fetch = self.fetch_friends();
                let mut fetches: Vec<Fetch> = Vec::new();
                fetches.push(fetch);
                assert(fetch_views(fetches@) =~= asked(old(self)@, msg));
                Update { should_render: false, fetches }
            },
            Msg::DidFetchWorld(world) => {
                self.worlds.merge(world);
                let fetches: Vec<Fetch> = Vec::new();
                assert(fetch_views(fetches@) =~= asked(old(self)@, msg));
                Update { should_render: true, fetches }
            },
            Msg::Reload => {
                let fetch = self.fetch_friends();
                let mut fetches: Vec<Fetch> = Vec::new();
                fetches.push(fetch);
                assert(fetch_views(fetches@) =~= asked(old(self)@, msg));
                Update { should_render: true, fetches }
            },
        };
        proof {
            use_type_invariant(&self.favorite_friends);
            use_type_invariant(&self.fetcher);
        }
        update
    }

    /// Takes in the response to the request sent with `ticket`: the request
    /// has ended, and the status and the decoded body decide what is to be
    /// done.
    pub fn respond<T, E>(&mut self, ticket: usize, status: u16, body: Result<T, E>) -> (action:
        Action<T, E>)
        ensures
            final(self)@ == (ModelView {
                tasks: settled(old(self)@.tasks, ticket),
                ..old(self)@
            }),
            action == action_for(outcome_of(status, body)),
            well_grouped(final(self)@.groups),
            distinct_tickets(final(self)@.tasks),
    {
        proof {
            use_type_invariant(&self.favorite_friends);
        }
        self.fetcher.respond(ticket, status, body)
    }

    /// The number of clicks counted.
    pub fn counter(&self) -> (count: i32)
        ensures
            count == self@.counter,
    {
        self.counter
    }

    /// The friends that the last sorting left over.
    pub fn friends(&self) -> (friends: &Vec<Friend>)
        ensures
            friends@ == self@.friends,
    {
        &self.friends
    }

    /// The favorites.
    pub fn favorites(&self) -> (favorites: &Vec<Favorite>)
        ensures
            favorites@ == self@.favorites,
    {
        &self.favorites
    }

    /// The favorited friends by location.
    pub fn favorite_friends(&self) -> (groups: &FavoriteGroups)
        ensures
            groups@ == self@.groups,
            well_grouped(self@.groups),
    {
        proof {
            use_type_invariant(&self.favorite_friends);
        }
        &self.favorite_friends
    }

    /// The requests that are tracked.
    pub fn fetcher(&self) -> (fetcher: &Fetcher)
        ensures
            fetcher@ == self@.tasks,
            distinct_tickets(self@.tasks),
    {
        proof {
            use_type_invariant(&self.fetcher);
        }
        &self.fetcher
    }

    /// The worlds that are known.
    pub fn worlds(&self) -> (worlds: &WorldCache)
        ensures
            worlds@ == self@.worlds,
    {
        &self.worlds
    }

    /// Tracks the request for the favorites and hands it back to be sent.
    fn fetch_favorites(&mut self) -> (fetch: Fetch)
        ensures
            final(self)@ == (ModelView { tasks: issued(old(self)@.tasks), ..old(self)@ }),
            fetch@ == fetch_after(old(self)@.tasks, Resource::Favorites, FAVORITES_URL@),
    {
        let dispatch = self.fetcher.get(FAVORITES_URL);
        Fetch { resource: Resource::Favorites, dispatch }
    }

    /// Tracks the request for the friends and hands it back to be sent.
    fn fetch_friends(&mut self) -> (fetch: Fetch)
        ensures
            final(self)@ == (ModelView { tasks: issued(old(self)@.tasks), ..old(self)@ }),
            fetch@ == fetch_after(old(self)@.tasks, Resource::Friends, FRIENDS_URL@),
    {
        let dispatch = self.fetcher.get(FRIENDS_URL);
        Fetch { resource: Resource::Friends, dispatch }
    }

    /// Tracks the request for the world `world_id` and hands it back to be
    /// sent.
    fn fetch_world(&mut self, world_id: &str) -> (fetch: Fetch)
        ensures
            final(self)@ == (ModelView { tasks: issued(old(self)@.tasks), ..old(self)@ }),
            fetch@ == fetch_after(old(self)@.tasks, Resource::World, WORLDS_URL@ + world_id@),
    {
        let url = String::from_str(WORLDS_URL).concat(world_id);
        let dispatch = self.fetcher.get(url.as_str());
        Fetch { resource: Resource::World, dispatch }
    }

    /// Sorts the favorited friends out of the friends and into groups by
    /// location, starting from no groups, and tracks a request for each world
    /// that a group's location names and that is not known. The requests are
    /// handed back to be sent.
    fn pick_up_favorite_friends(&mut self) -> (fetches: Vec<Fetch>)
        ensures
            final(self)@ == (ModelView {
                friends: remainder(old(self)@.friends, old(self)@.favorites),
                groups: grouped(old(self)@.friends, old(self)@.favorites),
                tasks: issued_times(
                    old(self)@.tasks,
                    worlds_to_ask(old(self)@, old(self)@.friends).len(),
                ),
                ..old(self)@
            }),
            fetch_views(fetches@) == world_fetches(
                old(self)@.tasks,
                worlds_to_ask(old(self)@, old(self)@.friends),
            ),
    {
        self.favorite_friends = FavoriteGroups::new();
        partition(&mut self.friends, &self.favorites, &mut self.favorite_friends);
        let world_ids = world_ids_to_fetch(&self.favorite_friends, &self.worlds);
        let ghost sorted = self@;
        let ghost ids = world_ids.deep_view();
        let mut fetches: Vec<Fetch> = Vec::new();
        let mut k: usize = 0;
        while k < world_ids.len()
            invariant
                k <= world_ids.len(),
                ids == world_ids.deep_view(),
                self@ == (ModelView { tasks: issued_times(sorted.tasks, k as nat), ..sorted }),
                fetch_views(fetches@) == world_fetches(sorted.tasks, ids).take(k as int),
            decreases world_ids.len() - k,
        {
            let ghost sent = fetch_views(fetches@);
            assert(ids[k as int] == world_ids@[k as int]@);
            let fetch = self.fetch_world(world_ids[k].as_str());
            fetches.push(fetch);
            k += 1;
            assert(fetch_views(fetches@) =~= sent.push(fetch@));
            assert(fetch_views(fetches@) =~= world_fetches(sorted.tasks, ids).take(k as int));
        }
        assert(world_fetches(sorted.tasks, ids).take(k as int) =~= world_fetches(sorted.tasks, ids));
        fetches
    }
}

} // verus!
