use crate::entity::Friend;
use vstd::prelude::*;
use vstd::string::StringExecFns;

verus! {

/// The favorited friends that share one location.
pub struct Group {
    pub location: String,
    pub friends: Vec<Friend>,
}

/// A group as its location's text and its members in the order they came.
pub struct GroupView {
    pub location: Seq<char>,
    pub friends: Seq<Friend>,
}

impl View for Group {
    type V = GroupView;

    open spec fn view(&self) -> GroupView {
        GroupView { location: self.location@, friends: self.friends@ }
    }
}

/// Some group in `groups` is keyed by `location`.
pub open spec fn has_group(groups: Seq<GroupView>, location: Seq<char>) -> bool {
    exists|i: int| 0 <= i < groups.len() && (#[trigger] groups[i]).location == location
}

/// The place of the group keyed by `location`, where there is one.
pub open spec fn group_index(groups: Seq<GroupView>, location: Seq<char>) -> int {
    choose|i: int| 0 <= i < groups.len() && (#[trigger] groups[i]).location == location
}

/// No two groups share a location, no group is empty, and every member is at
/// its group's location.
pub open spec fn well_grouped(groups: Seq<GroupView>) -> bool {
    &&& forall|i: int, j: int|
        0 <= i < j < groups.len() ==> (#[trigger] groups[i]).location != (
        #[trigger] groups[j]).location
    &&& forall|i: int| 0 <= i < groups.len() ==> (#[trigger] groups[i]).friends.len() > 0
    &&& forall|i: int, k: int|
        0 <= i < groups.len() && 0 <= k < groups[i].friends.len() ==> (
        #[trigger] groups[i].friends[k])@.location == groups[i].location
}

/// `groups` after `friend` has joined the group of their location: the last
/// member of that group if there is one, else the only member of a new last
/// group.
pub open spec fn place(groups: Seq<GroupView>, friend: Friend) -> Seq<GroupView> {
    if has_group(groups, friend@.location) {
        let i = group_index(groups, friend@.location);
        groups.update(
            i,
            GroupView { location: groups[i].location, friends: groups[i].friends.push(friend) },
        )
    } else {
        groups.push(GroupView { location: friend@.location, friends: seq![friend] })
    }
}

/// In well-grouped groups the group keyed by a location is found at one place
/// only.
pub proof fn lemma_group_index(groups: Seq<GroupView>, location: Seq<char>, i: int)
    requires
        well_grouped(groups),
        0 <= i < groups.len(),
        groups[i].location == location,
    ensures
        has_group(groups, location),
        group_index(groups, location) == i,
{
    let c = group_index(groups, location);
    if c < i {
        assert(groups[c].location != groups[i].location);
    } else if i < c {
        assert(groups[i].location != groups[c].location);
    }
}

/// Placing a friend keeps the groups well grouped.
pub proof fn lemma_place_well_grouped(groups: Seq<GroupView>, friend: Friend)
    requires
        well_grouped(groups),
    ensures
        well_grouped(place(groups, friend)),
{
    let after = place(groups, friend);
    if has_group(groups, friend@.location) {
        let i = group_index(groups, friend@.location);
        assert forall|a: int, k: int|
            0 <= a < after.len() && 0 <= k < after[a].friends.len() implies (
        #[trigger] after[a].friends[k])@.location == after[a].location by {
            if a == i && k < groups[i].friends.len() {
                assert(after[a].friends[k] == groups[i].friends[k]);
            } else if a != i {
                assert(after[a].friends[k] == groups[a].friends[k]);
            }
        }
    }
}

/// The views of the groups in `groups`, in order.
pub open spec fn group_views(groups: Seq<Group>) -> Seq<GroupView> {
    Seq::new(groups.len(), |i: int| groups[i]@)
}

/// Puts `friend` into the group of their location.
fn place_friend(groups: &mut Vec<Group>, friend: Friend)
    requires
        well_grouped(group_views(old(groups)@)),
    ensures
        group_views(final(groups)@) == place(group_views(old(groups)@), friend),
{
    let ghost before = group_views(groups@);
    let mut i: usize = 0;
    while i < groups.len()
        invariant
            *groups == *old(groups),
            i <= groups.len(),
            before == group_views(groups@),
            well_grouped(before),
            forall|j: int| 0 <= j < i ==> (#[trigger] before[j]).location != friend@.location,
        decreases groups.len() - i,
    {
        if groups[i].location == friend.location {
            assert(before[i as int].location == friend@.location);
            proof {
                lemma_group_index(before, friend@.location, i as int);
            }
            groups[i].friends.push(friend);
            assert(group_views(groups@) =~= place(before, friend));
            return ;
        }
        i += 1;
    }
    assert(!has_group(before, friend@.location));
    let location = friend.location.clone();
    let mut friends: Vec<Friend> = Vec::new();
    friends.push(friend);
    groups.push(Group { location, friends });
    assert(group_views(groups@) =~= place(before, friend));
}

/// The members of the group keyed by `location`; none where there is no such
/// group.
pub open spec fn members(groups: Seq<GroupView>, location: Seq<char>) -> Seq<Friend> {
    if has_group(groups, location) {
        groups[group_index(groups, location)].friends
    } else {
        Seq::empty()
    }
}

/// A friend who is placed becomes the last member of the group of their
/// location, and the other groups keep their members.
pub proof fn lemma_place_members(groups: Seq<GroupView>, friend: Friend, location: Seq<char>)
    requires
        well_grouped(groups),
    ensures
        members(place(groups, friend), location) == if friend@.location == location {
            members(groups, location).push(friend)
        } else {
            members(groups, location)
        },
{
    let after = place(groups, friend);
    lemma_place_well_grouped(groups, friend);
    if has_group(groups, friend@.location) {
        let at = group_index(groups, friend@.location);
        if has_group(groups, location) {
            let i = group_index(groups, location);
            assert(after[i].location == location);
            lemma_group_index(after, location, i);
        } else {
            if has_group(after, location) {
                let i = group_index(after, location);
                assert(groups[i].location == location);
            }
        }
    } else {
        if has_group(groups, location) {
            let i = group_index(groups, location);
            assert(after[i].location == location);
            lemma_group_index(after, location, i);
        } else if friend@.location == location {
            assert(after[groups.len() as int].location == location);
            lemma_group_index(after, location, groups.len() as int);
        } else {
            if has_group(after, location) {
                let i = group_index(after, location);
                assert(groups[i].location == location);
            }
        }
    }
}

/// The favorited friends, one group for each location, in the order in which
/// the locations were first met.
pub struct FavoriteGroups {
    groups: Vec<Group>,
}

impl View for FavoriteGroups {
    type V = Seq<GroupView>;

    closed spec fn view(&self) -> Seq<GroupView> {
        group_views(self.groups@)
    }
}

impl FavoriteGroups {
    #[verifier::type_invariant]
    pub(crate) open spec fn inv(&self) -> bool {
        well_grouped(self@)
    }

    /// No groups.
    pub fn new() -> (groups: Self)
        ensures
            groups@ == Seq::<GroupView>::empty(),
            well_grouped(groups@),
    {
        FavoriteGroups { groups: Vec::new() }
    }

    /// The number of groups.
    pub fn len(&self) -> (count: usize)
        ensures
            count == self@.len(),
            well_grouped(self@),
    {
        proof {
            use_type_invariant(self);
        }
        self.groups.len()
    }

    /// The group at place `i`, where there is one.
    pub fn get(&self, i: usize) -> (group: Option<&Group>)
        ensures
            match group {
                Some(found) => i < self@.len() && found@ == self@[i as int],
                None => i >= self@.len(),
            },
            well_grouped(self@),
    {
        proof {
            use_type_invariant(self);
        }
        if i < self.groups.len() {
            Some(&self.groups[i])
        } else {
            None
        }
    }

    /// The members of the group keyed by `location`, where there is one.
    pub fn find(&self, location: &str) -> (found: Option<&Vec<Friend>>)
        ensures
            match found {
                Some(friends) => has_group(self@, location@) && friends@ == members(
                    self@,
                    location@,
                ),
                None => !has_group(self@, location@),
            },
            well_grouped(self@),
    {
        proof {
            use_type_invariant(self);
        }
        let key = String::from_str(location);
        let mut i: usize = 0;
        while i < self.groups.len()
            invariant
                i <= self.groups.len(),
                key@ == location@,
                well_grouped(self@),
                forall|j: int| 0 <= j < i ==> (#[trigger] self@[j]).location != location@,
            decreases self.groups.len() - i,
        {
            if self.groups[i].location == key {
                proof {
                    lemma_group_index(self@, location@, i as int);
                }
                return Some(&self.groups[i].friends);
            }
            i += 1;
        }
        None
    }

    /// Puts `friend` into the group of their location.
    pub fn add(&mut self, friend: Friend)
        ensures
            final(self)@ == place(old(self)@, friend),
            well_grouped(final(self)@),
    {
        proof {
            use_type_invariant(&*self);
            lemma_place_well_grouped(self@, friend);
        }
        // The groups are taken out, changed, and put back in one piece.
        let mut groups: Vec<Group> = Vec::new();
        std::mem::swap(&mut self.groups, &mut groups);
        place_friend(&mut groups, friend);
        self.groups = groups;
    }
}

} // verus!
