use crate::entity::{Favorite, Friend};
use crate::groups::{
    group_index, has_group, lemma_group_index, lemma_place_members, lemma_place_well_grouped,
    members, place, well_grouped, FavoriteGroups, GroupView,
};
use vstd::multiset::{lemma_multiset_empty_len, Multiset};
use vstd::prelude::*;
use vstd::seq_lib::{lemma_multiset_commutative, to_multiset_build, to_multiset_len};

verus! {

/// Some marker in `favorites` refers to `friend`.
pub open spec fn is_favorite(friend: Friend, favorites: Seq<Favorite>) -> bool {
    exists|j: int| 0 <= j < favorites.len() && (#[trigger] favorites[j])@.favorite_id == friend@.id
}

/// The test that a friend passes whom `favorites` marks.
pub open spec fn marked_by(favorites: Seq<Favorite>) -> spec_fn(Friend) -> bool {
    |friend: Friend| is_favorite(friend, favorites)
}

/// The test that a friend passes whom `favorites` does not mark.
pub open spec fn unmarked_by(favorites: Seq<Favorite>) -> spec_fn(Friend) -> bool {
    |friend: Friend| !is_favorite(friend, favorites)
}

/// The test that a friend passes who is at `location`.
pub open spec fn is_at(location: Seq<char>) -> spec_fn(Friend) -> bool {
    |friend: Friend| friend@.location == location
}

/// The friends in `friends` that `favorites` marks, in their order.
pub open spec fn favorited(friends: Seq<Friend>, favorites: Seq<Favorite>) -> Seq<Friend> {
    friends.filter(marked_by(favorites))
}

/// The friends in `friends` that `favorites` does not mark, in their order.
pub open spec fn remainder(friends: Seq<Friend>, favorites: Seq<Favorite>) -> Seq<Friend> {
    friends.filter(unmarked_by(favorites))
}

/// The friends in `friends` that are at `location`, in their order.
pub open spec fn located(friends: Seq<Friend>, location: Seq<char>) -> Seq<Friend> {
    friends.filter(is_at(location))
}

/// `groups` after each of `friends` has been placed, the first one first.
pub open spec fn place_all(groups: Seq<GroupView>, friends: Seq<Friend>) -> Seq<GroupView>
    decreases friends.len(),
{
    if friends.len() == 0 {
        groups
    } else {
        place(place_all(groups, friends.drop_last()), friends.last())
    }
}

/// The members of all `groups`, group after group.
pub open spec fn all_members(groups: Seq<GroupView>) -> Seq<Friend>
    decreases groups.len(),
{
    if groups.len() == 0 {
        Seq::empty()
    } else {
        all_members(groups.drop_last()) + groups.last().friends
    }
}

/// Tells whether some marker in `favorites` refers to `friend`.
pub fn is_favorite_friend(friend: &Friend, favorites: &Vec<Favorite>) -> (marked: bool)
    ensures
        marked == is_favorite(*friend, favorites@),
{
    let mut j: usize = 0;
    while j < favorites.len()
        invariant
            j <= favorites.len(),
            forall|a: int| 0 <= a < j ==> (#[trigger] favorites@[a])@.favorite_id != friend@.id,
        decreases favorites.len() - j,
    {
        if favorites[j].favorite_id == friend.id {
            return true;
        }
        j += 1;
    }
    false
}

/// Moves every friend that `favorites` marks out of `friends` and into the
/// group of their location, going through `friends` from the front. The
/// others stay in `friends`, in their order.
pub fn partition(friends: &mut Vec<Friend>, favorites: &Vec<Favorite>, groups: &mut FavoriteGroups)
    ensures
        final(friends)@ == remainder(old(friends)@, favorites@),
        final(groups)@ == place_all(old(groups)@, favorited(old(friends)@, favorites@)),
        well_grouped(final(groups)@),
{
    proof {
        use_type_invariant(&*groups);
    }
    let ghost all = friends@;
    let ghost start = groups@;
    let ghost mut seen: int = 0;
    let mut i: usize = 0;
    assert(all.take(0) =~= Seq::<Friend>::empty());
    assert(all.skip(0) =~= all);
    while i < friends.len()
        invariant
            0 <= seen <= all.len(),
            i == remainder(all.take(seen), favorites@).len(),
            friends@ == remainder(all.take(seen), favorites@) + all.skip(seen),
            groups@ == place_all(start, favorited(all.take(seen), favorites@)),
            well_grouped(groups@),
        decreases all.len() - seen,
    {
        let ghost kept = remainder(all.take(seen), favorites@);
        let ghost moved = favorited(all.take(seen), favorites@);
        assert(seen < all.len() && friends@[i as int] == all[seen]) by {
            assert(friends@.len() == kept.len() + all.skip(seen).len());
            assert(friends@[i as int] == all.skip(seen)[0]);
        }
        proof {
            all.lemma_take_succ_push(seen);
            all.take(seen).lemma_filter_push(all[seen], marked_by(favorites@));
            all.take(seen).lemma_filter_push(all[seen], unmarked_by(favorites@));
        }
        if is_favorite_friend(&friends[i], favorites) {
            let friend = friends.remove(i);
            groups.add(friend);
            assert(friends@ =~= kept + all.skip(seen + 1));
            assert(moved.push(all[seen]).drop_last() =~= moved);
        } else {
            i += 1;
            assert(friends@ =~= kept.push(all[seen]) + all.skip(seen + 1));
        }
        proof {
            seen = seen + 1;
        }
    }
    assert(seen == all.len()) by {
        assert(friends@.len() == i + all.skip(seen).len());
    }
    assert(all.take(seen) =~= all);
    assert(all.skip(seen) =~= Seq::<Friend>::empty());
}

/// Friends who are placed join the group of their location in the order in
/// which they come, behind the members it had.
pub proof fn lemma_place_all_members(
    groups: Seq<GroupView>,
    friends: Seq<Friend>,
    location: Seq<char>,
)
    requires
        well_grouped(groups),
    ensures
        well_grouped(place_all(groups, friends)),
        members(place_all(groups, friends), location) == members(groups, location) + located(
            friends,
            location,
        ),
    decreases friends.len(),
{
    reveal(Seq::filter);
    if friends.len() > 0 {
        let front = friends.drop_last();
        lemma_place_all_members(groups, front, location);
        lemma_place_well_grouped(place_all(groups, front), friends.last());
        lemma_place_members(place_all(groups, front), friends.last(), location);
        assert(members(place_all(groups, friends), location) =~= members(groups, location)
            + located(friends, location));
    } else {
        assert(members(groups, location) + located(friends, location) =~= members(
            groups,
            location,
        ));
    }
}

/// Partitioning sorts every friend. One whom a favorite marks is in the
/// group keyed by their location and in no other group, and is not among
/// those left over. One whom no favorite marks is left over and is in no
/// group. Those left over stand in the order they had, and so do the members
/// of each group.
pub proof fn lemma_partition_sorts_every_friend(
    friends: Seq<Friend>,
    favorites: Seq<Favorite>,
    i: int,
)
    requires
        0 <= i < friends.len(),
    ensures
        ({
            let groups = place_all(Seq::empty(), favorited(friends, favorites));
            let rest = remainder(friends, favorites);
            &&& well_grouped(groups)
            &&& forall|location: Seq<char>|
                #[trigger] members(groups, location) == located(
                    favorited(friends, favorites),
                    location,
                )
            &&& if is_favorite(friends[i], favorites) {
                &&& !rest.contains(friends[i])
                &&& has_group(groups, friends[i]@.location)
                &&& forall|g: int|
                    0 <= g < groups.len() ==> ((#[trigger] groups[g]).friends.contains(friends[i])
                        <==> groups[g].location == friends[i]@.location)
            } else {
                &&& rest.contains(friends[i])
                &&& forall|g: int|
                    0 <= g < groups.len() ==> !(#[trigger] groups[g]).friends.contains(friends[i])
            }
        }),
{
    broadcast use vstd::seq_lib::group_filter_ensures;

    let none = Seq::<GroupView>::empty();
    let marked = favorited(friends, favorites);
    let groups = place_all(none, marked);
    let rest = remainder(friends, favorites);
    let friend = friends[i];
    assert forall|location: Seq<char>| members(groups, location) == located(marked, location) by {
        lemma_place_all_members(none, marked, location);
        assert(members(none, location) + located(marked, location) =~= located(marked, location));
    }
    lemma_place_all_members(none, marked, friend@.location);
    assert forall|g: int| 0 <= g < groups.len() && (#[trigger] groups[g]).friends.contains(
        friend,
    ) implies groups[g].location == friend@.location && is_favorite(friend, favorites) by {
        let k = choose|k: int| 0 <= k < groups[g].friends.len() && groups[g].friends[k] == friend;
        assert(groups[g].friends[k]@.location == groups[g].location);
        let location = groups[g].location;
        lemma_group_index(groups, location, g);
        assert(located(marked, location).contains(friend));
        lemma_filter_keeps_members(marked, is_at(location), friend);
        lemma_filter_keeps_members(friends, marked_by(favorites), friend);
    }
    if is_favorite(friend, favorites) {
        if rest.contains(friend) {
            lemma_filter_keeps_members(friends, unmarked_by(favorites), friend);
        }
        assert(marked.contains(friend));
        let m = choose|m: int| 0 <= m < marked.len() && marked[m] == friend;
        assert(located(marked, friend@.location).contains(marked[m]));
        assert(members(groups, friend@.location).contains(friend));
        assert(has_group(groups, friend@.location));
        assert forall|g: int| 0 <= g < groups.len() && (#[trigger] groups[g]).location
            == friend@.location implies groups[g].friends.contains(friend) by {
            lemma_group_index(groups, friend@.location, g);
        }
    } else {
        assert(rest.contains(friend));
    }
}

/// Partitioning what a partition left over, with the same favorites, changes
/// nothing: nobody moves, and the groups stay as they are.
pub proof fn lemma_partition_idempotent(
    friends: Seq<Friend>,
    favorites: Seq<Favorite>,
    groups: Seq<GroupView>,
)
    ensures
        ({
            let rest = remainder(friends, favorites);
            let sorted = place_all(groups, favorited(friends, favorites));
            &&& remainder(rest, favorites) == rest
            &&& favorited(rest, favorites) == Seq::<Friend>::empty()
            &&& place_all(sorted, favorited(rest, favorites)) == sorted
        }),
{
    broadcast use vstd::seq_lib::group_filter_ensures;

    let rest = remainder(friends, favorites);
    assert forall|i: int| 0 <= i < rest.len() implies !is_favorite(#[trigger] rest[i], favorites) by {
        friends.lemma_filter_pred(unmarked_by(favorites), i);
    }
    lemma_filter_all_or_none(rest, unmarked_by(favorites));
    lemma_filter_all_or_none(rest, marked_by(favorites));
}

/// Placing friends one list after the other is placing the two lists joined.
pub proof fn lemma_place_all_joined(groups: Seq<GroupView>, first: Seq<Friend>, second: Seq<Friend>)
    ensures
        place_all(groups, first + second) == place_all(place_all(groups, first), second),
    decreases second.len(),
{
    if second.len() == 0 {
        assert(first + second =~= first);
    } else {
        lemma_place_all_joined(groups, first, second.drop_last());
        assert((first + second).drop_last() =~= first + second.drop_last());
        assert((first + second).last() == second.last());
    }
}

/// Well-grouped groups are what comes of placing their members, group after
/// group, where there were no groups.
pub proof fn lemma_regroup(groups: Seq<GroupView>)
    requires
        well_grouped(groups),
    ensures
        place_all(Seq::empty(), all_members(groups)) == groups,
    decreases groups.len(),
{
    if groups.len() > 0 {
        let front = groups.drop_last();
        let last = groups.last();
        assert(well_grouped(front)) by {
            assert forall|i: int, j: int| 0 <= i < j < front.len() implies (
            #[trigger] front[i]).location != (#[trigger] front[j]).location by {
                assert(groups[i].location != groups[j].location);
            }
            assert forall|i: int| 0 <= i < front.len() implies (#[trigger] front[i]).friends.len()
                > 0 by {
                assert(groups[i].friends.len() > 0);
            }
            assert forall|i: int, k: int|
                0 <= i < front.len() && 0 <= k < front[i].friends.len() implies (
            #[trigger] front[i].friends[k])@.location == front[i].location by {
                assert(groups[i].friends[k]@.location == groups[i].location);
            }
        }
        lemma_regroup(front);
        lemma_place_all_joined(Seq::empty(), all_members(front), last.friends);
        assert(!has_group(front, last.location)) by {
            if has_group(front, last.location) {
                let i = group_index(front, last.location);
                assert(groups[i].location != groups[groups.len() - 1].location);
            }
        }
        assert(groups[groups.len() - 1].friends.len() > 0);
        assert forall|k: int| 0 <= k < last.friends.len() implies (
        #[trigger] last.friends[k])@.location == last.location by {
            assert(groups[groups.len() - 1].friends[k]@.location == groups[groups.len()
                - 1].location);
        }
        lemma_place_all_opens_group(front, last.friends, last.location);
        assert(front.push(last) =~= groups);
    }
}

/// Partitioning afresh what a fresh partition gave, with the same favorites,
/// gives the same again. What it gave is taken as one list: those left over,
/// and behind them the members of the groups, group after group.
pub proof fn lemma_partition_round_trip(friends: Seq<Friend>, favorites: Seq<Favorite>)
    ensures
        ({
            let rest = remainder(friends, favorites);
            let groups = place_all(Seq::empty(), favorited(friends, favorites));
            let again = rest + all_members(groups);
            &&& remainder(again, favorites) == rest
            &&& place_all(Seq::empty(), favorited(again, favorites)) == groups
        }),
{
    broadcast use vstd::seq_lib::group_filter_ensures;

    let none = Seq::<GroupView>::empty();
    let marked = favorited(friends, favorites);
    let rest = remainder(friends, favorites);
    let groups = place_all(none, marked);
    let moved = all_members(groups);
    lemma_place_all_members(none, marked, Seq::empty());
    lemma_partition_idempotent(friends, favorites, none);
    assert forall|g: int, k: int|
        0 <= g < groups.len() && 0 <= k < groups[g].friends.len() implies marked.contains(
        #[trigger] groups[g].friends[k],
    ) by {
        lemma_members_were_placed(marked, g, k);
    }
    lemma_all_members_among(groups, marked);
    assert forall|m: int| 0 <= m < moved.len() implies is_favorite(
        #[trigger] moved[m],
        favorites,
    ) by {
        lemma_filter_keeps_members(friends, marked_by(favorites), moved[m]);
    }
    lemma_filter_all_or_none(moved, marked_by(favorites));
    lemma_filter_all_or_none(moved, unmarked_by(favorites));
    Seq::filter_distributes_over_add(rest, moved, marked_by(favorites));
    Seq::filter_distributes_over_add(rest, moved, unmarked_by(favorites));
    assert(rest + Seq::<Friend>::empty() =~= rest);
    assert(Seq::<Friend>::empty() + moved =~= moved);
    lemma_regroup(groups);
}

/// Partitioning moves friends and neither loses nor doubles one: those left
/// over and the members of the groups are, counted as often as they occur,
/// the friends that came in and the members that the groups had.
pub proof fn lemma_partition_keeps_everyone(
    friends: Seq<Friend>,
    favorites: Seq<Favorite>,
    groups: Seq<GroupView>,
)
    ensures
        ({
            let rest = remainder(friends, favorites);
            let sorted = place_all(groups, favorited(friends, favorites));
            (rest + all_members(sorted)).to_multiset() == (friends + all_members(
                groups,
            )).to_multiset()
        }),
{
    let rest = remainder(friends, favorites);
    let marked = favorited(friends, favorites);
    let sorted = place_all(groups, marked);
    lemma_split_keeps_everyone(friends, favorites);
    lemma_place_all_adds_members(groups, marked);
    lemma_multiset_commutative(rest, all_members(sorted));
    lemma_multiset_commutative(friends, all_members(groups));
    assert((rest + all_members(sorted)).to_multiset() =~= (friends + all_members(
        groups,
    )).to_multiset());
}

/// What a filter keeps was in the sequence and passes the filter.
proof fn lemma_filter_keeps_members(friends: Seq<Friend>, keep: spec_fn(Friend) -> bool, friend: Friend)
    requires
        friends.filter(keep).contains(friend),
    ensures
        friends.contains(friend),
        keep(friend),
    decreases friends.len(),
{
    reveal(Seq::filter);
    if friends.len() > 0 {
        let front = friends.drop_last();
        if front.filter(keep).contains(friend) {
            lemma_filter_keeps_members(front, keep, friend);
            let a = choose|a: int| 0 <= a < front.len() && front[a] == friend;
            assert(friends[a] == friend);
        } else {
            let kept = friends.filter(keep);
            let a = choose|a: int| 0 <= a < kept.len() && kept[a] == friend;
            if a < front.filter(keep).len() {
                assert(front.filter(keep)[a] == friend);
            }
            assert(friends[friends.len() - 1] == friend);
        }
    }
}

/// A filter that every friend passes keeps them all, and one that none
/// passes keeps none.
proof fn lemma_filter_all_or_none(friends: Seq<Friend>, keep: spec_fn(Friend) -> bool)
    ensures
        (forall|i: int| 0 <= i < friends.len() ==> keep(#[trigger] friends[i])) ==> friends.filter(
            keep,
        ) == friends,
        (forall|i: int| 0 <= i < friends.len() ==> !keep(#[trigger] friends[i]))
            ==> friends.filter(keep) == Seq::<Friend>::empty(),
    decreases friends.len(),
{
    reveal(Seq::filter);
    if friends.len() > 0 {
        let front = friends.drop_last();
        lemma_filter_all_or_none(front, keep);
        if forall|i: int| 0 <= i < friends.len() ==> keep(#[trigger] friends[i]) {
            assert forall|i: int| 0 <= i < front.len() implies keep(#[trigger] front[i]) by {
                assert(keep(friends[i]));
            }
            assert(keep(friends[friends.len() - 1]));
            assert(front.push(friends.last()) =~= friends);
        }
        if forall|i: int| 0 <= i < friends.len() ==> !keep(#[trigger] friends[i]) {
            assert forall|i: int| 0 <= i < front.len() implies !keep(#[trigger] front[i]) by {
                assert(!keep(friends[i]));
            }
            assert(!keep(friends[friends.len() - 1]));
        }
    }
}

/// Friends who are all at one location that has no group yet form a new last
/// group when they are placed.
proof fn lemma_place_all_opens_group(
    groups: Seq<GroupView>,
    friends: Seq<Friend>,
    location: Seq<char>,
)
    requires
        well_grouped(groups),
        !has_group(groups, location),
        friends.len() > 0,
        forall|k: int| 0 <= k < friends.len() ==> (#[trigger] friends[k])@.location == location,
    ensures
        place_all(groups, friends) == groups.push(GroupView { location, friends }),
    decreases friends.len(),
{
    let front = friends.drop_last();
    let last = friends.last();
    assert(last@.location == location);
    if front.len() == 0 {
        assert(place_all(groups, front) == groups);
        assert(seq![last] =~= friends);
    } else {
        assert forall|k: int| 0 <= k < front.len() implies (#[trigger] front[k])@.location
            == location by {
            assert(front[k] == friends[k]);
        }
        lemma_place_all_opens_group(groups, front, location);
        let before = groups.push(GroupView { location, friends: front });
        assert(front.push(last) =~= friends);
        lemma_place_all_members(groups, front, location);
        lemma_group_index(before, location, groups.len() as int);
        assert(place(before, last) =~= groups.push(GroupView { location, friends }));
    }
}

/// Every member of groups that came of placing `friends` where there were no
/// groups is one of `friends`.
proof fn lemma_members_were_placed(friends: Seq<Friend>, g: int, k: int)
    requires
        0 <= g < place_all(Seq::empty(), friends).len(),
        0 <= k < place_all(Seq::empty(), friends)[g].friends.len(),
    ensures
        friends.contains(place_all(Seq::empty(), friends)[g].friends[k]),
{
    let none = Seq::<GroupView>::empty();
    let groups = place_all(none, friends);
    let location = groups[g].location;
    lemma_place_all_members(none, friends, location);
    lemma_group_index(groups, location, g);
    assert(members(none, location) + located(friends, location) =~= located(friends, location));
    assert(located(friends, location).contains(groups[g].friends[k]));
    lemma_filter_keeps_members(friends, is_at(location), groups[g].friends[k]);
}

/// The members of `groups` are all among `friends`, where each group's are.
proof fn lemma_all_members_among(groups: Seq<GroupView>, friends: Seq<Friend>)
    requires
        forall|g: int, k: int|
            0 <= g < groups.len() && 0 <= k < groups[g].friends.len() ==> friends.contains(
                #[trigger] groups[g].friends[k],
            ),
    ensures
        forall|m: int|
            0 <= m < all_members(groups).len() ==> friends.contains(
                #[trigger] all_members(groups)[m],
            ),
    decreases groups.len(),
{
    if groups.len() > 0 {
        let front = groups.drop_last();
        assert forall|g: int, k: int|
            0 <= g < front.len() && 0 <= k < front[g].friends.len() implies friends.contains(
            #[trigger] front[g].friends[k],
        ) by {
            assert(front[g].friends[k] == groups[g].friends[k]);
        }
        lemma_all_members_among(front, friends);
        let joined = all_members(groups);
        assert forall|m: int| 0 <= m < joined.len() implies friends.contains(
            #[trigger] joined[m],
        ) by {
            if m < all_members(front).len() {
                assert(joined[m] == all_members(front)[m]);
            } else {
                let k = m - all_members(front).len();
                assert(joined[m] == groups[groups.len() - 1].friends[k]);
            }
        }
    }
}

/// Where there are no friends, none is counted.
proof fn lemma_none_counted(friends: Seq<Friend>)
    requires
        friends.len() == 0,
    ensures
        friends.to_multiset() == Multiset::<Friend>::empty(),
{
    to_multiset_len(friends);
    lemma_multiset_empty_len(friends.to_multiset());
}

/// Those whom `favorites` marks and those whom it does not are together
/// the friends there were.
proof fn lemma_split_keeps_everyone(friends: Seq<Friend>, favorites: Seq<Favorite>)
    ensures
        remainder(friends, favorites).to_multiset().add(
            favorited(friends, favorites).to_multiset(),
        ) == friends.to_multiset(),
    decreases friends.len(),
{
    if friends.len() > 0 {
        let front = friends.drop_last();
        let last = friends.last();
        lemma_split_keeps_everyone(front, favorites);
        assert(front.push(last) =~= friends);
        front.lemma_filter_push(last, marked_by(favorites));
        front.lemma_filter_push(last, unmarked_by(favorites));
        to_multiset_build(front, last);
        to_multiset_build(remainder(front, favorites), last);
        to_multiset_build(favorited(front, favorites), last);
        assert(remainder(friends, favorites).to_multiset().add(
            favorited(friends, favorites).to_multiset(),
        ) =~= friends.to_multiset());
    } else {
        reveal(Seq::filter);
        lemma_none_counted(friends);
        assert(remainder(friends, favorites).to_multiset().add(
            favorited(friends, favorites).to_multiset(),
        ) =~= friends.to_multiset());
    }
}

/// A friend who joins the group at place `i` is one more among the members
/// of all groups.
proof fn lemma_member_joins(groups: Seq<GroupView>, i: int, friend: Friend)
    requires
        0 <= i < groups.len(),
    ensures
        all_members(
            groups.update(
                i,
                GroupView { location: groups[i].location, friends: groups[i].friends.push(friend) },
            ),
        ).to_multiset() == all_members(groups).to_multiset().insert(friend),
    decreases groups.len(),
{
    let joined = GroupView { location: groups[i].location, friends: groups[i].friends.push(friend) };
    let after = groups.update(i, joined);
    let front = groups.drop_last();
    if i == groups.len() - 1 {
        assert(after.drop_last() =~= front);
        assert(all_members(after) =~= all_members(groups).push(friend));
        to_multiset_build(all_members(groups), friend);
    } else {
        assert(after.drop_last() =~= front.update(i, joined));
        assert(front[i] == groups[i]);
        lemma_member_joins(front, i, friend);
        lemma_multiset_commutative(all_members(after.drop_last()), groups.last().friends);
        lemma_multiset_commutative(all_members(front), groups.last().friends);
        assert(all_members(after).to_multiset() =~= all_members(groups).to_multiset().insert(
            friend,
        ));
    }
}

/// A friend who is placed is one more among the members of all groups.
proof fn lemma_place_adds_member(groups: Seq<GroupView>, friend: Friend)
    ensures
        all_members(place(groups, friend)).to_multiset() == all_members(
            groups,
        ).to_multiset().insert(friend),
{
    if has_group(groups, friend@.location) {
        lemma_member_joins(groups, group_index(groups, friend@.location), friend);
    } else {
        let after = place(groups, friend);
        assert(after.drop_last() =~= groups);
        assert(all_members(after) =~= all_members(groups).push(friend));
        to_multiset_build(all_members(groups), friend);
    }
}

/// Friends who are placed are, with the members there were, the members of
/// all groups.
proof fn lemma_place_all_adds_members(groups: Seq<GroupView>, friends: Seq<Friend>)
    ensures
        all_members(place_all(groups, friends)).to_multiset() == all_members(
            groups,
        ).to_multiset().add(friends.to_multiset()),
    decreases friends.len(),
{
    if friends.len() > 0 {
        let front = friends.drop_last();
        let last = friends.last();
        lemma_place_all_adds_members(groups, front);
        lemma_place_adds_member(place_all(groups, front), last);
        assert(front.push(last) =~= friends);
        to_multiset_build(front, last);
        assert(all_members(place_all(groups, friends)).to_multiset() =~= all_members(
            groups,
        ).to_multiset().add(friends.to_multiset()));
    } else {
        lemma_none_counted(friends);
        assert(all_members(groups).to_multiset().add(friends.to_multiset()) =~= all_members(
            groups,
        ).to_multiset());
    }
}

} // verus!
