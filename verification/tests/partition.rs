use vrc_friends::entity::{Favorite, Friend};
use vrc_friends::groups::{FavoriteGroups, Group};
use vrc_friends::partition::{is_favorite_friend, partition};

fn friend(id: &str, location: &str) -> Friend {
    Friend {
        id: id.to_string(),
        username: format!("user_{}", id),
        display_name: format!("User {}", id),
        current_avatar_thumbnail_image_url: format!("https://example.com/{}.png", id),
        location: location.to_string(),
    }
}

fn favorite(id: &str, favorite_id: &str) -> Favorite {
    Favorite { id: id.to_string(), favorite_id: favorite_id.to_string() }
}

fn ids(friends: &Vec<Friend>) -> Vec<String> {
    friends.iter().map(|friend| friend.id.clone()).collect()
}

fn all_groups(groups: &FavoriteGroups) -> Vec<(String, Vec<String>)> {
    let mut out = Vec::new();
    let mut i = 0;
    while let Some(group) = groups.get(i) {
        out.push((group.location.clone(), ids(&group.friends)));
        i += 1;
    }
    assert_eq!(i, groups.len());
    out
}

fn group_of(location: &str, members: &[&str]) -> (String, Vec<String>) {
    (location.to_string(), members.iter().map(|id| id.to_string()).collect())
}

#[test]
fn favorited_friends_move_to_the_group_of_their_location() {
    let mut friends = vec![
        friend("a", "wrld_1:12345"),
        friend("b", "private"),
        friend("c", "wrld_1:99999"),
    ];
    let favorites = vec![favorite("f1", "a"), favorite("f2", "c")];
    let mut groups = FavoriteGroups::new();
    partition(&mut friends, &favorites, &mut groups);
    assert_eq!(
        all_groups(&groups),
        vec![group_of("wrld_1:12345", &["a"]), group_of("wrld_1:99999", &["c"])]
    );
    assert_eq!(ids(&friends), vec!["b"]);
    assert_eq!(friends[0], friend("b", "private"));
    assert_eq!(groups.get(0).unwrap().friends[0], friend("a", "wrld_1:12345"));
    assert_eq!(groups.get(1).unwrap().friends[0], friend("c", "wrld_1:99999"));
}

#[test]
fn every_friend_is_in_one_place_after_partitioning() {
    let mut friends = vec![
        friend("u1", "wrld_a:1"),
        friend("u2", "wrld_b:1"),
        friend("u3", "wrld_a:1"),
        friend("u4", "private"),
        friend("u5", "wrld_b:2"),
        friend("u6", "wrld_a:1"),
        friend("u7", "private"),
    ];
    let before = friends.clone();
    let favorites = vec![
        favorite("f1", "u6"),
        favorite("f2", "u1"),
        favorite("f3", "u4"),
        favorite("f4", "u5"),
        favorite("f5", "nobody"),
    ];
    let mut groups = FavoriteGroups::new();
    partition(&mut friends, &favorites, &mut groups);
    let sorted = all_groups(&groups);
    for one in &before {
        let marked = favorites.iter().any(|favorite| favorite.favorite_id == one.id);
        let left = friends.iter().filter(|other| *other == one).count();
        let holding: Vec<&(String, Vec<String>)> =
            sorted.iter().filter(|(_, members)| members.contains(&one.id)).collect();
        if marked {
            assert_eq!(left, 0);
            assert_eq!(holding.len(), 1);
            assert_eq!(holding[0].0, one.location);
            assert_eq!(holding[0].1.iter().filter(|id| **id == one.id).count(), 1);
        } else {
            assert_eq!(left, 1);
            assert!(holding.is_empty());
        }
    }
    assert_eq!(ids(&friends), vec!["u2", "u3", "u7"]);
    assert_eq!(
        sorted,
        vec![
            group_of("wrld_a:1", &["u1", "u6"]),
            group_of("private", &["u4"]),
            group_of("wrld_b:2", &["u5"]),
        ]
    );
}

#[test]
fn partitioning_again_changes_nothing() {
    let mut friends = vec![
        friend("a", "wrld_1:1"),
        friend("b", "wrld_2:1"),
        friend("c", "wrld_1:1"),
        friend("d", "private"),
    ];
    let favorites = vec![favorite("f1", "c"), favorite("f2", "a"), favorite("f3", "d")];
    let mut groups = FavoriteGroups::new();
    partition(&mut friends, &favorites, &mut groups);
    let left = friends.clone();
    let sorted = all_groups(&groups);
    partition(&mut friends, &favorites, &mut groups);
    assert_eq!(friends, left);
    assert_eq!(all_groups(&groups), sorted);
    assert_eq!(ids(&friends), vec!["b"]);
    assert_eq!(sorted, vec![group_of("wrld_1:1", &["a", "c"]), group_of("private", &["d"])]);
}

#[test]
fn partitioning_afresh_what_a_partition_gave_gives_the_same_again() {
    let mut friends = vec![
        friend("a", "w:2"),
        friend("b", "w:1"),
        friend("c", "w:1"),
        friend("d", "private"),
        friend("e", "w:2"),
        friend("f", "w:3"),
    ];
    let favorites =
        vec![favorite("f1", "e"), favorite("f2", "c"), favorite("f3", "a"), favorite("f4", "d")];
    let mut groups = FavoriteGroups::new();
    partition(&mut friends, &favorites, &mut groups);
    let sorted = all_groups(&groups);
    let left = friends.clone();
    assert_eq!(
        sorted,
        vec![group_of("w:2", &["a", "e"]), group_of("w:1", &["c"]), group_of("private", &["d"])]
    );
    let mut again = left.clone();
    let mut i = 0;
    while let Some(group) = groups.get(i) {
        again.extend(group.friends.iter().cloned());
        i += 1;
    }
    assert_eq!(ids(&again), vec!["b", "f", "a", "e", "c", "d"]);
    let mut fresh = FavoriteGroups::new();
    partition(&mut again, &favorites, &mut fresh);
    assert_eq!(again, left);
    assert_eq!(all_groups(&fresh), sorted);
}

#[test]
fn groups_stand_in_the_order_in_which_their_locations_are_met() {
    let mut friends = vec![
        friend("1", "z:1"),
        friend("2", "a:1"),
        friend("3", "m:1"),
        friend("4", "a:1"),
        friend("5", "z:1"),
    ];
    let favorites = vec![
        favorite("f", "1"),
        favorite("f", "2"),
        favorite("f", "3"),
        favorite("f", "4"),
        favorite("f", "5"),
    ];
    let mut groups = FavoriteGroups::new();
    partition(&mut friends, &favorites, &mut groups);
    assert!(friends.is_empty());
    assert_eq!(
        all_groups(&groups),
        vec![group_of("z:1", &["1", "5"]), group_of("a:1", &["2", "4"]), group_of("m:1", &["3"])]
    );
}

#[test]
fn the_private_location_forms_a_group_of_its_own() {
    let mut friends = vec![friend("a", "private"), friend("b", "private"), friend("c", "w:1")];
    let favorites = vec![favorite("f1", "a"), favorite("f2", "b"), favorite("f3", "c")];
    let mut groups = FavoriteGroups::new();
    partition(&mut friends, &favorites, &mut groups);
    assert_eq!(
        all_groups(&groups),
        vec![group_of("private", &["a", "b"]), group_of("w:1", &["c"])]
    );
}

#[test]
fn a_friend_is_matched_by_the_id_a_favorite_refers_to() {
    let mut friends = vec![friend("usr_1", "w:1"), friend("usr_2", "w:1")];
    let favorites = vec![favorite("usr_1", "usr_2")];
    let mut groups = FavoriteGroups::new();
    partition(&mut friends, &favorites, &mut groups);
    assert_eq!(ids(&friends), vec!["usr_1"]);
    assert_eq!(all_groups(&groups), vec![group_of("w:1", &["usr_2"])]);
}

#[test]
fn without_favorites_every_friend_stays() {
    let mut friends = vec![friend("a", "w:1"), friend("b", "private")];
    let before = friends.clone();
    let mut groups = FavoriteGroups::new();
    partition(&mut friends, &Vec::new(), &mut groups);
    assert_eq!(friends, before);
    assert_eq!(groups.len(), 0);
    assert!(groups.get(0).is_none());
}

#[test]
fn without_friends_there_is_nothing_to_sort() {
    let mut friends: Vec<Friend> = Vec::new();
    let favorites = vec![favorite("f1", "a")];
    let mut groups = FavoriteGroups::new();
    partition(&mut friends, &favorites, &mut groups);
    assert!(friends.is_empty());
    assert_eq!(groups.len(), 0);
}

#[test]
fn friends_join_the_groups_that_are_there() {
    let mut groups = FavoriteGroups::new();
    let mut first = vec![friend("a", "w:1"), friend("b", "w:2")];
    let favorites = vec![favorite("f1", "a"), favorite("f2", "b"), favorite("f3", "c")];
    partition(&mut first, &favorites, &mut groups);
    let mut second = vec![friend("x", "w:3"), friend("c", "w:2"), friend("y", "w:1")];
    partition(&mut second, &favorites, &mut groups);
    assert_eq!(ids(&second), vec!["x", "y"]);
    assert_eq!(all_groups(&groups), vec![group_of("w:1", &["a"]), group_of("w:2", &["b", "c"])]);
}

#[test]
fn a_friend_listed_twice_is_moved_twice() {
    let mut friends = vec![friend("a", "w:1"), friend("b", "w:1"), friend("a", "w:1")];
    let favorites = vec![favorite("f1", "a"), favorite("f2", "a")];
    let mut groups = FavoriteGroups::new();
    partition(&mut friends, &favorites, &mut groups);
    assert_eq!(ids(&friends), vec!["b"]);
    assert_eq!(all_groups(&groups), vec![group_of("w:1", &["a", "a"])]);
}

#[test]
fn add_opens_a_group_or_joins_one() {
    let mut groups = FavoriteGroups::new();
    groups.add(friend("a", "w:1"));
    groups.add(friend("b", ""));
    groups.add(friend("c", "w:1"));
    assert_eq!(groups.len(), 2);
    assert_eq!(all_groups(&groups), vec![group_of("w:1", &["a", "c"]), group_of("", &["b"])]);
    assert!(groups.get(2).is_none());
}

#[test]
fn find_gives_the_members_at_a_location() {
    let mut groups = FavoriteGroups::new();
    groups.add(friend("a", "w:1"));
    groups.add(friend("b", "w:2"));
    groups.add(friend("c", "w:1"));
    assert_eq!(ids(groups.find("w:1").unwrap()), vec!["a", "c"]);
    assert_eq!(ids(groups.find("w:2").unwrap()), vec!["b"]);
    assert!(groups.find("w:3").is_none());
    assert!(groups.find("w").is_none());
}

#[test]
fn a_group_can_be_read_by_its_fields() {
    let mut groups = FavoriteGroups::new();
    groups.add(friend("a", "w:1"));
    let group: &Group = groups.get(0).unwrap();
    assert_eq!(group.location, "w:1");
    assert_eq!(group.friends, vec![friend("a", "w:1")]);
}

#[test]
fn is_favorite_friend_looks_at_the_referenced_id_only() {
    let favorites = vec![favorite("x", "a"), favorite("b", "y")];
    assert!(is_favorite_friend(&friend("a", "w:1"), &favorites));
    assert!(!is_favorite_friend(&friend("b", "w:1"), &favorites));
    assert!(!is_favorite_friend(&friend("x", "w:1"), &favorites));
    assert!(is_favorite_friend(&friend("y", "private"), &favorites));
    assert!(!is_favorite_friend(&friend("a", "w:1"), &Vec::new()));
}
