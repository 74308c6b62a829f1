use vstd::prelude::*;

verus! {

/// A user on the friends list, with where they currently are.
#[derive(Clone, Debug, PartialEq, Eq)]
pub struct Friend {
    pub id: String,
    pub username: String,
    pub display_name: String,
    pub current_avatar_thumbnail_image_url: String,
    pub location: String,
}

/// A marker that says the friend with id `favorite_id` has been favorited.
#[derive(Clone, Debug, PartialEq, Eq)]
pub struct Favorite {
    pub id: String,
    pub favorite_id: String,
}

/// What is known of a world.
#[derive(Clone, Debug, PartialEq, Eq)]
pub struct World {
    pub id: String,
    pub name: String,
}

/// A friend as text.
pub struct FriendView {
    pub id: Seq<char>,
    pub username: Seq<char>,
    pub display_name: Seq<char>,
    pub current_avatar_thumbnail_image_url: Seq<char>,
    pub location: Seq<char>,
}

/// A favorite marker as text.
pub struct FavoriteView {
    pub id: Seq<char>,
    pub favorite_id: Seq<char>,
}

/// A world as text.
pub struct WorldView {
    pub id: Seq<char>,
    pub name: Seq<char>,
}

impl View for Friend {
    type V = FriendView;

    open spec fn view(&self) -> FriendView {
        FriendView {
            id: self.id@,
            username: self.username@,
            display_name: self.display_name@,
            current_avatar_thumbnail_image_url: self.current_avatar_thumbnail_image_url@,
            location: self.location@,
        }
    }
}

impl View for Favorite {
    type V = FavoriteView;

    open spec fn view(&self) -> FavoriteView {
        FavoriteView { id: self.id@, favorite_id: self.favorite_id@ }
    }
}

impl View for World {
    type V = WorldView;

    open spec fn view(&self) -> WorldView {
        WorldView { id: self.id@, name: self.name@ }
    }
}

} // verus!
