//! The logic of a friends board for a social-VR platform, verified with Verus.
//!
//! The board knows the user's friends and favorites. It sorts the favorited
//! friends into groups by location ([`partition`]), asks for the worlds that
//! the groups' locations name ([`lookup`], [`worlds`]), and keeps track of the
//! requests that are under way ([`fetcher`]). [`model`] ties these together as
//! a state that takes in messages and answers with the requests to send.
//!
//! Nothing here performs a request or draws anything: the program around the
//! library sends what it is handed and reports back what arrived.

pub mod entity;
pub mod fetcher;
pub mod groups;
pub mod location;
pub mod lookup;
pub mod model;
pub mod partition;
pub mod worlds;
