use vstd::prelude::*;
use vstd::string::StrSliceExecFns;
use vstd::string::StringExecFns;

verus! {

/// The location that a friend reports while hiding where they are.
pub const PRIVATE_LOCATION: &'static str = "private";

/// The character that ends the world part of a location.
pub const SEPARATOR: char = ':';

/// `k` is the position of the first separator in `location`.
pub open spec fn first_separator(location: Seq<char>, k: int) -> bool {
    &&& 0 <= k < location.len()
    &&& location[k] == SEPARATOR
    &&& forall|j: int| 0 <= j < k ==> location[j] != SEPARATOR
}

/// The world that a location lies in: what stands before its first separator.
/// A location without a separator lies in no world.
pub open spec fn world_id(location: Seq<char>) -> Option<Seq<char>> {
    if exists|k: int| first_separator(location, k) {
        Some(location.subrange(0, choose|k: int| first_separator(location, k)))
    } else {
        None
    }
}

/// A location has at most one first separator.
pub proof fn lemma_first_separator_unique(location: Seq<char>, a: int, b: int)
    requires
        first_separator(location, a),
        first_separator(location, b),
    ensures
        a == b,
{
}

/// Tells whether `location` is the private location.
pub fn is_private(location: &str) -> (private: bool)
    ensures
        private == (location@ == PRIVATE_LOCATION@),
{
    String::from_str(location) == String::from_str(PRIVATE_LOCATION)
}

/// The id of the world in which `location` lies: what stands before its first
/// separator. A location without a separator lies in no world.
pub fn location_to_world_id(location: &str) -> (id: Option<String>)
    ensures
        id.deep_view() == world_id(location@),
{
    let n: usize = location.unicode_len();
    let mut i: usize = 0;
    for c in chars: location.chars()
        invariant
            n == location@.len(),
            i == chars.index(),
            chars.seq() == location@,
            forall|j: int| 0 <= j < i ==> location@[j] != SEPARATOR,
    {
        if c == SEPARATOR {
            assert(first_separator(location@, i as int));
            proof {
                let k = choose|k: int| first_separator(location@, k);
                lemma_first_separator_unique(location@, i as int, k);
            }
            return Some(String::from_str(location.substring_char(0, i)));
        }
        i += 1;
    }
    None
}

} // verus!
