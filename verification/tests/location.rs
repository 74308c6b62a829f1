use vrc_friends::location::{is_private, location_to_world_id, PRIVATE_LOCATION, SEPARATOR};

#[test]
fn world_id_is_what_stands_before_the_first_separator() {
    assert_eq!(location_to_world_id("wrld_1:12345"), Some("wrld_1".to_string()));
}

#[test]
fn world_id_stops_at_the_first_of_several_separators() {
    assert_eq!(location_to_world_id("wrld_7:1:2:3"), Some("wrld_7".to_string()));
}

#[test]
fn world_id_of_a_location_without_separator_is_none() {
    assert_eq!(location_to_world_id("wrld_1"), None);
    assert_eq!(location_to_world_id("offline"), None);
}

#[test]
fn world_id_of_the_empty_location_is_none() {
    assert_eq!(location_to_world_id(""), None);
}

#[test]
fn world_id_of_the_private_location_is_none() {
    assert_eq!(location_to_world_id(PRIVATE_LOCATION), None);
    assert_eq!(location_to_world_id("private"), None);
}

#[test]
fn world_id_may_be_empty() {
    assert_eq!(location_to_world_id(":12345"), Some(String::new()));
    assert_eq!(location_to_world_id(":"), Some(String::new()));
}

#[test]
fn world_id_keeps_everything_up_to_a_trailing_separator() {
    assert_eq!(location_to_world_id("wrld_1:"), Some("wrld_1".to_string()));
}

#[test]
fn world_id_counts_characters_not_bytes() {
    assert_eq!(location_to_world_id("wörld_ü:1"), Some("wörld_ü".to_string()));
    assert_eq!(location_to_world_id("世界:42"), Some("世界".to_string()));
}

#[test]
fn world_id_differs_from_the_location_it_came_from() {
    let location = "wrld_9:777";
    let id = location_to_world_id(location).unwrap();
    assert_ne!(id, location);
    assert_eq!(id.len(), 6);
}

#[test]
fn the_separator_is_a_colon() {
    assert_eq!(SEPARATOR, ':');
}

#[test]
fn only_the_private_location_is_private() {
    assert!(is_private("private"));
    assert!(is_private(PRIVATE_LOCATION));
    assert!(!is_private("Private"));
    assert!(!is_private("private:1"));
    assert!(!is_private("privat"));
    assert!(!is_private(""));
    assert!(!is_private("wrld_1:12345"));
}
