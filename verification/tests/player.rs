use lightbox::player::{
    contains_bytes, listed_config_count, must_wait_for_output, select_device_index,
    track_argument,
};

fn names(list: &[&str]) -> Vec<String> {
    list.iter().map(|s| s.to_string()).collect()
}

#[test]
fn first_device_containing_target_is_selected() {
    let devices = names(&["default", "USB Audio Device", "USB Audio Device #2"]);
    assert_eq!(select_device_index(&devices, "USB"), Some(1));
    assert_eq!(select_device_index(&devices, "#2"), Some(2));
    assert_eq!(select_device_index(&devices, "HDMI"), None);
    assert_eq!(select_device_index(&devices, ""), Some(0));
    assert_eq!(select_device_index(&Vec::new(), ""), None);
}

#[test]
fn unreadable_names_only_match_empty_target() {
    let devices = names(&["", "Lautsprecher Größe"]);
    assert_eq!(select_device_index(&devices, "röße"), Some(1));
    assert_eq!(select_device_index(&devices, "x"), None);
}

#[test]
fn byte_search() {
    assert!(contains_bytes(b"abcabd", b"abd"));
    assert!(!contains_bytes(b"abcab", b"abd"));
    assert!(contains_bytes(b"", b""));
    assert!(!contains_bytes(b"ab", b"abc"));
}

#[test]
fn config_listing_stops_at_many_channels() {
    assert_eq!(listed_config_count(&[2, 2, 6, 2]), 2);
    assert_eq!(listed_config_count(&[1, 2, 5]), 3);
    assert_eq!(listed_config_count(&[8]), 0);
    assert_eq!(listed_config_count(&[]), 0);
}

#[test]
fn output_queue_limit() {
    assert!(!must_wait_for_output(0));
    assert!(!must_wait_for_output(26));
    assert!(must_wait_for_output(27));
}

#[test]
fn track_is_the_single_argument() {
    let args = names(&["lightbox", "5sWHDYs0csV6RS48xBl0tH"]);
    assert_eq!(track_argument(&args), Some(&args[1]));
    assert_eq!(track_argument(&names(&["lightbox"])), None);
    assert_eq!(track_argument(&names(&["lightbox", "a", "b"])), None);
}
