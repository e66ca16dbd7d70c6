//! Helpers: name formatting, id allocation, number spelling, data URLs,
//! and topology validation.

use backend::config::{Client, Config, Drone, Server};
use backend::utils::{format_drone_name, image_data_url, smallest_unused_id, u64_to_string, u8_to_string};

#[test]
fn drone_package_names_become_display_names() {
    assert_eq!(format_drone_name("wg_drone_bobry_w_locie"), "Bobry W Locie");
    assert_eq!(format_drone_name("wg_drone_rust"), "Rust");
    assert_eq!(format_drone_name("wg_drone_RUST_do_it"), "Rust Do It");
    assert_eq!(format_drone_name("wg_drone___skylink"), "Skylink");
}

#[test]
fn other_names_pass_through_unchanged() {
    assert_eq!(format_drone_name("rand"), "rand");
    assert_eq!(format_drone_name("wg_drone"), "wg_drone");
    assert_eq!(format_drone_name(""), "");
}

#[test]
fn numbers_are_spelled_in_decimal() {
    assert_eq!(u64_to_string(0), "0");
    assert_eq!(u64_to_string(7), "7");
    assert_eq!(u64_to_string(105), "105");
    assert_eq!(u64_to_string(u64::MAX), "18446744073709551615");
    assert_eq!(u8_to_string(255), "255");
}

#[test]
fn the_smallest_free_id_is_allocated() {
    assert_eq!(smallest_unused_id(&vec![]), Some(1));
    assert_eq!(smallest_unused_id(&vec![1, 2, 4]), Some(3));
    assert_eq!(smallest_unused_id(&vec![2, 3]), Some(1));
    let all: Vec<u8> = (1..=255).collect();
    assert_eq!(smallest_unused_id(&all), None);
}

#[test]
fn image_bytes_become_a_data_url() {
    // 0x01 0x02 0x03 is AQID in standard base64
    assert_eq!(image_data_url("a.png", &vec![1, 2, 3]), "data:image/png;base64,AQID");
    assert_eq!(image_data_url("a.jpg", &vec![1, 2, 3]), "data:image/jpeg;base64,AQID");
    assert_eq!(image_data_url("a.jpeg", &vec![]), "data:image/jpeg;base64,");
    assert_eq!(
        image_data_url("noext", &vec![104, 105]),
        "data:image/png;base64,aGk="
    );
}

fn sample_config(symmetric: bool) -> Config {
    let mut drone_links = vec![1, 3];
    if !symmetric {
        drone_links.push(9);
    }
    Config {
        drone: vec![Drone { id: 2, connected_node_ids: drone_links }],
        client: vec![Client { id: 1, connected_drone_ids: vec![2] }],
        server: vec![Server {
            id: 3,
            connected_drone_ids: vec![2],
            server_type: String::from("Content"),
            base_path: String::from("store"),
        }],
    }
}

#[test]
fn bilateral_topologies_validate() {
    assert!(sample_config(true).validate());
}

#[test]
fn one_sided_links_are_refused() {
    assert!(!sample_config(false).validate());
}

#[test]
fn an_empty_topology_validates() {
    let empty = Config { drone: vec![], client: vec![], server: vec![] };
    assert!(empty.validate());
}
