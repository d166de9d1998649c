use wayland_commons::globals::{BindError, Global, GlobalList};
use wayland_commons::protocol::Interface;

const COMPOSITOR: Interface = Interface { name: "wl_compositor", version: 5, requests: &[], events: &[] };
const OUTPUT: Interface = Interface { name: "wl_output", version: 4, requests: &[], events: &[] };
const SEAT: Interface = Interface { name: "wl_seat", version: 8, requests: &[], events: &[] };

fn sample() -> GlobalList {
    let mut list = GlobalList::new();
    list.global_added(1, "wl_compositor".to_string(), 4);
    list.global_added(2, "wl_output".to_string(), 2);
    list.global_added(3, "wl_output".to_string(), 4);
    list.global_added(4, "wl_shm".to_string(), 1);
    list
}

#[test]
fn contents_in_order() {
    let list = sample();
    let names: Vec<u32> = list.globals().iter().map(|g| g.name).collect();
    assert_eq!(names, vec![1, 2, 3, 4]);
    assert_eq!(list.clone_list(), list.globals());
    assert_eq!(list.globals()[1], Global { name: 2, interface: "wl_output".to_string(), version: 2 });
}

#[test]
fn removal_takes_the_global_out() {
    let mut list = sample();
    let removed = list.global_removed(2).unwrap();
    assert_eq!(removed.interface, "wl_output");
    assert!(list.global_removed(2).is_none());
    let names: Vec<u32> = list.globals().iter().map(|g| g.name).collect();
    assert_eq!(names, vec![1, 3, 4]);
}

#[test]
fn bind_singleton_negotiates_version() {
    let list = sample();
    // the lower of the advertised version and the maximum requested one
    assert_eq!(list.bind_singleton(1..=5, &COMPOSITOR), Ok((1, 4)));
    assert_eq!(list.bind_singleton(1..=3, &COMPOSITOR), Ok((1, 3)));
    // the first of several globals of the interface
    assert_eq!(list.bind_singleton(1..=4, &OUTPUT), Ok((2, 2)));
    assert_eq!(
        list.bind_singleton(3..=4, &OUTPUT),
        Err(BindError::UnsupportedVersion { interface: "wl_output", requested: 3, available: 2 })
    );
    assert_eq!(list.bind_singleton(1..=8, &SEAT), Err(BindError::NotPresent("wl_seat")));
}

#[test]
fn bind_all_in_order() {
    let list = sample();
    assert_eq!(list.bind_all(1..=4, &OUTPUT), Ok(vec![(2, 2), (3, 4)]));
    assert_eq!(list.bind_all(1..=3, &OUTPUT), Ok(vec![(2, 2), (3, 3)]));
    assert_eq!(
        list.bind_all(3..=4, &OUTPUT),
        Err(BindError::UnsupportedVersion { interface: "wl_output", requested: 3, available: 2 })
    );
    assert_eq!(list.bind_all(1..=8, &SEAT), Ok(vec![]));
}

#[test]
fn bind_specific_by_name() {
    let list = sample();
    assert_eq!(list.bind_specific(3, 1..=4, &OUTPUT), Ok((3, 4)));
    assert_eq!(list.bind_specific(1, 1..=4, &OUTPUT), Err(BindError::NotPresent("wl_output")));
    assert_eq!(list.bind_specific(9, 1..=4, &OUTPUT), Err(BindError::NotPresent("wl_output")));
    assert_eq!(
        list.bind_specific(2, 4..=4, &OUTPUT),
        Err(BindError::UnsupportedVersion { interface: "wl_output", requested: 4, available: 2 })
    );
}
