use wayland_commons::map::{Object, ObjectMap, ObjectMetadata, SERVER_ID_LIMIT};
use wayland_commons::protocol::Interface;
use wayland_commons::wire::{ArgumentType, MessageDesc};

#[derive(Clone, Debug, PartialEq)]
struct Queue(u32);

impl ObjectMetadata for Queue {
    fn child(&self) -> Self {
        Queue(self.0 + 100)
    }
}

const CALLBACK: Interface = Interface { name: "wl_callback", version: 1, requests: &[], events: &[] };

const DISPLAY: Interface = Interface {
    name: "wl_display",
    version: 1,
    requests: &[
        MessageDesc {
            name: "sync",
            signature: &[ArgumentType::NewId],
            since: 1,
            destructor: false,
            child_interface: Some(&CALLBACK),
        },
        MessageDesc {
            name: "get_registry",
            signature: &[ArgumentType::NewId],
            since: 1,
            destructor: false,
            child_interface: None,
        },
    ],
    events: &[MessageDesc {
        name: "error",
        signature: &[ArgumentType::Object, ArgumentType::Uint, ArgumentType::Str],
        since: 1,
        destructor: false,
        child_interface: None,
    }],
};

fn obj(tag: u32) -> Object<Queue> {
    Object::from_interface(&DISPLAY, 1, Queue(tag))
}

#[test]
fn find_after_insert_at() {
    let mut map = ObjectMap::new();
    assert!(map.find(1).is_none());
    assert!(map.insert_at(1, obj(7)).is_ok());
    let found = map.find(1).unwrap();
    assert_eq!(found.interface, "wl_display");
    assert_eq!(found.meta, Queue(7));
    assert!(map.find(2).is_none());
    assert!(map.find(0).is_none());
}

#[test]
fn insert_at_occupied_or_far_fails() {
    let mut map = ObjectMap::new();
    assert!(map.insert_at(1, obj(1)).is_ok());
    assert!(map.insert_at(1, obj(2)).is_err());
    assert_eq!(map.find(1).unwrap().meta, Queue(1));
    // only the next id of the store can be taken
    assert!(map.insert_at(3, obj(3)).is_err());
    assert!(map.insert_at(0, obj(3)).is_err());
    assert!(map.insert_at(2, obj(3)).is_ok());
}

#[test]
fn insert_at_freed_slot() {
    let mut map = ObjectMap::new();
    assert!(map.insert_at(1, obj(1)).is_ok());
    assert!(map.insert_at(2, obj(2)).is_ok());
    map.remove(1);
    assert!(map.find(1).is_none());
    assert!(map.insert_at(1, obj(3)).is_ok());
    assert_eq!(map.find(1).unwrap().meta, Queue(3));
}

#[test]
fn find_after_remove() {
    let mut map = ObjectMap::new();
    let id = map.client_insert_new(obj(1));
    assert_eq!(id, 1);
    map.remove(id);
    assert!(map.find(id).is_none());
    // removing what is not there does nothing
    map.remove(42);
    map.remove(0);
    assert!(map.find(42).is_none());
}

#[test]
fn client_ids_reuse_first_free() {
    let mut map = ObjectMap::new();
    assert_eq!(map.client_insert_new(obj(1)), 1);
    assert_eq!(map.client_insert_new(obj(2)), 2);
    assert_eq!(map.client_insert_new(obj(3)), 3);
    map.remove(2);
    assert_eq!(map.client_insert_new(obj(4)), 2);
    assert_eq!(map.find(2).unwrap().meta, Queue(4));
    assert_eq!(map.client_insert_new(obj(5)), 4);
}

#[test]
fn server_ids_start_at_limit() {
    let mut map = ObjectMap::new();
    assert_eq!(map.server_insert_new(obj(1)), SERVER_ID_LIMIT);
    assert_eq!(map.server_insert_new(obj(2)), SERVER_ID_LIMIT + 1);
    assert_eq!(map.find(SERVER_ID_LIMIT + 1).unwrap().meta, Queue(2));
    assert!(map.find(2).is_none());
    map.remove(SERVER_ID_LIMIT);
    assert_eq!(map.server_insert_new(obj(3)), SERVER_ID_LIMIT);
    assert!(map.insert_at(SERVER_ID_LIMIT + 2, obj(4)).is_ok());
}

#[test]
fn with_changes_one_object() {
    let mut map = ObjectMap::new();
    map.client_insert_new(obj(1));
    map.client_insert_new(obj(2));
    let r = map.with(2, |o| {
        o.version = 5;
        o.meta.0
    });
    assert_eq!(r, Ok(2));
    assert_eq!(map.find(2).unwrap().version, 5);
    assert_eq!(map.find(1).unwrap().version, 1);
    assert_eq!(map.with(3, |o| o.version), Err(()));
    assert_eq!(map.with(0, |o| o.version), Err(()));
}

#[test]
fn with_all_visits_every_object() {
    let mut map = ObjectMap::new();
    map.client_insert_new(obj(1));
    map.client_insert_new(obj(2));
    map.server_insert_new(obj(3));
    map.remove(1);
    let mut seen = Vec::new();
    map.with_all(|id, o| {
        seen.push((id, o.meta.0));
        o.version = 9;
    });
    assert_eq!(seen, vec![(2, 2), (SERVER_ID_LIMIT, 3)]);
    assert_eq!(map.find(2).unwrap().version, 9);
    assert_eq!(map.find(SERVER_ID_LIMIT).unwrap().version, 9);
    assert!(map.find(1).is_none());
}

#[test]
fn children_from_message_descriptions() {
    let display = obj(1);
    let child = display.request_child(0).unwrap();
    assert_eq!(child.interface, "wl_callback");
    assert_eq!(child.version, 1);
    assert_eq!(child.meta, Queue(101));
    assert!(display.request_child(1).is_none());
    assert!(display.request_child(7).is_none());
    assert!(display.event_child(0).is_none());
}

#[test]
fn placeholder_is_empty() {
    let p = Object::placeholder(Queue(3));
    assert_eq!(p.interface, "");
    assert_eq!(p.version, 0);
    assert!(p.requests.is_empty());
    assert!(p.events.is_empty());
    assert_eq!(p.meta, Queue(3));
}

#[test]
fn find_gives_what_the_calls_stored() {
    let mut map = ObjectMap::new();
    assert_eq!(map.client_insert_new(obj(1)), 1);
    assert_eq!(map.client_insert_new(obj(2)), 2);
    assert!(map.insert_at(SERVER_ID_LIMIT, obj(3)).is_ok());
    assert!(map.insert_at(2, obj(4)).is_err());
    map.remove(1);
    assert!(map.with(2, |o| o.version = 9).is_ok());
    assert!(map.with(1, |o| o.version = 7).is_err());
    assert_eq!(map.client_insert_new(obj(5)), 1);
    map.remove(SERVER_ID_LIMIT);
    assert!(map.find(0).is_none());
    assert_eq!(map.find(1).unwrap().meta, Queue(5));
    assert_eq!(map.find(2).unwrap().meta, Queue(2));
    assert_eq!(map.find(2).unwrap().version, 9);
    assert!(map.find(SERVER_ID_LIMIT).is_none());
    assert!(map.find(3).is_none());
}
