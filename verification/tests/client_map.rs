use wayland_commons::client::{
    client_destroyed, create_for_request, dispatch_step, event_signature, handle_event, server_deleted,
    try_create_for_request, DispatchStep, EventAction, ObjectMeta,
};
use wayland_commons::map::{Object, ObjectMap, SERVER_ID_LIMIT};
use wayland_commons::protocol::Interface;
use wayland_commons::wire::{Argument, ArgumentType, Message, MessageArgs, MessageDesc};

const CALLBACK: Interface = Interface {
    name: "wl_callback",
    version: 1,
    requests: &[],
    events: &[MessageDesc {
        name: "done",
        signature: &[ArgumentType::Uint],
        since: 1,
        destructor: true,
        child_interface: None,
    }],
};

const OFFER: Interface = Interface { name: "wl_data_offer", version: 3, requests: &[], events: &[] };

const DEVICE: Interface = Interface {
    name: "wl_data_device",
    version: 3,
    requests: &[],
    events: &[MessageDesc {
        name: "data_offer",
        signature: &[ArgumentType::NewId],
        since: 1,
        destructor: false,
        child_interface: Some(&OFFER),
    }],
};

const REGISTRY: Interface = Interface {
    name: "wl_registry",
    version: 1,
    requests: &[MessageDesc {
        name: "bind",
        signature: &[ArgumentType::Uint, ArgumentType::NewId],
        since: 1,
        destructor: false,
        child_interface: None,
    }],
    events: &[],
};

const DISPLAY: Interface = Interface {
    name: "wl_display",
    version: 1,
    requests: &[
        MessageDesc {
            name: "sync",
            signature: &[ArgumentType::NewId],
            since: 1,
            destructor: false,
            child_interface: Some(&CALLBACK),
        },
        MessageDesc {
            name: "get_registry",
            signature: &[ArgumentType::NewId],
            since: 1,
            destructor: false,
            child_interface: Some(&REGISTRY),
        },
    ],
    events: &[
        MessageDesc {
            name: "error",
            signature: &[ArgumentType::Object, ArgumentType::Uint, ArgumentType::Str],
            since: 1,
            destructor: false,
            child_interface: None,
        },
        MessageDesc {
            name: "delete_id",
            signature: &[ArgumentType::Uint],
            since: 1,
            destructor: false,
            child_interface: None,
        },
    ],
};

fn message(sender_id: u32, opcode: u16, args: Vec<Argument>) -> Message {
    Message { sender_id, opcode, args: MessageArgs::from_vec(args) }
}

fn connection_map() -> ObjectMap<ObjectMeta> {
    let mut map = ObjectMap::new();
    map.insert_at(1, Object::from_interface(&DISPLAY, 1, ObjectMeta::new(0))).unwrap();
    map
}

#[test]
fn signatures_come_from_the_map() {
    let map = connection_map();
    assert_eq!(event_signature(&map, 1, 1), Some(&[ArgumentType::Uint][..]));
    assert_eq!(event_signature(&map, 1, 2), None);
    assert_eq!(event_signature(&map, 2, 0), None);
}

#[test]
fn display_error_is_reported() {
    let mut map = connection_map();
    let msg = message(1, 0, vec![Argument::Object(1), Argument::Uint(3), Argument::Str(Box::new(b"bad".to_vec()))]);
    match handle_event(&mut map, msg) {
        EventAction::ProtocolError { code, object_id, object_interface, message } => {
            assert_eq!((code, object_id, object_interface), (3, 1, "wl_display"));
            assert_eq!(message, b"bad".to_vec());
        }
        _ => panic!("expected a protocol error"),
    }
    let msg = message(1, 0, vec![Argument::Object(9), Argument::Uint(0), Argument::Str(Box::new(vec![]))]);
    match handle_event(&mut map, msg) {
        EventAction::ProtocolError { object_interface, .. } => assert_eq!(object_interface, "unknown"),
        _ => panic!("expected a protocol error"),
    }
}

#[test]
fn events_go_to_the_queue_of_their_object() {
    let mut map = connection_map();
    let display = map.find(1).unwrap();
    let mut sync = message(1, 0, vec![Argument::NewId(0)]);
    let (id, cb) = create_for_request(&mut map, &display, true, &mut sync, &CALLBACK, None, Some(7)).unwrap();
    assert_eq!(id, 2);
    assert_eq!(cb.interface, "wl_callback");
    assert_eq!(cb.meta, ObjectMeta::new(7));
    assert_eq!(sync.args.as_slice(), &[Argument::NewId(2)][..]);
    match handle_event(&mut map, message(2, 0, vec![Argument::Uint(5)])) {
        EventAction::Deliver { queue, event } => {
            assert_eq!(queue, 7);
            assert_eq!(event.sender_id, 2);
        }
        _ => panic!("expected a delivery"),
    }
    // events to unknown objects are dropped
    assert!(matches!(handle_event(&mut map, message(5, 0, vec![])), EventAction::Discard(_)));
    // once the client destroyed the callback, its events are dropped too
    client_destroyed(&mut map, 2);
    assert!(map.find(2).unwrap().meta.client_destroyed);
    assert!(matches!(handle_event(&mut map, message(2, 0, vec![Argument::Uint(5)])), EventAction::Discard(_)));
    // the server deletes the id: the id is free again
    server_deleted(&mut map, 2);
    assert!(map.find(2).is_none());
}

#[test]
fn server_created_objects_enter_the_map() {
    let mut map = connection_map();
    let device = Object::from_interface(&DEVICE, 3, ObjectMeta::new(4));
    let id = map.client_insert_new(device);
    assert_eq!(id, 2);
    let offer_id = SERVER_ID_LIMIT;
    match handle_event(&mut map, message(2, 0, vec![Argument::NewId(offer_id)])) {
        EventAction::Deliver { queue, .. } => assert_eq!(queue, 4),
        _ => panic!("expected a delivery"),
    }
    let offer = map.find(offer_id).unwrap();
    assert_eq!(offer.interface, "wl_data_offer");
    assert_eq!(offer.version, 3);
    assert_eq!(offer.meta, ObjectMeta::new(4));
    // the same id again: it is taken
    match handle_event(&mut map, message(2, 0, vec![Argument::NewId(offer_id)])) {
        EventAction::InvalidNewId { interface, id } => {
            assert_eq!((interface, id), ("wl_data_offer", offer_id));
        }
        _ => panic!("expected an invalid id"),
    }
    // once the client destroyed it, the server may use the id again
    client_destroyed(&mut map, offer_id);
    assert!(matches!(
        handle_event(&mut map, message(2, 0, vec![Argument::NewId(offer_id)])),
        EventAction::Deliver { .. }
    ));
    assert!(!map.find(offer_id).unwrap().meta.client_destroyed);
}

#[test]
fn children_of_destroyed_objects_are_destroyed() {
    let mut map = connection_map();
    map.client_insert_new(Object::from_interface(&DEVICE, 3, ObjectMeta::new(4)));
    client_destroyed(&mut map, 2);
    assert!(matches!(
        handle_event(&mut map, message(2, 0, vec![Argument::NewId(SERVER_ID_LIMIT)])),
        EventAction::Discard(_)
    ));
    assert!(map.find(SERVER_ID_LIMIT).unwrap().meta.client_destroyed);
}

#[test]
fn both_ends_must_destroy() {
    let mut map = connection_map();
    map.client_insert_new(Object::from_interface(&CALLBACK, 1, ObjectMeta::new(0)));
    server_deleted(&mut map, 2);
    assert!(map.find(2).unwrap().meta.server_destroyed);
    client_destroyed(&mut map, 2);
    assert!(map.find(2).is_none());
    // nothing to do for unknown ids
    server_deleted(&mut map, 9);
    client_destroyed(&mut map, 9);
    assert!(map.find(9).is_none());
}

#[test]
fn dispatch_steps() {
    let mut map = connection_map();
    map.client_insert_new(Object::from_interface(&DEVICE, 3, ObjectMeta::new(4)));
    match dispatch_step(&mut map, message(2, 0, vec![Argument::NewId(SERVER_ID_LIMIT)])) {
        DispatchStep::Dispatch(obj, msg) => {
            assert_eq!(obj.interface, "wl_data_device");
            assert_eq!(msg.opcode, 0);
        }
        _ => panic!("expected a dispatch"),
    }
    assert!(matches!(dispatch_step(&mut map, message(3, 0, vec![])), DispatchStep::UnknownObject(3)));
    // the event was queued, then the user destroyed the device
    handle_event(&mut map, message(2, 0, vec![Argument::NewId(SERVER_ID_LIMIT)]));
    client_destroyed(&mut map, 2);
    assert!(matches!(
        dispatch_step(&mut map, message(2, 0, vec![Argument::NewId(SERVER_ID_LIMIT)])),
        DispatchStep::Discard(_)
    ));
    assert!(map.find(SERVER_ID_LIMIT).unwrap().meta.client_destroyed);
}

#[test]
fn bind_writes_the_id_after_name_and_version() {
    let mut map = connection_map();
    let display = map.find(1).unwrap();
    let mut get_registry = message(1, 1, vec![Argument::NewId(0)]);
    let (rid, registry) =
        create_for_request(&mut map, &display, true, &mut get_registry, &REGISTRY, None, Some(0)).unwrap();
    assert_eq!(rid, 2);
    let mut bind = message(
        rid,
        0,
        vec![
            Argument::Uint(12),
            Argument::Str(Box::new(b"wl_data_device".to_vec())),
            Argument::Uint(3),
            Argument::NewId(0),
        ],
    );
    let (id, device) = create_for_request(&mut map, &registry, true, &mut bind, &DEVICE, Some(3), Some(0)).unwrap();
    assert_eq!(id, 3);
    assert_eq!(device.version, 3);
    assert_eq!(bind.args.as_slice()[3], Argument::NewId(3));
}

const SURFACE: Interface = Interface {
    name: "wl_surface",
    version: 4,
    requests: &[MessageDesc {
        name: "commit",
        signature: &[],
        since: 1,
        destructor: false,
        child_interface: None,
    }],
    events: &[],
};

#[test]
fn requests_without_new_id_create_nothing() {
    let mut map = connection_map();
    let surface = Object::from_interface(&SURFACE, 4, ObjectMeta::new(0));
    let id = map.client_insert_new(surface);
    let surface = map.find(id).unwrap();
    let mut commit = message(id, 0, vec![]);
    assert!(create_for_request(&mut map, &surface, true, &mut commit, &CALLBACK, None, None).is_none());
    assert!(map.find(id + 1).is_none());
}

#[test]
fn dead_senders_create_dead_objects() {
    let mut map = connection_map();
    let display = map.find(1).unwrap();
    let mut sync = message(1, 0, vec![Argument::NewId(0)]);
    let (id, cb) = create_for_request(&mut map, &display, false, &mut sync, &CALLBACK, None, Some(2)).unwrap();
    assert_eq!(id, 0);
    assert_eq!(cb.meta, ObjectMeta::dead(2));
    assert!(map.find(2).is_none());
    assert_eq!(sync.args.as_slice(), &[Argument::NewId(0)][..]);
}

#[test]
fn try_create_refuses_a_bind_without_room_for_the_id() {
    let mut map = connection_map();
    let display = map.find(1).unwrap();
    let mut get_registry = message(1, 1, vec![Argument::NewId(0)]);
    let (rid, registry) =
        create_for_request(&mut map, &display, true, &mut get_registry, &REGISTRY, None, Some(0)).unwrap();
    // a bind carries name, interface, version and id: here the id is missing
    let mut bind = message(rid, 0, vec![Argument::Uint(12), Argument::Str(Box::new(b"wl_data_device".to_vec()))]);
    assert!(try_create_for_request(&mut map, &registry, true, &mut bind, &DEVICE, Some(3), Some(0)).is_none());
    assert!(map.find(rid + 1).is_none());
    assert_eq!(bind.args.len(), 2);
    // a dead sender writes nothing, so no room is needed
    let r = try_create_for_request(&mut map, &registry, false, &mut bind, &DEVICE, Some(3), Some(0));
    assert_eq!(r.unwrap().unwrap().0, 0);
}

#[test]
fn try_create_writes_the_id_where_there_is_room() {
    let mut map = connection_map();
    let display = map.find(1).unwrap();
    let mut sync = message(1, 0, vec![Argument::NewId(0)]);
    let (id, cb) = try_create_for_request(&mut map, &display, true, &mut sync, &CALLBACK, None, Some(7)).unwrap().unwrap();
    assert_eq!(id, 2);
    assert_eq!(cb.meta, ObjectMeta::new(7));
    assert_eq!(sync.args.as_slice(), &[Argument::NewId(2)][..]);
    assert!(map.find(2).is_some());
}
