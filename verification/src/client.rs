//! The client side of a connection: what becomes of the object map when
//! events arrive, when requests create or destroy objects, and when events
//! are dispatched.
//!
//! Each object carries the event queue its events go to, named by a number,
//! and which ends of the connection have destroyed it. The queues themselves,
//! the socket and the user's callbacks live with the caller, which performs
//! what these functions decide.

use vstd::prelude::*;

use crate::map::{
    law_client_insert_new, law_find_after_insert_at, MapModel, Object, ObjectMap, ObjectMetadata,
    SERVER_ID_LIMIT,
};
use crate::protocol::Interface;
use crate::wire::{ArgValue, Argument, ArgumentType, Message};

verus! {

/// What the client keeps of each object.
#[derive(Clone, Copy, Debug, PartialEq, Eq)]
pub struct ObjectMeta {
    /// The event queue the object's events go to
    pub queue: u32,
    /// The server destroyed the object (it sent `delete_id` for it)
    pub server_destroyed: bool,
    /// The client destroyed the object (it sent a destructor request)
    pub client_destroyed: bool,
}

/// The metadata of a live object whose events go to `queue`.
pub open spec fn live_meta(queue: u32) -> ObjectMeta {
    ObjectMeta { queue, server_destroyed: false, client_destroyed: false }
}

impl ObjectMeta {
    /// The metadata of a live object whose events go to `queue`.
    pub fn new(queue: u32) -> (m: ObjectMeta)
        ensures
            m == live_meta(queue),
    {
        ObjectMeta { queue, server_destroyed: false, client_destroyed: false }
    }

    /// The metadata of an object both ends consider destroyed.
    pub fn dead(queue: u32) -> (m: ObjectMeta)
        ensures
            m == (ObjectMeta { queue, server_destroyed: true, client_destroyed: true }),
    {
        ObjectMeta { queue, server_destroyed: true, client_destroyed: true }
    }
}

impl ObjectMetadata for ObjectMeta {
    /// A child's events go to the queue of its parent.
    fn child(&self) -> (r: ObjectMeta)
        ensures
            r == live_meta(self.queue),
    {
        ObjectMeta::new(self.queue)
    }
}

/// The map with the object of id `id` replaced by `object`.
pub open spec fn with_object(m: MapModel<ObjectMeta>, id: u32, object: Object<ObjectMeta>) -> MapModel<
    ObjectMeta,
> {
    if id == 0 {
        m
    } else if id >= SERVER_ID_LIMIT {
        MapModel { servers: m.servers.update(id - SERVER_ID_LIMIT, Some(object)), ..m }
    } else {
        MapModel { clients: m.clients.update(id - 1, Some(object)), ..m }
    }
}

/// The object with its metadata replaced.
pub open spec fn with_meta(o: Object<ObjectMeta>, meta: ObjectMeta) -> Object<ObjectMeta> {
    Object { meta, ..o }
}

/// Replace the metadata of the object of id `id`, which is in the map.
fn set_meta(map: &mut ObjectMap<ObjectMeta>, id: u32, meta: ObjectMeta)
    requires
        old(map)@.find(id) is Some,
    ensures
        final(map)@ == with_object(old(map)@, id, with_meta(old(map)@.find(id).unwrap(), meta)),
{
    let ghost m0 = map@;
    let found = map.find(id);
    let mut object = match found {
        Some(o) => o,
        None => {
            return;
        },
    };
    object.meta = meta;
    assert(object == with_meta(m0.find(id).unwrap(), meta));
    map.remove(id);
    let _inserted = map.insert_at(id, object);
    proof {
        if id >= SERVER_ID_LIMIT {
            assert(map@.servers =~= m0.servers.update(id - SERVER_ID_LIMIT, Some(object)));
        } else {
            assert(map@.clients =~= m0.clients.update(id - 1, Some(object)));
        }
    }
}

/// What the map becomes when the server deletes id `id`: the object is
/// marked destroyed by the server, and leaves the map if the client
/// destroyed it too.
pub open spec fn after_server_delete(m: MapModel<ObjectMeta>, id: u32) -> MapModel<ObjectMeta> {
    match m.find(id) {
        Some(o) => if o.meta.client_destroyed {
            m.remove(id)
        } else {
            with_object(m, id, with_meta(o, ObjectMeta { server_destroyed: true, ..o.meta }))
        },
        None => m,
    }
}

/// What the map becomes when the client destroys the object of id `id`: it
/// is marked destroyed by the client, and leaves the map if the server
/// destroyed it too.
pub open spec fn after_client_destroy(m: MapModel<ObjectMeta>, id: u32) -> MapModel<ObjectMeta> {
    match m.find(id) {
        Some(o) => if o.meta.server_destroyed {
            m.remove(id)
        } else {
            with_object(m, id, with_meta(o, ObjectMeta { client_destroyed: true, ..o.meta }))
        },
        None => m,
    }
}

/// The server deleted the id `id` (the `delete_id` event of the display):
/// cleanup the map as appropriate.
pub fn server_deleted(map: &mut ObjectMap<ObjectMeta>, id: u32)
    ensures
        final(map)@ == after_server_delete(old(map)@, id),
{
    let client_destroyed = match map.find(id) {
        Some(o) => {
            let mut meta = o.meta;
            let destroyed = meta.client_destroyed;
            meta.server_destroyed = true;
            set_meta(map, id, meta);
            destroyed
        },
        None => false,
    };
    if client_destroyed {
        let ghost m1 = map@;
        map.remove(id);
        proof {
            let m0 = old(map)@;
            if id >= SERVER_ID_LIMIT {
                assert(map@.servers =~= m0.servers.update(id - SERVER_ID_LIMIT, None));
            } else {
                assert(map@.clients =~= m0.clients.update(id - 1, None));
            }
        }
    }
}

/// The client sent a destructor request for the object of id `id`: cleanup
/// the map as appropriate.
pub fn client_destroyed(map: &mut ObjectMap<ObjectMeta>, id: u32)
    ensures
        final(map)@ == after_client_destroy(old(map)@, id),
{
    let server_destroyed = match map.find(id) {
        Some(o) => {
            let mut meta = o.meta;
            let destroyed = meta.server_destroyed;
            meta.client_destroyed = true;
            set_meta(map, id, meta);
            destroyed
        },
        None => false,
    };
    if server_destroyed {
        map.remove(id);
        proof {
            let m0 = old(map)@;
            if id >= SERVER_ID_LIMIT {
                assert(map@.servers =~= m0.servers.update(id - SERVER_ID_LIMIT, None));
            } else {
                assert(map@.clients =~= m0.clients.update(id - 1, None));
            }
        }
    }
}

/// The signature of event `opcode` of object `id`, if the object is known
/// and has such an event.
pub open spec fn spec_event_signature(m: MapModel<ObjectMeta>, id: u32, opcode: u16) -> Option<
    &'static [ArgumentType],
> {
    match m.find(id) {
        Some(o) => if (opcode as int) < o.events@.len() {
            Some(o.events@[opcode as int].signature)
        } else {
            None
        },
        None => None,
    }
}

/// The signature of event `opcode` of object `id`: what the reading of
/// events asks of the map.
pub fn event_signature(map: &ObjectMap<ObjectMeta>, id: u32, opcode: u16) -> (r: Option<
    &'static [ArgumentType],
>)
    ensures
        r == spec_event_signature(map@, id, opcode),
{
    match map.find(id) {
        Some(o) => {
            let idx = opcode as usize;
            if idx < o.events.len() {
                Some(o.events[idx].signature)
            } else {
                None
            }
        },
        None => None,
    }
}

/// The message is the `error` event of the display.
pub open spec fn is_display_error(sender_id: u32, opcode: u16) -> bool {
    sender_id == 1 && opcode == 0
}

/// The arguments of a display error: the object, the code, the text.
pub open spec fn error_shape(args: Seq<ArgValue>) -> bool {
    &&& args.len() == 3
    &&& args[0] is Object
    &&& args[1] is Uint
    &&& args[2] is Str
}

/// The first id of a new object among the arguments.
pub open spec fn first_new_id(args: Seq<ArgValue>) -> Option<u32>
    decreases args.len(),
{
    if args.len() == 0 {
        None
    } else {
        match args[0] {
            ArgValue::NewId(n) => Some(n),
            _ => first_new_id(args.drop_first()),
        }
    }
}

proof fn lemma_first_new_id_skip(args: Seq<ArgValue>, i: int)
    requires
        0 <= i < args.len(),
        forall|j: int| 0 <= j < i ==> !(#[trigger] args[j] is NewId),
    ensures
        first_new_id(args) == first_new_id(args.skip(i)),
    decreases i,
{
    if i > 0 {
        lemma_first_new_id_skip(args.drop_first(), i - 1);
        assert(args.drop_first().skip(i - 1) =~= args.skip(i));
    } else {
        assert(args.skip(0) =~= args);
    }
}

/// The first id of a new object among the arguments.
fn find_new_id(args: &[Argument]) -> (r: Option<u32>)
    ensures
        r == first_new_id(args@.map_values(|a: Argument| a@)),
{
    let ghost vals = args@.map_values(|a: Argument| a@);
    let mut i: usize = 0;
    while i < args.len()
        invariant
            0 <= i <= args@.len(),
            vals == args@.map_values(|a: Argument| a@),
            forall|j: int| 0 <= j < i ==> !(#[trigger] vals[j] is NewId),
        decreases args@.len() - i,
    {
        if let Argument::NewId(n) = args[i] {
            proof {
                lemma_first_new_id_skip(vals, i as int);
                assert(vals.skip(i as int)[0] == vals[i as int]);
            }
            return Some(n);
        }
        i += 1;
    }
    proof {
        assert forall|k: int| 0 <= k <= vals.len() implies first_new_id(vals.skip(k)) is None by {
            lemma_no_new_id(vals, k);
        }
        assert(vals.skip(0) =~= vals);
    }
    None
}

proof fn lemma_no_new_id(vals: Seq<ArgValue>, k: int)
    requires
        0 <= k <= vals.len(),
        forall|j: int| 0 <= j < vals.len() ==> !(#[trigger] vals[j] is NewId),
    ensures
        first_new_id(vals.skip(k)) is None,
    decreases vals.len() - k,
{
    if k < vals.len() {
        lemma_no_new_id(vals, k + 1);
        assert(vals.skip(k).drop_first() =~= vals.skip(k + 1));
        assert(vals.skip(k)[0] == vals[k]);
    }
}

/// The object an event of `parent` creates, if the protocol fixes its
/// interface: of the parent's version, with its events in the parent's
/// queue, and destroyed by the client already if the parent was.
pub open spec fn created_child(parent: Object<ObjectMeta>, opcode: u16) -> Option<Object<ObjectMeta>> {
    if (opcode as int) < parent.events@.len() && parent.events@[opcode as int].child_interface is Some {
        let ci = parent.events@[opcode as int].child_interface.unwrap();
        Some(
            Object {
                interface: ci.name,
                version: parent.version,
                requests: ci.requests,
                events: ci.events,
                meta: ObjectMeta {
                    queue: parent.meta.queue,
                    server_destroyed: false,
                    client_destroyed: parent.meta.client_destroyed,
                },
            },
        )
    } else {
        None
    }
}

/// The map with a server-side id freed when its object was destroyed by
/// the client, so that the server can use it again.
pub open spec fn reclaimed(m: MapModel<ObjectMeta>, id: u32) -> MapModel<ObjectMeta> {
    if id >= SERVER_ID_LIMIT && (m.find(id) matches Some(x) && x.meta.client_destroyed) {
        m.remove(id)
    } else {
        m
    }
}

/// The queue the events of object `id` go to: none if the object is unknown
/// or the client destroyed it.
pub open spec fn delivery_queue(m: MapModel<ObjectMeta>, id: u32) -> Option<u32> {
    match m.find(id) {
        Some(o) => if o.meta.client_destroyed {
            None
        } else {
            Some(o.meta.queue)
        },
        None => None,
    }
}

/// What to do with an event read from the connection.
pub enum EventAction {
    /// The display reported a protocol error: the connection is dead
    ProtocolError {
        /// The error code
        code: u32,
        /// The object the error is about
        object_id: u32,
        /// Its interface, or `"unknown"` if it is not in the map
        object_interface: &'static str,
        /// The bytes of the error text
        message: Vec<u8>,
    },
    /// The server tried to create an object with an id that is not free: the
    /// connection is dead
    InvalidNewId {
        /// The interface of the object
        interface: &'static str,
        /// The id it was given
        id: u32,
    },
    /// The event concerns no live object: it is dropped, its descriptors to
    /// be closed
    Discard(Message),
    /// The event goes to the queue
    Deliver {
        /// The queue
        queue: u32,
        /// The event
        event: Message,
    },
}

/// The event is handed on as the queue says: delivered to it, or dropped
/// when there is none.
pub open spec fn handed_on(r: EventAction, queue: Option<u32>, msg: crate::wire::MessageValue) -> bool {
    match queue {
        Some(q) => r matches EventAction::Deliver { queue, event } && queue == q && event@ == msg,
        None => r matches EventAction::Discard(m) && m@ == msg,
    }
}

/// What handling the event `msg` (not a protocol error of the display) does
/// to the map `m0`: `m` is the map afterwards and `r` the answer. An event
/// that creates an object puts it at its new id (after taking back a
/// server-side id whose object the client destroyed), or fails if the id is
/// not free; the event then goes to the queue of its object.
pub open spec fn event_handled(
    m0: MapModel<ObjectMeta>,
    msg: crate::wire::MessageValue,
    m: MapModel<ObjectMeta>,
    r: EventAction,
) -> bool {
    let child = match m0.find(msg.sender_id) {
        Some(p) => created_child(p, msg.opcode),
        None => None,
    };
    match child {
        Some(c) => {
            let nid = first_new_id(msg.args).unwrap();
            let m1 = reclaimed(m0, nid);
            match m1.insert_at(nid, c) {
                Some(m2) => m == m2 && handed_on(r, delivery_queue(m0, msg.sender_id), msg),
                None => m == m1 && (r matches EventAction::InvalidNewId { interface, id }
                    && interface == c.interface && id == nid),
            }
        },
        None => m == m0 && handed_on(r, delivery_queue(m0, msg.sender_id), msg),
    }
}

/// Handle an event read from the connection, for the object map: a protocol
/// error of the display ends the connection; an event that creates an
/// object puts it in the map (taking back a server-side id whose object the
/// client destroyed, and failing if the id is not free); the event then goes
/// to the queue of its object, or is dropped if the object is unknown or was
/// destroyed by the client.
pub fn handle_event(map: &mut ObjectMap<ObjectMeta>, msg: Message) -> (r: EventAction)
    requires
        is_display_error(msg.sender_id, msg.opcode) ==> error_shape(msg@.args),
        !is_display_error(msg.sender_id, msg.opcode) && (old(map)@.find(msg.sender_id) matches Some(
            p,
        ) && created_child(p, msg.opcode) is Some) ==> first_new_id(msg@.args) is Some,
    ensures
        is_display_error(msg.sender_id, msg.opcode) ==> final(map)@ == old(map)@ && (r matches EventAction::ProtocolError {
            code,
            object_id,
            object_interface,
            message,
        } && msg@.args[0] == ArgValue::Object(object_id) && msg@.args[1] == ArgValue::Uint(code)
            && msg@.args[2] == ArgValue::Str(message@) && object_interface == (match old(
            map,
        )@.find(object_id) {
            Some(o) => o.interface,
            None => "unknown",
        })),
        !is_display_error(msg.sender_id, msg.opcode) ==> event_handled(old(map)@, msg@, final(map)@, r),
{
    let ghost m0 = map@;
    if msg.sender_id == 1 && msg.opcode == 0 {
        let args = msg.args.as_slice();
        proof {
            assert(args@.len() == 3);
            assert(msg@.args[0] == args@[0]@);
            assert(msg@.args[1] == args@[1]@);
            assert(msg@.args[2] == args@[2]@);
        }
        let faulty_id = match &args[0] {
            Argument::Object(i) => *i,
            _ => 0,
        };
        let code = match &args[1] {
            Argument::Uint(c) => *c,
            _ => 0,
        };
        let message: Vec<u8> = match &args[2] {
            Argument::Str(text) => {
                let t: &Vec<u8> = &**text;
                let c = t.clone();
                assert(c@ =~= t@);
                c
            },
            _ => Vec::new(),
        };
        let object_interface = match map.find(faulty_id) {
            Some(o) => o.interface,
            None => "unknown",
        };
        return EventAction::ProtocolError { code, object_id: faulty_id, object_interface, message };
    }
    // dispatch the message to the proper object
    let object = map.find(msg.sender_id);
    match &object {
        Some(parent) => {
            match parent.event_child(msg.opcode) {
                Some(new_child) => {
                    let mut child = new_child;
                    let new_id = match find_new_id(msg.args.as_slice()) {
                        Some(n) => n,
                        None => 0,
                    };
                    // if this ID belonged to a now destroyed server object, we can replace it
                    if new_id >= SERVER_ID_LIMIT {
                        let destroyed = match map.find(new_id) {
                            Some(x) => x.meta.client_destroyed,
                            None => false,
                        };
                        if destroyed {
                            map.remove(new_id);
                        }
                    }
                    // if the parent object is already destroyed, the user will never see this
                    // object, so we set it as client_destroyed to ignore all future messages to it
                    if parent.meta.client_destroyed {
                        child.meta.client_destroyed = true;
                    }
                    let ghost m1 = map@;
                    assert(m1 == reclaimed(m0, new_id));
                    assert(child == created_child(m0.find(msg.sender_id).unwrap(), msg.opcode).unwrap());
                    let interface = child.interface;
                    if map.insert_at(new_id, child).is_err() {
                        // abort parsing, this is an unrecoverable error
                        return EventAction::InvalidNewId { interface, id: new_id };
                    }
                },
                None => {},
            }
        },
        None => {},
    }
    // send the message to the appropriate pending queue
    match object {
        Some(o) => {
            if o.meta.client_destroyed {
                // this is a message sent to a destroyed object
                EventAction::Discard(msg)
            } else {
                EventAction::Deliver { queue: o.meta.queue, event: msg }
            }
        },
        None => EventAction::Discard(msg),
    }
}

/// The map with the object of id `id` marked as destroyed by the client.
pub open spec fn mark_client_destroyed(m: MapModel<ObjectMeta>, id: u32) -> MapModel<ObjectMeta> {
    match m.find(id) {
        Some(o) => with_object(m, id, with_meta(o, ObjectMeta { client_destroyed: true, ..o.meta })),
        None => m,
    }
}

/// The map with every object created by the arguments (their new ids, in
/// order) marked as destroyed by the client.
pub open spec fn mark_new_ids(m: MapModel<ObjectMeta>, args: Seq<ArgValue>) -> MapModel<ObjectMeta>
    decreases args.len(),
{
    if args.len() == 0 {
        m
    } else {
        let m1 = match args[0] {
            ArgValue::NewId(n) => mark_client_destroyed(m, n),
            _ => m,
        };
        mark_new_ids(m1, args.drop_first())
    }
}

/// Replacing an object that is in the map changes what is found at its id
/// only.
proof fn lemma_with_object_find(m: MapModel<ObjectMeta>, id: u32, o: Object<ObjectMeta>, k: u32)
    requires
        m.find(id) is Some,
    ensures
        with_object(m, id, o).find(k) == if k == id {
            Some(o)
        } else {
            m.find(k)
        },
{
}

/// What dispatching an event comes to.
pub enum DispatchStep {
    /// There is no object of this id: dispatching fails
    UnknownObject(u32),
    /// The object was destroyed by the client: the event is dropped, its
    /// descriptors to be closed
    Discard(Message),
    /// The event goes to the handler of the object
    Dispatch(Object<ObjectMeta>, Message),
}

/// Take an event out of a queue for dispatching: it fails for an unknown
/// object; for an object that the client destroyed (the user destroyed it
/// after the event was queued), the objects the event creates are marked
/// destroyed too and the event is dropped; otherwise the event goes to the
/// object's handler.
pub fn dispatch_step(map: &mut ObjectMap<ObjectMeta>, msg: Message) -> (r: DispatchStep)
    requires
        old(map)@.find(msg.sender_id) matches Some(o) && o.meta.client_destroyed ==> forall|k: int|
            0 <= k < msg@.args.len() ==> (#[trigger] msg@.args[k] matches ArgValue::NewId(n)
                ==> old(map)@.find(n) is Some),
    ensures
        old(map)@.find(msg.sender_id) is None ==> final(map)@ == old(map)@ && r
            == DispatchStep::UnknownObject(msg.sender_id),
        old(map)@.find(msg.sender_id) matches Some(o) && o.meta.client_destroyed ==> final(map)@
            == mark_new_ids(old(map)@, msg@.args) && (r matches DispatchStep::Discard(m) && m@
            == msg@),
        old(map)@.find(msg.sender_id) matches Some(o) ==> (!o.meta.client_destroyed ==> final(map)@
            == old(map)@ && (r matches DispatchStep::Dispatch(obj, m) && obj == o && m@ == msg@)),
{
    let ghost m0 = map@;
    let object = match map.find(msg.sender_id) {
        Some(o) => o,
        None => {
            return DispatchStep::UnknownObject(msg.sender_id);
        },
    };
    if !object.meta.client_destroyed {
        return DispatchStep::Dispatch(object, msg);
    }
    let args = msg.args.as_slice();
    let ghost vals = msg@.args;
    let n = args.len();
    let mut i: usize = 0;
    assert(vals.skip(0) =~= vals);
    while i < n
        invariant
            0 <= i <= n,
            n == vals.len(),
            vals == args@.map_values(|a: Argument| a@),
            mark_new_ids(map@, vals.skip(i as int)) == mark_new_ids(m0, vals),
            forall|k: int|
                0 <= k < vals.len() ==> (#[trigger] vals[k] matches ArgValue::NewId(id)
                    ==> map@.find(id) is Some),
        decreases n - i,
    {
        let ghost before = map@;
        assert(vals.skip(i as int).drop_first() =~= vals.skip(i as int + 1));
        assert(vals.skip(i as int)[0] == vals[i as int]);
        if let Argument::NewId(id) = args[i] {
            assert(vals[i as int] == ArgValue::NewId(id));
            let found = map.find(id);
            if let Some(child) = found {
                let mut meta = child.meta;
                meta.client_destroyed = true;
                set_meta(map, id, meta);
                proof {
                    assert(map@ == mark_client_destroyed(before, id));
                    assert forall|k: int|
                        0 <= k < vals.len() implies (#[trigger] vals[k] matches ArgValue::NewId(
                        nid,
                    ) ==> map@.find(nid) is Some) by {
                        if let ArgValue::NewId(nid) = vals[k] {
                            lemma_with_object_find(
                                before,
                                id,
                                with_meta(before.find(id).unwrap(), meta),
                                nid,
                            );
                        }
                    }
                }
            }
        }
        i += 1;
    }
    assert(vals.skip(n as int).len() == 0);
    DispatchStep::Discard(msg)
}

/// The position of the first `new_id` in a signature.
pub open spec fn new_id_position(sig: Seq<ArgumentType>) -> Option<int>
    decreases sig.len(),
{
    if sig.len() == 0 {
        None
    } else if sig[0] == ArgumentType::NewId {
        Some(0)
    } else {
        match new_id_position(sig.drop_first()) {
            Some(k) => Some(k + 1),
            None => None,
        }
    }
}

proof fn lemma_new_id_position_skip(sig: Seq<ArgumentType>, i: int)
    requires
        0 <= i <= sig.len(),
        forall|j: int| 0 <= j < i ==> sig[j] != ArgumentType::NewId,
    ensures
        new_id_position(sig) == match new_id_position(sig.skip(i)) {
            Some(k) => Some(k + i),
            None => None::<int>,
        },
    decreases i,
{
    if i > 0 {
        lemma_new_id_position_skip(sig.drop_first(), i - 1);
        assert(sig.drop_first().skip(i - 1) =~= sig.skip(i));
    } else {
        assert(sig.skip(0) =~= sig);
    }
}

/// The position of the first `new_id` in a signature.
fn find_new_id_position(sig: &[ArgumentType]) -> (r: Option<usize>)
    ensures
        r is None <==> new_id_position(sig@) is None,
        r matches Some(k) ==> new_id_position(sig@) == Some(k as int) && k < sig@.len(),
{
    let mut i: usize = 0;
    while i < sig.len()
        invariant
            0 <= i <= sig@.len(),
            forall|j: int| 0 <= j < i ==> sig@[j] != ArgumentType::NewId,
        decreases sig@.len() - i,
    {
        if sig[i] == ArgumentType::NewId {
            proof {
                lemma_new_id_position_skip(sig@, i as int);
            }
            return Some(i);
        }
        i += 1;
    }
    proof {
        lemma_new_id_position_skip(sig@, i as int);
    }
    None
}

/// The object that request `opcode` of `sender` creates, as an object of
/// `child` at `version` (the sender's if none is given): live with its
/// events in `queue` if the sender is alive, else dead.
pub open spec fn requested_object(
    sender: Object<ObjectMeta>,
    alive: bool,
    child: &'static Interface,
    version: Option<u32>,
    queue: u32,
) -> Object<ObjectMeta> {
    Object {
        interface: child.name,
        version: match version {
            Some(v) => v,
            None => sender.version,
        },
        requests: child.requests,
        events: child.events,
        meta: if alive {
            live_meta(queue)
        } else {
            ObjectMeta { queue, server_destroyed: true, client_destroyed: true }
        },
    }
}

/// Where the id of the new object goes among the arguments of a request
/// whose first `new_id` is at `position`: there, unless the protocol leaves
/// the interface open (as for `wl_registry.bind`), in which case the new id
/// stands for an interface name, a version and the id, and the id is two
/// places further.
pub open spec fn new_id_slot(position: int, fixed_interface: bool) -> int {
    if fixed_interface {
        position
    } else {
        position + 2
    }
}

/// What preparing request `old_msg` of `sender` for sending does (see
/// `create_for_request`): `new_msg` and `new_map` are the request and the map
/// afterwards, `r` the id and object made.
pub open spec fn request_prepared(
    old_map: MapModel<ObjectMeta>,
    new_map: MapModel<ObjectMeta>,
    sender: Object<ObjectMeta>,
    alive: bool,
    old_msg: Message,
    new_msg: Message,
    child: &'static Interface,
    version: Option<u32>,
    queue: Option<u32>,
    r: Option<(u32, Object<ObjectMeta>)>,
) -> bool {
    &&& new_msg.sender_id == old_msg.sender_id
    &&& new_msg.opcode == old_msg.opcode
    &&& match new_id_position(sender.requests@[old_msg.opcode as int].signature@) {
        None => r is None && new_map == old_map && new_msg@ == old_msg@,
        Some(p) => {
            let desc = sender.requests@[old_msg.opcode as int];
            let object = requested_object(sender, alive, child, version, queue.unwrap());
            let slot = new_id_slot(p, desc.child_interface is Some);
            if alive {
                let id = old_map.next_client_id();
                &&& r == Some((id as u32, object))
                &&& new_map == old_map.insert_client(object)
                &&& new_msg@.args == old_msg@.args.update(slot, ArgValue::NewId(id as u32))
            } else {
                &&& r == Some((0u32, object))
                &&& new_map == old_map
                &&& new_msg@ == old_msg@
            }
        },
    }
}

/// Prepare a request of object `sender` for sending: when the request
/// creates an object, that object is made, as an object of `child` (at
/// `version`, else at the sender's version); if the sender is alive, the
/// object gets the next free client id, and that id is written into the
/// request. Returns the id (0 for a dead sender) and the object.
pub fn create_for_request(
    map: &mut ObjectMap<ObjectMeta>,
    sender: &Object<ObjectMeta>,
    alive: bool,
    msg: &mut Message,
    child: &'static Interface,
    version: Option<u32>,
    queue: Option<u32>,
) -> (r: Option<(u32, Object<ObjectMeta>)>)
    requires
        (old(msg).opcode as int) < sender.requests@.len(),
        new_id_position(sender.requests@[old(msg).opcode as int].signature@) matches Some(p) ==> ({
            let desc = sender.requests@[old(msg).opcode as int];
            &&& queue is Some
            &&& desc.child_interface matches Some(ci) ==> ci.name == child.name
            &&& alive ==> new_id_slot(p, desc.child_interface is Some) < old(msg)@.args.len()
            &&& alive ==> old(map)@.next_client_id() <= u32::MAX
        }),
    ensures
        request_prepared(
            old(map)@,
            final(map)@,
            *sender,
            alive,
            *old(msg),
            *final(msg),
            child,
            version,
            queue,
            r,
        ),
{
    let opcode = msg.opcode as usize;
    let desc = &sender.requests[opcode];
    // figure out if the call creates an object
    let nid_idx = match find_new_id_position(desc.signature) {
        Some(i) => i,
        None => {
            return None;
        },
    };
    let target_queue = match queue {
        Some(q) => q,
        None => {
            return None;
        },
    };
    let meta = if alive {
        ObjectMeta::new(target_queue)
    } else {
        ObjectMeta::dead(target_queue)
    };
    let new_object = Object::from_interface(
        child,
        match version {
            Some(v) => v,
            None => sender.version,
        },
        meta,
    );
    let mut new_id: u32 = 0;
    if alive {
        // without a target interface in the protocol, this is a generic object-creating
        // request (likely wl_registry.bind): the new id expands to (str, u32, obj)
        let arg_count = msg.args.len();
        let slot = if desc.child_interface.is_some() {
            nid_idx
        } else {
            // the slot lies among the `arg_count` arguments, so this stays in range
            assert(nid_idx + 2 < arg_count);
            nid_idx + 2
        };
        let copy = new_object.clone();
        assert(copy == new_object);
        new_id = map.client_insert_new(copy);
        msg.args.set(slot, Argument::NewId(new_id));
        assert(msg@.args =~= old(msg)@.args.update(slot as int, ArgValue::NewId(new_id)));
    }
    Some((new_id, new_object))
}

/// Prepare a request of object `sender` for sending, as `create_for_request`
/// does, where the request's arguments have room for the new id; where a live
/// sender's request has no argument at the id's place, nothing is done and
/// `None` comes back.
pub fn try_create_for_request(
    map: &mut ObjectMap<ObjectMeta>,
    sender: &Object<ObjectMeta>,
    alive: bool,
    msg: &mut Message,
    child: &'static Interface,
    version: Option<u32>,
    queue: Option<u32>,
) -> (r: Option<Option<(u32, Object<ObjectMeta>)>>)
    requires
        (old(msg).opcode as int) < sender.requests@.len(),
        new_id_position(sender.requests@[old(msg).opcode as int].signature@) matches Some(p) ==> ({
            let desc = sender.requests@[old(msg).opcode as int];
            &&& queue is Some
            &&& desc.child_interface matches Some(ci) ==> ci.name == child.name
            &&& alive ==> old(map)@.next_client_id() <= u32::MAX
        }),
    ensures
        r is None <==> (alive && (new_id_position(
            sender.requests@[old(msg).opcode as int].signature@,
        ) matches Some(p) && new_id_slot(
            p,
            sender.requests@[old(msg).opcode as int].child_interface is Some,
        ) >= old(msg)@.args.len())),
        r is None ==> final(map)@ == old(map)@ && *final(msg) == *old(msg),
        r matches Some(x) ==> request_prepared(
            old(map)@,
            final(map)@,
            *sender,
            alive,
            *old(msg),
            *final(msg),
            child,
            version,
            queue,
            x,
        ),
{
    let opcode = msg.opcode as usize;
    let desc = &sender.requests[opcode];
    if alive {
        if let Some(p) = find_new_id_position(desc.signature) {
            let count = msg.args.len();
            let fits = if desc.child_interface.is_some() {
                p < count
            } else {
                p < count && count - p > 2
            };
            if !fits {
                return None;
            }
        }
    }
    Some(create_for_request(map, sender, alive, msg, child, version, queue))
}

/// An id leaves the map once both ends destroyed its object, in whichever
/// order they did; after only one of them did, the object is still there.
pub proof fn law_both_ends_free_the_id(m: MapModel<ObjectMeta>, id: u32)
    requires
        m.find(id) matches Some(o) && !o.meta.client_destroyed && !o.meta.server_destroyed,
    ensures
        after_server_delete(after_client_destroy(m, id), id).find(id) is None,
        after_client_destroy(after_server_delete(m, id), id).find(id) is None,
        after_client_destroy(m, id).find(id) is Some,
        after_server_delete(m, id).find(id) is Some,
{
}

/// An object that an event creates takes the version of the object that
/// sent the event, and the interface the protocol names for it; its events
/// go to the sender's queue, and it is destroyed by the client already if
/// the sender was. Once the event is handled without error, the map holds
/// that object at the new id.
pub proof fn law_event_child_of_sender(
    m0: MapModel<ObjectMeta>,
    msg: crate::wire::MessageValue,
    m: MapModel<ObjectMeta>,
    r: EventAction,
)
    requires
        event_handled(m0, msg, m, r),
        m0.find(msg.sender_id) matches Some(p) && (msg.opcode as int) < p.events@.len()
            && p.events@[msg.opcode as int].child_interface is Some,
        !(r is InvalidNewId),
    ensures
        ({
            let p = m0.find(msg.sender_id).unwrap();
            let ci = p.events@[msg.opcode as int].child_interface.unwrap();
            let nid = first_new_id(msg.args).unwrap();
            &&& m.find(nid) matches Some(c)
            &&& c.version == p.version
            &&& c.interface == ci.name
            &&& c.requests == ci.requests
            &&& c.events == ci.events
            &&& c.meta.queue == p.meta.queue
            &&& c.meta.client_destroyed == p.meta.client_destroyed
            &&& !c.meta.server_destroyed
        }),
{
    let p = m0.find(msg.sender_id).unwrap();
    let c = created_child(p, msg.opcode).unwrap();
    let nid = first_new_id(msg.args).unwrap();
    let m1 = reclaimed(m0, nid);
    assert(m1.insert_at(nid, c) is Some);
    law_find_after_insert_at(m1, nid, c);
}

/// An object that a request creates is of the interface asked for, at the
/// version given, or, when none is given, at the version of the object that
/// sent the request; its events go to the queue given. For a live sender it
/// is live and the map holds it at the id returned, the next free client id
/// (while client ids stay below the server ids); for a dead sender it is
/// dead, the id returned is 0 and the map is unchanged.
pub proof fn law_request_child_version(
    old_map: MapModel<ObjectMeta>,
    new_map: MapModel<ObjectMeta>,
    sender: Object<ObjectMeta>,
    alive: bool,
    old_msg: Message,
    new_msg: Message,
    child: &'static Interface,
    version: Option<u32>,
    queue: Option<u32>,
    r: Option<(u32, Object<ObjectMeta>)>,
)
    requires
        request_prepared(old_map, new_map, sender, alive, old_msg, new_msg, child, version, queue, r),
        r is Some,
    ensures
        ({
            let (id, o) = r.unwrap();
            &&& version is None ==> o.version == sender.version
            &&& version matches Some(v) ==> o.version == v
            &&& o.interface == child.name
            &&& o.requests == child.requests
            &&& o.events == child.events
            &&& queue matches Some(q) ==> o.meta.queue == q
            &&& o.meta.client_destroyed == !alive
            &&& o.meta.server_destroyed == !alive
            &&& alive && old_map.next_client_id() < SERVER_ID_LIMIT ==> id
                == old_map.next_client_id() && new_map.find(id) == Some(o)
            &&& !alive ==> id == 0 && new_map == old_map
        }),
{
    let (id, o) = r.unwrap();
    assert(new_id_position(sender.requests@[old_msg.opcode as int].signature@) is Some);
    if alive && old_map.next_client_id() < SERVER_ID_LIMIT {
        law_client_insert_new(old_map, o);
    }
}

} // verus!
