//! Wayland objects map

use vstd::prelude::*;

use crate::protocol::Interface;
use crate::wire::MessageDesc;

verus! {

/// Limit separating server-created from client-created objects IDs in the namespace
pub const SERVER_ID_LIMIT: u32 = 0xFF00_0000;

/// A trait representing the metadata a wayland implementation
/// may attach to an object.
pub trait ObjectMetadata: Clone {
    /// Create the metadata for a child object
    ///
    /// Mostly needed for client side, to propagate the event queues
    fn child(&self) -> Self;
}

/// The representation of a protocol object
#[derive(Debug)]
pub struct Object<Meta: ObjectMetadata> {
    /// Interface name of this object
    pub interface: &'static str,
    /// Version of this object
    pub version: u32,
    /// Description of the requests of this object
    pub requests: &'static [MessageDesc],
    /// Description of the events of this object
    pub events: &'static [MessageDesc],
    /// Metadata associated to this object (ex: its event queue client side)
    pub meta: Meta,
}

impl<Meta: ObjectMetadata> Object<Meta> {
    /// `self` is a clone of `other`: same protocol fields, and a metadata that
    /// the metadata's `clone` may give for the other's.
    pub open spec fn clone_of(self, other: Self) -> bool {
        &&& self.interface == other.interface
        &&& self.version == other.version
        &&& self.requests == other.requests
        &&& self.events == other.events
        &&& cloned(other.meta, self.meta)
    }

    /// `self` describes an object of `interface` at `version`.
    pub open spec fn describes(self, interface: &'static Interface, version: u32) -> bool {
        &&& self.interface == interface.name
        &&& self.version == version
        &&& self.requests == interface.requests
        &&& self.events == interface.events
    }

    /// The object created by message `opcode` of `messages`, if the protocol
    /// fixes its interface: a child of the same version, with the metadata
    /// that `child` gives for this object's.
    pub open spec fn spec_child(self, messages: &'static [MessageDesc], opcode: u16, child: Option<
        Object<Meta>,
    >) -> bool {
        if (opcode as int) < messages@.len() && messages@[opcode as int].child_interface is Some {
            &&& child is Some
            &&& child.unwrap().describes(
                messages@[opcode as int].child_interface.unwrap(),
                self.version,
            )
            &&& call_ensures(Meta::child, (&self.meta,), child.unwrap().meta)
        } else {
            child is None
        }
    }
}

impl<Meta: ObjectMetadata> Clone for Object<Meta> {
    fn clone(&self) -> (r: Self)
        ensures
            r.clone_of(*self),
    {
        Object {
            interface: self.interface,
            version: self.version,
            requests: self.requests,
            events: self.events,
            meta: self.meta.clone(),
        }
    }
}

impl<Meta: ObjectMetadata> Object<Meta> {
    /// Create an Object corresponding to given interface and version
    pub fn from_interface(interface: &'static Interface, version: u32, meta: Meta) -> (o: Object<
        Meta,
    >)
        ensures
            o.describes(interface, version),
            o.meta == meta,
    {
        Object {
            interface: interface.name,
            version,
            requests: interface.requests,
            events: interface.events,
            meta,
        }
    }

    fn child_from(&self, messages: &'static [MessageDesc], opcode: u16) -> (r: Option<Object<Meta>>)
        ensures
            self.spec_child(messages, opcode, r),
    {
        let idx = opcode as usize;
        if idx < messages.len() {
            match messages[idx].child_interface {
                Some(interface) => Some(
                    Object::from_interface(interface, self.version, self.meta.child()),
                ),
                None => None,
            }
        } else {
            None
        }
    }

    /// Create an optional `Object` corresponding to the possible `new_id` associated
    /// with given event opcode
    pub fn event_child(&self, opcode: u16) -> (r: Option<Object<Meta>>)
        ensures
            self.spec_child(self.events, opcode, r),
    {
        self.child_from(self.events, opcode)
    }

    /// Create an optional `Object` corresponding to the possible `new_id` associated
    /// with given request opcode
    pub fn request_child(&self, opcode: u16) -> (r: Option<Object<Meta>>)
        ensures
            self.spec_child(self.requests, opcode, r),
    {
        self.child_from(self.requests, opcode)
    }

    /// Create a placeholder object that will be filled-in by the message logic
    pub fn placeholder(meta: Meta) -> (o: Object<Meta>)
        ensures
            o.interface@ == Seq::<char>::empty(),
            o.version == 0,
            o.requests@ == Seq::<MessageDesc>::empty(),
            o.events@ == Seq::<MessageDesc>::empty(),
            o.meta == meta,
    {
        let requests: &'static [MessageDesc] = &[];
        let events: &'static [MessageDesc] = &[];
        proof {
            reveal_strlit("");
        }
        Object { interface: "", version: 0, requests, events, meta }
    }
}

/// The slot `i` of a store: the object there, or nothing past its end.
pub open spec fn slot<Meta: ObjectMetadata>(store: Seq<Option<Object<Meta>>>, i: int) -> Option<
    Object<Meta>,
> {
    if 0 <= i < store.len() {
        store[i]
    } else {
        None
    }
}

/// The store with slot `i` emptied, if it exists.
pub open spec fn clear_slot<Meta: ObjectMetadata>(store: Seq<Option<Object<Meta>>>, i: int) -> Seq<
    Option<Object<Meta>>,
> {
    if 0 <= i < store.len() {
        store.update(i, None)
    } else {
        store
    }
}

/// The store with `object` placed at slot `i`: only into a free slot or at
/// the end of the store.
pub open spec fn place_at<Meta: ObjectMetadata>(
    store: Seq<Option<Object<Meta>>>,
    i: int,
    object: Object<Meta>,
) -> Option<Seq<Option<Object<Meta>>>> {
    if i < 0 || i > store.len() {
        None
    } else if i == store.len() {
        Some(store.push(Some(object)))
    } else if store[i] is Some {
        None
    } else {
        Some(store.update(i, Some(object)))
    }
}

/// The index of the first free slot of a store, or its length if it is full.
pub open spec fn first_free<Meta: ObjectMetadata>(store: Seq<Option<Object<Meta>>>) -> nat
    decreases store.len(),
{
    if store.len() == 0 {
        0
    } else if store[0] is None {
        0
    } else {
        1 + first_free(store.drop_first())
    }
}

/// The store with `object` in its first free slot.
pub open spec fn place_first_free<Meta: ObjectMetadata>(
    store: Seq<Option<Object<Meta>>>,
    object: Object<Meta>,
) -> Seq<Option<Object<Meta>>> {
    if first_free(store) < store.len() {
        store.update(first_free(store) as int, Some(object))
    } else {
        store.push(Some(object))
    }
}

/// The contents of an object map: slot `i` of `clients` holds the object of
/// id `i + 1`, slot `i` of `servers` the object of id `SERVER_ID_LIMIT + i`.
pub struct MapModel<Meta: ObjectMetadata> {
    pub clients: Seq<Option<Object<Meta>>>,
    pub servers: Seq<Option<Object<Meta>>>,
}

impl<Meta: ObjectMetadata> MapModel<Meta> {
    /// The object of id `id`, if there is one.
    pub open spec fn find(self, id: u32) -> Option<Object<Meta>> {
        if id == 0 {
            None
        } else if id >= SERVER_ID_LIMIT {
            slot(self.servers, id - SERVER_ID_LIMIT)
        } else {
            slot(self.clients, id - 1)
        }
    }

    /// The map with the object of id `id` removed.
    pub open spec fn remove(self, id: u32) -> Self {
        if id == 0 {
            self
        } else if id >= SERVER_ID_LIMIT {
            MapModel { servers: clear_slot(self.servers, id - SERVER_ID_LIMIT), ..self }
        } else {
            MapModel { clients: clear_slot(self.clients, id - 1), ..self }
        }
    }

    /// The map with `object` given id `id`, or nothing when that id is not the
    /// next free one of its store.
    pub open spec fn insert_at(self, id: u32, object: Object<Meta>) -> Option<Self> {
        if id == 0 {
            None
        } else if id >= SERVER_ID_LIMIT {
            match place_at(self.servers, id - SERVER_ID_LIMIT, object) {
                Some(s) => Some(MapModel { servers: s, ..self }),
                None => None,
            }
        } else {
            match place_at(self.clients, id - 1, object) {
                Some(s) => Some(MapModel { clients: s, ..self }),
                None => None,
            }
        }
    }

    /// The id the next client-side object receives.
    pub open spec fn next_client_id(self) -> int {
        (first_free(self.clients) + 1) as int
    }

    /// The id the next server-side object receives.
    pub open spec fn next_server_id(self) -> int {
        (first_free(self.servers) + SERVER_ID_LIMIT) as int
    }

    /// The map with `object` in the first free client slot.
    pub open spec fn insert_client(self, object: Object<Meta>) -> Self {
        MapModel { clients: place_first_free(self.clients, object), ..self }
    }

    /// The map with `object` in the first free server slot.
    pub open spec fn insert_server(self, object: Object<Meta>) -> Self {
        MapModel { servers: place_first_free(self.servers, object), ..self }
    }
}

/// A holder for the object store of a connection
///
/// Keeps track of which object id is associated to which
/// interface object, and which is currently unused.
pub struct ObjectMap<Meta: ObjectMetadata> {
    client_objects: Vec<Option<Object<Meta>>>,
    server_objects: Vec<Option<Object<Meta>>>,
}

impl<Meta: ObjectMetadata> View for ObjectMap<Meta> {
    type V = MapModel<Meta>;

    closed spec fn view(&self) -> MapModel<Meta> {
        MapModel { clients: self.client_objects@, servers: self.server_objects@ }
    }
}

// insert a new object in a store at the first free place
fn insert_in<Meta: ObjectMetadata>(store: &mut Vec<Option<Object<Meta>>>, object: Object<Meta>) -> (r:
    u32)
    requires
        first_free(old(store)@) < u32::MAX,
    ensures
        r == first_free(old(store)@),
        final(store)@ == place_first_free(old(store)@, object),
{
    let n = store.len();
    let mut i: usize = 0;
    while i < n
        invariant
            n == store@.len(),
            store@ == old(store)@,
            first_free(old(store)@) < u32::MAX,
            0 <= i <= n,
            forall|j: int| 0 <= j < i ==> store@[j] is Some,
        decreases n - i,
    {
        if store[i].is_none() {
            proof {
                lemma_first_free_is(store@, i as int);
            }
            store.set(i, Some(object));
            return i as u32;
        }
        i += 1;
    }
    proof {
        lemma_first_free_is(store@, n as int);
    }
    store.push(Some(object));
    (store.len() - 1) as u32
}

/// The first free slot is the first index past occupied slots that is free
/// or the end.
proof fn lemma_first_free_is<Meta: ObjectMetadata>(store: Seq<Option<Object<Meta>>>, i: int)
    requires
        0 <= i <= store.len(),
        forall|j: int| 0 <= j < i ==> store[j] is Some,
        i < store.len() ==> store[i] is None,
    ensures
        first_free(store) == i,
    decreases i,
{
    if i > 0 {
        lemma_first_free_is(store.drop_first(), i - 1);
    }
}

// insert an object at a given place in a store
fn insert_in_at<Meta: ObjectMetadata>(
    store: &mut Vec<Option<Object<Meta>>>,
    id: usize,
    object: Object<Meta>,
) -> (r: Result<(), ()>)
    ensures
        r is Ok <==> place_at(old(store)@, id as int, object) is Some,
        r is Ok ==> final(store)@ == place_at(old(store)@, id as int, object).unwrap(),
        r is Err ==> final(store)@ == old(store)@,
{
    let len = store.len();
    if id > len {
        Err(())
    } else if id == len {
        store.push(Some(object));
        Ok(())
    } else {
        if store[id].is_some() {
            return Err(());
        }
        store.set(id, Some(object));
        Ok(())
    }
}

impl<Meta: ObjectMetadata> ObjectMap<Meta> {
    /// Create a new empty object map
    pub fn new() -> (m: ObjectMap<Meta>)
        ensures
            m@.clients == Seq::<Option<Object<Meta>>>::empty(),
            m@.servers == Seq::<Option<Object<Meta>>>::empty(),
    {
        ObjectMap { client_objects: Vec::new(), server_objects: Vec::new() }
    }

    /// Find an object in the store
    pub fn find(&self, id: u32) -> (r: Option<Object<Meta>>)
        ensures
            r is Some <==> self@.find(id) is Some,
            r matches Some(o) ==> o.clone_of(self@.find(id).unwrap()),
    {
        if id == 0 {
            None
        } else if id >= SERVER_ID_LIMIT {
            let idx = (id - SERVER_ID_LIMIT) as usize;
            if idx < self.server_objects.len() {
                match &self.server_objects[idx] {
                    Some(o) => Some(o.clone()),
                    None => None,
                }
            } else {
                None
            }
        } else {
            let idx = (id - 1) as usize;
            if idx < self.client_objects.len() {
                match &self.client_objects[idx] {
                    Some(o) => Some(o.clone()),
                    None => None,
                }
            } else {
                None
            }
        }
    }

    /// Remove an object from the store
    ///
    /// Does nothing if the object didn't previously exists
    pub fn remove(&mut self, id: u32)
        ensures
            final(self)@ == old(self)@.remove(id),
    {
        if id == 0 {
            // nothing
        } else if id >= SERVER_ID_LIMIT {
            let idx = (id - SERVER_ID_LIMIT) as usize;
            if idx < self.server_objects.len() {
                self.server_objects.set(idx, None);
            }
        } else {
            let idx = (id - 1) as usize;
            if idx < self.client_objects.len() {
                self.client_objects.set(idx, None);
            }
        }
    }

    /// Insert given object for given id
    ///
    /// Can fail if the requested id is not the next free id of this store.
    /// (In which case this is a protocol error)
    pub fn insert_at(&mut self, id: u32, object: Object<Meta>) -> (r: Result<(), ()>)
        ensures
            r is Ok <==> old(self)@.insert_at(id, object) is Some,
            r is Ok ==> final(self)@ == old(self)@.insert_at(id, object).unwrap(),
            r is Err ==> final(self)@ == old(self)@,
    {
        if id == 0 {
            Err(())
        } else if id >= SERVER_ID_LIMIT {
            insert_in_at(&mut self.server_objects, (id - SERVER_ID_LIMIT) as usize, object)
        } else {
            insert_in_at(&mut self.client_objects, (id - 1) as usize, object)
        }
    }

    /// Allocate a new id for an object in the client namespace
    pub fn client_insert_new(&mut self, object: Object<Meta>) -> (id: u32)
        requires
            old(self)@.next_client_id() <= u32::MAX,
        ensures
            id == old(self)@.next_client_id(),
            final(self)@ == old(self)@.insert_client(object),
    {
        insert_in(&mut self.client_objects, object) + 1
    }

    /// Allocate a new id for an object in the server namespace
    pub fn server_insert_new(&mut self, object: Object<Meta>) -> (id: u32)
        requires
            old(self)@.next_server_id() <= u32::MAX,
        ensures
            id == old(self)@.next_server_id(),
            final(self)@ == old(self)@.insert_server(object),
    {
        proof {
            lemma_first_free_bound(old(self)@.servers);
        }
        insert_in(&mut self.server_objects, object) + SERVER_ID_LIMIT
    }
}

/// Run `f` on the object in slot `idx` of a store, where there is one.
fn with_slot<Meta: ObjectMetadata, T, F: FnOnce(&mut Object<Meta>) -> T>(
    store: &mut Vec<Option<Object<Meta>>>,
    idx: usize,
    f: F,
) -> (r: Result<T, ()>)
    requires
        forall|o: &mut Object<Meta>| #[trigger] f.requires((o,)),
    ensures
        r is Ok <==> slot(old(store)@, idx as int) is Some,
        r is Err ==> final(store)@ == old(store)@,
        final(store)@.len() == old(store)@.len(),
        forall|j: int| 0 <= j < old(store)@.len() && j != idx ==> #[trigger] final(store)@[j] == old(store)@[j],
        r matches Ok(v) ==> exists|o: &mut Object<Meta>|
            *o == old(store)@[idx as int].unwrap() && #[trigger] f.ensures((o,), v)
                && final(store)@[idx as int] == Some(*final(o)),
{
    if idx < store.len() && store[idx].is_some() {
        let r = match &mut store[idx] {
            Some(obj) => Ok(f(obj)),
            None => Err(()),
        };
        proof {
            if r is Ok {
                let v = r->Ok_0;
                assert(exists|o: &mut Object<Meta>|
                    *o == old(store)@[idx as int].unwrap() && #[trigger] f.ensures((o,), v)
                        && store@[idx as int] == Some(*final(o)));
            }
        }
        r
    } else {
        Err(())
    }
}

impl<Meta: ObjectMetadata> ObjectMap<Meta> {
    /// Mutably access an object of the map
    ///
    /// Where `id` holds an object, `f` runs on it, its answer is returned and
    /// the object stays as `f` left it; otherwise `f` is not called and the
    /// map is unchanged.
    pub fn with<T, F: FnOnce(&mut Object<Meta>) -> T>(&mut self, id: u32, f: F) -> (r: Result<T, ()>)
        requires
            forall|o: &mut Object<Meta>| #[trigger] f.requires((o,)),
        ensures
            r is Ok <==> old(self)@.find(id) is Some,
            final(self)@.clients.len() == old(self)@.clients.len(),
            final(self)@.servers.len() == old(self)@.servers.len(),
            forall|k: u32| k != id ==> final(self)@.find(k) == old(self)@.find(k),
            final(self)@.find(id) is Some <==> old(self)@.find(id) is Some,
            r is Err ==> final(self)@ == old(self)@,
            r matches Ok(v) ==> exists|o: &mut Object<Meta>|
                *o == old(self)@.find(id).unwrap() && #[trigger] f.ensures((o,), v)
                    && final(self)@.find(id) == Some(*final(o)),
    {
        if id == 0 {
            Err(())
        } else if id >= SERVER_ID_LIMIT {
            let r = with_slot(&mut self.server_objects, (id - SERVER_ID_LIMIT) as usize, f);
            proof {
                if r is Ok {
                    let v = r->Ok_0;
                    let o = choose|o: &mut Object<Meta>|
                        *o == old(self)@.servers[(id - SERVER_ID_LIMIT) as int].unwrap() && #[trigger] f.ensures((o,), v)
                            && self.server_objects@[(id - SERVER_ID_LIMIT) as int] == Some(*final(o));
                    assert(self@.find(id) == Some(*final(o)));
                }
            }
            r
        } else {
            let r = with_slot(&mut self.client_objects, (id - 1) as usize, f);
            proof {
                if r is Ok {
                    let v = r->Ok_0;
                    let o = choose|o: &mut Object<Meta>|
                        *o == old(self)@.clients[id - 1].unwrap() && #[trigger] f.ensures((o,), v)
                            && self.client_objects@[id - 1] == Some(*final(o));
                    assert(self@.find(id) == Some(*final(o)));
                }
            }
            r
        }
    }
}

/// Two stores have the same occupied slots.
pub open spec fn same_slots<Meta: ObjectMetadata>(
    a: Seq<Option<Object<Meta>>>,
    b: Seq<Option<Object<Meta>>>,
) -> bool {
    &&& a.len() == b.len()
    &&& forall|i: int| 0 <= i < a.len() ==> (#[trigger] a[i] is Some <==> b[i] is Some)
}

impl<Meta: ObjectMetadata> ObjectMap<Meta> {
    /// Mutably access all objects of the map in sequence
    ///
    /// Each object is handed to `f` with its id; afterwards each slot holds
    /// what `f` made of its object, and free slots stay free.
    pub fn with_all<F: FnMut(u32, &mut Object<Meta>)>(&mut self, f: F)
        requires
            forall|id: u32, o: &mut Object<Meta>| #[trigger] f.requires((id, o)),
            forall|i: int|
                0 <= i < old(self)@.servers.len() && #[trigger] old(self)@.servers[i] is Some ==> i
                    + SERVER_ID_LIMIT <= u32::MAX,
            old(self)@.clients.len() < u32::MAX,
        ensures
            same_slots(final(self)@.clients, old(self)@.clients),
            same_slots(final(self)@.servers, old(self)@.servers),
            forall|k: int|
                0 <= k < old(self)@.clients.len() ==> match #[trigger] old(self)@.clients[k] {
                    Some(o) => exists|r: &mut Object<Meta>|
                        *r == o && #[trigger] f.ensures(((k + 1) as u32, r), ()) && final(self)@.clients[k]
                            == Some(*final(r)),
                    None => final(self)@.clients[k] is None,
                },
            forall|k: int|
                0 <= k < old(self)@.servers.len() ==> match #[trigger] old(self)@.servers[k] {
                    Some(o) => exists|r: &mut Object<Meta>|
                        *r == o && #[trigger] f.ensures(((k + SERVER_ID_LIMIT) as u32, r), ())
                            && final(self)@.servers[k] == Some(*final(r)),
                    None => final(self)@.servers[k] is None,
                },
    {
        let mut g = f;
        let n = self.client_objects.len();
        let mut i: usize = 0;
        while i < n
            invariant
                n == self.client_objects@.len(),
                n == old(self)@.clients.len(),
                n < u32::MAX,
                0 <= i <= n,
                self.server_objects@ == old(self)@.servers,
                g == f,
                forall|id: u32, o: &mut Object<Meta>| #[trigger] g.requires((id, o)),
                forall|k: int|
                    i <= k < n ==> #[trigger] self.client_objects@[k] == old(self)@.clients[k],
                forall|k: int|
                    0 <= k < i ==> match #[trigger] old(self)@.clients[k] {
                        Some(o) => (exists|r: &mut Object<Meta>| *r == o && #[trigger] f.ensures(((k + 1) as u32, r), ()) && self.client_objects@[k] == Some(*final(r))),
                        None => self.client_objects@[k] is None,
                    },
            decreases n - i,
        {
            let ghost before = self.client_objects@;
            match &mut self.client_objects[i] {
                Some(obj) => {
                    g(i as u32 + 1, obj);
                },
                None => {},
            }
            proof {
                assert forall|k: int| 0 <= k < i + 1 implies match #[trigger] old(self)@.clients[k] {
                    Some(o) => (exists|r: &mut Object<Meta>| *r == o && #[trigger] f.ensures(((k + 1) as u32, r), ()) && self.client_objects@[k] == Some(*final(r))),
                    None => self.client_objects@[k] is None,
                } by {
                    if k < i {
                        assert(self.client_objects@[k] == before[k]);
                    }
                }
            }
            i += 1;
        }
        let m = self.server_objects.len();
        let mut j: usize = 0;
        let ghost clients_done = self.client_objects@;
        while j < m
            invariant
                m == self.server_objects@.len(),
                m == old(self)@.servers.len(),
                0 <= j <= m,
                self.client_objects@ == clients_done,
                g == f,
                forall|i: int|
                    0 <= i < old(self)@.servers.len() && #[trigger] old(self)@.servers[i] is Some
                        ==> i + SERVER_ID_LIMIT <= u32::MAX,
                forall|id: u32, o: &mut Object<Meta>| #[trigger] g.requires((id, o)),
                forall|k: int|
                    j <= k < m ==> #[trigger] self.server_objects@[k] == old(self)@.servers[k],
                forall|k: int|
                    0 <= k < j ==> match #[trigger] old(self)@.servers[k] {
                        Some(o) => (exists|r: &mut Object<Meta>| *r == o && #[trigger] f.ensures(((k + SERVER_ID_LIMIT) as u32, r), ()) && self.server_objects@[k] == Some(*final(r))),
                        None => self.server_objects@[k] is None,
                    },
            decreases m - j,
        {
            let ghost before = self.server_objects@;
            match &mut self.server_objects[j] {
                Some(obj) => {
                    g(j as u32 + SERVER_ID_LIMIT, obj);
                },
                None => {},
            }
            proof {
                assert forall|k: int| 0 <= k < j + 1 implies match #[trigger] old(self)@.servers[k] {
                    Some(o) => (exists|r: &mut Object<Meta>| *r == o && #[trigger] f.ensures(((k + SERVER_ID_LIMIT) as u32, r), ()) && self.server_objects@[k] == Some(*final(r))),
                    None => self.server_objects@[k] is None,
                } by {
                    if k < j {
                        assert(self.server_objects@[k] == before[k]);
                    }
                }
            }
            j += 1;
        }
        proof {
            assert forall|k: int| 0 <= k < old(self)@.clients.len() implies (#[trigger] self@.clients[k] is Some
                <==> old(self)@.clients[k] is Some) by {
                match old(self)@.clients[k] {
                    Some(o) => {
                        assert((exists|r: &mut Object<Meta>| *r == o && #[trigger] f.ensures(((k + 1) as u32, r), ()) && self.client_objects@[k] == Some(*final(r))));
                    },
                    None => {},
                }
            }
            assert forall|k: int| 0 <= k < old(self)@.servers.len() implies (#[trigger] self@.servers[k] is Some
                <==> old(self)@.servers[k] is Some) by {
                match old(self)@.servers[k] {
                    Some(o) => {
                        assert((exists|r: &mut Object<Meta>| *r == o && #[trigger] f.ensures(((k + SERVER_ID_LIMIT) as u32, r), ()) && self.server_objects@[k] == Some(*final(r))));
                    },
                    None => {},
                }
            }
        }
    }
}

proof fn lemma_first_free_bound<Meta: ObjectMetadata>(store: Seq<Option<Object<Meta>>>)
    ensures
        first_free(store) <= store.len(),
    decreases store.len(),
{
    if store.len() > 0 {
        lemma_first_free_bound(store.drop_first());
    }
}

/* ---------- laws of the object map ---------- */

/// Once `insert_at` succeeded, the id finds the inserted object, and every
/// other id finds what it found before.
pub proof fn law_find_after_insert_at<Meta: ObjectMetadata>(
    m: MapModel<Meta>,
    id: u32,
    object: Object<Meta>,
)
    requires
        m.insert_at(id, object) is Some,
    ensures
        m.insert_at(id, object).unwrap().find(id) == Some(object),
        forall|k: u32| k != id ==> #[trigger] m.insert_at(id, object).unwrap().find(k) == m.find(k),
{
}

/// An id that already holds an object cannot be given another one.
pub proof fn law_insert_at_occupied<Meta: ObjectMetadata>(
    m: MapModel<Meta>,
    id: u32,
    object: Object<Meta>,
)
    requires
        m.find(id) is Some,
    ensures
        m.insert_at(id, object) is None,
{
}

/// Once an id is removed it finds nothing, and every other id finds what it
/// found before.
pub proof fn law_find_after_remove<Meta: ObjectMetadata>(m: MapModel<Meta>, id: u32)
    ensures
        m.remove(id).find(id) is None,
        forall|k: u32| k != id ==> #[trigger] m.remove(id).find(k) == m.find(k),
{
}

proof fn lemma_first_free_props<Meta: ObjectMetadata>(store: Seq<Option<Object<Meta>>>)
    ensures
        first_free(store) <= store.len(),
        first_free(store) < store.len() ==> store[first_free(store) as int] is None,
        forall|j: int| 0 <= j < first_free(store) ==> #[trigger] store[j] is Some,
    decreases store.len(),
{
    if store.len() > 0 && store[0] is Some {
        let rest = store.drop_first();
        lemma_first_free_props(rest);
        assert forall|j: int| 0 <= j < first_free(store) implies #[trigger] store[j] is Some by {
            if j > 0 {
                assert(store[j] == rest[j - 1]);
            }
        }
    }
}

/// The id a new client-side object receives was free, every smaller client
/// id is taken, and afterwards the id finds the object while every other id
/// finds what it found before.
pub proof fn law_client_insert_new<Meta: ObjectMetadata>(m: MapModel<Meta>, object: Object<Meta>)
    requires
        m.next_client_id() < SERVER_ID_LIMIT,
    ensures
        ({
            let id = m.next_client_id() as u32;
            &&& 0 < id
            &&& m.find(id) is None
            &&& forall|k: u32| 0 < k < id ==> #[trigger] m.find(k) is Some
            &&& m.insert_client(object).find(id) == Some(object)
            &&& forall|k: u32| k != id ==> #[trigger] m.insert_client(object).find(k) == m.find(k)
        }),
{
    lemma_first_free_props(m.clients);
}

/// The id a new server-side object receives was free, every smaller server
/// id is taken, and afterwards the id finds the object while every other id
/// finds what it found before.
pub proof fn law_server_insert_new<Meta: ObjectMetadata>(m: MapModel<Meta>, object: Object<Meta>)
    requires
        m.next_server_id() <= u32::MAX,
    ensures
        ({
            let id = m.next_server_id() as u32;
            &&& id >= SERVER_ID_LIMIT
            &&& m.find(id) is None
            &&& forall|k: u32| SERVER_ID_LIMIT <= k < id ==> #[trigger] m.find(k) is Some
            &&& m.insert_server(object).find(id) == Some(object)
            &&& forall|k: u32| k != id ==> #[trigger] m.insert_server(object).find(k) == m.find(k)
        }),
{
    lemma_first_free_props(m.servers);
}

/// A call made on an object map, with what it answered.
pub enum MapCall<Meta: ObjectMetadata> {
    /// `insert_at(id, object)`, and whether it succeeded.
    InsertAt(u32, Object<Meta>, bool),
    /// `client_insert_new(object)`, and the id it gave.
    ClientInsertNew(Object<Meta>, u32),
    /// `server_insert_new(object)`, and the id it gave.
    ServerInsertNew(Object<Meta>, u32),
    /// `remove(id)`.
    Remove(u32),
    /// `with(id, f)`, and the object as `f` left it if the call succeeded.
    With(u32, Option<Object<Meta>>),
}

/// `after` is the map `before` becomes through `call`, as the contract of
/// that method says.
pub open spec fn call_step<Meta: ObjectMetadata>(
    before: MapModel<Meta>,
    call: MapCall<Meta>,
    after: MapModel<Meta>,
) -> bool {
    match call {
        MapCall::InsertAt(id, o, ok) => {
            &&& ok <==> before.insert_at(id, o) is Some
            &&& ok ==> after == before.insert_at(id, o).unwrap()
            &&& !ok ==> after == before
        },
        MapCall::ClientInsertNew(o, id) => {
            &&& before.next_client_id() <= u32::MAX
            &&& id == before.next_client_id()
            &&& after == before.insert_client(o)
        },
        MapCall::ServerInsertNew(o, id) => {
            &&& before.next_server_id() <= u32::MAX
            &&& id == before.next_server_id()
            &&& after == before.insert_server(o)
        },
        MapCall::Remove(id) => after == before.remove(id),
        MapCall::With(id, left) => {
            &&& left is Some <==> before.find(id) is Some
            &&& forall|k: u32| k != id ==> #[trigger] after.find(k) == before.find(k)
            &&& left matches Some(o) ==> after.find(id) == Some(o)
            &&& left is None ==> after == before
        },
    }
}

/// What id `id` holds after `calls`, read from their record: the object of
/// the last call that stored one at `id` (a successful `insert_at(id, ..)`,
/// an `*_insert_new` that gave `id`) or changed it (a successful
/// `with(id, ..)`), unless `remove(id)` came after it; else nothing.
pub open spec fn last_stored<Meta: ObjectMetadata>(calls: Seq<MapCall<Meta>>, id: u32) -> Option<
    Object<Meta>,
>
    decreases calls.len(),
{
    if calls.len() == 0 {
        None
    } else {
        let earlier = last_stored(calls.drop_last(), id);
        match calls.last() {
            MapCall::InsertAt(k, o, ok) => if ok && k == id {
                Some(o)
            } else {
                earlier
            },
            MapCall::ClientInsertNew(o, k) => if k == id {
                Some(o)
            } else {
                earlier
            },
            MapCall::ServerInsertNew(o, k) => if k == id {
                Some(o)
            } else {
                earlier
            },
            MapCall::Remove(k) => if k == id {
                None
            } else {
                earlier
            },
            MapCall::With(k, left) => if k == id && left is Some {
                left
            } else {
                earlier
            },
        }
    }
}

/// What a map finds is what its calls stored: `maps` are the states of a map
/// from `new` on, through `calls`; at the end id 0 finds nothing, and any id
/// finds the object that the last call storing or changing it left there,
/// unless it was removed since. (New client ids stay below the server ids.)
pub proof fn law_find_after_calls<Meta: ObjectMetadata>(
    maps: Seq<MapModel<Meta>>,
    calls: Seq<MapCall<Meta>>,
    id: u32,
)
    requires
        maps.len() == calls.len() + 1,
        maps[0].clients == Seq::<Option<Object<Meta>>>::empty(),
        maps[0].servers == Seq::<Option<Object<Meta>>>::empty(),
        forall|k: int| 0 <= k < calls.len() ==> call_step(maps[k], #[trigger] calls[k], maps[k + 1]),
        forall|k: int|
            0 <= k < calls.len() ==> (#[trigger] calls[k] matches MapCall::ClientInsertNew(_, i) ==> i
                < SERVER_ID_LIMIT),
    ensures
        maps.last().find(0) is None,
        maps.last().find(id) == last_stored(calls, id),
    decreases calls.len(),
{
    if calls.len() > 0 {
        let n = calls.len() - 1;
        let before = maps[n];
        let after = maps[n + 1];
        let call = calls[n];
        assert(call_step(before, call, after));
        law_find_after_calls(maps.drop_last(), calls.drop_last(), id);
        assert(maps.drop_last().last() == before);
        assert(calls.last() == call);
        match call {
            MapCall::InsertAt(k, o, ok) => {
                if ok {
                    law_find_after_insert_at(before, k, o);
                }
            },
            MapCall::ClientInsertNew(o, k) => {
                law_client_insert_new(before, o);
            },
            MapCall::ServerInsertNew(o, k) => {
                law_server_insert_new(before, o);
            },
            MapCall::Remove(k) => {
                law_find_after_remove(before, k);
            },
            MapCall::With(k, left) => {
                if id != k {
                    assert(after.find(id) == before.find(id));
                }
            },
        }
    }
}

} // verus!
