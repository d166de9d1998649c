//! Utility type to handle the registry and global objects

use vstd::prelude::*;

verus! {

/// What an environment of globals is built from and cloned with.
///
/// Implementations say which advertised globals they need; `create` gives
/// the environment once they are all there.
pub trait EnvHandlerInner: Sized {
    /// The environment, if the advertised globals hold all it needs.
    fn create(globals: &[(u32, String, u32)]) -> Option<Self>;

    /// A copy of the environment.
    fn clone_env(&self) -> Self;
}

/// `inner` is what `create` gives for a list holding the globals `globals`.
pub open spec fn built_from<H: EnvHandlerInner>(inner: Option<H>, globals: Seq<(u32, String, u32)>) -> bool {
    exists|s: &[(u32, String, u32)]| s@ == globals && #[trigger] call_ensures(H::create, (s,), inner)
}

/// Utility type to handle the registry and global objects
///
/// It keeps the list of globals the server declares, `(global_id,
/// interface_name, global_version)`, and builds the environment as soon as
/// all the globals it needs have been declared.
pub struct EnvHandler<H: EnvHandlerInner> {
    globals: Vec<(u32, String, u32)>,
    inner: Option<H>,
}

impl<H: EnvHandlerInner> EnvHandler<H> {
    /// The advertised globals, in order.
    pub closed spec fn spec_globals(&self) -> Seq<(u32, String, u32)> {
        self.globals@
    }

    /// The environment, once built.
    pub closed spec fn spec_inner(&self) -> Option<H> {
        self.inner
    }

    /// A handler that saw no global yet.
    pub fn new() -> (r: EnvHandler<H>)
        ensures
            r.spec_globals() == Seq::<(u32, String, u32)>::empty(),
            r.spec_inner() is None,
    {
        EnvHandler { globals: Vec::new(), inner: None }
    }

    /// Is the handler ready
    ///
    /// Returns true if all required globals have been created.
    pub fn ready(&self) -> (r: bool)
        ensures
            r == self.spec_inner() is Some,
    {
        self.inner.is_some()
    }

    /// List of advertised globals
    ///
    /// Returns a list of all globals that have been advertised by the server.
    ///
    /// The type format of each tuple is: `(global_id, interface_name, global_version)`.
    pub fn globals(&self) -> (r: &[(u32, String, u32)])
        ensures
            r@ == self.spec_globals(),
    {
        self.globals.as_slice()
    }

    /// Retrieve an owned copy of the environment
    ///
    /// This clones the inner env so that you can have access to the
    /// globals without borrowing the event queue
    pub fn clone_inner(&self) -> (r: Option<H>)
        ensures
            r is Some <==> self.spec_inner() is Some,
            self.spec_inner() matches Some(h) ==> call_ensures(H::clone_env, (&h,), r.unwrap()),
    {
        match &self.inner {
            Some(h) => Some(h.clone_env()),
            None => None,
        }
    }

    /// Returns true if the env became ready after this call
    fn try_make_ready(&mut self) -> (r: bool)
        ensures
            final(self).spec_globals() == old(self).spec_globals(),
            old(self).spec_inner() is Some ==> !r && final(self).spec_inner() == old(
                self,
            ).spec_inner(),
            old(self).spec_inner() is None ==> r == final(self).spec_inner() is Some
                && built_from(final(self).spec_inner(), final(self).spec_globals()),
    {
        if self.inner.is_some() {
            return false;
        }
        let globals = self.globals.as_slice();
        let built = H::create(globals);
        assert(call_ensures(H::create, (globals,), built));
        self.inner = built;
        self.ready()
    }

    /// The server declared a global: it joins the list, and the environment
    /// is built if it was not yet and can now be. Returns whether the handler
    /// became ready.
    pub fn global_added(&mut self, name: u32, interface: String, version: u32) -> (r: bool)
        ensures
            final(self).spec_globals() == old(self).spec_globals().push((name, interface, version)),
            old(self).spec_inner() is Some ==> !r && final(self).spec_inner() == old(
                self,
            ).spec_inner(),
            old(self).spec_inner() is None ==> r == final(self).spec_inner() is Some
                && built_from(final(self).spec_inner(), final(self).spec_globals()),
    {
        self.globals.push((name, interface, version));
        self.try_make_ready()
    }

    /// The server removed a global: every global of this id leaves the list.
    pub fn global_removed(&mut self, name: u32)
        ensures
            final(self).spec_globals() == without_name(old(self).spec_globals(), name),
            final(self).spec_inner() == old(self).spec_inner(),
    {
        let ghost pred = name_is_not(name);
        let n = self.globals.len();
        let mut kept: Vec<(u32, String, u32)> = Vec::new();
        let mut i: usize = 0;
        while i < n
            invariant
                0 <= i <= n,
                n == self.globals@.len(),
                self.globals@ == old(self).globals@,
                self.inner == old(self).inner,
                pred == name_is_not(name),
                kept@ == self.globals@.take(i as int).filter(pred),
            decreases n - i,
        {
            assert(self.globals@.take(i as int + 1).drop_last() =~= self.globals@.take(i as int));
            assert(self.globals@.take(i as int + 1).last() == self.globals@[i as int]);
            reveal_with_fuel(Seq::filter, 1);
            if self.globals[i].0 != name {
                let g = &self.globals[i];
                let entry = (g.0, g.1.clone(), g.2);
                assert(entry == self.globals@[i as int]);
                kept.push(entry);
            }
            i += 1;
        }
        assert(self.globals@.take(n as int) =~= self.globals@);
        self.globals = kept;
    }
}

/// The globals of `gs` whose id is not `name`, in order.
pub open spec fn without_name(gs: Seq<(u32, String, u32)>, name: u32) -> Seq<(u32, String, u32)> {
    gs.filter(name_is_not(name))
}

/// Whether a global's id is not `name`.
pub open spec fn name_is_not(name: u32) -> spec_fn((u32, String, u32)) -> bool {
    |g: (u32, String, u32)| g.0 != name
}

/// What the registry tells a handler.
pub enum GlobalEvent {
    /// A global was declared: `(global_id, interface_name, global_version)`.
    Added(u32, String, u32),
    /// The global of this id was removed.
    Removed(u32),
}

/// The list a new handler holds after `events`, each applied as
/// `global_added` and `global_removed` apply it.
pub open spec fn replay(events: Seq<GlobalEvent>) -> Seq<(u32, String, u32)>
    decreases events.len(),
{
    if events.len() == 0 {
        Seq::empty()
    } else {
        let before = replay(events.drop_last());
        match events.last() {
            GlobalEvent::Added(n, i, v) => before.push((n, i, v)),
            GlobalEvent::Removed(n) => without_name(before, n),
        }
    }
}

/// The globals that `events` declare, in the order they came, leaving out
/// each one that a later event removes by its id.
pub open spec fn survivors(events: Seq<GlobalEvent>) -> Seq<(u32, String, u32)>
    decreases events.len(),
{
    if events.len() == 0 {
        Seq::empty()
    } else {
        let later = events.drop_first();
        match events[0] {
            GlobalEvent::Added(n, i, v) => if later.contains(GlobalEvent::Removed(n)) {
                survivors(later)
            } else {
                seq![(n, i, v)] + survivors(later)
            },
            GlobalEvent::Removed(_) => survivors(later),
        }
    }
}

proof fn lemma_survivors_added(events: Seq<GlobalEvent>, n: u32, i: String, v: u32)
    ensures
        survivors(events.push(GlobalEvent::Added(n, i, v))) == survivors(events).push((n, i, v)),
    decreases events.len(),
{
    let e = GlobalEvent::Added(n, i, v);
    let full = events.push(e);
    assert(full[0] == if events.len() == 0 { e } else { events[0] });
    if events.len() == 0 {
        assert(full.drop_first() =~= Seq::<GlobalEvent>::empty());
        assert(!Seq::<GlobalEvent>::empty().contains(GlobalEvent::Removed(n)));
        assert(survivors(Seq::<GlobalEvent>::empty()) == Seq::<(u32, String, u32)>::empty());
        assert(survivors(full) == seq![(n, i, v)] + Seq::<(u32, String, u32)>::empty());
        assert(seq![(n, i, v)] + Seq::<(u32, String, u32)>::empty() =~= Seq::<(u32, String, u32)>::empty().push((n, i, v)));
    } else {
        let later = events.drop_first();
        assert(full.drop_first() =~= later.push(e));
        lemma_survivors_added(later, n, i, v);
        match events[0] {
            GlobalEvent::Added(n0, i0, v0) => {
                let r = GlobalEvent::Removed(n0);
                assert(later.push(e).contains(r) <==> later.contains(r)) by {
                    if later.push(e).contains(r) {
                        let k = choose|k: int| 0 <= k < later.push(e).len() && later.push(e)[k] == r;
                        assert(k < later.len());
                        assert(later[k] == r);
                    }
                    if later.contains(r) {
                        let k = choose|k: int| 0 <= k < later.len() && later[k] == r;
                        assert(later.push(e)[k] == r);
                    }
                }
                assert(seq![(n0, i0, v0)] + survivors(later).push((n, i, v)) =~= (seq![(n0, i0, v0)]
                    + survivors(later)).push((n, i, v)));
            },
            GlobalEvent::Removed(_) => {},
        }
    }
}

proof fn lemma_survivors_removed(events: Seq<GlobalEvent>, n: u32)
    ensures
        survivors(events.push(GlobalEvent::Removed(n))) == without_name(survivors(events), n),
    decreases events.len(),
{
    broadcast use vstd::seq_lib::group_filter_ensures;

    let e = GlobalEvent::Removed(n);
    let full = events.push(e);
    let pred = name_is_not(n);
    assert(full[0] == if events.len() == 0 { e } else { events[0] });
    if events.len() == 0 {
        assert(full.drop_first() =~= Seq::<GlobalEvent>::empty());
        assert(survivors(Seq::<GlobalEvent>::empty()) == Seq::<(u32, String, u32)>::empty());
        assert(survivors(full) == Seq::<(u32, String, u32)>::empty());
        assert(Seq::<(u32, String, u32)>::empty().filter(pred) =~= Seq::<(u32, String, u32)>::empty());
    } else {
        let later = events.drop_first();
        assert(full.drop_first() =~= later.push(e));
        lemma_survivors_removed(later, n);
        match events[0] {
            GlobalEvent::Added(n0, i0, v0) => {
                let r = GlobalEvent::Removed(n0);
                let t0 = (n0, i0, v0);
                assert(later.push(e).contains(r) <==> (later.contains(r) || n == n0)) by {
                    if later.push(e).contains(r) {
                        let k = choose|k: int| 0 <= k < later.push(e).len() && later.push(e)[k] == r;
                        if k < later.len() {
                            assert(later[k] == r);
                        }
                    }
                    if later.contains(r) {
                        let k = choose|k: int| 0 <= k < later.len() && later[k] == r;
                        assert(later.push(e)[k] == r);
                    }
                    if n == n0 {
                        assert(later.push(e)[later.len() as int] == r);
                    }
                }
                let sl = survivors(later);
                sl.lemma_filter_prepend(t0, pred);
                if later.contains(r) {
                    assert(survivors(events) == sl);
                    assert(survivors(full) == survivors(later.push(e)));
                } else if n == n0 {
                    assert(survivors(events) == seq![t0] + sl);
                    assert(survivors(full) == survivors(later.push(e)));
                    assert(!pred(t0));
                    assert(Seq::<(u32, String, u32)>::empty() + sl.filter(pred) =~= sl.filter(pred));
                } else {
                    assert(survivors(events) == seq![t0] + sl);
                    assert(survivors(full) == seq![t0] + survivors(later.push(e)));
                    assert(pred(t0));
                }
            },
            GlobalEvent::Removed(_) => {},
        }
    }
}

/// Applying `events` one by one, as `global_added` and `global_removed` do,
/// leaves the globals that survive them.
proof fn lemma_replay_survivors(events: Seq<GlobalEvent>)
    ensures
        replay(events) == survivors(events),
    decreases events.len(),
{
    if events.len() > 0 {
        let before = events.drop_last();
        lemma_replay_survivors(before);
        assert(before.push(events.last()) =~= events);
        match events.last() {
            GlobalEvent::Added(n, i, v) => lemma_survivors_added(before, n, i, v),
            GlobalEvent::Removed(n) => lemma_survivors_removed(before, n),
        }
    }
}

/// `after` is what `before` becomes when the registry event `event` reaches
/// it: through `global_added` for a declared global, through
/// `global_removed` for a removed one, as their contracts say.
pub open spec fn handler_step<H: EnvHandlerInner>(
    before: EnvHandler<H>,
    event: GlobalEvent,
    after: EnvHandler<H>,
) -> bool {
    match event {
        GlobalEvent::Added(n, i, v) => after.spec_globals() == before.spec_globals().push((n, i, v)),
        GlobalEvent::Removed(n) => after.spec_globals() == without_name(before.spec_globals(), n),
    }
}

/// The globals a handler lists are those the registry declared, in the order
/// it declared them, but for the ones it removed afterwards: `handlers` are
/// the states of a handler, from `new` on, through the calls that handed it
/// `events`, and its list at the end is what survives them.
pub proof fn law_globals_history<H: EnvHandlerInner>(
    handlers: Seq<EnvHandler<H>>,
    events: Seq<GlobalEvent>,
)
    requires
        handlers.len() == events.len() + 1,
        handlers[0].spec_globals() == Seq::<(u32, String, u32)>::empty(),
        forall|k: int|
            0 <= k < events.len() ==> handler_step(handlers[k], #[trigger] events[k], handlers[k + 1]),
    ensures
        handlers.last().spec_globals() == survivors(events),
{
    assert forall|k: int| 0 <= k <= events.len() implies #[trigger] handlers[k].spec_globals() == replay(
        events.take(k),
    ) by {
        lemma_handler_run(handlers, events, k);
    }
    assert(events.take(events.len() as int) =~= events);
    assert(handlers.last() == handlers[events.len() as int]);
    lemma_replay_survivors(events);
}

proof fn lemma_handler_run<H: EnvHandlerInner>(
    handlers: Seq<EnvHandler<H>>,
    events: Seq<GlobalEvent>,
    k: int,
)
    requires
        handlers.len() == events.len() + 1,
        handlers[0].spec_globals() == Seq::<(u32, String, u32)>::empty(),
        forall|j: int|
            0 <= j < events.len() ==> handler_step(handlers[j], #[trigger] events[j], handlers[j + 1]),
        0 <= k <= events.len(),
    ensures
        handlers[k].spec_globals() == replay(events.take(k)),
    decreases k,
{
    if k == 0 {
        assert(events.take(0) =~= Seq::<GlobalEvent>::empty());
    } else {
        lemma_handler_run(handlers, events, k - 1);
        assert(events.take(k).drop_last() =~= events.take(k - 1));
        assert(events.take(k).last() == events[k - 1]);
        assert(handler_step(handlers[k - 1], events[k - 1], handlers[k]));
    }
}

} // verus!
