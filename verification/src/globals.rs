//! The list of globals a compositor advertises, and the choice of the global
//! and version to bind.
//!
//! Binding itself is a protocol request of the registry: the functions here
//! decide which global (by its name) and which version a bind uses.

use vstd::prelude::*;

use crate::protocol::Interface;

verus! {

/// `RangeInclusive::start`: the lower bound of the range.
pub assume_specification<Idx>[ core::ops::RangeInclusive::<Idx>::start ](
    r: &core::ops::RangeInclusive<Idx>,
) -> (res: &Idx)
    ensures
        *res == r@.start,
;

/// `RangeInclusive::end`: the upper bound of the range.
pub assume_specification<Idx>[ core::ops::RangeInclusive::<Idx>::end ](
    r: &core::ops::RangeInclusive<Idx>,
) -> (res: &Idx)
    ensures
        *res == r@.end,
;

/// Description of a global.
#[derive(Debug, PartialEq, Eq)]
pub struct Global {
    /// The name of the global.
    ///
    /// This is an identifier used by the server to reference some specific global.
    pub name: u32,
    /// The interface of the global.
    ///
    /// This describes what type of protocol object the global is.
    pub interface: String,
    /// The advertised version of the global.
    ///
    /// This specifies the maximum version of the global that may be bound. This means any lower version of
    /// the global may be bound.
    pub version: u32,
}

impl Clone for Global {
    fn clone(&self) -> (r: Self)
        ensures
            r == *self,
    {
        Global { name: self.name, interface: self.interface.clone(), version: self.version }
    }
}

/// An error that occurs when a binding a global fails.
#[derive(Debug, Clone, Copy, PartialEq, Eq)]
pub enum BindError {
    /// The requested version of the global is not supported.
    UnsupportedVersion {
        /// The name of the global for which the server provides a too low value.
        interface: &'static str,
        /// The lowest version that was requested by the caller
        requested: u32,
        /// The actual version that was available on the server
        available: u32,
    },
    /// The requested global was not found in the registry.
    NotPresent(&'static str),
}

/// The globals advertised by the server, in the order they were advertised.
#[derive(Debug)]
pub struct GlobalListData {
    contents: Vec<Global>,
}

impl GlobalListData {
    pub closed spec fn globals(&self) -> Seq<Global> {
        self.contents@
    }

    /// A global was advertised.
    pub fn add(&mut self, global: Global)
        ensures
            final(self).globals() == old(self).globals().push(global),
    {
        self.contents.push(global);
    }

    /// A global was removed: the first with this name leaves the list and is
    /// returned.
    pub fn remove(&mut self, name: u32) -> (r: Option<Global>)
        ensures
            r is None <==> forall|k: int|
                0 <= k < old(self).globals().len() ==> (#[trigger] old(self).globals()[k]).name
                    != name,
            r is None ==> final(self).globals() == old(self).globals(),
            r matches Some(g) ==> exists|k: int|
                0 <= k < old(self).globals().len() && g == old(self).globals()[k] && g.name == name
                    && (forall|j: int|
                    0 <= j < k ==> (#[trigger] old(self).globals()[j]).name != name)
                    && final(self).globals() == old(self).globals().remove(k),
    {
        let n = self.contents.len();
        let mut i: usize = 0;
        while i < n
            invariant
                0 <= i <= n,
                n == self.contents@.len(),
                self.contents@ == old(self).contents@,
                forall|j: int| 0 <= j < i ==> (#[trigger] self.contents@[j]).name != name,
            decreases n - i,
        {
            if self.contents[i].name == name {
                let g = self.contents.remove(i);
                assert(old(self).globals()[i as int] == g);
                assert(g.name == name);
                assert(self.globals() == old(self).globals().remove(i as int));
                return Some(g);
            }
            i += 1;
        }
        None
    }
}

/// Index of the first global of the given interface.
pub open spec fn first_of_interface(globals: Seq<Global>, interface: Seq<char>) -> Option<int> {
    if exists|k: int| 0 <= k < globals.len() && (#[trigger] globals[k]).interface@ == interface {
        Some(
            choose|k: int|
                0 <= k < globals.len() && (#[trigger] globals[k]).interface@ == interface && forall|
                    j: int,
                |
                    0 <= j < k ==> (#[trigger] globals[j]).interface@ != interface,
        )
    } else {
        None
    }
}

/// The outcome of binding `global` for the version range `start..=end` of
/// `interface`: its name and the lower of its version and `end`, unless the
/// global's version is below `start`.
pub open spec fn bind_outcome(global: Global, start: u32, end: u32, interface: &'static str) -> Result<
    (u32, u32),
    BindError,
> {
    if start > global.version {
        Err(
            BindError::UnsupportedVersion {
                interface,
                requested: start,
                available: global.version,
            },
        )
    } else {
        Ok(
            (
                global.name,
                if global.version < end {
                    global.version
                } else {
                    end
                },
            ),
        )
    }
}

/// A helper for global initialization: the list of globals the server
/// advertised.
#[derive(Debug)]
pub struct GlobalList {
    data: GlobalListData,
}

impl GlobalList {
    pub closed spec fn spec_globals(&self) -> Seq<Global> {
        self.data.globals()
    }

    /// An empty list.
    pub fn new() -> (r: GlobalList)
        ensures
            r.spec_globals() == Seq::<Global>::empty(),
    {
        GlobalList { data: GlobalListData { contents: Vec::new() } }
    }

    fn data(&self) -> (r: &GlobalListData)
        ensures
            r.globals() == self.spec_globals(),
    {
        &self.data
    }

    /// The server advertised a global.
    pub fn global_added(&mut self, name: u32, interface: String, version: u32)
        ensures
            final(self).spec_globals() == old(self).spec_globals().push(Global { name, interface, version }),
    {
        self.data.add(Global { name, interface, version });
    }

    /// The server removed a global: the first of this name leaves the list
    /// and is returned.
    pub fn global_removed(&mut self, name: u32) -> (r: Option<Global>)
        ensures
            r is None <==> forall|k: int|
                0 <= k < old(self).spec_globals().len() ==> (#[trigger] old(self).spec_globals()[k]).name
                    != name,
            r is None ==> final(self).spec_globals() == old(self).spec_globals(),
            r matches Some(g) ==> exists|k: int|
                0 <= k < old(self).spec_globals().len() && g == old(self).spec_globals()[k] && g.name == name
                    && (forall|j: int|
                    0 <= j < k ==> (#[trigger] old(self).spec_globals()[j]).name != name)
                    && final(self).spec_globals() == old(self).spec_globals().remove(k),
    {
        let r = self.data.remove(name);
        proof {
            assert(old(self).spec_globals() == old(self).data.globals());
            assert(self.spec_globals() == self.data.globals());
        }
        r
    }

    /// Get a copy of the contents of the list of globals.
    pub fn clone_list(&self) -> (r: Vec<Global>)
        ensures
            r@ == self.spec_globals(),
    {
        let contents = &self.data().contents;
        let mut r: Vec<Global> = Vec::new();
        let n = contents.len();
        let mut i: usize = 0;
        while i < n
            invariant
                0 <= i <= n,
                n == contents@.len(),
                contents@ == self.spec_globals(),
                r@ == contents@.take(i as int),
            decreases n - i,
        {
            r.push(contents[i].clone());
            i += 1;
            assert(r@ =~= contents@.take(i as int));
        }
        assert(contents@.take(n as int) =~= contents@);
        r
    }

    /// Returns the list of advertised globals.
    pub fn globals(&self) -> (r: Vec<Global>)
        ensures
            r@ == self.spec_globals(),
    {
        self.clone_list()
    }

    fn bind_inner(
        &self,
        global: &Global,
        version: &core::ops::RangeInclusive<u32>,
        interface: &'static Interface,
    ) -> (r: Result<(u32, u32), BindError>)
        ensures
            r == bind_outcome(*global, version@.start, version@.end, interface.name),
    {
        // Test version requirements
        if *version.start() > global.version {
            return Err(
                BindError::UnsupportedVersion {
                    interface: interface.name,
                    requested: *version.start(),
                    available: global.version,
                },
            );
        }
        // To get the version to bind, take the lower of the version advertised by the server and the maximum
        // requested version.
        let end = *version.end();
        let negotiated_version = if global.version < end {
            global.version
        } else {
            end
        };
        Ok((global.name, negotiated_version))
    }

    /// Chooses the global to bind for an interface of which one instance is
    /// expected: the first one advertised. Returns its name and the version to
    /// bind: the lower of the maximum requested version and the advertised
    /// one.
    ///
    /// If the lower bound of `version` is greater than the version advertised
    /// by the server, [`BindError::UnsupportedVersion`] is returned.
    ///
    /// The maximum requested version may not exceed the highest version of
    /// the interface known (a programming error).
    pub fn bind_singleton(
        &self,
        version: core::ops::RangeInclusive<u32>,
        interface: &'static Interface,
    ) -> (r: Result<(u32, u32), BindError>)
        requires
            version@.end <= interface.version,
        ensures
            first_of_interface(self.spec_globals(), interface.name@) is None ==> r == Err::<
                (u32, u32),
                BindError,
            >(BindError::NotPresent(interface.name)),
            first_of_interface(self.spec_globals(), interface.name@) matches Some(k) ==> r
                == bind_outcome(self.spec_globals()[k], version@.start, version@.end, interface.name),
    {
        let wanted = interface.name.to_owned();
        let contents = &self.data().contents;
        let n = contents.len();
        let mut i: usize = 0;
        while i < n
            invariant
                0 <= i <= n,
                n == contents@.len(),
                contents@ == self.spec_globals(),
                wanted@ == interface.name@,
                forall|j: int| 0 <= j < i ==> (#[trigger] contents@[j]).interface@ != interface.name@,
            decreases n - i,
        {
            if contents[i].interface == wanted {
                proof {
                    let k = i as int;
                    assert(contents@[k].interface@ == interface.name@);
                    let c = first_of_interface(self.spec_globals(), interface.name@).unwrap();
                    if c < k {
                        assert(contents@[c].interface@ != interface.name@);
                    }
                    if c > k {
                        assert(self.spec_globals()[k].interface@ == interface.name@);
                    }
                }
                return self.bind_inner(&contents[i], &version, interface);
            }
            i += 1;
        }
        Err(BindError::NotPresent(interface.name))
    }

    /// Chooses the bind of every global of the given interface, in the order
    /// they were advertised: their names and versions, or the first error.
    pub fn bind_all(
        &self,
        version: core::ops::RangeInclusive<u32>,
        interface: &'static Interface,
    ) -> (r: Result<Vec<(u32, u32)>, BindError>)
        requires
            version@.end <= interface.version,
        ensures
            ({
                let matching = self.spec_globals().filter(
                    |g: Global| g.interface@ == interface.name@,
                );
                &&& r matches Ok(v) ==> v@.len() == matching.len() && forall|k: int|
                    0 <= k < matching.len() ==> Ok::<(u32, u32), BindError>(#[trigger] v@[k])
                        == bind_outcome(matching[k], version@.start, version@.end, interface.name)
                &&& r matches Err(e) ==> exists|k: int|
                    0 <= k < matching.len() && bind_outcome(
                        matching[k],
                        version@.start,
                        version@.end,
                        interface.name,
                    ) == Err::<(u32, u32), BindError>(e) && forall|j: int|
                        0 <= j < k ==> (#[trigger] bind_outcome(
                            matching[j],
                            version@.start,
                            version@.end,
                            interface.name,
                        )) is Ok
                &&& r is Ok <==> forall|k: int|
                    0 <= k < matching.len() ==> (#[trigger] bind_outcome(
                        matching[k],
                        version@.start,
                        version@.end,
                        interface.name,
                    )) is Ok
            }),
    {
        let wanted = interface.name.to_owned();
        let contents = &self.data().contents;
        let ghost pred = |g: Global| g.interface@ == interface.name@;
        let n = contents.len();
        let mut out: Vec<(u32, u32)> = Vec::new();
        let mut i: usize = 0;
        while i < n
            invariant
                0 <= i <= n,
                n == contents@.len(),
                contents@ == self.spec_globals(),
                wanted@ == interface.name@,
                pred == (|g: Global| g.interface@ == interface.name@),
                out@.len() == contents@.take(i as int).filter(pred).len(),
                forall|k: int|
                    0 <= k < out@.len() ==> Ok::<(u32, u32), BindError>(#[trigger] out@[k])
                        == bind_outcome(
                        contents@.take(i as int).filter(pred)[k],
                        version@.start,
                        version@.end,
                        interface.name,
                    ),
            decreases n - i,
        {
            let ghost prev = contents@.take(i as int).filter(pred);
            assert(contents@.take(i as int + 1).drop_last() =~= contents@.take(i as int));
            assert(contents@.take(i as int + 1).last() == contents@[i as int]);
            reveal_with_fuel(Seq::filter, 1);
            if contents[i].interface == wanted {
                assert(contents@.take(i as int + 1).filter(pred) == prev.push(contents@[i as int]));
                match self.bind_inner(&contents[i], &version, interface) {
                    Ok(b) => {
                        out.push(b);
                    },
                    Err(e) => {
                        proof {
                            lemma_filter_prefix(contents@, pred, i as int + 1);
                            let m = self.spec_globals().filter(pred);
                            let k = prev.len() as int;
                            let b = contents@.take(i as int + 1).filter(pred);
                            assert(b.len() == k + 1);
                            assert(m.take(b.len() as int) == b);
                            assert(m.take(b.len() as int)[k] == m[k]);
                            assert(m[k] == contents@[i as int]);
                            assert forall|j: int| 0 <= j < k implies (#[trigger] bind_outcome(
                                m[j],
                                version@.start,
                                version@.end,
                                interface.name,
                            )) is Ok by {
                                assert(m.take(b.len() as int)[j] == m[j]);
                                assert(b[j] == prev[j]);
                                assert(m[j] == prev[j]);
                                assert(Ok::<(u32, u32), BindError>(out@[j]) == bind_outcome(
                                    prev[j],
                                    version@.start,
                                    version@.end,
                                    interface.name,
                                ));
                            }
                        }
                        return Err(e);
                    },
                }
            } else {
                assert(contents@.take(i as int + 1).filter(pred) == prev);
            }
            i += 1;
        }
        assert(contents@.take(n as int) =~= contents@);
        proof {
            let matching = self.spec_globals().filter(|g: Global| g.interface@ == interface.name@);
            assert(matching == contents@.take(n as int).filter(pred));
            assert forall|k: int| 0 <= k < matching.len() implies (#[trigger] bind_outcome(
                matching[k],
                version@.start,
                version@.end,
                interface.name,
            )) is Ok by {
                assert(Ok::<(u32, u32), BindError>(out@[k]) == bind_outcome(
                    matching[k],
                    version@.start,
                    version@.end,
                    interface.name,
                ));
            }
        }
        Ok(out)
    }

    /// Chooses the bind of the global of the given name and interface, the
    /// last advertised if several.
    pub fn bind_specific(
        &self,
        name: u32,
        version: core::ops::RangeInclusive<u32>,
        interface: &'static Interface,
    ) -> (r: Result<(u32, u32), BindError>)
        requires
            version@.end <= interface.version,
        ensures
            (forall|k: int|
                0 <= k < self.spec_globals().len() ==> !((#[trigger] self.spec_globals()[k]).name == name
                    && self.spec_globals()[k].interface@ == interface.name@)) ==> r == Err::<
                (u32, u32),
                BindError,
            >(BindError::NotPresent(interface.name)),
            (exists|k: int|
                0 <= k < self.spec_globals().len() && (#[trigger] self.spec_globals()[k]).name == name
                    && self.spec_globals()[k].interface@ == interface.name@) ==> exists|k: int|
                0 <= k < self.spec_globals().len() && (#[trigger] self.spec_globals()[k]).name == name
                    && self.spec_globals()[k].interface@ == interface.name@ && (forall|j: int|
                    k < j < self.spec_globals().len() ==> !((#[trigger] self.spec_globals()[j]).name
                        == name && self.spec_globals()[j].interface@ == interface.name@))
                    && r == bind_outcome(
                    self.spec_globals()[k],
                    version@.start,
                    version@.end,
                    interface.name,
                ),
    {
        let wanted = interface.name.to_owned();
        let contents = &self.data().contents;
        let mut i: usize = contents.len();
        while i > 0
            invariant
                0 <= i <= contents@.len(),
                contents@ == self.spec_globals(),
                wanted@ == interface.name@,
                forall|j: int|
                    i <= j < contents@.len() ==> !((#[trigger] contents@[j]).name == name
                        && contents@[j].interface@ == interface.name@),
            decreases i,
        {
            i -= 1;
            if contents[i].name == name && contents[i].interface == wanted {
                let r = self.bind_inner(&contents[i], &version, interface);
                assert(self.spec_globals()[i as int] == contents@[i as int]);
                return r;
            }
        }
        Err(BindError::NotPresent(interface.name))
    }
}

proof fn lemma_filter_prefix(s: Seq<Global>, pred: spec_fn(Global) -> bool, i: int)
    requires
        0 <= i <= s.len(),
    ensures
        s.filter(pred).take(s.take(i).filter(pred).len() as int) == s.take(i).filter(pred),
        s.take(i).filter(pred).len() <= s.filter(pred).len(),
    decreases s.len() - i,
{
    reveal_with_fuel(Seq::filter, 1);
    if i < s.len() {
        lemma_filter_prefix(s, pred, i + 1);
        assert(s.take(i + 1).drop_last() =~= s.take(i));
        let a = s.take(i).filter(pred);
        let b = s.take(i + 1).filter(pred);
        if pred(s[i]) {
            assert(b == a.push(s[i]));
            assert(b.take(a.len() as int) =~= a);
        } else {
            assert(b == a);
        }
        assert(s.filter(pred).take(a.len() as int) =~= b.take(a.len() as int));
    } else {
        assert(s.take(i) =~= s);
        assert(s.filter(pred).take(s.filter(pred).len() as int) =~= s.filter(pred));
    }
}

/// Binding a global succeeds exactly when the global's advertised version
/// reaches the lowest version asked for; it then binds that global's name at
/// the lower of its advertised version and the highest version asked for.
/// Otherwise the error names the interface, the lowest version asked for and
/// the version advertised.
pub proof fn law_bind_negotiates(global: Global, start: u32, end: u32, interface: &'static str)
    ensures
        bind_outcome(global, start, end, interface) is Ok <==> start <= global.version,
        bind_outcome(global, start, end, interface) matches Ok((name, v)) ==> {
            &&& name == global.name
            &&& v <= global.version
            &&& v <= end
            &&& (v == global.version || v == end)
        },
        start > global.version ==> bind_outcome(global, start, end, interface) == Err::<
            (u32, u32),
            BindError,
        >(BindError::UnsupportedVersion { interface, requested: start, available: global.version }),
{
}

} // verus!
