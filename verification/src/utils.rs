//! A list that only grows, and an iterator over it.

use vstd::prelude::*;

verus! {

/// A list to which values are only ever appended.
///
/// Values keep the order in which they were appended, and a value, once in
/// the list, is never moved or removed.
#[derive(Debug)]
pub struct AppendList<T> {
    items: Vec<T>,
}

impl<T> View for AppendList<T> {
    type V = Seq<T>;

    closed spec fn view(&self) -> Seq<T> {
        self.items@
    }
}

impl<T> AppendList<T> {
    /// An empty list.
    pub fn new() -> (r: AppendList<T>)
        ensures
            r@ == Seq::<T>::empty(),
    {
        AppendList { items: Vec::new() }
    }

    /// Adds a value at the end of the list.
    pub fn append(&mut self, value: T)
        ensures
            final(self)@ == old(self)@.push(value),
    {
        self.items.push(value);
    }

    /// Adds all the values of `other` at the end of the list, in their order.
    pub fn append_list(&mut self, other: AppendList<T>)
        ensures
            final(self)@ == old(self)@ + other@,
    {
        let mut rest = other.items;
        let ghost moved = other@;
        let n = rest.len();
        let mut i: usize = 0;
        while i < n
            invariant
                0 <= i <= n,
                n == moved.len(),
                rest@ == moved.skip(i as int),
                self.items@ == old(self).items@ + moved.take(i as int),
            decreases n - i,
        {
            let v = rest.remove(0);
            assert(v == moved[i as int]);
            self.items.push(v);
            i += 1;
            assert(rest@ =~= moved.skip(i as int));
            assert(moved.take(i as int) =~= moved.take(i as int - 1).push(v));
            assert(self.items@ =~= old(self).items@ + moved.take(i as int));
        }
        assert(moved.take(n as int) =~= moved);
    }

    /// An iterator over the values, from the first appended to the last.
    pub fn iter(&self) -> (r: AppendListIterator<'_, T>)
        ensures
            r.remaining() == self@,
    {
        assert(self.items@.skip(0) =~= self.items@);
        AppendListIterator { list: &self.items, pos: 0 }
    }
}

/// An iterator over the values of an [`AppendList`].
#[derive(Debug)]
pub struct AppendListIterator<'a, T> {
    list: &'a Vec<T>,
    pos: usize,
}

impl<'a, T> AppendListIterator<'a, T> {
    #[verifier::type_invariant]
    closed spec fn within(&self) -> bool {
        self.pos <= self.list@.len()
    }

    /// The values the iterator has still to give, in order.
    pub closed spec fn remaining(&self) -> Seq<T> {
        self.list@.skip(self.pos as int)
    }

    /// The next value, or `None` once all were given.
    pub fn next(&mut self) -> (r: Option<&'a T>)
        ensures
            old(self).remaining().len() == 0 ==> r is None && final(self).remaining() == old(
                self,
            ).remaining(),
            old(self).remaining().len() > 0 ==> r == Some(&old(self).remaining()[0])
                && final(self).remaining() == old(self).remaining().drop_first(),
    {
        proof {
            use_type_invariant(&*self);
        }
        let list = self.list;
        if self.pos < list.len() {
            let p = self.pos;
            self.pos = p + 1;
            assert(list@.skip(p as int + 1) =~= list@.skip(p as int).drop_first());
            Some(&list[p])
        } else {
            None
        }
    }
}

} // verus!
