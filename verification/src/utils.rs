//! A small latch: remembers the value handed to its `N`-th `set` call and
//! ignores everything after.

use vstd::prelude::*;

verus! {

/// Stores the value passed to the `N`-th call of `set`; earlier calls are
/// counted and later calls are ignored.
#[derive(Clone, Debug)]
pub struct StoreOnNthCall<const N: usize, T> {
    set_count: usize,
    value: Option<T>,
}

impl<const N: usize, T> StoreOnNthCall<N, T> {
    /// How many `set` calls have been counted so far.
    pub closed spec fn spec_count(self) -> int {
        self.set_count as int
    }

    /// The stored value, if the `N`-th call has happened.
    pub closed spec fn spec_value(self) -> Option<T> {
        self.value
    }

    /// Count this call, and on the `N`-th one store its value; once a
    /// value is stored, further calls change nothing.
    pub fn set(&mut self, value: T)
        requires
            old(self).spec_value() is Some || old(self).spec_count() < usize::MAX,
        ensures
            old(self).spec_value() is Some ==> *final(self) == *old(self),
            old(self).spec_value() is None ==> final(self).spec_count() == old(self).spec_count()
                + 1,
            old(self).spec_value() is None && old(self).spec_count() + 1 == N
                ==> final(self).spec_value() == Some(value),
            old(self).spec_value() is None && old(self).spec_count() + 1 != N
                ==> final(self).spec_value() is None,
    {
        if self.value.is_some() {
            return ;
        }
        self.set_count = self.set_count + 1;
        if self.set_count == N {
            self.value = Some(value);
        }
    }

    /// The stored value, once the `N`-th call has happened.
    pub fn get(&self) -> (r: Option<&T>)
        ensures
            r is Some <==> self.spec_value() is Some,
            r matches Some(v) ==> self.spec_value() == Some(*v),
    {
        self.value.as_ref()
    }
}

impl<const N: usize, T> Default for StoreOnNthCall<N, T> {
    /// No calls counted, nothing stored.
    fn default() -> (r: Self)
        ensures
            r.spec_count() == 0,
            r.spec_value() is None,
    {
        StoreOnNthCall { set_count: 0, value: None }
    }
}

} // verus!
