//! A value at hand or still to be fetched.

use vstd::prelude::*;

verus! {

/// A value that is at hand, or the offset of the page to fetch it from.
#[derive(Debug, Clone)]
pub enum Fetchable<T> {
    Fetched(T),
    Unfetched(usize),
}

impl<T> Fetchable<T> {
    /// Applies `f` to a value at hand; an offset stays as it is.
    pub fn map<U, F>(self, f: F) -> (r: Fetchable<U>) where F: FnOnce(T) -> U
        requires
            self matches Fetchable::Fetched(x) ==> f.requires((x,)),
        ensures
            match self {
                Fetchable::Fetched(x) => r matches Fetchable::Fetched(y) && f.ensures((x,), y),
                Fetchable::Unfetched(p) => r == Fetchable::<U>::Unfetched(p),
            },
    {
        match self {
            Fetchable::Fetched(x) => Fetchable::Fetched(f(x)),
            Fetchable::Unfetched(x) => Fetchable::Unfetched(x),
        }
    }

    /// The value at hand.
    pub fn unwrap(self) -> (r: T)
        requires
            self is Fetched,
        ensures
            self == Fetchable::Fetched(r),
    {
        match self {
            Fetchable::Fetched(x) => x,
            Fetchable::Unfetched(_) => vstd::pervasive::unreached(),
        }
    }

    /// The value at hand, else `default`.
    pub fn unwrap_or(self, default: T) -> (r: T)
        ensures
            r == (match self {
                Fetchable::Fetched(x) => x,
                Fetchable::Unfetched(_) => default,
            }),
    {
        match self {
            Fetchable::Fetched(x) => x,
            Fetchable::Unfetched(_) => default,
        }
    }

    /// The offset of a value that is not at hand.
    pub fn unwrap_unfetched(&self) -> (r: &usize)
        requires
            self is Unfetched,
        ensures
            *self == Fetchable::<T>::Unfetched(*r),
    {
        match self {
            Fetchable::Unfetched(x) => x,
            Fetchable::Fetched(_) => vstd::pervasive::unreached(),
        }
    }

    /// What `f` makes of a value at hand, else `default`.
    pub fn unwrap_with_or<U, F>(self, f: F, default: U) -> (r: U) where F: FnOnce(T) -> U
        requires
            self matches Fetchable::Fetched(x) ==> f.requires((x,)),
        ensures
            match self {
                Fetchable::Fetched(x) => f.ensures((x,), r),
                Fetchable::Unfetched(_) => r == default,
            },
    {
        match self {
            Fetchable::Fetched(x) => f(x),
            Fetchable::Unfetched(_) => default,
        }
    }

    /// The same, holding a reference to the value at hand.
    pub fn as_ref(&self) -> (r: Fetchable<&T>)
        ensures
            match *self {
                Fetchable::Fetched(x) => r matches Fetchable::Fetched(y) && *y == x,
                Fetchable::Unfetched(p) => r == Fetchable::<&T>::Unfetched(p),
            },
    {
        match self {
            Fetchable::Fetched(x) => Fetchable::Fetched(x),
            Fetchable::Unfetched(p) => Fetchable::Unfetched(*p),
        }
    }

    /// Whether the value is at hand.
    pub fn is_fetched(&self) -> (r: bool)
        ensures
            r == (self is Fetched),
    {
        if let Fetchable::Fetched(_) = self {
            return true;
        }
        return false;
    }

    /// The same, holding a reference through which the value at hand can be
    /// changed.
    pub fn as_mut(&mut self) -> (r: Fetchable<&mut T>)
        ensures
            match *old(self) {
                Fetchable::Fetched(x) => r matches Fetchable::Fetched(y) && *y == x && *final(self)
                    == Fetchable::Fetched(*final(y)),
                Fetchable::Unfetched(p) => r == Fetchable::<&mut T>::Unfetched(p) && *final(self)
                    == *old(self),
            },
    {
        match self {
            Fetchable::Fetched(x) => Fetchable::Fetched(x),
            Fetchable::Unfetched(p) => Fetchable::Unfetched(*p),
        }
    }
}

} // verus!
