//! A cell for data that only one flow of control may hold at a time.

use vstd::prelude::*;

verus! {

/// A cell that hands its content out to one holder at a time. Whoever takes
/// the content has to give it back before it can be taken again; taking it
/// while it is out is an error of the caller.
pub struct UPSafeCell<T> {
    inner: Option<T>,
}

impl<T> UPSafeCell<T> {
    /// Whether the content is out.
    pub closed spec fn is_held(&self) -> bool {
        self.inner.is_none()
    }

    /// The content, while it is in the cell.
    pub closed spec fn content(&self) -> T {
        self.inner.unwrap()
    }

    /// A cell that holds `value`.
    pub fn new(value: T) -> (cell: Self)
        ensures
            !cell.is_held(),
            cell.content() == value,
    {
        UPSafeCell { inner: Some(value) }
    }

    /// Whether the content is out.
    pub fn held(&self) -> (r: bool)
        ensures
            r == self.is_held(),
    {
        self.inner.is_none()
    }

    /// Takes the content out of the cell. The content must be in the cell.
    pub fn exclusive_access(&mut self) -> (value: T)
        requires
            !old(self).is_held(),
        ensures
            value == old(self).content(),
            final(self).is_held(),
    {
        match self.inner.take() {
            Some(value) => value,
            None => vstd::pervasive::unreached(),
        }
    }

    /// Takes the content out of the cell if it is in the cell.
    pub fn try_exclusive_access(&mut self) -> (r: Option<T>)
        ensures
            final(self).is_held(),
            match r {
                Some(value) => !old(self).is_held() && value == old(self).content(),
                None => old(self).is_held(),
            },
    {
        self.inner.take()
    }

    /// Gives the content back to the cell.
    pub fn release(&mut self, value: T)
        ensures
            !final(self).is_held(),
            final(self).content() == value,
    {
        self.inner = Some(value);
    }
}

} // verus!
