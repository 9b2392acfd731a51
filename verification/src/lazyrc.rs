//! A value that is shared, owned or borrowed, and cloned only when needed.
use vstd::prelude::*;
use std::borrow::Borrow;
use std::rc::Rc;

verus! {

#[derive(Debug)]
pub enum LazyRc<'a, T> {
    Rc(Rc<T>),
    Owned(T),
    Borrowed(&'a T),
}

impl<'a, T> LazyRc<'a, T> {
    /// The value held, however it is held.
    pub open spec fn value(&self) -> T {
        match self {
            LazyRc::Rc(x) => **x,
            LazyRc::Owned(x) => *x,
            LazyRc::Borrowed(x) => **x,
        }
    }
}

impl<'a, T: Clone> LazyRc<'a, T> {
    /// Takes the value out: an owned value as it is, a shared one without a copy when
    /// nothing else shares it, a borrowed one by cloning it.
    pub fn unwrap_or_clone(self) -> (r: T)
        ensures
            match self {
                LazyRc::Owned(x) => r == x,
                LazyRc::Rc(x) => r == *x || cloned::<T>(*x, r),
                LazyRc::Borrowed(x) => cloned::<T>(*x, r),
            },
    {
        match self {
            LazyRc::Rc(x) => match Rc::try_unwrap(x) {
                Ok(t) => t,
                Err(shared) => (*shared).clone(),
            },
            LazyRc::Owned(x) => x,
            LazyRc::Borrowed(x) => x.clone(),
        }
    }

    /// Keeps what is shared or owned, and clones what is borrowed.
    pub fn into_static_self(self) -> (r: LazyRc<'static, T>)
        ensures
            match self {
                LazyRc::Rc(x) => r == LazyRc::<'static, T>::Rc(x),
                LazyRc::Owned(x) => r == LazyRc::<'static, T>::Owned(x),
                LazyRc::Borrowed(x) => r matches LazyRc::Owned(y) && cloned::<T>(*x, y),
            },
    {
        match self {
            LazyRc::Rc(x) => LazyRc::Rc(x),
            LazyRc::Owned(x) => LazyRc::Owned(x),
            LazyRc::Borrowed(x) => LazyRc::Owned(x.clone()),
        }
    }

    /// Shares what is shared, and clones what is owned or borrowed.
    pub fn clone_to_static_self(&self) -> (r: LazyRc<'static, T>)
        ensures
            match *self {
                LazyRc::Rc(x) => r == LazyRc::<'static, T>::Rc(x),
                LazyRc::Owned(x) => r matches LazyRc::Owned(y) && cloned::<T>(x, y),
                LazyRc::Borrowed(x) => r matches LazyRc::Owned(y) && cloned::<T>(*x, y),
            },
    {
        match self {
            LazyRc::Rc(x) => LazyRc::Rc(Rc::clone(x)),
            LazyRc::Owned(x) => LazyRc::Owned(x.clone()),
            LazyRc::Borrowed(x) => LazyRc::Owned((*x).clone()),
        }
    }

    /// A shared pointer to the value: the same one where it is shared already, else a new one
    /// to a clone.
    pub fn clone_to_rc(&self) -> (r: Rc<T>)
        ensures
            match *self {
                LazyRc::Rc(x) => r == x,
                LazyRc::Owned(x) => cloned::<T>(x, *r),
                LazyRc::Borrowed(x) => cloned::<T>(*x, *r),
            },
    {
        match self {
            LazyRc::Rc(x) => Rc::clone(x),
            LazyRc::Owned(x) => Rc::new(x.clone()),
            LazyRc::Borrowed(x) => Rc::new((*x).clone()),
        }
    }
}

impl<'a, T> Borrow<T> for LazyRc<'a, T> {
    fn borrow(&self) -> &T {
        match self {
            LazyRc::Rc(x) => &**x,
            LazyRc::Owned(x) => x,
            LazyRc::Borrowed(x) => x,
        }
    }
}

impl<'a, T> std::ops::Deref for LazyRc<'a, T> {
    type Target = T;

    fn deref(&self) -> (r: &T)
        ensures
            *r == self.value(),
    {
        match self {
            LazyRc::Rc(x) => &**x,
            LazyRc::Owned(x) => x,
            LazyRc::Borrowed(x) => x,
        }
    }
}

impl<'a, T> AsRef<T> for LazyRc<'a, T> {
    fn as_ref(&self) -> (r: &T)
        ensures
            *r == self.value(),
    {
        match self {
            LazyRc::Rc(x) => &**x,
            LazyRc::Owned(x) => x,
            LazyRc::Borrowed(x) => x,
        }
    }
}

} // verus!
