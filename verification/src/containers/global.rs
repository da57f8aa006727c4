use vstd::prelude::*;
use crate::containers::{DynEcsContainer, EcsContainer, EcsGlobalContainer};

verus! {

/// The container of a resource: exactly one value of its type.
pub struct GlobalContainer<T> {
    pub inner: T,
}

impl<T> GlobalContainer<T> {
    pub fn new(value: T) -> (r: Self)
        ensures
            r.inner == value,
    {
        Self { inner: value }
    }
}

impl<T> DynEcsContainer for GlobalContainer<T> {
    fn is_resource(&self) -> (r: bool)
        ensures
            r,
    {
        true
    }
}

impl<T> EcsContainer for GlobalContainer<T> {
    type Item = T;
}

impl<T> EcsGlobalContainer for GlobalContainer<T> {
    fn get(&self) -> (r: &T)
        ensures
            *r == self.inner,
    {
        &self.inner
    }

    fn get_mut(&mut self) -> (r: &mut T)
        ensures
            *r == old(self).inner,
            final(self).inner == *final(r),
    {
        &mut self.inner
    }
}

} // verus!
