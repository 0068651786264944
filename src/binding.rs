//! Uniform data mirrored on the GPU, with a dirty flag: a change marks it,
//! and an update hands the data over for upload only when it is marked.
use vstd::prelude::*;

verus! {

/// Data with a flag that says whether its GPU copy is stale.
pub struct Binding<T> {
    data: T,
    dirty: bool,
}

impl<T> Binding<T> {
    /// The data.
    pub closed spec fn value(&self) -> T {
        self.data
    }

    /// Whether the GPU copy may differ from the data.
    pub closed spec fn is_dirty(&self) -> bool {
        self.dirty
    }

    /// A binding of `data`, whose GPU copy is made along with it.
    pub fn new(data: T) -> (r: Self)
        ensures
            r.value() == data,
            !r.is_dirty(),
    {
        Binding { data, dirty: false }
    }

    /// The data, to read.
    pub fn data(&self) -> (r: &T)
        ensures
            *r == self.value(),
    {
        &self.data
    }

    /// The data, to change; the binding is marked.
    pub fn data_mut(&mut self) -> (r: &mut T)
        ensures
            *r == old(self).value(),
            final(self).value() == *final(r),
            final(self).is_dirty(),
    {
        self.dirty = true;
        &mut self.data
    }

    /// Whether an upload is pending.
    pub fn dirty(&self) -> (r: bool)
        ensures
            r == self.is_dirty(),
    {
        self.dirty
    }

    /// The data to upload, when the binding is marked; the mark is cleared.
    /// After it the GPU copy, once written with what came back, matches the data.
    pub fn update(&mut self) -> (r: Option<&T>)
        ensures
            !final(self).is_dirty(),
            final(self).value() == old(self).value(),
            old(self).is_dirty() ==> r == Some(&old(self).value()),
            !old(self).is_dirty() ==> r is None,
    {
        if self.dirty {
            self.dirty = false;
            Some(&self.data)
        } else {
            None
        }
    }
}

} // verus!
