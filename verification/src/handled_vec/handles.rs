//! Generational handles.
//!
//! A handle names a slot of a handle container by its index and by the
//! generation the slot had when the handle was given out. Handles are plain
//! copyable values: they never own what they refer to.

use std::marker::PhantomData;
use vstd::prelude::*;

verus! {

/// What a handle container needs from a handle type.
pub trait Handle: Sized {
    /// The slot the handle points at.
    spec fn spec_index(&self) -> usize;

    /// The generation of the slot the handle was issued for.
    spec fn spec_generation(&self) -> usize;

    fn new(index: usize, generation: usize) -> (handle: Self)
        ensures
            handle.spec_index() == index,
            handle.spec_generation() == generation,
    ;

    fn get_index(&self) -> (index: usize)
        ensures
            index == self.spec_index(),
    ;

    fn get_generation(&self) -> (generation: usize)
        ensures
            generation == self.spec_generation(),
    ;

    fn get(&self) -> (parts: (usize, usize))
        ensures
            parts == (self.spec_index(), self.spec_generation()),
    ;
}

/// A handle that carries, in its type only, the kind of entity it refers to.
#[derive(Debug)]
pub struct MarkedHandle<T> {
    pub index: usize,
    pub generation: usize,
    pub _marker: PhantomData<T>,
}

impl<T> Clone for MarkedHandle<T> {
    fn clone(&self) -> (copy: Self)
        ensures
            copy == *self,
    {
        MarkedHandle { index: self.index, generation: self.generation, _marker: PhantomData }
    }
}

impl<T> Copy for MarkedHandle<T> {

}

impl<T> Handle for MarkedHandle<T> {
    open spec fn spec_index(&self) -> usize {
        self.index
    }

    open spec fn spec_generation(&self) -> usize {
        self.generation
    }

    fn new(index: usize, generation: usize) -> (handle: Self)
        ensures
            handle == (MarkedHandle::<T> { index, generation, _marker: PhantomData }),
    {
        MarkedHandle { index, generation, _marker: PhantomData }
    }

    fn get_index(&self) -> (index: usize) {
        self.index
    }

    fn get_generation(&self) -> (generation: usize) {
        self.generation
    }

    fn get(&self) -> (parts: (usize, usize)) {
        (self.index, self.generation)
    }
}

impl<T> PartialEq for MarkedHandle<T> {
    fn eq(&self, other: &Self) -> (equal: bool) {
        self.index == other.index && self.generation == other.generation
    }
}

impl<T> Eq for MarkedHandle<T> {

}

impl<T> vstd::std_specs::cmp::PartialEqSpecImpl for MarkedHandle<T> {
    open spec fn obeys_eq_spec() -> bool {
        true
    }

    open spec fn eq_spec(&self, other: &Self) -> bool {
        self.index == other.index && self.generation == other.generation
    }
}

impl<T> MarkedHandle<T> {
    /// Two handles of one kind are the same value exactly when index and
    /// generation agree.
    pub proof fn lemma_equal_parts(a: Self, b: Self)
        ensures
            (a == b) <==> (a.index == b.index && a.generation == b.generation),
    {
    }
}

} // verus!
