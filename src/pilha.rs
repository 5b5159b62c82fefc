//! A stack (`Pilha`): the backtracking search of the pentomino solver keeps
//! its states on one.
use vstd::prelude::*;

verus! {

pub struct Pilha<T> {
    items: Vec<T>,
}

impl<T> View for Pilha<T> {
    type V = Seq<T>;

    /// The stacked items, bottom first.
    closed spec fn view(&self) -> Seq<T> {
        self.items@
    }
}

impl<T> Pilha<T> {
    /// An empty stack.
    pub fn new() -> (r: Pilha<T>)
        ensures
            r@ == Seq::<T>::empty(),
    {
        Pilha { items: Vec::new() }
    }

    /// Puts `x` on top.
    pub fn push(&mut self, x: T)
        ensures
            final(self)@ == old(self)@.push(x),
    {
        self.items.push(x);
    }

    /// Removes the top item; the stack must not be empty.
    pub fn pop(&mut self)
        requires
            old(self)@.len() > 0,
        ensures
            final(self)@ == old(self)@.drop_last(),
    {
        self.items.pop();
    }

    /// A mutable handle to the top item; the stack must not be empty.
    pub fn back(&mut self) -> (r: &mut T)
        requires
            old(self)@.len() > 0,
        ensures
            *r == old(self)@.last(),
            final(self)@ == old(self)@.update(old(self)@.len() - 1, *final(r)),
    {
        let last = self.items.len() - 1;
        &mut self.items[last]
    }

    /// Number of stacked items.
    pub fn size(&self) -> (r: usize)
        ensures
            r == self@.len(),
    {
        self.items.len()
    }

    /// Whether the stack holds no item.
    pub fn empty(&self) -> (r: bool)
        ensures
            r == (self@.len() == 0),
    {
        self.items.len() == 0
    }

    /// The stacked items, bottom first.
    pub fn iter(&self) -> (r: &[T])
        ensures
            r@ == self@,
    {
        self.items.as_slice()
    }
}

} // verus!
