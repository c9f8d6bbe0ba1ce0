//! The data stack of the interpreter: a sequence of `i16`, top last.
use vstd::prelude::*;

verus! {

/// The data stack; its view lists the items from bottom to top.
pub struct Stack {
    items: Vec<i16>,
}

impl View for Stack {
    type V = Seq<i16>;

    closed spec fn view(&self) -> Seq<i16> {
        self.items@
    }
}

impl Stack {
    /// An empty stack.
    pub fn new() -> (s: Stack)
        ensures
            s@ == Seq::<i16>::empty(),
    {
        Stack { items: Vec::new() }
    }

    /// The number of items on the stack.
    pub fn len(&self) -> (n: usize)
        ensures
            n == self@.len(),
    {
        self.items.len()
    }

    /// The item `depth` places below the top (`0` is the top).
    pub fn peek(&self, depth: usize) -> (v: i16)
        requires
            depth < self@.len(),
        ensures
            v == self@[self@.len() - 1 - depth],
    {
        self.items[self.items.len() - 1 - depth]
    }

    /// Puts an item on top.
    pub fn push(&mut self, v: i16)
        ensures
            final(self)@ == old(self)@.push(v),
    {
        self.items.push(v);
    }

    /// Takes the top item off.
    pub fn pop(&mut self) -> (v: i16)
        requires
            old(self)@.len() > 0,
        ensures
            v == old(self)@.last(),
            final(self)@ == old(self)@.drop_last(),
    {
        let v = self.items.pop();
        match v {
            Some(x) => x,
            None => 0,
        }
    }

    /// A copy of the items, bottom first.
    pub fn get_items(&self) -> (v: Vec<i16>)
        ensures
            v@ == self@,
    {
        self.items.clone()
    }
}

} // verus!
