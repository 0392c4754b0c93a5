use vstd::prelude::*;

verus! {

/// A last-in, first-out stack of 32-bit unsigned integers.
pub struct Stack {
    values: Vec<u32>,
}

impl View for Stack {
    type V = Seq<u32>;

    /// The values on the stack, bottom first.
    closed spec fn view(&self) -> Seq<u32> {
        self.values@
    }
}

impl Stack {
    /// An empty stack.
    pub fn new() -> (s: Stack)
        ensures
            s@ == Seq::<u32>::empty(),
    {
        Stack { values: Vec::new() }
    }

    /// Puts `value` on top of the stack.
    pub fn push_int(&mut self, value: u32)
        ensures
            final(self)@ == old(self)@.push(value),
    {
        self.values.push(value);
    }

    /// Takes the top value off the stack, or `None` when it is empty.
    pub fn pop1_int(&mut self) -> (r: Option<u32>)
        ensures
            old(self)@.len() == 0 ==> r is None && final(self)@ == old(self)@,
            old(self)@.len() > 0 ==> r == Some(old(self)@.last()) && final(self)@
                == old(self)@.drop_last(),
    {
        self.values.pop()
    }
}

/// Pushing a value and popping it again gives that value back and leaves the
/// stack as it was; in particular a stack that was empty is empty again.
pub proof fn lemma_push_then_pop(values: Seq<u32>, v: u32)
    ensures
        values.push(v).len() > 0,
        values.push(v).last() == v,
        values.push(v).drop_last() == values,
{
    assert(values.push(v).drop_last() =~= values);
}

} // verus!
