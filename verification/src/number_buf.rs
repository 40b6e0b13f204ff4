//! A list of train numbers with a fixed capacity.
use vstd::prelude::*;

verus! {

/// Up to `N` train numbers, in the order in which they were pushed.
pub struct NumberBuf<const N: usize> {
    items: Vec<u32>,
}

/// The first `n` elements of `s`, or all of it when it is shorter.
pub open spec fn at_most(s: Seq<u32>, n: nat) -> Seq<u32> {
    if s.len() <= n {
        s
    } else {
        s.take(n as int)
    }
}

impl<const N: usize> View for NumberBuf<N> {
    type V = Seq<u32>;

    closed spec fn view(&self) -> Seq<u32> {
        self.items@
    }
}

impl<const N: usize> NumberBuf<N> {
    /// The list never outgrows its capacity.
    pub open spec fn wf(&self) -> bool {
        self@.len() <= N
    }

    pub fn new() -> (r: Self)
        ensures
            r.wf(),
            r@ == Seq::<u32>::empty(),
    {
        NumberBuf { items: Vec::new() }
    }

    pub fn len(&self) -> (r: usize)
        ensures
            r == self@.len(),
    {
        self.items.len()
    }

    pub fn is_empty(&self) -> (r: bool)
        ensures
            r == (self@.len() == 0),
    {
        self.items.len() == 0
    }

    pub fn capacity(&self) -> (r: usize)
        ensures
            r == N,
    {
        N
    }

    pub fn as_slice(&self) -> (r: &[u32])
        ensures
            r@ == self@,
    {
        self.items.as_slice()
    }

    pub fn clear(&mut self)
        ensures
            final(self).wf(),
            final(self)@ == Seq::<u32>::empty(),
    {
        self.items.clear();
    }

    /// Append `number`, or hand it back when the list is full.
    pub fn push(&mut self, number: u32) -> (r: Result<(), u32>)
        ensures
            old(self)@.len() < N ==> r is Ok && final(self)@ == old(self)@.push(number),
            old(self)@.len() >= N ==> r == Err::<(), u32>(number) && final(self)@ == old(self)@,
    {
        if self.items.len() < N {
            self.items.push(number);
            Ok(())
        } else {
            Err(number)
        }
    }
}

/// A list that is cut to `n` keeps its first elements, as many as there are up to
/// `n`.
pub proof fn law_cut_keeps_the_first(s: Seq<u32>, n: nat)
    ensures
        at_most(s, n).len() == if s.len() < n {
            s.len()
        } else {
            n
        },
        forall|i: int| 0 <= i < at_most(s, n).len() ==> #[trigger] at_most(s, n)[i] == s[i],
{
}

} // verus!
