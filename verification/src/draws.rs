use vstd::prelude::*;

verus! {

/// A supply of scalars drawn in advance, handed out in the order in which
/// they were drawn. It stands in for a random source, so that whoever builds
/// a network decides where its first weights come from.
#[derive(Debug)]
pub struct Draws {
    /// What is left, the next scalar last.
    rest: Vec<u32>,
}

impl View for Draws {
    type V = Seq<u32>;

    /// What is left, the next scalar first.
    closed spec fn view(&self) -> Seq<u32> {
        self.rest@.reverse()
    }
}

impl Draws {
    /// A supply that hands out `values` from the first to the last.
    pub fn new(values: Vec<u32>) -> (d: Draws)
        ensures
            d@ == values@,
    {
        let mut rest: Vec<u32> = Vec::new();
        let mut k: usize = values.len();
        while k > 0
            invariant
                k <= values@.len(),
                rest@.len() == values@.len() - k,
                forall|i: int| 0 <= i < rest@.len() ==> rest@[i] == values@[values@.len() - 1 - i],
            decreases k,
        {
            k -= 1;
            rest.push(values[k]);
        }
        assert(rest@.reverse() =~= values@);
        Draws { rest }
    }

    /// How many scalars are left.
    pub fn remaining(&self) -> (n: usize)
        ensures
            n == self@.len(),
    {
        self.rest.len()
    }

    /// Hands out the next scalar, if one is left.
    pub fn take(&mut self) -> (r: Option<u32>)
        ensures
            match r {
                Some(v) => old(self)@.len() > 0 && v == old(self)@[0] && final(self)@ == old(
                    self,
                )@.skip(1),
                None => old(self)@.len() == 0 && final(self)@ == old(self)@,
            },
    {
        let r = self.rest.pop();
        proof {
            if old(self).rest@.len() > 0 {
                assert(self.rest@.reverse() =~= old(self).rest@.reverse().skip(1));
            }
        }
        r
    }

    /// Hands out the next scalar.
    pub(crate) fn draw(&mut self) -> (v: u32)
        requires
            old(self)@.len() > 0,
        ensures
            v == old(self)@[0],
            final(self)@ == old(self)@.skip(1),
    {
        self.take().unwrap()
    }
}

} // verus!
