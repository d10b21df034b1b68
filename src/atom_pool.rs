use crate::transfer_window_pool::{decimal, decimal_digits};
use vstd::prelude::*;

verus! {

/// Property atoms for reuse, last released first out. The pool only holds
/// atoms; interning a new one is the X connection's part, under the name
/// that `next_name` gives.
pub struct AtomPool {
    atom_prefix: Vec<u8>,
    atoms: Vec<u32>,
    counter: u8,
}

impl View for AtomPool {
    type V = Seq<u32>;

    closed spec fn view(&self) -> Seq<u32> {
        self.atoms@
    }
}

impl AtomPool {
    pub closed spec fn prefix(&self) -> Seq<u8> {
        self.atom_prefix@
    }

    /// The number of atoms named so far, modulo 256.
    pub closed spec fn named(&self) -> u8 {
        self.counter
    }

    /// An empty pool whose atoms are named `atom_prefix` and a number.
    pub fn new(atom_prefix: &[u8]) -> (r: AtomPool)
        ensures
            r@ == Seq::<u32>::empty(),
            r.prefix() == atom_prefix@,
            r.named() == 0,
    {
        let mut prefix: Vec<u8> = Vec::new();
        prefix.extend_from_slice(atom_prefix);
        AtomPool { atom_prefix: prefix, atoms: Vec::new(), counter: 0 }
    }

    /// Takes the atom released last, if any.
    pub fn get(&mut self) -> (r: Option<u32>)
        ensures
            final(self).prefix() == old(self).prefix(),
            final(self).named() == old(self).named(),
            old(self)@.len() == 0 ==> r is None && final(self)@ == old(self)@,
            old(self)@.len() > 0 ==> r == Some(old(self)@.last()) && final(self)@ == old(self)@.drop_last(),
    {
        self.atoms.pop()
    }

    /// Returns an atom to the pool.
    pub fn release(&mut self, atom: u32)
        ensures
            final(self)@ == old(self)@.push(atom),
            final(self).prefix() == old(self).prefix(),
            final(self).named() == old(self).named(),
    {
        self.atoms.push(atom);
    }

    /// The name for the next new atom; each call numbers it one further
    /// (modulo 256).
    pub fn next_name(&mut self) -> (r: Vec<u8>)
        ensures
            r@ == old(self).prefix() + decimal(old(self).named() as nat),
            final(self)@ == old(self)@,
            final(self).prefix() == old(self).prefix(),
            final(self).named() == (if old(self).named() == 255 {
                0
            } else {
                old(self).named() + 1
            }),
    {
        let digits = decimal_digits(self.counter);
        let mut name: Vec<u8> = Vec::new();
        name.extend_from_slice(self.atom_prefix.as_slice());
        name.extend_from_slice(digits.as_slice());
        proof {
            assert(name@ =~= self.atom_prefix@ + decimal(self.counter as nat));
        }
        self.counter = if self.counter == 255 {
            0
        } else {
            self.counter + 1
        };
        name
    }
}

} // verus!
