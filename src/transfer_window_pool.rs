use vstd::prelude::*;
use vstd::string::StringSliceAdditionalSpecFns;

verus! {

/// A hidden window and a property atom on it, the target of one inbound transfer.
#[derive(Debug, Clone, Copy, PartialEq, Eq, Structural)]
pub struct TransferWindow {
    pub id: u32,
    pub atom: u32,
}

/// Some window of `s` has id `id`.
pub open spec fn has_window(s: Seq<TransferWindow>, id: u32) -> bool {
    exists|i: int| 0 <= i < s.len() && #[trigger] s[i].id == id
}

/// No two windows of `s` share an id.
pub open spec fn window_ids_unique(s: Seq<TransferWindow>) -> bool {
    forall|i: int, j: int| 0 <= i < j < s.len() ==> s[i].id != s[j].id
}

/// The decimal digits of `n`, as ASCII bytes.
pub open spec fn decimal(n: nat) -> Seq<u8>
    decreases n,
{
    if n < 10 {
        seq![(48 + n) as u8]
    } else {
        decimal(n / 10).push((48 + n % 10) as u8)
    }
}

/// The title prefix of transfer windows.
pub const WIN_TITLE_PREFIX: &'static str = "Memoni transfer window ";

/// The name prefix of transfer property atoms.
pub const ATOM_PREFIX: &'static str = "TRANSFER_SELECTION_DATA_";

/// The decimal digits of a byte value.
pub fn decimal_digits(n: u8) -> (r: Vec<u8>)
    ensures
        r@ == decimal(n as nat),
{
    let mut r: Vec<u8> = Vec::new();
    if n >= 100 {
        r.push(48 + n / 100);
        r.push(48 + (n / 10) % 10);
        r.push(48 + n % 10);
        proof {
            assert(decimal((n / 100) as nat) == seq![(48 + n / 100) as u8]);
            assert(decimal((n / 10) as nat) == decimal((n / 100) as nat).push((48 + (n / 10) % 10) as u8));
        }
    } else if n >= 10 {
        r.push(48 + n / 10);
        r.push(48 + n % 10);
        proof {
            assert(decimal((n / 10) as nat) == seq![(48 + n / 10) as u8]);
        }
    } else {
        r.push(48 + n);
    }
    proof {
        assert(r@ =~= decimal(n as nat));
    }
    r
}

/// Windows for inbound transfers, reused first in, first out. The pool only
/// holds windows; making a new one is the X connection's part, and its names
/// come from `next_names`.
pub struct TransferWindowPool {
    windows: Vec<TransferWindow>,
    counter: u8,
}

impl View for TransferWindowPool {
    type V = Seq<TransferWindow>;

    closed spec fn view(&self) -> Seq<TransferWindow> {
        self.windows@
    }
}

impl TransferWindowPool {
    /// Well-formed: no window is held twice.
    pub open spec fn wf(&self) -> bool {
        window_ids_unique(self@)
    }

    /// The number of windows named so far, modulo 256.
    pub closed spec fn named(&self) -> u8 {
        self.counter
    }

    /// An empty pool.
    pub fn new() -> (r: Self)
        ensures
            r@ == Seq::<TransferWindow>::empty(),
            r.wf(),
            r.named() == 0,
    {
        TransferWindowPool { windows: Vec::new(), counter: 0 }
    }

    /// The number of free windows.
    pub fn len(&self) -> (r: usize)
        ensures
            r == self@.len(),
    {
        self.windows.len()
    }

    /// Checks out the window that has waited longest, if any.
    pub fn get(&mut self) -> (r: Option<TransferWindow>)
        requires
            old(self).wf(),
        ensures
            final(self).wf(),
            final(self).named() == old(self).named(),
            old(self)@.len() == 0 ==> r is None && final(self)@ == old(self)@,
            old(self)@.len() > 0 ==> r == Some(old(self)@[0]) && final(self)@ == old(self)@.drop_first(),
    {
        if self.windows.len() == 0 {
            return None;
        }
        let w = self.windows.remove(0);
        proof {
            assert(self.windows@ =~= old(self)@.drop_first());
            assert forall|i: int, j: int| 0 <= i < j < self@.len() implies self@[i].id != self@[j].id by {
                assert(self@[i] == old(self)@[i + 1]);
                assert(self@[j] == old(self)@[j + 1]);
            }
        }
        Some(w)
    }

    /// Whether a window of id `id` is in the pool.
    pub fn holds(&self, id: u32) -> (r: bool)
        ensures
            r == has_window(self@, id),
    {
        let mut i: usize = 0;
        while i < self.windows.len()
            invariant
                i <= self@.len(),
                forall|j: int| 0 <= j < i ==> self@[j].id != id,
            decreases self@.len() - i,
        {
            if self.windows[i].id == id {
                return true;
            }
            i += 1;
        }
        false
    }

    /// Returns a window to the back of the pool; one that is already there
    /// stays where it is.
    pub fn release(&mut self, window: TransferWindow)
        requires
            old(self).wf(),
        ensures
            final(self).wf(),
            final(self).named() == old(self).named(),
            final(self)@ == if has_window(old(self)@, window.id) {
                old(self)@
            } else {
                old(self)@.push(window)
            },
    {
        if self.holds(window.id) {
            return ;
        }
        self.windows.push(window);
        proof {
            assert forall|i: int, j: int| 0 <= i < j < self@.len() implies self@[i].id != self@[j].id by {
                if j == self@.len() - 1 {
                    assert(self@[i] == old(self)@[i]);
                }
            }
        }
    }

    /// The title and the property atom name for the next new window; each
    /// call numbers them one further (modulo 256).
    pub fn next_names(&mut self) -> (r: (Vec<u8>, Vec<u8>))
        ensures
            final(self)@ == old(self)@,
            r.0@ == WIN_TITLE_PREFIX.spec_bytes() + decimal(old(self).named() as nat),
            r.1@ == ATOM_PREFIX.spec_bytes() + decimal(old(self).named() as nat),
            final(self).named() == (if old(self).named() == 255 {
                0
            } else {
                old(self).named() + 1
            }),
    {
        let digits = decimal_digits(self.counter);
        let mut title: Vec<u8> = Vec::new();
        title.extend_from_slice(WIN_TITLE_PREFIX.as_bytes());
        title.extend_from_slice(digits.as_slice());
        let mut atom: Vec<u8> = Vec::new();
        atom.extend_from_slice(ATOM_PREFIX.as_bytes());
        atom.extend_from_slice(digits.as_slice());
        proof {
            assert(title@ =~= WIN_TITLE_PREFIX.spec_bytes() + decimal(self.counter as nat));
            assert(atom@ =~= ATOM_PREFIX.spec_bytes() + decimal(self.counter as nat));
        }
        self.counter = if self.counter == 255 {
            0
        } else {
            self.counter + 1
        };
        (title, atom)
    }
}

} // verus!
