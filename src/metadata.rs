use vstd::prelude::*;

verus! {

/// Why pinning failed.
#[derive(Debug, Clone, Copy, PartialEq, Eq, Structural)]
pub enum PinError {
    /// No item of that id is in the history.
    NotFound,
}

/// What is kept beside the history: the ids of pinned items, in the order
/// they were pinned.
#[derive(Debug)]
pub struct SelectionMetadata {
    pinned: Vec<u64>,
}

impl View for SelectionMetadata {
    type V = Seq<u64>;

    closed spec fn view(&self) -> Seq<u64> {
        self.pinned@
    }
}

impl SelectionMetadata {
    /// Well-formed: no id is pinned twice.
    pub open spec fn wf(&self) -> bool {
        self@.no_duplicates()
    }

    /// Nothing pinned.
    pub fn new() -> (r: Self)
        ensures
            r@ == Seq::<u64>::empty(),
            r.wf(),
    {
        SelectionMetadata { pinned: Vec::new() }
    }

    /// Metadata pinning `ids`, less repeated ids.
    pub fn from_pinned(ids: Vec<u64>) -> (r: Self)
        ensures
            r.wf(),
            forall|x: u64| r@.contains(x) <==> ids@.contains(x),
    {
        let mut m = SelectionMetadata::new();
        let mut i: usize = 0;
        while i < ids.len()
            invariant
                i <= ids@.len(),
                m.wf(),
                forall|x: u64| m@.contains(x) <==> ids@.subrange(0, i as int).contains(x),
            decreases ids@.len() - i,
        {
            let id = ids[i];
            let ghost before = m@;
            let pinned_already = m.is_pinned(id);
            if !pinned_already {
                m.pinned.push(id);
                proof {
                    assert forall|p: int, q: int| 0 <= p < q < m@.len() implies m@[p] != m@[q] by {
                        if q == before.len() {
                            assert(m@[p] == before[p]);
                            assert(before.contains(before[p]));
                        } else {
                            assert(m@[p] == before[p] && m@[q] == before[q]);
                        }
                    }
                }
            }
            proof {
                let a = ids@.subrange(0, i as int);
                let b = ids@.subrange(0, i + 1);
                assert(b =~= a.push(id));
                assert forall|x: u64| m@.contains(x) <==> b.contains(x) by {
                    if x == id {
                        assert(b[i as int] == id);
                        if !pinned_already {
                            assert(m@[before.len() as int] == id);
                        }
                    }
                    if a.contains(x) {
                        let k = choose|k: int| 0 <= k < a.len() && #[trigger] a[k] == x;
                        assert(b[k] == x);
                    }
                    if b.contains(x) && x != id {
                        let k = choose|k: int| 0 <= k < b.len() && #[trigger] b[k] == x;
                        assert(a[k] == x);
                    }
                    if before.contains(x) && !pinned_already {
                        let k = choose|k: int| 0 <= k < before.len() && #[trigger] before[k] == x;
                        assert(m@[k] == x);
                    }
                    if m@.contains(x) && x != id && !pinned_already {
                        let k = choose|k: int| 0 <= k < m@.len() && #[trigger] m@[k] == x;
                        assert(before[k] == x);
                    }
                }
            }
            i += 1;
        }
        proof {
            assert(ids@.subrange(0, ids@.len() as int) =~= ids@);
        }
        m
    }

    /// The pinned ids.
    pub fn pinned(&self) -> (r: &Vec<u64>)
        ensures
            r@ == self@,
    {
        &self.pinned
    }

    /// Whether `id` is pinned.
    pub fn is_pinned(&self, id: u64) -> (r: bool)
        ensures
            r == self@.contains(id),
    {
        let mut i: usize = 0;
        while i < self.pinned.len()
            invariant
                i <= self@.len(),
                forall|j: int| 0 <= j < i ==> self@[j] != id,
            decreases self@.len() - i,
        {
            if self.pinned[i] == id {
                return true;
            }
            i += 1;
        }
        false
    }

    /// Pins `id`, or unpins it when it is pinned; returns whether it is pinned now.
    pub fn toggle(&mut self, id: u64) -> (r: bool)
        requires
            old(self).wf(),
        ensures
            final(self).wf(),
            r == !old(self)@.contains(id),
            old(self)@.contains(id) ==> final(self)@ == old(self)@.remove(old(self)@.index_of(id)),
            !old(self)@.contains(id) ==> final(self)@ == old(self)@.push(id),
    {
        let mut i: usize = 0;
        while i < self.pinned.len()
            invariant
                i <= self@.len(),
                self@ == old(self)@,
                old(self).wf(),
                forall|j: int| 0 <= j < i ==> self@[j] != id,
            decreases self@.len() - i,
        {
            if self.pinned[i] == id {
                proof {
                    assert(self@.contains(id));
                    let c = self@.index_of(id);
                    assert(self@[c] == id);
                    assert(c == i);
                }
                self.pinned.remove(i);
                proof {
                    assert forall|a: int, b: int| 0 <= a < b < self@.len() implies self@[a] != self@[b] by {
                        let a2 = if a < i { a } else { a + 1 };
                        let b2 = if b < i { b } else { b + 1 };
                        assert(self@[a] == old(self)@[a2]);
                        assert(self@[b] == old(self)@[b2]);
                    }
                }
                return false;
            }
            i += 1;
        }
        self.pinned.push(id);
        proof {
            assert forall|a: int, b: int| 0 <= a < b < self@.len() implies self@[a] != self@[b] by {
                if b == self@.len() - 1 {
                    assert(self@[a] == old(self)@[a]);
                }
            }
        }
        true
    }
}

} // verus!
