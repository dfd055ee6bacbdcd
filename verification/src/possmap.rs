use vstd::prelude::*;

use crate::digits::{all_possibilities, keep_digits, kept, remove_digit, removed, wf_digits};

verus! {

/// Whether `(r, c)` names one of the 81 cells.
pub open spec fn in_bounds(r: int, c: int) -> bool {
    0 <= r < 9 && 0 <= c < 9
}

/// The index of cell `(r, c)` in row-major order.
pub open spec fn cell_idx(r: int, c: int) -> int {
    r * 9 + c
}

/// The nine digits, ascending: the view of a fresh candidate list.
pub open spec fn full_digits() -> Seq<u8> {
    seq![1u8, 2u8, 3u8, 4u8, 5u8, 6u8, 7u8, 8u8, 9u8]
}

/// Distinct cells have distinct row-major indices.
pub proof fn lemma_cell_idx_injective(r1: int, c1: int, r2: int, c2: int)
    requires
        in_bounds(r1, c1),
        in_bounds(r2, c2),
        cell_idx(r1, c1) == cell_idx(r2, c2),
    ensures
        r1 == r2 && c1 == c2,
{
}

/// A candidate map: for each of the 81 cells, either a candidate list or no
/// entry. The grid keeps an entry exactly for its empty cells.
#[derive(Clone, Debug, PartialEq, Eq)]
pub struct PossibilityMap {
    slots: Vec<Option<Vec<u8>>>,
}

impl PossibilityMap {
    /// There is a slot for each of the 81 cells, and every stored list is a
    /// well-formed candidate list.
    pub closed spec fn wf(self) -> bool {
        &&& self.slots@.len() == 81
        &&& forall|k: int|
            0 <= k < 81 ==> (#[trigger] self.slots@[k] matches Some(l) ==> wf_digits(l@))
    }

    /// The entry of cell `(r, c)`, as a sequence of digits if present.
    pub closed spec fn entry(self, r: int, c: int) -> Option<Seq<u8>> {
        match self.slots@[cell_idx(r, c)] {
            Some(l) => Some(l@),
            None => None,
        }
    }

    /// In a well-formed map every entry is a well-formed candidate list.
    pub proof fn lemma_entries_wf(self)
        requires
            self.wf(),
        ensures
            forall|r: int, c: int|
                in_bounds(r, c) ==> (#[trigger] self.entry(r, c) matches Some(l) ==> wf_digits(l)),
    {
        assert forall|r: int, c: int|
            in_bounds(r, c) implies (#[trigger] self.entry(r, c) matches Some(l) ==> wf_digits(
            l,
        )) by {
            assert(0 <= cell_idx(r, c) < 81);
        }
    }

    /// A map with no entry for any cell.
    pub fn new_blank() -> (m: PossibilityMap)
        ensures
            m.wf(),
            forall|r: int, c: int| in_bounds(r, c) ==> #[trigger] m.entry(r, c) is None,
    {
        let mut slots: Vec<Option<Vec<u8>>> = Vec::new();
        let mut k: usize = 0;
        while k < 81
            invariant
                0 <= k <= 81,
                slots@.len() == k,
                forall|j: int| 0 <= j < k ==> #[trigger] slots@[j] is None,
            decreases 81 - k,
        {
            slots.push(None);
            k += 1;
        }
        PossibilityMap { slots }
    }

    /// A map giving every cell all nine digits.
    pub fn new_full() -> (m: PossibilityMap)
        ensures
            m.wf(),
            forall|r: int, c: int|
                in_bounds(r, c) ==> #[trigger] m.entry(r, c) == Some(full_digits()),
    {
        let mut slots: Vec<Option<Vec<u8>>> = Vec::new();
        let mut k: usize = 0;
        while k < 81
            invariant
                0 <= k <= 81,
                slots@.len() == k,
                forall|j: int|
                    0 <= j < k ==> (#[trigger] slots@[j] matches Some(l) && l@ == full_digits()),
            decreases 81 - k,
        {
            let full = all_possibilities();
            proof {
                assert(full@ =~= full_digits());
            }
            slots.push(Some(full));
            k += 1;
        }
        proof {
            assert(wf_digits(full_digits()));
        }
        PossibilityMap { slots }
    }

    /// The entry of `(r, c)`, copied out.
    pub fn get_list(&self, r: usize, c: usize) -> (o: Option<Vec<u8>>)
        requires
            self.wf(),
            r < 9,
            c < 9,
        ensures
            match o {
                Some(l) => self.entry(r as int, c as int) == Some(l@) && wf_digits(l@),
                None => self.entry(r as int, c as int) is None,
            },
    {
        let idx = r * 9 + c;
        match &self.slots[idx] {
            Some(l) => {
                let mut out: Vec<u8> = Vec::new();
                let mut i: usize = 0;
                while i < l.len()
                    invariant
                        0 <= i <= l@.len(),
                        out@ == l@.subrange(0, i as int),
                    decreases l@.len() - i,
                {
                    out.push(l[i]);
                    i += 1;
                    proof {
                        assert(out@ =~= l@.subrange(0, i as int));
                    }
                }
                proof {
                    assert(out@ =~= l@);
                }
                Some(out)
            },
            None => None,
        }
    }

    /// Whether the map holds an entry for `(r, c)`.
    pub fn has_entry(&self, r: usize, c: usize) -> (b: bool)
        requires
            self.wf(),
            r < 9,
            c < 9,
        ensures
            b == (self.entry(r as int, c as int) is Some),
    {
        let idx = r * 9 + c;
        self.slots[idx].is_some()
    }

    /// Store `list` as the entry of `(r, c)`.
    pub fn set_list(&mut self, r: usize, c: usize, list: Vec<u8>)
        requires
            old(self).wf(),
            r < 9,
            c < 9,
            wf_digits(list@),
        ensures
            final(self).wf(),
            final(self).entry(r as int, c as int) == Some(list@),
            forall|r2: int, c2: int|
                in_bounds(r2, c2) && (r2 != r || c2 != c) ==> #[trigger] final(self).entry(r2, c2)
                    == old(self).entry(r2, c2),
    {
        let idx = r * 9 + c;
        self.slots[idx] = Some(list);
        proof {
            assert forall|r2: int, c2: int|
                in_bounds(r2, c2) && (r2 != r || c2 != c) implies #[trigger] self.entry(r2, c2)
                == old(self).entry(r2, c2) by {
                if cell_idx(r2, c2) == cell_idx(r as int, c as int) {
                    lemma_cell_idx_injective(r as int, c as int, r2, c2);
                }
            }
        }
    }

    /// Drop the entry of `(r, c)`.
    pub fn clear_entry(&mut self, r: usize, c: usize)
        requires
            old(self).wf(),
            r < 9,
            c < 9,
        ensures
            final(self).wf(),
            final(self).entry(r as int, c as int) is None,
            forall|r2: int, c2: int|
                in_bounds(r2, c2) && (r2 != r || c2 != c) ==> #[trigger] final(self).entry(r2, c2)
                    == old(self).entry(r2, c2),
    {
        let idx = r * 9 + c;
        self.slots[idx] = None;
        proof {
            assert forall|r2: int, c2: int|
                in_bounds(r2, c2) && (r2 != r || c2 != c) implies #[trigger] self.entry(r2, c2)
                == old(self).entry(r2, c2) by {
                if cell_idx(r2, c2) == cell_idx(r as int, c as int) {
                    lemma_cell_idx_injective(r as int, c as int, r2, c2);
                }
            }
        }
    }

    /// Remove digit `d` from the entry of `(r, c)`, if the entry exists.
    pub fn remove_from_entry(&mut self, r: usize, c: usize, d: u8)
        requires
            old(self).wf(),
            r < 9,
            c < 9,
        ensures
            final(self).wf(),
            final(self).entry(r as int, c as int) == match old(self).entry(r as int, c as int) {
                Some(l) => Some(removed(l, d)),
                None => None::<Seq<u8>>,
            },
            forall|r2: int, c2: int|
                in_bounds(r2, c2) && (r2 != r || c2 != c) ==> #[trigger] final(self).entry(r2, c2)
                    == old(self).entry(r2, c2),
    {
        let idx = r * 9 + c;
        let updated: Option<Vec<u8>> = match &self.slots[idx] {
            Some(l) => {
                proof {
                    assert(wf_digits(l@));
                    crate::digits::lemma_removed_props(l@, d);
                }
                Some(remove_digit(l, d))
            },
            None => None,
        };
        self.slots[idx] = updated;
        proof {
            assert forall|r2: int, c2: int|
                in_bounds(r2, c2) && (r2 != r || c2 != c) implies #[trigger] self.entry(r2, c2)
                == old(self).entry(r2, c2) by {
                if cell_idx(r2, c2) == cell_idx(r as int, c as int) {
                    lemma_cell_idx_injective(r as int, c as int, r2, c2);
                }
            }
        }
    }

    /// Keep only the digits of `allowed` in the entry of `(r, c)`, if the entry exists.
    pub fn intersect_entry(&mut self, r: usize, c: usize, allowed: &Vec<u8>)
        requires
            old(self).wf(),
            r < 9,
            c < 9,
        ensures
            final(self).wf(),
            final(self).entry(r as int, c as int) == match old(self).entry(r as int, c as int) {
                Some(l) => Some(kept(l, allowed@)),
                None => None::<Seq<u8>>,
            },
            forall|r2: int, c2: int|
                in_bounds(r2, c2) && (r2 != r || c2 != c) ==> #[trigger] final(self).entry(r2, c2)
                    == old(self).entry(r2, c2),
    {
        let idx = r * 9 + c;
        let updated: Option<Vec<u8>> = match &self.slots[idx] {
            Some(l) => {
                proof {
                    assert(wf_digits(l@));
                    crate::digits::lemma_kept_props(l@, allowed@);
                }
                Some(keep_digits(l, allowed))
            },
            None => None,
        };
        self.slots[idx] = updated;
        proof {
            assert forall|r2: int, c2: int|
                in_bounds(r2, c2) && (r2 != r || c2 != c) implies #[trigger] self.entry(r2, c2)
                == old(self).entry(r2, c2) by {
                if cell_idx(r2, c2) == cell_idx(r as int, c as int) {
                    lemma_cell_idx_injective(r as int, c as int, r2, c2);
                }
            }
        }
    }

    /// An identical copy, entry for entry.
    pub fn snapshot(&self) -> (m: PossibilityMap)
        requires
            self.wf(),
        ensures
            m.wf(),
            forall|r: int, c: int|
                in_bounds(r, c) ==> #[trigger] m.entry(r, c) == self.entry(r, c),
    {
        let mut slots: Vec<Option<Vec<u8>>> = Vec::new();
        let mut k: usize = 0;
        while k < 81
            invariant
                0 <= k <= 81,
                slots@.len() == k,
                self.wf(),
                self.slots@.len() == 81,
                forall|j: int|
                    0 <= j < k ==> (#[trigger] slots@[j] is Some == self.slots@[j] is Some),
                forall|j: int|
                    0 <= j < k ==> ((#[trigger] slots@[j]) matches Some(l) ==> (self.slots@[j]
                        matches Some(l0) && l@ == l0@)),
            decreases 81 - k,
        {
            let copied: Option<Vec<u8>> = match &self.slots[k] {
                Some(l) => {
                    let mut out: Vec<u8> = Vec::new();
                    let mut i: usize = 0;
                    while i < l.len()
                        invariant
                            0 <= i <= l@.len(),
                            out@ == l@.subrange(0, i as int),
                        decreases l@.len() - i,
                    {
                        out.push(l[i]);
                        i += 1;
                        proof {
                            assert(out@ =~= l@.subrange(0, i as int));
                        }
                    }
                    proof {
                        assert(out@ =~= l@);
                    }
                    Some(out)
                },
                None => None,
            };
            slots.push(copied);
            k += 1;
        }
        let m = PossibilityMap { slots };
        proof {
            assert forall|r: int, c: int| in_bounds(r, c) implies #[trigger] m.entry(r, c)
                == self.entry(r, c) by {
                assert(0 <= cell_idx(r, c) < 81);
            }
        }
        m
    }

    /// How many cells currently have an entry.
    pub fn count_entries(&self) -> (n: usize)
        requires
            self.wf(),
        ensures
            n <= 81,
    {
        let mut n: usize = 0;
        let mut k: usize = 0;
        while k < 81
            invariant
                0 <= k <= 81,
                n <= k,
                self.wf(),
                self.slots@.len() == 81,
            decreases 81 - k,
        {
            if self.slots[k].is_some() {
                n += 1;
            }
            k += 1;
        }
        n
    }
}

} // verus!
