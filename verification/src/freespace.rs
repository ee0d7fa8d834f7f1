//! The free-space allocator over the data region.
//!
//! State is a fixed array of `SLOTS` ranges `[start, end)`; a slot with
//! `start == end` is unused. Anonymous allocation picks a fitting slot by
//! the configured strategy and advances its start; directed allocation
//! carves a requested range out of the slot containing it, splitting the
//! slot when the range starts past the slot's start. Freeing coalesces with
//! a neighbouring slot when one abuts the range, else claims an unused slot,
//! else drops the range. Whenever several slots qualify, the first in array
//! order wins.
use vstd::prelude::*;

verus! {

/// One free range `[start, end)`.
#[derive(Debug, Default, Copy, Clone, PartialEq, Eq, Structural)]
pub struct Slot {
    /// First free byte of the range.
    pub start: usize,
    /// First byte past the range.
    pub end: usize,
}

impl Slot {
    /// How many bytes the slot covers.
    pub open spec fn spec_size(&self) -> int {
        self.end - self.start
    }

    /// Builds the range `[start, end)`.
    pub fn new(start: usize, end: usize) -> (s: Self)
        ensures
            s == (Slot { start, end }),
    {
        Slot { start, end }
    }

    /// How many bytes the slot covers.
    pub fn size(&self) -> (r: usize)
        requires
            self.start <= self.end,
        ensures
            r == self.spec_size(),
    {
        self.end - self.start
    }
}

/// Two ranges share no byte (an empty range is disjoint from everything).
pub open spec fn ranges_disjoint(s1: int, e1: int, s2: int, e2: int) -> bool {
    e1 <= s1 || e2 <= s2 || e1 <= s2 || e2 <= s1
}

/// The slot is unused.
pub open spec fn slot_empty(s: Slot) -> bool {
    s.start == s.end
}

/// The slot can hand out `size` bytes.
pub open spec fn slot_fits(s: Slot, size: int) -> bool {
    s.end - s.start >= size
}

/// The slot contains the whole range `[addr, addr + size)`.
pub open spec fn slot_contains_range(s: Slot, addr: int, size: int) -> bool {
    s.start <= addr && addr + size <= s.end
}

/// Every slot is a well-formed range and no two slots share a byte.
pub open spec fn slots_wf(ss: Seq<Slot>) -> bool {
    &&& forall|k: int| 0 <= k < ss.len() ==> (#[trigger] ss[k]).start <= ss[k].end
    &&& forall|k1: int, k2: int|
        0 <= k1 < k2 < ss.len() ==> ranges_disjoint(
            (#[trigger] ss[k1]).start as int,
            ss[k1].end as int,
            (#[trigger] ss[k2]).start as int,
            ss[k2].end as int,
        )
}

/// Some slot covers byte `a`.
pub open spec fn covered(ss: Seq<Slot>, a: int) -> bool {
    exists|k: int| 0 <= k < ss.len() && (#[trigger] ss[k]).start <= a < ss[k].end
}

/// How anonymous allocation chooses its slot.
#[derive(Debug, Copy, Clone, PartialEq, Eq, Structural)]
pub enum AllocStrategy {
    /// Take the largest fitting slot; ties go to the first in array order.
    MaxFit,
    /// Take the smallest fitting slot; ties go to the first in array order.
    MinFit,
    /// Take the first fitting slot in array order.
    FirstFit,
}

impl Default for AllocStrategy {
    /// The default strategy keeps large runs intact.
    fn default() -> (r: Self)
        ensures
            r == AllocStrategy::MaxFit,
    {
        AllocStrategy::MaxFit
    }
}

/// Slot `k` is the one the strategy picks for `size` bytes: it fits, and it
/// is the first fitting slot (first-fit), the first of the largest fits
/// (max-fit), or the first of the smallest fits (min-fit).
pub open spec fn anon_pick_ok(ss: Seq<Slot>, size: int, strat: AllocStrategy, k: int) -> bool {
    &&& 0 <= k < ss.len()
    &&& slot_fits(ss[k], size)
    &&& match strat {
        AllocStrategy::FirstFit => forall|j: int|
            0 <= j < k ==> !slot_fits(#[trigger] ss[j], size),
        AllocStrategy::MaxFit => (forall|j: int|
            0 <= j < ss.len() && slot_fits(#[trigger] ss[j], size) ==> ss[j].spec_size()
                <= ss[k].spec_size()) && (forall|j: int|
            0 <= j < k && slot_fits(#[trigger] ss[j], size) ==> ss[j].spec_size()
                < ss[k].spec_size()),
        AllocStrategy::MinFit => (forall|j: int|
            0 <= j < ss.len() && slot_fits(#[trigger] ss[j], size) ==> ss[j].spec_size()
                >= ss[k].spec_size()) && (forall|j: int|
            0 <= j < k && slot_fits(#[trigger] ss[j], size) ==> ss[j].spec_size()
                > ss[k].spec_size()),
    }
}

/// A directed allocation of `[addr, addr + size)` can succeed: some slot
/// contains the range, and the range either starts the slot or an unused
/// slot entry is free to take the split-off tail.
pub open spec fn can_alloc_directed(ss: Seq<Slot>, addr: int, size: int) -> bool {
    exists|k: int|
        0 <= k < ss.len() && slot_contains_range(#[trigger] ss[k], addr, size) && (addr
            == ss[k].start || exists|k2: int|
            0 <= k2 < ss.len() && k2 != k && slot_empty(#[trigger] ss[k2]))
}

/// How a successful directed allocation of `[addr, addr + size)` rewrites
/// the slots: the containing slot is advanced when the range starts it,
/// else it is cut short at `addr` and the first unused slot takes the tail.
pub open spec fn directed_effect(ss0: Seq<Slot>, ss1: Seq<Slot>, addr: int, size: int) -> bool {
    exists|k: int|
        {
            &&& 0 <= k < ss0.len()
            &&& slot_contains_range(#[trigger] ss0[k], addr, size)
            &&& if addr == ss0[k].start {
                ss1 == ss0.update(k, Slot { start: (addr + size) as usize, end: ss0[k].end })
            } else {
                exists|k2: int|
                    {
                        &&& 0 <= k2 < ss0.len()
                        &&& k2 != k
                        &&& slot_empty(#[trigger] ss0[k2])
                        &&& forall|j: int| 0 <= j < k2 ==> !slot_empty(#[trigger] ss0[j])
                        &&& ss1 == ss0.update(k, Slot { start: ss0[k].start, end: addr as usize }
                        ).update(k2, Slot { start: (addr + size) as usize, end: ss0[k].end })
                    }
            }
        }
}

/// A freed range `[addr, addr + size)` can be recorded: a slot ends at the
/// range, a slot starts right past it, or a slot entry is unused.
pub open spec fn can_free(ss: Seq<Slot>, addr: int, size: int) -> bool {
    exists|k: int|
        0 <= k < ss.len() && ((#[trigger] ss[k]).end == addr || ss[k].start == addr + size
            || slot_empty(ss[k]))
}

/// A fixed array of free ranges over the data region.
pub struct Alloc<const SLOTS: usize> {
    slots: Vec<Slot>,
    alloc_strategy: AllocStrategy,
}

impl<const SLOTS: usize> Alloc<SLOTS> {
    /// The slots as a sequence.
    pub closed spec fn slots_view(&self) -> Seq<Slot> {
        self.slots@
    }

    /// The configured strategy.
    pub closed spec fn strategy(&self) -> AllocStrategy {
        self.alloc_strategy
    }

    /// There are `SLOTS` well-formed, pairwise disjoint slots.
    pub open spec fn wf(&self) -> bool {
        &&& self.slots_view().len() == SLOTS
        &&& slots_wf(self.slots_view())
    }

    /// Starts with the single free range `[start, start + space)` in the
    /// first slot (and nothing free at all when `SLOTS` is zero).
    pub fn new(alloc_strategy: AllocStrategy, start: usize, space: usize) -> (a: Self)
        requires
            start + space <= usize::MAX,
        ensures
            a.wf(),
            a.strategy() == alloc_strategy,
            a.slots_view().len() == SLOTS,
            SLOTS > 0 ==> a.slots_view()[0] == (Slot { start, end: (start + space) as usize }),
            forall|k: int| 0 < k < SLOTS ==> slot_empty(#[trigger] a.slots_view()[k]),
            forall|x: int| covered(a.slots_view(), x) <==> SLOTS > 0 && start <= x < start + space,
    {
        let mut slots: Vec<Slot> = Vec::new();
        let mut k: usize = 0;
        while k < SLOTS
            invariant
                k <= SLOTS,
                slots@.len() == k,
                k > 0 && SLOTS > 0 ==> slots@[0] == (Slot { start, end: (start + space) as usize }),
                forall|j: int| 0 < j < k ==> slot_empty(#[trigger] slots@[j]),
                start + space <= usize::MAX,
                forall|j: int| 0 <= j < k ==> (#[trigger] slots@[j]).start <= slots@[j].end,
            decreases SLOTS - k,
        {
            if k == 0 {
                slots.push(Slot { start, end: start + space });
            } else {
                slots.push(Slot { start: 0, end: 0 });
            }
            k += 1;
        }
        let a = Alloc { slots, alloc_strategy };
        proof {
            assert forall|x: int| covered(a.slots_view(), x) implies SLOTS > 0 && start <= x
                < start + space by {
                let k0 = choose|k0: int|
                    0 <= k0 < a.slots_view().len() && (#[trigger] a.slots_view()[k0]).start <= x
                        < a.slots_view()[k0].end;
                assert(k0 == 0);
            }
            assert forall|x: int| SLOTS > 0 && start <= x < start + space implies covered(
                a.slots_view(),
                x,
            ) by {
                assert(a.slots_view()[0].start <= x < a.slots_view()[0].end);
            }
        }
        a
    }

    /// First slot that contains the whole range `[addr, addr + size)`.
    fn find_containing(&self, addr: usize, size: usize) -> (r: Option<usize>)
        requires
            self.wf(),
            addr + size <= usize::MAX,
        ensures
            match r {
                Some(k) => k < SLOTS && slot_contains_range(
                    self.slots_view()[k as int],
                    addr as int,
                    size as int,
                ) && forall|j: int|
                    0 <= j < k ==> !slot_contains_range(
                        #[trigger] self.slots_view()[j],
                        addr as int,
                        size as int,
                    ),
                None => forall|j: int|
                    0 <= j < SLOTS ==> !slot_contains_range(
                        #[trigger] self.slots_view()[j],
                        addr as int,
                        size as int,
                    ),
            },
    {
        let mut k: usize = 0;
        while k < SLOTS
            invariant
                self.wf(),
                k <= SLOTS,
                addr + size <= usize::MAX,
                forall|j: int|
                    0 <= j < k ==> !slot_contains_range(
                        #[trigger] self.slots_view()[j],
                        addr as int,
                        size as int,
                    ),
            decreases SLOTS - k,
        {
            let s: Slot = self.slots[k];
            if s.start <= addr && addr + size <= s.end {
                return Some(k);
            }
            k += 1;
        }
        None
    }

    /// First unused slot.
    fn find_empty(&self) -> (r: Option<usize>)
        requires
            self.wf(),
        ensures
            match r {
                Some(k) => k < SLOTS && slot_empty(self.slots_view()[k as int]) && forall|j: int|
                    0 <= j < k ==> !slot_empty(#[trigger] self.slots_view()[j]),
                None => forall|j: int|
                    0 <= j < SLOTS ==> !slot_empty(#[trigger] self.slots_view()[j]),
            },
    {
        let mut k: usize = 0;
        while k < SLOTS
            invariant
                self.wf(),
                k <= SLOTS,
                forall|j: int| 0 <= j < k ==> !slot_empty(#[trigger] self.slots_view()[j]),
            decreases SLOTS - k,
        {
            let s: Slot = self.slots[k];
            if s.start == s.end {
                return Some(k);
            }
            k += 1;
        }
        None
    }

    /// The slot the strategy picks for `size` bytes, if any fits.
    fn pick_anon(&self, size: usize) -> (r: Option<usize>)
        requires
            self.wf(),
        ensures
            match r {
                Some(k) => anon_pick_ok(
                    self.slots_view(),
                    size as int,
                    self.strategy(),
                    k as int,
                ) && k < SLOTS,
                None => forall|j: int|
                    0 <= j < SLOTS ==> !slot_fits(#[trigger] self.slots_view()[j], size as int),
            },
    {
        let mut best: Option<usize> = None;
        let mut k: usize = 0;
        while k < SLOTS
            invariant
                self.wf(),
                k <= SLOTS,
                match best {
                    Some(b) => b < k && anon_pick_ok(
                        self.slots_view().take(k as int),
                        size as int,
                        self.strategy(),
                        b as int,
                    ),
                    None => forall|j: int|
                        0 <= j < k ==> !slot_fits(#[trigger] self.slots_view()[j], size as int),
                },
            decreases SLOTS - k,
        {
            let s: Slot = self.slots[k];
            if s.end - s.start >= size {
                match best {
                    None => {
                        best = Some(k);
                    },
                    Some(b) => {
                        let sb: Slot = self.slots[b];
                        match self.alloc_strategy {
                            AllocStrategy::FirstFit => {},
                            AllocStrategy::MaxFit => {
                                if s.end - s.start > sb.end - sb.start {
                                    best = Some(k);
                                }
                            },
                            AllocStrategy::MinFit => {
                                if s.end - s.start < sb.end - sb.start {
                                    best = Some(k);
                                }
                            },
                        }
                    },
                }
            }
            proof {
                let ssk1 = self.slots_view().take(k + 1);
                let ssk = self.slots_view().take(k as int);
                assert(forall|j: int| 0 <= j < k + 1 ==> ssk1[j] == self.slots_view()[j]);
                assert(forall|j: int| 0 <= j < k ==> ssk[j] == self.slots_view()[j]);
            }
            k += 1;
        }
        proof {
            assert(self.slots_view().take(SLOTS as int) =~= self.slots_view());
        }
        best
    }

    /// Reserves `size` bytes. With no `addr` the strategy picks a fitting
    /// slot, advances its start, and the old start comes back. With
    /// `addr` the exact range `[addr, addr + size)` is carved out of the
    /// slot containing it, splitting the slot when needed; the split falls
    /// to the first unused slot entry, and fails (changing nothing) when
    /// every entry is in use.
    pub fn allocate(&mut self, size: usize, addr: Option<crate::Address>) -> (r: Option<
        crate::Address,
    >)
        requires
            old(self).wf(),
            size > 0,
            addr matches Some(a) ==> a + size <= usize::MAX,
        ensures
            final(self).wf(),
            final(self).strategy() == old(self).strategy(),
            final(self).slots_view().len() == SLOTS,
            match addr {
                Some(want) => match r {
                    Some(a) => a == want && directed_effect(
                        old(self).slots_view(),
                        final(self).slots_view(),
                        want as int,
                        size as int,
                    ),
                    None => final(self).slots_view() == old(self).slots_view()
                        && !can_alloc_directed(old(self).slots_view(), want as int, size as int),
                },
                None => match r {
                    Some(a) => a + size <= usize::MAX && exists|k: int|
                        {
                            &&& anon_pick_ok(
                                old(self).slots_view(),
                                size as int,
                                old(self).strategy(),
                                k,
                            )
                            &&& a == old(self).slots_view()[k].start
                            &&& final(self).slots_view() == old(self).slots_view().update(
                                k,
                                Slot {
                                    start: (a + size) as usize,
                                    end: old(self).slots_view()[k].end,
                                },
                            )
                        },
                    None => final(self).slots_view() == old(self).slots_view() && forall|j: int|
                        0 <= j < SLOTS ==> !slot_fits(#[trigger] old(self).slots_view()[j], size as int),
                },
            },
    {
        match addr {
            Some(want) => {
                let found = self.find_containing(want, size);
                match found {
                    None => {
                        proof {
                            assert(!can_alloc_directed(
                                self.slots_view(),
                                want as int,
                                size as int,
                            ));
                        }
                        None
                    },
                    Some(k) => {
                        let s: Slot = self.slots[k];
                        if want == s.start {
                            self.slots[k] = Slot { start: want + size, end: s.end };
                            proof {
                                lemma_update_within_wf(
                                    old(self).slots_view(),
                                    self.slots_view(),
                                    k as int,
                                );
                                assert(directed_effect(
                                    old(self).slots_view(),
                                    self.slots_view(),
                                    want as int,
                                    size as int,
                                ));
                            }
                            Some(want)
                        } else {
                            let empty = self.find_empty();
                            match empty {
                                None => {
                                    proof {
                                        // no unused entry exists, and the range does not
                                        // start any containing slot, so the split cannot be
                                        // recorded
                                        assert forall|kk: int|
                                            0 <= kk < SLOTS && slot_contains_range(
                                                #[trigger] self.slots_view()[kk],
                                                want as int,
                                                size as int,
                                            ) implies kk == k as int by {
                                            if kk != k {
                                                assert(ranges_disjoint(
                                                    self.slots_view()[k as int].start as int,
                                                    self.slots_view()[k as int].end as int,
                                                    self.slots_view()[kk].start as int,
                                                    self.slots_view()[kk].end as int,
                                                ));
                                            }
                                        }
                                        assert(!can_alloc_directed(
                                            self.slots_view(),
                                            want as int,
                                            size as int,
                                        ));
                                    }
                                    None
                                },
                                Some(k2) => {
                                    self.slots[k] = Slot { start: s.start, end: want };
                                    self.slots[k2] = Slot { start: want + size, end: s.end };
                                    proof {
                                        lemma_split_wf(
                                            old(self).slots_view(),
                                            self.slots_view(),
                                            k as int,
                                            k2 as int,
                                            want as int,
                                            size as int,
                                        );
                                        assert(directed_effect(
                                            old(self).slots_view(),
                                            self.slots_view(),
                                            want as int,
                                            size as int,
                                        ));
                                    }
                                    Some(want)
                                },
                            }
                        }
                    },
                }
            },
            None => {
                let picked = self.pick_anon(size);
                match picked {
                    None => None,
                    Some(k) => {
                        let s: Slot = self.slots[k];
                        let a = s.start;
                        self.slots[k] = Slot { start: a + size, end: s.end };
                        proof {
                            lemma_update_within_wf(
                                old(self).slots_view(),
                                self.slots_view(),
                                k as int,
                            );
                        }
                        Some(a)
                    },
                }
            },
        }
    }

    /// Returns `[addr, addr + size)` to the free list: a slot ending at
    /// `addr` grows right, else a slot starting at `addr + size` grows
    /// left, else the first unused slot entry takes the range, else (every
    /// entry in use and nothing abutting) the range is dropped.
    pub fn free(&mut self, addr: crate::Address, size: usize)
        requires
            old(self).wf(),
            size > 0,
            addr + size <= usize::MAX,
            forall|j: int|
                0 <= j < SLOTS ==> ranges_disjoint(
                    addr as int,
                    addr + size,
                    (#[trigger] old(self).slots_view()[j]).start as int,
                    old(self).slots_view()[j].end as int,
                ),
        ensures
            final(self).wf(),
            final(self).strategy() == old(self).strategy(),
            final(self).slots_view().len() == SLOTS,
            forall|k: int|
                0 <= k < SLOTS ==> ((#[trigger] final(self).slots_view()[k]) == old(
                    self,
                ).slots_view()[k] || free_extend_case(
                    old(self).slots_view()[k],
                    final(self).slots_view()[k],
                    addr as int,
                    size as int,
                )),
            forall|x: int|
                covered(final(self).slots_view(), x) <==> (covered(old(self).slots_view(), x) || (
                can_free(old(self).slots_view(), addr as int, size as int) && addr <= x < addr
                    + size)),
            !can_free(old(self).slots_view(), addr as int, size as int) ==> final(self).slots_view()
                == old(self).slots_view(),
            // which slot records the range: a slot ending at it wins, then a
            // slot starting right past it, then an unused entry; the first in
            // array order wins within each case
            (exists|k: int|
                0 <= k < SLOTS && (#[trigger] old(self).slots_view()[k]).end == addr)
                ==> exists|k: int|
                {
                    &&& 0 <= k < SLOTS
                    &&& (#[trigger] old(self).slots_view()[k]).end == addr
                    &&& forall|j: int|
                        0 <= j < k ==> (#[trigger] old(self).slots_view()[j]).end != addr
                    &&& final(self).slots_view() == old(self).slots_view().update(
                        k,
                        Slot {
                            start: old(self).slots_view()[k].start,
                            end: (addr + size) as usize,
                        },
                    )
                },
            ((forall|k: int|
                0 <= k < SLOTS ==> (#[trigger] old(self).slots_view()[k]).end != addr) && (
            exists|k: int|
                0 <= k < SLOTS && (#[trigger] old(self).slots_view()[k]).start == addr + size))
                ==> exists|k: int|
                {
                    &&& 0 <= k < SLOTS
                    &&& (#[trigger] old(self).slots_view()[k]).start == addr + size
                    &&& forall|j: int|
                        0 <= j < k ==> (#[trigger] old(self).slots_view()[j]).start != addr + size
                    &&& final(self).slots_view() == old(self).slots_view().update(
                        k,
                        Slot { start: addr, end: old(self).slots_view()[k].end },
                    )
                },
            ((forall|k: int|
                0 <= k < SLOTS ==> (#[trigger] old(self).slots_view()[k]).end != addr) && (
            forall|k: int|
                0 <= k < SLOTS ==> (#[trigger] old(self).slots_view()[k]).start != addr + size)
                && (exists|k: int| 0 <= k < SLOTS && slot_empty(#[trigger] old(self).slots_view()[k])))
                ==> exists|k: int|
                {
                    &&& 0 <= k < SLOTS
                    &&& slot_empty(#[trigger] old(self).slots_view()[k])
                    &&& forall|j: int|
                        0 <= j < k ==> !slot_empty(#[trigger] old(self).slots_view()[j])
                    &&& final(self).slots_view() == old(self).slots_view().update(
                        k,
                        Slot { start: addr, end: (addr + size) as usize },
                    )
                },
    {
        let slot_end = addr + size;
        let mut k: usize = 0;
        while k < SLOTS
            invariant
                self.wf(),
                self == old(self),
                k <= SLOTS,
                addr + size <= usize::MAX,
                size > 0,
                slot_end == addr + size,
                forall|j: int|
                    0 <= j < SLOTS ==> ranges_disjoint(
                        addr as int,
                        addr + size,
                        (#[trigger] old(self).slots_view()[j]).start as int,
                        old(self).slots_view()[j].end as int,
                    ),
                forall|j: int| 0 <= j < k ==> (#[trigger] self.slots_view()[j]).end != addr,
            decreases SLOTS - k,
        {
            let s: Slot = self.slots[k];
            if s.end == addr {
                self.slots[k] = Slot { start: s.start, end: slot_end };
                proof {
                    lemma_free_extend_wf(
                        old(self).slots_view(),
                        self.slots_view(),
                        k as int,
                        addr as int,
                        size as int,
                    );
                }
                return ;
            }
            k += 1;
        }
        let mut k: usize = 0;
        while k < SLOTS
            invariant
                self.wf(),
                self == old(self),
                k <= SLOTS,
                addr + size <= usize::MAX,
                size > 0,
                slot_end == addr + size,
                forall|j: int|
                    0 <= j < SLOTS ==> ranges_disjoint(
                        addr as int,
                        addr + size,
                        (#[trigger] old(self).slots_view()[j]).start as int,
                        old(self).slots_view()[j].end as int,
                    ),
                forall|j: int| 0 <= j < SLOTS ==> (#[trigger] self.slots_view()[j]).end != addr,
                forall|j: int|
                    0 <= j < k ==> (#[trigger] self.slots_view()[j]).start != addr + size,
            decreases SLOTS - k,
        {
            let s: Slot = self.slots[k];
            if s.start == slot_end {
                self.slots[k] = Slot { start: addr, end: s.end };
                proof {
                    lemma_free_extend_wf(
                        old(self).slots_view(),
                        self.slots_view(),
                        k as int,
                        addr as int,
                        size as int,
                    );
                }
                return ;
            }
            k += 1;
        }
        let mut k: usize = 0;
        while k < SLOTS
            invariant
                self.wf(),
                self == old(self),
                k <= SLOTS,
                addr + size <= usize::MAX,
                size > 0,
                slot_end == addr + size,
                forall|j: int|
                    0 <= j < SLOTS ==> ranges_disjoint(
                        addr as int,
                        addr + size,
                        (#[trigger] old(self).slots_view()[j]).start as int,
                        old(self).slots_view()[j].end as int,
                    ),
                forall|j: int| 0 <= j < SLOTS ==> (#[trigger] self.slots_view()[j]).end != addr,
                forall|j: int|
                    0 <= j < SLOTS ==> (#[trigger] self.slots_view()[j]).start != addr + size,
                forall|j: int| 0 <= j < k ==> !slot_empty(#[trigger] self.slots_view()[j]),
            decreases SLOTS - k,
        {
            let s: Slot = self.slots[k];
            if s.start == s.end {
                self.slots[k] = Slot { start: addr, end: slot_end };
                proof {
                    lemma_free_extend_wf(
                        old(self).slots_view(),
                        self.slots_view(),
                        k as int,
                        addr as int,
                        size as int,
                    );
                }
                return ;
            }
            k += 1;
        }
        proof {
            assert(!can_free(self.slots_view(), addr as int, size as int));
            assert forall|x: int| covered(self.slots_view(), x) implies covered(
                old(self).slots_view(),
                x,
            ) by {}
        }
    }
}

/// Shrinking one slot within its own old range keeps the slots disjoint.
proof fn lemma_update_within_wf(ss0: Seq<Slot>, ss1: Seq<Slot>, k: int)
    requires
        slots_wf(ss0),
        0 <= k < ss0.len(),
        ss1.len() == ss0.len(),
        forall|j: int| 0 <= j < ss0.len() && j != k ==> ss1[j] == ss0[j],
        ss0[k].start <= ss1[k].start <= ss1[k].end <= ss0[k].end,
    ensures
        slots_wf(ss1),
{
}

/// Splitting one slot into two of its own subranges keeps the slots
/// disjoint, when the second lands on a previously unused entry.
proof fn lemma_split_wf(ss0: Seq<Slot>, ss1: Seq<Slot>, k: int, k2: int, addr: int, size: int)
    requires
        slots_wf(ss0),
        0 <= k < ss0.len(),
        0 <= k2 < ss0.len(),
        k != k2,
        slot_empty(ss0[k2]),
        slot_contains_range(ss0[k], addr, size),
        size >= 0,
        ss1.len() == ss0.len(),
        forall|j: int| 0 <= j < ss0.len() && j != k && j != k2 ==> ss1[j] == ss0[j],
        ss1[k].start == ss0[k].start && ss1[k].end == addr,
        ss0[k].start <= addr,
        ss1[k2].start == addr + size && ss1[k2].end == ss0[k].end,
    ensures
        slots_wf(ss1),
{
}

/// One way `free` records the range `[addr, addr + size)` in a slot: the
/// slot grows right over an abutting range, grows left over one, or (when
/// previously unused) becomes the range itself.
pub open spec fn free_extend_case(s0: Slot, s1: Slot, addr: int, size: int) -> bool {
    ||| (s0.end == addr && s1 == Slot { start: s0.start, end: (addr + size) as usize })
    ||| (s0.start == addr + size && s1 == Slot { start: addr as usize, end: s0.end })
    ||| (slot_empty(s0) && s1 == Slot { start: addr as usize, end: (addr + size) as usize })
}

/// Growing or claiming one slot with a range disjoint from every slot keeps
/// the slots disjoint, as long as the new slot stays within the union of
/// its old range and the freed range.
proof fn lemma_free_extend_wf(ss0: Seq<Slot>, ss1: Seq<Slot>, k: int, addr: int, size: int)
    requires
        slots_wf(ss0),
        0 <= k < ss0.len(),
        size > 0,
        0 <= addr,
        addr + size <= usize::MAX,
        ss1.len() == ss0.len(),
        forall|j: int| 0 <= j < ss0.len() && j != k ==> ss1[j] == ss0[j],
        forall|j: int|
            0 <= j < ss0.len() ==> ranges_disjoint(
                addr,
                addr + size,
                (#[trigger] ss0[j]).start as int,
                ss0[j].end as int,
            ),
        free_extend_case(ss0[k], ss1[k], addr, size),
    ensures
        slots_wf(ss1),
        forall|x: int| covered(ss1, x) <==> (covered(ss0, x) || addr <= x < addr + size),
{
    assert forall|k1: int, k2: int| 0 <= k1 < k2 < ss1.len() implies ranges_disjoint(
        (#[trigger] ss1[k1]).start as int,
        ss1[k1].end as int,
        (#[trigger] ss1[k2]).start as int,
        ss1[k2].end as int,
    ) by {
        if k1 == k || k2 == k {
            let other = if k1 == k {
                k2
            } else {
                k1
            };
            assert(ranges_disjoint(
                addr,
                addr + size,
                ss0[other].start as int,
                ss0[other].end as int,
            ));
            assert(ranges_disjoint(
                ss0[k].start as int,
                ss0[k].end as int,
                ss0[other].start as int,
                ss0[other].end as int,
            ));
        }
    }
    assert forall|x: int| covered(ss1, x) implies (covered(ss0, x) || addr <= x < addr + size) by {
        let j = choose|j: int| 0 <= j < ss1.len() && (#[trigger] ss1[j]).start <= x < ss1[j].end;
        if j != k {
            assert(ss0[j].start <= x < ss0[j].end);
        } else {
            if !(addr <= x < addr + size) {
                assert(ss0[k].start <= x < ss0[k].end);
            }
        }
    }
    assert forall|x: int| (covered(ss0, x) || addr <= x < addr + size) implies covered(
        ss1,
        x,
    ) by {
        if addr <= x < addr + size {
            assert(ss1[k].start <= x < ss1[k].end);
        } else {
            let j = choose|j: int|
                0 <= j < ss0.len() && (#[trigger] ss0[j]).start <= x < ss0[j].end;
            if j == k {
                assert(ss1[k].start <= x < ss1[k].end);
            } else {
                assert(ss1[j].start <= x < ss1[j].end);
            }
        }
    }
}


/// What a successful directed allocation leaves behind: the range came out
/// of one slot, every surviving slot lies within a slot that was already
/// there, and no slot keeps a byte of the allocated range.
pub proof fn lemma_directed_effect_shrinks(ss0: Seq<Slot>, ss1: Seq<Slot>, addr: int, size: int)
    requires
        slots_wf(ss0),
        directed_effect(ss0, ss1, addr, size),
        size > 0,
        addr >= 0,
        addr + size <= usize::MAX,
    ensures
        ss1.len() == ss0.len(),
        exists|k0: int| 0 <= k0 < ss0.len() && slot_contains_range(#[trigger] ss0[k0], addr, size),
        forall|k: int|
            0 <= k < ss1.len() && !slot_empty(#[trigger] ss1[k]) ==> exists|k0: int|
                0 <= k0 < ss0.len() && (#[trigger] ss0[k0]).start <= ss1[k].start && ss1[k].end
                    <= ss0[k0].end,
        forall|k: int|
            0 <= k < ss1.len() ==> ranges_disjoint(
                addr,
                addr + size,
                (#[trigger] ss1[k]).start as int,
                ss1[k].end as int,
            ),
{
    let k = choose|k: int|
        {
            &&& 0 <= k < ss0.len()
            &&& slot_contains_range(#[trigger] ss0[k], addr, size)
            &&& if addr == ss0[k].start {
                ss1 == ss0.update(k, Slot { start: (addr + size) as usize, end: ss0[k].end })
            } else {
                exists|k2: int|
                    {
                        &&& 0 <= k2 < ss0.len()
                        &&& k2 != k
                        &&& slot_empty(#[trigger] ss0[k2])
                        &&& forall|j: int| 0 <= j < k2 ==> !slot_empty(#[trigger] ss0[j])
                        &&& ss1 == ss0.update(k, Slot { start: ss0[k].start, end: addr as usize }
                        ).update(k2, Slot { start: (addr + size) as usize, end: ss0[k].end })
                    }
            }
        };
    if addr == ss0[k].start {
        assert forall|j: int| 0 <= j < ss1.len() && !slot_empty(#[trigger] ss1[j]) implies exists|
            k0: int,
        |
            0 <= k0 < ss0.len() && (#[trigger] ss0[k0]).start <= ss1[j].start && ss1[j].end
                <= ss0[k0].end by {
            if j == k {
                assert(ss0[k].start <= ss1[j].start && ss1[j].end <= ss0[k].end);
            } else {
                assert(ss0[j].start <= ss1[j].start && ss1[j].end <= ss0[j].end);
            }
        }
        assert forall|j: int| 0 <= j < ss1.len() implies ranges_disjoint(
            addr,
            addr + size,
            (#[trigger] ss1[j]).start as int,
            ss1[j].end as int,
        ) by {
            if j != k {
                assert(ranges_disjoint(
                    ss0[k].start as int,
                    ss0[k].end as int,
                    ss0[j].start as int,
                    ss0[j].end as int,
                ));
            }
        }
    } else {
        let k2 = choose|k2: int|
            {
                &&& 0 <= k2 < ss0.len()
                &&& k2 != k
                &&& slot_empty(#[trigger] ss0[k2])
                &&& forall|j: int| 0 <= j < k2 ==> !slot_empty(#[trigger] ss0[j])
                &&& ss1 == ss0.update(k, Slot { start: ss0[k].start, end: addr as usize }).update(
                    k2,
                    Slot { start: (addr + size) as usize, end: ss0[k].end },
                )
            };
        assert forall|j: int| 0 <= j < ss1.len() && !slot_empty(#[trigger] ss1[j]) implies exists|
            k0: int,
        |
            0 <= k0 < ss0.len() && (#[trigger] ss0[k0]).start <= ss1[j].start && ss1[j].end
                <= ss0[k0].end by {
            if j == k2 {
                assert(ss0[k].start <= ss1[j].start && ss1[j].end <= ss0[k].end);
            } else if j == k {
                assert(ss0[k].start <= ss1[j].start && ss1[j].end <= ss0[k].end);
            } else {
                assert(ss0[j].start <= ss1[j].start && ss1[j].end <= ss0[j].end);
            }
        }
        assert forall|j: int| 0 <= j < ss1.len() implies ranges_disjoint(
            addr,
            addr + size,
            (#[trigger] ss1[j]).start as int,
            ss1[j].end as int,
        ) by {
            if j != k && j != k2 {
                assert(ranges_disjoint(
                    ss0[k].start as int,
                    ss0[k].end as int,
                    ss0[j].start as int,
                    ss0[j].end as int,
                ));
            }
        }
    }
}

/// Allocator coalescing, reservation side: an anonymous reservation removes
/// exactly the handed-out range from the free list's coverage.
pub proof fn lemma_anon_covered(ss0: Seq<Slot>, ss1: Seq<Slot>, k: int, a: int, size: int)
    requires
        slots_wf(ss0),
        size > 0,
        0 <= k < ss0.len(),
        a == ss0[k].start,
        a + size <= ss0[k].end,
        ss1 == ss0.update(k, Slot { start: (a + size) as usize, end: ss0[k].end }),
    ensures
        forall|x: int| covered(ss1, x) <==> (covered(ss0, x) && !(a <= x < a + size)),
{
    assert forall|x: int| covered(ss1, x) implies (covered(ss0, x) && !(a <= x < a + size)) by {
        let j = choose|j: int| 0 <= j < ss1.len() && (#[trigger] ss1[j]).start <= x < ss1[j].end;
        if j == k {
            assert(ss0[k].start <= x < ss0[k].end);
        } else {
            assert(ss0[j].start <= x < ss0[j].end);
            assert(ranges_disjoint(
                ss0[k].start as int,
                ss0[k].end as int,
                ss0[j].start as int,
                ss0[j].end as int,
            ));
        }
    }
    assert forall|x: int| (covered(ss0, x) && !(a <= x < a + size)) implies covered(ss1, x) by {
        let j = choose|j: int| 0 <= j < ss0.len() && (#[trigger] ss0[j]).start <= x < ss0[j].end;
        if j == k {
            assert(ss1[k].start <= x < ss1[k].end);
        } else {
            assert(ss1[j].start <= x < ss1[j].end);
        }
    }
}

/// Allocator coalescing, directed side: a directed reservation removes
/// exactly the requested range from the free list's coverage, wherever the
/// split-off tail landed.
pub proof fn lemma_directed_covered(ss0: Seq<Slot>, ss1: Seq<Slot>, addr: int, size: int)
    requires
        slots_wf(ss0),
        size > 0,
        0 <= addr,
        addr + size <= usize::MAX,
        directed_effect(ss0, ss1, addr, size),
    ensures
        forall|x: int| covered(ss1, x) <==> (covered(ss0, x) && !(addr <= x < addr + size)),
{
    lemma_directed_effect_shrinks(ss0, ss1, addr, size);
    let k = choose|k: int|
        {
            &&& 0 <= k < ss0.len()
            &&& slot_contains_range(#[trigger] ss0[k], addr, size)
            &&& if addr == ss0[k].start {
                ss1 == ss0.update(k, Slot { start: (addr + size) as usize, end: ss0[k].end })
            } else {
                exists|k2: int|
                    {
                        &&& 0 <= k2 < ss0.len()
                        &&& k2 != k
                        &&& slot_empty(#[trigger] ss0[k2])
                        &&& forall|j: int|
                            0 <= j < k2 ==> !slot_empty(#[trigger] ss0[j])
                        &&& ss1 == ss0.update(k, Slot { start: ss0[k].start, end: addr as usize }
                        ).update(k2, Slot { start: (addr + size) as usize, end: ss0[k].end })
                    }
            }
        };
    assert forall|x: int| covered(ss1, x) implies (covered(ss0, x) && !(addr <= x < addr
        + size)) by {
        let j = choose|j: int| 0 <= j < ss1.len() && (#[trigger] ss1[j]).start <= x < ss1[j].end;
        assert(ranges_disjoint(
            addr,
            addr + size,
            ss1[j].start as int,
            ss1[j].end as int,
        ));
        if addr == ss0[k].start {
            if j == k {
                assert(ss0[k].start <= x < ss0[k].end);
            } else {
                assert(ss0[j].start <= x < ss0[j].end);
            }
        } else {
            let k2 = choose|k2: int|
                {
                    &&& 0 <= k2 < ss0.len()
                    &&& k2 != k
                    &&& slot_empty(#[trigger] ss0[k2])
                    &&& forall|j2: int|
                        0 <= j2 < k2 ==> !slot_empty(#[trigger] ss0[j2])
                    &&& ss1 == ss0.update(k, Slot { start: ss0[k].start, end: addr as usize }
                    ).update(k2, Slot { start: (addr + size) as usize, end: ss0[k].end })
                };
            if j == k || j == k2 {
                assert(ss0[k].start <= x < ss0[k].end);
            } else {
                assert(ss0[j].start <= x < ss0[j].end);
            }
        }
    }
    assert forall|x: int| (covered(ss0, x) && !(addr <= x < addr + size)) implies covered(
        ss1,
        x,
    ) by {
        let j = choose|j: int| 0 <= j < ss0.len() && (#[trigger] ss0[j]).start <= x < ss0[j].end;
        if addr == ss0[k].start {
            if j == k {
                assert(ss1[k].start <= x < ss1[k].end);
            } else {
                assert(ss1[j].start <= x < ss1[j].end);
            }
        } else {
            let k2 = choose|k2: int|
                {
                    &&& 0 <= k2 < ss0.len()
                    &&& k2 != k
                    &&& slot_empty(#[trigger] ss0[k2])
                    &&& forall|j2: int|
                        0 <= j2 < k2 ==> !slot_empty(#[trigger] ss0[j2])
                    &&& ss1 == ss0.update(k, Slot { start: ss0[k].start, end: addr as usize }
                    ).update(k2, Slot { start: (addr + size) as usize, end: ss0[k].end })
                };
            if j == k {
                if x < addr {
                    assert(ss1[k].start <= x < ss1[k].end);
                } else {
                    assert(ss1[k2].start <= x < ss1[k2].end);
                }
            } else if j == k2 {
                assert(slot_empty(ss0[k2]));
            } else {
                assert(ss1[j].start <= x < ss1[j].end);
            }
        }
    }
}

} // verus!
