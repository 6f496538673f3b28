//! The physical frame allocator: bump watermark plus a sorted free list.
//!
//! The allocator manages an arena `[bottom, top)` of 4 KiB-aligned physical
//! memory. `current` is the next unallocated frame address; `recycled` holds
//! the freed frame addresses below `current`, sorted ascending. Deallocating
//! coalesces trailing recycled frames back into `current`, keeping the
//! watermark tight.
//!
//! The abstract model is the set [`FrameAllocator::taken`] of outstanding
//! frame addresses: the aligned addresses of `[bottom, current)` that are not
//! recycled. Every operation's contract is stated as a change to this set,
//! and [`lemma_taken_determines_state`] shows the concrete state is a
//! function of it — which is why a sequence of allocations followed by the
//! matching deallocations always returns `current` to its original value.

use vstd::prelude::*;

use crate::align::{spec_is_aligned, lemma_aligned_gap};
use crate::constants::PAGE_SIZE;
use crate::frame::{FrameDesc, FrameRangeDesc};
use crate::paddr_range::PaddrRange;
use crate::phys_addr::PhysAddr;
use crate::phys_page::PhysPage;
use crate::phys_page_range::PhysPageRange;

verus! {

/// Whether the sequence of addresses is strictly ascending.
pub open spec fn seq_sorted(s: Seq<PhysAddr>) -> bool {
    forall|i: int, j: int| 0 <= i < j < s.len() ==> #[trigger] s[i]@ < #[trigger] s[j]@
}

/// Whether the sequence holds the address `a`.
pub open spec fn seq_has_addr(s: Seq<PhysAddr>, a: int) -> bool {
    exists|i: int| 0 <= i < s.len() && #[trigger] s[i]@ == a
}

/// The bump-plus-free-list allocator over the arena `[bottom, top)`.
pub struct FrameAllocator {
    pub top: PhysAddr,
    pub bottom: PhysAddr,
    pub current: PhysAddr,
    pub recycled: Vec<PhysAddr>,
}

impl FrameAllocator {
    /// Well-formedness: an aligned arena, a watermark inside it, and a free
    /// list that is sorted, in range, and coalesced (its last entry never
    /// touches the watermark).
    pub open spec fn wf(self) -> bool {
        &&& spec_is_aligned(self.bottom@, PAGE_SIZE as int)
        &&& spec_is_aligned(self.top@, PAGE_SIZE as int)
        &&& spec_is_aligned(self.current@, PAGE_SIZE as int)
        &&& self.bottom@ <= self.current@ <= self.top@
        &&& seq_sorted(self.recycled@)
        &&& forall|i: int|
            0 <= i < self.recycled@.len() ==> spec_is_aligned(#[trigger] self.recycled@[i]@, PAGE_SIZE as int)
                && self.bottom@ <= self.recycled@[i]@ && self.recycled@[i]@ < self.current@
        &&& self.recycled@.len() > 0 ==> self.recycled@.last()@ + PAGE_SIZE < self.current@
    }

    /// Whether `a` is a recycled frame address.
    pub open spec fn spec_recycled(self, a: int) -> bool {
        seq_has_addr(self.recycled@, a)
    }

    /// Whether `a` is a frame address below the watermark.
    pub open spec fn spec_is_frame(self, a: int) -> bool {
        self.bottom@ <= a < self.current@ && spec_is_aligned(a, PAGE_SIZE as int)
    }

    /// The outstanding frames: handed out and not yet returned.
    pub open spec fn taken(self) -> Set<int> {
        Set::new(|a: int| self.spec_is_frame(a) && !self.spec_recycled(a))
    }

    /// The number of frames still available for allocation.
    pub open spec fn spec_available(self) -> int {
        self.recycled@.len() + (self.top@ - self.current@) / (PAGE_SIZE as int)
    }

    /// Creates an allocator over the arena `[bottom, top)` with nothing
    /// allocated.
    pub fn new(top: PhysAddr, bottom: PhysAddr) -> (r: Self)
        requires
            spec_is_aligned(top@, PAGE_SIZE as int),
            spec_is_aligned(bottom@, PAGE_SIZE as int),
            bottom@ <= top@,
        ensures
            r.top == top,
            r.bottom == bottom,
            r.current == bottom,
            r.recycled@.len() == 0,
            r.taken() =~= Set::<int>::empty(),
            r.wf(),
    {
        FrameAllocator { top, bottom, current: bottom, recycled: Vec::new() }
    }

    /// The top of the arena, as a page.
    pub fn top(&self) -> (r: PhysPage)
        requires
            self.wf(),
        ensures
            r.addr == self.top,
            r.size == PAGE_SIZE,
    {
        PhysPage::new_custom_unchecked(self.top, PAGE_SIZE)
    }

    /// The bottom of the arena, as a page.
    pub fn bottom(&self) -> (r: PhysPage)
        requires
            self.wf(),
        ensures
            r.addr == self.bottom,
            r.size == PAGE_SIZE,
    {
        PhysPage::new_custom_unchecked(self.bottom, PAGE_SIZE)
    }

    /// The watermark: the lowest never-allocated frame address.
    pub fn current(&self) -> (r: PhysPage)
        requires
            self.wf(),
        ensures
            r.addr == self.current,
            r.size == PAGE_SIZE,
    {
        PhysPage::new_custom_unchecked(self.current, PAGE_SIZE)
    }

    /// True iff the range lies wholly inside the arena.
    pub fn check_paddr(&self, paddr: PaddrRange) -> (r: bool)
        ensures
            r == (paddr.start@ >= self.bottom@ && paddr.end@ <= self.top@),
    {
        paddr.start.addr >= self.bottom.addr && paddr.end.addr <= self.top.addr
    }

    /// Allocates one frame: the largest recycled address if any, otherwise
    /// the watermark. Returns `None` exactly when the arena is exhausted.
    pub fn alloc_frame(&mut self) -> (r: Option<FrameDesc>)
        requires
            old(self).wf(),
        ensures
            (final(self)).wf(),
            (final(self)).bottom == old(self).bottom,
            (final(self)).top == old(self).top,
            r is Some <==> (old(self).recycled@.len() > 0 || old(self).current@ < old(self).top@),
            r is None ==> *final(self) == *old(self),
            r is Some ==> {
                &&& !old(self).taken().contains(r->0.paddr@)
                &&& (final(self)).taken() == old(self).taken().insert(r->0.paddr@)
                &&& old(self).bottom@ <= r->0.paddr@ < old(self).top@
                &&& spec_is_aligned(r->0.paddr@, PAGE_SIZE as int)
                &&& (final(self)).spec_available() == old(self).spec_available() - 1
            },
            r is Some && old(self).recycled@.len() > 0 ==> {
                &&& r->0.paddr@ == old(self).recycled@.last()@
                &&& (final(self)).recycled@ == old(self).recycled@.drop_last()
                &&& (final(self)).current == old(self).current
            },
            r is Some && old(self).recycled@.len() == 0 ==> {
                &&& r->0.paddr@ == old(self).current@
                &&& (final(self)).recycled@.len() == 0
                &&& (final(self)).current@ == old(self).current@ + PAGE_SIZE
            },
    {
        let n = self.recycled.len();
        if n > 0 {
            let pa = self.recycled[n - 1];
            self.recycled.pop();
            proof {
                let pre = old(self);
                assert(pre.recycled@[n - 1]@ == pa@);
                assert(self.recycled@ =~= pre.recycled@.drop_last());
                assert(!pre.taken().contains(pa@));
                lemma_sorted_last_is_max(pre.recycled@);
                if self.recycled@.len() > 0 {
                    assert(self.recycled@.last() == pre.recycled@[n - 2]);
                }
                assert forall|a: int| #[trigger] self.taken().contains(a) <==> pre.taken().insert(
                    pa@,
                ).contains(a) by {
                    if a == pa@ {
                        lemma_sorted_no_dup(pre.recycled@, n - 1 as int);
                        assert(!self.spec_recycled(a));
                    } else {
                        assert(seq_has_addr(self.recycled@, a) <==> seq_has_addr(
                            pre.recycled@,
                            a,
                        )) by {
                            if seq_has_addr(pre.recycled@, a) {
                                let i = choose|i: int|
                                    0 <= i < pre.recycled@.len() && pre.recycled@[i]@ == a;
                                assert(i != n - 1);
                                assert(self.recycled@[i]@ == a);
                            }
                        }
                    }
                }
                assert(self.taken() =~= pre.taken().insert(pa@));
                vstd::arithmetic::div_mod::lemma_mod_division_less_than_divisor(
                    pre.top@ - pre.current@,
                    PAGE_SIZE as int,
                );
            }
            Some(FrameDesc::new(pa))
        } else if self.current.addr < self.top.addr {
            let pa = self.current;
            proof {
                lemma_aligned_gap(self.current@, self.top@, PAGE_SIZE as int);
            }
            self.current = PhysAddr { addr: self.current.addr + PAGE_SIZE };
            proof {
                let pre = old(self);
                assert forall|a: int| #[trigger] self.taken().contains(a) <==> pre.taken().insert(
                    pa@,
                ).contains(a) by {
                    if pre.current@ <= a < pre.current@ + PAGE_SIZE && spec_is_aligned(
                        a,
                        PAGE_SIZE as int,
                    ) && a != pa@ {
                        lemma_aligned_gap(pre.current@, a, PAGE_SIZE as int);
                    }
                }
                assert(self.taken() =~= pre.taken().insert(pa@));
                lemma_aligned_diff_div_shrinks(pre.current@, pre.top@);
            }
            Some(FrameDesc::new(pa))
        } else {
            None
        }
    }

    /// Allocates `count` individual frames, not necessarily contiguous.
    ///
    /// Availability is checked up front against
    /// `|recycled| + (top - current) / PAGE_SIZE`; when the request exceeds
    /// it, `None` is returned and no partial allocation is observable.
    pub fn alloc_frames(&mut self, count: usize) -> (r: Option<Vec<FrameDesc>>)
        requires
            old(self).wf(),
        ensures
            (final(self)).wf(),
            (final(self)).bottom == old(self).bottom,
            (final(self)).top == old(self).top,
            r is Some <==> count <= old(self).spec_available(),
            r is None ==> *final(self) == *old(self),
            r is Some ==> {
                &&& r->0.len() == count
                &&& (forall|i: int|
                    0 <= i < count ==> !old(self).taken().contains(#[trigger] r->0[i].paddr@)
                        && (final(self)).taken().contains(r->0[i].paddr@) && spec_is_aligned(
                        r->0[i].paddr@,
                        PAGE_SIZE as int,
                    ) && old(self).bottom@ <= r->0[i].paddr@ < old(self).top@)
                &&& (forall|i: int, j: int|
                    0 <= i < j < count ==> #[trigger] r->0[i].paddr@ != #[trigger] r->0[j].paddr@)
                &&& (final(self)).spec_available() == old(self).spec_available() - count
            },
    {
        proof {
            vstd::arithmetic::div_mod::lemma_div_pos_is_pos(
                old(self).top@ - old(self).current@,
                PAGE_SIZE as int,
            );
        }
        let quot: usize = (self.top.addr - self.current.addr) / PAGE_SIZE;
        if count > self.recycled.len() && count - self.recycled.len() > quot {
            return None;
        }
        let mut frames: Vec<FrameDesc> = Vec::new();
        let mut i: usize = 0;
        while i < count
            invariant
                i <= count,
                self.wf(),
                self.bottom == old(self).bottom,
                self.top == old(self).top,
                count <= old(self).spec_available(),
                self.spec_available() == old(self).spec_available() - i,
                frames.len() == i,
                forall|k: int|
                    0 <= k < i ==> !old(self).taken().contains(#[trigger] frames[k].paddr@)
                        && self.taken().contains(frames[k].paddr@) && spec_is_aligned(
                        frames[k].paddr@,
                        PAGE_SIZE as int,
                    ) && old(self).bottom@ <= frames[k].paddr@ < old(self).top@,
                forall|a: int|
                    old(self).taken().contains(a) ==> #[trigger] self.taken().contains(a),
                forall|k: int, l: int|
                    0 <= k < l < i ==> #[trigger] frames[k].paddr@ != #[trigger] frames[l].paddr@,
            decreases count - i,
        {
            proof {
                if self.recycled@.len() == 0 && self.current@ >= self.top@ {
                    vstd::arithmetic::div_mod::lemma_basic_div(
                        self.top@ - self.current@,
                        PAGE_SIZE as int,
                    );
                }
            }
            let ghost prev = *self;
            let frame = self.alloc_frame();
            match frame {
                Some(f) => {
                    proof {
                        assert(prev.taken().insert(f.paddr@).contains(f.paddr@));
                        assert forall|k: int| 0 <= k < i implies #[trigger] self.taken().contains(
                            frames[k].paddr@,
                        ) && frames[k].paddr@ != f.paddr@ by {
                            assert(prev.taken().contains(frames[k].paddr@));
                        }
                    }
                    frames.push(f);
                },
                None => {
                    proof {
                        assert(false);
                    }
                },
            }
            i = i + 1;
        }
        Some(frames)
    }

    /// Allocates `count` physically contiguous frames from the watermark,
    /// bypassing the free list. Returns `None` exactly when the trailing
    /// space cannot hold them.
    pub fn alloc_contiguous(&mut self, count: usize) -> (r: Option<FrameRangeDesc>)
        requires
            old(self).wf(),
        ensures
            (final(self)).wf(),
            (final(self)).bottom == old(self).bottom,
            (final(self)).top == old(self).top,
            r is Some <==> count <= (old(self).top@ - old(self).current@) / (PAGE_SIZE as int),
            r is None ==> *final(self) == *old(self),
            r is Some ==> {
                &&& r->0.range.start.addr == old(self).current
                &&& r->0.range.start.size == PAGE_SIZE
                &&& r->0.range.page_count == count
                &&& r->0.range.wf()
                &&& (final(self)).current@ == old(self).current@ + count * PAGE_SIZE
                &&& (final(self)).recycled@ == old(self).recycled@
                &&& (final(self)).taken() == old(self).taken().union(
                    Set::new(
                        |a: int|
                            old(self).current@ <= a < old(self).current@ + count * PAGE_SIZE
                                && spec_is_aligned(a, PAGE_SIZE as int),
                    ),
                )
            },
    {
        proof {
            vstd::arithmetic::div_mod::lemma_div_pos_is_pos(
                old(self).top@ - old(self).current@,
                PAGE_SIZE as int,
            );
        }
        let quot: usize = (self.top.addr - self.current.addr) / PAGE_SIZE;
        if count > quot {
            proof {
                vstd::arithmetic::div_mod::lemma_mod_division_less_than_divisor(
                    old(self).top@ - old(self).current@,
                    PAGE_SIZE as int,
                );
            }
            return None;
        }
        proof {
            lemma_aligned_diff_div_exact(self.current@, self.top@);
            let q = (old(self).top@ - old(self).current@) / (PAGE_SIZE as int);
            assert(count * PAGE_SIZE <= q * PAGE_SIZE) by (nonlinear_arith)
                requires
                    count <= q,
                    PAGE_SIZE > 0,
            ;
            assert(count * PAGE_SIZE >= 0) by (nonlinear_arith)
                requires
                    count >= 0,
                    PAGE_SIZE > 0,
            ;
        }
        let range = PhysPageRange::new(PhysPage::new_custom_unchecked(self.current, PAGE_SIZE), count);
        let pre_current = self.current;
        self.current = PhysAddr { addr: self.current.addr + count * PAGE_SIZE };
        proof {
            let pre = old(self);
            let added = Set::new(
                |a: int|
                    pre.current@ <= a < pre.current@ + count * PAGE_SIZE && spec_is_aligned(
                        a,
                        PAGE_SIZE as int,
                    ),
            );
            vstd::arithmetic::div_mod::lemma_mod_multiples_vanish(
                count as int,
                pre.current@,
                PAGE_SIZE as int,
            );
            assert((PAGE_SIZE as int) * (count as int) == (count as int) * (PAGE_SIZE as int))
                by (nonlinear_arith);
            assert(spec_is_aligned(self.current@, PAGE_SIZE as int));
            assert forall|a: int| #[trigger] self.taken().contains(a) <==> pre.taken().union(
                added,
            ).contains(a) by {}
            assert(self.taken() =~= pre.taken().union(added));
        }
        Some(FrameRangeDesc::new(range))
    }

    /// Returns one frame to the allocator.
    ///
    /// The frame must be outstanding: inside `[bottom, current)` and not
    /// already recycled. The address joins the free list, and when the top of
    /// the free list reaches `current - PAGE_SIZE`, the trailing run of
    /// recycled frames is coalesced back into the watermark.
    pub fn dealloc(&mut self, frame: FrameDesc)
        requires
            old(self).wf(),
            old(self).taken().contains(frame.paddr@),
        ensures
            (final(self)).wf(),
            (final(self)).bottom == old(self).bottom,
            (final(self)).top == old(self).top,
            (final(self)).taken() == old(self).taken().remove(frame.paddr@),
            (final(self)).current@ <= old(self).current@,
            old(self).recycled@.len() == 0 && frame.paddr@ + PAGE_SIZE == old(self).current@ ==> {
                &&& (final(self)).current == frame.paddr
                &&& (final(self)).recycled@.len() == 0
            },
            (final(self)).spec_available() == old(self).spec_available() + 1,
    {
        let pa = frame.paddr;
        frame.consume();

        // Insert into the free list, keeping it sorted.
        let mut idx: usize = 0;
        while idx < self.recycled.len() && self.recycled[idx].addr < pa.addr
            invariant
                idx <= self.recycled@.len(),
                *self == *old(self),
                forall|k: int| 0 <= k < idx ==> #[trigger] self.recycled@[k]@ < pa@,
            decreases self.recycled@.len() - idx,
        {
            idx = idx + 1;
        }
        proof {
            lemma_sorted_tail_ge(self.recycled@, idx as int);
            assert forall|k: int| idx <= k < self.recycled@.len() implies #[trigger] self.recycled@[k]@
                > pa@ by {
                assert(self.recycled@[k]@ != pa@);
            }
        }
        self.recycled.insert(idx, pa);
        proof {
            let pre = old(self);
            let s = self.recycled@;
            assert forall|i: int, j: int| 0 <= i < j < s.len() implies #[trigger] s[i]@ < #[trigger] s[j]@ by {
                if j < idx {
                } else if i < idx && j == idx {
                } else if i < idx && j > idx {
                    assert(s[i] == pre.recycled@[i]);
                    assert(s[j] == pre.recycled@[j - 1]);
                } else if i == idx {
                    assert(s[j] == pre.recycled@[j - 1]);
                } else {
                    assert(s[i] == pre.recycled@[i - 1]);
                    assert(s[j] == pre.recycled@[j - 1]);
                }
            }
            assert(seq_sorted(s));
            assert forall|a: int| seq_has_addr(s, a) <==> (seq_has_addr(pre.recycled@, a) || a
                == pa@) by {
                if seq_has_addr(s, a) {
                    let i = choose|i: int| 0 <= i < s.len() && #[trigger] s[i]@ == a;
                    if i < idx {
                        assert(s[i] == pre.recycled@[i]);
                        assert(pre.recycled@[i]@ == a);
                    } else if i == idx {
                        assert(s[i] == pa);
                    } else {
                        assert(s[i] == pre.recycled@[i - 1]);
                        assert(pre.recycled@[i - 1]@ == a);
                    }
                }
                if seq_has_addr(pre.recycled@, a) {
                    let i = choose|i: int|
                        0 <= i < pre.recycled@.len() && #[trigger] pre.recycled@[i]@ == a;
                    if i < idx {
                        assert(s[i] == pre.recycled@[i]);
                        assert(s[i]@ == a);
                    } else {
                        assert(s[i + 1] == pre.recycled@[i]);
                        assert(s[i + 1]@ == a);
                    }
                }
                if a == pa@ {
                    assert(s[idx as int]@ == a);
                }
            }
            assert(self.taken() =~= pre.taken().remove(pa@));
            if s.len() > 0 {
                assert(s.last()@ < self.current@) by {
                    if s.len() - 1 < idx {
                    } else if s.len() - 1 == idx {
                    } else {
                        assert(s.last() == pre.recycled@[s.len() - 2]);
                    }
                }
            }
        }

        let ghost target = old(self).taken().remove(pa@);
        let ghost pre_bottom = self.bottom;
        let ghost pre_top = self.top;

        // Coalesce the trailing run of recycled frames into the watermark.
        loop
            invariant
                self.bottom == pre_bottom,
                self.top == pre_top,
                spec_is_aligned(self.bottom@, PAGE_SIZE as int),
                spec_is_aligned(self.top@, PAGE_SIZE as int),
                spec_is_aligned(self.current@, PAGE_SIZE as int),
                self.bottom@ <= self.current@ <= self.top@,
                seq_sorted(self.recycled@),
                forall|i: int|
                    0 <= i < self.recycled@.len() ==> spec_is_aligned(
                        #[trigger] self.recycled@[i]@,
                        PAGE_SIZE as int,
                    ) && self.bottom@ <= self.recycled@[i]@ && self.recycled@[i]@ < self.current@,
                self.taken() == target,
                self.current@ <= old(self).current@,
                self.spec_available() == old(self).spec_available() + 1,
                old(self).recycled@.len() == 0 && pa@ + PAGE_SIZE == old(self).current@ ==> (
                self.current@ == old(self).current@ && self.recycled@ =~= seq![pa]) || (
                self.current == pa && self.recycled@.len() == 0),
            ensures
                self.recycled@.len() > 0 ==> self.recycled@.last()@ + PAGE_SIZE != self.current@,
            decreases self.recycled@.len(),
        {
            let n = self.recycled.len();
            if n == 0 {
                break;
            }
            let last = self.recycled[n - 1];
            proof {
                lemma_aligned_gap(last@, self.current@, PAGE_SIZE as int);
            }
            if last.addr + PAGE_SIZE != self.current.addr {
                break;
            }
            let ghost prev = *self;
            self.recycled.pop();
            self.current = last;
            proof {
                assert(self.recycled@ =~= prev.recycled@.drop_last());
                lemma_sorted_last_is_max(prev.recycled@);
                assert forall|a: int| #[trigger] self.taken().contains(a) <==> prev.taken().contains(
                    a,
                ) by {
                    if a == last@ {
                        assert(prev.spec_recycled(a));
                        assert(!self.spec_is_frame(a));
                    } else {
                        if prev.spec_is_frame(a) && a >= self.current@ {
                            lemma_aligned_gap(last@, a, PAGE_SIZE as int);
                            assert(a >= prev.current@);
                            assert(false);
                        }
                        assert(seq_has_addr(self.recycled@, a) <==> seq_has_addr(
                            prev.recycled@,
                            a,
                        )) by {
                            if seq_has_addr(prev.recycled@, a) {
                                let i = choose|i: int|
                                    0 <= i < prev.recycled@.len() && prev.recycled@[i]@ == a;
                                assert(i != n - 1);
                                assert(self.recycled@[i]@ == a);
                            }
                        }
                    }
                }
                assert(self.taken() =~= prev.taken());
                lemma_aligned_diff_div_grows(self.current@, prev.top@);
                if self.recycled@.len() > 0 {
                    assert(self.recycled@.last() == prev.recycled@[n - 2]);
                }
            }
        }
        proof {
            if self.recycled@.len() > 0 {
                lemma_aligned_gap(self.recycled@.last()@, self.current@, PAGE_SIZE as int);
            }
        }
    }

    /// Returns every frame of a contiguous run to the allocator.
    pub fn dealloc_range(&mut self, range: FrameRangeDesc)
        requires
            old(self).wf(),
            range.range.start.size == PAGE_SIZE,
            range.range.start.wf(),
            range.range.wf(),
            forall|a: int|
                range.range.start.addr@ <= a < range.range.spec_end_addr() && spec_is_aligned(
                    a,
                    PAGE_SIZE as int,
                ) ==> old(self).taken().contains(a),
        ensures
            (final(self)).wf(),
            (final(self)).bottom == old(self).bottom,
            (final(self)).top == old(self).top,
            (final(self)).taken() == old(self).taken().difference(
                Set::new(
                    |a: int|
                        range.range.start.addr@ <= a < range.range.spec_end_addr()
                            && spec_is_aligned(a, PAGE_SIZE as int),
                ),
            ),
    {
        let pages = range.range.iter();
        range.consume();
        let ghost range_set = Set::new(
            |a: int|
                range.range.start.addr@ <= a < range.range.spec_end_addr() && spec_is_aligned(
                    a,
                    PAGE_SIZE as int,
                ),
        );
        let ghost count = range.range.page_count as int;
        let ghost size = range.range.start.size as int;
        let ghost base = range.range.start.addr@;
        let mut i: usize = 0;
        while i < pages.len()
            invariant
                i <= pages.len(),
                self.wf(),
                self.bottom == old(self).bottom,
                self.top == old(self).top,
                pages.len() == count,
                size == PAGE_SIZE,
                base == range.range.start.addr@,
                spec_is_aligned(base, PAGE_SIZE as int),
                base + count * size <= usize::MAX,
                range_set == Set::new(
                    |a: int|
                        base <= a < base + count * size && spec_is_aligned(a, PAGE_SIZE as int),
                ),
                forall|k: int|
                    0 <= k < pages.len() ==> #[trigger] pages[k] == (PhysPage {
                        addr: PhysAddr { addr: (base + k * size) as usize },
                        size: PAGE_SIZE,
                    }),
                self.taken() == old(self).taken().difference(
                    Set::new(
                        |a: int|
                            base <= a < base + i * size && spec_is_aligned(a, PAGE_SIZE as int),
                    ),
                ),
                forall|a: int|
                    base + i * size <= a < base + count * size && spec_is_aligned(
                        a,
                        PAGE_SIZE as int,
                    ) ==> #[trigger] self.taken().contains(a),
            decreases pages.len() - i,
        {
            let page = pages[i];
            proof {
                assert(i * size + size == (i + 1) * size) by (nonlinear_arith);
                assert((i + 1) * size <= count * size) by (nonlinear_arith)
                    requires
                        i + 1 <= count,
                        size > 0,
                ;
                assert(i * size >= 0) by (nonlinear_arith)
                    requires
                        i >= 0,
                        size > 0,
                ;
                vstd::arithmetic::div_mod::lemma_mod_multiples_vanish(
                    i as int,
                    base,
                    PAGE_SIZE as int,
                );
                assert((PAGE_SIZE as int) * (i as int) == (i as int) * size) by (nonlinear_arith)
                    requires
                        size == PAGE_SIZE,
                ;
                assert(spec_is_aligned(page.addr@, PAGE_SIZE as int));
                assert(self.taken().contains(page.addr@));
            }
            let ghost prev = *self;
            self.dealloc(FrameDesc::new(page.addr));
            i = i + 1;
            proof {
                assert(self.taken() =~= old(self).taken().difference(
                    Set::new(
                        |a: int|
                            base <= a < base + i * size && spec_is_aligned(a, PAGE_SIZE as int),
                    ),
                )) by {
                    assert(self.taken() == prev.taken().remove(page.addr@));
                    assert forall|a: int|
                        base <= a < base + i * size && spec_is_aligned(a, PAGE_SIZE as int)
                            implies !(#[trigger] self.taken().contains(a)) by {
                        if a < base + (i - 1) * size {
                        } else {
                            lemma_aligned_gap_both(base + (i - 1) * size, a, PAGE_SIZE as int);
                        }
                    }
                }
                assert forall|a: int|
                    base + i * size <= a < base + count * size && spec_is_aligned(
                        a,
                        PAGE_SIZE as int,
                    ) implies #[trigger] self.taken().contains(a) by {
                    assert(prev.taken().contains(a));
                    assert(a != page.addr@);
                }
            }
        }
        proof {
            assert(i * size == count * size);
            assert(self.taken() =~= old(self).taken().difference(range_set));
        }
    }
}

/// In a strictly sorted sequence the last element is the maximum.
proof fn lemma_sorted_last_is_max(s: Seq<PhysAddr>)
    requires
        seq_sorted(s),
        s.len() > 0,
    ensures
        forall|i: int| 0 <= i < s.len() - 1 ==> #[trigger] s[i]@ < s.last()@,
{
}

/// In a strictly sorted sequence no other element equals the one at `k`.
proof fn lemma_sorted_no_dup(s: Seq<PhysAddr>, k: int)
    requires
        seq_sorted(s),
        0 <= k < s.len(),
    ensures
        forall|i: int| 0 <= i < s.len() && i != k ==> #[trigger] s[i]@ != s[k]@,
{
}

/// In a strictly sorted sequence every element from `idx` on is at least the
/// element at `idx`.
proof fn lemma_sorted_tail_ge(s: Seq<PhysAddr>, idx: int)
    requires
        seq_sorted(s),
        0 <= idx <= s.len(),
    ensures
        forall|k: int| idx <= k < s.len() ==> #[trigger] s[k]@ >= s[idx]@ || k == idx,
{
}

/// An aligned value strictly between two aligned values a whole stride apart
/// cannot exist; used to show the only aligned address in `[a, a + n)` is `a`.
proof fn lemma_aligned_gap_both(a: int, b: int, n: int)
    requires
        n > 0,
        spec_is_aligned(a, n),
        spec_is_aligned(b, n),
        a <= b,
        b < a + n,
    ensures
        a == b,
{
    if a < b {
        lemma_aligned_gap(a, b, n);
    }
}

/// Advancing the watermark by one page shrinks the free page count by one.
proof fn lemma_aligned_diff_div_shrinks(c: int, t: int)
    requires
        spec_is_aligned(c, PAGE_SIZE as int),
        spec_is_aligned(t, PAGE_SIZE as int),
        0 <= c < t,
    ensures
        (t - (c + PAGE_SIZE)) / (PAGE_SIZE as int) == (t - c) / (PAGE_SIZE as int) - 1,
        (t - c) / (PAGE_SIZE as int) > 0,
{
    lemma_aligned_diff_div_exact(c, t);
    let p = PAGE_SIZE as int;
    let q = (t - c) / p;
    assert(t - c == q * p);
    vstd::arithmetic::div_mod::lemma_div_pos_is_pos(t - c, p);
    assert(q > 0) by (nonlinear_arith)
        requires
            q * p == t - c,
            t - c > 0,
            p > 0,
            q >= 0,
    ;
    assert(t - (c + p) == (q - 1) * p) by (nonlinear_arith)
        requires
            t - c == q * p,
    ;
    vstd::arithmetic::div_mod::lemma_div_by_multiple(q - 1, p);
}

/// Retreating the watermark by one page grows the free page count by one.
proof fn lemma_aligned_diff_div_grows(c: int, t: int)
    requires
        spec_is_aligned(c, PAGE_SIZE as int),
        spec_is_aligned(t, PAGE_SIZE as int),
        0 <= c,
        c + PAGE_SIZE <= t,
    ensures
        (t - c) / (PAGE_SIZE as int) == (t - (c + PAGE_SIZE)) / (PAGE_SIZE as int) + 1,
{
    lemma_aligned_diff_div_shrinks(c, t);
}

/// The distance between two aligned addresses is a whole number of pages.
pub proof fn lemma_aligned_diff_div_exact(c: int, t: int)
    requires
        spec_is_aligned(c, PAGE_SIZE as int),
        spec_is_aligned(t, PAGE_SIZE as int),
        0 <= c <= t,
    ensures
        (t - c) % (PAGE_SIZE as int) == 0,
        t - c == ((t - c) / (PAGE_SIZE as int)) * (PAGE_SIZE as int),
{
    let p = PAGE_SIZE as int;
    let qc = c / p;
    let qt = t / p;
    vstd::arithmetic::div_mod::lemma_fundamental_div_mod(c, p);
    vstd::arithmetic::div_mod::lemma_fundamental_div_mod(t, p);
    assert(t - c == (qt - qc) * p) by (nonlinear_arith)
        requires
            c == p * qc,
            t == p * qt,
    ;
    vstd::arithmetic::div_mod::lemma_mod_multiples_basic(qt - qc, p);
    vstd::arithmetic::div_mod::lemma_fundamental_div_mod(t - c, p);
    assert((t - c) / p == qt - qc) by (nonlinear_arith)
        requires
            t - c == (qt - qc) * p,
            t - c == p * ((t - c) / p) + (t - c) % p,
            (t - c) % p == 0,
            p > 0,
    ;
}

/// Two well-formed allocator states over one arena with the same outstanding
/// set have the same watermark: the concrete state is a function of what is
/// outstanding. A sequence of allocations followed by the matching
/// deallocations therefore returns `current` to its original value.
pub proof fn lemma_taken_determines_state(s1: FrameAllocator, s2: FrameAllocator)
    requires
        s1.wf(),
        s2.wf(),
        s1.bottom == s2.bottom,
        s1.top == s2.top,
        s1.taken() == s2.taken(),
    ensures
        s1.current == s2.current,
{
    lemma_taken_bounds_current(s1, s2);
    lemma_taken_bounds_current(s2, s1);
    assert(s1.current@ == s2.current@);
    assert(s1.current == s2.current) by {
        assert(s1.current.addr == s2.current.addr);
    }
}

/// Helper: with equal outstanding sets the first watermark cannot lie below
/// the second.
proof fn lemma_taken_bounds_current(s1: FrameAllocator, s2: FrameAllocator)
    requires
        s1.wf(),
        s2.wf(),
        s1.bottom == s2.bottom,
        s1.top == s2.top,
        s1.taken() == s2.taken(),
    ensures
        s1.current@ <= s2.current@,
{
    if s1.current@ > s2.current@ {
        let a = s1.current@ - PAGE_SIZE;
        vstd::arithmetic::div_mod::lemma_mod_sub_multiples_vanish(s1.current@, PAGE_SIZE as int);
        assert(spec_is_aligned(a, PAGE_SIZE as int));
        lemma_aligned_gap(s2.current@, s1.current@, PAGE_SIZE as int);
        assert(s2.current@ <= a);
        assert(s1.bottom@ <= a);
        if s1.spec_recycled(a) {
            let i = choose|i: int| 0 <= i < s1.recycled@.len() && s1.recycled@[i]@ == a;
            lemma_sorted_last_is_max(s1.recycled@);
            assert(s1.recycled@.last()@ >= a);
            assert(false);
        }
        assert(s1.taken().contains(a));
        assert(s2.taken().contains(a));
        assert(a < s2.current@);
        assert(false);
    }
}

/// A fully returned allocator is fresh again: when nothing is outstanding,
/// the watermark sits at the bottom of the arena and the free list is empty.
pub proof fn lemma_no_taken_resets(s: FrameAllocator)
    requires
        s.wf(),
        s.taken() == Set::<int>::empty(),
    ensures
        s.current == s.bottom,
        s.recycled@.len() == 0,
{
    if s.current@ > s.bottom@ {
        let a = s.current@ - PAGE_SIZE;
        vstd::arithmetic::div_mod::lemma_mod_sub_multiples_vanish(s.current@, PAGE_SIZE as int);
        assert(spec_is_aligned(a, PAGE_SIZE as int));
        lemma_aligned_gap(s.bottom@, s.current@, PAGE_SIZE as int);
        assert(s.bottom@ <= a);
        if s.spec_recycled(a) {
            let i = choose|i: int| 0 <= i < s.recycled@.len() && s.recycled@[i]@ == a;
            lemma_sorted_last_is_max(s.recycled@);
            assert(s.recycled@.last()@ >= a);
            assert(false);
        }
        assert(s.taken().contains(a));
        assert(false);
    }
    assert(s.current == s.bottom) by {
        assert(s.current.addr == s.bottom.addr);
    }
    if s.recycled@.len() > 0 {
        assert(s.recycled@[0]@ < s.current@);
        assert(s.recycled@[0]@ >= s.bottom@);
        assert(false);
    }
}

/// Two frames allocated one after the other never share an address: the
/// first is recorded as outstanding before the second is chosen outside the
/// outstanding set.
pub proof fn lemma_two_allocs_distinct(t0: Set<int>, t1: Set<int>, a1: int, a2: int)
    requires
        !t0.contains(a1),
        t1 == t0.insert(a1),
        !t1.contains(a2),
    ensures
        a1 != a2,
{
}

} // verus!
