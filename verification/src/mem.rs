//! The scratch arena: one backing buffer that grows at its end, from which
//! limb regions are handed out one after another and never taken back one
//! by one. Dropping the arena releases them all.

use vstd::prelude::*;
use vstd::slice::slice_subrange;

verus! {

/// A run of limbs in an arena, named by where it starts and how long it is.
#[derive(Clone, Copy, Debug)]
pub struct Region {
    pub start: usize,
    pub len: usize,
}

impl Region {
    /// The two regions share no limb.
    pub open spec fn disjoint(self, other: Region) -> bool {
        self.start + self.len <= other.start || other.start + other.len <= self.start
    }
}

/// A bump allocator of limb regions.
pub struct TmpAllocator {
    backing: Vec<u64>,
}

impl TmpAllocator {
    /// All limbs handed out so far, in the order of their regions.
    pub closed spec fn limbs(&self) -> Seq<u64> {
        self.backing@
    }

    /// The region lies within what has been handed out.
    pub open spec fn holds(&self, r: Region) -> bool {
        r.start + r.len <= self.limbs().len()
    }

    /// The limbs of a region.
    pub open spec fn content(&self, r: Region) -> Seq<u64> {
        self.limbs().subrange(r.start as int, r.start + r.len)
    }

    /// An arena that has handed out nothing.
    pub fn new() -> (tmp: Self)
        ensures
            tmp.limbs().len() == 0,
    {
        TmpAllocator { backing: Vec::new() }
    }

    /// Hands out a fresh region of `n` zero limbs. It starts where the
    /// regions handed out before end, so it shares no limb with any of
    /// them, and they keep their limbs.
    pub fn allocate(&mut self, n: usize) -> (r: Region)
        requires
            old(self).limbs().len() + n <= usize::MAX,
        ensures
            r.start == old(self).limbs().len(),
            r.len == n,
            final(self).limbs().len() == old(self).limbs().len() + n,
            final(self).holds(r),
            forall|i: int| 0 <= i < n ==> #[trigger] final(self).content(r)[i] == 0,
            forall|q: Region|
                old(self).holds(q) ==> #[trigger] final(self).content(q) == old(self).content(q),
    {
        let start = self.backing.len();
        let ghost before = self.backing@;
        let mut i: usize = 0;
        while i < n
            invariant
                i <= n,
                start + n <= usize::MAX,
                self.backing.len() == start + i,
                self.backing@.subrange(0, start as int) == before,
                forall|j: int| start <= j < start + i ==> self.backing[j] == 0,
            decreases n - i,
        {
            self.backing.push(0);
            proof {
                assert(self.backing@.subrange(0, start as int) =~= before);
            }
            i += 1;
        }
        let r = Region { start, len: n };
        proof {
            assert forall|q: Region| old(self).holds(q) implies #[trigger] self.content(q) == old(
                self,
            ).content(q) by {
                assert(self.backing@.subrange(0, start as int) == before);
                assert forall|j: int| 0 <= j < q.len implies self.content(q)[j] == old(
                    self,
                ).content(q)[j] by {
                    assert(self.backing@.subrange(0, start as int)[q.start + j] == before[q.start
                        + j]);
                }
                assert(self.content(q) =~= old(self).content(q));
            }
        }
        r
    }

    /// Writes `data` over a region. Regions that share no limb with it
    /// keep theirs.
    pub fn store(&mut self, r: Region, data: &[u64])
        requires
            old(self).holds(r),
            data.len() == r.len,
        ensures
            final(self).limbs().len() == old(self).limbs().len(),
            final(self).content(r) == data@,
            forall|q: Region|
                old(self).holds(q) && q.disjoint(r) ==> #[trigger] final(self).content(q) == old(
                    self,
                ).content(q),
    {
        let ghost before = self.backing@;
        let mut i: usize = 0;
        while i < r.len
            invariant
                i <= r.len,
                r.start + r.len <= self.backing.len(),
                data.len() == r.len,
                self.backing.len() == before.len(),
                forall|j: int| 0 <= j < i ==> self.backing[r.start + j] == data[j],
                forall|j: int|
                    0 <= j < before.len() && !(r.start <= j < r.start + i) ==> self.backing[j]
                        == before[j],
            decreases r.len - i,
        {
            self.backing.set(r.start + i, data[i]);
            i += 1;
        }
        proof {
            assert(self.content(r) =~= data@);
            assert forall|q: Region| old(self).holds(q) && q.disjoint(r) implies #[trigger] self.content(
                q,
            ) == old(self).content(q) by {
                assert(self.content(q) =~= old(self).content(q));
            }
        }
    }

    /// The limbs of a region, to read.
    pub fn slice(&self, r: Region) -> (s: &[u64])
        requires
            self.holds(r),
        ensures
            s@ == self.content(r),
    {
        let total = self.backing.len();
        assert(r.start + r.len <= total);
        slice_subrange(self.backing.as_slice(), r.start, r.start + r.len)
    }
}

} // verus!
