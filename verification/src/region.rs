//! The memory region: one flat, growable sequence of bytes.
//!
//! The region abstracts the single durable memory the host provides.  It is
//! addressed by absolute offset, read and written in fixed spans, and grown
//! by whole pages; its length is always a whole multiple of the page size
//! and never shrinks.  Reads and writes past the current end fail with
//! `OutOfBounds`; a refused growth fails with `AllocationFailed`.

use vstd::prelude::*;

use vstd::pervasive::VecAdditionalExecFns;

use crate::StoreError;

verus! {

/// The fixed page size, in bytes.
pub const PAGE_SIZE: usize = 65536;

/// The most pages a region can hold; page indices fit one byte.
pub const MAX_PAGES: usize = 255;

/// One flat, growable, byte-addressable memory region.
pub struct MemoryRegion {
    pub bytes: Vec<u8>,
}

impl MemoryRegion {
    /// The raw byte contents of the whole region.
    pub open spec fn view(&self) -> Seq<u8> {
        self.bytes@
    }

    /// The length is a whole multiple of the page size and within the
    /// addressable page range.
    pub open spec fn inv(&self) -> bool {
        &&& self.bytes@.len() as int % (PAGE_SIZE as int) == 0
        &&& self.bytes@.len() <= MAX_PAGES * PAGE_SIZE
    }

    /// A fresh, empty region.
    pub fn new() -> (r: MemoryRegion)
        ensures
            r.inv(),
            r@ == Seq::<u8>::empty(),
    {
        MemoryRegion { bytes: Vec::new() }
    }

    /// The current total size in bytes.
    pub fn size(&self) -> (r: usize)
        ensures
            r == self@.len(),
    {
        self.bytes.len()
    }

    /// Grows the region by `add_pages` whole pages of zero fill, returning
    /// the new total size; fails with `AllocationFailed`, leaving the region
    /// unchanged, when the host's page budget would be exceeded.
    pub fn grow(&mut self, add_pages: usize) -> (r: Result<usize, StoreError>)
        requires
            old(self).inv(),
        ensures
            final(self).inv(),
            match r {
                Ok(sz) => {
                    &&& final(self)@ == old(self)@ + Seq::new((add_pages * PAGE_SIZE) as nat, |i: int| 0u8)
                    &&& sz == final(self)@.len()
                },
                Err(e) => {
                    &&& e == StoreError::AllocationFailed
                    &&& final(self)@ == old(self)@
                    &&& old(self)@.len() + add_pages * PAGE_SIZE > MAX_PAGES * PAGE_SIZE
                },
            },
    {
        let cur = self.bytes.len();
        if add_pages > MAX_PAGES || cur / PAGE_SIZE > MAX_PAGES - add_pages {
            proof {
                let glen: int = old(self)@.len() as int;
                if glen + add_pages * PAGE_SIZE <= MAX_PAGES * PAGE_SIZE {
                    assert((cur as int) / (PAGE_SIZE as int) * (PAGE_SIZE as int) == cur as int)
                        by (nonlinear_arith)
                        requires
                            (cur as int) % (PAGE_SIZE as int) == 0,
                    ;
                    assert(false) by (nonlinear_arith)
                        requires
                            (cur as int) / (PAGE_SIZE as int) > MAX_PAGES - add_pages,
                            add_pages <= MAX_PAGES,
                            (cur as int) / (PAGE_SIZE as int) * (PAGE_SIZE as int) == cur as int,
                            cur + add_pages * PAGE_SIZE <= MAX_PAGES * PAGE_SIZE,
                    ;
                }
            }
            return Err(StoreError::AllocationFailed);
        }
        let add = add_pages * PAGE_SIZE;
        let mut i: usize = 0;
        while i < add
            invariant
                i <= add,
                add == add_pages * PAGE_SIZE,
                self.bytes@ == old(self)@ + Seq::new(i as nat, |j: int| 0u8),
            decreases add - i,
        {
            self.bytes.push(0u8);
            proof {
                assert(self.bytes@ =~= old(self)@ + Seq::new((i + 1) as nat, |j: int| 0u8));
            }
            i = i + 1;
        }
        proof {
            let glen: int = old(self)@.len() as int;
            assert((glen + add_pages * PAGE_SIZE) % (PAGE_SIZE as int) == 0) by (nonlinear_arith)
                requires
                    glen % (PAGE_SIZE as int) == 0,
            ;
            assert(glen / (PAGE_SIZE as int) * (PAGE_SIZE as int) == glen) by (nonlinear_arith)
                requires
                    glen % (PAGE_SIZE as int) == 0,
            ;
            assert(glen + add_pages * PAGE_SIZE <= MAX_PAGES * PAGE_SIZE) by (nonlinear_arith)
                requires
                    glen / (PAGE_SIZE as int) <= MAX_PAGES - add_pages,
                    add_pages <= MAX_PAGES,
                    glen >= 0,
                    glen / (PAGE_SIZE as int) * (PAGE_SIZE as int) == glen,
            ;
        }
        Ok(self.bytes.len())
    }

    /// Reads one byte at an in-bounds offset.
    pub fn read_byte(&self, offset: usize) -> (r: u8)
        requires
            offset < self@.len(),
        ensures
            r == self@[offset as int],
    {
        self.bytes[offset]
    }

    /// Writes one byte at an in-bounds offset.
    pub fn write_byte(&mut self, offset: usize, value: u8)
        requires
            old(self).inv(),
            offset < old(self)@.len(),
        ensures
            final(self).inv(),
            final(self)@ == old(self)@.update(offset as int, value),
    {
        self.bytes.set(offset, value);
    }

    /// Reads `count` bytes starting at `offset`; fails with `OutOfBounds`
    /// exactly when the span reaches past the current size.
    pub fn read(&self, offset: usize, count: usize) -> (r: Result<Vec<u8>, StoreError>)
        ensures
            r is Ok <==> offset + count <= self@.len(),
            r matches Ok(v) ==> v@ == self@.subrange(offset as int, offset as int + count as int),
            r matches Err(e) ==> e == StoreError::OutOfBounds,
    {
        let n = self.bytes.len();
        if count > n || offset > n - count {
            return Err(StoreError::OutOfBounds);
        }
        let mut out: Vec<u8> = Vec::new();
        let mut j: usize = 0;
        while j < count
            invariant
                j <= count,
                n == self.bytes@.len(),
                offset + count <= n,
                out@ == self.bytes@.subrange(offset as int, offset as int + j as int),
            decreases count - j,
        {
            out.push(self.bytes[offset + j]);
            proof {
                assert(out@ =~= self.bytes@.subrange(offset as int, offset as int + j + 1));
            }
            j = j + 1;
        }
        Ok(out)
    }

    /// Writes `data` starting at `offset`; fails with `OutOfBounds`, leaving
    /// the region unchanged, exactly when the span reaches past the current
    /// size — callers must grow first.
    pub fn write(&mut self, offset: usize, data: &Vec<u8>) -> (r: Result<(), StoreError>)
        requires
            old(self).inv(),
        ensures
            final(self).inv(),
            r is Ok <==> offset + data@.len() <= old(self)@.len(),
            final(self)@.len() == old(self)@.len(),
            r is Ok ==> final(self)@ == old(self)@.subrange(0, offset as int) + data@ + old(
                self,
            )@.subrange(offset as int + data@.len() as int, old(self)@.len() as int),
            r is Err ==> final(self)@ == old(self)@,
            r matches Err(e) ==> e == StoreError::OutOfBounds,
    {
        let n = self.bytes.len();
        let count = data.len();
        if count > n || offset > n - count {
            return Err(StoreError::OutOfBounds);
        }
        let mut j: usize = 0;
        while j < count
            invariant
                j <= count,
                count == data@.len(),
                offset + count <= old(self)@.len(),
                self.bytes@.len() == old(self)@.len(),
                self.inv(),
                forall|i: int| 0 <= i < old(self)@.len() && !(offset <= i < offset + j)
                    ==> self.bytes@[i] == old(self)@[i],
                forall|i: int| offset <= i < offset + j ==> self.bytes@[i] == data@[i - offset],
            decreases count - j,
        {
            self.bytes.set(offset + j, data[j]);
            j = j + 1;
        }
        proof {
            assert(self.bytes@ =~= old(self)@.subrange(0, offset as int) + data@ + old(
                self,
            )@.subrange(offset as int + data@.len() as int, old(self)@.len() as int));
        }
        Ok(())
    }
}

} // verus!
