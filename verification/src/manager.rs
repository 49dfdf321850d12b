//! The memory manager: one region carved into growable logical buckets.
//!
//! A directory in the region's first page maps each bucket id to the ordered
//! list of pages it owns; pages of different buckets are disjoint, so each
//! bucket behaves as its own growable region.  The directory is the single
//! source of truth after a restart: `attach` rebuilds every bucket from the
//! header alone, and the header bytes determine the directory uniquely.
//!
//! The header is rewritten atomically: the new directory is first written to
//! the slot that is not live, and one final write of the slot-selector byte
//! flips it in.  At every observable point the live slot is fully valid.

use vstd::prelude::*;

use vstd::arithmetic::div_mod::lemma_fundamental_div_mod;

use crate::StoreError;
use crate::region::MAX_PAGES;
use crate::region::MemoryRegion;
use crate::region::PAGE_SIZE;

verus! {

/// How many logical buckets the directory can describe.
pub const MAX_BUCKETS: usize = 8;

/// How many pages one bucket can own; a page index fits one byte.
pub const MAX_PAGES_PER_BUCKET: usize = 64;

/// Bytes of one bucket's directory record: a count byte, then page bytes.
pub const BUCKET_REC: usize = 65;

/// Bytes of one directory slot: one record per bucket.
pub const SLOT_SIZE: usize = 520;

/// Byte offsets of the fixed header fields and the two slots.
pub const ACTIVE_OFF: usize = 5;

pub const SLOT_A: usize = 8;

pub const SLOT_B: usize = 528;

/// The magic marker and version stamped at the start of the region.
pub const MAGIC_0: u8 = 0x53;

pub const MAGIC_1: u8 = 0x4d;

pub const MAGIC_2: u8 = 0x41;

pub const MAGIC_3: u8 = 0x50;

pub const VERSION: u8 = 1;

/// The pages reserved for the header at the start of the region.
pub const HEADER_PAGES: usize = 1;

/// The directory as page-index lists, one per bucket.
pub open spec fn dv(d: Seq<Vec<u8>>) -> Seq<Seq<u8>> {
    d.map_values(|v: Vec<u8>| v@)
}

/// The base offset of the live (0) or scratch (1) slot.
pub open spec fn slot_base(active: u8) -> int {
    if active == 0 {
        SLOT_A as int
    } else {
        SLOT_B as int
    }
}

/// The header of `r` holds the magic marker, the version, the slot selector
/// `active`, and the full directory `dir` in the live slot.
pub open spec fn dir_persisted(r: Seq<u8>, dir: Seq<Seq<u8>>, active: u8) -> bool {
    &&& r.len() >= PAGE_SIZE
    &&& r[0] == MAGIC_0
    &&& r[1] == MAGIC_1
    &&& r[2] == MAGIC_2
    &&& r[3] == MAGIC_3
    &&& r[4] == VERSION
    &&& r[ACTIVE_OFF as int] == active
    &&& (active == 0 || active == 1)
    &&& forall|b: int|
        0 <= b < MAX_BUCKETS ==> r[slot_base(active) + b * BUCKET_REC] == (
        #[trigger] dir[b]).len() as u8
    &&& forall|b: int, i: int|
        0 <= b < MAX_BUCKETS && 0 <= i < dir[b].len() ==> #[trigger] dir[b][i] == r[slot_base(
            active,
        ) + b * BUCKET_REC + 1 + i]
}

/// Structural validity of a directory against a region of `rlen` bytes:
/// eight short page lists, every page inside the region and past the
/// header, and no page owned twice.
pub open spec fn dir_ok(dir: Seq<Seq<u8>>, rlen: int) -> bool {
    &&& dir.len() == MAX_BUCKETS
    &&& forall|b: int| 0 <= b < MAX_BUCKETS ==> (#[trigger] dir[b]).len() <= MAX_PAGES_PER_BUCKET
    &&& forall|b: int, i: int|
        0 <= b < MAX_BUCKETS && 0 <= i < dir[b].len() ==> HEADER_PAGES <= #[trigger] dir[b][i]
            && (dir[b][i] + 1) * PAGE_SIZE <= rlen
    &&& forall|b1: int, i1: int, b2: int, i2: int|
        0 <= b1 < MAX_BUCKETS && 0 <= i1 < dir[b1].len() && 0 <= b2 < MAX_BUCKETS && 0 <= i2
            < dir[b2].len() && (b1 != b2 || i1 != i2) ==> #[trigger] dir[b1][i1]
            != #[trigger] dir[b2][i2]
}

/// Whether the raw bytes carry some persisted, structurally valid
/// directory: what `MemoryManager::attach` accepts.
pub open spec fn has_valid_directory(r: Seq<u8>) -> bool {
    exists|d: Seq<Seq<u8>>, a: u8| #[trigger] dir_persisted(r, d, a) && dir_ok(d, r.len() as int)
}

/// The byte contents of a bucket: its pages laid end to end.
pub open spec fn bucket_view(r: Seq<u8>, pages: Seq<u8>) -> Seq<u8> {
    Seq::new(
        (pages.len() * PAGE_SIZE) as nat,
        |i: int| r[pages[i / (PAGE_SIZE as int)] * PAGE_SIZE + i % (PAGE_SIZE as int)],
    )
}

/// The memory manager: the one region, and the directory mirrored in
/// memory.  The header always holds the directory; `attach` rebuilds the
/// mirror from the bytes alone.
pub struct MemoryManager {
    pub region: MemoryRegion,
    pub dir: Vec<Vec<u8>>,
    pub active: u8,
}

impl MemoryManager {
    /// The current byte contents of bucket `b`.
    pub open spec fn bucket(&self, b: int) -> Seq<u8> {
        bucket_view(self.region@, dv(self.dir@)[b])
    }

    /// The whole raw region, as persisted.
    pub open spec fn raw(&self) -> Seq<u8> {
        self.region@
    }

    /// The manager invariant: a valid region, a valid directory, and the
    /// directory persisted in the live header slot.
    pub open spec fn inv(&self) -> bool {
        &&& self.region.inv()
        &&& dir_ok(dv(self.dir@), self.region@.len() as int)
        &&& dir_persisted(self.region@, dv(self.dir@), self.active)
    }
}

impl MemoryManager {
    /// The absolute region offset of byte `off` of bucket `b`.
    fn addr_of(&self, b: usize, off: usize) -> (addr: usize)
        requires
            self.inv(),
            b < MAX_BUCKETS,
            off < self.bucket(b as int).len(),
        ensures
            addr == dv(self.dir@)[b as int][off as int / (PAGE_SIZE as int)] * PAGE_SIZE + off
                as int % (PAGE_SIZE as int),
            PAGE_SIZE <= addr < self.region@.len(),
    {
        let ghost pages = dv(self.dir@)[b as int];
        proof {
            assert(pages == self.dir@[b as int]@);
            assert(self.bucket(b as int).len() == pages.len() * PAGE_SIZE);
            assert(off as int / (PAGE_SIZE as int) < pages.len()) by (nonlinear_arith)
                requires
                    0 <= off < pages.len() * PAGE_SIZE,
                    PAGE_SIZE > 0,
            ;
        }
        let slot = off / PAGE_SIZE;
        let rem = off % PAGE_SIZE;
        let page = self.dir[b][slot];
        proof {
            assert(pages[slot as int] == page);
            assert(HEADER_PAGES <= page && (page + 1) * PAGE_SIZE <= self.region@.len());
            assert(page as int * PAGE_SIZE + rem < (page + 1) * PAGE_SIZE);
            assert(page as int * PAGE_SIZE >= 1 * PAGE_SIZE) by (nonlinear_arith)
                requires
                    page >= 1,
            ;
        }
        page as usize * PAGE_SIZE + rem
    }

    /// The current logical length of bucket `b`, in bytes.
    pub fn bucket_len(&self, b: usize) -> (r: usize)
        requires
            self.inv(),
            b < MAX_BUCKETS,
        ensures
            r == self.bucket(b as int).len(),
    {
        proof {
            assert(dv(self.dir@)[b as int] == self.dir@[b as int]@);
            assert(self.bucket(b as int).len() == dv(self.dir@)[b as int].len() * PAGE_SIZE);
            assert(self.dir@[b as int]@.len() <= MAX_PAGES_PER_BUCKET);
        }
        self.dir[b].len() * PAGE_SIZE
    }

    /// Reads byte `off` of bucket `b`.
    pub fn read_bucket_byte(&self, b: usize, off: usize) -> (r: u8)
        requires
            self.inv(),
            b < MAX_BUCKETS,
            off < self.bucket(b as int).len(),
        ensures
            r == self.bucket(b as int)[off as int],
    {
        let addr = self.addr_of(b, off);
        self.region.read_byte(addr)
    }

    /// Writes byte `off` of bucket `b`, touching no other bucket and not
    /// the header.
    pub fn write_bucket_byte(&mut self, b: usize, off: usize, value: u8)
        requires
            old(self).inv(),
            b < MAX_BUCKETS,
            off < old(self).bucket(b as int).len(),
        ensures
            final(self).inv(),
            final(self).dir@ == old(self).dir@,
            final(self).active == old(self).active,
            final(self).region@.len() == old(self).region@.len(),
            final(self).bucket(b as int) == old(self).bucket(b as int).update(off as int, value),
            forall|b2: int| 0 <= b2 < MAX_BUCKETS && b2 != b ==> final(self).bucket(b2) == old(
                self,
            ).bucket(b2),
    {
        let addr = self.addr_of(b, off);
        let ghost r0 = self.region@;
        let ghost d = dv(self.dir@);
        let ghost pages = d[b as int];
        self.region.write_byte(addr, value);
        proof {
            let r1 = self.region@;
            let ps = PAGE_SIZE as int;
            assert(r1 == r0.update(addr as int, value));
            // the header is untouched: every header offset is below one page
            assert forall|bb: int| 0 <= bb < MAX_BUCKETS implies r1[slot_base(self.active) + bb
                * BUCKET_REC] == (#[trigger] d[bb]).len() as u8 by {
                assert(slot_base(self.active) + bb * BUCKET_REC < PAGE_SIZE);
            }
            assert forall|bb: int, i: int|
                0 <= bb < MAX_BUCKETS && 0 <= i < d[bb].len() implies #[trigger] d[bb][i]
                == r1[slot_base(self.active) + bb * BUCKET_REC + 1 + i] by {
                assert(slot_base(self.active) + bb * BUCKET_REC + 1 + i < PAGE_SIZE);
            }
            // this bucket's view gains exactly the one byte
            assert forall|j: int| 0 <= j < pages.len() * ps implies #[trigger] bucket_view(
                r1,
                pages,
            )[j] == old(self).bucket(b as int).update(off as int, value)[j] by {
                lemma_fundamental_div_mod(j, ps);
                lemma_fundamental_div_mod(off as int, ps);
                assert(0 <= j / ps < pages.len()) by (nonlinear_arith)
                    requires
                        0 <= j < pages.len() * ps,
                        ps > 0,
                ;
                let aj = pages[j / ps] * ps + j % ps;
                if j == off {
                    assert(aj == addr);
                } else {
                    if j / ps == off as int / ps {
                        assert(j % ps != off as int % ps);
                        assert(aj != addr);
                    } else {
                        assert(pages[j / ps] != pages[off as int / ps]);
                        assert(aj != addr) by (nonlinear_arith)
                            requires
                                aj == pages[j / ps] * ps + j % ps,
                                addr == pages[off as int / ps] * ps + off as int % ps,
                                pages[j / ps] != pages[off as int / ps],
                                0 <= j % ps < ps,
                                0 <= off as int % ps < ps,
                                ps > 0,
                        ;
                    }
                    assert(r1[aj] == r0[aj]);
                }
            }
            assert(bucket_view(r1, pages) =~= old(self).bucket(b as int).update(
                off as int,
                value,
            ));
            // every other bucket's pages are disjoint from the written page
            assert forall|b2: int| 0 <= b2 < MAX_BUCKETS && b2 != b implies bucket_view(
                r1,
                d[b2],
            ) == bucket_view(r0, d[b2]) by {
                let q = d[b2];
                assert forall|j: int| 0 <= j < q.len() * ps implies #[trigger] bucket_view(
                    r1,
                    q,
                )[j] == bucket_view(r0, q)[j] by {
                    assert(0 <= j / ps < q.len()) by (nonlinear_arith)
                        requires
                            0 <= j < q.len() * ps,
                            ps > 0,
                    ;
                    lemma_fundamental_div_mod(j, ps);
                    let aj = q[j / ps] * ps + j % ps;
                    assert(q[j / ps] != pages[off as int / ps]);
                    assert(aj != addr) by (nonlinear_arith)
                        requires
                            aj == q[j / ps] * ps + j % ps,
                            addr == pages[off as int / ps] * ps + off as int % ps,
                            q[j / ps] != pages[off as int / ps],
                            0 <= j % ps < ps,
                            0 <= off as int % ps < ps,
                            ps > 0,
                    ;
                    assert(r1[aj] == r0[aj]);
                }
                assert(bucket_view(r1, q) =~= bucket_view(r0, q));
            }
        }
    }
}

/// A bucket's bytes depend only on its own pages' bytes: any region change
/// confined to other offsets, or growth at the end, leaves the view intact.
pub proof fn lemma_bucket_view_stable(r1: Seq<u8>, r2: Seq<u8>, pages: Seq<u8>)
    requires
        forall|i: int| 0 <= i < pages.len() ==> 1 <= #[trigger] pages[i] && (pages[i] + 1)
            * PAGE_SIZE <= r1.len(),
        r1.len() <= r2.len(),
        forall|a: int| PAGE_SIZE <= a < r1.len() ==> r2[a] == #[trigger] r1[a],
    ensures
        bucket_view(r2, pages) == bucket_view(r1, pages),
{
    let ps = PAGE_SIZE as int;
    assert forall|j: int| 0 <= j < pages.len() * ps implies #[trigger] bucket_view(r2, pages)[j]
        == bucket_view(r1, pages)[j] by {
        assert(0 <= j / ps < pages.len()) by (nonlinear_arith)
            requires
                0 <= j < pages.len() * ps,
                ps > 0,
        ;
        lemma_fundamental_div_mod(j, ps);
        let p = pages[j / ps] as int;
        let aj = p * ps + j % ps;
        assert(ps <= aj && aj < (p + 1) * ps) by (nonlinear_arith)
            requires
                p >= 1,
                0 <= j % ps < ps,
                aj == p * ps + j % ps,
        ;
        assert(r2[aj] == r1[aj]);
    }
    assert(bucket_view(r2, pages) =~= bucket_view(r1, pages));
}

/// The header bytes determine the directory: two directories persisted in
/// the same raw bytes are the same directory, in the same slot.
pub proof fn lemma_dir_unique(r: Seq<u8>, d1: Seq<Seq<u8>>, a1: u8, d2: Seq<Seq<u8>>, a2: u8)
    requires
        dir_persisted(r, d1, a1),
        dir_persisted(r, d2, a2),
        forall|b: int| 0 <= b < MAX_BUCKETS ==> (#[trigger] d1[b]).len() <= MAX_PAGES_PER_BUCKET,
        forall|b: int| 0 <= b < MAX_BUCKETS ==> (#[trigger] d2[b]).len() <= MAX_PAGES_PER_BUCKET,
        d1.len() == MAX_BUCKETS,
        d2.len() == MAX_BUCKETS,
    ensures
        a1 == a2,
        d1 == d2,
{
    assert(a1 == r[ACTIVE_OFF as int] && a2 == r[ACTIVE_OFF as int]);
    assert forall|b: int| 0 <= b < MAX_BUCKETS implies #[trigger] d1[b] == d2[b] by {
        assert((d1[b].len() as u8) == (d2[b].len() as u8));
        assert(d1[b].len() == d2[b].len());
        assert forall|i: int| 0 <= i < d1[b].len() implies #[trigger] d1[b][i] == d2[b][i] by {
            assert(d1[b][i] == r[slot_base(a1) + b * BUCKET_REC + 1 + i]);
            assert(d2[b][i] == r[slot_base(a2) + b * BUCKET_REC + 1 + i]);
        }
        assert(d1[b] =~= d2[b]);
    }
    assert(d1 =~= d2);
}

impl MemoryManager {
    /// First-ever initialization: attaches a fresh region, reserves the
    /// header page, and writes an empty directory with the magic marker.
    pub fn init() -> (r: Result<MemoryManager, StoreError>)
        ensures
            r is Ok,
            r matches Ok(m) ==> {
                &&& m.inv()
                &&& m.raw().len() == PAGE_SIZE
                &&& forall|b: int| 0 <= b < MAX_BUCKETS ==> m.bucket(b).len() == 0
            },
    {
        let mut region = MemoryRegion::new();
        match region.grow(HEADER_PAGES) {
            Err(e) => {
                // a fresh region always has room for the one header page
                proof {
                    assert(false);
                }
                Err(StoreError::AllocationFailed)
            },
            Ok(_) => {
                region.write_byte(0, MAGIC_0);
                region.write_byte(1, MAGIC_1);
                region.write_byte(2, MAGIC_2);
                region.write_byte(3, MAGIC_3);
                region.write_byte(4, VERSION);
                region.write_byte(ACTIVE_OFF, 0);
                let mut dir: Vec<Vec<u8>> = Vec::new();
                let mut b: usize = 0;
                while b < MAX_BUCKETS
                    invariant
                        b <= MAX_BUCKETS,
                        dir@.len() == b,
                        forall|i: int| 0 <= i < b ==> (#[trigger] dir@[i])@.len() == 0,
                    decreases MAX_BUCKETS - b,
                {
                    dir.push(Vec::new());
                    b = b + 1;
                }
                let m = MemoryManager { region, dir, active: 0 };
                proof {
                    assert(dv(m.dir@).len() == MAX_BUCKETS);
                    assert forall|i: int| 0 <= i < MAX_BUCKETS implies (#[trigger] dv(m.dir@)[
                        i
                    ]).len() == 0 by {
                        assert(dv(m.dir@)[i] == m.dir@[i]@);
                    }
                    assert forall|i: int| 0 <= i < MAX_BUCKETS implies m.bucket(i).len() == 0 by {
                        assert(dv(m.dir@)[i].len() == 0);
                    }
                    assert(m.region@.len() == PAGE_SIZE);
                }
                Ok(m)
            },
        }
    }

    /// Rewrites the directory record area of the slot at `base` from the
    /// in-memory directory, touching nothing outside that slot.
    fn write_slot(&mut self, base: usize)
        requires
            old(self).region.inv(),
            old(self).region@.len() >= PAGE_SIZE,
            base == SLOT_A || base == SLOT_B,
            dv(old(self).dir@).len() == MAX_BUCKETS,
            forall|b: int| 0 <= b < MAX_BUCKETS ==> (#[trigger] dv(old(self).dir@)[b]).len()
                <= MAX_PAGES_PER_BUCKET,
        ensures
            final(self).region.inv(),
            final(self).region@.len() == old(self).region@.len(),
            final(self).dir@ == old(self).dir@,
            final(self).active == old(self).active,
            forall|a: int|
                0 <= a < old(self).region@.len() && !(base <= a < base + SLOT_SIZE)
                    ==> final(self).region@[a] == old(self).region@[a],
            forall|b: int| 0 <= b < MAX_BUCKETS ==> final(self).region@[base as int + b
                * BUCKET_REC] == (#[trigger] dv(final(self).dir@)[b]).len() as u8,
            forall|b: int, i: int|
                0 <= b < MAX_BUCKETS && 0 <= i < dv(final(self).dir@)[b].len()
                    ==> #[trigger] dv(final(self).dir@)[b][i] == final(self).region@[base as int
                    + b * BUCKET_REC + 1 + i],
    {
        let ghost d = dv(old(self).dir@);
        let mut b: usize = 0;
        while b < MAX_BUCKETS
            invariant
                b <= MAX_BUCKETS,
                self.region.inv(),
                self.region@.len() == old(self).region@.len(),
                self.region@.len() >= PAGE_SIZE,
                base == SLOT_A || base == SLOT_B,
                self.dir@ == old(self).dir@,
                self.active == old(self).active,
                d == dv(self.dir@),
                d.len() == MAX_BUCKETS,
                forall|bb: int| 0 <= bb < MAX_BUCKETS ==> (#[trigger] d[bb]).len()
                    <= MAX_PAGES_PER_BUCKET,
                forall|a: int|
                    0 <= a < old(self).region@.len() && !(base <= a < base + SLOT_SIZE)
                        ==> self.region@[a] == old(self).region@[a],
                forall|bb: int| 0 <= bb < b ==> self.region@[base as int + bb * BUCKET_REC] == (
                #[trigger] d[bb]).len() as u8,
                forall|bb: int, i: int|
                    0 <= bb < b && 0 <= i < d[bb].len() ==> #[trigger] d[bb][i]
                        == self.region@[base as int + bb * BUCKET_REC + 1 + i],
            decreases MAX_BUCKETS - b,
        {
            let cnt = self.dir[b].len();
            proof {
                assert(d[b as int] == self.dir@[b as int]@);
                assert(cnt <= MAX_PAGES_PER_BUCKET);
                assert(base + b * BUCKET_REC + BUCKET_REC <= base + SLOT_SIZE);
                assert(base + SLOT_SIZE <= PAGE_SIZE);
            }
            self.region.write_byte(base + b * BUCKET_REC, cnt as u8);
            let mut i: usize = 0;
            while i < cnt
                invariant
                    i <= cnt,
                    b < MAX_BUCKETS,
                    cnt == d[b as int].len(),
                    self.region.inv(),
                    self.region@.len() == old(self).region@.len(),
                    self.region@.len() >= PAGE_SIZE,
                    base == SLOT_A || base == SLOT_B,
                    self.dir@ == old(self).dir@,
                    self.active == old(self).active,
                    d == dv(self.dir@),
                    d.len() == MAX_BUCKETS,
                    forall|bb: int| 0 <= bb < MAX_BUCKETS ==> (#[trigger] d[bb]).len()
                        <= MAX_PAGES_PER_BUCKET,
                    forall|a: int|
                        0 <= a < old(self).region@.len() && !(base <= a < base + SLOT_SIZE)
                            ==> self.region@[a] == old(self).region@[a],
                    forall|bb: int| 0 <= bb < b ==> self.region@[base as int + bb * BUCKET_REC]
                        == (#[trigger] d[bb]).len() as u8,
                    forall|bb: int, ii: int|
                        0 <= bb < b && 0 <= ii < d[bb].len() ==> #[trigger] d[bb][ii]
                            == self.region@[base as int + bb * BUCKET_REC + 1 + ii],
                    self.region@[base as int + b * BUCKET_REC] == d[b as int].len() as u8,
                    forall|ii: int| 0 <= ii < i ==> #[trigger] d[b as int][ii]
                        == self.region@[base as int + b * BUCKET_REC + 1 + ii],
                decreases cnt - i,
            {
                proof {
                    assert(d[b as int] == self.dir@[b as int]@);
                    assert(base + b * BUCKET_REC + 1 + i < base + SLOT_SIZE);
                    assert(base + SLOT_SIZE <= PAGE_SIZE);
                }
                let v = self.dir[b][i];
                self.region.write_byte(base + b * BUCKET_REC + 1 + i, v);
                i = i + 1;
            }
            b = b + 1;
        }
    }
}

impl MemoryManager {
    /// Grows bucket `b` by one page: extends the region, appends the new
    /// page to the bucket's list, writes the new directory to the scratch
    /// slot, and flips the slot selector last, so the live directory is
    /// fully valid at every point.  Fails with `AllocationFailed`, leaving
    /// everything unchanged, when the bucket's record or the region is full.
    pub fn grow_bucket_page(&mut self, b: usize) -> (r: Result<(), StoreError>)
        requires
            old(self).inv(),
            b < MAX_BUCKETS,
        ensures
            final(self).inv(),
            match r {
                Ok(_) => {
                    &&& final(self).bucket(b as int).len() == old(self).bucket(b as int).len()
                        + PAGE_SIZE
                    &&& final(self).bucket(b as int).subrange(
                        0,
                        old(self).bucket(b as int).len() as int,
                    ) == old(self).bucket(b as int)
                    &&& forall|b2: int|
                        0 <= b2 < MAX_BUCKETS && b2 != b ==> final(self).bucket(b2) == old(
                            self,
                        ).bucket(b2)
                },
                Err(e) => {
                    &&& e == StoreError::AllocationFailed
                    &&& final(self).region@ == old(self).region@
                    &&& final(self).dir@ == old(self).dir@
                    &&& final(self).active == old(self).active
                    &&& (dv(old(self).dir@)[b as int].len() == MAX_PAGES_PER_BUCKET || old(
                        self,
                    ).region@.len() + PAGE_SIZE > MAX_PAGES * PAGE_SIZE)
                },
            },
            r is Ok ==> final(self).region@.len() == old(self).region@.len() + PAGE_SIZE,
    {
        let ghost d0 = dv(self.dir@);
        let ghost r0 = self.region@;
        let cnt = self.dir[b].len();
        proof {
            assert(d0[b as int] == self.dir@[b as int]@);
        }
        if cnt >= MAX_PAGES_PER_BUCKET {
            return Err(StoreError::AllocationFailed);
        }
        let sz = self.region.size();
        match self.region.grow(1) {
            Err(e) => {
                return Err(StoreError::AllocationFailed);
            },
            Ok(_) => {},
        }
        let ghost r1 = self.region@;
        proof {
            let glen: int = sz as int;
            assert(glen / (PAGE_SIZE as int) * (PAGE_SIZE as int) == glen) by (nonlinear_arith)
                requires
                    glen % (PAGE_SIZE as int) == 0,
                    glen >= 0,
            ;
            assert(glen / (PAGE_SIZE as int) <= MAX_PAGES - 1) by (nonlinear_arith)
                requires
                    glen + PAGE_SIZE <= MAX_PAGES * PAGE_SIZE,
                    glen / (PAGE_SIZE as int) * (PAGE_SIZE as int) == glen,
            ;
            assert(glen >= PAGE_SIZE);
            assert(glen / (PAGE_SIZE as int) >= 1) by (nonlinear_arith)
                requires
                    glen >= PAGE_SIZE,
                    glen / (PAGE_SIZE as int) * (PAGE_SIZE as int) == glen,
                    glen / (PAGE_SIZE as int) >= 0,
            ;
        }
        let newpage = sz / PAGE_SIZE;
        // copy out, extend, and swap back this bucket's page list
        let mut pv: Vec<u8> = Vec::new();
        let mut i: usize = 0;
        proof {
            assert(dv(self.dir@).len() == self.dir@.len());
            assert(pv@ =~= self.dir@[b as int]@.subrange(0, 0));
        }
        while i < cnt
            invariant
                i <= cnt,
                b < MAX_BUCKETS,
                self.dir@.len() == MAX_BUCKETS,
                cnt == self.dir@[b as int]@.len(),
                pv@ == self.dir@[b as int]@.subrange(0, i as int),
            decreases cnt - i,
        {
            pv.push(self.dir[b][i]);
            proof {
                assert(pv@ =~= self.dir@[b as int]@.subrange(0, i + 1));
            }
            i = i + 1;
        }
        proof {
            assert(pv@ =~= self.dir@[b as int]@);
        }
        pv.push(newpage as u8);
        self.dir.set(b, pv);
        let ghost d1 = dv(self.dir@);
        proof {
            assert forall|bb: int| 0 <= bb < MAX_BUCKETS implies #[trigger] d1[bb] == if bb == b {
                d0[bb].push((newpage as u8))
            } else {
                d0[bb]
            } by {
                assert(d1[bb] == self.dir@[bb]@);
                assert(d0[bb] == old(self).dir@[bb]@);
            }
        }
        // write the whole new directory into the scratch slot, then flip
        let newactive: u8 = if self.active == 0 {
            1
        } else {
            0
        };
        let scratch: usize = if newactive == 0 {
            SLOT_A
        } else {
            SLOT_B
        };
        let ghost live: int = slot_base(self.active);
        proof {
            assert(scratch == SLOT_A || scratch == SLOT_B);
            assert(live + SLOT_SIZE <= scratch || scratch + SLOT_SIZE <= live);
        }
        self.write_slot(scratch);
        let ghost r2 = self.region@;
        self.region.write_byte(ACTIVE_OFF, newactive);
        self.active = newactive;
        let ghost r3 = self.region@;
        proof {
            let ps = PAGE_SIZE as int;
            // directory validity with the one new page
            assert(d1.len() == MAX_BUCKETS);
            assert(newpage * PAGE_SIZE == sz);
            assert forall|bb: int, ii: int|
                0 <= bb < MAX_BUCKETS && 0 <= ii < d1[bb].len() implies HEADER_PAGES
                <= #[trigger] d1[bb][ii] && (d1[bb][ii] + 1) * ps <= r3.len() by {
                if bb == b && ii == d1[bb].len() - 1 {
                    assert(d1[bb][ii] == newpage as u8);
                    assert((newpage + 1) * ps == sz + ps);
                } else {
                    assert(d1[bb][ii] == d0[bb][ii]);
                    assert((d0[bb][ii] + 1) * ps <= r0.len());
                }
            }
            assert forall|b1: int, i1: int, b2: int, i2: int|
                0 <= b1 < MAX_BUCKETS && 0 <= i1 < d1[b1].len() && 0 <= b2 < MAX_BUCKETS && 0
                    <= i2 < d1[b2].len() && (b1 != b2 || i1 != i2) implies #[trigger] d1[b1][i1]
                != #[trigger] d1[b2][i2] by {
                let n1 = b1 == b && i1 == d1[b1].len() - 1;
                let n2 = b2 == b && i2 == d1[b2].len() - 1;
                if n1 && !n2 {
                    assert(d1[b2][i2] == d0[b2][i2]);
                    assert((d0[b2][i2] + 1) * ps <= r0.len());
                    assert(d0[b2][i2] < newpage) by (nonlinear_arith)
                        requires
                            (d0[b2][i2] + 1) * ps <= newpage * ps,
                            ps > 0,
                    ;
                } else if !n1 && n2 {
                    assert(d1[b1][i1] == d0[b1][i1]);
                    assert((d0[b1][i1] + 1) * ps <= r0.len());
                    assert(d0[b1][i1] < newpage) by (nonlinear_arith)
                        requires
                            (d0[b1][i1] + 1) * ps <= newpage * ps,
                            ps > 0,
                    ;
                } else if !n1 && !n2 {
                    assert(d1[b1][i1] == d0[b1][i1]);
                    assert(d1[b2][i2] == d0[b2][i2]);
                }
            }
            // the persisted header: magic and version untouched, selector
            // flipped, and the scratch slot now live with the new directory
            assert(r3.len() >= PAGE_SIZE);
            assert(slot_base(newactive) == scratch as int);
            assert forall|bb: int| 0 <= bb < MAX_BUCKETS implies r3[scratch as int + bb
                * BUCKET_REC] == (#[trigger] d1[bb]).len() as u8 by {
                assert(scratch as int + bb * BUCKET_REC != ACTIVE_OFF as int);
                assert(r3[scratch as int + bb * BUCKET_REC] == r2[scratch as int + bb
                    * BUCKET_REC]);
            }
            assert forall|bb: int, ii: int|
                0 <= bb < MAX_BUCKETS && 0 <= ii < d1[bb].len() implies #[trigger] d1[bb][ii]
                == r3[scratch as int + bb * BUCKET_REC + 1 + ii] by {
                assert(scratch as int + bb * BUCKET_REC + 1 + ii != ACTIVE_OFF as int);
                assert(r3[scratch as int + bb * BUCKET_REC + 1 + ii] == r2[scratch as int + bb
                    * BUCKET_REC + 1 + ii]);
            }
            assert(dir_persisted(r3, d1, newactive));
            // bucket views: every page's bytes are untouched by the header
            // writes, and the grown region keeps the old bytes
            assert forall|a: int| ps <= a < r0.len() implies r3[a] == #[trigger] r0[a] by {
                assert(r1[a] == r0[a]);
                assert(!(scratch <= a < scratch + SLOT_SIZE));
                assert(r2[a] == r1[a]);
                assert(a != ACTIVE_OFF as int);
            }
            assert forall|b2: int| 0 <= b2 < MAX_BUCKETS && b2 != b implies final(self).bucket(
                b2,
            ) == old(self).bucket(b2) by {
                assert(d1[b2] == d0[b2]);
                lemma_bucket_view_stable(r0, r3, d0[b2]);
            }
            // this bucket: the old prefix is intact and one page is added
            let pnew = d1[b as int];
            let pold = d0[b as int];
            assert(pnew == pold.push(newpage as u8));
            assert(final(self).bucket(b as int).len() == old(self).bucket(b as int).len() + ps);
            assert forall|j: int| 0 <= j < pold.len() * ps implies #[trigger] final(self).bucket(
                b as int,
            )[j] == old(self).bucket(b as int)[j] by {
                assert(0 <= j / ps < pold.len()) by (nonlinear_arith)
                    requires
                        0 <= j < pold.len() * ps,
                        ps > 0,
                ;
                lemma_fundamental_div_mod(j, ps);
                assert(pnew[j / ps] == pold[j / ps]);
                let p = pold[j / ps] as int;
                let aj = p * ps + j % ps;
                assert(ps <= aj && aj < (p + 1) * ps) by (nonlinear_arith)
                    requires
                        p >= 1,
                        0 <= j % ps < ps,
                        aj == p * ps + j % ps,
                ;
                assert((p + 1) * ps <= r0.len());
                assert(r3[aj] == r0[aj]);
            }
            assert(final(self).bucket(b as int).subrange(0, pold.len() * ps) =~= old(
                self,
            ).bucket(b as int));
        }
        Ok(())
    }
}


/// From a witness directory in the raw bytes, the fixed header fields are
/// pinned: used to refute every rejection of a region that does carry one.
proof fn witness_contradiction(r: Seq<u8>)
    ensures
        has_valid_directory(r) ==> {
            let (d, a) = choose|d: Seq<Seq<u8>>, a: u8| #[trigger] dir_persisted(r, d, a)
                && dir_ok(d, r.len() as int);
            &&& dir_persisted(r, d, a)
            &&& dir_ok(d, r.len() as int)
            &&& r.len() >= PAGE_SIZE
            &&& r[0] == MAGIC_0 && r[1] == MAGIC_1 && r[2] == MAGIC_2 && r[3] == MAGIC_3
            &&& r[4] == VERSION
            &&& r[ACTIVE_OFF as int] == a
            &&& (a == 0 || a == 1)
        },
{
}

/// From a witness directory, the page byte just rejected is one of the
/// witness's own pages, so it obeys the witness's bounds.
proof fn witness_page_facts(r: Seq<u8>, active: u8, b: int, i: int, p: u8)
    requires
        0 <= b < MAX_BUCKETS,
        active == r[ACTIVE_OFF as int],
        0 <= i,
        has_valid_directory(r) ==> cnt_matches(r, active, b, i),
        p == r[slot_base(active) + b * BUCKET_REC + 1 + i],
    ensures
        has_valid_directory(r) ==> HEADER_PAGES <= p && (p + 1) * PAGE_SIZE <= r.len(),
{
    if has_valid_directory(r) {
        witness_contradiction(r);
        let (d, a) = choose|d: Seq<Seq<u8>>, a: u8| #[trigger] dir_persisted(r, d, a) && dir_ok(
            d,
            r.len() as int,
        );
        assert(a == active);
        assert(r[slot_base(a) + b * BUCKET_REC] == d[b].len() as u8);
        assert(d[b].len() <= MAX_PAGES_PER_BUCKET);
        assert(i < d[b].len());
        assert(d[b][i] == r[slot_base(a) + b * BUCKET_REC + 1 + i]);
    }
}

/// The rejected index lies under the count byte the witness pins.
pub open spec fn cnt_matches(r: Seq<u8>, active: u8, b: int, i: int) -> bool {
    i < r[slot_base(active) + b * BUCKET_REC]
}

impl MemoryManager {
    /// Attaches to a previously used region: validates the magic marker and
    /// version, then rebuilds the directory purely from the header bytes.
    /// Fails with `CorruptDirectory` when the header is unreadable,
    /// version-mismatched, or structurally invalid; the process must not
    /// proceed on such a region.
    pub fn attach(region: MemoryRegion) -> (r: Result<MemoryManager, StoreError>)
        requires
            region.inv(),
        ensures
            r matches Ok(m) ==> m.inv() && m.region@ == region@,
            r matches Err(e) ==> e == StoreError::CorruptDirectory,
            has_valid_directory(region@) ==> r is Ok,
    {
        let sz = region.size();
        if sz < PAGE_SIZE {
            proof {
                witness_contradiction(region@);
            }
            return Err(StoreError::CorruptDirectory);
        }
        if region.read_byte(0) != MAGIC_0 || region.read_byte(1) != MAGIC_1 || region.read_byte(2)
            != MAGIC_2 || region.read_byte(3) != MAGIC_3 {
            proof {
                witness_contradiction(region@);
            }
            return Err(StoreError::CorruptDirectory);
        }
        if region.read_byte(4) != VERSION {
            proof {
                witness_contradiction(region@);
            }
            return Err(StoreError::CorruptDirectory);
        }
        let active = region.read_byte(ACTIVE_OFF);
        if active > 1 {
            proof {
                witness_contradiction(region@);
            }
            return Err(StoreError::CorruptDirectory);
        }
        let base: usize = if active == 0 {
            SLOT_A
        } else {
            SLOT_B
        };
        proof {
            assert(base as int == slot_base(active));
        }
        let mut dir: Vec<Vec<u8>> = Vec::new();
        let mut b: usize = 0;
        while b < MAX_BUCKETS
            invariant
                b <= MAX_BUCKETS,
                sz == region@.len(),
                sz >= PAGE_SIZE,
                base == SLOT_A || base == SLOT_B,
                base as int == slot_base(active),
                active == region@[ACTIVE_OFF as int],
                active == 0 || active == 1,
                dir@.len() == b,
                forall|bb: int| 0 <= bb < b ==> (#[trigger] dv(dir@)[bb]).len()
                    <= MAX_PAGES_PER_BUCKET,
                forall|bb: int| 0 <= bb < b ==> region@[base as int + bb * BUCKET_REC] == (
                #[trigger] dv(dir@)[bb]).len() as u8,
                forall|bb: int, ii: int|
                    0 <= bb < b && 0 <= ii < dv(dir@)[bb].len() ==> #[trigger] dv(dir@)[bb][ii]
                        == region@[base as int + bb * BUCKET_REC + 1 + ii],
                forall|bb: int, ii: int|
                    0 <= bb < b && 0 <= ii < dv(dir@)[bb].len() ==> HEADER_PAGES
                        <= #[trigger] dv(dir@)[bb][ii] && (dv(dir@)[bb][ii] + 1) * PAGE_SIZE
                        <= sz,
            decreases MAX_BUCKETS - b,
        {
            proof {
                assert(base + b * BUCKET_REC + BUCKET_REC <= base + SLOT_SIZE);
                assert(base + SLOT_SIZE <= PAGE_SIZE);
            }
            let cnt = region.read_byte(base + b * BUCKET_REC);
            if cnt as usize > MAX_PAGES_PER_BUCKET {
                proof {
                    if has_valid_directory(region@) {
                        witness_contradiction(region@);
                        let (d, a) = choose|d: Seq<Seq<u8>>, a: u8|
                            #[trigger] dir_persisted(region@, d, a) && dir_ok(
                                d,
                                region@.len() as int,
                            );
                        assert(a == active);
                        assert(region@[base as int + b * BUCKET_REC] == d[b as int].len() as u8);
                        assert(d[b as int].len() <= MAX_PAGES_PER_BUCKET);
                        assert(cnt == d[b as int].len());
                    }
                }
                return Err(StoreError::CorruptDirectory);
            }
            let mut pv: Vec<u8> = Vec::new();
            let mut i: usize = 0;
            while i < cnt as usize
                invariant
                    i <= cnt as usize,
                    cnt as usize <= MAX_PAGES_PER_BUCKET,
                    b < MAX_BUCKETS,
                    sz == region@.len(),
                    sz >= PAGE_SIZE,
                    base == SLOT_A || base == SLOT_B,
                    base as int == slot_base(active),
                    active == region@[ACTIVE_OFF as int],
                    active == 0 || active == 1,
                    cnt == region@[base as int + b * BUCKET_REC],
                    pv@.len() == i,
                    forall|ii: int| 0 <= ii < i ==> #[trigger] pv@[ii] == region@[base as int + b
                        * BUCKET_REC + 1 + ii],
                    forall|ii: int| 0 <= ii < i ==> HEADER_PAGES <= #[trigger] pv@[ii] && (
                    pv@[ii] + 1) * PAGE_SIZE <= sz,
                decreases cnt as usize - i,
            {
                proof {
                    assert(base + b * BUCKET_REC + 1 + i < base + SLOT_SIZE);
                    assert(base + SLOT_SIZE <= PAGE_SIZE);
                }
                let p = region.read_byte(base + b * BUCKET_REC + 1 + i);
                if (p as usize) < HEADER_PAGES {
                    proof {
                        witness_page_facts(region@, active, b as int, i as int, p);
                    }
                    return Err(StoreError::CorruptDirectory);
                }
                if (p as usize + 1) * PAGE_SIZE > sz {
                    proof {
                        witness_page_facts(region@, active, b as int, i as int, p);
                    }
                    return Err(StoreError::CorruptDirectory);
                }
                pv.push(p);
                i = i + 1;
            }
            let ghost pvv = pv@;
            let ghost dir0 = dir@;
            dir.push(pv);
            proof {
                assert(dv(dir@).len() == dir@.len());
                assert(dir@ == dir0.push(dir@[b as int]));
                assert(dv(dir@)[b as int] == dir@[b as int]@);
                assert(dv(dir@)[b as int] == pvv);
                assert forall|bb: int| 0 <= bb < b implies #[trigger] dv(dir@)[bb] == dv(
                    dir0,
                )[bb] by {
                    assert(dir@[bb] == dir0[bb]);
                    assert(dv(dir@)[bb] == dir@[bb]@);
                    assert(dv(dir0)[bb] == dir0[bb]@);
                }
                assert(pvv.len() == cnt as int);
                assert(region@[base as int + b * BUCKET_REC] == pvv.len() as u8);
            }
            b = b + 1;
        }
        proof {
            assert(dir_persisted(region@, dv(dir@), active));
        }
        // no page may be owned twice, nor by two buckets
        let mut seen: Vec<bool> = Vec::new();
        let mut q: usize = 0;
        while q < 256
            invariant
                q <= 256,
                seen@.len() == q,
                forall|x: int| 0 <= x < q ==> !(#[trigger] seen@[x]),
            decreases 256 - q,
        {
            seen.push(false);
            q = q + 1;
        }
        let ghost d = dv(dir@);
        let mut b2: usize = 0;
        while b2 < MAX_BUCKETS
            invariant
                b2 <= MAX_BUCKETS,
                d == dv(dir@),
                dir@.len() == MAX_BUCKETS,
                dir_persisted(region@, d, active),
                seen@.len() == 256,
                forall|bb: int| 0 <= bb < MAX_BUCKETS ==> (#[trigger] d[bb]).len()
                    <= MAX_PAGES_PER_BUCKET,
                forall|bb: int, ii: int|
                    0 <= bb < b2 && 0 <= ii < d[bb].len() ==> seen@[#[trigger] d[bb][ii] as int],
                forall|x1: int, j1: int, x2: int, j2: int|
                    0 <= x1 < b2 && 0 <= j1 < d[x1].len() && 0 <= x2 < b2 && 0 <= j2 < d[x2].len()
                        && (x1 != x2 || j1 != j2) ==> #[trigger] d[x1][j1] != #[trigger] d[x2][j2],
                forall|x: int|
                    0 <= x < 256 && #[trigger] seen@[x] ==> exists|bb: int, ii: int|
                        0 <= bb < b2 && 0 <= ii < d[bb].len() && #[trigger] d[bb][ii] == x,
            decreases MAX_BUCKETS - b2,
        {
            proof {
                assert(d[b2 as int] == dir@[b2 as int]@);
            }
            let cnt2 = dir[b2].len();
            let mut i2: usize = 0;
            while i2 < cnt2
                invariant
                    i2 <= cnt2,
                    b2 < MAX_BUCKETS,
                    d == dv(dir@),
                    dir@.len() == MAX_BUCKETS,
                    dir_persisted(region@, d, active),
                    seen@.len() == 256,
                    cnt2 == d[b2 as int].len(),
                    forall|bb: int| 0 <= bb < MAX_BUCKETS ==> (#[trigger] d[bb]).len()
                        <= MAX_PAGES_PER_BUCKET,
                    forall|bb: int, ii: int|
                        0 <= bb < b2 && 0 <= ii < d[bb].len() ==> seen@[#[trigger] d[bb][ii] as int],
                    forall|ii: int| 0 <= ii < i2 ==> seen@[#[trigger] d[b2 as int][ii] as int],
                    forall|x1: int, j1: int, x2: int, j2: int|
                        (0 <= x1 < b2 && 0 <= j1 < d[x1].len() || x1 == b2 && 0 <= j1 < i2) && (0
                            <= x2 < b2 && 0 <= j2 < d[x2].len() || x2 == b2 && 0 <= j2 < i2) && (x1
                            != x2 || j1 != j2) ==> #[trigger] d[x1][j1] != #[trigger] d[x2][j2],
                    forall|x: int|
                        0 <= x < 256 && #[trigger] seen@[x] ==> exists|bb: int, ii: int|
                            (0 <= bb < b2 && 0 <= ii < d[bb].len() || bb == b2 && 0 <= ii < i2)
                                && #[trigger] d[bb][ii] == x,
                decreases cnt2 - i2,
            {
                proof {
                    assert(d[b2 as int] == dir@[b2 as int]@);
                }
                let p2 = dir[b2][i2];
                if seen[p2 as usize] {
                    proof {
                        if has_valid_directory(region@) {
                            witness_contradiction(region@);
                            let (dwit, awit) = choose|dwit: Seq<Seq<u8>>, awit: u8|
                                #[trigger] dir_persisted(region@, dwit, awit) && dir_ok(
                                    dwit,
                                    region@.len() as int,
                                );
                            lemma_dir_unique(region@, d, active, dwit, awit);
                            let (bb, ii) = choose|bb: int, ii: int|
                                (0 <= bb < b2 && 0 <= ii < d[bb].len() || bb == b2 && 0 <= ii
                                    < i2) && #[trigger] d[bb][ii] == p2 as int;
                            assert(d[b2 as int][i2 as int] == p2);
                            assert(bb != b2 as int || ii != i2 as int);
                            assert(d[bb][ii] != d[b2 as int][i2 as int]);
                        }
                    }
                    return Err(StoreError::CorruptDirectory);
                }
                seen.set(p2 as usize, true);
                proof {
                    assert(d[b2 as int][i2 as int] == p2);
                    assert forall|x: int|
                        0 <= x < 256 && #[trigger] seen@[x] implies exists|bb: int, ii: int|
                            (0 <= bb < b2 && 0 <= ii < d[bb].len() || bb == b2 && 0 <= ii < i2
                                + 1) && #[trigger] d[bb][ii] == x by {
                        if x == p2 as int {
                            assert((0 <= b2 < b2 && 0 <= i2 < d[b2 as int].len() || b2 == b2 && 0
                                <= i2 < i2 + 1) && d[b2 as int][i2 as int] == x);
                        }
                    }
                    assert forall|x1: int, j1: int, x2: int, j2: int|
                        (0 <= x1 < b2 && 0 <= j1 < d[x1].len() || x1 == b2 && 0 <= j1 < i2 + 1)
                            && (0 <= x2 < b2 && 0 <= j2 < d[x2].len() || x2 == b2 && 0 <= j2 < i2
                            + 1) && (x1 != x2 || j1 != j2) implies #[trigger] d[x1][j1]
                        != #[trigger] d[x2][j2] by {
                        if x1 == b2 && j1 == i2 && !(x2 == b2 && j2 == i2) {
                            assert(seen@[d[x2][j2] as int]);
                            assert(d[x1][j1] == p2);
                        } else if x2 == b2 && j2 == i2 && !(x1 == b2 && j1 == i2) {
                            assert(seen@[d[x1][j1] as int]);
                            assert(d[x2][j2] == p2);
                        }
                    }
                }
                i2 = i2 + 1;
            }
            b2 = b2 + 1;
        }
        let m = MemoryManager { region, dir, active };
        proof {
            assert(dir_ok(dv(m.dir@), m.region@.len() as int));
            assert(dir_persisted(m.region@, dv(m.dir@), m.active));
        }
        Ok(m)
    }
}

} // verus!
