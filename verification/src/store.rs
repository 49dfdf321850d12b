//! The store facade: one ordered map bound to one reserved bucket.
//!
//! The facade owns the memory manager and the in-memory mirror of the map,
//! keeps the whole map persisted as a snapshot in bucket zero after every
//! successful mutation, and rebuilds the map purely from the raw bytes on
//! attach.  A missing key is a normal outcome and yields the sentinel text
//! rather than an error.

use vstd::prelude::*;

use vstd::bytes::lemma_auto_spec_u64_to_from_le_bytes;
use vstd::bytes::spec_u64_to_le_bytes;
use vstd::string::StrSliceExecFns;
use vstd::string::StringExecFns;
use vstd::utf8::decode_utf8;
use vstd::utf8::encode_utf8;
use vstd::utf8::encode_utf8_decode_utf8;
use vstd::utf8::valid_utf8;

use crate::StoreError;
use crate::btree::BTree;
use crate::btree::Entry;
use crate::btree::clone_bytes;
use crate::btree::ev;
use crate::btree::find;
use crate::btree::ins;
use crate::btree::lemma_ins_concat_right;
use crate::btree::lemma_tree_sorted;
use crate::btree::sorted;
use crate::codec::SizeClass;
use crate::codec::Storable;
use crate::codec::decode_entries;
use crate::codec::encode_entries;
use crate::codec::lemma_snapshot_enc_injective;
use crate::codec::snapshot_enc;
use crate::codec::snapshot_fits;
use crate::manager::MAX_PAGES_PER_BUCKET;
use crate::manager::dir_persisted;
use crate::manager::dv;
use crate::manager::MemoryManager;
use crate::region::MAX_PAGES;
use crate::region::PAGE_SIZE;
use crate::order::ByteOrd;
use crate::order::compare_bytes;
use crate::order::lemma_lex_transitive;
use crate::order::lex_lt;
use crate::region::MemoryRegion;

verus! {

/// The sentinel returned when a key holds no data.
pub open spec fn sentinel() -> Seq<char> {
    "No data found"@
}

/// An identifier key: an opaque short byte string owned by the caller.
pub struct Principal {
    pub bytes: Vec<u8>,
}

impl View for Principal {
    type V = Seq<u8>;

    open spec fn view(&self) -> Seq<u8> {
        self.bytes@
    }
}

impl Principal {
    /// A principal from its raw bytes.
    pub fn from_bytes(bytes: Vec<u8>) -> (r: Principal)
        ensures
            r@ == bytes@,
    {
        Principal { bytes }
    }
}

/// The one stored value type of this application: a text payload.
pub struct SimpleStorage {
    pub data: String,
}

impl View for SimpleStorage {
    type V = Seq<char>;

    open spec fn view(&self) -> Seq<char> {
        self.data@
    }
}

impl SimpleStorage {
    /// Wraps a text payload.
    pub fn new(data: String) -> (r: SimpleStorage)
        ensures
            r@ == data@,
    {
        SimpleStorage { data }
    }

    /// The stored text.
    pub fn data(&self) -> (r: &String)
        ensures
            r@ == self@,
    {
        &self.data
    }
}

/// Relies on `String::from_utf8`: it returns the string of exactly those
/// bytes when they are valid UTF-8, and refuses them otherwise.
#[verifier::external_body]
fn string_from_utf8(bytes: Vec<u8>) -> (r: Option<String>)
    ensures
        r is Some <==> valid_utf8(bytes@),
        r matches Some(s) ==> encode_utf8(s@) == bytes@,
{
    String::from_utf8(bytes).ok()
}

impl Storable for SimpleStorage {
    /// The UTF-8 bytes of the text.
    open spec fn encoding(&self) -> Seq<u8> {
        encode_utf8(self@)
    }

    open spec fn well_formed(bytes: Seq<u8>) -> bool {
        valid_utf8(bytes)
    }

    fn to_bytes(&self) -> (r: Vec<u8>)
        ensures
            r@ == self.encoding(),
    {
        self.data.as_str().as_bytes_vec()
    }

    fn from_bytes(bytes: Vec<u8>) -> (r: Result<SimpleStorage, StoreError>)
        ensures
            r is Ok <==> Self::well_formed(bytes@),
            r matches Ok(v) ==> v.encoding() == bytes@,
            r matches Err(e) ==> e == StoreError::DecodeError,
    {
        match string_from_utf8(bytes) {
            Some(data) => Ok(SimpleStorage { data }),
            None => Err(StoreError::DecodeError),
        }
    }

    fn size_class() -> SizeClass {
        SizeClass::Unbounded
    }
}

/// Round trip of the serialization contract: two values with the same
/// encoding are the same value, so decoding an encoding yields the value
/// encoded.
pub proof fn lemma_storage_round_trip(v: SimpleStorage, w: SimpleStorage)
    requires
        w.encoding() == v.encoding(),
    ensures
        w@ == v@,
{
    encode_utf8_decode_utf8(v@);
    encode_utf8_decode_utf8(w@);
    assert(decode_utf8(encode_utf8(v@)) == v@);
}


/// Exactly whether the entry list is strictly sorted by key.
fn is_sorted_strict(list: &Vec<Entry>) -> (r: bool)
    ensures
        r == sorted(ev(list@)),
{
    let ghost s = ev(list@);
    let n = list.len();
    let mut i: usize = 1;
    proof {
        assert(s.len() == list@.len());
    }
    while i < n
        invariant
            1 <= i,
            i <= n || n == 0,
            n == list@.len(),
            s == ev(list@),
            s.len() == n,
            forall|a: int, b: int| 0 <= a < b < i ==> lex_lt((#[trigger] s[a]).0, (#[trigger] s[b]).0),
        decreases n - i,
    {
        proof {
            assert(s[i - 1] == list@[i - 1]@);
            assert(s[i as int] == list@[i as int]@);
        }
        match compare_bytes(&list[i - 1].key, &list[i].key) {
            ByteOrd::Less => {
                proof {
                    assert forall|a: int, b: int| 0 <= a < b < i + 1 implies lex_lt(
                        (#[trigger] s[a]).0,
                        (#[trigger] s[b]).0,
                    ) by {
                        if b == i && a < i - 1 {
                            lemma_lex_transitive(s[a].0, s[i - 1].0, s[i as int].0);
                        }
                    }
                }
            },
            _ => {
                proof {
                    assert(!lex_lt(s[i - 1].0, s[i as int].0));
                }
                return false;
            },
        }
        i = i + 1;
    }
    true
}

/// Rebuilds a map from a strictly sorted entry list by inserting in order.
fn tree_from_sorted(list: &Vec<Entry>) -> (t: BTree)
    requires
        sorted(ev(list@)),
    ensures
        t.inv(),
        t@ == ev(list@),
{
    let ghost s = ev(list@);
    let mut tree = BTree::new();
    let n = list.len();
    let mut i: usize = 0;
    proof {
        assert(s.len() == list@.len());
        assert(tree@ =~= s.subrange(0, 0));
    }
    while i < n
        invariant
            i <= n,
            n == list@.len(),
            s == ev(list@),
            s.len() == n,
            sorted(s),
            tree.inv(),
            tree@ == s.subrange(0, i as int),
        decreases n - i,
    {
        proof {
            assert(s[i as int] == list@[i as int]@);
            let pre = s.subrange(0, i as int);
            assert forall|jj: int| 0 <= jj < pre.len() implies lex_lt(
                (#[trigger] pre[jj]).0,
                s[i as int].0,
            ) by {
                assert(pre[jj] == s[jj]);
            }
            lemma_ins_concat_right(pre, Seq::empty(), s[i as int].0, s[i as int].1);
            assert(pre + Seq::<(Seq<u8>, Seq<u8>)>::empty() =~= pre);
            assert(ins(Seq::<(Seq<u8>, Seq<u8>)>::empty(), s[i as int].0, s[i as int].1)
                =~= seq![(s[i as int].0, s[i as int].1)]);
            assert(ins(pre, s[i as int].0, s[i as int].1) =~= pre.push(
                (s[i as int].0, s[i as int].1),
            ));
            assert(pre.push((s[i as int].0, s[i as int].1)) =~= s.subrange(0, i + 1));
        }
        let e = crate::btree::clone_entry(&list[i]);
        tree.insert(e.key, e.val);
        i = i + 1;
    }
    proof {
        assert(s.subrange(0, n as int) =~= s);
    }
    tree
}

/// The bucket reserved for the one ordered map behind the facade.
pub const STORE_BUCKET: usize = 0;

/// Whether the raw bytes are the durable image of some in-sync store:
/// what `Store::attach` accepts.
pub open spec fn is_synced_image(r: Seq<u8>) -> bool {
    exists|st: Store| st.inv() && st.synced() && #[trigger] st.mgr.raw() == r
}

/// The only way persisting entries `s` can fail, given the region's and the
/// bucket's sizes: the snapshot with its length header overflows the
/// machine, exceeds what the bucket may ever own, or needs more pages than
/// the region can still supply.
pub open spec fn snapshot_cannot_fit(
    s: Seq<(Seq<u8>, Seq<u8>)>,
    region_len: int,
    bucket_len: int,
) -> bool {
    ||| 8 + snapshot_enc(s).len() > usize::MAX
    ||| 8 + snapshot_enc(s).len() > MAX_PAGES_PER_BUCKET * PAGE_SIZE
    ||| region_len + 8 + snapshot_enc(s).len() - bucket_len + PAGE_SIZE > MAX_PAGES * PAGE_SIZE
}

/// The store facade: the memory manager and the map bound to bucket zero.
pub struct Store {
    pub mgr: MemoryManager,
    pub tree: BTree,
}

impl Store {
    /// The map contents: the sorted entry sequence.
    pub open spec fn view(&self) -> Seq<(Seq<u8>, Seq<u8>)> {
        self.tree@
    }

    /// Structural invariant of the two halves.
    pub open spec fn inv(&self) -> bool {
        &&& self.mgr.inv()
        &&& self.tree.inv()
    }

    /// The durable state mirrors the map: bucket zero begins with the
    /// snapshot's length and the snapshot of the whole entry sequence.
    pub open spec fn synced(&self) -> bool {
        let s = snapshot_enc(self@);
        &&& snapshot_fits(self@)
        &&& self.mgr.bucket(STORE_BUCKET as int).len() >= 8 + s.len()
        &&& self.mgr.bucket(STORE_BUCKET as int).subrange(0, 8) == spec_u64_to_le_bytes(
            s.len() as u64,
        )
        &&& self.mgr.bucket(STORE_BUCKET as int).subrange(8, 8 + s.len() as int) == s
    }

    /// Writes `data` into bucket zero starting at `off`.
    fn write_span(&mut self, off: usize, data: &Vec<u8>)
        requires
            old(self).inv(),
            off + data@.len() <= old(self).mgr.bucket(STORE_BUCKET as int).len(),
        ensures
            final(self).inv(),
            final(self).tree == old(self).tree,
            final(self).mgr.raw().len() == old(self).mgr.raw().len(),
            final(self).mgr.bucket(STORE_BUCKET as int).len() == old(self).mgr.bucket(
                STORE_BUCKET as int,
            ).len(),
            forall|i: int|
                off <= i < off + data@.len() ==> final(self).mgr.bucket(STORE_BUCKET as int)[i]
                    == data@[i - off],
            forall|i: int|
                0 <= i < old(self).mgr.bucket(STORE_BUCKET as int).len() && !(off <= i < off
                    + data@.len()) ==> final(self).mgr.bucket(STORE_BUCKET as int)[i] == old(
                    self,
                ).mgr.bucket(STORE_BUCKET as int)[i],
    {
        let n = data.len();
        let mut j: usize = 0;
        while j < n
            invariant
                j <= n,
                n == data@.len(),
                self.inv(),
                self.tree == old(self).tree,
                self.mgr.raw().len() == old(self).mgr.raw().len(),
                off + n <= self.mgr.bucket(STORE_BUCKET as int).len(),
                self.mgr.bucket(STORE_BUCKET as int).len() == old(self).mgr.bucket(
                    STORE_BUCKET as int,
                ).len(),
                forall|i: int|
                    off <= i < off + j ==> self.mgr.bucket(STORE_BUCKET as int)[i] == data@[i
                        - off],
                forall|i: int|
                    0 <= i < old(self).mgr.bucket(STORE_BUCKET as int).len() && !(off <= i < off
                        + j) ==> self.mgr.bucket(STORE_BUCKET as int)[i] == old(self).mgr.bucket(
                        STORE_BUCKET as int,
                    )[i],
            decreases n - j,
        {
            self.mgr.write_bucket_byte(STORE_BUCKET, off + j, data[j]);
            j = j + 1;
        }
    }

    /// Persists the current map into bucket zero, growing the bucket as
    /// needed; fails with `AllocationFailed`, leaving the durable bytes as
    /// they were, when the bucket cannot grow enough.
    fn persist(&mut self) -> (r: Result<(), StoreError>)
        requires
            old(self).inv(),
        ensures
            final(self).inv(),
            final(self).tree == old(self).tree,
            match r {
                Ok(_) => final(self).synced(),
                Err(e) => e == StoreError::AllocationFailed,
            },
            // the region only ever grows
            final(self).mgr.raw().len() >= old(self).mgr.raw().len(),
            // failure comes only from genuinely exhausted capacity
            r is Err ==> snapshot_cannot_fit(
                old(self).tree@,
                old(self).mgr.raw().len() as int,
                old(self).mgr.bucket(STORE_BUCKET as int).len() as int,
            ),
            // on failure the durable bytes still hold the previous snapshot
            r is Err ==> final(self).mgr.bucket(STORE_BUCKET as int).len() >= old(
                self,
            ).mgr.bucket(STORE_BUCKET as int).len(),
            r is Err ==> final(self).mgr.bucket(STORE_BUCKET as int).subrange(
                0,
                old(self).mgr.bucket(STORE_BUCKET as int).len() as int,
            ) == old(self).mgr.bucket(STORE_BUCKET as int),
    {
        let ghost bkt0 = old(self).mgr.bucket(STORE_BUCKET as int);
        let ghost reg0 = old(self).mgr.raw().len() as int;
        proof {
            assert(bkt0.subrange(0, bkt0.len() as int) =~= bkt0);
        }
        let list = self.tree.entries();
        let payload = encode_entries(&list);
        proof {
            lemma_auto_spec_u64_to_from_le_bytes();
        }
        if payload.len() > usize::MAX - 8 {
            return Err(StoreError::AllocationFailed);
        }
        let total = 8 + payload.len();
        while self.mgr.bucket_len(STORE_BUCKET) < total
            invariant
                self.inv(),
                self.tree == old(self).tree,
                total <= usize::MAX,
                total == 8 + snapshot_enc(old(self).tree@).len(),
                bkt0 == old(self).mgr.bucket(STORE_BUCKET as int),
                reg0 == old(self).mgr.raw().len() as int,
                self.mgr.raw().len() as int == reg0 + (self.mgr.bucket(STORE_BUCKET as int).len()
                    - bkt0.len()),
                self.mgr.bucket(STORE_BUCKET as int).len() >= bkt0.len(),
                self.mgr.bucket(STORE_BUCKET as int).subrange(0, bkt0.len() as int) == bkt0,
            decreases crate::manager::MAX_PAGES_PER_BUCKET as int - crate::manager::dv(
                self.mgr.dir@,
            )[STORE_BUCKET as int].len(),
        {
            let ghost len0 = crate::manager::dv(self.mgr.dir@)[STORE_BUCKET as int].len();
            match self.mgr.grow_bucket_page(STORE_BUCKET) {
                Ok(_) => {},
                Err(_) => {
                    proof {
                        let have = self.mgr.bucket(STORE_BUCKET as int).len() as int;
                        let dlen = crate::manager::dv(self.mgr.dir@)[STORE_BUCKET as int].len();
                        assert(have == dlen * PAGE_SIZE);
                        if dlen == MAX_PAGES_PER_BUCKET {
                            assert(total > MAX_PAGES_PER_BUCKET * PAGE_SIZE);
                        } else {
                            assert(self.mgr.raw().len() + PAGE_SIZE > MAX_PAGES * PAGE_SIZE);
                            assert(reg0 + total - bkt0.len() + PAGE_SIZE > MAX_PAGES
                                * PAGE_SIZE);
                        }
                        assert(snapshot_cannot_fit(old(self).tree@, reg0, bkt0.len() as int));
                    }
                    return Err(StoreError::AllocationFailed);
                },
            }
            proof {
                let pre = old(self).mgr.bucket(STORE_BUCKET as int);
                let cur = self.mgr.bucket(STORE_BUCKET as int);
                assert(cur.subrange(0, bkt0.len() as int) =~= bkt0);
                let len1 = crate::manager::dv(self.mgr.dir@)[STORE_BUCKET as int].len();
                assert(len1 * crate::region::PAGE_SIZE == len0 * crate::region::PAGE_SIZE
                    + crate::region::PAGE_SIZE);
                assert(len1 == len0 + 1) by (nonlinear_arith)
                    requires
                        len1 * crate::region::PAGE_SIZE == len0 * crate::region::PAGE_SIZE
                            + crate::region::PAGE_SIZE,
                        crate::region::PAGE_SIZE > 0,
                ;
            }
        }
        let header = vstd::bytes::u64_to_le_bytes(payload.len() as u64);
        self.write_span(0, &header);
        self.write_span(8, &payload);
        proof {
            let s = snapshot_enc(self@);
            let bkt = self.mgr.bucket(STORE_BUCKET as int);
            assert(payload@ == s);
            assert(bkt.subrange(0, 8) =~= spec_u64_to_le_bytes(s.len() as u64));
            assert(bkt.subrange(8, 8 + s.len() as int) =~= s);
            assert(ev(list@).len() == list@.len());
        }
        Ok(())
    }

    /// First-ever start on a fresh region: an empty map, persisted.
    pub fn init() -> (r: Result<Store, StoreError>)
        ensures
            r is Ok,
            r matches Ok(st) ==> st.inv() && st.synced() && st@ == Seq::<
                (Seq<u8>, Seq<u8>),
            >::empty(),
    {
        let mgr = match MemoryManager::init() {
            Ok(m) => m,
            Err(e) => {
                proof {
                    assert(false);
                }
                return Err(StoreError::AllocationFailed);
            },
        };
        let mut st = Store { mgr, tree: BTree::new() };
        match st.persist() {
            Ok(_) => Ok(st),
            Err(e) => {
                // one header page plus the 16-byte empty snapshot always fit
                proof {
                    lemma_auto_spec_u64_to_from_le_bytes();
                    assert(snapshot_enc(Seq::<(Seq<u8>, Seq<u8>)>::empty()).len() == 8);
                    assert(false);
                }
                Err(StoreError::AllocationFailed)
            },
        }
    }

    /// Reconstructs the store purely from the raw bytes of a previously
    /// used region: validates the directory, reads the snapshot from bucket
    /// zero, and rebuilds the map.  Fails with `CorruptDirectory` on a bad
    /// header and with `DecodeError` on a snapshot that is not the encoding
    /// of a sorted entry sequence.
    pub fn attach(region: MemoryRegion) -> (r: Result<Store, StoreError>)
        requires
            region.inv(),
        ensures
            r matches Ok(st) ==> {
                &&& st.inv()
                &&& st.synced()
                &&& st.mgr.raw() == region@
            },
            r matches Err(e) ==> e == StoreError::CorruptDirectory || e
                == StoreError::DecodeError,
            is_synced_image(region@) ==> r is Ok,
    {
        let ghost wit: Store = choose|st: Store| st.inv() && st.synced() && #[trigger] st.mgr.raw()
            == region@;
        let mgr = match MemoryManager::attach(region) {
            Ok(m) => m,
            Err(e) => {
                proof {
                    if is_synced_image(region@) {
                        assert(dir_persisted(region@, dv(wit.mgr.dir@), wit.mgr.active));
                        assert(crate::manager::has_valid_directory(region@));
                    }
                }
                return Err(StoreError::CorruptDirectory);
            },
        };
        proof {
            if is_synced_image(region@) {
                assert(dir_persisted(region@, dv(wit.mgr.dir@), wit.mgr.active));
                crate::manager::lemma_dir_unique(
                    region@,
                    dv(mgr.dir@),
                    mgr.active,
                    dv(wit.mgr.dir@),
                    wit.mgr.active,
                );
                assert(mgr.bucket(STORE_BUCKET as int) == wit.mgr.bucket(STORE_BUCKET as int));
                lemma_auto_spec_u64_to_from_le_bytes();
                assert(snapshot_enc(wit@).len() >= 8);
            }
        }
        let have = mgr.bucket_len(STORE_BUCKET);
        if have < 8 {
            return Err(StoreError::DecodeError);
        }
        let mut header: Vec<u8> = Vec::new();
        let mut j: usize = 0;
        while j < 8
            invariant
                j <= 8,
                mgr.inv(),
                8 <= mgr.bucket(STORE_BUCKET as int).len(),
                header@ == mgr.bucket(STORE_BUCKET as int).subrange(0, j as int),
            decreases 8 - j,
        {
            header.push(mgr.read_bucket_byte(STORE_BUCKET, j));
            proof {
                assert(header@ =~= mgr.bucket(STORE_BUCKET as int).subrange(0, j + 1));
            }
            j = j + 1;
        }
        proof {
            lemma_auto_spec_u64_to_from_le_bytes();
        }
        let plen64 = vstd::bytes::u64_from_le_bytes(header.as_slice());
        proof {
            if is_synced_image(region@) {
                let enc = snapshot_enc(wit@);
                assert(mgr.bucket(STORE_BUCKET as int).subrange(0, 8) == spec_u64_to_le_bytes(
                    enc.len() as u64,
                ));
                assert(enc.len() + 8 <= mgr.bucket(STORE_BUCKET as int).len());
                assert(enc.len() <= u64::MAX);
                assert(plen64 == enc.len());
            }
        }
        if plen64 > (have - 8) as u64 {
            return Err(StoreError::DecodeError);
        }
        let plen = plen64 as usize;
        let mut payload: Vec<u8> = Vec::new();
        let mut k: usize = 0;
        while k < plen
            invariant
                k <= plen,
                mgr.inv(),
                8 + plen <= mgr.bucket(STORE_BUCKET as int).len(),
                payload@ == mgr.bucket(STORE_BUCKET as int).subrange(8, 8 + k as int),
            decreases plen - k,
        {
            payload.push(mgr.read_bucket_byte(STORE_BUCKET, 8 + k));
            proof {
                assert(payload@ =~= mgr.bucket(STORE_BUCKET as int).subrange(8, 8 + k + 1));
            }
            k = k + 1;
        }
        proof {
            if is_synced_image(region@) {
                let enc = snapshot_enc(wit@);
                assert(payload@ == mgr.bucket(STORE_BUCKET as int).subrange(8, 8 + enc.len() as int));
                assert(payload@ == enc);
                assert(crate::codec::is_snapshot(payload@));
            }
        }
        let list = match decode_entries(&payload) {
            Ok(l) => l,
            Err(e) => {
                return Err(StoreError::DecodeError);
            },
        };
        // the snapshot must be a sorted entry list; rebuild the map from it
        let ghost s = ev(list@);
        proof {
            if is_synced_image(region@) {
                lemma_snapshot_enc_injective(s, wit@);
                lemma_tree_sorted(wit.tree);
            }
        }
        if !is_sorted_strict(&list) {
            return Err(StoreError::DecodeError);
        }
        let tree = tree_from_sorted(&list);
        let st = Store { mgr, tree };
        proof {
            assert(st@ == s);
            assert(payload@ == snapshot_enc(s));
            let bkt = st.mgr.bucket(STORE_BUCKET as int);
            assert(bkt.subrange(0, 8) == spec_u64_to_le_bytes(plen64));
            assert(plen64 == snapshot_enc(s).len() as u64);
        }
        Ok(st)
    }
}

impl Store {
    /// Stores `data` under `principal`, replacing any previous value, and
    /// persists the whole map before returning.  Mutating path only; it
    /// succeeds whenever the new snapshot can be made to fit.  When growth
    /// is refused the failure is surfaced as `AllocationFailed` and nothing
    /// changes: the map reads as before and the durable bytes still hold
    /// the previous fully-valid snapshot.
    pub fn set_data_for_principal(&mut self, principal: &Principal, data: String) -> (r: Result<
        (),
        StoreError,
    >)
        requires
            old(self).inv(),
        ensures
            final(self).inv(),
            match r {
                Ok(_) => {
                    &&& final(self)@ == ins(old(self)@, principal@, encode_utf8(data@))
                    &&& final(self).synced()
                },
                Err(e) => {
                    &&& e == StoreError::AllocationFailed
                    &&& final(self)@ == old(self)@
                    &&& snapshot_cannot_fit(
                        ins(old(self)@, principal@, encode_utf8(data@)),
                        old(self).mgr.raw().len() as int,
                        old(self).mgr.bucket(STORE_BUCKET as int).len() as int,
                    )
                },
            },
            // the region only ever grows, in whole pages
            final(self).mgr.raw().len() >= old(self).mgr.raw().len(),
            // on failure the durable bytes still hold the previous snapshot
            r is Err ==> final(self).mgr.bucket(STORE_BUCKET as int).len() >= old(
                self,
            ).mgr.bucket(STORE_BUCKET as int).len(),
            r is Err ==> final(self).mgr.bucket(STORE_BUCKET as int).subrange(
                0,
                old(self).mgr.bucket(STORE_BUCKET as int).len() as int,
            ) == old(self).mgr.bucket(STORE_BUCKET as int),
    {
        let old_list = self.tree.entries();
        proof {
            lemma_tree_sorted(self.tree);
        }
        let value = SimpleStorage::new(data);
        let bytes = value.to_bytes();
        let key = clone_bytes(&principal.bytes);
        self.tree.insert(key, bytes);
        match self.persist() {
            Ok(_) => Ok(()),
            Err(_) => {
                // roll the in-memory mirror back to the durable state
                let restored = tree_from_sorted(&old_list);
                self.tree = restored;
                Err(StoreError::AllocationFailed)
            },
        }
    }

    /// Returns the text stored under `principal`, or the sentinel when the
    /// key holds nothing or its stored bytes do not decode.  Read-only path:
    /// never mutates storage.
    pub fn get_data_for_principal(&self, principal: &Principal) -> (r: String)
        requires
            self.inv(),
        ensures
            find(self@, principal@) is None ==> r@ == sentinel(),
            forall|v: Seq<u8>|
                find(self@, principal@) == Some(v) && valid_utf8(v) ==> encode_utf8(r@) == v,
            forall|v: Seq<u8>|
                find(self@, principal@) == Some(v) && !valid_utf8(v) ==> r@ == sentinel(),
    {
        match self.tree.get(&principal.bytes) {
            None => String::from_str("No data found"),
            Some(stored) => {
                let bytes = clone_bytes(stored);
                match SimpleStorage::from_bytes(bytes) {
                    Ok(v) => {
                        let ghost enc = v.encoding();
                        let out = v.data;
                        proof {
                            assert(encode_utf8(out@) == enc);
                        }
                        out
                    },
                    Err(_) => String::from_str("No data found"),
                }
            },
        }
    }
}

/// Restart equivalence: two stores in sync with the same raw region bytes
/// hold the same key-value pairs, so reconstructing the manager and map
/// purely from a previously used region's bytes yields the map as it was.
pub proof fn lemma_restart_equivalence(st1: Store, st2: Store)
    requires
        st1.inv(),
        st1.synced(),
        st2.inv(),
        st2.synced(),
        st1.mgr.raw() == st2.mgr.raw(),
    ensures
        st1@ == st2@,
{
    crate::manager::lemma_dir_unique(
        st1.mgr.raw(),
        crate::manager::dv(st1.mgr.dir@),
        st1.mgr.active,
        crate::manager::dv(st2.mgr.dir@),
        st2.mgr.active,
    );
    assert(st1.mgr.bucket(STORE_BUCKET as int) == st2.mgr.bucket(STORE_BUCKET as int));
    let b = st1.mgr.bucket(STORE_BUCKET as int);
    let s1 = snapshot_enc(st1@);
    let s2 = snapshot_enc(st2@);
    lemma_auto_spec_u64_to_from_le_bytes();
    assert(spec_u64_to_le_bytes(s1.len() as u64) == spec_u64_to_le_bytes(s2.len() as u64));
    assert(s1.len() == s2.len());
    assert(s1 == b.subrange(8, 8 + s1.len() as int));
    assert(s2 == b.subrange(8, 8 + s1.len() as int));
    lemma_snapshot_enc_injective(st1@, st2@);
}

} // verus!
