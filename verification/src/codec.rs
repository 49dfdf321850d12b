//! The serialization contract and the snapshot codec.
//!
//! Every stored value type declares a deterministic byte encoding through
//! [`Storable`]: `to_bytes` and `from_bytes` must round-trip, and the type
//! names its size class (fixed-width or unbounded).  The snapshot codec
//! below lays a whole entry sequence out as length-prefixed records, the
//! variable layout used for unbounded values, and its encoding is injective,
//! so the raw bytes determine the map contents.

use vstd::prelude::*;

use vstd::bytes::lemma_auto_spec_u64_to_from_le_bytes;
use vstd::bytes::spec_u64_to_le_bytes;
use vstd::bytes::u64_from_le_bytes;
use vstd::bytes::u64_to_le_bytes;

use crate::StoreError;
use crate::btree::Entry;
use crate::btree::ev;

verus! {

/// The declared size class of a value type's encoding: every value encodes
/// to exactly the given width, or widths vary and entries are stored
/// length-prefixed.
#[derive(Clone, Copy, Debug, PartialEq, Eq, Structural)]
pub enum SizeClass {
    Fixed(u64),
    Unbounded,
}

/// The serialization contract: a deterministic encoding to bytes, a
/// decoding that accepts exactly the well-formed byte strings, and a
/// declared size class.
pub trait Storable: Sized + View {
    /// The bytes `to_bytes` produces for this value.
    spec fn encoding(&self) -> Seq<u8>;

    /// Whether `bytes` is the encoding of some value of the type.
    spec fn well_formed(bytes: Seq<u8>) -> bool;

    /// Deterministic encode: equal values yield equal bytes.
    fn to_bytes(&self) -> (r: Vec<u8>)
        ensures
            r@ == self.encoding(),
    ;

    /// Decode: fails with `DecodeError` exactly on malformed input, and on
    /// success returns the value those bytes encode.
    fn from_bytes(bytes: Vec<u8>) -> (r: Result<Self, StoreError>)
        ensures
            r is Ok <==> Self::well_formed(bytes@),
            r matches Ok(v) ==> v.encoding() == bytes@,
            r matches Err(e) ==> e == StoreError::DecodeError,
    ;

    /// The declared size class of the encoding.
    fn size_class() -> SizeClass;
}

/// The encoding of one entry: length-prefixed key, length-prefixed value.
pub open spec fn enc_entry(e: (Seq<u8>, Seq<u8>)) -> Seq<u8> {
    spec_u64_to_le_bytes(e.0.len() as u64) + e.0 + spec_u64_to_le_bytes(e.1.len() as u64) + e.1
}

/// The encoding of an entry sequence, first to last.
pub open spec fn enc_entries(s: Seq<(Seq<u8>, Seq<u8>)>) -> Seq<u8>
    decreases s.len(),
{
    if s.len() == 0 {
        Seq::empty()
    } else {
        enc_entry(s[0]) + enc_entries(s.drop_first())
    }
}

/// A whole snapshot: the entry count, then the entries.
pub open spec fn snapshot_enc(s: Seq<(Seq<u8>, Seq<u8>)>) -> Seq<u8> {
    spec_u64_to_le_bytes(s.len() as u64) + enc_entries(s)
}

/// Whether `bytes` is one whole well-formed snapshot: the encoding of some
/// entry sequence whose counters fit the format.
pub open spec fn is_snapshot(bytes: Seq<u8>) -> bool {
    exists|s: Seq<(Seq<u8>, Seq<u8>)>| snapshot_fits(s) && bytes == #[trigger] snapshot_enc(s)
}

/// Machine bound: sequence and key/value lengths fit in `u64` counters.
pub open spec fn snapshot_fits(s: Seq<(Seq<u8>, Seq<u8>)>) -> bool {
    &&& s.len() <= u64::MAX
    &&& forall|i: int| 0 <= i < s.len() ==> (#[trigger] s[i]).0.len() <= u64::MAX && s[i].1.len()
        <= u64::MAX
}

/// Appends the 8-byte little-endian form of `x` to `out`.
fn push_u64(out: &mut Vec<u8>, x: u64)
    ensures
        final(out)@ == old(out)@ + spec_u64_to_le_bytes(x),
{
    proof {
        lemma_auto_spec_u64_to_from_le_bytes();
    }
    let mut b = u64_to_le_bytes(x);
    out.append(&mut b);
}

/// Appends a copy of `src` to `out`.
fn push_bytes(out: &mut Vec<u8>, src: &Vec<u8>)
    ensures
        final(out)@ == old(out)@ + src@,
{
    let n = src.len();
    let mut i: usize = 0;
    while i < n
        invariant
            i <= n,
            n == src@.len(),
            out@ == old(out)@ + src@.subrange(0, i as int),
        decreases n - i,
    {
        out.push(src[i]);
        proof {
            assert(old(out)@ + src@.subrange(0, i + 1) =~= (old(out)@ + src@.subrange(
                0,
                i as int,
            )).push(src@[i as int]));
        }
        i = i + 1;
    }
    proof {
        assert(src@.subrange(0, n as int) =~= src@);
    }
}

/// Encodes an entry list as one snapshot byte string.
pub fn encode_entries(list: &Vec<Entry>) -> (r: Vec<u8>)
    ensures
        r@ == snapshot_enc(ev(list@)),
        snapshot_fits(ev(list@)),
{
    let ghost s = ev(list@);
    let mut out: Vec<u8> = Vec::new();
    proof {
        assert(ev(list@).len() == list@.len());
    }
    push_u64(&mut out, list.len() as u64);
    let n = list.len();
    let mut i: usize = 0;
    proof {
        assert(out@ =~= spec_u64_to_le_bytes(s.len() as u64) + enc_entries(s.subrange(0, 0)));
        assert(enc_entries(s.subrange(0, 0)).len() == 0);
    }
    while i < n
        invariant
            i <= n,
            n == list@.len(),
            s == ev(list@),
            s.len() == n,
            out@ == spec_u64_to_le_bytes(s.len() as u64) + enc_entries(s.subrange(0, i as int)),
            forall|jj: int| 0 <= jj < i ==> (#[trigger] s[jj]).0.len() <= u64::MAX
                && s[jj].1.len() <= u64::MAX,
        decreases n - i,
    {
        let ghost o0 = out@;
        let e = &list[i];
        let kl = e.key.len();
        let vl = e.val.len();
        proof {
            assert(s[i as int] == list@[i as int]@);
            assert(s[i as int].0.len() == kl && s[i as int].1.len() == vl);
        }
        push_u64(&mut out, e.key.len() as u64);
        push_bytes(&mut out, &e.key);
        push_u64(&mut out, e.val.len() as u64);
        push_bytes(&mut out, &e.val);
        proof {
            assert(out@ =~= o0 + enc_entry(s[i as int]));
            lemma_enc_entries_snoc(s.subrange(0, i as int), s[i as int]);
            assert(s.subrange(0, i as int).push(s[i as int]) =~= s.subrange(0, i + 1));
            assert(out@ =~= spec_u64_to_le_bytes(s.len() as u64) + enc_entries(
                s.subrange(0, i + 1),
            ));
        }
        i = i + 1;
    }
    proof {
        assert(s.subrange(0, n as int) =~= s);
    }
    out
}

/// Appending one entry to a sequence appends its encoding to the bytes.
pub proof fn lemma_enc_entries_snoc(s: Seq<(Seq<u8>, Seq<u8>)>, e: (Seq<u8>, Seq<u8>))
    ensures
        enc_entries(s.push(e)) == enc_entries(s) + enc_entry(e),
    decreases s.len(),
{
    if s.len() == 0 {
        assert(s.push(e)[0] == e);
        assert(s.push(e).drop_first() =~= s);
        assert(enc_entries(s.push(e)) =~= enc_entries(s) + enc_entry(e));
    } else {
        assert(s.push(e)[0] == s[0]);
        assert(s.push(e).drop_first() =~= s.drop_first().push(e));
        lemma_enc_entries_snoc(s.drop_first(), e);
        assert(enc_entry(s[0]) + (enc_entries(s.drop_first()) + enc_entry(e)) =~= (enc_entry(s[0])
            + enc_entries(s.drop_first())) + enc_entry(e));
    }
}

/// Copies `count` bytes of `bytes` starting at `start`.
fn read_vec(bytes: &Vec<u8>, start: usize, count: usize) -> (r: Vec<u8>)
    requires
        start + count <= bytes@.len(),
    ensures
        r@ == bytes@.subrange(start as int, start as int + count as int),
{
    let n = bytes.len();
    proof {
        assert(bytes@.len() == n);
    }
    let mut r: Vec<u8> = Vec::new();
    let mut j: usize = 0;
    while j < count
        invariant
            j <= count,
            start + count <= bytes@.len(),
            bytes@.len() <= usize::MAX,
            r@ == bytes@.subrange(start as int, start as int + j as int),
        decreases count - j,
    {
        r.push(bytes[start + j]);
        proof {
            assert(r@ =~= bytes@.subrange(start as int, start as int + j + 1));
        }
        j = j + 1;
    }
    r
}

/// Reads the 8-byte little-endian counter at `pos`.
fn read_u64(bytes: &Vec<u8>, pos: usize) -> (x: u64)
    requires
        pos + 8 <= bytes@.len(),
    ensures
        spec_u64_to_le_bytes(x) == bytes@.subrange(pos as int, pos as int + 8),
{
    proof {
        lemma_auto_spec_u64_to_from_le_bytes();
    }
    let b = read_vec(bytes, pos, 8);
    u64_from_le_bytes(b.as_slice())
}

/// Decodes a snapshot byte string back into its entry list.  Fails with
/// `DecodeError` exactly when the bytes are not one whole well-formed
/// snapshot; on success the input is the encoding of the result.
pub fn decode_entries(bytes: &Vec<u8>) -> (r: Result<Vec<Entry>, StoreError>)
    ensures
        r matches Ok(list) ==> bytes@ == snapshot_enc(ev(list@)) && snapshot_fits(ev(list@)),
        r matches Err(e) ==> e == StoreError::DecodeError,
        is_snapshot(bytes@) ==> r is Ok,
{
    let n = bytes.len();
    if n < 8 {
        proof {
            if is_snapshot(bytes@) {
                let s = choose|s: Seq<(Seq<u8>, Seq<u8>)>| snapshot_fits(s) && bytes@
                    == #[trigger] snapshot_enc(s);
                lemma_auto_spec_u64_to_from_le_bytes();
                assert(bytes@.len() >= 8);
            }
        }
        return Err(StoreError::DecodeError);
    }
    let cnt = read_u64(bytes, 0);
    let mut list: Vec<Entry> = Vec::new();
    let mut pos: usize = 8;
    let mut i: u64 = 0;
    proof {
        assert(ev(list@).len() == 0);
        assert(enc_entries(ev(list@)).len() == 0);
        assert(bytes@.subrange(0, 8) =~= spec_u64_to_le_bytes(cnt) + enc_entries(ev(list@)));
    }
    while i < cnt
        invariant
            8 <= pos <= n,
            n == bytes@.len(),
            i <= cnt,
            i == list@.len(),
            ev(list@).len() == list@.len(),
            snapshot_fits(ev(list@)),
            spec_u64_to_le_bytes(cnt) == bytes@.subrange(0, 8),
            bytes@.subrange(0, pos as int) == spec_u64_to_le_bytes(cnt) + enc_entries(ev(list@)),
        decreases cnt - i,
    {
        let ghost s0 = ev(list@);
        if n - pos < 8 {
            proof {
                if is_snapshot(bytes@) {
                let s = choose|s: Seq<(Seq<u8>, Seq<u8>)>| snapshot_fits(s) && bytes@
                    == #[trigger] snapshot_enc(s);
                lemma_auto_spec_u64_to_from_le_bytes();
                lemma_parse_state(bytes@, s, ev(list@), cnt, pos as int);
                assert(i < s.len());
                let t = s.subrange(i as int, s.len() as int);
                lemma_enc_entries_head(t);
                let x = bytes@.subrange(pos as int, n as int);
                assert(x == enc_entries(t));
                let kl = t[0].0.len() as int;
                let vl = t[0].1.len() as int;
                assert(t[0] == s[i as int]);
                assert(kl <= u64::MAX && vl <= u64::MAX);
                    assert(x.len() >= 16);
                }
            }
            return Err(StoreError::DecodeError);
        }
        let klen64 = read_u64(bytes, pos);
        if klen64 > (n - pos - 8) as u64 {
            proof {
                if is_snapshot(bytes@) {
                let s = choose|s: Seq<(Seq<u8>, Seq<u8>)>| snapshot_fits(s) && bytes@
                    == #[trigger] snapshot_enc(s);
                lemma_auto_spec_u64_to_from_le_bytes();
                lemma_parse_state(bytes@, s, ev(list@), cnt, pos as int);
                assert(i < s.len());
                let t = s.subrange(i as int, s.len() as int);
                lemma_enc_entries_head(t);
                let x = bytes@.subrange(pos as int, n as int);
                assert(x == enc_entries(t));
                let kl = t[0].0.len() as int;
                let vl = t[0].1.len() as int;
                assert(t[0] == s[i as int]);
                assert(kl <= u64::MAX && vl <= u64::MAX);
                    assert(bytes@.subrange(pos as int, pos as int + 8) =~= x.subrange(
                        0,
                        8,
                    ));
                    assert(spec_u64_to_le_bytes(klen64) == spec_u64_to_le_bytes(
                        t[0].0.len() as u64,
                    ));
                    assert(klen64 == kl);
                    assert(x.len() >= 16 + kl);
                    assert((n - pos - 8) as u64 >= klen64 + 8);
                }
            }
            return Err(StoreError::DecodeError);
        }
        let klen = klen64 as usize;
        let key = read_vec(bytes, pos + 8, klen);
        let pos2 = pos + 8 + klen;
        if n - pos2 < 8 {
            proof {
                if is_snapshot(bytes@) {
                let s = choose|s: Seq<(Seq<u8>, Seq<u8>)>| snapshot_fits(s) && bytes@
                    == #[trigger] snapshot_enc(s);
                lemma_auto_spec_u64_to_from_le_bytes();
                lemma_parse_state(bytes@, s, ev(list@), cnt, pos as int);
                assert(i < s.len());
                let t = s.subrange(i as int, s.len() as int);
                lemma_enc_entries_head(t);
                let x = bytes@.subrange(pos as int, n as int);
                assert(x == enc_entries(t));
                let kl = t[0].0.len() as int;
                let vl = t[0].1.len() as int;
                assert(t[0] == s[i as int]);
                assert(kl <= u64::MAX && vl <= u64::MAX);
                    assert(bytes@.subrange(pos as int, pos as int + 8) =~= x.subrange(
                        0,
                        8,
                    ));
                    assert(klen64 == kl);
                    assert(x.len() >= 16 + kl + vl);
                    assert(n - pos2 >= 8);
                }
            }
            return Err(StoreError::DecodeError);
        }
        let vlen64 = read_u64(bytes, pos2);
        if vlen64 > (n - pos2 - 8) as u64 {
            proof {
                if is_snapshot(bytes@) {
                let s = choose|s: Seq<(Seq<u8>, Seq<u8>)>| snapshot_fits(s) && bytes@
                    == #[trigger] snapshot_enc(s);
                lemma_auto_spec_u64_to_from_le_bytes();
                lemma_parse_state(bytes@, s, ev(list@), cnt, pos as int);
                assert(i < s.len());
                let t = s.subrange(i as int, s.len() as int);
                lemma_enc_entries_head(t);
                let x = bytes@.subrange(pos as int, n as int);
                assert(x == enc_entries(t));
                let kl = t[0].0.len() as int;
                let vl = t[0].1.len() as int;
                assert(t[0] == s[i as int]);
                assert(kl <= u64::MAX && vl <= u64::MAX);
                    assert(bytes@.subrange(pos as int, pos as int + 8) =~= x.subrange(
                        0,
                        8,
                    ));
                    assert(klen64 == kl);
                    assert(bytes@.subrange(pos2 as int, pos2 as int + 8) =~= x.subrange(
                        8 + kl,
                        16 + kl,
                    ));
                    assert(spec_u64_to_le_bytes(vlen64) == spec_u64_to_le_bytes(
                        t[0].1.len() as u64,
                    ));
                    assert(vlen64 == vl);
                    assert(x.len() >= 16 + kl + vl);
                    assert((n - pos2 - 8) as u64 >= vlen64);
                }
            }
            return Err(StoreError::DecodeError);
        }
        let vlen = vlen64 as usize;
        let val = read_vec(bytes, pos2 + 8, vlen);
        let pos3 = pos2 + 8 + vlen;
        let ghost e = (key@, val@);
        list.push(Entry { key, val });
        proof {
            assert(ev(list@) =~= s0.push(e));
            lemma_enc_entries_snoc(s0, e);
            assert(spec_u64_to_le_bytes(klen64) == bytes@.subrange(pos as int, pos as int + 8));
            assert(e.0 == bytes@.subrange(pos as int + 8, pos2 as int));
            assert(spec_u64_to_le_bytes(vlen64) == bytes@.subrange(pos2 as int, pos2 as int + 8));
            assert(e.1 == bytes@.subrange(pos2 as int + 8, pos3 as int));
            assert(e.0.len() == klen64 && e.1.len() == vlen64);
            assert(enc_entry(e) =~= bytes@.subrange(pos as int, pos3 as int));
            assert(bytes@.subrange(0, pos3 as int) =~= bytes@.subrange(0, pos as int)
                + bytes@.subrange(pos as int, pos3 as int));
            assert(bytes@.subrange(0, pos3 as int) =~= spec_u64_to_le_bytes(cnt) + (enc_entries(s0)
                + enc_entry(e)));
        }
        pos = pos3;
        i = i + 1;
    }
    if pos != n {
        proof {
            if is_snapshot(bytes@) {
                let s = choose|s: Seq<(Seq<u8>, Seq<u8>)>| snapshot_fits(s) && bytes@
                    == #[trigger] snapshot_enc(s);
                lemma_auto_spec_u64_to_from_le_bytes();
                lemma_parse_state(bytes@, s, ev(list@), cnt, pos as int);
                assert(ev(list@).len() == s.len());
                let rest = s.subrange(s.len() as int, s.len() as int);
                assert(rest.len() == 0);
                assert(enc_entries(rest).len() == 0);
                assert(bytes@.subrange(pos as int, n as int).len() == 0);
            }
        }
        return Err(StoreError::DecodeError);
    }
    proof {
        lemma_auto_spec_u64_to_from_le_bytes();
        assert(bytes@.subrange(0, n as int) =~= bytes@);
        assert(ev(list@).len() == cnt);
        assert(bytes@ == snapshot_enc(ev(list@)));
    }
    Ok(list)
}

/// The snapshot encoding is injective: raw bytes determine the entries.
pub proof fn lemma_snapshot_enc_injective(s1: Seq<(Seq<u8>, Seq<u8>)>, s2: Seq<(Seq<u8>, Seq<u8>)>)
    requires
        snapshot_fits(s1),
        snapshot_fits(s2),
        snapshot_enc(s1) == snapshot_enc(s2),
    ensures
        s1 == s2,
{
    lemma_auto_spec_u64_to_from_le_bytes();
    let b1 = snapshot_enc(s1);
    let b2 = snapshot_enc(s2);
    assert(b1.subrange(0, 8) =~= spec_u64_to_le_bytes(s1.len() as u64));
    assert(b2.subrange(0, 8) =~= spec_u64_to_le_bytes(s2.len() as u64));
    assert(s1.len() == s2.len());
    assert(b1.subrange(8, b1.len() as int) =~= enc_entries(s1));
    assert(b2.subrange(8, b2.len() as int) =~= enc_entries(s2));
    lemma_enc_entries_injective(s1, s2);
}

/// The entry-list encoding is injective among lists of equal length.
proof fn lemma_enc_entries_injective(s1: Seq<(Seq<u8>, Seq<u8>)>, s2: Seq<(Seq<u8>, Seq<u8>)>)
    requires
        snapshot_fits(s1),
        snapshot_fits(s2),
        s1.len() == s2.len(),
        enc_entries(s1) == enc_entries(s2),
    ensures
        s1 == s2,
    decreases s1.len(),
{
    lemma_auto_spec_u64_to_from_le_bytes();
    if s1.len() == 0 {
        assert(s1 =~= s2);
    } else {
        let e1 = s1[0];
        let e2 = s2[0];
        let b = enc_entries(s1);
        let kl1 = e1.0.len() as int;
        let kl2 = e2.0.len() as int;
        assert(b.subrange(0, 8) =~= spec_u64_to_le_bytes(e1.0.len() as u64));
        assert(b.subrange(0, 8) =~= spec_u64_to_le_bytes(e2.0.len() as u64));
        assert(kl1 == kl2);
        assert(e1.0 =~= b.subrange(8, 8 + kl1));
        assert(e2.0 =~= b.subrange(8, 8 + kl1));
        let vl1 = e1.1.len() as int;
        let vl2 = e2.1.len() as int;
        assert(b.subrange(8 + kl1, 16 + kl1) =~= spec_u64_to_le_bytes(e1.1.len() as u64));
        assert(b.subrange(8 + kl1, 16 + kl1) =~= spec_u64_to_le_bytes(e2.1.len() as u64));
        assert(vl1 == vl2);
        assert(e1.1 =~= b.subrange(16 + kl1, 16 + kl1 + vl1));
        assert(e2.1 =~= b.subrange(16 + kl1, 16 + kl1 + vl1));
        assert(e1 == e2);
        let tail_start = 16 + kl1 + vl1;
        assert(enc_entries(s1.drop_first()) =~= b.subrange(tail_start, b.len() as int));
        assert(enc_entries(s2.drop_first()) =~= b.subrange(tail_start, b.len() as int));
        assert forall|i: int| 0 <= i < s1.drop_first().len() implies (#[trigger] s1.drop_first()[
            i
        ]).0.len() <= u64::MAX && s1.drop_first()[i].1.len() <= u64::MAX by {
            assert(s1.drop_first()[i] == s1[i + 1]);
        }
        assert forall|i: int| 0 <= i < s2.drop_first().len() implies (#[trigger] s2.drop_first()[
            i
        ]).0.len() <= u64::MAX && s2.drop_first()[i].1.len() <= u64::MAX by {
            assert(s2.drop_first()[i] == s2[i + 1]);
        }
        lemma_enc_entries_injective(s1.drop_first(), s2.drop_first());
        assert forall|i: int| 0 <= i < s1.len() implies s1[i] == #[trigger] s2[i] by {
            if i > 0 {
                assert(s1.drop_first()[i - 1] == s1[i]);
                assert(s2.drop_first()[i - 1] == s2[i]);
            }
        }
        assert(s1 =~= s2);
    }
}

/// The layout of a non-empty entry-sequence encoding: the first entry's
/// length-prefixed key and value, then the rest.
proof fn lemma_enc_entries_head(t: Seq<(Seq<u8>, Seq<u8>)>)
    requires
        t.len() > 0,
    ensures
        ({
            let kl = t[0].0.len() as int;
            let vl = t[0].1.len() as int;
            let b = enc_entries(t);
            &&& b.len() == 16 + kl + vl + enc_entries(t.drop_first()).len()
            &&& b.subrange(0, 8) == spec_u64_to_le_bytes(t[0].0.len() as u64)
            &&& b.subrange(8, 8 + kl) == t[0].0
            &&& b.subrange(8 + kl, 16 + kl) == spec_u64_to_le_bytes(t[0].1.len() as u64)
            &&& b.subrange(16 + kl, 16 + kl + vl) == t[0].1
            &&& b.subrange(16 + kl + vl, b.len() as int) == enc_entries(t.drop_first())
        }),
{
    lemma_auto_spec_u64_to_from_le_bytes();
    let kl = t[0].0.len() as int;
    let vl = t[0].1.len() as int;
    let b = enc_entries(t);
    assert(b == enc_entry(t[0]) + enc_entries(t.drop_first()));
    assert(b.subrange(0, 8) =~= spec_u64_to_le_bytes(t[0].0.len() as u64));
    assert(b.subrange(8, 8 + kl) =~= t[0].0);
    assert(b.subrange(8 + kl, 16 + kl) =~= spec_u64_to_le_bytes(t[0].1.len() as u64));
    assert(b.subrange(16 + kl, 16 + kl + vl) =~= t[0].1);
    assert(b.subrange(16 + kl + vl, b.len() as int) =~= enc_entries(t.drop_first()));
}

/// A parsed prefix of an entry-sequence encoding is a prefix of the
/// sequence itself, and the remaining bytes encode the remaining entries.
proof fn lemma_enc_entries_prefix(
    p: Seq<(Seq<u8>, Seq<u8>)>,
    s: Seq<(Seq<u8>, Seq<u8>)>,
    x: Seq<u8>,
)
    requires
        snapshot_fits(p),
        snapshot_fits(s),
        p.len() <= s.len(),
        enc_entries(p) + x == enc_entries(s),
    ensures
        p == s.subrange(0, p.len() as int),
        x == enc_entries(s.subrange(p.len() as int, s.len() as int)),
    decreases p.len(),
{
    lemma_auto_spec_u64_to_from_le_bytes();
    if p.len() == 0 {
        assert(enc_entries(p) + x =~= x);
        assert(p =~= s.subrange(0, 0));
        assert(s.subrange(0, s.len() as int) =~= s);
    } else {
        let b = enc_entries(s);
        lemma_enc_entries_head(p);
        lemma_enc_entries_head(s);
        let klp = p[0].0.len() as int;
        let kls = s[0].0.len() as int;
        assert(b.subrange(0, 8) =~= enc_entries(p).subrange(0, 8));
        assert(spec_u64_to_le_bytes(p[0].0.len() as u64) == spec_u64_to_le_bytes(
            s[0].0.len() as u64,
        ));
        assert(klp == kls);
        assert(b.subrange(8, 8 + klp) =~= enc_entries(p).subrange(8, 8 + klp));
        assert(p[0].0 == s[0].0);
        let vlp = p[0].1.len() as int;
        let vls = s[0].1.len() as int;
        assert(b.subrange(8 + klp, 16 + klp) =~= enc_entries(p).subrange(8 + klp, 16 + klp));
        assert(spec_u64_to_le_bytes(p[0].1.len() as u64) == spec_u64_to_le_bytes(
            s[0].1.len() as u64,
        ));
        assert(vlp == vls);
        assert(b.subrange(16 + klp, 16 + klp + vlp) =~= enc_entries(p).subrange(
            16 + klp,
            16 + klp + vlp,
        ));
        assert(p[0].1 == s[0].1);
        assert(p[0] == s[0]);
        let tail_start = 16 + klp + vlp;
        assert(enc_entries(p.drop_first()) + x =~= b.subrange(tail_start, b.len() as int));
        assert(enc_entries(s.drop_first()) =~= b.subrange(tail_start, b.len() as int));
        assert forall|i: int| 0 <= i < p.drop_first().len() implies (#[trigger] p.drop_first()[
            i
        ]).0.len() <= u64::MAX && p.drop_first()[i].1.len() <= u64::MAX by {
            assert(p.drop_first()[i] == p[i + 1]);
        }
        assert forall|i: int| 0 <= i < s.drop_first().len() implies (#[trigger] s.drop_first()[
            i
        ]).0.len() <= u64::MAX && s.drop_first()[i].1.len() <= u64::MAX by {
            assert(s.drop_first()[i] == s[i + 1]);
        }
        lemma_enc_entries_prefix(p.drop_first(), s.drop_first(), x);
        assert forall|i: int| 0 <= i < p.len() implies p[i] == #[trigger] s.subrange(
            0,
            p.len() as int,
        )[i] by {
            if i > 0 {
                assert(p.drop_first()[i - 1] == s.drop_first().subrange(0, p.len() - 1)[i - 1]);
                assert(s.drop_first().subrange(0, p.len() - 1)[i - 1] == s[i]);
                assert(p.drop_first()[i - 1] == p[i]);
            }
        }
        assert(p =~= s.subrange(0, p.len() as int));
        assert(s.drop_first().subrange(p.len() - 1, s.drop_first().len() as int) =~= s.subrange(
            p.len() as int,
            s.len() as int,
        ));
    }
}

/// Relates the decoder's progress to the one sequence a well-formed input
/// encodes: the count field names its length, the parsed entries are its
/// prefix, and the bytes still to read encode its remaining entries.
proof fn lemma_parse_state(
    bytes: Seq<u8>,
    s: Seq<(Seq<u8>, Seq<u8>)>,
    p: Seq<(Seq<u8>, Seq<u8>)>,
    cnt: u64,
    pos: int,
)
    requires
        snapshot_fits(s),
        bytes == snapshot_enc(s),
        snapshot_fits(p),
        8 <= pos <= bytes.len(),
        bytes.subrange(0, pos) == spec_u64_to_le_bytes(cnt) + enc_entries(p),
    ensures
        cnt == s.len() as u64,
        s.len() <= u64::MAX,
        p.len() <= s.len() ==> p == s.subrange(0, p.len() as int) && bytes.subrange(
            pos,
            bytes.len() as int,
        ) == enc_entries(s.subrange(p.len() as int, s.len() as int)),
{
    lemma_auto_spec_u64_to_from_le_bytes();
    assert(bytes.subrange(0, 8) =~= spec_u64_to_le_bytes(s.len() as u64));
    assert(bytes.subrange(0, 8) =~= bytes.subrange(0, pos).subrange(0, 8));
    assert(bytes.subrange(0, pos).subrange(0, 8) =~= spec_u64_to_le_bytes(cnt));
    assert(cnt == s.len() as u64);
    if p.len() <= s.len() {
        let x = bytes.subrange(pos, bytes.len() as int);
        assert(bytes.subrange(0, pos).len() == pos);
        assert(pos == 8 + enc_entries(p).len());
        assert(enc_entries(p) + x =~= bytes.subrange(8, bytes.len() as int)) by {
            assert forall|i: int| 0 <= i < enc_entries(p).len() + x.len() implies (enc_entries(p)
                + x)[i] == #[trigger] bytes.subrange(8, bytes.len() as int)[i] by {
                assert(bytes.subrange(8, bytes.len() as int)[i] == bytes[i + 8]);
                if i < enc_entries(p).len() {
                    assert((enc_entries(p) + x)[i] == enc_entries(p)[i]);
                    assert(bytes.subrange(0, pos)[i + 8] == bytes[i + 8]);
                    assert(bytes.subrange(0, pos)[i + 8] == (spec_u64_to_le_bytes(cnt)
                        + enc_entries(p))[i + 8]);
                    assert((spec_u64_to_le_bytes(cnt) + enc_entries(p))[i + 8] == enc_entries(
                        p,
                    )[i]);
                } else {
                    assert((enc_entries(p) + x)[i] == x[i - enc_entries(p).len()]);
                    assert(x[i - enc_entries(p).len()] == bytes[pos + (i - enc_entries(
                        p,
                    ).len())]);
                }
            }
        }
        assert(enc_entries(s) =~= bytes.subrange(8, bytes.len() as int));
        lemma_enc_entries_prefix(p, s, x);
    }
}

} // verus!
