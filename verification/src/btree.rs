//! The persistent ordered map: a B-tree over byte-string keys and values.
//!
//! The tree is modelled by its in-order entry sequence, `flat`, a sequence of
//! `(key, value)` pairs that is strictly sorted by `lex_lt` whenever the tree
//! is well formed.  Lookup and insertion are specified against that sequence
//! through the spec functions `find` and `ins`, so every caller sees the map
//! as a sorted association list.
//!
//! Nodes here hold one or two entries each (a B-tree of minimum degree two):
//! the smallest legal capacity bound, chosen so the split and promotion
//! cases stay enumerable.  An insertion that overfills a node splits it into
//! two and promotes the median entry; splits cascade to the root, where the
//! tree grows one level and all leaves stay at the same depth.

use vstd::prelude::*;

use crate::order::ByteOrd;
use crate::order::compare_bytes;
use crate::order::lemma_lex_irreflexive;
use crate::order::lemma_lex_ne;
use crate::order::lemma_lex_transitive;
use crate::order::lex_lt;

verus! {

/// One key-value pair owned by the tree.
pub struct Entry {
    pub key: Vec<u8>,
    pub val: Vec<u8>,
}

impl View for Entry {
    type V = (Seq<u8>, Seq<u8>);

    open spec fn view(&self) -> (Seq<u8>, Seq<u8>) {
        (self.key@, self.val@)
    }
}

/// The entry sequence is strictly increasing in its keys.
pub open spec fn sorted(s: Seq<(Seq<u8>, Seq<u8>)>) -> bool {
    forall|i: int, j: int| 0 <= i < j < s.len() ==> lex_lt(s[i].0, s[j].0)
}

/// Every key of `s` is strictly below `x`.
pub open spec fn keys_below(s: Seq<(Seq<u8>, Seq<u8>)>, x: Seq<u8>) -> bool {
    forall|i: int| 0 <= i < s.len() ==> lex_lt(#[trigger] s[i].0, x)
}

/// Every key of `s` is strictly above `x`.
pub open spec fn keys_above(s: Seq<(Seq<u8>, Seq<u8>)>, x: Seq<u8>) -> bool {
    forall|i: int| 0 <= i < s.len() ==> lex_lt(x, #[trigger] s[i].0)
}

/// The value stored for `k` in the association sequence `s`, if any.
pub open spec fn find(s: Seq<(Seq<u8>, Seq<u8>)>, k: Seq<u8>) -> Option<Seq<u8>>
    decreases s.len(),
{
    if s.len() == 0 {
        None
    } else if s[0].0 == k {
        Some(s[0].1)
    } else {
        find(s.drop_first(), k)
    }
}

/// The association sequence after an insert-or-update of `k` to `v`,
/// keeping sorted position.
pub open spec fn ins(s: Seq<(Seq<u8>, Seq<u8>)>, k: Seq<u8>, v: Seq<u8>) -> Seq<
    (Seq<u8>, Seq<u8>),
>
    decreases s.len(),
{
    if s.len() == 0 {
        seq![(k, v)]
    } else if lex_lt(k, s[0].0) {
        seq![(k, v)] + s
    } else if k == s[0].0 {
        seq![(k, v)] + s.drop_first()
    } else {
        seq![s[0]] + ins(s.drop_first(), k, v)
    }
}

/// The suffix of `s` whose keys are not below `k`.
pub open spec fn drop_below(s: Seq<(Seq<u8>, Seq<u8>)>, k: Seq<u8>) -> Seq<(Seq<u8>, Seq<u8>)>
    decreases s.len(),
{
    if s.len() == 0 {
        s
    } else if lex_lt(s[0].0, k) {
        drop_below(s.drop_first(), k)
    } else {
        s
    }
}

/// `find` over a concatenation takes the left hit first.
pub proof fn lemma_find_concat(s1: Seq<(Seq<u8>, Seq<u8>)>, s2: Seq<(Seq<u8>, Seq<u8>)>, k: Seq<u8>)
    ensures
        find(s1 + s2, k) == if find(s1, k) is Some {
            find(s1, k)
        } else {
            find(s2, k)
        },
    decreases s1.len(),
{
    if s1.len() == 0 {
        assert(s1 + s2 =~= s2);
    } else {
        assert((s1 + s2)[0] == s1[0]);
        assert((s1 + s2).drop_first() =~= s1.drop_first() + s2);
        lemma_find_concat(s1.drop_first(), s2, k);
    }
}

/// Keys all above `k` cannot hold `k`.
pub proof fn lemma_find_none_above(s: Seq<(Seq<u8>, Seq<u8>)>, k: Seq<u8>)
    requires
        keys_above(s, k),
    ensures
        find(s, k) is None,
    decreases s.len(),
{
    if s.len() > 0 {
        lemma_lex_ne(k, s[0].0);
        assert forall|i: int| 0 <= i < s.drop_first().len() implies lex_lt(
            k,
            #[trigger] s.drop_first()[i].0,
        ) by {
            assert(s.drop_first()[i] == s[i + 1]);
        }
        lemma_find_none_above(s.drop_first(), k);
    }
}

/// Keys all below `k` cannot hold `k`.
pub proof fn lemma_find_none_below(s: Seq<(Seq<u8>, Seq<u8>)>, k: Seq<u8>)
    requires
        keys_below(s, k),
    ensures
        find(s, k) is None,
    decreases s.len(),
{
    if s.len() > 0 {
        lemma_lex_ne(s[0].0, k);
        assert forall|i: int| 0 <= i < s.drop_first().len() implies lex_lt(
            #[trigger] s.drop_first()[i].0,
            k,
        ) by {
            assert(s.drop_first()[i] == s[i + 1]);
        }
        lemma_find_none_below(s.drop_first(), k);
    }
}

/// Inserting a key below every key of `s2` happens inside the left part.
pub proof fn lemma_ins_concat_left(
    s1: Seq<(Seq<u8>, Seq<u8>)>,
    s2: Seq<(Seq<u8>, Seq<u8>)>,
    k: Seq<u8>,
    v: Seq<u8>,
)
    requires
        keys_above(s2, k),
    ensures
        ins(s1 + s2, k, v) == ins(s1, k, v) + s2,
    decreases s1.len(),
{
    if s1.len() == 0 {
        assert(s1 + s2 =~= s2);
        if s2.len() == 0 {
            assert(ins(s1, k, v) + s2 =~= seq![(k, v)]);
        } else {
            assert(lex_lt(k, s2[0].0));
            assert(seq![(k, v)] + s2 =~= ins(s1, k, v) + s2);
        }
    } else {
        assert((s1 + s2)[0] == s1[0]);
        assert((s1 + s2).drop_first() =~= s1.drop_first() + s2);
        if lex_lt(k, s1[0].0) {
            assert(seq![(k, v)] + (s1 + s2) =~= (seq![(k, v)] + s1) + s2);
        } else if k == s1[0].0 {
            assert(seq![(k, v)] + (s1 + s2).drop_first() =~= (seq![(k, v)] + s1.drop_first())
                + s2);
        } else {
            lemma_ins_concat_left(s1.drop_first(), s2, k, v);
            assert(seq![(s1 + s2)[0]] + ins((s1 + s2).drop_first(), k, v) =~= (seq![s1[0]] + ins(
                s1.drop_first(),
                k,
                v,
            )) + s2);
        }
    }
}

/// Inserting a key above every key of `s1` happens inside the right part.
pub proof fn lemma_ins_concat_right(
    s1: Seq<(Seq<u8>, Seq<u8>)>,
    s2: Seq<(Seq<u8>, Seq<u8>)>,
    k: Seq<u8>,
    v: Seq<u8>,
)
    requires
        keys_below(s1, k),
    ensures
        ins(s1 + s2, k, v) == s1 + ins(s2, k, v),
    decreases s1.len(),
{
    if s1.len() == 0 {
        assert(s1 + s2 =~= s2);
        assert(s1 + ins(s2, k, v) =~= ins(s2, k, v));
    } else {
        assert((s1 + s2)[0] == s1[0]);
        assert((s1 + s2).drop_first() =~= s1.drop_first() + s2);
        lemma_lex_ne(s1[0].0, k);
        if lex_lt(k, s1[0].0) {
            lemma_lex_transitive(k, s1[0].0, k);
            lemma_lex_irreflexive(k);
        }
        assert forall|i: int| 0 <= i < s1.drop_first().len() implies lex_lt(
            #[trigger] s1.drop_first()[i].0,
            k,
        ) by {
            assert(s1.drop_first()[i] == s1[i + 1]);
        }
        lemma_ins_concat_right(s1.drop_first(), s2, k, v);
        assert(seq![(s1 + s2)[0]] + ins((s1 + s2).drop_first(), k, v) =~= s1 + ins(s2, k, v));
    }
}

/// After an insert, the inserted key maps to the inserted value.
pub proof fn lemma_find_ins_same(s: Seq<(Seq<u8>, Seq<u8>)>, k: Seq<u8>, v: Seq<u8>)
    ensures
        find(ins(s, k, v), k) == Some(v),
    decreases s.len(),
{
    if s.len() == 0 {
    } else if lex_lt(k, s[0].0) {
        assert((seq![(k, v)] + s)[0] == (k, v));
    } else if k == s[0].0 {
        assert((seq![(k, v)] + s.drop_first())[0] == (k, v));
    } else {
        lemma_find_ins_same(s.drop_first(), k, v);
        let t = seq![s[0]] + ins(s.drop_first(), k, v);
        assert(t[0] == s[0]);
        assert(t.drop_first() =~= ins(s.drop_first(), k, v));
    }
}

/// A key never inserted is absent: the empty map holds nothing, and by
/// `lemma_find_ins_other` an insert of a different key changes nothing
/// for it.
pub proof fn lemma_absent_in_empty(k: Seq<u8>)
    ensures
        find(Seq::<(Seq<u8>, Seq<u8>)>::empty(), k) is None,
{
}

/// `keys_below` distributes over concatenation.
pub proof fn lemma_keys_below_concat(s1: Seq<(Seq<u8>, Seq<u8>)>, s2: Seq<(Seq<u8>, Seq<u8>)>, x: Seq<u8>)
    ensures
        keys_below(s1 + s2, x) <==> (keys_below(s1, x) && keys_below(s2, x)),
{
    if keys_below(s1, x) && keys_below(s2, x) {
        assert forall|i: int| 0 <= i < (s1 + s2).len() implies lex_lt(#[trigger] (s1 + s2)[i].0, x) by {
            if i < s1.len() {
                assert((s1 + s2)[i] == s1[i]);
            } else {
                assert((s1 + s2)[i] == s2[i - s1.len()]);
            }
        }
    }
    if keys_below(s1 + s2, x) {
        assert forall|i: int| 0 <= i < s1.len() implies lex_lt(#[trigger] s1[i].0, x) by {
            assert((s1 + s2)[i] == s1[i]);
        }
        assert forall|i: int| 0 <= i < s2.len() implies lex_lt(#[trigger] s2[i].0, x) by {
            assert((s1 + s2)[i + s1.len()] == s2[i]);
        }
    }
}

/// `keys_above` distributes over concatenation.
pub proof fn lemma_keys_above_concat(s1: Seq<(Seq<u8>, Seq<u8>)>, s2: Seq<(Seq<u8>, Seq<u8>)>, x: Seq<u8>)
    ensures
        keys_above(s1 + s2, x) <==> (keys_above(s1, x) && keys_above(s2, x)),
{
    if keys_above(s1, x) && keys_above(s2, x) {
        assert forall|i: int| 0 <= i < (s1 + s2).len() implies lex_lt(x, #[trigger] (s1 + s2)[i].0) by {
            if i < s1.len() {
                assert((s1 + s2)[i] == s1[i]);
            } else {
                assert((s1 + s2)[i] == s2[i - s1.len()]);
            }
        }
    }
    if keys_above(s1 + s2, x) {
        assert forall|i: int| 0 <= i < s1.len() implies lex_lt(x, #[trigger] s1[i].0) by {
            assert((s1 + s2)[i] == s1[i]);
        }
        assert forall|i: int| 0 <= i < s2.len() implies lex_lt(x, #[trigger] s2[i].0) by {
            assert((s1 + s2)[i + s1.len()] == s2[i]);
        }
    }
}

/// Keys above a bound are above anything below that bound.
pub proof fn lemma_keys_above_weaken(s: Seq<(Seq<u8>, Seq<u8>)>, x: Seq<u8>, k: Seq<u8>)
    requires
        keys_above(s, x),
        lex_lt(k, x),
    ensures
        keys_above(s, k),
{
    assert forall|i: int| 0 <= i < s.len() implies lex_lt(k, #[trigger] s[i].0) by {
        lemma_lex_transitive(k, x, s[i].0);
    }
}

/// Keys below a bound are below anything above that bound.
pub proof fn lemma_keys_below_weaken(s: Seq<(Seq<u8>, Seq<u8>)>, x: Seq<u8>, k: Seq<u8>)
    requires
        keys_below(s, x),
        lex_lt(x, k),
    ensures
        keys_below(s, k),
{
    assert forall|i: int| 0 <= i < s.len() implies lex_lt(#[trigger] s[i].0, k) by {
        lemma_lex_transitive(s[i].0, x, k);
    }
}

/// Sorted runs separated by a middle entry concatenate to a sorted run.
pub proof fn lemma_sorted_mid(
    s1: Seq<(Seq<u8>, Seq<u8>)>,
    e: (Seq<u8>, Seq<u8>),
    s2: Seq<(Seq<u8>, Seq<u8>)>,
)
    requires
        sorted(s1),
        sorted(s2),
        keys_below(s1, e.0),
        keys_above(s2, e.0),
    ensures
        sorted(s1 + seq![e] + s2),
{
    let t = s1 + seq![e] + s2;
    let n1 = s1.len() as int;
    assert forall|i: int, j: int| 0 <= i < j < t.len() implies lex_lt(t[i].0, t[j].0) by {
        if i < n1 {
            assert(t[i] == s1[i]);
        } else if i == n1 {
            assert(t[i] == e);
        } else {
            assert(t[i] == s2[i - n1 - 1]);
        }
        if j < n1 {
            assert(t[j] == s1[j]);
        } else if j == n1 {
            assert(t[j] == e);
        } else {
            assert(t[j] == s2[j - n1 - 1]);
        }
        if i < n1 && j > n1 {
            lemma_lex_transitive(s1[i].0, e.0, s2[j - n1 - 1].0);
        }
    }
}

/// After an insert, every other key maps to what it mapped to before.
pub proof fn lemma_find_ins_other(s: Seq<(Seq<u8>, Seq<u8>)>, k: Seq<u8>, v: Seq<u8>, k2: Seq<u8>)
    requires
        k2 != k,
    ensures
        find(ins(s, k, v), k2) == find(s, k2),
    decreases s.len(),
{
    if s.len() == 0 {
        let t = seq![(k, v)];
        assert(t[0] == (k, v));
        assert(t.drop_first().len() == 0);
        assert(find(t.drop_first(), k2) is None);
        assert(find(s, k2) is None);
        assert(find(ins(s, k, v), k2) == find(s, k2));
    } else if lex_lt(k, s[0].0) {
        let t = seq![(k, v)] + s;
        assert(t[0] == (k, v));
        assert(t.drop_first() =~= s);
        assert(find(ins(s, k, v), k2) == find(s, k2));
    } else if k == s[0].0 {
        let t = seq![(k, v)] + s.drop_first();
        assert(t[0] == (k, v));
        assert(t.drop_first() =~= s.drop_first());
        assert(find(ins(s, k, v), k2) == find(s, k2));
    } else {
        lemma_find_ins_other(s.drop_first(), k, v, k2);
        let t = seq![s[0]] + ins(s.drop_first(), k, v);
        assert(t[0] == s[0]);
        assert(t.drop_first() =~= ins(s.drop_first(), k, v));
        assert(find(ins(s, k, v), k2) == find(s, k2));
    }
}

/// A B-tree node: a leaf holds one or two entries; an internal node holds
/// one or two separator entries and one more child than entries.
pub enum Node {
    Leaf1 { a: Entry },
    Leaf2 { a: Entry, b: Entry },
    Int2 { l: Box<Node>, a: Entry, r: Box<Node> },
    Int3 { l: Box<Node>, a: Entry, m: Box<Node>, b: Entry, r: Box<Node> },
}

/// The in-order entry sequence of the subtree rooted at `n`.
pub open spec fn flat(n: Node) -> Seq<(Seq<u8>, Seq<u8>)>
    decreases n,
{
    match n {
        Node::Leaf1 { a } => seq![a@],
        Node::Leaf2 { a, b } => seq![a@, b@],
        Node::Int2 { l, a, r } => flat(*l) + seq![a@] + flat(*r),
        Node::Int3 { l, a, m, b, r } => flat(*l) + seq![a@] + flat(*m) + seq![b@] + flat(*r),
    }
}

/// The distance from `n` to its leaves; equal along every path.
pub open spec fn height(n: Node) -> nat
    decreases n,
{
    match n {
        Node::Leaf1 { .. } => 1,
        Node::Leaf2 { .. } => 1,
        Node::Int2 { l, .. } => 1 + height(*l),
        Node::Int3 { l, .. } => 1 + height(*l),
    }
}

/// `k` lies strictly inside the open interval (`lo`, `hi`), where `None`
/// means unbounded on that side.
pub open spec fn key_in(k: Seq<u8>, lo: Option<Seq<u8>>, hi: Option<Seq<u8>>) -> bool {
    &&& match lo {
        Some(x) => lex_lt(x, k),
        None => true,
    }
    &&& match hi {
        Some(x) => lex_lt(k, x),
        None => true,
    }
}

/// Well-formedness of the subtree rooted at `n` within the open key
/// interval (`lo`, `hi`): keys in every node strictly increase, every
/// subtree's keys lie strictly between the separators around it, and all
/// children of a node have the same height, so all leaves share one depth.
pub open spec fn wf(n: Node, lo: Option<Seq<u8>>, hi: Option<Seq<u8>>) -> bool
    decreases n,
{
    match n {
        Node::Leaf1 { a } => key_in(a@.0, lo, hi),
        Node::Leaf2 { a, b } => key_in(a@.0, lo, hi) && key_in(b@.0, lo, hi) && lex_lt(
            a@.0,
            b@.0,
        ),
        Node::Int2 { l, a, r } => {
            &&& key_in(a@.0, lo, hi)
            &&& wf(*l, lo, Some(a@.0))
            &&& wf(*r, Some(a@.0), hi)
            &&& height(*l) == height(*r)
        },
        Node::Int3 { l, a, m, b, r } => {
            &&& key_in(a@.0, lo, hi)
            &&& key_in(b@.0, lo, hi)
            &&& lex_lt(a@.0, b@.0)
            &&& wf(*l, lo, Some(a@.0))
            &&& wf(*m, Some(a@.0), Some(b@.0))
            &&& wf(*r, Some(b@.0), hi)
            &&& height(*l) == height(*m)
            &&& height(*m) == height(*r)
        },
    }
}

/// Every key of a sequence lies inside the given open interval.
pub open spec fn keys_in(s: Seq<(Seq<u8>, Seq<u8>)>, lo: Option<Seq<u8>>, hi: Option<Seq<u8>>) -> bool {
    &&& match lo {
        Some(x) => keys_above(s, x),
        None => true,
    }
    &&& match hi {
        Some(x) => keys_below(s, x),
        None => true,
    }
}

/// A well-formed subtree flattens to a strictly sorted entry sequence whose
/// keys lie inside the subtree's interval.
pub proof fn lemma_flat_wf(n: Node, lo: Option<Seq<u8>>, hi: Option<Seq<u8>>)
    requires
        wf(n, lo, hi),
    ensures
        sorted(flat(n)),
        keys_in(flat(n), lo, hi),
    decreases n,
{
    match n {
        Node::Leaf1 { a } => {
            assert(flat(n)[0] == a@);
        },
        Node::Leaf2 { a, b } => {
            assert(flat(n)[0] == a@);
            assert(flat(n)[1] == b@);
        },
        Node::Int2 { l, a, r } => {
            lemma_flat_wf(*l, lo, Some(a@.0));
            lemma_flat_wf(*r, Some(a@.0), hi);
            let fl = flat(*l);
            let fr = flat(*r);
            lemma_sorted_mid(fl, a@, fr);
            assert(flat(n) == fl + seq![a@] + fr);
            lemma_keys_in_mid(fl, a@, fr, lo, hi);
        },
        Node::Int3 { l, a, m, b, r } => {
            lemma_flat_wf(*l, lo, Some(a@.0));
            lemma_flat_wf(*m, Some(a@.0), Some(b@.0));
            lemma_flat_wf(*r, Some(b@.0), hi);
            let fl = flat(*l);
            let fm = flat(*m);
            let fr = flat(*r);
            let right = fm + seq![b@] + fr;
            lemma_sorted_mid(fm, b@, fr);
            lemma_keys_in_mid(fm, b@, fr, Some(a@.0), hi);
            lemma_sorted_mid(fl, a@, right);
            lemma_keys_in_mid(fl, a@, right, lo, hi);
            assert(flat(n) =~= fl + seq![a@] + right);
        },
    }
}

/// The interval bounds of two runs around a middle entry extend to their
/// concatenation.
proof fn lemma_keys_in_mid(
    s1: Seq<(Seq<u8>, Seq<u8>)>,
    e: (Seq<u8>, Seq<u8>),
    s2: Seq<(Seq<u8>, Seq<u8>)>,
    lo: Option<Seq<u8>>,
    hi: Option<Seq<u8>>,
)
    requires
        key_in(e.0, lo, hi),
        keys_in(s1, lo, Some(e.0)),
        keys_in(s2, Some(e.0), hi),
    ensures
        keys_in(s1 + seq![e] + s2, lo, hi),
{
    let t = s1 + seq![e] + s2;
    if lo is Some {
        let x = lo.unwrap();
        assert forall|i: int| 0 <= i < t.len() implies lex_lt(x, #[trigger] t[i].0) by {
            if i < s1.len() {
                assert(t[i] == s1[i]);
            } else if i == s1.len() {
                assert(t[i] == e);
            } else {
                assert(t[i] == s2[i - s1.len() - 1]);
                lemma_lex_transitive(x, e.0, t[i].0);
            }
        }
    }
    if hi is Some {
        let x = hi.unwrap();
        assert forall|i: int| 0 <= i < t.len() implies lex_lt(#[trigger] t[i].0, x) by {
            if i < s1.len() {
                assert(t[i] == s1[i]);
                lemma_lex_transitive(t[i].0, e.0, x);
            } else if i == s1.len() {
                assert(t[i] == e);
            } else {
                assert(t[i] == s2[i - s1.len() - 1]);
            }
        }
    }
}

/// Binary-search descent from `n` for the value stored under `k`.
/// Never mutates storage; the result borrows the tree's own bytes.
pub fn node_get<'a>(
    n: &'a Node,
    k: &Vec<u8>,
    Ghost(lo): Ghost<Option<Seq<u8>>>,
    Ghost(hi): Ghost<Option<Seq<u8>>>,
) -> (r: Option<&'a Vec<u8>>)
    requires
        wf(*n, lo, hi),
    ensures
        match r {
            Some(v) => find(flat(*n), k@) == Some(v@),
            None => find(flat(*n), k@) is None,
        },
    decreases *n,
{
    match n {
        Node::Leaf1 { a } => {
            proof {
                assert(flat(*n) =~= seq![a@]);
                assert(flat(*n)[0] == a@);
            }
            match compare_bytes(k, &a.key) {
                ByteOrd::Equal => Some(&a.val),
                _ => {
                    proof {
                        assert(find(flat(*n).drop_first(), k@) is None);
                    }
                    None
                },
            }
        },
        Node::Leaf2 { a, b } => {
            proof {
                assert(flat(*n)[0] == a@);
                assert(flat(*n).drop_first() =~= seq![b@]);
                assert(flat(*n).drop_first()[0] == b@);
                assert(flat(*n).drop_first().drop_first().len() == 0);
            }
            match compare_bytes(k, &a.key) {
                ByteOrd::Equal => Some(&a.val),
                _ => {
                    match compare_bytes(k, &b.key) {
                        ByteOrd::Equal => Some(&b.val),
                        _ => {
                            proof {
                                assert(find(flat(*n).drop_first().drop_first(), k@) is None);
                                assert(find(flat(*n).drop_first(), k@) is None);
                            }
                            None
                        },
                    }
                },
            }
        },
        Node::Int2 { l, a, r } => {
            let ghost fl = flat(**l);
            let ghost fr = flat(**r);
            let ghost rest = seq![a@] + fr;
            proof {
                assert(flat(*n) =~= fl + rest);
                lemma_find_concat(fl, rest, k@);
                lemma_flat_wf(**l, lo, Some(a@.0));
                lemma_flat_wf(**r, Some(a@.0), hi);
                assert(rest[0] == a@);
                assert(rest.drop_first() =~= fr);
            }
            match compare_bytes(k, &a.key) {
                ByteOrd::Less => {
                    proof {
                        lemma_keys_above_weaken(fr, a@.0, k@);
                        lemma_keys_above_concat(seq![a@], fr, k@);
                        lemma_find_none_above(rest, k@);
                    }
                    node_get(l, k, Ghost(lo), Ghost(Some(a@.0)))
                },
                ByteOrd::Equal => {
                    proof {
                        lemma_find_none_below(fl, k@);
                    }
                    Some(&a.val)
                },
                ByteOrd::Greater => {
                    proof {
                        lemma_keys_below_weaken(fl, a@.0, k@);
                        lemma_find_none_below(fl, k@);
                        lemma_lex_ne(a@.0, k@);
                    }
                    node_get(r, k, Ghost(Some(a@.0)), Ghost(hi))
                },
            }
        },
        Node::Int3 { l, a, m, b, r } => {
            let ghost fl = flat(**l);
            let ghost fm = flat(**m);
            let ghost fr = flat(**r);
            let ghost right = seq![b@] + fr;
            let ghost mid = seq![a@] + fm + right;
            proof {
                assert(flat(*n) =~= fl + mid);
                lemma_find_concat(fl, mid, k@);
                lemma_flat_wf(**l, lo, Some(a@.0));
                lemma_flat_wf(**m, Some(a@.0), Some(b@.0));
                lemma_flat_wf(**r, Some(b@.0), hi);
                assert(mid[0] == a@);
                assert(mid.drop_first() =~= fm + right);
                lemma_find_concat(fm, right, k@);
                assert(right[0] == b@);
                assert(right.drop_first() =~= fr);
            }
            match compare_bytes(k, &a.key) {
                ByteOrd::Less => {
                    proof {
                        lemma_keys_above_weaken(fm, a@.0, k@);
                        lemma_lex_transitive(k@, a@.0, b@.0);
                        lemma_keys_above_weaken(fr, b@.0, k@);
                        lemma_keys_above_concat(seq![b@], fr, k@);
                        lemma_keys_above_concat(fm, right, k@);
                        lemma_keys_above_concat(seq![a@], fm + right, k@);
                        assert(mid =~= seq![a@] + (fm + right));
                        lemma_find_none_above(mid, k@);
                    }
                    node_get(l, k, Ghost(lo), Ghost(Some(a@.0)))
                },
                ByteOrd::Equal => {
                    proof {
                        lemma_find_none_below(fl, k@);
                    }
                    Some(&a.val)
                },
                ByteOrd::Greater => {
                    proof {
                        lemma_keys_below_weaken(fl, a@.0, k@);
                        lemma_find_none_below(fl, k@);
                        lemma_lex_ne(a@.0, k@);
                    }
                    match compare_bytes(k, &b.key) {
                        ByteOrd::Less => {
                            proof {
                                lemma_keys_above_weaken(fr, b@.0, k@);
                                lemma_keys_above_concat(seq![b@], fr, k@);
                                lemma_find_none_above(right, k@);
                            }
                            node_get(m, k, Ghost(Some(a@.0)), Ghost(Some(b@.0)))
                        },
                        ByteOrd::Equal => {
                            proof {
                                lemma_find_none_below(fm, k@);
                            }
                            Some(&b.val)
                        },
                        ByteOrd::Greater => {
                            proof {
                                lemma_keys_below_weaken(fm, b@.0, k@);
                                lemma_find_none_below(fm, k@);
                                lemma_lex_ne(b@.0, k@);
                            }
                            node_get(r, k, Ghost(Some(b@.0)), Ghost(hi))
                        },
                    }
                },
            }
        },
    }
}

/// The outcome of inserting into a subtree: the node absorbed the entry, or
/// it split into two nodes around a promoted median entry.
pub enum InsertResult {
    Fit(Node),
    Split(Node, Entry, Node),
}

/// The entry sequence an insertion outcome stands for.
pub open spec fn ins_flat(r: InsertResult) -> Seq<(Seq<u8>, Seq<u8>)> {
    match r {
        InsertResult::Fit(n) => flat(n),
        InsertResult::Split(l, e, r2) => flat(l) + seq![e@] + flat(r2),
    }
}

/// Well-formedness of an insertion outcome at height `h` in (`lo`, `hi`).
pub open spec fn ins_wf(r: InsertResult, h: nat, lo: Option<Seq<u8>>, hi: Option<Seq<u8>>) -> bool {
    match r {
        InsertResult::Fit(n) => wf(n, lo, hi) && height(n) == h,
        InsertResult::Split(l, e, r2) => {
            &&& key_in(e@.0, lo, hi)
            &&& wf(l, lo, Some(e@.0))
            &&& wf(r2, Some(e@.0), hi)
            &&& height(l) == h
            &&& height(r2) == h
        },
    }
}

/// Rejoins an insertion outcome from the left child of a two-child node
/// with the separator and right sibling.
#[verifier::rlimit(60)]
fn finish_int2_less(
    sub: InsertResult,
    a: Entry,
    r: Box<Node>,
    Ghost(h): Ghost<nat>,
    Ghost(lo): Ghost<Option<Seq<u8>>>,
    Ghost(hi): Ghost<Option<Seq<u8>>>,
) -> (res: InsertResult)
    requires
        ins_wf(sub, h, lo, Some(a@.0)),
        wf(*r, Some(a@.0), hi),
        height(*r) == h,
        key_in(a@.0, lo, hi),
    ensures
        ins_wf(res, (h + 1) as nat, lo, hi),
        ins_flat(res) == ins_flat(sub) + seq![a@] + flat(*r),
{
    let ghost ga = a@;
    match sub {
        InsertResult::Fit(l2) => {
            let res = InsertResult::Fit(Node::Int2 { l: Box::new(l2), a, r });
            proof {
                assert(ins_flat(res) =~= ins_flat(sub) + seq![ga] + flat(*r));
            }
            res
        },
        InsertResult::Split(x, e, y) => {
            let ghost ge = e@;
            let res = InsertResult::Fit(
                Node::Int3 { l: Box::new(x), a: e, m: Box::new(y), b: a, r },
            );
            proof {
                if hi is Some {
                    lemma_lex_transitive(ge.0, ga.0, hi.unwrap());
                }
                assert(ins_flat(res) =~= ins_flat(sub) + seq![ga] + flat(*r));
            }
            res
        },
    }
}

/// Rejoins an insertion outcome from the right child of a two-child node
/// with the separator and left sibling.
#[verifier::rlimit(60)]
fn finish_int2_greater(
    l: Box<Node>,
    a: Entry,
    sub: InsertResult,
    Ghost(h): Ghost<nat>,
    Ghost(lo): Ghost<Option<Seq<u8>>>,
    Ghost(hi): Ghost<Option<Seq<u8>>>,
) -> (res: InsertResult)
    requires
        wf(*l, lo, Some(a@.0)),
        height(*l) == h,
        ins_wf(sub, h, Some(a@.0), hi),
        key_in(a@.0, lo, hi),
    ensures
        ins_wf(res, (h + 1) as nat, lo, hi),
        ins_flat(res) == flat(*l) + seq![a@] + ins_flat(sub),
{
    let ghost ga = a@;
    match sub {
        InsertResult::Fit(r2) => {
            let res = InsertResult::Fit(Node::Int2 { l, a, r: Box::new(r2) });
            proof {
                assert(ins_flat(res) =~= flat(*l) + seq![ga] + ins_flat(sub));
            }
            res
        },
        InsertResult::Split(x, e, y) => {
            let ghost ge = e@;
            let res = InsertResult::Fit(
                Node::Int3 { l, a, m: Box::new(x), b: e, r: Box::new(y) },
            );
            proof {
                if lo is Some {
                    lemma_lex_transitive(lo.unwrap(), ga.0, ge.0);
                }
                assert(ins_flat(res) =~= flat(*l) + seq![ga] + ins_flat(sub));
            }
            res
        },
    }
}

/// Rejoins an insertion outcome from the left child of a three-child node;
/// a split here splits the node itself around its first separator.
#[verifier::rlimit(60)]
fn finish_int3_less(
    sub: InsertResult,
    a: Entry,
    m: Box<Node>,
    b: Entry,
    r: Box<Node>,
    Ghost(h): Ghost<nat>,
    Ghost(lo): Ghost<Option<Seq<u8>>>,
    Ghost(hi): Ghost<Option<Seq<u8>>>,
) -> (res: InsertResult)
    requires
        ins_wf(sub, h, lo, Some(a@.0)),
        wf(*m, Some(a@.0), Some(b@.0)),
        wf(*r, Some(b@.0), hi),
        height(*m) == h,
        height(*r) == h,
        key_in(a@.0, lo, hi),
        key_in(b@.0, lo, hi),
        lex_lt(a@.0, b@.0),
    ensures
        ins_wf(res, (h + 1) as nat, lo, hi),
        ins_flat(res) == ins_flat(sub) + seq![a@] + flat(*m) + seq![b@] + flat(*r),
{
    let ghost ga = a@;
    let ghost gb = b@;
    match sub {
        InsertResult::Fit(l2) => {
            let res = InsertResult::Fit(Node::Int3 { l: Box::new(l2), a, m, b, r });
            proof {
                assert(ins_flat(res) =~= ins_flat(sub) + seq![ga] + flat(*m) + seq![gb] + flat(
                    *r,
                ));
            }
            res
        },
        InsertResult::Split(x, e, y) => {
            let res = InsertResult::Split(
                Node::Int2 { l: Box::new(x), a: e, r: Box::new(y) },
                a,
                Node::Int2 { l: m, a: b, r },
            );
            proof {
                assert(ins_flat(res) =~= ins_flat(sub) + seq![ga] + flat(*m) + seq![gb] + flat(
                    *r,
                ));
            }
            res
        },
    }
}

/// Rejoins an insertion outcome from the middle child of a three-child
/// node; a split here promotes the new median between the two separators.
#[verifier::rlimit(60)]
fn finish_int3_mid(
    l: Box<Node>,
    a: Entry,
    sub: InsertResult,
    b: Entry,
    r: Box<Node>,
    Ghost(h): Ghost<nat>,
    Ghost(lo): Ghost<Option<Seq<u8>>>,
    Ghost(hi): Ghost<Option<Seq<u8>>>,
) -> (res: InsertResult)
    requires
        wf(*l, lo, Some(a@.0)),
        ins_wf(sub, h, Some(a@.0), Some(b@.0)),
        wf(*r, Some(b@.0), hi),
        height(*l) == h,
        height(*r) == h,
        key_in(a@.0, lo, hi),
        key_in(b@.0, lo, hi),
        lex_lt(a@.0, b@.0),
    ensures
        ins_wf(res, (h + 1) as nat, lo, hi),
        ins_flat(res) == flat(*l) + seq![a@] + ins_flat(sub) + seq![b@] + flat(*r),
{
    let ghost ga = a@;
    let ghost gb = b@;
    match sub {
        InsertResult::Fit(m2) => {
            let res = InsertResult::Fit(Node::Int3 { l, a, m: Box::new(m2), b, r });
            proof {
                assert(ins_flat(res) =~= flat(*l) + seq![ga] + ins_flat(sub) + seq![gb] + flat(
                    *r,
                ));
            }
            res
        },
        InsertResult::Split(x, e, y) => {
            let ghost ge = e@;
            let res = InsertResult::Split(
                Node::Int2 { l, a, r: Box::new(x) },
                e,
                Node::Int2 { l: Box::new(y), a: b, r },
            );
            proof {
                if lo is Some {
                    lemma_lex_transitive(lo.unwrap(), ga.0, ge.0);
                }
                if hi is Some {
                    lemma_lex_transitive(ge.0, gb.0, hi.unwrap());
                }
                assert(ins_flat(res) =~= flat(*l) + seq![ga] + ins_flat(sub) + seq![gb] + flat(
                    *r,
                ));
            }
            res
        },
    }
}

/// Rejoins an insertion outcome from the right child of a three-child node;
/// a split here splits the node itself around its second separator.
#[verifier::rlimit(60)]
fn finish_int3_greater(
    l: Box<Node>,
    a: Entry,
    m: Box<Node>,
    b: Entry,
    sub: InsertResult,
    Ghost(h): Ghost<nat>,
    Ghost(lo): Ghost<Option<Seq<u8>>>,
    Ghost(hi): Ghost<Option<Seq<u8>>>,
) -> (res: InsertResult)
    requires
        wf(*l, lo, Some(a@.0)),
        wf(*m, Some(a@.0), Some(b@.0)),
        ins_wf(sub, h, Some(b@.0), hi),
        height(*l) == h,
        height(*m) == h,
        key_in(a@.0, lo, hi),
        key_in(b@.0, lo, hi),
        lex_lt(a@.0, b@.0),
    ensures
        ins_wf(res, (h + 1) as nat, lo, hi),
        ins_flat(res) == flat(*l) + seq![a@] + flat(*m) + seq![b@] + ins_flat(sub),
{
    let ghost ga = a@;
    let ghost gb = b@;
    match sub {
        InsertResult::Fit(r2) => {
            let res = InsertResult::Fit(Node::Int3 { l, a, m, b, r: Box::new(r2) });
            proof {
                assert(ins_flat(res) =~= flat(*l) + seq![ga] + flat(*m) + seq![gb] + ins_flat(
                    sub,
                ));
            }
            res
        },
        InsertResult::Split(x, e, y) => {
            let res = InsertResult::Split(
                Node::Int2 { l, a, r: m },
                b,
                Node::Int2 { l: Box::new(x), a: e, r: Box::new(y) },
            );
            proof {
                if lo is Some {
                    lemma_lex_transitive(lo.unwrap(), ga.0, gb.0);
                }
                assert(ins_flat(res) =~= flat(*l) + seq![ga] + flat(*m) + seq![gb] + ins_flat(
                    sub,
                ));
            }
            res
        },
    }
}


/// Insert-or-update of `key` to `val` in the subtree `n`: descends to the
/// right position, overwrites an equal key in place, and splits an overfull
/// node, promoting the median entry towards the parent.
#[verifier::rlimit(100)]
pub fn node_insert(
    n: Node,
    key: Vec<u8>,
    val: Vec<u8>,
    Ghost(lo): Ghost<Option<Seq<u8>>>,
    Ghost(hi): Ghost<Option<Seq<u8>>>,
) -> (res: InsertResult)
    requires
        wf(n, lo, hi),
        key_in(key@, lo, hi),
    ensures
        ins_wf(res, height(n), lo, hi),
        ins_flat(res) == ins(flat(n), key@, val@),
    decreases n,
{
    let ghost gk = key@;
    let ghost gv = val@;
    let ghost n0 = n;
    match n {
        Node::Leaf1 { a } => {
            let ghost ga = a@;
            proof {
                assert(flat(n0) =~= seq![ga]);
            }
            match compare_bytes(&key, &a.key) {
                ByteOrd::Less => {
                    let res = InsertResult::Fit(
                        Node::Leaf2 { a: Entry { key, val }, b: a },
                    );
                    proof {
                        assert(ins(flat(n0), gk, gv) == seq![(gk, gv)] + flat(n0));
                        assert(ins_flat(res) =~= seq![(gk, gv)] + flat(n0));
                    }
                    res
                },
                ByteOrd::Equal => {
                    let res = InsertResult::Fit(Node::Leaf1 { a: Entry { key, val } });
                    proof {
                        lemma_lex_irreflexive(gk);
                        assert(ins(flat(n0), gk, gv) == seq![(gk, gv)] + flat(n0).drop_first());
                        assert(ins_flat(res) =~= ins(flat(n0), gk, gv));
                    }
                    res
                },
                ByteOrd::Greater => {
                    let res = InsertResult::Fit(Node::Leaf2 { a, b: Entry { key, val } });
                    proof {
                        lemma_lex_ne(ga.0, gk);
                        assert(flat(n0).drop_first().len() == 0);
                        assert(ins(flat(n0).drop_first(), gk, gv) =~= seq![(gk, gv)]);
                        assert(ins(flat(n0), gk, gv) == seq![ga] + ins(
                            flat(n0).drop_first(),
                            gk,
                            gv,
                        ));
                        assert(ins_flat(res) =~= ins(flat(n0), gk, gv));
                    }
                    res
                },
            }
        },
        Node::Leaf2 { a, b } => {
            let ghost ga = a@;
            let ghost gb = b@;
            proof {
                assert(flat(n0) =~= seq![ga, gb]);
                assert(flat(n0).drop_first() =~= seq![gb]);
                assert(seq![gb].drop_first().len() == 0);
            }
            match compare_bytes(&key, &a.key) {
                ByteOrd::Less => {
                    let res = InsertResult::Split(
                        Node::Leaf1 { a: Entry { key, val } },
                        a,
                        Node::Leaf1 { a: b },
                    );
                    proof {
                        assert(ins(flat(n0), gk, gv) == seq![(gk, gv)] + flat(n0));
                        assert(ins_flat(res) =~= seq![(gk, gv)] + flat(n0));
                    }
                    res
                },
                ByteOrd::Equal => {
                    let res = InsertResult::Fit(Node::Leaf2 { a: Entry { key, val }, b });
                    proof {
                        lemma_lex_irreflexive(gk);
                        assert(ins(flat(n0), gk, gv) == seq![(gk, gv)] + flat(n0).drop_first());
                        assert(ins_flat(res) =~= seq![(gk, gv)] + seq![gb]);
                    }
                    res
                },
                ByteOrd::Greater => {
                    proof {
                        lemma_lex_ne(ga.0, gk);
                        assert(ins(flat(n0), gk, gv) == seq![ga] + ins(seq![gb], gk, gv));
                    }
                    match compare_bytes(&key, &b.key) {
                        ByteOrd::Less => {
                            let res = InsertResult::Split(
                                Node::Leaf1 { a },
                                Entry { key, val },
                                Node::Leaf1 { a: b },
                            );
                            proof {
                                assert(ins(seq![gb], gk, gv) == seq![(gk, gv)] + seq![gb]);
                                assert(ins_flat(res) =~= seq![ga] + (seq![(gk, gv)] + seq![gb]));
                            }
                            res
                        },
                        ByteOrd::Equal => {
                            let res = InsertResult::Fit(
                                Node::Leaf2 { a, b: Entry { key, val } },
                            );
                            proof {
                                lemma_lex_irreflexive(gk);
                                assert(ins(seq![gb], gk, gv) == seq![(gk, gv)] + seq![
                                    gb,
                                ].drop_first());
                                assert(ins(seq![gb], gk, gv) =~= seq![(gk, gv)]);
                                assert(ins_flat(res) =~= seq![ga] + seq![(gk, gv)]);
                            }
                            res
                        },
                        ByteOrd::Greater => {
                            let res = InsertResult::Split(
                                Node::Leaf1 { a },
                                b,
                                Node::Leaf1 { a: Entry { key, val } },
                            );
                            proof {
                                lemma_lex_ne(gb.0, gk);
                                assert(ins(seq![gb], gk, gv) == seq![gb] + ins(
                                    seq![gb].drop_first(),
                                    gk,
                                    gv,
                                ));
                                assert(ins(seq![gb].drop_first(), gk, gv) =~= seq![(gk, gv)]);
                                assert(ins_flat(res) =~= seq![ga] + (seq![gb] + seq![(gk, gv)]));
                            }
                            res
                        },
                    }
                },
            }
        },
        Node::Int2 { l, a, r } => {
            let ghost ga = a@;
            let ghost fl = flat(*l);
            let ghost fr = flat(*r);
            let ghost hl = height(*l);
            proof {
                lemma_flat_wf(*l, lo, Some(ga.0));
                lemma_flat_wf(*r, Some(ga.0), hi);
            }
            match compare_bytes(&key, &a.key) {
                ByteOrd::Less => {
                    let ghost rest = seq![ga] + fr;
                    proof {
                        assert(flat(n0) =~= fl + rest);
                        lemma_keys_above_weaken(fr, ga.0, gk);
                        lemma_keys_above_concat(seq![ga], fr, gk);
                        lemma_ins_concat_left(fl, rest, gk, gv);
                    }
                    let sub = node_insert(*l, key, val, Ghost(lo), Ghost(Some(ga.0)));
                    let res = finish_int2_less(sub, a, r, Ghost(hl), Ghost(lo), Ghost(hi));
                    proof {
                        assert(ins_flat(res) =~= ins(fl, gk, gv) + rest);
                    }
                    res
                },
                ByteOrd::Equal => {
                    let ghost rest = seq![ga] + fr;
                    proof {
                        assert(flat(n0) =~= fl + rest);
                        lemma_ins_concat_right(fl, rest, gk, gv);
                        lemma_lex_irreflexive(gk);
                        assert(rest[0] == ga);
                        assert(rest.drop_first() =~= fr);
                        assert(ins(rest, gk, gv) == seq![(gk, gv)] + fr);
                    }
                    let res = InsertResult::Fit(Node::Int2 { l, a: Entry { key, val }, r });
                    proof {
                        assert(ins_flat(res) =~= fl + (seq![(gk, gv)] + fr));
                    }
                    res
                },
                ByteOrd::Greater => {
                    let ghost s1 = fl + seq![ga];
                    proof {
                        lemma_lex_ne(ga.0, gk);
                        lemma_keys_below_weaken(fl, ga.0, gk);
                        lemma_keys_below_concat(fl, seq![ga], gk);
                        assert(flat(n0) =~= s1 + fr);
                        lemma_ins_concat_right(s1, fr, gk, gv);
                    }
                    let sub = node_insert(*r, key, val, Ghost(Some(ga.0)), Ghost(hi));
                    let res = finish_int2_greater(l, a, sub, Ghost(hl), Ghost(lo), Ghost(hi));
                    proof {
                        assert(ins_flat(res) =~= s1 + ins(fr, gk, gv));
                    }
                    res
                },
            }
        },
        Node::Int3 { l, a, m, b, r } => {
            let ghost ga = a@;
            let ghost gb = b@;
            let ghost fl = flat(*l);
            let ghost fm = flat(*m);
            let ghost fr = flat(*r);
            let ghost hl = height(*l);
            proof {
                lemma_flat_wf(*l, lo, Some(ga.0));
                lemma_flat_wf(*m, Some(ga.0), Some(gb.0));
                lemma_flat_wf(*r, Some(gb.0), hi);
            }
            match compare_bytes(&key, &a.key) {
                ByteOrd::Less => {
                    let ghost rest = seq![ga] + fm + seq![gb] + fr;
                    proof {
                        assert(flat(n0) =~= fl + rest);
                        lemma_lex_transitive(gk, ga.0, gb.0);
                        lemma_keys_above_weaken(fm, ga.0, gk);
                        lemma_keys_above_weaken(fr, gb.0, gk);
                        lemma_keys_above_concat(seq![ga], fm, gk);
                        lemma_keys_above_concat(seq![ga] + fm, seq![gb], gk);
                        lemma_keys_above_concat(seq![ga] + fm + seq![gb], fr, gk);
                        lemma_ins_concat_left(fl, rest, gk, gv);
                    }
                    let sub = node_insert(*l, key, val, Ghost(lo), Ghost(Some(ga.0)));
                    let res = finish_int3_less(sub, a, m, b, r, Ghost(hl), Ghost(lo), Ghost(hi));
                    proof {
                        assert(ins_flat(res) =~= ins(fl, gk, gv) + rest);
                    }
                    res
                },
                ByteOrd::Equal => {
                    let ghost rest = seq![ga] + (fm + seq![gb] + fr);
                    proof {
                        assert(flat(n0) =~= fl + rest);
                        lemma_ins_concat_right(fl, rest, gk, gv);
                        lemma_lex_irreflexive(gk);
                        assert(rest[0] == ga);
                        assert(rest.drop_first() =~= fm + seq![gb] + fr);
                        assert(ins(rest, gk, gv) == seq![(gk, gv)] + (fm + seq![gb] + fr));
                    }
                    let res = InsertResult::Fit(
                        Node::Int3 { l, a: Entry { key, val }, m, b, r },
                    );
                    proof {
                        assert(ins_flat(res) =~= fl + (seq![(gk, gv)] + (fm + seq![gb] + fr)));
                    }
                    res
                },
                ByteOrd::Greater => {
                    proof {
                        lemma_lex_ne(ga.0, gk);
                        lemma_keys_below_weaken(fl, ga.0, gk);
                    }
                    match compare_bytes(&key, &b.key) {
                        ByteOrd::Less => {
                            let ghost s1 = fl + seq![ga];
                            let ghost s2 = seq![gb] + fr;
                            proof {
                                assert(flat(n0) =~= s1 + (fm + s2));
                                lemma_keys_below_concat(fl, seq![ga], gk);
                                lemma_ins_concat_right(s1, fm + s2, gk, gv);
                                lemma_keys_above_weaken(fr, gb.0, gk);
                                lemma_keys_above_concat(seq![gb], fr, gk);
                                lemma_ins_concat_left(fm, s2, gk, gv);
                            }
                            let sub = node_insert(
                                *m,
                                key,
                                val,
                                Ghost(Some(ga.0)),
                                Ghost(Some(gb.0)),
                            );
                            let res = finish_int3_mid(
                                l,
                                a,
                                sub,
                                b,
                                r,
                                Ghost(hl),
                                Ghost(lo),
                                Ghost(hi),
                            );
                            proof {
                                assert(ins_flat(res) =~= s1 + (ins(fm, gk, gv) + s2));
                            }
                            res
                        },
                        ByteOrd::Equal => {
                            let ghost s1 = fl + seq![ga] + fm;
                            let ghost s2 = seq![gb] + fr;
                            proof {
                                assert(flat(n0) =~= s1 + s2);
                                lemma_keys_below_concat(fl, seq![ga], gk);
                                lemma_keys_below_concat(fl + seq![ga], fm, gk);
                                lemma_ins_concat_right(s1, s2, gk, gv);
                                lemma_lex_irreflexive(gk);
                                assert(s2[0] == gb);
                                assert(s2.drop_first() =~= fr);
                                assert(ins(s2, gk, gv) == seq![(gk, gv)] + fr);
                            }
                            let res = InsertResult::Fit(
                                Node::Int3 { l, a, m, b: Entry { key, val }, r },
                            );
                            proof {
                                assert(ins_flat(res) =~= s1 + (seq![(gk, gv)] + fr));
                            }
                            res
                        },
                        ByteOrd::Greater => {
                            let ghost s1 = fl + seq![ga] + fm + seq![gb];
                            proof {
                                assert(flat(n0) =~= s1 + fr);
                                lemma_lex_ne(gb.0, gk);
                                lemma_keys_below_weaken(fm, gb.0, gk);
                                lemma_keys_below_concat(fl, seq![ga], gk);
                                lemma_keys_below_concat(fl + seq![ga], fm, gk);
                                lemma_keys_below_concat(fl + seq![ga] + fm, seq![gb], gk);
                                lemma_ins_concat_right(s1, fr, gk, gv);
                            }
                            let sub = node_insert(*r, key, val, Ghost(Some(gb.0)), Ghost(hi));
                            let res = finish_int3_greater(
                                l,
                                a,
                                m,
                                b,
                                sub,
                                Ghost(hl),
                                Ghost(lo),
                                Ghost(hi),
                            );
                            proof {
                                assert(ins_flat(res) =~= s1 + ins(fr, gk, gv));
                            }
                            res
                        },
                    }
                },
            }
        },
    }
}

/// Copies a byte string, preserving its contents.
pub fn clone_bytes(v: &Vec<u8>) -> (r: Vec<u8>)
    ensures
        r@ == v@,
{
    let r = v.clone();
    proof {
        assert(r@ =~= v@);
    }
    r
}

/// Copies an entry, preserving key and value.
pub fn clone_entry(e: &Entry) -> (r: Entry)
    ensures
        r@ == e@,
{
    Entry { key: clone_bytes(&e.key), val: clone_bytes(&e.val) }
}

/// The entry sequence a vector of entries stands for.
pub open spec fn ev(s: Seq<Entry>) -> Seq<(Seq<u8>, Seq<u8>)> {
    s.map_values(|e: Entry| e@)
}

/// Appends the subtree's entries to `out` in ascending key order.
fn node_entries(n: &Node, out: &mut Vec<Entry>)
    ensures
        ev(final(out)@) == ev(old(out)@) + flat(*n),
    decreases *n,
{
    match n {
        Node::Leaf1 { a } => {
            out.push(clone_entry(a));
            proof {
                assert(ev(out@) =~= ev(old(out)@) + flat(*n));
            }
        },
        Node::Leaf2 { a, b } => {
            out.push(clone_entry(a));
            out.push(clone_entry(b));
            proof {
                assert(ev(out@) =~= ev(old(out)@) + flat(*n));
            }
        },
        Node::Int2 { l, a, r } => {
            node_entries(l, out);
            let ghost o1 = out@;
            out.push(clone_entry(a));
            proof {
                assert(ev(out@) =~= ev(o1) + seq![a@]);
            }
            let ghost o2 = out@;
            node_entries(r, out);
            proof {
                assert(ev(out@) == ev(o2) + flat(**r));
                assert(ev(out@) =~= ev(old(out)@) + flat(*n));
            }
        },
        Node::Int3 { l, a, m, b, r } => {
            node_entries(l, out);
            let ghost o1 = out@;
            out.push(clone_entry(a));
            proof {
                assert(ev(out@) =~= ev(o1) + seq![a@]);
            }
            node_entries(m, out);
            let ghost o3 = out@;
            out.push(clone_entry(b));
            proof {
                assert(ev(out@) =~= ev(o3) + seq![b@]);
            }
            let ghost o4 = out@;
            node_entries(r, out);
            proof {
                assert(ev(out@) == ev(o4) + flat(**r));
                assert(ev(out@) =~= ev(old(out)@) + flat(*n));
            }
        },
    }
}

/// The persistent ordered map over byte-string keys and values.
///
/// Its abstract value, `self@`, is the in-order entry sequence; under the
/// invariant it is strictly sorted by key, so it also reads as a map.
pub struct BTree {
    pub root: Option<Node>,
}

impl BTree {
    /// The in-order entry sequence of the whole tree.
    pub open spec fn view(&self) -> Seq<(Seq<u8>, Seq<u8>)> {
        match self.root {
            None => Seq::empty(),
            Some(n) => flat(n),
        }
    }

    /// Structural invariant: the root, when present, is a well-formed
    /// B-tree over the unbounded key interval.
    pub open spec fn inv(&self) -> bool {
        match self.root {
            None => true,
            Some(n) => wf(n, None, None),
        }
    }

    /// The empty map.
    pub fn new() -> (t: BTree)
        ensures
            t.inv(),
            t@ == Seq::<(Seq<u8>, Seq<u8>)>::empty(),
    {
        BTree { root: None }
    }

    /// Point lookup: the value stored under `k`, if any.  Never mutates
    /// storage.
    pub fn get<'a>(&'a self, k: &Vec<u8>) -> (r: Option<&'a Vec<u8>>)
        requires
            self.inv(),
        ensures
            match r {
                Some(v) => find(self@, k@) == Some(v@),
                None => find(self@, k@) is None,
            },
    {
        match &self.root {
            None => None,
            Some(n) => node_get(n, k, Ghost(None), Ghost(None)),
        }
    }

    /// Insert-or-update: maps `key` to `val`, leaving every other entry
    /// unchanged; grows the tree by a root split when the root overflows.
    pub fn insert(&mut self, key: Vec<u8>, val: Vec<u8>)
        requires
            old(self).inv(),
        ensures
            final(self).inv(),
            final(self)@ == ins(old(self)@, key@, val@),
    {
        let ghost gk = key@;
        let ghost gv = val@;
        let root = self.root.take();
        match root {
            None => {
                self.root = Some(Node::Leaf1 { a: Entry { key, val } });
                proof {
                    assert(self@ =~= ins(old(self)@, gk, gv));
                }
            },
            Some(n) => {
                match node_insert(n, key, val, Ghost(None), Ghost(None)) {
                    InsertResult::Fit(n2) => {
                        self.root = Some(n2);
                    },
                    InsertResult::Split(x, e, y) => {
                        self.root = Some(
                            Node::Int2 { l: Box::new(x), a: e, r: Box::new(y) },
                        );
                        proof {
                            assert(self@ =~= ins(old(self)@, gk, gv));
                        }
                    },
                }
            },
        }
    }

    /// All entries in ascending key order.
    pub fn entries(&self) -> (out: Vec<Entry>)
        requires
            self.inv(),
        ensures
            ev(out@) == self@,
    {
        let mut out: Vec<Entry> = Vec::new();
        proof {
            assert(ev(out@) =~= Seq::<(Seq<u8>, Seq<u8>)>::empty());
        }
        match &self.root {
            None => out,
            Some(n) => {
                node_entries(n, &mut out);
                proof {
                    assert(Seq::<(Seq<u8>, Seq<u8>)>::empty() + flat(*n) =~= flat(*n));
                }
                out
            },
        }
    }

    /// Restartable in-order iteration from a lower bound: all entries whose
    /// key is at least `from`, ascending.  Each call walks afresh.
    pub fn iterate_from(&self, from: &Vec<u8>) -> (out: Vec<Entry>)
        requires
            self.inv(),
        ensures
            ev(out@) == drop_below(self@, from@),
    {
        let all = self.entries();
        let n = all.len();
        let ghost s = ev(all@);
        let mut i: usize = 0;
        proof {
            assert(s.subrange(0, n as int) =~= s);
        }
        loop
            invariant
                i <= n,
                n == all@.len(),
                s == ev(all@),
                s.len() == n,
                self.inv(),
                ev(all@) == self@,
                drop_below(s, from@) == drop_below(s.subrange(i as int, n as int), from@),
            ensures
                i <= n,
                s == ev(all@),
                i < n ==> !lex_lt(s[i as int].0, from@),
                drop_below(s, from@) == drop_below(s.subrange(i as int, n as int), from@),
            decreases n - i,
        {
            let ghost tail = s.subrange(i as int, n as int);
            if i == n {
                break;
            }
            proof {
                assert(tail[0] == s[i as int]);
                assert(tail[0] == all@[i as int]@);
            }
            match compare_bytes(&all[i].key, from) {
                ByteOrd::Less => {
                    proof {
                        assert(tail.drop_first() =~= s.subrange(i + 1, n as int));
                    }
                    i = i + 1;
                },
                _ => {
                    proof {
                        assert(s[i as int] == all@[i as int]@);
                    }
                    break;
                },
            }
        }
        proof {
            if i == n {
                assert(s.subrange(i as int, n as int).len() == 0);
            } else {
                assert(s.subrange(i as int, n as int)[0] == all@[i as int]@);
                assert(!lex_lt(s.subrange(i as int, n as int)[0].0, from@));
            }
        }
        let mut out: Vec<Entry> = Vec::new();
        let mut j: usize = i;
        proof {
            assert(ev(out@) =~= s.subrange(i as int, i as int));
        }
        while j < n
            invariant
                i <= j <= n,
                n == all@.len(),
                s == ev(all@),
                ev(out@) == s.subrange(i as int, j as int),
            decreases n - j,
        {
            let ghost oprev = out@;
            out.push(clone_entry(&all[j]));
            proof {
                assert(ev(oprev) == s.subrange(i as int, j as int));
                assert(ev(oprev).len() == oprev.len());
                assert(ev(out@).len() == out@.len());
                assert(oprev.len() == j - i);
                assert(s[j as int] == all@[j as int]@);
                assert forall|idx: int| 0 <= idx < oprev.len() implies #[trigger] ev(out@)[idx]
                    == ev(oprev)[idx] by {
                    assert(out@[idx] == oprev[idx]);
                }
                assert(out@[oprev.len() as int]@ == all@[j as int]@);
                assert(ev(out@)[oprev.len() as int] == s[j as int]);
                assert forall|idx: int| 0 <= idx < ev(out@).len() implies #[trigger] ev(
                    out@,
                )[idx] == s.subrange(i as int, j + 1)[idx] by {
                    if idx < oprev.len() {
                        assert(ev(out@)[idx] == ev(oprev)[idx]);
                        assert(ev(oprev)[idx] == s.subrange(i as int, j as int)[idx]);
                        assert(s.subrange(i as int, j as int)[idx] == s[i + idx]);
                        assert(s.subrange(i as int, j + 1)[idx] == s[i + idx]);
                    } else {
                        assert(idx == oprev.len());
                        assert(s.subrange(i as int, j + 1)[idx] == s[j as int]);
                    }
                }
                assert(ev(out@).len() == s.subrange(i as int, j + 1).len());
                assert(ev(out@) =~= s.subrange(i as int, j + 1));
            }
            j = j + 1;
        }
        proof {
            let tail = s.subrange(i as int, n as int);
            if i < n {
                assert(tail[0] == s[i as int]);
                assert(drop_below(tail, from@) == tail);
            } else {
                assert(tail.len() == 0);
                assert(drop_below(tail, from@) == tail);
            }
        }
        out
    }
}

/// A well-formed tree's entry sequence is strictly sorted by key: iteration
/// yields keys in strictly increasing order, with no duplicates and no
/// omissions relative to the entry sequence itself.
pub proof fn lemma_tree_sorted(t: BTree)
    requires
        t.inv(),
    ensures
        sorted(t@),
{
    match t.root {
        None => {
        },
        Some(n) => {
            lemma_flat_wf(n, None, None);
        },
    }
}

} // verus!
