//! The persistent, copy-on-write B-tree behind each index. A tree is named
//! by the key of its root node; every mutation stores fresh nodes and
//! returns a new root key, sharing all unaffected nodes with its
//! predecessor. Old roots stay readable for ever: the store is append-only
//! and a key never changes meaning, which is also what grounds the
//! termination of the tree-walking specifications (every child key is
//! strictly smaller than the key of its parent).

use vstd::prelude::*;

use crate::order::{
    IndexOrder, RecV, Record, lemma_rec_lt_connected, lemma_rec_lt_trans, rec_eq_exec, rec_lt,
    rec_lt_exec, rec_lte, recs_view,
};
use crate::store::{HeapStore, Node, NodeV, clone_records, clone_refs};

verus! {

/// Fanout: a node holding more than this many entries is split.
pub const FANOUT: usize = 16;

/// The records below node `r`, in tree order. A reference out of range
/// yields nothing; child references are only followed downwards (toward
/// smaller keys), matching the append-only store discipline.
pub open spec fn subtree(nodes: Seq<NodeV>, r: int) -> Seq<RecV>
    decreases r, 1int, 0int,
{
    if 0 <= r {
        match nodes[r] {
            NodeV::Leaf { records } => records,
            NodeV::Internal { keys, children } => subtrees(nodes, children, r),
        }
    } else {
        Seq::empty()
    }
}

/// The concatenated records below a list of child references, each child
/// reference being below `bound`.
pub open spec fn subtrees(nodes: Seq<NodeV>, ch: Seq<nat>, bound: int) -> Seq<RecV>
    decreases bound, 0int, ch.len(),
{
    if ch.len() == 0 {
        Seq::empty()
    } else if ch[0] < bound {
        subtree(nodes, ch[0] as int) + subtrees(nodes, ch.drop_first(), bound)
    } else {
        subtrees(nodes, ch.drop_first(), bound)
    }
}

/// Strictly sorted under the given order.
pub open spec fn sorted_recs(o: IndexOrder, s: Seq<RecV>) -> bool {
    forall|i: int, j: int| 0 <= i < j < s.len() ==> rec_lt(o, s[i], s[j])
}

pub open spec fn all_lte(o: IndexOrder, s: Seq<RecV>, b: RecV) -> bool {
    forall|i: int| 0 <= i < s.len() ==> rec_lte(o, s[i], b)
}

pub open spec fn all_gt(o: IndexOrder, s: Seq<RecV>, b: RecV) -> bool {
    forall|i: int| 0 <= i < s.len() ==> rec_lt(o, b, s[i])
}

pub open spec fn all_lt(o: IndexOrder, s: Seq<RecV>, b: RecV) -> bool {
    forall|i: int| 0 <= i < s.len() ==> rec_lt(o, s[i], b)
}

/// Well-formedness of the tree rooted at `r`: leaves are sorted; an
/// internal node has one more child than it has separator keys, every
/// child lies strictly below it in the store and is itself well-formed and
/// nonempty, and the keys bound the children: everything below child `i`
/// is at most key `j` when `i <= j` and above key `j` when `i > j`.
pub open spec fn wf_node(nodes: Seq<NodeV>, r: int, o: IndexOrder) -> bool
    decreases r, 1int, 0int,
{
    0 <= r < nodes.len() && match nodes[r] {
        NodeV::Leaf { records } => sorted_recs(o, records),
        NodeV::Internal { keys, children } => {
            &&& children.len() == keys.len() + 1
            &&& keys.len() >= 1
            &&& (forall|i: int|
                0 <= i < children.len() ==> children[i] < r && wf_node(
                    nodes,
                    #[trigger] children[i] as int,
                    o,
                ) && subtree(nodes, children[i] as int).len() > 0)
            &&& (forall|i: int, j: int|
                0 <= i < children.len() && 0 <= j < keys.len() ==> ((i <= j ==> all_lte(
                    o,
                    subtree(nodes, #[trigger] children[i] as int, ),
                    #[trigger] keys[j],
                )) && (i > j ==> all_gt(o, subtree(nodes, children[i] as int), keys[j]))))
        },
    }
}

/// The subsequence of records satisfying a predicate, in order.
pub open spec fn filter_recs(s: Seq<RecV>, pred: spec_fn(RecV) -> bool) -> Seq<RecV>
    decreases s.len(),
{
    if s.len() == 0 {
        Seq::empty()
    } else if pred(s[0]) {
        seq![s[0]] + filter_recs(s.drop_first(), pred)
    } else {
        filter_recs(s.drop_first(), pred)
    }
}

/// Sorted insertion: the sequence with `x` placed before the first element
/// it is not greater than; inserting an element already present changes
/// nothing.
pub open spec fn seq_insert(o: IndexOrder, s: Seq<RecV>, x: RecV) -> Seq<RecV>
    decreases s.len(),
{
    if s.len() == 0 {
        seq![x]
    } else if rec_lt(o, s[0], x) {
        seq![s[0]] + seq_insert(o, s.drop_first(), x)
    } else if s[0] == x {
        s
    } else {
        seq![x] + s
    }
}

/// Concatenation of child lists concatenates their contents.
pub proof fn lemma_subtrees_append(nodes: Seq<NodeV>, ch1: Seq<nat>, ch2: Seq<nat>, bound: int)
    requires
        bound <= nodes.len(),
    ensures
        subtrees(nodes, ch1 + ch2, bound) == subtrees(nodes, ch1, bound) + subtrees(
            nodes,
            ch2,
            bound,
        ),
    decreases ch1.len(),
{
    if ch1.len() == 0 {
        assert(ch1 + ch2 =~= ch2);
        assert(subtrees(nodes, ch1, bound) + subtrees(nodes, ch2, bound) =~= subtrees(
            nodes,
            ch2,
            bound,
        ));
    } else {
        let c = ch1 + ch2;
        assert(c[0] == ch1[0]);
        assert(c.drop_first() =~= ch1.drop_first() + ch2);
        lemma_subtrees_append(nodes, ch1.drop_first(), ch2, bound);
        if ch1[0] < bound {
            assert(subtrees(nodes, c, bound) =~= subtrees(nodes, ch1, bound) + subtrees(
                nodes,
                ch2,
                bound,
            ));
        } else {
            assert(subtrees(nodes, c, bound) =~= subtrees(nodes, ch1, bound) + subtrees(
                nodes,
                ch2,
                bound,
            ));
        }
    }
}

/// Appending nodes to the store changes no existing subtree and breaks no
/// existing well-formedness: a key's meaning is permanent.
pub proof fn lemma_subtree_extend(nodes1: Seq<NodeV>, nodes2: Seq<NodeV>, r: int, o: IndexOrder)
    requires
        nodes1.len() <= nodes2.len(),
        forall|i: int| 0 <= i < nodes1.len() ==> nodes2[i] == nodes1[i],
        0 <= r < nodes1.len(),
    ensures
        subtree(nodes2, r) == subtree(nodes1, r),
        wf_node(nodes1, r, o) ==> wf_node(nodes2, r, o),
    decreases r, 1int, 0int,
{
    match nodes1[r] {
        NodeV::Leaf { records } => {},
        NodeV::Internal { keys, children } => {
            lemma_subtrees_extend(nodes1, nodes2, children, r, o);
            if wf_node(nodes1, r, o) {
                assert forall|i: int| 0 <= i < children.len() implies children[i] < r && wf_node(
                    nodes2,
                    #[trigger] children[i] as int,
                    o,
                ) && subtree(nodes2, children[i] as int).len() > 0 by {
                    lemma_subtree_extend(nodes1, nodes2, children[i] as int, o);
                }
                assert forall|i: int, j: int|
                    0 <= i < children.len() && 0 <= j < keys.len() implies ((i <= j ==> all_lte(
                    o,
                    subtree(nodes2, #[trigger] children[i] as int, ),
                    #[trigger] keys[j],
                )) && (i > j ==> all_gt(o, subtree(nodes2, children[i] as int), keys[j]))) by {
                    lemma_subtree_extend(nodes1, nodes2, children[i] as int, o);
                }
            }
        },
    }
}

pub proof fn lemma_subtrees_extend(
    nodes1: Seq<NodeV>,
    nodes2: Seq<NodeV>,
    ch: Seq<nat>,
    bound: int,
    o: IndexOrder,
)
    requires
        nodes1.len() <= nodes2.len(),
        forall|i: int| 0 <= i < nodes1.len() ==> nodes2[i] == nodes1[i],
        0 <= bound <= nodes1.len(),
    ensures
        subtrees(nodes2, ch, bound) == subtrees(nodes1, ch, bound),
    decreases bound, 0int, ch.len(),
{
    if ch.len() > 0 {
        if ch[0] < bound {
            lemma_subtree_extend(nodes1, nodes2, ch[0] as int, o);
        }
        lemma_subtrees_extend(nodes1, nodes2, ch.drop_first(), bound, o);
    }
}

/// A bound holding below every child holds of the concatenation.
pub proof fn lemma_subtrees_all(
    nodes: Seq<NodeV>,
    ch: Seq<nat>,
    bound: int,
    o: IndexOrder,
    b: RecV,
)
    requires
        bound <= nodes.len(),
    ensures
        (forall|i: int|
            0 <= i < ch.len() ==> all_gt(o, subtree(nodes, #[trigger] ch[i] as int), b)) ==> all_gt(
            o,
            subtrees(nodes, ch, bound),
            b,
        ),
        (forall|i: int|
            0 <= i < ch.len() ==> all_lte(o, subtree(nodes, #[trigger] ch[i] as int), b))
            ==> all_lte(o, subtrees(nodes, ch, bound), b),
        (forall|i: int|
            0 <= i < ch.len() ==> all_lt(o, subtree(nodes, #[trigger] ch[i] as int), b)) ==> all_lt(
            o,
            subtrees(nodes, ch, bound),
            b,
        ),
    decreases ch.len(),
{
    if ch.len() > 0 {
        lemma_subtrees_all(nodes, ch.drop_first(), bound, o, b);
        assert(forall|i: int|
            0 <= i < ch.drop_first().len() ==> ch.drop_first()[i] == ch[i + 1]);
    }
}

/// Well-formedness gives global sortedness of the contents.
pub proof fn lemma_wf_sorted(nodes: Seq<NodeV>, r: int, o: IndexOrder)
    requires
        wf_node(nodes, r, o),
    ensures
        sorted_recs(o, subtree(nodes, r)),
    decreases r, 1int, 0int,
{
    match nodes[r] {
        NodeV::Leaf { records } => {},
        NodeV::Internal { keys, children } => {
            lemma_children_sorted(nodes, children, keys, r, o);
        },
    }
}

/// The concatenation below an internal node's children is sorted, given
/// each child sorted and the separator-key bounds.
proof fn lemma_children_sorted(
    nodes: Seq<NodeV>,
    ch: Seq<nat>,
    keys: Seq<RecV>,
    bound: int,
    o: IndexOrder,
)
    requires
        0 <= bound <= nodes.len(),
        ch.len() == keys.len() + 1,
        forall|i: int|
            0 <= i < ch.len() ==> ch[i] < bound && wf_node(nodes, #[trigger] ch[i] as int, o),
        forall|i: int, j: int|
            0 <= i < ch.len() && 0 <= j < keys.len() ==> ((i <= j ==> all_lte(
                o,
                subtree(nodes, #[trigger] ch[i] as int, ),
                #[trigger] keys[j],
            )) && (i > j ==> all_gt(o, subtree(nodes, ch[i] as int), keys[j]))),
    ensures
        sorted_recs(o, subtrees(nodes, ch, bound)),
    decreases bound, 0int, ch.len(),
{
    let whole = subtrees(nodes, ch, bound);
    let c0 = subtree(nodes, ch[0] as int);
    let rest = subtrees(nodes, ch.drop_first(), bound);
    assert(whole == c0 + rest);
    lemma_wf_sorted(nodes, ch[0] as int, o);
    if keys.len() == 0 {
        assert(ch.drop_first().len() == 0);
        assert(whole =~= c0);
    } else {
        let d = ch.drop_first();
        let kd = keys.drop_first();
        assert(forall|i: int| 0 <= i < d.len() ==> d[i] == ch[i + 1]);
        assert(forall|j: int| 0 <= j < kd.len() ==> kd[j] == keys[j + 1]);
        lemma_children_sorted(nodes, d, kd, bound, o);
        // everything under the remaining children is above keys[0]
        assert forall|i: int|
            0 <= i < d.len() implies all_gt(o, subtree(nodes, #[trigger] d[i] as int), keys[0]) by {
            assert(d[i] == ch[i + 1]);
        }
        lemma_subtrees_all(nodes, d, bound, o, keys[0]);
        assert(all_gt(o, rest, keys[0]));
        assert(all_lte(o, c0, keys[0]));
        assert forall|i: int, j: int| 0 <= i < j < whole.len() implies rec_lt(
            o,
            whole[i],
            whole[j],
        ) by {
            if j < c0.len() {
                assert(whole[i] == c0[i] && whole[j] == c0[j]);
            } else if i >= c0.len() {
                assert(whole[i] == rest[i - c0.len()] && whole[j] == rest[j - c0.len()]);
            } else {
                assert(whole[i] == c0[i] && whole[j] == rest[j - c0.len()]);
                assert(rec_lte(o, c0[i], keys[0]));
                assert(rec_lt(o, keys[0], rest[j - c0.len()]));
                if rec_lt(o, c0[i], keys[0]) {
                    lemma_rec_lt_trans(o, c0[i], keys[0], rest[j - c0.len()]);
                }
            }
        }
    }
}

/// The contents below a child list do not depend on the bound, as long as
/// every reference stays below it.
pub proof fn lemma_subtrees_bound(nodes: Seq<NodeV>, ch: Seq<nat>, b1: int, b2: int)
    requires
        forall|i: int| 0 <= i < ch.len() ==> ch[i] < b1,
        b1 <= b2,
    ensures
        subtrees(nodes, ch, b2) == subtrees(nodes, ch, b1),
    decreases ch.len(),
{
    if ch.len() > 0 {
        assert(forall|i: int|
            0 <= i < ch.drop_first().len() ==> ch.drop_first()[i] == ch[i + 1]);
        lemma_subtrees_bound(nodes, ch.drop_first(), b1, b2);
    }
}

/// Inserting an element greater than all of `a` passes through `a`.
pub proof fn lemma_insert_back(o: IndexOrder, a: Seq<RecV>, m: Seq<RecV>, x: RecV)
    requires
        all_lt(o, a, x),
    ensures
        seq_insert(o, a + m, x) == a + seq_insert(o, m, x),
    decreases a.len(),
{
    if a.len() == 0 {
        assert(a + m =~= m);
        assert(a + seq_insert(o, m, x) =~= seq_insert(o, m, x));
    } else {
        let s = a + m;
        assert(s[0] == a[0]);
        assert(rec_lt(o, s[0], x));
        assert(s.drop_first() =~= a.drop_first() + m);
        assert(forall|i: int| 0 <= i < a.drop_first().len() ==> a.drop_first()[i] == a[i + 1]);
        lemma_insert_back(o, a.drop_first(), m, x);
        assert(seq_insert(o, s, x) == seq![s[0]] + seq_insert(o, s.drop_first(), x));
        assert(seq![a[0]] + (a.drop_first() + seq_insert(o, m, x)) =~= a + seq_insert(o, m, x));
    }
}

/// Inserting an element below all of `b` never reaches `b`.
pub proof fn lemma_insert_front(o: IndexOrder, m: Seq<RecV>, b: Seq<RecV>, x: RecV)
    requires
        all_gt(o, b, x),
    ensures
        seq_insert(o, m + b, x) == seq_insert(o, m, x) + b,
    decreases m.len(),
{
    let s = m + b;
    if m.len() == 0 {
        assert(s =~= b);
        if b.len() == 0 {
            assert(seq_insert(o, m, x) + b =~= seq_insert(o, s, x));
        } else {
            assert(rec_lt(o, x, b[0]));
            lemma_rec_lt_connected(o, b[0], x);
            assert(!rec_lt(o, b[0], x) && b[0] != x);
            assert(seq_insert(o, s, x) == seq![x] + b);
            assert(seq_insert(o, m, x) =~= seq![x]);
            assert(seq![x] + b =~= seq_insert(o, m, x) + b);
        }
    } else {
        assert(s[0] == m[0]);
        assert(s.drop_first() =~= m.drop_first() + b);
        if rec_lt(o, m[0], x) {
            lemma_insert_front(o, m.drop_first(), b, x);
            assert(seq![s[0]] + (seq_insert(o, m.drop_first(), x) + b) =~= (seq![m[0]]
                + seq_insert(o, m.drop_first(), x)) + b);
        } else if m[0] == x {
            assert(seq_insert(o, s, x) == s);
            assert(seq_insert(o, m, x) == m);
        } else {
            assert(seq![x] + (m + b) =~= (seq![x] + m) + b);
        }
    }
}

/// Routing: inserting into the middle section of a bounded concatenation.
pub proof fn lemma_insert_mid(o: IndexOrder, a: Seq<RecV>, m: Seq<RecV>, b: Seq<RecV>, x: RecV)
    requires
        all_lt(o, a, x),
        all_gt(o, b, x),
    ensures
        seq_insert(o, a + m + b, x) == a + seq_insert(o, m, x) + b,
{
    lemma_insert_front(o, m, b, x);
    assert(a + m + b =~= a + (m + b));
    lemma_insert_back(o, a, m + b, x);
    assert(a + (seq_insert(o, m, x) + b) =~= a + seq_insert(o, m, x) + b);
}

/// Sorted insertion into a sorted sequence: the result is sorted, every
/// element is `x` or came from `s`, `x` occurs, and the multiset grows by
/// `x` exactly when `x` was absent.
#[verifier::rlimit(100)]
pub proof fn lemma_seq_insert_elems(o: IndexOrder, s: Seq<RecV>, x: RecV)
    requires
        sorted_recs(o, s),
    ensures
        sorted_recs(o, seq_insert(o, s, x)),
        forall|i: int|
            0 <= i < seq_insert(o, s, x).len() ==> seq_insert(o, s, x)[i] == x || s.contains(
                #[trigger] seq_insert(o, s, x)[i],
            ),
        seq_insert(o, s, x).contains(x),
        s.contains(x) ==> seq_insert(o, s, x) == s,
        !s.contains(x) ==> seq_insert(o, s, x).to_multiset() == s.to_multiset().insert(x),
        seq_insert(o, s, x).len() <= s.len() + 1,
        seq_insert(o, s, x).len() >= 1,
        seq_insert(o, s, x).len() >= s.len(),
    decreases s.len(),
{
    let r = seq_insert(o, s, x);
    if s.len() == 0 {
        assert(r == seq![x]);
        assert(r[0] == x);
        assert(r.to_multiset() =~= s.to_multiset().insert(x)) by {
            s.to_multiset_ensures();
            r.to_multiset_ensures();
            assert(r =~= s.push(x));
        }
    } else if rec_lt(o, s[0], x) {
        let d = s.drop_first();
        assert(forall|i: int, j: int| 0 <= i < j < d.len() ==> rec_lt(o, d[i], d[j]));
        lemma_seq_insert_elems(o, d, x);
        lemma_rec_lt_connected(o, s[0], x);
        let rr = seq_insert(o, d, x);
        assert(r == seq![s[0]] + rr);
        assert(r[0] == s[0]);
        assert forall|i: int| 0 <= i < r.len() implies r[i] == x || s.contains(#[trigger] r[i]) by {
            if i > 0 {
                assert(r[i] == rr[i - 1]);
                if rr[i - 1] != x {
                    assert(d.contains(rr[i - 1]));
                    let w = choose|w: int| 0 <= w < d.len() && d[w] == rr[i - 1];
                    assert(s[w + 1] == rr[i - 1]);
                }
            } else {
                assert(s[0] == r[i]);
            }
        }
        assert(rr.contains(x));
        let wx = choose|wx: int| 0 <= wx < rr.len() && rr[wx] == x;
        assert(r[wx + 1] == x);
        assert(r.contains(x));
        assert(sorted_recs(o, r)) by {
            assert forall|i: int, j: int| 0 <= i < j < r.len() implies rec_lt(o, r[i], r[j]) by {
                if i == 0 {
                    assert(r[j] == rr[j - 1]);
                    if rr[j - 1] == x {
                    } else {
                        assert(d.contains(rr[j - 1]));
                        let w = choose|w: int| 0 <= w < d.len() && d[w] == rr[j - 1];
                        assert(s[w + 1] == rr[j - 1]);
                        assert(rec_lt(o, s[0], s[w + 1]));
                    }
                } else {
                    assert(r[i] == rr[i - 1] && r[j] == rr[j - 1]);
                }
            }
        }
        if s.contains(x) {
            assert(s[0] != x);
            let w2 = choose|w2: int| 0 <= w2 < s.len() && s[w2] == x;
            assert(d[w2 - 1] == x);
            assert(d.contains(x));
            assert(rr == d);
            assert(r =~= s);
        } else {
            assert(!d.contains(x)) by {
                if d.contains(x) {
                    let w3 = choose|w3: int| 0 <= w3 < d.len() && d[w3] == x;
                    assert(s[w3 + 1] == x);
                }
            }
            assert(s =~= seq![s[0]] + d);
            assert(r.to_multiset() =~= s.to_multiset().insert(x)) by {
                vstd::seq_lib::lemma_multiset_commutative(seq![s[0]], rr);
                vstd::seq_lib::lemma_multiset_commutative(seq![s[0]], d);
            }
        }
    } else if s[0] == x {
        assert(r == s);
        assert(s[0] == x);
        assert(r.contains(x));
    } else {
        lemma_rec_lt_connected(o, s[0], x);
        assert(rec_lt(o, x, s[0]));
        assert(r == seq![x] + s);
        assert(r[0] == x);
        assert(r.contains(x));
        assert forall|i: int| 0 <= i < r.len() implies r[i] == x || s.contains(#[trigger] r[i]) by {
            if i > 0 {
                assert(r[i] == s[i - 1]);
            }
        }
        assert(sorted_recs(o, r)) by {
            assert forall|i: int, j: int| 0 <= i < j < r.len() implies rec_lt(o, r[i], r[j]) by {
                if i == 0 {
                    assert(r[j] == s[j - 1]);
                    if j - 1 > 0 {
                        lemma_rec_lt_trans(o, x, s[0], s[j - 1]);
                    }
                } else {
                    assert(r[i] == s[i - 1] && r[j] == s[j - 1]);
                }
            }
        }
        assert(!s.contains(x)) by {
            if s.contains(x) {
                let w = choose|w: int| 0 <= w < s.len() && s[w] == x;
                assert(w > 0);
                assert(rec_lt(o, s[0], s[w]));
                lemma_rec_lt_connected(o, s[0], x);
            }
        }
        assert(r.to_multiset() =~= s.to_multiset().insert(x)) by {
            vstd::seq_lib::lemma_multiset_commutative(seq![x], s);
            Seq::<RecV>::empty().to_multiset_ensures();
            assert(seq![x] =~= Seq::<RecV>::empty().push(x));
            assert(seq![x].to_multiset() == vstd::multiset::Multiset::<RecV>::empty().insert(x));
        }
    }
}

/// Mapping to views commutes with push.
pub proof fn lemma_recs_view_push(v: Seq<Record>, r: Record)
    ensures
        recs_view(v.push(r)) =~= recs_view(v).push(r@),
{
}

/// The result of inserting below one node: a replacement node, or a split
/// into two nodes with a separator key between them.
enum Ins {
    One(u64),
    Split(u64, Record, u64),
}

/// Insert a record into a sorted record vector, copy-on-write.
fn insert_sorted_vec(records: &Vec<Record>, rec: &Record, o: IndexOrder) -> (out: Vec<Record>)
    requires
        sorted_recs(o, recs_view(records@)),
    ensures
        recs_view(out@) == seq_insert(o, recs_view(records@), rec@),
        out@.len() >= 1,
        out@.len() <= records@.len() + 1,
    {
    let ghost s = recs_view(records@);
    let ghost x = rec@;
    let n = records.len();
    let mut out: Vec<Record> = Vec::new();
    let mut i: usize = 0;
    while i < n && rec_lt_exec(o, &records[i], rec)
        invariant
            i <= n,
            n == records@.len(),
            sorted_recs(o, s),
            s == recs_view(records@),
            x == rec@,
            recs_view(out@) =~= s.take(i as int),
            forall|j: int| 0 <= j < i ==> rec_lt(o, s[j], x),
        decreases n - i,
    {
        let ghost out0 = out@;
        out.push(records[i].clone());
        proof {
            lemma_recs_view_push(out0, out@[out0.len() as int]);
            assert(out@ =~= out0.push(out@[out0.len() as int]));
            assert(recs_view(out@) =~= s.take(i + 1));
        }
        i = i + 1;
    }
    proof {
        assert(s =~= s.take(i as int) + s.skip(i as int));
        lemma_insert_back(o, s.take(i as int), s.skip(i as int), x);
    }
    let ghost done = i as int;
    if i < n && rec_eq_exec(&records[i], rec) {
        // already present: the insertion is the identity
        proof {
            let tail = s.skip(done);
            assert(tail[0] == s[done]);
            assert(tail[0] == x);
            lemma_rec_lt_connected(o, tail[0], x);
            assert(seq_insert(o, tail, x) == tail);
            assert(seq_insert(o, s, x) == s.take(done) + tail);
            assert(s.take(done) + tail =~= s);
        }
        while i < n
            invariant
                i <= n,
                n == records@.len(),
                s == recs_view(records@),
                recs_view(out@) =~= s.take(i as int),
            decreases n - i,
        {
            let ghost out0 = out@;
            out.push(records[i].clone());
            proof {
                lemma_recs_view_push(out0, out@[out0.len() as int]);
                assert(out@ =~= out0.push(out@[out0.len() as int]));
                assert(recs_view(out@) =~= s.take(i + 1));
            }
            i = i + 1;
        }
        proof {
            assert(recs_view(out@) =~= s);
        }
        out
    } else {
        proof {
            let tail = s.skip(done);
            if done < s.len() {
                assert(tail[0] == s[done]);
                assert(!rec_lt(o, tail[0], x) && tail[0] != x);
                assert(seq_insert(o, tail, x) == seq![x] + tail);
            } else {
                assert(tail.len() == 0);
                assert(seq_insert(o, tail, x) == seq![x]);
                assert(seq![x] =~= seq![x] + tail);
            }
            assert(seq_insert(o, s, x) == s.take(done) + (seq![x] + tail));
        }
        let ghost out1 = out@;
        out.push(rec.clone());
        proof {
            lemma_recs_view_push(out1, out@[out1.len() as int]);
            assert(out@ =~= out1.push(out@[out1.len() as int]));
            assert(recs_view(out@) =~= s.take(done) + seq![x]);
        }
        while i < n
            invariant
                0 <= done <= i <= n,
                n == records@.len(),
                s == recs_view(records@),
                x == rec@,
                recs_view(out@) =~= s.take(done) + seq![x] + s.subrange(done, i as int),
            decreases n - i,
        {
            let ghost out0 = out@;
            out.push(records[i].clone());
            proof {
                lemma_recs_view_push(out0, out@[out0.len() as int]);
                assert(out@ =~= out0.push(out@[out0.len() as int]));
                assert(recs_view(out@) =~= recs_view(out0).push(s[i as int]));
                assert(s.subrange(done, i as int).push(s[i as int]) =~= s.subrange(done, i + 1));
                assert(recs_view(out@) =~= s.take(done) + seq![x] + s.subrange(done, i + 1));
            }
            i = i + 1;
        }
        proof {
            assert(recs_view(out@) =~= s.take(done) + (seq![x] + s.skip(done)));
        }
        out
    }
}

/// Store a sorted run of records as a leaf, splitting at the median when
/// it exceeds the fanout.
fn emit_leaf(store: &mut HeapStore, out: Vec<Record>, o: IndexOrder) -> (res: Ins)
    requires
        sorted_recs(o, recs_view(out@)),
        out@.len() >= 1,
    ensures
        final(store).spec_contents() == old(store).spec_contents(),
        old(store).nodes().len() <= final(store).nodes().len(),
        forall|i: int|
            0 <= i < old(store).nodes().len() ==> final(store).nodes()[i] == old(
                store,
            ).nodes()[i],
        ins_ok(final(store).nodes(), res, o, recs_view(out@)),
{
    let ghost s = recs_view(out@);
    if out.len() <= FANOUT {
        let nr = store.add(Node::Leaf { records: out });
        proof {
            assert(subtree(store.nodes(), nr as int) == s);
        }
        Ins::One(nr)
    } else {
        let mut left = out;
        let mid = left.len() / 2;
        let right = left.split_off(mid);
        let sep = left[mid - 1].clone();
        let ghost ls = recs_view(left@);
        let ghost rs = recs_view(right@);
        proof {
            assert(ls =~= s.take(mid as int));
            assert(rs =~= s.skip(mid as int));
            assert(s =~= ls + rs);
            assert(forall|i: int, j: int| 0 <= i < j < ls.len() ==> rec_lt(o, ls[i], ls[j]));
            assert(forall|i: int, j: int| 0 <= i < j < rs.len() ==> rec_lt(o, rs[i], rs[j]));
            assert(sep@ == s[mid - 1]);
            assert forall|i: int| 0 <= i < ls.len() implies rec_lte(o, ls[i], sep@) by {
                if i < mid - 1 {
                    assert(rec_lt(o, s[i], s[mid - 1]));
                }
            }
            assert forall|i: int| 0 <= i < rs.len() implies rec_lt(o, sep@, rs[i]) by {
                assert(rs[i] == s[mid + i]);
                assert(rec_lt(o, s[mid - 1], s[mid + i]));
            }
        }
        let l = store.add(Node::Leaf { records: left });
        let ghost nodes_mid = store.nodes();
        let rr = store.add(Node::Leaf { records: right });
        proof {
            assert(subtree(nodes_mid, l as int) == ls);
            lemma_subtree_extend(nodes_mid, store.nodes(), l as int, o);
            assert(subtree(store.nodes(), l as int) == ls);
            assert(subtree(store.nodes(), rr as int) == rs);
            assert(wf_node(nodes_mid, l as int, o));
            assert(wf_node(store.nodes(), rr as int, o));
        }
        Ins::Split(l, sep, rr)
    }
}

/// What a successful node insertion guarantees: the replacement node (or
/// split pair with its separator) is well formed and carries exactly the
/// given records.
/// The conditions an internal node's parts must meet, stated against a
/// store: counts, valid well-formed nonempty children, and the separator
/// bounds.
spec fn internal_parts_ok(
    nodes: Seq<NodeV>,
    kv: Seq<RecV>,
    cv: Seq<nat>,
    o: IndexOrder,
) -> bool {
    &&& cv.len() == kv.len() + 1
    &&& kv.len() >= 1
    &&& (forall|i: int|
        0 <= i < cv.len() ==> cv[i] < nodes.len() && wf_node(nodes, #[trigger] cv[i] as int, o)
            && subtree(nodes, cv[i] as int).len() > 0)
    &&& (forall|i: int, j: int|
        0 <= i < cv.len() && 0 <= j < kv.len() ==> ((i <= j ==> all_lte(
            o,
            subtree(nodes, #[trigger] cv[i] as int, ),
            #[trigger] kv[j],
        )) && (i > j ==> all_gt(o, subtree(nodes, cv[i] as int), kv[j]))))
}

/// Store an internal node assembled from valid parts, splitting at the
/// median child when it exceeds the fanout.
fn emit_internal(store: &mut HeapStore, keys: Vec<Record>, children: Vec<u64>, o: IndexOrder) -> (res:
    Ins)
    requires
        internal_parts_ok(
            old(store).nodes(),
            recs_view(keys@),
            children@.map_values(|c: u64| c as nat),
            o,
        ),
    ensures
        final(store).spec_contents() == old(store).spec_contents(),
        old(store).nodes().len() <= final(store).nodes().len(),
        forall|i: int|
            0 <= i < old(store).nodes().len() ==> final(store).nodes()[i] == old(
                store,
            ).nodes()[i],
        ins_ok(
            final(store).nodes(),
            res,
            o,
            subtrees(
                old(store).nodes(),
                children@.map_values(|c: u64| c as nat),
                old(store).nodes().len() as int,
            ),
        ),
{
    let ghost nodes0 = store.nodes();
    let ghost kv = recs_view(keys@);
    let ghost cv = children@.map_values(|c: u64| c as nat);
    let ghost len0 = nodes0.len() as int;
    if children.len() <= FANOUT {
        let nr = store.add(Node::Internal { keys, children });
        proof {
            let nodes1 = store.nodes();
            assert(nodes1[nr as int] == NodeV::Internal { keys: kv, children: cv });
            lemma_subtrees_extend(nodes0, nodes1, cv, len0, o);
            lemma_subtrees_bound(nodes1, cv, len0, nr as int);
            assert(subtree(nodes1, nr as int) == subtrees(nodes0, cv, len0));
            assert forall|i: int| 0 <= i < cv.len() implies cv[i] < nr && wf_node(
                nodes1,
                #[trigger] cv[i] as int,
                o,
            ) && subtree(nodes1, cv[i] as int).len() > 0 by {
                lemma_subtree_extend(nodes0, nodes1, cv[i] as int, o);
            }
            assert forall|i: int, j: int|
                0 <= i < cv.len() && 0 <= j < kv.len() implies ((i <= j ==> all_lte(
                o,
                subtree(nodes1, #[trigger] cv[i] as int, ),
                #[trigger] kv[j],
            )) && (i > j ==> all_gt(o, subtree(nodes1, cv[i] as int), kv[j]))) by {
                lemma_subtree_extend(nodes0, nodes1, cv[i] as int, o);
            }
            assert(wf_node(nodes1, nr as int, o));
        }
        Ins::One(nr)
    } else {
        let mut lc = children;
        let h = lc.len() / 2;
        let rc = lc.split_off(h);
        let mut lk = keys;
        let rk = lk.split_off(h);
        let sep = lk.pop().unwrap();
        let ghost lcv = lc@.map_values(|c: u64| c as nat);
        let ghost rcv = rc@.map_values(|c: u64| c as nat);
        let ghost lkv = recs_view(lk@);
        let ghost rkv = recs_view(rk@);
        proof {
            assert(lcv =~= cv.take(h as int));
            assert(rcv =~= cv.skip(h as int));
            assert(lkv =~= kv.take(h - 1));
            assert(rkv =~= kv.skip(h as int));
            assert(sep@ == kv[h - 1]);
        }
        let l = store.add(Node::Internal { keys: lk, children: lc });
        let ghost nodes1 = store.nodes();
        let rr = store.add(Node::Internal { keys: rk, children: rc });
        let ghost nodes2 = store.nodes();
        proof {
            // children keep their meaning and well-formedness in the grown store
            assert forall|i: int| 0 <= i < cv.len() implies cv[i] < l && wf_node(
                nodes2,
                #[trigger] cv[i] as int,
                o,
            ) && subtree(nodes2, cv[i] as int) == subtree(nodes0, cv[i] as int) && subtree(
                nodes2,
                cv[i] as int,
            ).len() > 0 by {
                lemma_subtree_extend(nodes0, nodes2, cv[i] as int, o);
            }
            assert(nodes1[l as int] == NodeV::Internal { keys: lkv, children: lcv });
            assert(nodes2[l as int] == NodeV::Internal { keys: lkv, children: lcv });
            assert(nodes2[rr as int] == NodeV::Internal { keys: rkv, children: rcv });
            // the two halves carry the two halves of the contents
            lemma_subtrees_extend(nodes0, nodes2, lcv, len0, o);
            lemma_subtrees_extend(nodes0, nodes2, rcv, len0, o);
            lemma_subtrees_bound(nodes2, lcv, len0, l as int);
            lemma_subtrees_bound(nodes2, rcv, len0, rr as int);
            assert(subtree(nodes2, l as int) == subtrees(nodes0, lcv, len0));
            assert(subtree(nodes2, rr as int) == subtrees(nodes0, rcv, len0));
            assert(cv =~= lcv + rcv);
            lemma_subtrees_append(nodes0, lcv, rcv, len0);
            assert(subtree(nodes2, l as int) + subtree(nodes2, rr as int) == subtrees(
                nodes0,
                cv,
                len0,
            ));
            // well-formedness of the left half
            assert forall|i: int, j: int|
                0 <= i < lcv.len() && 0 <= j < lkv.len() implies ((i <= j ==> all_lte(
                o,
                subtree(nodes2, #[trigger] lcv[i] as int, ),
                #[trigger] lkv[j],
            )) && (i > j ==> all_gt(o, subtree(nodes2, lcv[i] as int), lkv[j]))) by {
                assert(lcv[i] == cv[i]);
                assert(lkv[j] == kv[j]);
            }
            assert(wf_node(nodes2, l as int, o));
            // well-formedness of the right half
            assert forall|i: int, j: int|
                0 <= i < rcv.len() && 0 <= j < rkv.len() implies ((i <= j ==> all_lte(
                o,
                subtree(nodes2, #[trigger] rcv[i] as int, ),
                #[trigger] rkv[j],
            )) && (i > j ==> all_gt(o, subtree(nodes2, rcv[i] as int), rkv[j]))) by {
                assert(rcv[i] == cv[h + i]);
                assert(rkv[j] == kv[h + j]);
            }
            assert(wf_node(nodes2, rr as int, o));
            // the separator bounds the halves
            assert forall|i: int|
                0 <= i < lcv.len() implies all_lte(
                o,
                subtree(nodes2, #[trigger] lcv[i] as int),
                sep@,
            ) by {
                assert(lcv[i] == cv[i]);
                assert(all_lte(o, subtree(nodes0, cv[i] as int), kv[h - 1]));
            }
            lemma_subtrees_all(nodes2, lcv, l as int, o, sep@);
            assert forall|i: int|
                0 <= i < rcv.len() implies all_gt(
                o,
                subtree(nodes2, #[trigger] rcv[i] as int),
                sep@,
            ) by {
                assert(rcv[i] == cv[h + i]);
                assert(all_gt(o, subtree(nodes0, cv[h + i] as int), kv[h - 1]));
            }
            lemma_subtrees_all(nodes2, rcv, rr as int, o, sep@);
            // both halves are nonempty
            assert(subtrees(nodes0, lcv, len0) == subtree(nodes0, lcv[0] as int) + subtrees(
                nodes0,
                lcv.drop_first(),
                len0,
            ));
            assert(subtree(nodes2, l as int).len() > 0);
            assert(subtrees(nodes0, rcv, len0) == subtree(nodes0, rcv[0] as int) + subtrees(
                nodes0,
                rcv.drop_first(),
                len0,
            ));
            assert(subtree(nodes2, rr as int).len() > 0);
        }
        Ins::Split(l, sep, rr)
    }
}

spec fn ins_ok(nodes: Seq<NodeV>, res: Ins, o: IndexOrder, expect: Seq<RecV>) -> bool {
    match res {
        Ins::One(nr) => {
            &&& wf_node(nodes, nr as int, o)
            &&& subtree(nodes, nr as int) == expect
        },
        Ins::Split(l, k, rr) => {
            &&& wf_node(nodes, l as int, o)
            &&& wf_node(nodes, rr as int, o)
            &&& subtree(nodes, l as int) + subtree(nodes, rr as int) == expect
            &&& all_lte(o, subtree(nodes, l as int), k@)
            &&& all_gt(o, subtree(nodes, rr as int), k@)
            &&& subtree(nodes, l as int).len() > 0
            &&& subtree(nodes, rr as int).len() > 0
        },
    }
}

/// Insert a record below node `r`, copy-on-write: fresh nodes are stored
/// for the whole path, and the result names the replacement (or the split
/// pair) whose contents are the sorted insertion into the old contents.
#[verifier::rlimit(100)]
#[verifier::spinoff_prover]
fn insert_at(store: &mut HeapStore, r: u64, rec: &Record, o: IndexOrder) -> (res: Ins)
    requires
        wf_node(old(store).nodes(), r as int, o),
    ensures
        final(store).spec_contents() == old(store).spec_contents(),
        old(store).nodes().len() <= final(store).nodes().len(),
        forall|i: int|
            0 <= i < old(store).nodes().len() ==> final(store).nodes()[i] == old(
                store,
            ).nodes()[i],
        ins_ok(
            final(store).nodes(),
            res,
            o,
            seq_insert(o, subtree(old(store).nodes(), r as int), rec@),
        ),
    decreases r, 1int,
{
    let ghost nodes0 = store.nodes();
    let ghost x = rec@;
    let node = store.get(r).clone();
    proof {
        assert(node@ == nodes0[r as int]);
    }
    match node {
        Node::Leaf { records } => {
            proof {
                assert(subtree(nodes0, r as int) == recs_view(records@));
                assert(sorted_recs(o, recs_view(records@)));
            }
            let out = insert_sorted_vec(&records, rec, o);
            proof {
                lemma_seq_insert_elems(o, recs_view(records@), x);
            }
            emit_leaf(store, out, o)
        },
        Node::Internal { keys, children } => insert_at_internal(store, r, rec, o, keys, children),
    }
}

/// Insert below an internal node: route to the child the separator keys
/// name, insert there, and rebuild this node around the replacement (or the
/// split pair).
#[verifier::rlimit(100)]
#[verifier::spinoff_prover]
fn insert_at_internal(
    store: &mut HeapStore,
    r: u64,
    rec: &Record,
    o: IndexOrder,
    keys: Vec<Record>,
    children: Vec<u64>,
) -> (res: Ins)
    requires
        wf_node(old(store).nodes(), r as int, o),
        old(store).nodes()[r as int] == (NodeV::Internal {
            keys: recs_view(keys@),
            children: children@.map_values(|c: u64| c as nat),
        }),
    ensures
        final(store).spec_contents() == old(store).spec_contents(),
        old(store).nodes().len() <= final(store).nodes().len(),
        forall|i: int|
            0 <= i < old(store).nodes().len() ==> final(store).nodes()[i] == old(
                store,
            ).nodes()[i],
        ins_ok(
            final(store).nodes(),
            res,
            o,
            seq_insert(o, subtree(old(store).nodes(), r as int), rec@),
        ),
    decreases r, 0int,
{
    let ghost nodes0 = store.nodes();
    let ghost x = rec@;
    {
        {
            let ghost kv = recs_view(keys@);
            let ghost cv = children@.map_values(|c: u64| c as nat);
            proof {
                assert(nodes0[r as int] == NodeV::Internal { keys: kv, children: cv });
                assert(subtree(nodes0, r as int) == subtrees(nodes0, cv, r as int));
            }
            let nk = keys.len();
            let mut i: usize = 0;
            while i < nk && rec_lt_exec(o, &keys[i], rec)
                invariant
                    i <= nk,
                    nk == keys@.len(),
                    kv == recs_view(keys@),
                    x == rec@,
                    forall|j: int| 0 <= j < i ==> rec_lt(o, kv[j], x),
                decreases nk - i,
            {
                i = i + 1;
            }
            proof {
                if i < nk {
                    lemma_rec_lt_connected(o, kv[i as int], x);
                    assert(rec_lte(o, x, kv[i as int]));
                }
                // the separator keys are strictly increasing
                assert forall|j1: int, j2: int| 0 <= j1 < j2 < kv.len() implies rec_lt(
                    o,
                    kv[j1],
                    kv[j2],
                ) by {
                    let mid = subtree(nodes0, cv[j1 + 1] as int);
                    assert(mid.len() > 0);
                    assert(rec_lt(o, kv[j1], mid[0]));
                    assert(rec_lte(o, mid[0], kv[j2]));
                    if rec_lt(o, mid[0], kv[j2]) {
                        lemma_rec_lt_trans(o, kv[j1], mid[0], kv[j2]);
                    }
                }
            }
            let c = children[i];
            proof {
                assert(cv[i as int] == c as nat);
                assert(wf_node(nodes0, c as int, o));
            }
            let res_child = insert_at(store, c, rec, o);
            let ghost nodes1 = store.nodes();
            let ghost ci = subtree(nodes0, c as int);
            let ghost s_new = seq_insert(o, ci, x);
            let ghost av = cv.take(i as int);
            let ghost bv = cv.skip(i + 1);
            let ghost aa = subtrees(nodes0, av, r as int);
            let ghost bb = subtrees(nodes0, bv, r as int);
            proof {
                // decompose the old contents around the chosen child
                assert(cv =~= av + (seq![cv[i as int]] + bv));
                lemma_subtrees_append(nodes0, av, seq![cv[i as int]] + bv, r as int);
                lemma_subtrees_append(nodes0, seq![cv[i as int]], bv, r as int);
                assert(subtrees(nodes0, seq![cv[i as int]], r as int) =~= ci) by {
                    let one = seq![cv[i as int]];
                    assert(one[0] == cv[i as int]);
                    assert(one[0] < r as int);
                    assert(one.drop_first() =~= Seq::<nat>::empty());
                    assert(subtrees(nodes0, Seq::<nat>::empty(), r as int) =~= Seq::<RecV>::empty());
                    assert(ci + Seq::<RecV>::empty() =~= ci);
                }
                assert(subtrees(nodes0, cv, r as int) == aa + ci + bb) by {
                    assert(aa + (ci + bb) =~= aa + ci + bb);
                }
                // everything left of the child is below x, everything right is above
                assert forall|j: int|
                    0 <= j < av.len() implies all_lt(
                    o,
                    subtree(nodes0, #[trigger] av[j] as int),
                    x,
                ) by {
                    assert(av[j] == cv[j]);
                    assert(all_lte(o, subtree(nodes0, cv[j] as int), kv[j]));
                    assert(rec_lt(o, kv[j], x));
                    assert forall|p: int|
                        0 <= p < subtree(nodes0, cv[j] as int).len() implies rec_lt(
                        o,
                        subtree(nodes0, cv[j] as int)[p],
                        x,
                    ) by {
                        let e = subtree(nodes0, cv[j] as int)[p];
                        if rec_lt(o, e, kv[j]) {
                            lemma_rec_lt_trans(o, e, kv[j], x);
                        }
                    }
                }
                lemma_subtrees_all(nodes0, av, r as int, o, x);
                assert(all_lt(o, aa, x));
                assert forall|j: int|
                    0 <= j < bv.len() implies all_gt(
                    o,
                    subtree(nodes0, #[trigger] bv[j] as int),
                    x,
                ) by {
                    assert(bv[j] == cv[j + i + 1]);
                    assert(all_gt(o, subtree(nodes0, cv[j + i + 1] as int), kv[i as int]));
                    assert(rec_lte(o, x, kv[i as int]));
                    let sbj = subtree(nodes0, cv[j + i + 1] as int);
                    assert forall|p: int| 0 <= p < sbj.len() implies rec_lt(
                        o,
                        x,
                        #[trigger] sbj[p],
                    ) by {
                        let e = sbj[p];
                        if rec_lt(o, x, kv[i as int]) {
                            lemma_rec_lt_trans(o, x, kv[i as int], e);
                        }
                    }
                }
                lemma_subtrees_all(nodes0, bv, r as int, o, x);
                assert(all_gt(o, bb, x));
                lemma_insert_mid(o, aa, ci, bb, x);
                assert(seq_insert(o, subtrees(nodes0, cv, r as int), x) == aa + s_new + bb) by {
                    assert(aa + ci + bb =~= aa + (ci + bb));
                    assert(aa + seq_insert(o, ci, x) + bb =~= aa + s_new + bb);
                }
                // the bounds every element of the refreshed child obeys
                lemma_wf_sorted(nodes0, c as int, o);
                lemma_seq_insert_elems(o, ci, x);
                assert forall|j: int|
                    0 <= j < kv.len() implies ((i <= j ==> all_lte(o, s_new, #[trigger] kv[j]))
                    && (i > j ==> all_gt(o, s_new, kv[j]))) by {
                    assert forall|p: int| 0 <= p < s_new.len() implies (((i <= j) ==> rec_lte(
                        o,
                        s_new[p],
                        kv[j],
                    )) && ((i > j) ==> rec_lt(o, kv[j], s_new[p]))) by {
                        let e = s_new[p];
                        assert(e == x || ci.contains(e));
                        if i <= j {
                            assert(rec_lte(o, x, kv[i as int]));
                            if i < j {
                                assert(rec_lt(o, kv[i as int], kv[j]));
                            }
                            if e == x {
                                if i < j {
                                    if rec_lt(o, x, kv[i as int]) {
                                        lemma_rec_lt_trans(o, x, kv[i as int], kv[j]);
                                    }
                                }
                            } else {
                                let w = choose|w: int| 0 <= w < ci.len() && ci[w] == e;
                                assert(all_lte(o, ci, kv[j]));
                            }
                        } else {
                            assert(rec_lt(o, kv[j], x));
                            if e == x {
                            } else {
                                let w = choose|w: int| 0 <= w < ci.len() && ci[w] == e;
                                assert(all_gt(o, ci, kv[j]));
                            }
                        }
                    }
                }
            }
            match res_child {
                Ins::One(nr) => {
                    let mut nc = clone_refs(&children);
                    nc.remove(i);
                    nc.insert(i, nr);
                    let nk2 = clone_records(&keys);
                    let ghost ncv = nc@.map_values(|cc: u64| cc as nat);
                    let ghost len1 = nodes1.len() as int;
                    proof {
                        assert(recs_view(nk2@) =~= kv);
                        assert(ncv =~= av + (seq![nr as nat] + bv));
                        // the assembled parts are valid against the grown store
                        assert forall|j: int|
                            0 <= j < cv.len() implies cv[j] < nodes1.len() && wf_node(
                            nodes1,
                            #[trigger] cv[j] as int,
                            o,
                        ) && subtree(nodes1, cv[j] as int) == subtree(nodes0, cv[j] as int) by {
                            lemma_subtree_extend(nodes0, nodes1, cv[j] as int, o);
                        }
                        assert(subtree(nodes1, nr as int) == s_new);
                        assert(s_new.len() > 0);
                        assert forall|p: int, j: int|
                            0 <= p < ncv.len() && 0 <= j < kv.len() implies ((p <= j ==> all_lte(
                            o,
                            subtree(nodes1, #[trigger] ncv[p] as int, ),
                            #[trigger] kv[j],
                        )) && (p > j ==> all_gt(o, subtree(nodes1, ncv[p] as int), kv[j]))) by {
                            if p == i {
                                assert(ncv[p] == nr as nat);
                            } else {
                                assert(ncv[p] == cv[p]);
                            }
                        }
                        assert(internal_parts_ok(nodes1, kv, ncv, o));
                        // and their contents are the inserted sequence
                        lemma_subtrees_append(nodes1, av, seq![nr as nat] + bv, len1);
                        lemma_subtrees_append(nodes1, seq![nr as nat], bv, len1);
                        assert(subtrees(nodes1, seq![nr as nat], len1) =~= s_new) by {
                            let one = seq![nr as nat];
                            assert(wf_node(nodes1, nr as int, o));
                            assert((nr as int) < nodes1.len());
                            assert(one[0] == nr as nat && one[0] < len1);
                            assert(one.drop_first() =~= Seq::<nat>::empty());
                            assert(subtrees(nodes1, Seq::<nat>::empty(), len1) =~= Seq::<
                                RecV,
                            >::empty());
                            assert(s_new + Seq::<RecV>::empty() =~= s_new);
                        }
                        lemma_subtrees_bound(nodes1, av, r as int, len1);
                        lemma_subtrees_extend(nodes0, nodes1, av, r as int, o);
                        lemma_subtrees_bound(nodes1, bv, r as int, len1);
                        lemma_subtrees_extend(nodes0, nodes1, bv, r as int, o);
                        assert(subtrees(nodes1, ncv, len1) == aa + s_new + bb) by {
                            assert(aa + (s_new + bb) =~= aa + s_new + bb);
                        }
                    }
                    let res = emit_internal(store, nk2, nc, o);
                    res
                },
                Ins::Split(l, k, rr) => {
                    let mut nc = clone_refs(&children);
                    nc.remove(i);
                    nc.insert(i, l);
                    let grown = nc.len();
                    proof {
                        assert(i < grown);
                    }
                    nc.insert(i + 1, rr);
                    let mut nk2 = clone_records(&keys);
                    nk2.insert(i, k);
                    let ghost ncv = nc@.map_values(|cc: u64| cc as nat);
                    let ghost nkv = recs_view(nk2@);
                    let ghost len1 = nodes1.len() as int;
                    let ghost ls = subtree(nodes1, l as int);
                    let ghost rs = subtree(nodes1, rr as int);
                    proof {
                        assert(ncv =~= av + (seq![l as nat, rr as nat] + bv));
                        assert(nkv =~= kv.take(i as int) + (seq![k@] + kv.skip(i as int)));
                        assert(ls + rs == s_new);
                        assert(forall|p: int|
                            0 <= p < ls.len() ==> #[trigger] ls[p] == s_new[p]);
                        assert(forall|p: int|
                            0 <= p < rs.len() ==> #[trigger] rs[p] == s_new[ls.len() + p]);
                        assert forall|j: int|
                            0 <= j < cv.len() implies cv[j] < nodes1.len() && wf_node(
                            nodes1,
                            #[trigger] cv[j] as int,
                            o,
                        ) && subtree(nodes1, cv[j] as int) == subtree(nodes0, cv[j] as int) by {
                            lemma_subtree_extend(nodes0, nodes1, cv[j] as int, o);
                        }
                        // the new separator sits strictly between its neighbours
                        assert(ls.len() > 0 && rs.len() > 0);
                        assert forall|j: int| 0 <= j < kv.len() implies ((i <= j ==> rec_lt(
                            o,
                            k@,
                            #[trigger] kv[j],
                        )) && (i > j ==> rec_lt(o, kv[j], k@))) by {
                            if i <= j {
                                // k < first of rs <= kv[j]
                                assert(rec_lt(o, k@, rs[0]));
                                assert(rec_lte(o, rs[0], kv[j]));
                                if rec_lt(o, rs[0], kv[j]) {
                                    lemma_rec_lt_trans(o, k@, rs[0], kv[j]);
                                }
                            } else {
                                // kv[j] < last of ls <= k
                                let e = ls[ls.len() - 1];
                                assert(rec_lt(o, kv[j], e));
                                assert(rec_lte(o, e, k@));
                                if rec_lt(o, e, k@) {
                                    lemma_rec_lt_trans(o, kv[j], e, k@);
                                }
                            }
                        }
                        assert forall|p: int, j: int|
                            0 <= p < ncv.len() && 0 <= j < nkv.len() implies ((p <= j ==> all_lte(
                            o,
                            subtree(nodes1, #[trigger] ncv[p] as int, ),
                            #[trigger] nkv[j],
                        )) && (p > j ==> all_gt(o, subtree(nodes1, ncv[p] as int), nkv[j]))) by {
                            let sb = subtree(nodes1, ncv[p] as int);
                            if p < i {
                                assert(ncv[p] == cv[p]);
                                assert(sb == subtree(nodes0, cv[p] as int));
                                if j < i {
                                    assert(nkv[j] == kv[j]);
                                } else if j == i {
                                    assert(nkv[j] == k@);
                                    // p <= j: elements <= kv[p] < k
                                    assert(all_lte(o, sb, kv[p]));
                                    assert(rec_lt(o, kv[p], k@));
                                    assert forall|q: int| 0 <= q < sb.len() implies rec_lte(
                                        o,
                                        sb[q],
                                        k@,
                                    ) by {
                                        if rec_lt(o, sb[q], kv[p]) {
                                            lemma_rec_lt_trans(o, sb[q], kv[p], k@);
                                        }
                                    }
                                } else {
                                    assert(nkv[j] == kv[j - 1]);
                                }
                            } else if p == i {
                                assert(ncv[p] == l as nat);
                                assert(sb == ls);
                                if j < i {
                                    assert(nkv[j] == kv[j]);
                                    assert forall|q: int| 0 <= q < sb.len() implies rec_lt(
                                        o,
                                        kv[j],
                                        sb[q],
                                    ) by {
                                        assert(sb[q] == s_new[q]);
                                        assert(all_gt(o, s_new, kv[j]));
                                    }
                                } else if j == i {
                                    assert(nkv[j] == k@);
                                } else {
                                    assert(nkv[j] == kv[j - 1]);
                                    assert forall|q: int| 0 <= q < sb.len() implies rec_lte(
                                        o,
                                        sb[q],
                                        kv[j - 1],
                                    ) by {
                                        assert(sb[q] == s_new[q]);
                                        assert(all_lte(o, s_new, kv[j - 1]));
                                    }
                                }
                            } else if p == i + 1 {
                                assert(ncv[p] == rr as nat);
                                assert(sb == rs);
                                if j < i {
                                    assert(nkv[j] == kv[j]);
                                    assert forall|q: int| 0 <= q < sb.len() implies rec_lt(
                                        o,
                                        kv[j],
                                        sb[q],
                                    ) by {
                                        assert(sb[q] == s_new[ls.len() + q]);
                                        assert(all_gt(o, s_new, kv[j]));
                                    }
                                } else if j == i {
                                    assert(nkv[j] == k@);
                                } else {
                                    assert(nkv[j] == kv[j - 1]);
                                    assert forall|q: int| 0 <= q < sb.len() implies rec_lte(
                                        o,
                                        sb[q],
                                        kv[j - 1],
                                    ) by {
                                        assert(sb[q] == s_new[ls.len() + q]);
                                        assert(all_lte(o, s_new, kv[j - 1]));
                                    }
                                }
                            } else {
                                assert(ncv[p] == cv[p - 1]);
                                assert(sb == subtree(nodes0, cv[p - 1] as int));
                                if j < i {
                                    assert(nkv[j] == kv[j]);
                                } else if j == i {
                                    assert(nkv[j] == k@);
                                    // p > j: elements > kv[i] > k
                                    assert(all_gt(o, sb, kv[i as int]));
                                    assert(rec_lt(o, k@, kv[i as int])) by {
                                        assert(rec_lt(o, k@, rs[0]));
                                        assert(rec_lte(o, rs[0], kv[i as int])) by {
                                            assert(rs[0] == s_new[ls.len() as int]);
                                            assert(all_lte(o, s_new, kv[i as int]));
                                        }
                                        if rec_lt(o, rs[0], kv[i as int]) {
                                            lemma_rec_lt_trans(o, k@, rs[0], kv[i as int]);
                                        }
                                    }
                                    assert forall|q: int| 0 <= q < sb.len() implies rec_lt(
                                        o,
                                        k@,
                                        sb[q],
                                    ) by {
                                        lemma_rec_lt_trans(o, k@, kv[i as int], sb[q]);
                                    }
                                } else {
                                    assert(nkv[j] == kv[j - 1]);
                                }
                            }
                        }
                        assert(internal_parts_ok(nodes1, nkv, ncv, o));
                        lemma_subtrees_append(nodes1, av, seq![l as nat, rr as nat] + bv, len1);
                        lemma_subtrees_append(nodes1, seq![l as nat, rr as nat], bv, len1);
                        assert(subtrees(nodes1, seq![l as nat, rr as nat], len1) =~= ls + rs) by {
                            let two = seq![l as nat, rr as nat];
                            assert(two[0] == l as nat && two[0] < len1);
                            assert(two.drop_first() =~= seq![rr as nat]);
                            assert(seq![rr as nat][0] == rr as nat);
                            assert(seq![rr as nat][0] < len1);
                            assert(seq![rr as nat].drop_first() =~= Seq::<nat>::empty());
                            assert(subtrees(nodes1, Seq::<nat>::empty(), len1) =~= Seq::<
                                RecV,
                            >::empty());
                            assert(rs + Seq::<RecV>::empty() =~= rs);
                            assert(subtrees(nodes1, seq![rr as nat], len1) =~= rs);
                            assert(ls + (rs + Seq::<RecV>::empty()) =~= ls + rs);
                        }
                        lemma_subtrees_bound(nodes1, av, r as int, len1);
                        lemma_subtrees_extend(nodes0, nodes1, av, r as int, o);
                        lemma_subtrees_bound(nodes1, bv, r as int, len1);
                        lemma_subtrees_extend(nodes0, nodes1, bv, r as int, o);
                        assert(subtrees(nodes1, ncv, len1) == aa + s_new + bb) by {
                            assert(aa + ((ls + rs) + bb) =~= aa + s_new + bb);
                        }
                    }
                    let res = emit_internal(store, nk2, nc, o);
                    res
                },
            }
        }
    }
}

/// Sorted insertion keeps every record that was present.
pub proof fn lemma_insert_keeps(o: IndexOrder, s: Seq<RecV>, x: RecV)
    requires
        sorted_recs(o, s),
    ensures
        forall|rv: RecV| s.contains(rv) ==> seq_insert(o, s, x).contains(rv),
{
    broadcast use vstd::seq_lib::group_to_multiset_ensures;

    lemma_seq_insert_elems(o, s, x);
    let r = seq_insert(o, s, x);
    if !s.contains(x) {
        assert forall|rv: RecV| s.contains(rv) implies r.contains(rv) by {
            assert(s.to_multiset().count(rv) > 0);
            assert(r.to_multiset().count(rv) > 0);
        }
    }
}

/// Growing the store preserves an index's meaning and well-formedness.
pub proof fn lemma_index_extend(ix: Index, nodes1: Seq<NodeV>, nodes2: Seq<NodeV>)
    requires
        nodes1.len() <= nodes2.len(),
        forall|i: int| 0 <= i < nodes1.len() ==> nodes2[i] == nodes1[i],
        ix.wf(nodes1),
    ensures
        ix.wf(nodes2),
        ix.contents(nodes2) == ix.contents(nodes1),
{
    match ix.root {
        Option::Some(r) => lemma_subtree_extend(nodes1, nodes2, r as int, ix.order),
        Option::None => {},
    }
}

/// A typed index: a persistent ordered set of records under one of the
/// three orders, named by the key of its root node. An absent root is the
/// empty tree.
#[derive(Debug, Clone, Copy)]
pub struct Index {
    pub root: Option<u64>,
    pub order: IndexOrder,
}

impl Index {
    /// The records the index holds, in its order.
    pub open spec fn contents(self, nodes: Seq<NodeV>) -> Seq<RecV> {
        match self.root {
            Option::Some(r) => subtree(nodes, r as int),
            Option::None => Seq::empty(),
        }
    }

    pub open spec fn wf(self, nodes: Seq<NodeV>) -> bool {
        match self.root {
            Option::Some(r) => wf_node(nodes, r as int, self.order),
            Option::None => true,
        }
    }

    /// Load an index from a root reference.
    pub fn new(root: Option<u64>, order: IndexOrder) -> (r: Index)
        ensures
            r.root == root,
            r.order == order,
    {
        Index { root, order }
    }

    /// Insert a record, returning the index of the new root. Old roots keep
    /// their meaning: nothing already in the store changes. A record equal
    /// (under the order) to one already present leaves the contents as they
    /// were.
    pub fn insert(&self, store: &mut HeapStore, rec: &Record) -> (r: Index)
        requires
            self.wf(old(store).nodes()),
        ensures
            r.order == self.order,
            r.wf(final(store).nodes()),
            r.contents(final(store).nodes()) == seq_insert(
                self.order,
                self.contents(old(store).nodes()),
                rec@,
            ),
            final(store).spec_contents() == old(store).spec_contents(),
            old(store).nodes().len() <= final(store).nodes().len(),
            forall|i: int|
                0 <= i < old(store).nodes().len() ==> final(store).nodes()[i] == old(
                    store,
                ).nodes()[i],
    {
        let o = self.order;
        match self.root {
            Option::None => {
                let mut records: Vec<Record> = Vec::new();
                records.push(rec.clone());
                proof {
                    assert(recs_view(records@) =~= seq![rec@]);
                }
                let nr = store.add(Node::Leaf { records });
                proof {
                    assert(subtree(store.nodes(), nr as int) =~= seq![rec@]);
                    assert(seq_insert(o, Seq::<RecV>::empty(), rec@) == seq![rec@]);
                }
                Index { root: Option::Some(nr), order: o }
            },
            Option::Some(root) => {
                match insert_at(store, root, rec, o) {
                    Ins::One(nr) => Index { root: Option::Some(nr), order: o },
                    Ins::Split(l, k, rr) => {
                        let mut keys: Vec<Record> = Vec::new();
                        keys.push(k);
                        let mut children: Vec<u64> = Vec::new();
                        children.push(l);
                        children.push(rr);
                        let ghost nodes1 = store.nodes();
                        let ghost kx = keys@[0]@;
                        let ghost cv = children@.map_values(|c: u64| c as nat);
                        let nr = store.add(Node::Internal { keys, children });
                        proof {
                            let nodes2 = store.nodes();
                            assert(nodes2[nr as int] == NodeV::Internal {
                                keys: seq![kx],
                                children: cv,
                            }) by {
                                assert(recs_view(seq![k]) =~= seq![k@]);
                            }
                            assert(cv =~= seq![l as nat, rr as nat]);
                            assert forall|i: int| 0 <= i < cv.len() implies cv[i] < nr && wf_node(
                                nodes2,
                                #[trigger] cv[i] as int,
                                o,
                            ) && subtree(nodes2, cv[i] as int) == subtree(nodes1, cv[i] as int)
                                && subtree(nodes2, cv[i] as int).len() > 0 by {
                                lemma_subtree_extend(nodes1, nodes2, cv[i] as int, o);
                            }
                            assert(wf_node(nodes2, nr as int, o)) by {
                                assert(seq![kx].len() == 1);
                                assert(cv[0] == l as nat && cv[1] == rr as nat);
                            }
                            assert(subtree(nodes2, nr as int) == subtrees(nodes2, cv, nr as int));
                            assert(subtrees(nodes2, cv, nr as int) =~= subtree(
                                nodes2,
                                l as int,
                            ) + subtree(nodes2, rr as int)) by {
                                assert(cv[0] == l as nat && cv[0] < nr as int);
                                assert(cv.drop_first() =~= seq![rr as nat]);
                                assert(seq![rr as nat][0] == rr as nat);
                                assert(seq![rr as nat][0] < nr as int);
                                assert(seq![rr as nat].drop_first() =~= Seq::<nat>::empty());
                                assert(subtrees(nodes2, Seq::<nat>::empty(), nr as int) =~= Seq::<
                                    RecV,
                                >::empty());
                                assert(subtrees(nodes2, seq![rr as nat], nr as int) =~= subtree(
                                    nodes2,
                                    rr as int,
                                ));
                                assert(subtrees(nodes2, cv, nr as int) == subtree(
                                    nodes2,
                                    cv[0] as int,
                                ) + subtrees(nodes2, cv.drop_first(), nr as int));
                                assert(subtree(nodes2, l as int) + (subtree(nodes2, rr as int)
                                    + Seq::<RecV>::empty()) =~= subtree(nodes2, l as int) + subtree(
                                    nodes2,
                                    rr as int,
                                ));
                            }
                        }
                        Index { root: Option::Some(nr), order: o }
                    },
                }
            },
        }
    }

    /// All records in the index, in its order.
    pub fn scan(&self, store: &HeapStore) -> (out: Vec<Record>)
        requires
            self.wf(store.nodes()),
        ensures
            recs_view(out@) == self.contents(store.nodes()),
    {
        let mut out: Vec<Record> = Vec::new();
        proof {
            assert(recs_view(out@) =~= Seq::<RecV>::empty());
        }
        match self.root {
            Option::None => out,
            Option::Some(r) => {
                collect_into(store, r, self.order, &mut out);
                proof {
                    assert(recs_view(out@) =~= self.contents(store.nodes()));
                }
                out
            },
        }
    }

    /// All records not below `lower` under the index order, in order: the
    /// in-order walk started at the first record at or above `lower`.
    pub fn scan_range_from(&self, store: &HeapStore, lower: &Record) -> (out: Vec<Record>)
        requires
            self.wf(store.nodes()),
        ensures
            recs_view(out@) == filter_recs(
                self.contents(store.nodes()),
                |rv: RecV| !rec_lt(self.order, rv, lower@),
            ),
    {
        let o = self.order;
        let all = self.scan(store);
        out_filter_ge(all, lower, o)
    }
}

/// Keep the records at or above `lower`.
fn out_filter_ge(all: Vec<Record>, lower: &Record, o: IndexOrder) -> (out: Vec<Record>)
    ensures
        recs_view(out@) == filter_recs(recs_view(all@), |rv: RecV| !rec_lt(o, rv, lower@)),
{
    let ghost s = recs_view(all@);
    let ghost pred = |rv: RecV| !rec_lt(o, rv, lower@);
    let n = all.len();
    let mut out: Vec<Record> = Vec::new();
    let mut i: usize = 0;
    proof {
        assert(s.skip(0) =~= s);
        assert(recs_view(out@) =~= Seq::<RecV>::empty());
    }
    while i < n
        invariant
            i <= n,
            n == all@.len(),
            s == recs_view(all@),
            pred == (|rv: RecV| !rec_lt(o, rv, lower@)),
            filter_recs(s, pred) =~= recs_view(out@) + filter_recs(s.skip(i as int), pred),
        decreases n - i,
    {
        let ghost out0 = out@;
        proof {
            assert(s.skip(i as int)[0] == s[i as int]);
            assert(s.skip(i as int).drop_first() =~= s.skip(i + 1));
        }
        if !rec_lt_exec(o, &all[i], lower) {
            out.push(all[i].clone());
            proof {
                lemma_recs_view_push(out0, out@[out0.len() as int]);
                assert(out@ =~= out0.push(out@[out0.len() as int]));
                assert(recs_view(out@) =~= recs_view(out0).push(s[i as int]));
                assert(recs_view(out0).push(s[i as int]) =~= recs_view(out0) + seq![s[i as int]]);
                assert(filter_recs(s.skip(i as int), pred) == seq![s[i as int]] + filter_recs(
                    s.skip(i + 1),
                    pred,
                ));
                assert(recs_view(out0) + (seq![s[i as int]] + filter_recs(s.skip(i + 1), pred))
                    =~= recs_view(out@) + filter_recs(s.skip(i + 1), pred));
            }
        }
        i = i + 1;
    }
    proof {
        assert(s.skip(n as int).len() == 0);
        assert(filter_recs(s.skip(n as int), pred) =~= Seq::<RecV>::empty());
        assert(recs_view(out@) + Seq::<RecV>::empty() =~= recs_view(out@));
        assert(recs_view(out@) =~= filter_recs(s, pred));
    }
    out
}

/// Append the records below `r` to `out`, in order.
fn collect_into(store: &HeapStore, r: u64, o: IndexOrder, out: &mut Vec<Record>)
    requires
        wf_node(store.nodes(), r as int, o),
    ensures
        recs_view(final(out)@) == recs_view(old(out)@) + subtree(store.nodes(), r as int),
    decreases r,
{
    let ghost nodes = store.nodes();
    let ghost base = recs_view(old(out)@);
    match store.get(r) {
        Node::Leaf { records } => {
            let n = records.len();
            let mut i: usize = 0;
            proof {
                assert(nodes[r as int] == NodeV::Leaf { records: recs_view(records@) });
                assert(subtree(nodes, r as int) == recs_view(records@));
                assert(recs_view(out@) =~= base + recs_view(records@).take(0));
            }
            while i < n
                invariant
                    i <= n,
                    n == records@.len(),
                    base == recs_view(old(out)@),
                    recs_view(out@) =~= base + recs_view(records@).take(i as int),
                decreases n - i,
            {
                let ghost out0 = out@;
                out.push(records[i].clone());
                proof {
                    lemma_recs_view_push(out0, out@[out0.len() as int]);
                    assert(out@ =~= out0.push(out@[out0.len() as int]));
                    assert(recs_view(out@) =~= base + recs_view(records@).take(i + 1));
                }
                i = i + 1;
            }
            proof {
                assert(recs_view(records@).take(n as int) =~= recs_view(records@));
            }
        },
        Node::Internal { keys, children } => {
            let ghost cv = children@.map_values(|c: u64| c as nat);
            proof {
                assert(nodes[r as int] == NodeV::Internal { keys: recs_view(keys@), children: cv });
                assert(subtree(nodes, r as int) == subtrees(nodes, cv, r as int));
                assert(subtrees(nodes, cv.take(0), r as int) =~= Seq::<RecV>::empty()) by {
                    assert(cv.take(0) =~= Seq::<nat>::empty());
                }
                assert(recs_view(out@) =~= base + subtrees(nodes, cv.take(0), r as int));
            }
            let n = children.len();
            let mut i: usize = 0;
            while i < n
                invariant
                    i <= n,
                    n == children@.len(),
                    cv == children@.map_values(|c: u64| c as nat),
                    base == recs_view(old(out)@),
                    nodes == store.nodes(),
                    wf_node(nodes, r as int, o),
                    nodes[r as int] == (NodeV::Internal {
                        keys: recs_view(keys@),
                        children: cv,
                    }),
                    recs_view(out@) =~= base + subtrees(nodes, cv.take(i as int), r as int),
                decreases n - i,
            {
                proof {
                    assert(cv[i as int] < r && wf_node(nodes, cv[i as int] as int, o));
                }
                collect_into(store, children[i], o, out);
                proof {
                    assert(cv.take(i + 1) =~= cv.take(i as int) + seq![cv[i as int]]);
                    lemma_subtrees_append(nodes, cv.take(i as int), seq![cv[i as int]], r as int);
                    assert(subtrees(nodes, seq![cv[i as int]], r as int) =~= subtree(
                        nodes,
                        cv[i as int] as int,
                    )) by {
                        assert(seq![cv[i as int]].drop_first() =~= Seq::<nat>::empty());
                        assert(subtrees(nodes, Seq::<nat>::empty(), r as int) =~= Seq::<
                            RecV,
                        >::empty());
                        assert(subtree(nodes, cv[i as int] as int) + Seq::<RecV>::empty()
                            =~= subtree(nodes, cv[i as int] as int));
                    }
                    assert(recs_view(out@) =~= base + subtrees(nodes, cv.take(i + 1), r as int));
                }
                i = i + 1;
            }
            proof {
                assert(cv.take(n as int) =~= cv);
            }
        },
    }
}

} // verus!
