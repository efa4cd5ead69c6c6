//! A Patricia-compressed suffix tree over the corpus.
//!
//! Every suffix of every indexed text is inserted together with an
//! occurrence record `(row, offset)`; the record is attached to the node
//! reached after consuming that suffix in full. Edges carry multi-character
//! labels; inserting a suffix that diverges in the middle of a label splits
//! the edge at the point of divergence.
//!
//! The mathematical model is the multiset of occurrence records found
//! at or below the point reached by a pattern (`records_below`): a record
//! `(r, o)` lies below the point reached by pattern `q` exactly when `q`
//! is a prefix of the suffix of text `r` starting at offset `o`.
//!
//! A node's `terminal` flag marks points where a complete, space-delimited
//! word of some indexed text ends; it gates the acceptance of the
//! spelled-out letter openings during encoding. The tree keeps a node at
//! every such word end (splitting an edge there if needed), so the flag
//! always sits on a real vertex.

use vstd::prelude::*;
use vstd::multiset::Multiset;

verus! {

broadcast use vstd::seq_lib::group_to_multiset_ensures;

/// A node of the tree. `records` holds the occurrences whose whole suffix
/// ends exactly here; `count` caches the number of records in the subtree.
pub struct Node {
    pub terminal: bool,
    pub records: Vec<(usize, usize)>,
    pub count: usize,
    pub branches: Vec<Branch>,
}

/// An outgoing edge: a non-empty label and the child node it leads to.
pub struct Branch {
    pub label: Vec<char>,
    pub child: Node,
}

/// Number of nodes in the subtree rooted at `n`.
pub open spec fn vcount(n: Node) -> nat
    decreases n,
{
    1 + vcount_branches(n.branches@)
}

pub open spec fn vcount_branches(bs: Seq<Branch>) -> nat
    decreases bs,
{
    if bs.len() == 0 {
        0
    } else {
        vcount(bs[0].child) + vcount_branches(bs.drop_first())
    }
}

/// Number of edges in the subtree rooted at `n`.
pub open spec fn ecount(n: Node) -> nat
    decreases n,
{
    n.branches@.len() + ecount_branches(n.branches@)
}

pub open spec fn ecount_branches(bs: Seq<Branch>) -> nat
    decreases bs,
{
    if bs.len() == 0 {
        0
    } else {
        ecount(bs[0].child) + ecount_branches(bs.drop_first())
    }
}

/// All occurrence records in the subtree rooted at `n`.
pub open spec fn all_records(n: Node) -> Multiset<(usize, usize)>
    decreases n,
{
    n.records@.to_multiset().add(all_records_branches(n.branches@))
}

pub open spec fn all_records_branches(bs: Seq<Branch>) -> Multiset<(usize, usize)>
    decreases bs,
{
    if bs.len() == 0 {
        Multiset::empty()
    } else {
        all_records(bs[0].child).add(all_records_branches(bs.drop_first()))
    }
}

/// The records at or below the point reached by walking pattern `q` from `n`:
/// walking consumes `q` against edge labels; a walk that ends in the middle
/// of a label yields the whole subtree of that edge's child.
pub open spec fn records_below(n: Node, q: Seq<char>) -> Multiset<(usize, usize)>
    decreases n, 1int,
{
    if q.len() == 0 {
        all_records(n)
    } else {
        records_below_branches(n.branches@, q)
    }
}

pub open spec fn records_below_branches(bs: Seq<Branch>, q: Seq<char>) -> Multiset<(usize, usize)>
    decreases bs, 0int,
{
    if bs.len() == 0 {
        Multiset::empty()
    } else {
        branch_below(bs[0], q).add(records_below_branches(bs.drop_first(), q))
    }
}

/// The contribution of one branch to `records_below` for a non-empty `q`.
pub open spec fn branch_below(b: Branch, q: Seq<char>) -> Multiset<(usize, usize)>
    decreases b, 2int,
{
    if q.len() <= b.label@.len() {
        if q == b.label@.subrange(0, q.len() as int) {
            all_records(b.child)
        } else {
            Multiset::empty()
        }
    } else {
        if b.label@ == q.subrange(0, b.label@.len() as int) {
            records_below(b.child, q.skip(b.label@.len() as int))
        } else {
            Multiset::empty()
        }
    }
}

/// Well-formedness: labels are non-empty, sibling labels start with
/// distinct characters, and every cached `count` equals the number of
/// records in its subtree.
pub open spec fn wf(n: Node) -> bool
    decreases n,
{
    &&& n.count == all_records(n).len()
    &&& forall|i: int| 0 <= i < n.branches@.len() ==> wf_branch(#[trigger] n.branches@[i])
    &&& forall|i: int, j: int|
        0 <= i < j < n.branches@.len() ==> n.branches@[i].label@[0] != n.branches@[j].label@[0]
}

pub open spec fn wf_branch(b: Branch) -> bool
    decreases b,
{
    b.label@.len() > 0 && wf(b.child)
}

/// Exposes the conjuncts of `wf` (the recursive definition unfolds only
/// a bounded number of times on the hypothesis side).
pub proof fn lemma_wf_parts(n: Node)
    requires
        wf(n),
    ensures
        n.count == all_records(n).len(),
        forall|i: int| 0 <= i < n.branches@.len() ==> wf_branch(#[trigger] n.branches@[i]),
        forall|i: int| 0 <= i < n.branches@.len() ==> (#[trigger] n.branches@[i].label@.len()) > 0,
        forall|i: int| 0 <= i < n.branches@.len() ==> wf(#[trigger] n.branches@[i].child),
        forall|i: int, j: int|
            0 <= i < j < n.branches@.len() ==> n.branches@[i].label@[0] != n.branches@[j].label@[0],
{
    lemma_wf_conjuncts(n);
    assert forall|i: int| 0 <= i < n.branches@.len() implies (#[trigger] n.branches@[i].label@.len())
        > 0 && wf(n.branches@[i].child) by {
        assert(wf_branch(n.branches@[i]));
        lemma_wf_branch_parts(n.branches@[i]);
    }
}

/// The three conjuncts of `wf`, read off its definition.
proof fn lemma_wf_conjuncts(n: Node)
    requires
        wf(n),
    ensures
        n.count == all_records(n).len(),
        forall|i: int| 0 <= i < n.branches@.len() ==> wf_branch(#[trigger] n.branches@[i]),
        forall|i: int, j: int|
            0 <= i < j < n.branches@.len() ==> n.branches@[i].label@[0] != n.branches@[j].label@[0],
{
    reveal_with_fuel(wf, 2);
}

/// Exposes the conjuncts of `wf_branch`.
pub proof fn lemma_wf_branch_parts(b: Branch)
    requires
        wf_branch(b),
    ensures
        b.label@.len() > 0,
        wf(b.child),
{
    reveal_with_fuel(wf_branch, 2);
}

/// Cancels a common summand of two equal multiset sums.
proof fn lemma_add_cancel<V>(a: Multiset<V>, b: Multiset<V>, c: Multiset<V>)
    requires
        a.add(c) == b.add(c),
    ensures
        a == b,
{
    assert forall|v: V| a.count(v) == b.count(v) by {
        broadcast use vstd::multiset::group_multiset_axioms;
        assert(a.add(c).count(v) == b.add(c).count(v));
        assert(a.add(c).count(v) == a.count(v) + c.count(v));
        assert(b.add(c).count(v) == b.count(v) + c.count(v));
    }
    assert(a =~= b);
}

/// The tree: a root node plus cached node and edge totals.
pub struct SuffixTree {
    pub root: Node,
    pub vertices: u128,
    pub edges: u128,
}

impl SuffixTree {
    pub open spec fn wf(self) -> bool {
        &&& wf(self.root)
        &&& self.vertices == vcount(self.root)
        &&& self.edges == ecount(self.root)
        &&& vcount(self.root) <= 1 + 3 * all_records(self.root).len()
    }

    /// An empty tree: a single terminal root, no edges, no records.
    pub fn new() -> (t: SuffixTree)
        ensures
            t.wf(),
            all_records(t.root) == Multiset::<(usize, usize)>::empty(),
            forall|q: Seq<char>| #[trigger] records_below(t.root, q) == Multiset::<(usize, usize)>::empty(),
            t.root.terminal,
    {
        let root = Node { terminal: true, records: Vec::new(), count: 0, branches: Vec::new() };
        proof {
            assert(all_records(root) =~~= Multiset::<(usize, usize)>::empty());
            assert forall|q: Seq<char>| #[trigger] records_below(root, q)
                == Multiset::<(usize, usize)>::empty() by {
                if q.len() == 0 {
                    assert(records_below(root, q) == all_records(root));
                }
            }
        }
        SuffixTree { root, vertices: 1, edges: 0 }
    }
}

/// Does some branch of `n` start with character `c`?
pub open spec fn head_match(n: Node, c: char) -> bool {
    exists|i: int| 0 <= i < n.branches@.len() && n.branches@[i].label@[0] == c
}

/// Pushing a branch extends every aggregate by that branch's share.
proof fn lemma_branches_push(bs: Seq<Branch>, b: Branch)
    ensures
        all_records_branches(bs.push(b)) == all_records_branches(bs).add(all_records(b.child)),
        vcount_branches(bs.push(b)) == vcount_branches(bs) + vcount(b.child),
        ecount_branches(bs.push(b)) == ecount_branches(bs) + ecount(b.child),
        forall|q: Seq<char>| #[trigger] records_below_branches(bs.push(b), q)
            == records_below_branches(bs, q).add(branch_below(b, q)),
    decreases bs,
{
    if bs.len() == 0 {
        assert(bs.push(b)[0] == b);
        assert(bs.push(b).drop_first() =~= bs);
        assert(all_records_branches(bs.push(b)) == all_records(b.child).add(
            all_records_branches(bs),
        ));
        assert(all_records_branches(bs.push(b)) =~~= all_records_branches(bs).add(
            all_records(b.child),
        ));
        assert forall|q: Seq<char>| #[trigger] records_below_branches(bs.push(b), q)
            == records_below_branches(bs, q).add(branch_below(b, q)) by {
            assert(records_below_branches(bs.push(b), q) == branch_below(b, q).add(
                records_below_branches(bs, q),
            ));
            assert(records_below_branches(bs.push(b), q) =~~= records_below_branches(bs, q).add(
                branch_below(b, q),
            ));
        }
    } else {
        assert(bs.push(b)[0] == bs[0]);
        assert(bs.push(b).drop_first() =~= bs.drop_first().push(b));
        lemma_branches_push(bs.drop_first(), b);
        assert(all_records_branches(bs) == all_records(bs[0].child).add(
            all_records_branches(bs.drop_first()),
        ));
        assert(all_records_branches(bs.push(b)) == all_records(bs[0].child).add(
            all_records_branches(bs.drop_first().push(b)),
        ));
        assert(vcount_branches(bs) == vcount(bs[0].child) + vcount_branches(bs.drop_first()));
        assert(vcount_branches(bs.push(b)) == vcount(bs[0].child) + vcount_branches(
            bs.drop_first().push(b),
        ));
        assert(ecount_branches(bs) == ecount(bs[0].child) + ecount_branches(bs.drop_first()));
        assert(ecount_branches(bs.push(b)) == ecount(bs[0].child) + ecount_branches(
            bs.drop_first().push(b),
        ));
        assert(all_records_branches(bs.push(b)) =~~= all_records_branches(bs).add(
            all_records(b.child),
        ));
        assert forall|q: Seq<char>| #[trigger] records_below_branches(bs.push(b), q)
            == records_below_branches(bs, q).add(branch_below(b, q)) by {
            assert(records_below_branches(bs, q) == branch_below(bs[0], q).add(
                records_below_branches(bs.drop_first(), q),
            ));
            assert(records_below_branches(bs.push(b), q) == branch_below(bs[0], q).add(
                records_below_branches(bs.drop_first().push(b), q),
            ));
            assert(records_below_branches(bs.push(b), q) =~~= records_below_branches(bs, q).add(
                branch_below(b, q),
            ));
        }
    }
}

/// Replacing one branch shifts every aggregate by the difference between
/// the old and the new branch's share (stated additively).
proof fn lemma_branches_update(bs: Seq<Branch>, i: int, b: Branch)
    requires
        0 <= i < bs.len(),
    ensures
        all_records_branches(bs.update(i, b)).add(all_records(bs[i].child))
            == all_records_branches(bs).add(all_records(b.child)),
        vcount_branches(bs.update(i, b)) + vcount(bs[i].child) == vcount_branches(bs) + vcount(
            b.child,
        ),
        ecount_branches(bs.update(i, b)) + ecount(bs[i].child) == ecount_branches(bs) + ecount(
            b.child,
        ),
        forall|q: Seq<char>|
            #[trigger] records_below_branches(bs.update(i, b), q).add(branch_below(bs[i], q))
                == records_below_branches(bs, q).add(branch_below(b, q)),
    decreases bs,
{
    if i == 0 {
        assert(bs.update(0, b)[0] == b);
        assert(bs.update(0, b).drop_first() =~= bs.drop_first());
        assert(all_records_branches(bs) == all_records(bs[0].child).add(
            all_records_branches(bs.drop_first()),
        ));
        assert(all_records_branches(bs.update(i, b)) == all_records(b.child).add(
            all_records_branches(bs.drop_first()),
        ));
        assert(vcount_branches(bs) == vcount(bs[0].child) + vcount_branches(bs.drop_first()));
        assert(vcount_branches(bs.update(i, b)) == vcount(b.child) + vcount_branches(
            bs.drop_first(),
        ));
        assert(ecount_branches(bs) == ecount(bs[0].child) + ecount_branches(bs.drop_first()));
        assert(ecount_branches(bs.update(i, b)) == ecount(b.child) + ecount_branches(
            bs.drop_first(),
        ));
        assert(all_records_branches(bs.update(i, b)).add(all_records(bs[i].child))
            =~~= all_records_branches(bs).add(all_records(b.child)));
        assert forall|q: Seq<char>|
            #[trigger] records_below_branches(bs.update(i, b), q).add(branch_below(bs[i], q))
                == records_below_branches(bs, q).add(branch_below(b, q)) by {
            assert(records_below_branches(bs, q) == branch_below(bs[0], q).add(
                records_below_branches(bs.drop_first(), q),
            ));
            assert(records_below_branches(bs.update(i, b), q) == branch_below(b, q).add(
                records_below_branches(bs.drop_first(), q),
            ));
            assert(records_below_branches(bs.update(i, b), q).add(branch_below(bs[i], q))
                =~~= records_below_branches(bs, q).add(branch_below(b, q)));
        }
    } else {
        assert(bs.update(i, b)[0] == bs[0]);
        assert(bs.update(i, b).drop_first() =~= bs.drop_first().update(i - 1, b));
        assert(bs.drop_first()[i - 1] == bs[i]);
        lemma_branches_update(bs.drop_first(), i - 1, b);
        assert(all_records_branches(bs) == all_records(bs[0].child).add(
            all_records_branches(bs.drop_first()),
        ));
        assert(all_records_branches(bs.update(i, b)) == all_records(bs[0].child).add(
            all_records_branches(bs.drop_first().update(i - 1, b)),
        ));
        assert(vcount_branches(bs) == vcount(bs[0].child) + vcount_branches(bs.drop_first()));
        assert(vcount_branches(bs.update(i, b)) == vcount(bs[0].child) + vcount_branches(
            bs.drop_first().update(i - 1, b),
        ));
        assert(ecount_branches(bs) == ecount(bs[0].child) + ecount_branches(bs.drop_first()));
        assert(ecount_branches(bs.update(i, b)) == ecount(bs[0].child) + ecount_branches(
            bs.drop_first().update(i - 1, b),
        ));
        // re-associate so that the induction hypothesis rewrites in place
        let a0 = all_records(bs[0].child);
        let au = all_records_branches(bs.drop_first().update(i - 1, b));
        let ac = all_records(bs[i].child);
        let ad = all_records_branches(bs.drop_first());
        let ab = all_records(b.child);
        assert(au.add(ac) == ad.add(ab));
        assert((a0.add(au)).add(ac) =~~= a0.add(au.add(ac)));
        assert(a0.add(ad.add(ab)) =~~= (a0.add(ad)).add(ab));
        assert(all_records_branches(bs.update(i, b)).add(all_records(bs[i].child))
            == all_records_branches(bs).add(all_records(b.child)));
        assert forall|q: Seq<char>|
            #[trigger] records_below_branches(bs.update(i, b), q).add(branch_below(bs[i], q))
                == records_below_branches(bs, q).add(branch_below(b, q)) by {
            assert(records_below_branches(bs, q) == branch_below(bs[0], q).add(
                records_below_branches(bs.drop_first(), q),
            ));
            assert(records_below_branches(bs.update(i, b), q) == branch_below(bs[0], q).add(
                records_below_branches(bs.drop_first().update(i - 1, b), q),
            ));
            let b0 = branch_below(bs[0], q);
            let bu = records_below_branches(bs.drop_first().update(i - 1, b), q);
            let bc = branch_below(bs[i], q);
            let bd = records_below_branches(bs.drop_first(), q);
            let bb = branch_below(b, q);
            assert(bu.add(bc) == bd.add(bb));
            assert((b0.add(bu)).add(bc) =~~= b0.add(bu.add(bc)));
            assert(b0.add(bd.add(bb)) =~~= (b0.add(bd)).add(bb));
            assert(records_below_branches(bs.update(i, b), q).add(branch_below(bs[i], q))
                == records_below_branches(bs, q).add(branch_below(b, q)));
        }
    }
}

/// One child's records are among the records of the whole branch list.
proof fn lemma_records_of_child_le(bs: Seq<Branch>, i: int)
    requires
        0 <= i < bs.len(),
    ensures
        all_records(bs[i].child).len() <= all_records_branches(bs).len(),
    decreases bs,
{
    if i > 0 {
        assert(bs.drop_first()[i - 1] == bs[i]);
        lemma_records_of_child_le(bs.drop_first(), i - 1);
    }
}

/// A prefix test decomposes at any cut `k` inside the pattern.
proof fn lemma_prefix_decompose(q: Seq<char>, s: Seq<char>, k: int)
    requires
        0 <= k <= s.len(),
        k < q.len(),
    ensures
        q.is_prefix_of(s) <==> (q.subrange(0, k) == s.subrange(0, k) && q.skip(k).is_prefix_of(
            s.skip(k),
        )),
{
    if q.is_prefix_of(s) {
        assert(q.subrange(0, k) =~= s.subrange(0, k));
        assert(q.skip(k) =~= s.skip(k).subrange(0, q.len() - k));
    }
    if q.subrange(0, k) == s.subrange(0, k) && q.skip(k).is_prefix_of(s.skip(k)) {
        assert forall|j: int| 0 <= j < q.len() implies q[j] == s[j] by {
            if j < k {
                assert(q.subrange(0, k)[j] == s.subrange(0, k)[j]);
            } else {
                assert(q.skip(k)[j - k] == s.skip(k).subrange(0, q.len() - k)[j - k]);
            }
        }
        assert(q =~= s.subrange(0, q.len() as int));
    }
}

/// Splitting an edge in two at `k`, with an empty middle node, leaves the
/// record model of the branch unchanged and adds one node and one edge.
proof fn lemma_split_below(bold: Branch, bnew: Branch, k: int)
    requires
        1 <= k < bold.label@.len(),
        bnew.label@ == bold.label@.subrange(0, k),
        bnew.child.records@.len() == 0,
        bnew.child.branches@.len() == 1,
        bnew.child.branches@[0].label@ == bold.label@.skip(k),
        bnew.child.branches@[0].child == bold.child,
    ensures
        all_records(bnew.child) == all_records(bold.child),
        vcount(bnew.child) == 1 + vcount(bold.child),
        ecount(bnew.child) == 1 + ecount(bold.child),
        forall|q: Seq<char>|
            q.len() > 0 ==> #[trigger] branch_below(bnew, q) == branch_below(bold, q),
{
    let mid = bnew.child;
    let tail = mid.branches@[0];
    assert(mid.branches@.drop_first() =~= Seq::<Branch>::empty());
    assert(mid.records@ =~= Seq::<(usize, usize)>::empty());
    assert(mid.records@.to_multiset().len() == 0);
    assert(mid.records@.to_multiset() =~~= Multiset::<(usize, usize)>::empty());
    assert(all_records_branches(Seq::<Branch>::empty())
        == Multiset::<(usize, usize)>::empty());
    assert(all_records_branches(mid.branches@) == all_records(tail.child).add(
        all_records_branches(mid.branches@.drop_first()),
    ));
    assert(vcount_branches(mid.branches@) == vcount(tail.child) + vcount_branches(
        mid.branches@.drop_first(),
    ));
    assert(ecount_branches(mid.branches@) == ecount(tail.child) + ecount_branches(
        mid.branches@.drop_first(),
    ));
    assert(all_records(mid) =~~= all_records(bold.child));
    let l = bold.label@;
    assert forall|q: Seq<char>| q.len() > 0 implies #[trigger] branch_below(bnew, q)
        == branch_below(bold, q) by {
        if q.len() <= k {
            assert(bnew.label@.subrange(0, q.len() as int) =~= l.subrange(0, q.len() as int));
        } else {
            lemma_prefix_decompose(q, l, k);
            if q.subrange(0, k) == l.subrange(0, k) {
                // the walk passes through the middle node
                let q2 = q.skip(k);
                assert(q2.len() > 0);
                assert(records_below_branches(Seq::<Branch>::empty(), q2)
                    == Multiset::<(usize, usize)>::empty());
                assert(records_below_branches(mid.branches@, q2) == branch_below(tail, q2).add(
                    records_below_branches(mid.branches@.drop_first(), q2),
                ));
                assert(records_below(mid, q2) =~~= branch_below(tail, q2));
                assert(q.subrange(0, k) =~= bnew.label@);
                if q.len() <= l.len() {
                    assert(q2.len() <= tail.label@.len());
                    assert((q2 == tail.label@.subrange(0, q2.len() as int)) <==> (q == l.subrange(
                        0,
                        q.len() as int,
                    ))) by {
                        let lq = l.subrange(0, q.len() as int);
                        lemma_prefix_decompose(q, lq, k);
                        assert(lq.subrange(0, k) =~= l.subrange(0, k));
                        assert(lq.skip(k) =~= tail.label@.subrange(0, q2.len() as int));
                        assert(lq.subrange(0, q.len() as int) =~= lq);
                        assert(q.is_prefix_of(lq) <==> q == lq);
                        let tq = tail.label@.subrange(0, q2.len() as int);
                        assert(tq.subrange(0, q2.len() as int) =~= tq);
                        assert(q2.is_prefix_of(tq) <==> q2 == tq);
                    }
                } else {
                    assert(q2.len() > tail.label@.len());
                    assert((tail.label@ == q2.subrange(0, tail.label@.len() as int)) <==> (l
                        == q.subrange(0, l.len() as int))) by {
                        let ql = q.subrange(0, l.len() as int);
                        lemma_prefix_decompose(l, ql, k);
                        assert(ql.subrange(0, k) =~= q.subrange(0, k));
                        assert(ql.skip(k) =~= q2.subrange(0, tail.label@.len() as int));
                        assert(ql.subrange(0, l.len() as int) =~= ql);
                        assert(l.is_prefix_of(ql) <==> l == ql);
                        let qt = q2.subrange(0, tail.label@.len() as int);
                        assert(qt.subrange(0, tail.label@.len() as int) =~= qt);
                        assert(tail.label@.is_prefix_of(qt) <==> tail.label@ == qt);
                    }
                    if tail.label@ == q2.subrange(0, tail.label@.len() as int) {
                        assert(q2.skip(tail.label@.len() as int) =~= q.skip(l.len() as int));
                    }
                }
            } else {
                // the walk dies before the cut on both trees
                assert(bnew.label@.subrange(0, k) =~= l.subrange(0, k));
                if q.len() <= l.len() {
                    assert(q != l.subrange(0, q.len() as int)) by {
                        if q == l.subrange(0, q.len() as int) {
                            assert(q.subrange(0, k) =~= l.subrange(0, q.len() as int).subrange(
                                0,
                                k,
                            ));
                            assert(l.subrange(0, q.len() as int).subrange(0, k) =~= l.subrange(
                                0,
                                k,
                            ));
                        }
                    }
                } else {
                    assert(l != q.subrange(0, l.len() as int)) by {
                        if l == q.subrange(0, l.len() as int) {
                            assert(q.subrange(0, k) =~= q.subrange(0, l.len() as int).subrange(
                                0,
                                k,
                            ));
                            assert(l.subrange(0, k) =~= q.subrange(0, l.len() as int).subrange(
                                0,
                                k,
                            ));
                        }
                    }
                }
            }
        }
    }
}

/// Lifts a child-level record delta through an unchanged edge label.
proof fn lemma_lift_through_branch(
    bold: Branch,
    bnew: Branch,
    rest: Seq<char>,
    delta: Multiset<(usize, usize)>,
)
    requires
        bnew.label@ == bold.label@,
        bold.label@.len() > 0,
        bold.label@.len() <= rest.len(),
        bold.label@ == rest.subrange(0, bold.label@.len() as int),
        all_records(bnew.child) == all_records(bold.child).add(delta),
        forall|q2: Seq<char>| #[trigger] records_below(bnew.child, q2)
            == records_below(bold.child, q2).add(
            if q2.is_prefix_of(rest.skip(bold.label@.len() as int)) {
                delta
            } else {
                Multiset::empty()
            },
        ),
    ensures
        forall|q: Seq<char>|
            q.len() > 0 ==> #[trigger] branch_below(bnew, q) == branch_below(bold, q).add(
                if q.is_prefix_of(rest) {
                    delta
                } else {
                    Multiset::empty()
                },
            ),
{
    let l = bold.label@;
    let ll = l.len() as int;
    assert forall|q: Seq<char>| q.len() > 0 implies #[trigger] branch_below(bnew, q)
        == branch_below(bold, q).add(
        if q.is_prefix_of(rest) {
            delta
        } else {
            Multiset::empty()
        },
    ) by {
        if q.len() <= ll {
            // the pattern ends on the edge itself
            assert(q.is_prefix_of(rest) <==> q == l.subrange(0, q.len() as int)) by {
                assert(l.subrange(0, q.len() as int) =~= rest.subrange(0, q.len() as int));
            }
            if q == l.subrange(0, q.len() as int) {
            } else {
                assert(branch_below(bnew, q) =~~= branch_below(bold, q).add(Multiset::empty()));
            }
        } else {
            lemma_prefix_decompose(q, rest, ll);
            assert(q.is_prefix_of(rest) <==> (l == q.subrange(0, ll) && q.skip(ll).is_prefix_of(
                rest.skip(ll),
            ))) by {
                assert(rest.subrange(0, ll) == l);
            }
            if l == q.subrange(0, ll) {
                // hypothesis instantiated at the leftover pattern
                assert(records_below(bnew.child, q.skip(ll)) == records_below(
                    bold.child,
                    q.skip(ll),
                ).add(
                    if q.skip(ll).is_prefix_of(rest.skip(ll)) {
                        delta
                    } else {
                        Multiset::empty()
                    },
                ));
                if !q.skip(ll).is_prefix_of(rest.skip(ll)) {
                    assert(branch_below(bnew, q) =~~= branch_below(bold, q).add(
                        Multiset::empty(),
                    ));
                }
            } else {
                assert(branch_below(bnew, q) =~~= branch_below(bold, q).add(Multiset::empty()));
            }
        }
    }
}

/// Copies `text[from..to]` into a fresh vector.
pub(crate) fn copy_range(text: &Vec<char>, from: usize, to: usize) -> (r: Vec<char>)
    requires
        from <= to <= text@.len(),
    ensures
        r@ == text@.subrange(from as int, to as int),
{
    let mut r: Vec<char> = Vec::new();
    let mut t: usize = from;
    while t < to
        invariant
            from <= t <= to <= text@.len(),
            r@ =~= text@.subrange(from as int, t as int),
        decreases to - t,
    {
        r.push(text[t]);
        assert(r@ =~= text@.subrange(from as int, t + 1 as int));
        t = t + 1;
    }
    r
}

/// The multiset holding one occurrence record.
pub open spec fn one_rec(row: usize, off: usize) -> Multiset<(usize, usize)> {
    Multiset::singleton((row, off))
}

/// `one_rec` under a condition, `empty` otherwise.
pub open spec fn rec_if(c: bool, row: usize, off: usize) -> Multiset<(usize, usize)> {
    if c {
        one_rec(row, off)
    } else {
        Multiset::empty()
    }
}

/// The record model and the counts read only `records` and `branches`;
/// flipping a `terminal` flag changes none of them.
proof fn lemma_model_fields(n1: Node, n2: Node)
    requires
        n1.records == n2.records,
        n1.branches == n2.branches,
        n1.count == n2.count,
    ensures
        all_records(n1) == all_records(n2),
        vcount(n1) == vcount(n2),
        ecount(n1) == ecount(n2),
        wf(n1) == wf(n2),
        forall|q: Seq<char>| #[trigger] records_below(n1, q) == records_below(n2, q),
        forall|c: char| #[trigger] head_match(n1, c) == head_match(n2, c),
{
    assert(all_records(n1) == all_records(n2));
    assert forall|q: Seq<char>| #[trigger] records_below(n1, q) == records_below(n2, q) by {
        if q.len() == 0 {
        } else {
            assert(records_below(n1, q) == records_below_branches(n1.branches@, q));
            assert(records_below(n2, q) == records_below_branches(n2.branches@, q));
        }
    }
}

/// Builds the branch holding the yet-unmatched remainder `text[pos..]` of a
/// suffix, with its occurrence record at the far end. When a pending word
/// end falls strictly inside the remainder, the chain is built in two
/// segments with a terminal node between them.
fn chain_branch(text: &Vec<char>, pos: usize, row: usize, off: usize, mark: Option<usize>) -> (r:
    (Branch, usize))
    requires
        pos < text@.len(),
        mark matches Some(m) ==> pos < m <= text@.len(),
    ensures
        wf_branch(r.0),
        r.0.label@[0] == text@[pos as int],
        all_records(r.0.child) == one_rec(row, off),
        forall|q: Seq<char>|
            q.len() > 0 ==> #[trigger] branch_below(r.0, q) == rec_if(
                q.is_prefix_of(text@.skip(pos as int)),
                row,
                off,
            ),
        vcount(r.0.child) == r.1,
        ecount(r.0.child) == r.1 - 1,
        1 <= r.1 <= 2,
        mark.is_none() ==> r.1 == 1,
{
    let ghost rest = text@.skip(pos as int);
    let text_len = text.len();
    let mut two: bool = false;
    let mut m: usize = 0;
    match mark {
        Some(mm) => {
            if mm < text_len {
                two = true;
                m = mm;
            }
        },
        None => {},
    }
    let mut recs: Vec<(usize, usize)> = Vec::new();
    recs.push((row, off));
    if two {
        let leaf = Node { terminal: false, records: recs, count: 1, branches: Vec::new() };
        proof {
            assert(leaf.records@ =~= Seq::<(usize, usize)>::empty().push((row, off)));
            assert(all_records_branches(leaf.branches@) == Multiset::<(usize, usize)>::empty());
            assert(all_records(leaf) =~~= one_rec(row, off));
            assert(vcount_branches(leaf.branches@) == 0);
            assert(ecount_branches(leaf.branches@) == 0);
        }
        let tail = Branch { label: copy_range(text, m, text_len), child: leaf };
        let mut midbs: Vec<Branch> = Vec::new();
        midbs.push(tail);
        let mid = Node { terminal: true, records: Vec::new(), count: 1, branches: midbs };
        let b = Branch { label: copy_range(text, pos, m), child: mid };
        proof {
            let k = m - pos;
            assert(mid.branches@ =~= Seq::<Branch>::empty().push(tail));
            assert(mid.branches@.drop_first() =~= Seq::<Branch>::empty());
            assert(mid.branches@[0] == tail);
            assert(mid.records@ =~= Seq::<(usize, usize)>::empty());
            assert(mid.records@.to_multiset().len() == 0);
            assert(mid.records@.to_multiset() =~~= Multiset::<(usize, usize)>::empty());
            assert(all_records_branches(Seq::<Branch>::empty())
                == Multiset::<(usize, usize)>::empty());
            assert(all_records_branches(mid.branches@) == all_records(leaf).add(
                all_records_branches(mid.branches@.drop_first()),
            ));
            assert(all_records(mid) =~~= one_rec(row, off));
            assert(vcount_branches(mid.branches@) == vcount(leaf) + vcount_branches(
                mid.branches@.drop_first(),
            ));
            assert(ecount_branches(mid.branches@) == ecount(leaf) + ecount_branches(
                mid.branches@.drop_first(),
            ));
            assert(vcount(mid) == 2);
            assert(ecount(mid) == 1);
            assert(b.label@ =~= rest.subrange(0, k as int));
            assert(tail.label@ =~= rest.skip(k as int));
            // well-formedness of the two-segment chain
            assert(wf(leaf)) by {
                assert(all_records(leaf).len() == 1);
            }
            assert(wf_branch(tail));
            assert(wf(mid)) by {
                assert(all_records(mid).len() == 1);
                assert(forall|i: int|
                    0 <= i < mid.branches@.len() ==> wf_branch(#[trigger] mid.branches@[i]));
            }
            assert(wf_branch(b));
            assert forall|q: Seq<char>| q.len() > 0 implies #[trigger] branch_below(b, q)
                == rec_if(q.is_prefix_of(rest), row, off) by {
                if q.len() <= k {
                    assert(b.label@.subrange(0, q.len() as int) =~= rest.subrange(
                        0,
                        q.len() as int,
                    ));
                    assert(q.is_prefix_of(rest) <==> q == b.label@.subrange(0, q.len() as int));
                } else {
                    lemma_prefix_decompose(q, rest, k as int);
                    let q2 = q.skip(k as int);
                    assert(q.subrange(0, k as int) == b.label@ <==> b.label@ == q.subrange(
                        0,
                        k as int,
                    ));
                    if b.label@ == q.subrange(0, k as int) {
                        assert(records_below_branches(Seq::<Branch>::empty(), q2)
                            == Multiset::<(usize, usize)>::empty());
                        assert(records_below_branches(mid.branches@, q2) == branch_below(
                            tail,
                            q2,
                        ).add(records_below_branches(mid.branches@.drop_first(), q2)));
                        assert(records_below(mid, q2) =~~= branch_below(tail, q2));
                        // the tail segment is a plain leaf edge
                        if q2.len() <= tail.label@.len() {
                            assert(tail.label@.subrange(0, q2.len() as int) =~= rest.skip(
                                k as int,
                            ).subrange(0, q2.len() as int));
                            assert(q2.is_prefix_of(rest.skip(k as int)) <==> q2
                                == tail.label@.subrange(0, q2.len() as int));
                        } else {
                            assert(!q2.is_prefix_of(rest.skip(k as int)));
                            if tail.label@ == q2.subrange(0, tail.label@.len() as int) {
                                let q3 = q2.skip(tail.label@.len() as int);
                                assert(q3.len() > 0);
                                assert(records_below_branches(leaf.branches@, q3)
                                    == Multiset::<(usize, usize)>::empty()) by {
                                    assert(leaf.branches@ =~= Seq::<Branch>::empty());
                                }
                                assert(records_below(leaf, q3)
                                    == Multiset::<(usize, usize)>::empty());
                            }
                        }
                    } else {
                        assert(!q.is_prefix_of(rest));
                    }
                }
            }
        }
        (b, 2)
    } else {
        let term = match mark {
            Some(_) => true,
            None => false,
        };
        let leaf = Node { terminal: term, records: recs, count: 1, branches: Vec::new() };
        let b = Branch { label: copy_range(text, pos, text_len), child: leaf };
        proof {
            assert(leaf.records@ =~= Seq::<(usize, usize)>::empty().push((row, off)));
            assert(all_records_branches(leaf.branches@) == Multiset::<(usize, usize)>::empty());
            assert(all_records(leaf) =~~= one_rec(row, off));
            assert(vcount_branches(leaf.branches@) == 0);
            assert(ecount_branches(leaf.branches@) == 0);
            assert(vcount(leaf) == 1);
            assert(ecount(leaf) == 0);
            assert(b.label@ =~= rest);
            assert(wf(leaf)) by {
                assert(all_records(leaf).len() == 1);
            }
            assert(wf_branch(b));
            assert forall|q: Seq<char>| q.len() > 0 implies #[trigger] branch_below(b, q)
                == rec_if(q.is_prefix_of(rest), row, off) by {
                if q.len() <= rest.len() {
                    assert(b.label@.subrange(0, q.len() as int) =~= rest.subrange(
                        0,
                        q.len() as int,
                    ));
                    assert(q.is_prefix_of(rest) <==> q == b.label@.subrange(0, q.len() as int));
                } else {
                    assert(!q.is_prefix_of(rest));
                    if b.label@ == q.subrange(0, b.label@.len() as int) {
                        let q3 = q.skip(b.label@.len() as int);
                        assert(q3.len() > 0);
                        assert(records_below_branches(leaf.branches@, q3)
                            == Multiset::<(usize, usize)>::empty()) by {
                            assert(leaf.branches@ =~= Seq::<Branch>::empty());
                        }
                        assert(records_below(leaf, q3) == Multiset::<(usize, usize)>::empty());
                    }
                }
            }
        }
        (b, 1)
    }
}

/// Inserts the suffix remainder `text[pos..]` below `n`, attaching the
/// occurrence record `(row, off)` to the node where it ends, splitting an
/// edge at the point of divergence where needed. A pending `mark` is the
/// position where the first word of the suffix ends: the node reached
/// there has its `terminal` flag set, an edge being split at that point
/// if no node exists there yet.
///
/// The contract gives the exact change of the record model: for every
/// pattern `q`, the records below `q`'s point gain the new record exactly
/// when `q` is a prefix of the inserted remainder.
#[verifier::rlimit(100)]
fn insert(
    n: &mut Node,
    text: &Vec<char>,
    pos: usize,
    row: usize,
    off: usize,
    mark: Option<usize>,
) -> (dv: usize)
    requires
        wf(*old(n)),
        pos <= text@.len(),
        all_records(*old(n)).len() < usize::MAX,
        mark matches Some(m) ==> pos <= m <= text@.len(),
    ensures
        wf(*final(n)),
        all_records(*final(n)) == all_records(*old(n)).add(one_rec(row, off)),
        forall|q: Seq<char>| #[trigger] records_below(*final(n), q) == records_below(*old(n), q)
            .add(rec_if(q.is_prefix_of(text@.skip(pos as int)), row, off)),
        vcount(*final(n)) == vcount(*old(n)) + dv,
        ecount(*final(n)) == ecount(*old(n)) + dv,
        dv <= 3,
        mark.is_none() ==> dv <= 2,
        mark == Some(pos) ==> dv <= 2,
        (pos == text@.len() || !head_match(*old(n), text@[pos as int])) ==> dv <= 2 && ((
        mark.is_none() || mark == Some(pos)) ==> dv <= 1),
    decreases text@.len() - pos,
{
    let ghost rest = text@.skip(pos as int);
    let text_len = text.len();
    // a pending mark landing exactly on this node fires here
    let mut mk: Option<usize> = mark;
    match mk {
        Some(m) => {
            if m == pos {
                n.terminal = true;
                mk = None;
            }
        },
        None => {},
    }
    proof {
        lemma_model_fields(*n, *old(n));
    }
    n.count = n.count + 1;
    if pos == text_len {
        // the whole suffix is consumed: the record lands here
        n.records.push((row, off));
        proof {
            assert(n.records@ == old(n).records@.push((row, off)));
            assert(n.branches@ == old(n).branches@);
            assert(all_records(*n) =~~= all_records(*old(n)).add(one_rec(row, off)));
            assert(rest =~= Seq::<char>::empty());
            assert forall|q: Seq<char>| #[trigger] records_below(*n, q) == records_below(
                *old(n),
                q,
            ).add(rec_if(q.is_prefix_of(rest), row, off)) by {
                if q.len() == 0 {
                    assert(q =~= rest.subrange(0, q.len() as int));
                    assert(q.is_prefix_of(rest));
                } else {
                    assert(!q.is_prefix_of(rest));
                    assert(records_below(*n, q) == records_below_branches(n.branches@, q));
                    assert(records_below(*old(n), q) == records_below_branches(
                        old(n).branches@,
                        q,
                    ));
                    assert(records_below(*n, q) =~~= records_below(*old(n), q).add(
                        Multiset::empty(),
                    ));
                }
            }
            assert(vcount(*n) == vcount(*old(n)));
            assert(ecount(*n) == ecount(*old(n)));
            assert(wf(*n)) by {
                lemma_wf_parts(*old(n));
                assert(all_records(*n).len() == all_records(*old(n)).len() + 1);
                assert(forall|i: int|
                    0 <= i < n.branches@.len() ==> wf_branch(#[trigger] n.branches@[i]));
            }
        }
        return 0;
    }
    let c = text[pos];
    // look for the branch whose label starts with `c`
    let blen = n.branches.len();
    let ghost nmid = *n;
    proof {
        lemma_wf_parts(*old(n));
    }
    let mut idx: usize = blen;
    let mut i: usize = 0;
    while i < blen
        invariant
            0 <= i <= blen,
            *n == nmid,
            blen == n.branches@.len(),
            wf(*old(n)),
            n.branches@ == old(n).branches@,
            forall|j: int|
                0 <= j < blen ==> (#[trigger] n.branches@[j].label@.len()) > 0,
            idx == blen || (idx < i && n.branches@[idx as int].label@[0] == c),
            idx == blen ==> forall|j: int| 0 <= j < i ==> n.branches@[j].label@[0] != c,
        decreases blen - i,
    {
        if idx == blen && n.branches[i].label[0] == c {
            idx = i;
        }
        i = i + 1;
    }
    if idx == blen {
        // no branch starts with `c`: hang the whole remainder here
        let (b, dvc) = chain_branch(text, pos, row, off, mk);
        proof {
            lemma_branches_push(n.branches@, b);
        }
        let ghost bs0 = n.branches@;
        n.branches.push(b);
        proof {
            assert(n.branches@ == bs0.push(b));
            assert(n.records@ == old(n).records@);
            assert(all_records(*n) =~~= all_records(*old(n)).add(one_rec(row, off)));
            assert forall|q: Seq<char>| #[trigger] records_below(*n, q) == records_below(
                *old(n),
                q,
            ).add(rec_if(q.is_prefix_of(rest), row, off)) by {
                if q.len() == 0 {
                    assert(q =~= rest.subrange(0, q.len() as int));
                    assert(q.is_prefix_of(rest));
                    assert(records_below(*n, q) == all_records(*n));
                    assert(records_below(*old(n), q) == all_records(*old(n)));
                } else {
                    assert(records_below(*n, q) == records_below_branches(n.branches@, q));
                    assert(records_below(*old(n), q) == records_below_branches(bs0, q));
                    assert(branch_below(b, q) == rec_if(q.is_prefix_of(rest), row, off));
                }
            }
            assert(vcount(*n) == 1 + vcount_branches(n.branches@));
            assert(vcount(*old(n)) == 1 + vcount_branches(bs0));
            assert(vcount(*n) == vcount(*old(n)) + dvc);
            assert(ecount(*n) == ecount(*old(n)) + dvc);
            assert(wf(*n)) by {
                lemma_wf_parts(*old(n));
                assert(all_records(*n).len() == all_records(*old(n)).len() + 1);
                assert forall|j: int| 0 <= j < n.branches@.len() implies #[trigger] wf_branch(
                    n.branches@[j],
                ) by {
                    if j < bs0.len() {
                        assert(wf_branch(old(n).branches@[j]));
                    }
                }
                assert forall|j1: int, j2: int| 0 <= j1 < j2 < n.branches@.len() implies
                    n.branches@[j1].label@[0] != n.branches@[j2].label@[0] by {
                    if j2 < bs0.len() {
                        assert(wf(*old(n)));
                    } else {
                        assert(n.branches@[j2].label@[0] == c);
                        assert(n.branches@[j1].label@[0] != c);
                    }
                }
            }
        }
        return dvc;
    }
    // a branch starts with `c`: walk its label
    let ghost bs0 = n.branches@;
    let mut b = n.branches.remove(idx);
    let ghost borig = b;
    let oc_count = b.child.count;
    let lab_len = b.label.len();
    proof {
        lemma_wf_parts(*old(n));
        assert(wf_branch(bs0[idx as int]));
        lemma_records_of_child_le(bs0, idx as int);
    }
    // longest shared run, capped at a pending word end
    let mut kmax: usize = lab_len;
    if text_len - pos < kmax {
        kmax = text_len - pos;
    }
    match mk {
        Some(m) => {
            if m - pos < kmax {
                kmax = m - pos;
            }
        },
        None => {},
    }
    let mut k: usize = 1;
    while k < kmax && b.label[k] == text[pos + k]
        invariant
            1 <= k <= kmax,
            b == borig,
            kmax <= lab_len,
            lab_len == b.label@.len(),
            pos + kmax <= text_len,
            text_len == text@.len(),
            b.label@[0] == text@[pos as int],
            forall|j: int| 0 <= j < k ==> b.label@[j] == text@[pos + j],
        decreases kmax - k,
    {
        k = k + 1;
    }
    let did_split = k < lab_len;
    if did_split {
        // split the edge at `k`
        let Branch { label: lab0, child: old_child } = b;
        let mut lab0 = lab0;
        let tail_lab = lab0.split_off(k);
        let mut mbs: Vec<Branch> = Vec::new();
        mbs.push(Branch { label: tail_lab, child: old_child });
        let mid = Node { terminal: false, records: Vec::new(), count: oc_count, branches: mbs };
        b = Branch { label: lab0, child: mid };
        proof {
            assert(b.label@ == borig.label@.subrange(0, k as int));
            assert(b.child.branches@[0].label@ == borig.label@.skip(k as int));
            assert(b.child.branches@[0].child == borig.child);
            lemma_split_below(borig, b, k as int);
            assert(wf(borig.child)) by {
                lemma_wf_parts(*old(n));
            }
            assert(wf(b.child)) by {
                lemma_wf_parts(borig.child);
                assert(all_records(b.child).len() == all_records(borig.child).len());
                assert(wf_branch(b.child.branches@[0]));
                assert(forall|i2: int|
                    0 <= i2 < b.child.branches@.len() ==> wf_branch(
                        #[trigger] b.child.branches@[i2],
                    ));
            }
        }
    }
    let ghost b1 = b;
    proof {
        assert(all_records(b1.child) == all_records(borig.child));
        assert(all_records(b1.child).len() < usize::MAX);
        assert(b1.label@.len() <= rest.len());
        assert(b1.label@ =~= rest.subrange(0, b1.label@.len() as int));
    }
    let dv_rec = insert(&mut b.child, text, pos + k, row, off, mk);
    proof {
        assert(text@.skip((pos + k) as int) =~= rest.skip(b1.label@.len() as int));
        assert(b.label@ == b1.label@);
        lemma_lift_through_branch(b1, b, rest, one_rec(row, off));
    }
    let ghost bnew = b;
    n.branches.insert(idx, b);
    let dv_split: usize = if did_split {
        1
    } else {
        0
    };
    proof {
        assert(n.branches@ =~= bs0.update(idx as int, bnew));
        lemma_branches_update(bs0, idx as int, bnew);
        // the new branch's share exceeds the old one's by exactly the record
        assert(all_records(bnew.child) == all_records(bs0[idx as int].child).add(
            one_rec(row, off),
        ));
        assert forall|q: Seq<char>| q.len() > 0 implies #[trigger] branch_below(bnew, q)
            == branch_below(bs0[idx as int], q).add(rec_if(q.is_prefix_of(rest), row, off)) by {
            if did_split {
                assert(branch_below(b1, q) == branch_below(borig, q));
            }
        }
        let arbu = all_records_branches(bs0.update(idx as int, bnew));
        let arb0 = all_records_branches(bs0);
        let arc = all_records(bs0[idx as int].child);
        assert(arbu.add(arc) == arb0.add(arc.add(one_rec(row, off))));
        assert(arb0.add(arc.add(one_rec(row, off))) =~~= (arb0.add(one_rec(row, off))).add(arc));
        assert(arbu.add(arc) == (arb0.add(one_rec(row, off))).add(arc));
        lemma_add_cancel(arbu, arb0.add(one_rec(row, off)), arc);
        assert(n.records@ == old(n).records@);
        assert(all_records(*n) =~~= all_records(*old(n)).add(one_rec(row, off)));
        assert forall|q: Seq<char>| #[trigger] records_below(*n, q) == records_below(
            *old(n),
            q,
        ).add(rec_if(q.is_prefix_of(rest), row, off)) by {
            if q.len() == 0 {
                assert(q =~= rest.subrange(0, q.len() as int));
                assert(q.is_prefix_of(rest));
                assert(records_below(*n, q) == all_records(*n));
                assert(records_below(*old(n), q) == all_records(*old(n)));
            } else {
                assert(records_below(*n, q) == records_below_branches(n.branches@, q));
                assert(records_below(*old(n), q) == records_below_branches(bs0, q));
                let rbu = records_below_branches(bs0.update(idx as int, bnew), q);
                let rb0 = records_below_branches(bs0, q);
                let bco = branch_below(bs0[idx as int], q);
                let dd = rec_if(q.is_prefix_of(rest), row, off);
                assert(rbu.add(bco) == rb0.add(bco.add(dd)));
                assert(rb0.add(bco.add(dd)) =~~= (rb0.add(dd)).add(bco));
                assert(rbu.add(bco) == (rb0.add(dd)).add(bco));
                lemma_add_cancel(rbu, rb0.add(dd), bco);
            }
        }
        // node and edge counts
        assert(vcount(bnew.child) == vcount(bs0[idx as int].child) + dv_split + dv_rec);
        assert(ecount(bnew.child) == ecount(bs0[idx as int].child) + dv_split + dv_rec);
        assert(vcount(*n) == 1 + vcount_branches(n.branches@));
        assert(vcount(*old(n)) == 1 + vcount_branches(bs0));
        assert(ecount(*n) == n.branches@.len() + ecount_branches(n.branches@));
        assert(ecount(*old(n)) == bs0.len() + ecount_branches(bs0));
        assert(vcount(*n) == vcount(*old(n)) + dv_split + dv_rec);
        assert(ecount(*n) == ecount(*old(n)) + dv_split + dv_rec);
        // well-formedness
        assert(wf(*n)) by {
            lemma_wf_parts(*old(n));
            assert(all_records(*n).len() == all_records(*old(n)).len() + 1);
            assert(bnew.label@[0] == bs0[idx as int].label@[0]);
            assert forall|j: int| 0 <= j < n.branches@.len() implies #[trigger] wf_branch(
                n.branches@[j],
            ) by {
                if j != idx {
                    assert(wf_branch(old(n).branches@[j]));
                }
            }
            assert forall|j1: int, j2: int| 0 <= j1 < j2 < n.branches@.len() implies
                n.branches@[j1].label@[0] != n.branches@[j2].label@[0] by {
                assert(wf(*old(n)));
                assert(bs0[j1].label@[0] != bs0[j2].label@[0]);
            }
        }
        // the head character was matched, so the head-match bound is vacuous
        assert(head_match(*old(n), text@[pos as int]));
        // size bounds for the two split cases
        if did_split {
            if k < kmax {
                // true divergence: the recursion found no matching head
                assert(b1.child.branches@[0].label@[0] == borig.label@[k as int]);
                assert(!head_match(b1.child, text@[(pos + k) as int]));
            } else {
                assert(k == kmax);
                assert(kmax < lab_len);
                if pos + k == text_len {
                } else {
                    assert(mk matches Some(m) && m == pos + k);
                }
            }
        }
    }
    dv_split + dv_rec
}

/// The records among `(row, o)` for offsets `o < k` whose suffix of `t`
/// starts with `q` — the occurrences of `q` in `t` before position `k`.
pub open spec fn occurrences_upto(row: usize, t: Seq<char>, q: Seq<char>, k: int) -> Multiset<
    (usize, usize),
>
    decreases k,
{
    if k <= 0 {
        Multiset::empty()
    } else {
        occurrences_upto(row, t, q, k - 1).add(
            rec_if(q.is_prefix_of(t.skip(k - 1)), row, (k - 1) as usize),
        )
    }
}

/// All occurrences of `q` in `t`, as records of text `row`.
pub open spec fn occurrences_in(row: usize, t: Seq<char>, q: Seq<char>) -> Multiset<
    (usize, usize),
> {
    occurrences_upto(row, t, q, t.len() as int)
}

/// A child subtree has no more nodes than the whole branch list.
proof fn lemma_vcount_child_le(bs: Seq<Branch>, i: int)
    requires
        0 <= i < bs.len(),
    ensures
        vcount(bs[i].child) <= vcount_branches(bs),
    decreases bs,
{
    if i > 0 {
        assert(bs.drop_first()[i - 1] == bs[i]);
        lemma_vcount_child_le(bs.drop_first(), i - 1);
    }
}

impl SuffixTree {
    /// Indexes text number `row`: inserts every suffix of `text`, each with
    /// its occurrence record, and marks the nodes where its words end.
    /// Afterwards, for every pattern, the records below the pattern's point
    /// have grown by exactly the occurrences of the pattern in `text`.
    pub fn construct(&mut self, row: usize, text: &Vec<char>)
        requires
            old(self).wf(),
            all_records(old(self).root).len() + text@.len() <= usize::MAX,
        ensures
            final(self).wf(),
            forall|q: Seq<char>| #[trigger] records_below(final(self).root, q) == records_below(
                old(self).root,
                q,
            ).add(occurrences_in(row, text@, q)),
            all_records(final(self).root).len() == all_records(old(self).root).len()
                + text@.len(),
    {
        let len = text.len();
        let mut o: usize = 0;
        proof {
            assert forall|q: Seq<char>| #[trigger] records_below(self.root, q) == records_below(
                old(self).root,
                q,
            ).add(occurrences_upto(row, text@, q, 0)) by {
                assert(occurrences_upto(row, text@, q, 0) == Multiset::<(usize, usize)>::empty());
                assert(records_below(self.root, q) =~~= records_below(self.root, q).add(
                    Multiset::empty(),
                ));
            }
        }
        while o < len
            invariant
                wf(self.root),
                self.vertices == vcount(self.root),
                self.edges == ecount(self.root),
                vcount(self.root) <= 1 + 3 * all_records(self.root).len(),
                all_records(self.root).len() == all_records(old(self).root).len() + o,
                all_records(old(self).root).len() + len <= usize::MAX,
                o <= len,
                len == text@.len(),
                forall|q: Seq<char>| #[trigger] records_below(self.root, q) == records_below(
                    old(self).root,
                    q,
                ).add(occurrences_upto(row, text@, q, o as int)),
            decreases len - o,
        {
            // a suffix starting at a word start carries a mark at the end
            // of its first word
            let word_start = o == 0 || text[o - 1] == ' ';
            let mut mark: Option<usize> = None;
            if word_start && text[o] != ' ' {
                let mut j: usize = o;
                while j < len && text[j] != ' '
                    invariant
                        o <= j <= len,
                        len == text@.len(),
                    decreases len - j,
                {
                    j = j + 1;
                }
                mark = Some(j);
            }
            let ghost prev = self.root;
            let dv = insert(&mut self.root, text, o, row, o, mark);
            proof {
                lemma_tree_shape(self.root);
                assert(all_records(self.root).len() <= usize::MAX);
                assert(vcount(self.root) <= 1 + 3 * (usize::MAX as nat));
            }
            self.vertices = self.vertices + (dv as u128);
            self.edges = self.edges + (dv as u128);
            proof {
                assert forall|q: Seq<char>| #[trigger] records_below(self.root, q)
                    == records_below(old(self).root, q).add(
                    occurrences_upto(row, text@, q, o + 1),
                ) by {
                    let a = records_below(old(self).root, q);
                    let b = occurrences_upto(row, text@, q, o as int);
                    let c = rec_if(q.is_prefix_of(text@.skip(o as int)), row, o);
                    assert(occurrences_upto(row, text@, q, o + 1) == b.add(c));
                    assert(records_below(self.root, q) == records_below(prev, q).add(c));
                    assert((a.add(b)).add(c) =~~= a.add(b.add(c)));
                }
                assert(all_records(self.root).len() == all_records(prev).len() + 1);
            }
            o = o + 1;
        }
    }

    /// The records at every position where `pattern` occurs in the indexed
    /// texts; the empty pattern yields nothing.
    pub fn find(&self, pattern: &Vec<char>) -> (r: Vec<(usize, usize)>)
        requires
            self.wf(),
        ensures
            pattern@.len() == 0 ==> r@.len() == 0,
            pattern@.len() > 0 ==> r@.to_multiset() == records_below(self.root, pattern@),
    {
        if pattern.len() == 0 {
            Vec::new()
        } else {
            let r = find_from(&self.root, pattern, 0);
            proof {
                assert(pattern@.skip(0) =~= pattern@);
            }
            r
        }
    }

    /// Number of nodes in the tree.
    pub fn vertex_count(&self) -> (r: u128)
        requires
            self.wf(),
        ensures
            r == vcount(self.root),
    {
        self.vertices
    }

    /// Number of edges in the tree.
    pub fn edge_count(&self) -> (r: u128)
        requires
            self.wf(),
        ensures
            r == ecount(self.root),
            r + 1 == vcount(self.root),
    {
        proof {
            lemma_tree_shape(self.root);
        }
        self.edges
    }
}

/// Do the `n` characters of `a` at `ai` equal those of `b` at `bi`?
pub(crate) fn range_eq(a: &Vec<char>, ai: usize, b: &Vec<char>, bi: usize, n: usize) -> (r: bool)
    requires
        ai + n <= a@.len(),
        bi + n <= b@.len(),
    ensures
        r <==> a@.subrange(ai as int, (ai + n) as int) == b@.subrange(bi as int, (bi + n) as int),
{
    let alen = a.len();
    let blen = b.len();
    let mut j: usize = 0;
    while j < n
        invariant
            0 <= j <= n,
            alen == a@.len(),
            blen == b@.len(),
            ai + n <= a@.len(),
            bi + n <= b@.len(),
            forall|t: int| 0 <= t < j ==> a@[ai + t] == #[trigger] b@[bi + t],
        decreases n - j,
    {
        if a[ai + j] != b[bi + j] {
            proof {
                assert(a@.subrange(ai as int, (ai + n) as int)[j as int] != b@.subrange(
                    bi as int,
                    (bi + n) as int,
                )[j as int]);
            }
            return false;
        }
        j = j + 1;
    }
    proof {
        assert forall|t: int|
            0 <= t < n implies a@.subrange(ai as int, (ai + n) as int)[t] == #[trigger] b@.subrange(
            bi as int,
            (bi + n) as int,
        )[t] by {
            assert(a@[ai + t] == b@[bi + t]);
        }
        assert(a@.subrange(ai as int, (ai + n) as int) =~= b@.subrange(
            bi as int,
            (bi + n) as int,
        ));
    }
    true
}

/// Appends every record in the subtree of `n` to `out`.
fn collect_into(n: &Node, out: &mut Vec<(usize, usize)>)
    ensures
        final(out)@.to_multiset() == old(out)@.to_multiset().add(all_records(*n)),
    decreases vcount(*n),
{
    let mut i: usize = 0;
    let rlen = n.records.len();
    while i < rlen
        invariant
            0 <= i <= rlen,
            rlen == n.records@.len(),
            out@.to_multiset() == old(out)@.to_multiset().add(
                n.records@.subrange(0, i as int).to_multiset(),
            ),
        decreases rlen - i,
    {
        let ghost pre = out@;
        out.push(n.records[i]);
        proof {
            assert(n.records@.subrange(0, i + 1) =~= n.records@.subrange(0, i as int).push(
                n.records@[i as int],
            ));
            assert(out@.to_multiset() =~~= old(out)@.to_multiset().add(
                n.records@.subrange(0, i + 1).to_multiset(),
            ));
        }
        i = i + 1;
    }
    proof {
        assert(n.records@.subrange(0, rlen as int) =~= n.records@);
    }
    let blen = n.branches.len();
    let mut i: usize = 0;
    proof {
        assert(n.branches@.skip(0) =~= n.branches@);
    }
    while i < blen
        invariant
            0 <= i <= blen,
            blen == n.branches@.len(),
            out@.to_multiset().add(all_records_branches(n.branches@.skip(i as int))) == old(
                out,
            )@.to_multiset().add(all_records(*n)),
        decreases blen - i,
    {
        proof {
            lemma_vcount_child_le(n.branches@, i as int);
            assert(n.branches@.skip(i as int)[0] == n.branches@[i as int]);
            assert(n.branches@.skip(i as int).drop_first() =~= n.branches@.skip(i + 1));
            assert(all_records_branches(n.branches@.skip(i as int)) == all_records(
                n.branches@[i as int].child,
            ).add(all_records_branches(n.branches@.skip(i + 1))));
        }
        let ghost pre = out@.to_multiset();
        collect_into(&n.branches[i].child, out);
        proof {
            let x = all_records(n.branches@[i as int].child);
            let y = all_records_branches(n.branches@.skip(i + 1));
            assert((pre.add(x)).add(y) =~~= pre.add(x.add(y)));
        }
        i = i + 1;
    }
    proof {
        assert(n.branches@.skip(blen as int) =~= Seq::<Branch>::empty());
        assert(all_records_branches(Seq::<Branch>::empty()) == Multiset::<(usize, usize)>::empty());
        assert(out@.to_multiset() =~~= out@.to_multiset().add(Multiset::empty()));
    }
}

/// The records below the point reached by `pattern[qpos..]` from `n`.
fn find_from(n: &Node, pattern: &Vec<char>, qpos: usize) -> (r: Vec<(usize, usize)>)
    requires
        wf(*n),
        qpos <= pattern@.len(),
    ensures
        r@.to_multiset() == records_below(*n, pattern@.skip(qpos as int)),
    decreases vcount(*n),
{
    let mut out: Vec<(usize, usize)> = Vec::new();
    let ghost q = pattern@.skip(qpos as int);
    if qpos == pattern.len() {
        proof {
            assert(q =~= Seq::<char>::empty());
        }
        collect_into(n, &mut out);
        proof {
            assert(out@.to_multiset() =~~= all_records(*n));
        }
        return out;
    }
    let rem = pattern.len() - qpos;
    let blen = n.branches.len();
    let mut i: usize = 0;
    proof {
        lemma_wf_parts(*n);
        assert(n.branches@.skip(0) =~= n.branches@);
        assert(Multiset::<(usize, usize)>::empty().add(
            records_below_branches(n.branches@, q),
        ) =~~= records_below_branches(n.branches@, q));
    }
    while i < blen
        invariant
            0 <= i <= blen,
            blen == n.branches@.len(),
            qpos < pattern@.len(),
            q == pattern@.skip(qpos as int),
            rem == pattern@.len() - qpos,
            qpos + rem <= usize::MAX,
            wf(*n),
            forall|j: int| 0 <= j < blen ==> (#[trigger] n.branches@[j].label@.len()) > 0,
            forall|j: int| 0 <= j < blen ==> wf(#[trigger] n.branches@[j].child),
            out@.to_multiset().add(records_below_branches(n.branches@.skip(i as int), q))
                == records_below_branches(n.branches@, q),
        decreases blen - i,
    {
        proof {
            assert(n.branches@.skip(i as int)[0] == n.branches@[i as int]);
            assert(n.branches@.skip(i as int).drop_first() =~= n.branches@.skip(i + 1));
            assert(records_below_branches(n.branches@.skip(i as int), q) == branch_below(
                n.branches@[i as int],
                q,
            ).add(records_below_branches(n.branches@.skip(i + 1), q)));
        }
        let ghost b = n.branches@[i as int];
        let ghost pre = out@.to_multiset();
        let llen = n.branches[i].label.len();
        if rem <= llen {
            // the pattern would end on this edge
            if range_eq(pattern, qpos, &n.branches[i].label, 0, rem) {
                proof {
                    assert(pattern@.subrange(qpos as int, (qpos + rem) as int) =~= q);
                    assert(b.label@.subrange(0, rem as int) == q);
                }
                collect_into(&n.branches[i].child, &mut out);
                proof {
                    assert(branch_below(b, q) == all_records(b.child));
                }
            } else {
                proof {
                    assert(pattern@.subrange(qpos as int, (qpos + rem) as int) =~= q);
                    assert(branch_below(b, q) == Multiset::<(usize, usize)>::empty());
                    assert(pre.add(Multiset::empty()) =~~= pre);
                }
            }
        } else {
            // the pattern continues past this edge
            if range_eq(pattern, qpos, &n.branches[i].label, 0, llen) {
                proof {
                    assert(pattern@.subrange(qpos as int, (qpos + llen) as int) =~= q.subrange(
                        0,
                        llen as int,
                    ));
                    assert(b.label@.subrange(0, llen as int) =~= b.label@);
                    assert(b.label@ == q.subrange(0, llen as int));
                    lemma_vcount_child_le(n.branches@, i as int);
                }
                let mut sub = find_from(&n.branches[i].child, pattern, qpos + llen);
                proof {
                    assert(pattern@.skip((qpos + llen) as int) =~= q.skip(llen as int));
                    assert(branch_below(b, q) == records_below(b.child, q.skip(llen as int)));
                    vstd::seq_lib::lemma_multiset_commutative(out@, sub@);
                }
                out.append(&mut sub);
            } else {
                proof {
                    assert(pattern@.subrange(qpos as int, (qpos + llen) as int) =~= q.subrange(
                        0,
                        llen as int,
                    ));
                    assert(b.label@.subrange(0, llen as int) =~= b.label@);
                    assert(b.label@ != q.subrange(0, llen as int));
                    assert(branch_below(b, q) == Multiset::<(usize, usize)>::empty());
                    assert(pre.add(Multiset::empty()) =~~= pre);
                }
            }
        }
        proof {
            let x = branch_below(b, q);
            let y = records_below_branches(n.branches@.skip(i + 1), q);
            assert((pre.add(x)).add(y) =~~= pre.add(x.add(y)));
        }
        i = i + 1;
    }
    proof {
        assert(n.branches@.skip(blen as int) =~= Seq::<Branch>::empty());
        assert(records_below_branches(Seq::<Branch>::empty(), q) == Multiset::<
            (usize, usize),
        >::empty());
        assert(out@.to_multiset() =~~= out@.to_multiset().add(Multiset::empty()));
        assert(records_below(*n, q) == records_below_branches(n.branches@, q));
    }
    out
}

/// The tree-shape law: in every subtree there is exactly one more node
/// than there are edges — the tree has a single root, and every other
/// node has exactly one incoming edge.
pub proof fn lemma_tree_shape(n: Node)
    ensures
        vcount(n) == ecount(n) + 1,
    decreases n,
{
    lemma_tree_shape_branches(n.branches@);
}

pub proof fn lemma_tree_shape_branches(bs: Seq<Branch>)
    ensures
        vcount_branches(bs) == ecount_branches(bs) + bs.len(),
    decreases bs,
{
    if bs.len() > 0 {
        lemma_tree_shape(bs[0].child);
        lemma_tree_shape_branches(bs.drop_first());
    }
}

} // verus!
