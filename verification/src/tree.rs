//! The set-trie itself and its operations.

use vstd::prelude::*;

use crate::model::canon;
use crate::model::forest_contains;
use crate::model::forest_wf;
use crate::model::has_sib;
use crate::model::lemma_canon_increasing;
use crate::model::lemma_contains_at_sib;
use crate::model::lemma_contains_insert;
use crate::model::lemma_contains_update;
use crate::model::lemma_drop_first_increasing;
use crate::model::lemma_has_sib_insert;
use crate::model::lemma_sib_unique;
use crate::model::lemma_sorted_insert_increasing;
use crate::model::lemma_sorted_insert_present;
use crate::model::lemma_sorted_insert_shape;
use crate::model::node_carries;
use crate::model::node_wf;
use crate::model::sib_at;
use crate::model::siblings_sorted;
use crate::model::sorted_insert;
use crate::model::strictly_increasing;
use crate::model::walk_exists;
use crate::model::walk_hits;
use crate::model::walk_matched;
use crate::model::walk_final;
use crate::model::forest_paths;
use crate::model::node_paths;
use crate::node::Node;

verus! {

/// A set-trie: an index over a collection of finite sets, stored as a prefix
/// tree over the sorted forms of the inserted sets.
pub struct UBTree<T> {
    children: Vec<Node<T>>,
}

impl<T> UBTree<T> {
    /// The root sibling list, one root per distinct minimal element.
    pub closed spec fn roots(self) -> Seq<Node<T>> {
        self.children@
    }

    /// An empty trie: no roots, nothing stored.
    pub fn new() -> (r: Self)
        ensures
            r.roots() == Seq::<Node<T>>::empty(),
    {
        UBTree { children: Vec::new() }
    }
}

impl UBTree<i32> {
    /// Structural invariant: every sibling list is sorted with unique values,
    /// paths are strictly increasing, and every leaf is terminal.
    pub open spec fn wf(self) -> bool {
        forest_wf(self.roots())
    }

    /// The abstract contents: `s` is the sorted form of some inserted set.
    pub open spec fn contains_set(self, s: Seq<i32>) -> bool {
        forest_contains(self.roots(), s)
    }

    /// Number of root nodes, i.e. of distinct minimal elements over all
    /// inserted sets (not the number of inserted sets).
    pub fn len(&self) -> (r: usize)
        ensures
            r == self.roots().len(),
    {
        self.children.len()
    }

    /// Borrow of the whole root sibling list.
    pub(crate) fn root_list(&self) -> (r: &Vec<Node<i32>>)
        ensures
            r@ == self.roots(),
    {
        &self.children
    }

    /// Read access to the root node at position `i`, ascending by element.
    pub fn root_at(&self, i: usize) -> (r: &Node<i32>)
        requires
            i < self.roots().len(),
        ensures
            *r == self.roots()[i as int],
    {
        &self.children[i]
    }

    /// Insert every set of `data` in order; equivalent to repeated `insert`.
    pub fn new_with_data(data: &Vec<Vec<i32>>) -> (r: Self)
        ensures
            r.wf(),
            forall|s: Seq<i32>| r.contains_set(s) <==> exists|i: int|
                0 <= i < data@.len() && (#[trigger] data@[i])@.len() > 0 && s == canon(data@[i]@),
    {
        let mut tree = UBTree::new();
        let mut i: usize = 0;
        while i < data.len()
            invariant
                i <= data@.len(),
                tree.wf(),
                forall|s: Seq<i32>| tree.contains_set(s) <==> exists|k: int|
                    0 <= k < i && (#[trigger] data@[k])@.len() > 0 && s == canon(data@[k]@),
            decreases data@.len() - i,
        {
            let ghost pre = tree;
            tree.insert(data[i].as_slice());
            proof {
                assert forall|s: Seq<i32>| tree.contains_set(s) implies exists|k: int|
                    0 <= k < i + 1 && (#[trigger] data@[k])@.len() > 0 && s == canon(
                    data@[k]@,
                ) by {
                    if pre.contains_set(s) {
                        let k = choose|k: int|
                            0 <= k < i && (#[trigger] data@[k])@.len() > 0 && s == canon(
                                data@[k]@,
                            );
                        assert(0 <= k < i + 1 && data@[k]@.len() > 0 && s == canon(data@[k]@));
                    } else {
                        assert(data@[i as int]@.len() > 0 && s == canon(data@[i as int]@));
                    }
                }
                assert forall|s: Seq<i32>|
                    (exists|k: int|
                        0 <= k < i + 1 && (#[trigger] data@[k])@.len() > 0 && s == canon(
                            data@[k]@,
                        )) implies tree.contains_set(s) by {
                    let k = choose|k: int|
                        0 <= k < i + 1 && (#[trigger] data@[k])@.len() > 0 && s == canon(
                            data@[k]@,
                        );
                }
            }
            i = i + 1;
        }
        tree
    }

    /// Insert a set, given as a sequence of its elements in any order and
    /// possibly with repeats.  The empty sequence is a no-op; otherwise the
    /// canonical (sorted, deduplicated) form of the input becomes stored,
    /// everything already stored stays, and nothing else is stored.
    /// Re-inserting an already stored set leaves the trie untouched.
    pub fn insert(&mut self, set: &[i32])
        requires
            old(self).wf(),
        ensures
            final(self).wf(),
            set@.len() == 0 ==> *final(self) == *old(self),
            set@.len() > 0 ==> (forall|s: Seq<i32>|
                final(self).contains_set(s) <==> old(self).contains_set(s) || s == canon(set@)),
            set@.len() > 0 && old(self).contains_set(canon(set@)) ==> *final(self) == *old(
                self,
            ),
            set@.len() > 0 ==> (forall|e: i32|
                has_sib(final(self).roots(), e) <==> has_sib(old(self).roots(), e) || e == canon(
                    set@,
                )[0]),
    {
        let sorted = sort_dedup(set);
        proof {
            lemma_canon_increasing(set@);
        }
        if sorted.len() == 0 {
            return ;
        }
        proof {
            assert(sorted@.skip(0) =~= sorted@);
        }
        if contains_path(&self.children, &sorted, 0) {
            proof {
                let j = choose|j: int|
                    0 <= j < self.roots().len() && (#[trigger] self.roots()[j]).element
                        == sorted@[0] && node_carries(self.roots()[j], sorted@);
                assert(has_sib(self.roots(), sorted@[0]));
            }
            return ;
        }
        let mut tmp: Vec<Node<i32>> = Vec::new();
        core::mem::swap(&mut self.children, &mut tmp);
        let rebuilt = insert_forest(tmp, &sorted, 0);
        self.children = rebuilt;
    }

    /// What `exists_set` reports: the greedy walk for the canonical query meets
    /// a terminal node; an empty query is never found.
    pub open spec fn spec_exists(self, q: Seq<i32>) -> bool {
        q.len() > 0 && walk_exists(self.roots(), canon(q))
    }

    /// What `subsets` returns: the stored sets met as terminals along the
    /// greedy walk, each as its full sorted sequence, in walk order.
    pub open spec fn spec_subsets(self, q: Seq<i32>) -> Seq<Seq<i32>> {
        walk_hits(self.roots(), canon(q))
    }

    /// True iff some matched node along the greedy walk for the query is
    /// terminal; in particular true whenever the query itself is stored.
    pub fn exists_set(&self, query: &[i32]) -> (r: bool)
        requires
            self.wf(),
        ensures
            r == self.spec_exists(query@),
    {
        if query.is_empty() {
            return false;
        }
        let cq = sort_dedup(query);
        proof {
            assert(cq@.skip(0) =~= cq@);
        }
        exists_walk(&self.children, &cq, 0)
    }

    /// The stored sets met as terminals along the greedy walk for the query,
    /// in walk order (ascending by length; each entry a sorted sequence).
    /// An empty query yields an empty result.
    pub fn subsets(&self, query: &[i32]) -> (r: Vec<Vec<i32>>)
        requires
            self.wf(),
        ensures
            r.deep_view() == self.spec_subsets(query@),
    {
        let mut result: Vec<Vec<i32>> = Vec::new();
        if query.is_empty() {
            proof {
                assert(result.deep_view() =~= Seq::<Seq<i32>>::empty());
                assert(canon(query@).len() == 0);
            }
            return result;
        }
        let cq = sort_dedup(query);
        let path: Vec<i32> = Vec::new();
        let ghost pre_out = result.deep_view();
        subsets_walk(&self.children, &cq, 0, path, &mut result);
        proof {
            assert(cq@.skip(0) =~= cq@);
            let hits = walk_hits(self.roots(), canon(query@));
            assert(result.deep_view() =~= hits) by {
                assert(pre_out =~= Seq::<Seq<i32>>::empty());
                let mapped = hits.map_values(|h: Seq<i32>| Seq::<i32>::empty() + h);
                assert(result.deep_view() =~= mapped);
                assert forall|k: int| 0 <= k < hits.len() implies mapped[k] == hits[k] by {
                    assert(Seq::<i32>::empty() + hits[k] =~= hits[k]);
                }
                assert(mapped =~~= hits);
            }
        }
        result
    }
}

impl UBTree<i32> {
    /// What `supersets` returns.  The greedy walk for the canonical query
    /// ends at some sibling list; if the query is non-empty and nothing at
    /// all matched, the result is empty, and otherwise it is every stored
    /// set found in that subtree, each written as the matched prefix plus
    /// the path below, in depth-first order.
    pub open spec fn spec_supersets(self, q: Seq<i32>) -> Seq<Seq<i32>> {
        let cq = canon(q);
        let m = walk_matched(self.roots(), cq);
        if cq.len() > 0 && m.len() == 0 {
            Seq::empty()
        } else {
            forest_paths(walk_final(self.roots(), cq), m)
        }
    }

    /// The stored sets lying at or below the node reached by the greedy walk
    /// for the query.  An empty query yields every stored set, once each; a
    /// non-empty query none of whose elements matches yields nothing.
    pub fn supersets(&self, query: &[i32]) -> (r: Vec<Vec<i32>>)
        requires
            self.wf(),
        ensures
            r.deep_view() == self.spec_supersets(query@),
    {
        let cq = sort_dedup(query);
        proof {
            assert(cq@.skip(0) =~= cq@);
        }
        let mut matched: Vec<i32> = Vec::new();
        let fin = walk_to_final(&self.children, &cq, 0, &mut matched);
        proof {
            assert(matched@ =~= Seq::<i32>::empty() + walk_matched(self.roots(), cq@));
        }
        if cq.len() > 0 && matched.len() == 0 {
            let result: Vec<Vec<i32>> = Vec::new();
            proof {
                assert(result.deep_view() =~= Seq::<Seq<i32>>::empty());
            }
            return result;
        }
        let mut result: Vec<Vec<i32>> = Vec::new();
        let ghost base = result.deep_view();
        collect_forest(fin, &matched, &mut result);
        proof {
            assert(base =~= Seq::<Seq<i32>>::empty());
            assert(result.deep_view() =~= forest_paths(
                walk_final(self.roots(), cq@),
                walk_matched(self.roots(), cq@),
            ));
        }
        result
    }
}

/// Appending one node to a sibling list appends that node's stored sets to
/// the forest's.
proof fn lemma_forest_paths_snoc(ns: Seq<Node<i32>>, p: Seq<i32>)
    requires
        ns.len() > 0,
    ensures
        forest_paths(ns, p) == forest_paths(ns.drop_last(), p) + node_paths(ns.last(), p),
    decreases ns.len(),
{
    if ns.len() == 1 {
        assert(ns.drop_last() =~= Seq::<Node<i32>>::empty());
        assert(ns.drop_first() =~= Seq::<Node<i32>>::empty());
        assert(ns.last() == ns[0]);
        assert(forest_paths(ns, p) =~~= forest_paths(ns.drop_last(), p) + node_paths(
            ns.last(),
            p,
        ));
    } else {
        let t = ns.drop_first();
        lemma_forest_paths_snoc(t, p);
        assert(t.last() == ns.last());
        assert(t.drop_last() =~= ns.drop_last().drop_first());
        let dl = ns.drop_last();
        assert(dl.len() > 0);
        assert(dl[0] == ns[0]);
        assert(dl.drop_first() =~= t.drop_last());
        assert(forest_paths(dl, p) == node_paths(dl[0], p) + forest_paths(t.drop_last(), p));
        assert(forest_paths(ns, p) == node_paths(ns[0], p) + (forest_paths(t.drop_last(), p)
            + node_paths(ns.last(), p)));
        assert(node_paths(ns[0], p) + (forest_paths(t.drop_last(), p) + node_paths(
            ns.last(),
            p,
        )) =~~= (node_paths(ns[0], p) + forest_paths(t.drop_last(), p)) + node_paths(
            ns.last(),
            p,
        ));
    }
}

/// The greedy walk shared with `supersets`: extend `macc` by the matched
/// values and return the sibling list where the walk ends.
fn walk_to_final<'a>(
    forest: &'a Vec<Node<i32>>,
    q: &Vec<i32>,
    i: usize,
    macc: &mut Vec<i32>,
) -> (r: &'a Vec<Node<i32>>)
    requires
        forest_wf(forest@),
        i <= q@.len(),
    ensures
        final(macc)@ == old(macc)@ + walk_matched(forest@, q@.skip(i as int)),
        r@ == walk_final(forest@, q@.skip(i as int)),
        forest_wf(r@),
    decreases q@.len() - i,
{
    if i == q.len() {
        proof {
            assert(q@.skip(i as int) =~= Seq::<i32>::empty());
            assert(macc@ + walk_matched(forest@, q@.skip(i as int)) =~= macc@);
        }
        return forest;
    }
    let ghost sub = q@.skip(i as int);
    proof {
        assert(sub[0] == q@[i as int]);
        assert(sub.drop_first() =~= q@.skip(i as int + 1));
    }
    let (found, idx) = find_sib(forest, q[i]);
    if found {
        proof {
            lemma_sib_unique(forest@, q@[i as int]);
            assert(forest@[idx as int] == sib_at(forest@, sub[0]));
            assert(node_wf(forest@[idx as int]));
            assert(forest_wf(forest@[idx as int].children@));
        }
        let node = &forest[idx];
        let ghost m0 = macc@;
        macc.push(q[i]);
        let r = walk_to_final(&node.children, q, i + 1, macc);
        proof {
            let deeper = walk_matched(forest@[idx as int].children@, sub.drop_first());
            assert(macc@ == m0.push(sub[0]) + deeper);
            assert(m0.push(sub[0]) + deeper =~= m0 + (seq![sub[0]] + deeper));
        }
        r
    } else {
        walk_to_final(forest, q, i + 1, macc)
    }
}

/// Depth-first collection for `supersets`: append to `out` every stored set
/// in `forest`, written as `prefix` plus the path down to its terminal node.
fn collect_forest(forest: &Vec<Node<i32>>, prefix: &Vec<i32>, out: &mut Vec<Vec<i32>>)
    ensures
        final(out).deep_view() == old(out).deep_view() + forest_paths(forest@, prefix@),
    decreases forest@,
{
    let ghost base = out.deep_view();
    proof {
        assert(forest@.subrange(0, 0) =~= Seq::<Node<i32>>::empty());
        assert(base + forest_paths(forest@.subrange(0, 0), prefix@) =~= base);
    }
    let mut i: usize = 0;
    while i < forest.len()
        invariant
            i <= forest@.len(),
            out.deep_view() == base + forest_paths(forest@.subrange(0, i as int), prefix@),
        decreases forest@.len() - i,
    {
        let node = &forest[i];
        let mut p2 = copy_vals(prefix);
        p2.push(node.element);
        proof {
            assert(p2@ =~= prefix@.push(forest@[i as int].element));
        }
        let ghost out0 = out.deep_view();
        if node.end_of_path {
            let entry = copy_vals(&p2);
            out.push(entry);
            proof {
                assert(entry.deep_view() =~= p2@);
                assert(out.deep_view() =~~= out0 + seq![p2@]);
            }
        }
        let ghost out1 = out.deep_view();
        collect_forest(&node.children, &p2, out);
        proof {
            let np = node_paths(forest@[i as int], prefix@);
            assert(out.deep_view() == out1 + forest_paths(forest@[i as int].children@, p2@));
            if forest@[i as int].end_of_path {
                assert(np == seq![p2@] + forest_paths(forest@[i as int].children@, p2@));
                assert(out.deep_view() =~~= out0 + np);
            } else {
                assert(np =~~= forest_paths(forest@[i as int].children@, p2@));
                assert(out.deep_view() =~~= out0 + np);
            }
            let snoc = forest@.subrange(0, i as int + 1);
            assert(snoc.len() > 0);
            assert(snoc.drop_last() =~= forest@.subrange(0, i as int));
            assert(snoc.last() == forest@[i as int]);
            lemma_forest_paths_snoc(snoc, prefix@);
            assert(out0 == base + forest_paths(forest@.subrange(0, i as int), prefix@));
            assert((base + forest_paths(forest@.subrange(0, i as int), prefix@)) + np
                =~~= base + (forest_paths(forest@.subrange(0, i as int), prefix@) + np));
            assert(out.deep_view() == base + forest_paths(snoc, prefix@));
        }
        i = i + 1;
    }
    proof {
        assert(forest@.subrange(0, forest@.len() as int) =~= forest@);
    }
}

/// Copy a value list (the accumulated path) into a fresh vector.
fn copy_vals(v: &Vec<i32>) -> (r: Vec<i32>)
    ensures
        r@ == v@,
{
    let mut r: Vec<i32> = Vec::new();
    let mut i: usize = 0;
    while i < v.len()
        invariant
            i <= v@.len(),
            r@ == v@.subrange(0, i as int),
        decreases v@.len() - i,
    {
        r.push(v[i]);
        proof {
            assert(v@.subrange(0, i as int).push(v@[i as int]) =~= v@.subrange(0, i as int + 1));
        }
        i = i + 1;
    }
    proof {
        assert(v@.subrange(0, v@.len() as int) =~= v@);
    }
    r
}

/// The greedy walk, reporting only whether a matched node was terminal.
fn exists_walk(forest: &Vec<Node<i32>>, q: &Vec<i32>, i: usize) -> (r: bool)
    requires
        forest_wf(forest@),
        i <= q@.len(),
    ensures
        r == walk_exists(forest@, q@.skip(i as int)),
    decreases q@.len() - i,
{
    if i == q.len() {
        proof {
            assert(q@.skip(i as int) =~= Seq::<i32>::empty());
        }
        return false;
    }
    let ghost sub = q@.skip(i as int);
    proof {
        assert(sub[0] == q@[i as int]);
        assert(sub.drop_first() =~= q@.skip(i as int + 1));
    }
    let (found, idx) = find_sib(forest, q[i]);
    if found {
        proof {
            lemma_sib_unique(forest@, q@[i as int]);
            assert(forest@[idx as int] == sib_at(forest@, sub[0]));
            assert(node_wf(forest@[idx as int]));
        }
        let node = &forest[idx];
        if node.end_of_path {
            true
        } else {
            proof {
                assert(forest_wf(node.children@));
            }
            exists_walk(&node.children, q, i + 1)
        }
    } else {
        exists_walk(forest, q, i + 1)
    }
}

/// The greedy walk for `subsets`: `path` holds the values matched so far;
/// every terminal match appends the full matched path to `out`.
fn subsets_walk(
    forest: &Vec<Node<i32>>,
    q: &Vec<i32>,
    i: usize,
    path: Vec<i32>,
    out: &mut Vec<Vec<i32>>,
)
    requires
        forest_wf(forest@),
        i <= q@.len(),
    ensures
        final(out).deep_view() == old(out).deep_view() + walk_hits(
            forest@,
            q@.skip(i as int),
        ).map_values(|h: Seq<i32>| path@ + h),
    decreases q@.len() - i,
{
    if i == q.len() {
        proof {
            assert(q@.skip(i as int) =~= Seq::<i32>::empty());
            assert(out.deep_view() + walk_hits(forest@, q@.skip(i as int)).map_values(
                |h: Seq<i32>| path@ + h,
            ) =~= out.deep_view());
        }
        return ;
    }
    let ghost sub = q@.skip(i as int);
    proof {
        assert(sub[0] == q@[i as int]);
        assert(sub.drop_first() =~= q@.skip(i as int + 1));
    }
    let (found, idx) = find_sib(forest, q[i]);
    if found {
        proof {
            lemma_sib_unique(forest@, q@[i as int]);
            assert(forest@[idx as int] == sib_at(forest@, sub[0]));
            assert(node_wf(forest@[idx as int]));
            assert(forest_wf(forest@[idx as int].children@));
        }
        let node = &forest[idx];
        let mut path2 = path;
        path2.push(q[i]);
        proof {
            assert(path2@ =~= path@ + seq![sub[0]]);
        }
        let ghost out0 = out.deep_view();
        if node.end_of_path {
            let entry = copy_vals(&path2);
            out.push(entry);
            proof {
                assert(entry.deep_view() =~= path2@);
                assert(out.deep_view() =~~= out0 + seq![path2@]);
            }
        }
        let ghost out1 = out.deep_view();
        subsets_walk(&node.children, q, i + 1, path2, out);
        proof {
            let deeper = walk_hits(forest@[idx as int].children@, sub.drop_first());
            let inner = deeper.map_values(|h: Seq<i32>| path2@ + h);
            assert(out.deep_view() == out1 + inner);
            let outer = deeper.map_values(|h: Seq<i32>| seq![sub[0]] + h).map_values(
                |h: Seq<i32>| path@ + h,
            );
            assert(inner =~~= outer) by {
                assert forall|k: int| 0 <= k < deeper.len() implies inner[k] == outer[k] by {
                    assert(path2@ + deeper[k] =~= path@ + (seq![sub[0]] + deeper[k]));
                }
            }
            let hits = walk_hits(forest@, sub);
            if node.end_of_path {
                assert(hits =~= seq![seq![sub[0]]] + deeper.map_values(
                    |h: Seq<i32>| seq![sub[0]] + h,
                ));
                assert(hits.map_values(|h: Seq<i32>| path@ + h) =~~= seq![path2@] + outer) by {
                    assert(path@ + seq![sub[0]] =~= path2@);
                }
                assert(out.deep_view() =~= out0 + seq![path2@] + outer);
                assert(out.deep_view() =~~= out0 + hits.map_values(|h: Seq<i32>| path@ + h));
            } else {
                assert(hits == deeper.map_values(|h: Seq<i32>| seq![sub[0]] + h));
                assert(out.deep_view() =~~= out0 + hits.map_values(|h: Seq<i32>| path@ + h));
            }
            assert(out.deep_view() == old(out).deep_view() + hits.map_values(
                |h: Seq<i32>| path@ + h,
            ));
        }
    } else {
        subsets_walk(forest, q, i + 1, path, out);
    }
}

/// Binary search of a sorted sibling list for the node carrying `x`.
/// Returns whether it is present, and its index (if present) or the index
/// where a node carrying `x` belongs (if absent).
fn find_sib(ns: &Vec<Node<i32>>, x: i32) -> (r: (bool, usize))
    requires
        siblings_sorted(ns@),
    ensures
        r.0 == has_sib(ns@, x),
        r.0 ==> r.1 < ns@.len() && ns@[r.1 as int].element == x,
        !r.0 ==> r.1 <= ns@.len() && (forall|j: int| 0 <= j < r.1 ==> ns@[j].element < x) && (
        forall|j: int| r.1 <= j < ns@.len() ==> ns@[j].element > x),
{
    let mut lo: usize = 0;
    let mut hi: usize = ns.len();
    while lo < hi
        invariant
            lo <= hi <= ns@.len(),
            siblings_sorted(ns@),
            forall|j: int| 0 <= j < lo ==> ns@[j].element < x,
            forall|j: int| hi <= j < ns@.len() ==> ns@[j].element > x,
        decreases hi - lo,
    {
        let mid: usize = lo + (hi - lo) / 2;
        let e = ns[mid].element;
        if e == x {
            proof {
                assert(has_sib(ns@, x)) by {
                    assert(ns@[mid as int].element == x);
                }
            }
            return (true, mid);
        } else if e < x {
            proof {
                assert forall|j: int| 0 <= j < mid + 1 implies ns@[j].element < x by {
                    if j < mid {
                        assert(ns@[j].element < ns@[mid as int].element);
                    }
                }
            }
            lo = mid + 1;
        } else {
            hi = mid;
        }
    }
    proof {
        if has_sib(ns@, x) {
            let j = choose|j: int| 0 <= j < ns@.len() && (#[trigger] ns@[j]).element == x;
            if j < lo {
                assert(ns@[j].element < x);
            } else {
                assert(ns@[j].element > x);
            }
            assert(false);
        }
    }
    (false, lo)
}

/// Binary search of a strictly increasing value list, with the same contract
/// shape as `find_sib`.
fn find_pos(v: &Vec<i32>, x: i32) -> (r: (bool, usize))
    requires
        strictly_increasing(v@),
    ensures
        r.0 == v@.contains(x),
        r.0 ==> r.1 < v@.len() && v@[r.1 as int] == x,
        !r.0 ==> r.1 <= v@.len() && (forall|j: int| 0 <= j < r.1 ==> v@[j] < x) && (forall|
            j: int,
        |
            r.1 <= j < v@.len() ==> v@[j] > x),
{
    let mut lo: usize = 0;
    let mut hi: usize = v.len();
    while lo < hi
        invariant
            lo <= hi <= v@.len(),
            strictly_increasing(v@),
            forall|j: int| 0 <= j < lo ==> v@[j] < x,
            forall|j: int| hi <= j < v@.len() ==> v@[j] > x,
        decreases hi - lo,
    {
        let mid: usize = lo + (hi - lo) / 2;
        let e = v[mid];
        if e == x {
            proof {
                assert(v@.contains(x)) by {
                    assert(v@[mid as int] == x);
                }
            }
            return (true, mid);
        } else if e < x {
            proof {
                assert forall|j: int| 0 <= j < mid + 1 implies v@[j] < x by {
                    if j < mid {
                        assert(v@[j] < v@[mid as int]);
                    }
                }
            }
            lo = mid + 1;
        } else {
            hi = mid;
        }
    }
    proof {
        if v@.contains(x) {
            let j = choose|j: int| 0 <= j < v@.len() && v@[j] == x;
            if j < lo {
                assert(v@[j] < x);
            } else {
                assert(v@[j] > x);
            }
            assert(false);
        }
    }
    (false, lo)
}

/// Canonicalize an input sequence: sort ascending and drop repeated values.
fn sort_dedup(input: &[i32]) -> (r: Vec<i32>)
    ensures
        r@ == canon(input@),
        strictly_increasing(r@),
{
    let mut r: Vec<i32> = Vec::new();
    let n = input.len();
    let mut i: usize = n;
    proof {
        assert(input@.skip(n as int) =~= Seq::<i32>::empty());
    }
    while i > 0
        invariant
            i <= input@.len(),
            strictly_increasing(r@),
            r@ == canon(input@.skip(i as int)),
        decreases i,
    {
        i = i - 1;
        let x = *vstd::slice::slice_index_get(input, i);
        let ghost pre = r@;
        let (found, k) = find_pos(&r, x);
        if !found {
            r.insert(k, x);
        }
        proof {
            if found {
                lemma_sorted_insert_present(pre, x);
            } else {
                lemma_sorted_insert_shape(pre, x, k as int);
            }
            lemma_sorted_insert_increasing(pre, x);
            assert(r@ == sorted_insert(pre, x));
            let si = input@.skip(i as int);
            assert(si.drop_first() =~= input@.skip(i as int + 1));
            assert(si[0] == input@[i as int]);
            assert(canon(si) == sorted_insert(canon(si.drop_first()), si[0]));
            assert(r@ == canon(si));
        }
    }
    proof {
        assert(input@.skip(0) =~= input@);
    }
    r
}

/// Does the forest store exactly the (sorted) suffix `q[i..]`?
fn contains_path(forest: &Vec<Node<i32>>, q: &Vec<i32>, i: usize) -> (r: bool)
    requires
        forest_wf(forest@),
        i < q@.len(),
    ensures
        r == forest_contains(forest@, q@.skip(i as int)),
    decreases q@.len() - i,
{
    let ghost sub = q@.skip(i as int);
    proof {
        assert(sub[0] == q@[i as int]);
        lemma_contains_at_sib(forest@, sub);
    }
    let (found, idx) = find_sib(forest, q[i]);
    if !found {
        false
    } else {
        proof {
            lemma_sib_unique(forest@, q@[i as int]);
            assert(forest@[idx as int] == sib_at(forest@, sub[0]));
            assert(node_wf(forest@[idx as int]));
        }
        let node = &forest[idx];
        if i == q.len() - 1 {
            node.end_of_path
        } else {
            proof {
                assert(sub.drop_first() =~= q@.skip(i as int + 1));
                assert(forest_wf(node.children@));
            }
            contains_path(&node.children, q, i + 1)
        }
    }
}

/// Rebuild `forest` so that the path `q[i..]` exists and ends terminal,
/// leaving every other stored sequence unchanged.
fn insert_forest(forest: Vec<Node<i32>>, q: &Vec<i32>, i: usize) -> (r: Vec<Node<i32>>)
    requires
        forest_wf(forest@),
        strictly_increasing(q@),
        i < q@.len(),
    ensures
        forest_wf(r@),
        forall|e: i32| has_sib(r@, e) <==> has_sib(forest@, e) || e == q@[i as int],
        forall|s: Seq<i32>|
            forest_contains(r@, s) <==> forest_contains(forest@, s) || s == q@.skip(i as int),
    decreases q@.len() - i,
{
    let ghost pre = forest@;
    let ghost sub = q@.skip(i as int);
    proof {
        assert(sub[0] == q@[i as int]);
        assert(sub.len() == q@.len() - i);
    }
    let mut forest = forest;
    let x = q[i];
    let (found, idx) = find_sib(&forest, x);
    let mut node: Node<i32>;
    if found {
        proof {
            lemma_sib_unique(pre, x);
            assert(pre[idx as int] == sib_at(pre, x));
            assert(node_wf(pre[idx as int]));
        }
        node = forest.remove(idx);
    } else {
        node = Node::new(x);
    }
    let ghost node0 = node;
    proof {
        assert(node0.element == x);
        assert(found ==> node_wf(node0));
        assert(!found ==> node0.children@.len() == 0 && !node0.end_of_path);
    }
    if i == q.len() - 1 {
        node.end_of_path = true;
    } else {
        proof {
            if found {
                assert(forest_wf(node0.children@));
            }
            lemma_drop_first_increasing(q@.skip(i as int));
        }
        let Node { element, children, end_of_path } = node;
        let new_children = insert_forest(children, q, i + 1);
        node = Node { element, children: new_children, end_of_path };
    }
    let ghost node1 = node;
    proof {
        // The rebuilt node is well formed and carries exactly the old
        // sequences plus the new suffix.
        assert(node1.element == x);
        assert(node_wf(node1)) by {
            if i + 1 == q@.len() {
                assert(node1.children@ == node0.children@);
            } else {
                assert(forest_wf(node1.children@));
                assert(has_sib(node1.children@, q@[i as int + 1]));
                assert(node1.children@.len() > 0) by {
                    let j = choose|j: int|
                        0 <= j < node1.children@.len() && (#[trigger] node1.children@[j]).element
                            == q@[i as int + 1];
                }
                assert forall|j: int| 0 <= j < node1.children@.len() implies (
                #[trigger] node1.children@[j]).element > x by {
                    let e = node1.children@[j].element;
                    assert(has_sib(node1.children@, e));
                    assert(has_sib(node0.children@, e) || e == q@[i as int + 1]);
                    if has_sib(node0.children@, e) {
                        let m = choose|m: int|
                            0 <= m < node0.children@.len() && (
                            #[trigger] node0.children@[m]).element == e;
                        if found {
                            assert(node0.children@[m].element > node0.element);
                        } else {
                            assert(false);
                        }
                    } else {
                        assert(q@[i as int] < q@[i as int + 1]);
                    }
                }
            }
        }
        // How carrying changed at this node.
        assert forall|s: Seq<i32>| s.len() > 0 && s[0] == x implies (node_carries(node1, s) <==> (
        node_carries(node0, s) || s == sub)) by {
            if i + 1 == q@.len() {
                if s.len() <= 1 {
                    assert(s =~= sub);
                    assert(node_carries(node1, s));
                } else {
                    assert(node_carries(node1, s) == forest_contains(
                        node1.children@,
                        s.drop_first(),
                    ));
                    assert(node1.children@ == node0.children@);
                    assert(s.len() != sub.len());
                    assert(s != sub);
                }
            } else {
                if s.len() <= 1 {
                    assert(node1.end_of_path == node0.end_of_path);
                    assert(s.len() != sub.len());
                    assert(s != sub);
                } else {
                    assert(node_carries(node1, s) == forest_contains(
                        node1.children@,
                        s.drop_first(),
                    ));
                    assert(forest_contains(node1.children@, s.drop_first())
                        <==> forest_contains(node0.children@, s.drop_first()) || s.drop_first()
                        == q@.skip(i as int + 1));
                    assert(sub.drop_first() =~= q@.skip(i as int + 1));
                    if s.drop_first() == q@.skip(i as int + 1) {
                        assert(s =~= sub) by {
                            assert(s[0] == sub[0]);
                            assert(forall|m: int|
                                1 <= m < s.len() ==> s[m] == s.drop_first()[m - 1]);
                            assert(forall|m: int|
                                1 <= m < sub.len() ==> sub[m] == sub.drop_first()[m - 1]);
                        }
                    }
                    if s == sub {
                        assert(s.drop_first() == sub.drop_first());
                    }
                    if !found {
                        assert(!forest_contains(node0.children@, s.drop_first())) by {
                            assert(node0.children@.len() == 0);
                        }
                        assert(!node_carries(node0, s));
                    }
                }
            }
        }
        if !found {
            assert forall|s: Seq<i32>| s.len() > 0 && s[0] == x implies !node_carries(
                node0,
                s,
            ) by {
                if s.len() > 1 {
                    assert(node0.children@.len() == 0);
                }
            }
        }
    }
    forest.insert(idx, node);
    proof {
        if found {
            assert(forest@ =~= pre.update(idx as int, node1)) by {
                assert(forest@ =~= pre.remove(idx as int).insert(idx as int, node1));
            }
            assert forall|e: i32| has_sib(forest@, e) <==> has_sib(pre, e) || e == q@[i as int] by {
                if has_sib(forest@, e) {
                    let j = choose|j: int|
                        0 <= j < forest@.len() && (#[trigger] forest@[j]).element == e;
                    assert(pre[j].element == e);
                    assert(has_sib(pre, e));
                }
                if has_sib(pre, e) {
                    let j = choose|j: int| 0 <= j < pre.len() && (#[trigger] pre[j]).element == e;
                    assert(forest@[j].element == e);
                    assert(has_sib(forest@, e));
                }
                if e == q@[i as int] {
                    assert(pre[idx as int].element == e);
                    assert(has_sib(pre, e));
                }
            }
            assert forall|s: Seq<i32>|
                forest_contains(forest@, s) <==> forest_contains(pre, s) || s == sub by {
                lemma_contains_update(pre, idx as int, node1, s);
                if s.len() > 0 && s[0] == x {
                    assert(forest_contains(forest@, s) <==> node_carries(node1, s));
                    assert(forest_contains(pre, s) <==> node_carries(node0, s));
                } else {
                    assert(s != sub) by {
                        if s.len() > 0 {
                            assert(sub[0] == x);
                        }
                    }
                }
            }
            assert(siblings_sorted(forest@)) by {
                lemma_contains_update(pre, idx as int, node1, Seq::empty());
            }
            assert forall|j: int| 0 <= j < forest@.len() implies node_wf(
                #[trigger] forest@[j],
            ) by {
                if j != idx {
                    assert(forest@[j] == pre[j]);
                }
            }
        } else {
            assert(forest@ =~= pre.insert(idx as int, node1));
            assert forall|e: i32| has_sib(forest@, e) <==> has_sib(pre, e) || e == q@[i as int] by {
                lemma_has_sib_insert(pre, idx as int, node1, e);
            }
            assert forall|s: Seq<i32>|
                forest_contains(forest@, s) <==> forest_contains(pre, s) || s == sub by {
                lemma_contains_insert(pre, idx as int, node1, s);
                if s.len() > 0 && s[0] == x {
                    assert(forest_contains(forest@, s) <==> node_carries(node1, s));
                    assert(!forest_contains(pre, s));
                    assert(node_carries(node1, s) <==> (node_carries(node0, s) || s == sub));
                    assert(!node_carries(node0, s));
                } else {
                    assert(s != sub) by {
                        if s.len() > 0 {
                            assert(sub[0] == x);
                        }
                    }
                }
            }
            assert(siblings_sorted(forest@)) by {
                lemma_contains_insert(pre, idx as int, node1, Seq::empty());
            }
            pre.insert_ensures(idx as int, node1);
            assert forall|j: int| 0 <= j < forest@.len() implies node_wf(
                #[trigger] forest@[j],
            ) by {
                if j < idx {
                    assert(forest@[j] == pre[j]);
                } else if j > idx {
                    assert(forest@[j] == pre[j - 1]);
                }
            }
        }
    }
    forest
}

} // verus!
