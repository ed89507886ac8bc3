//! Relations between the query operations, stated and proved once and for
//! all: what the walk finds of the stored sets, how the three queries agree
//! with one another, and how results depend only on the members of an input.

use vstd::prelude::*;

use crate::model::canon;
use crate::model::forest_contains;
use crate::model::forest_paths;
use crate::model::forest_wf;
use crate::model::has_sib;
use crate::model::lemma_canon_contains;
use crate::model::lemma_canon_increasing;
use crate::model::lemma_canon_same_members;
use crate::model::lemma_contains_at_sib;
use crate::model::lemma_drop_first_increasing;
use crate::model::lemma_sib_unique;
use crate::model::node_carries;
use crate::model::node_paths;
use crate::model::node_wf;
use crate::model::sib_at;
use crate::model::strictly_increasing;
use crate::model::walk_exists;
use crate::model::walk_final;
use crate::model::walk_hits;
use crate::model::walk_matched;
use crate::node::Node;
use crate::tree::UBTree;

verus! {

/// `s` strictly extends `prefix`: it is longer and starts with it.
pub open spec fn path_extends(s: Seq<i32>, prefix: Seq<i32>) -> bool {
    s.len() > prefix.len() && s.subrange(0, prefix.len() as int) == prefix
}

proof fn lemma_contains_cons(ns: Seq<Node<i32>>, t: Seq<i32>)
    requires
        ns.len() > 0,
    ensures
        forest_contains(ns, t) <==> (t.len() > 0 && ((ns[0].element == t[0] && node_carries(
            ns[0],
            t,
        )) || forest_contains(ns.drop_first(), t))),
{
    if forest_contains(ns, t) {
        let j = choose|j: int|
            0 <= j < ns.len() && (#[trigger] ns[j]).element == t[0] && node_carries(ns[j], t);
        if j > 0 {
            assert(ns.drop_first()[j - 1] == ns[j]);
            assert(forest_contains(ns.drop_first(), t));
        }
    }
    if t.len() > 0 {
        if ns[0].element == t[0] && node_carries(ns[0], t) {
            assert(forest_contains(ns, t));
        }
        if forest_contains(ns.drop_first(), t) {
            let j = choose|j: int|
                0 <= j < ns.drop_first().len() && (#[trigger] ns.drop_first()[j]).element == t[0]
                    && node_carries(ns.drop_first()[j], t);
            assert(ns[j + 1] == ns.drop_first()[j]);
            assert(forest_contains(ns, t));
        }
    }
}

proof fn lemma_node_paths_elems(n: Node<i32>, prefix: Seq<i32>, s: Seq<i32>)
    ensures
        node_paths(n, prefix).contains(s) <==> (path_extends(s, prefix) && s[prefix.len() as int]
            == n.element && node_carries(n, s.skip(prefix.len() as int))),
    decreases n,
{
    let pl = prefix.len() as int;
    let p2 = prefix.push(n.element);
    let head: Seq<Seq<i32>> = if n.end_of_path {
        seq![p2]
    } else {
        Seq::empty()
    };
    let rest = forest_paths(n.children@, p2);
    assert(node_paths(n, prefix) == head + rest);
    lemma_forest_paths_elems(n.children@, p2, s);
    if node_paths(n, prefix).contains(s) {
        let k = choose|k: int|
            0 <= k < node_paths(n, prefix).len() && node_paths(n, prefix)[k] == s;
        if k < head.len() {
            assert(s == p2);
            assert(n.end_of_path);
            assert(s.subrange(0, pl) =~= prefix);
            assert(s.skip(pl) =~= seq![n.element]);
        } else {
            assert(rest[k - head.len()] == s);
            assert(rest.contains(s));
            assert(path_extends(s, p2));
            assert(s.subrange(0, pl + 1) == p2);
            assert(s.subrange(0, pl) =~= prefix) by {
                assert(forall|m: int|
                    0 <= m < pl ==> s.subrange(0, pl)[m] == s.subrange(0, pl + 1)[m]);
            }
            assert(s[pl] == p2[pl]);
            let t = s.skip(pl);
            assert(t.len() > 1);
            assert(t.drop_first() =~= s.skip(pl + 1));
            assert(node_carries(n, t));
        }
    }
    if path_extends(s, prefix) && s[pl] == n.element && node_carries(n, s.skip(pl)) {
        let t = s.skip(pl);
        assert(t[0] == s[pl]);
        if t.len() == 1 {
            assert(n.end_of_path);
            assert(s =~= p2) by {
                assert(s.len() == pl + 1);
                assert(forall|m: int| 0 <= m < pl ==> s[m] == s.subrange(0, pl)[m]);
            }
            assert(head[0] == s);
            assert((head + rest)[0] == s);
            assert(node_paths(n, prefix).contains(s));
        } else {
            assert(forest_contains(n.children@, t.drop_first()));
            assert(t.drop_first() =~= s.skip(pl + 1));
            assert(s.subrange(0, pl + 1) =~= p2) by {
                assert(forall|m: int| 0 <= m < pl ==> s.subrange(0, pl)[m] == s[m]);
            }
            assert(path_extends(s, p2));
            assert(rest.contains(s));
            let k = choose|k: int| 0 <= k < rest.len() && rest[k] == s;
            assert((head + rest)[head.len() + k] == s);
            assert(node_paths(n, prefix).contains(s));
        }
    }
}

proof fn lemma_forest_paths_elems(ns: Seq<Node<i32>>, prefix: Seq<i32>, s: Seq<i32>)
    ensures
        forest_paths(ns, prefix).contains(s) <==> (path_extends(s, prefix) && forest_contains(
            ns,
            s.skip(prefix.len() as int),
        )),
    decreases ns,
{
    let pl = prefix.len() as int;
    if ns.len() == 0 {
        if forest_paths(ns, prefix).contains(s) {
            let k = choose|k: int|
                0 <= k < forest_paths(ns, prefix).len() && forest_paths(ns, prefix)[k] == s;
        }
    } else {
        let a = node_paths(ns[0], prefix);
        let b = forest_paths(ns.drop_first(), prefix);
        assert(forest_paths(ns, prefix) == a + b);
        lemma_node_paths_elems(ns[0], prefix, s);
        lemma_forest_paths_elems(ns.drop_first(), prefix, s);
        lemma_contains_cons(ns, s.skip(pl));
        if forest_paths(ns, prefix).contains(s) {
            let k = choose|k: int|
                0 <= k < forest_paths(ns, prefix).len() && forest_paths(ns, prefix)[k] == s;
            if k < a.len() {
                assert(a[k] == s);
                assert(a.contains(s));
                assert(s.skip(pl)[0] == s[pl]);
            } else {
                assert(b[k - a.len()] == s);
                assert(b.contains(s));
            }
        }
        if path_extends(s, prefix) && forest_contains(ns, s.skip(pl)) {
            let t = s.skip(pl);
            assert(t[0] == s[pl]);
            if ns[0].element == t[0] && node_carries(ns[0], t) {
                assert(a.contains(s));
                let k = choose|k: int| 0 <= k < a.len() && a[k] == s;
                assert((a + b)[k] == s);
                assert(forest_paths(ns, prefix).contains(s));
            } else {
                assert(forest_contains(ns.drop_first(), t));
                assert(b.contains(s));
                let k = choose|k: int| 0 <= k < b.len() && b[k] == s;
                assert((a + b)[a.len() + k] == s);
                assert(forest_paths(ns, prefix).contains(s));
            }
        }
    }
}

proof fn lemma_node_paths_nodup(n: Node<i32>, prefix: Seq<i32>)
    requires
        node_wf(n),
    ensures
        node_paths(n, prefix).no_duplicates(),
    decreases n,
{
    let pl = prefix.len() as int;
    let p2 = prefix.push(n.element);
    let head: Seq<Seq<i32>> = if n.end_of_path {
        seq![p2]
    } else {
        Seq::empty()
    };
    let rest = forest_paths(n.children@, p2);
    assert(node_paths(n, prefix) == head + rest);
    assert(forest_wf(n.children@));
    lemma_forest_paths_nodup(n.children@, p2);
    assert forall|i: int, j: int|
        0 <= i < node_paths(n, prefix).len() && 0 <= j < node_paths(n, prefix).len() && i
            != j implies node_paths(n, prefix)[i] != node_paths(n, prefix)[j] by {
        let whole = head + rest;
        if i < head.len() && j < head.len() {
            assert(false);
        } else if i < head.len() {
            assert(whole[i] == p2);
            assert(whole[j] == rest[j - head.len()]);
            assert(rest.contains(rest[j - head.len()]));
            lemma_forest_paths_elems(n.children@, p2, rest[j - head.len()]);
            assert(whole[j].len() > p2.len());
        } else if j < head.len() {
            assert(whole[j] == p2);
            assert(whole[i] == rest[i - head.len()]);
            assert(rest.contains(rest[i - head.len()]));
            lemma_forest_paths_elems(n.children@, p2, rest[i - head.len()]);
            assert(whole[i].len() > p2.len());
        } else {
            assert(whole[i] == rest[i - head.len()]);
            assert(whole[j] == rest[j - head.len()]);
        }
    }
}

proof fn lemma_forest_paths_nodup(ns: Seq<Node<i32>>, prefix: Seq<i32>)
    requires
        forest_wf(ns),
    ensures
        forest_paths(ns, prefix).no_duplicates(),
    decreases ns,
{
    let pl = prefix.len() as int;
    if ns.len() == 0 {
    } else {
        let a = node_paths(ns[0], prefix);
        let b = forest_paths(ns.drop_first(), prefix);
        assert(forest_paths(ns, prefix) == a + b);
        assert(node_wf(ns[0]));
        lemma_node_paths_nodup(ns[0], prefix);
        assert(forest_wf(ns.drop_first())) by {
            assert(forall|j: int|
                0 <= j < ns.drop_first().len() ==> ns.drop_first()[j] == ns[j + 1]);
        }
        lemma_forest_paths_nodup(ns.drop_first(), prefix);
        assert forall|i: int, j: int|
            0 <= i < forest_paths(ns, prefix).len() && 0 <= j < forest_paths(ns, prefix).len()
                && i != j implies forest_paths(ns, prefix)[i] != forest_paths(ns, prefix)[j] by {
            let whole = a + b;
            if i < a.len() && j >= a.len() {
                lemma_cross_parts_differ(ns, prefix, i, j - a.len());
            } else if j < a.len() && i >= a.len() {
                lemma_cross_parts_differ(ns, prefix, j, i - a.len());
            }
        }
    }
}

/// An entry from the first sibling's subtree differs from any entry from the
/// remaining siblings: they disagree at the position after the prefix.
proof fn lemma_cross_parts_differ(ns: Seq<Node<i32>>, prefix: Seq<i32>, i: int, j: int)
    requires
        forest_wf(ns),
        ns.len() > 0,
        0 <= i < node_paths(ns[0], prefix).len(),
        0 <= j < forest_paths(ns.drop_first(), prefix).len(),
    ensures
        node_paths(ns[0], prefix)[i] != forest_paths(ns.drop_first(), prefix)[j],
{
    let pl = prefix.len() as int;
    let a = node_paths(ns[0], prefix);
    let b = forest_paths(ns.drop_first(), prefix);
    assert(a.contains(a[i]));
    assert(b.contains(b[j]));
    lemma_node_paths_elems(ns[0], prefix, a[i]);
    lemma_forest_paths_elems(ns.drop_first(), prefix, b[j]);
    assert(a[i][pl] == ns[0].element);
    let t = b[j].skip(pl);
    assert(forest_contains(ns.drop_first(), t));
    let k = choose|k: int|
        0 <= k < ns.drop_first().len() && (#[trigger] ns.drop_first()[k]).element == t[0]
            && node_carries(ns.drop_first()[k], t);
    assert(ns.drop_first()[k] == ns[k + 1]);
    assert(ns[0].element < ns[k + 1].element);
    assert(b[j][pl] == t[0]);
}

/// The walk meets a terminal node exactly when it meets at least one: the
/// bit `exists_set` reports is the non-emptiness of what `subsets` returns.
proof fn lemma_walk_exists_iff_hits(ns: Seq<Node<i32>>, q: Seq<i32>)
    ensures
        walk_exists(ns, q) <==> walk_hits(ns, q).len() > 0,
    decreases q.len(),
{
    if q.len() == 0 {
    } else if has_sib(ns, q[0]) {
        lemma_walk_exists_iff_hits(sib_at(ns, q[0]).children@, q.drop_first());
    } else {
        lemma_walk_exists_iff_hits(ns, q.drop_first());
    }
}

/// A stored set whose canonical form is walked exactly is found: the walk
/// matches each of its values in turn and ends on its terminal node.
proof fn lemma_contained_walk_hit(ns: Seq<Node<i32>>, c: Seq<i32>)
    requires
        forest_wf(ns),
        strictly_increasing(c),
        forest_contains(ns, c),
    ensures
        walk_exists(ns, c),
    decreases c.len(),
{
    lemma_contains_at_sib(ns, c);
    lemma_sib_unique(ns, c[0]);
    let n = sib_at(ns, c[0]);
    assert(node_wf(n));
    if c.len() == 1 {
        assert(n.end_of_path);
    } else {
        assert(forest_contains(n.children@, c.drop_first()));
        lemma_drop_first_increasing(c);
        assert(forest_wf(n.children@));
        lemma_contained_walk_hit(n.children@, c.drop_first());
    }
}

/// Everything the walk reports is a stored set drawn from the query: each
/// hit is contained in the trie and uses only query values.
proof fn lemma_walk_hits_sound(ns: Seq<Node<i32>>, q: Seq<i32>, k: int)
    requires
        forest_wf(ns),
        0 <= k < walk_hits(ns, q).len(),
    ensures
        forest_contains(ns, walk_hits(ns, q)[k]),
        forall|e: i32| walk_hits(ns, q)[k].contains(e) ==> q.contains(e),
    decreases q.len(),
{
    let entry = walk_hits(ns, q)[k];
    assert(q.len() > 0);
    if has_sib(ns, q[0]) {
        lemma_sib_unique(ns, q[0]);
        let n = sib_at(ns, q[0]);
        assert(node_wf(n));
        assert(forest_wf(n.children@));
        let deeper = walk_hits(n.children@, q.drop_first());
        let mapped = deeper.map_values(|h: Seq<i32>| seq![q[0]] + h);
        let own: int = if n.end_of_path {
            1
        } else {
            0
        };
        if n.end_of_path && k == 0 {
            assert(entry == seq![q[0]]);
            assert(entry[0] == q[0]);
            assert(node_carries(n, entry));
            assert(forest_contains(ns, entry)) by {
                lemma_contains_at_sib(ns, entry);
            }
            assert forall|e: i32| entry.contains(e) implies q.contains(e) by {
                let m = choose|m: int| 0 <= m < entry.len() && entry[m] == e;
                assert(e == q[0]);
                assert(q[0] == q[0]);
            }
        } else {
            let kk = k - own;
            assert(entry == mapped[kk]);
            lemma_walk_hits_sound(n.children@, q.drop_first(), kk);
            let h = deeper[kk];
            assert(entry == seq![q[0]] + h);
            assert(forest_contains(n.children@, h));
            assert(h.len() > 0);
            assert(entry.len() > 1);
            assert(entry[0] == q[0]);
            assert(entry.drop_first() =~= h);
            assert(node_carries(n, entry));
            assert(forest_contains(ns, entry)) by {
                lemma_contains_at_sib(ns, entry);
            }
            assert forall|e: i32| entry.contains(e) implies q.contains(e) by {
                let m = choose|m: int| 0 <= m < entry.len() && entry[m] == e;
                if m == 0 {
                    assert(q.contains(q[0]));
                } else {
                    assert(h[m - 1] == e);
                    assert(h.contains(e));
                    assert(q.drop_first().contains(e));
                    let w = choose|w: int|
                        0 <= w < q.drop_first().len() && q.drop_first()[w] == e;
                    assert(q[w + 1] == e);
                }
            }
        }
    } else {
        lemma_walk_hits_sound(ns, q.drop_first(), k);
        assert forall|e: i32| entry.contains(e) implies q.contains(e) by {
            assert(q.drop_first().contains(e));
            let w = choose|w: int| 0 <= w < q.drop_first().len() && q.drop_first()[w] == e;
            assert(q[w + 1] == e);
        }
    }
}

/// What lies below the walk's end is stored: the matched prefix followed by
/// any sequence stored in the final sibling list is itself stored.
proof fn lemma_walk_descends(ns: Seq<Node<i32>>, q: Seq<i32>, s: Seq<i32>)
    requires
        forest_wf(ns),
        forest_contains(walk_final(ns, q), s),
    ensures
        forest_contains(ns, walk_matched(ns, q) + s),
    decreases q.len(),
{
    if q.len() == 0 {
        assert(walk_matched(ns, q) + s =~= s);
    } else if has_sib(ns, q[0]) {
        lemma_sib_unique(ns, q[0]);
        let n = sib_at(ns, q[0]);
        assert(node_wf(n));
        assert(forest_wf(n.children@));
        lemma_walk_descends(n.children@, q.drop_first(), s);
        let inner = walk_matched(n.children@, q.drop_first()) + s;
        assert(forest_contains(n.children@, inner));
        assert(inner.len() > 0);
        let whole = walk_matched(ns, q) + s;
        assert(whole =~= seq![q[0]] + inner);
        assert(whole[0] == q[0]);
        assert(whole.len() > 1);
        assert(whole.drop_first() =~= inner);
        assert(node_carries(n, whole));
        lemma_contains_at_sib(ns, whole);
    } else {
        lemma_walk_descends(ns, q.drop_first(), s);
    }
}

/// A stored set equal to the whole canonical query is among the hits: the
/// walk matches each of its values in turn and meets its terminal node.
proof fn lemma_contained_in_hits(ns: Seq<Node<i32>>, c: Seq<i32>)
    requires
        forest_wf(ns),
        strictly_increasing(c),
        forest_contains(ns, c),
    ensures
        walk_hits(ns, c).contains(c),
    decreases c.len(),
{
    lemma_contains_at_sib(ns, c);
    lemma_sib_unique(ns, c[0]);
    let n = sib_at(ns, c[0]);
    assert(node_wf(n));
    let deeper = walk_hits(n.children@, c.drop_first()).map_values(|h: Seq<i32>| seq![c[0]] + h);
    if c.len() == 1 {
        assert(n.end_of_path);
        assert(walk_hits(ns, c)[0] == seq![c[0]]);
        assert(seq![c[0]] =~= c);
        assert(walk_hits(ns, c).contains(c));
    } else {
        assert(forest_contains(n.children@, c.drop_first()));
        lemma_drop_first_increasing(c);
        assert(forest_wf(n.children@));
        lemma_contained_in_hits(n.children@, c.drop_first());
        let d = c.drop_first();
        let hs = walk_hits(n.children@, d);
        let k = choose|k: int| 0 <= k < hs.len() && hs[k] == d;
        assert(deeper[k] == seq![c[0]] + d);
        assert(seq![c[0]] + d =~= c);
        let own: int = if n.end_of_path {
            1
        } else {
            0
        };
        assert(walk_hits(ns, c)[own + k] == c);
        assert(walk_hits(ns, c).contains(c));
    }
}

/// Exact-match completeness of `subsets`: a stored set equal to the whole
/// query (as a set) appears among the results.
pub proof fn lemma_subsets_complete_for_query(t: UBTree<i32>, q: Seq<i32>)
    requires
        t.wf(),
        q.len() > 0,
        t.contains_set(canon(q)),
    ensures
        t.spec_subsets(q).contains(canon(q)),
{
    lemma_canon_increasing(q);
    lemma_contained_in_hits(t.roots(), canon(q));
}

/// The walk ends on a well-formed sibling list.
proof fn lemma_walk_final_wf(ns: Seq<Node<i32>>, q: Seq<i32>)
    requires
        forest_wf(ns),
    ensures
        forest_wf(walk_final(ns, q)),
    decreases q.len(),
{
    if q.len() == 0 {
    } else if has_sib(ns, q[0]) {
        lemma_sib_unique(ns, q[0]);
        assert(node_wf(sib_at(ns, q[0])));
        assert(forest_wf(sib_at(ns, q[0]).children@));
        lemma_walk_final_wf(sib_at(ns, q[0]).children@, q.drop_first());
    } else {
        lemma_walk_final_wf(ns, q.drop_first());
    }
}

/// `supersets` reports each stored set at most once, whatever the query.
pub proof fn lemma_supersets_distinct(t: UBTree<i32>, q: Seq<i32>)
    requires
        t.wf(),
    ensures
        t.spec_supersets(q).no_duplicates(),
{
    let cq = canon(q);
    let m = walk_matched(t.roots(), cq);
    if cq.len() > 0 && m.len() == 0 {
    } else {
        lemma_walk_final_wf(t.roots(), cq);
        lemma_forest_paths_nodup(walk_final(t.roots(), cq), m);
    }
}

/// Every stored set is found: after `insert` has stored the canonical form
/// of a non-empty `set`, `exists_set(set)` reports true.
pub proof fn lemma_inserted_set_exists(t: UBTree<i32>, set: Seq<i32>)
    requires
        t.wf(),
        set.len() > 0,
        t.contains_set(canon(set)),
    ensures
        t.spec_exists(set),
{
    lemma_canon_increasing(set);
    lemma_contained_walk_hit(t.roots(), canon(set));
}

/// `exists_set` is true exactly when `subsets` returns something.
pub proof fn lemma_exists_iff_subsets(t: UBTree<i32>, q: Seq<i32>)
    ensures
        t.spec_exists(q) <==> t.spec_subsets(q).len() > 0,
{
    lemma_canon_increasing(q);
    lemma_walk_exists_iff_hits(t.roots(), canon(q));
}

/// The empty query: never found, no subsets, and `supersets` returns every
/// stored set exactly once.
pub proof fn lemma_empty_query(t: UBTree<i32>)
    requires
        t.wf(),
    ensures
        !t.spec_exists(Seq::empty()),
        t.spec_subsets(Seq::empty()) == Seq::<Seq<i32>>::empty(),
        forall|s: Seq<i32>| t.spec_supersets(Seq::empty()).contains(s) <==> t.contains_set(s),
        t.spec_supersets(Seq::empty()).no_duplicates(),
{
    let e: Seq<i32> = Seq::empty();
    lemma_canon_increasing(e);
    assert(canon(e).len() == 0);
    assert(canon(e) =~= e);
    assert(t.spec_subsets(e) =~~= Seq::<Seq<i32>>::empty());
    assert(walk_matched(t.roots(), e) =~= Seq::<i32>::empty());
    assert(t.spec_supersets(e) == forest_paths(t.roots(), Seq::empty()));
    assert forall|s: Seq<i32>| t.spec_supersets(e).contains(s) <==> t.contains_set(s) by {
        lemma_forest_paths_elems(t.roots(), Seq::empty(), s);
        assert(s.skip(0) =~= s);
        assert(s.subrange(0, 0) =~= Seq::<i32>::empty());
        if t.contains_set(s) {
            assert(s.len() > 0);
        }
    }
    lemma_forest_paths_nodup(t.roots(), Seq::empty());
}

/// Soundness half of the subset law: everything `subsets` returns is a
/// stored set all of whose elements are elements of the query.  (The
/// converse direction does not hold of this structure: the walk follows a
/// single path, and a stored subset that leaves that path is not reported.)
pub proof fn lemma_subsets_sound(t: UBTree<i32>, q: Seq<i32>, k: int)
    requires
        t.wf(),
        0 <= k < t.spec_subsets(q).len(),
    ensures
        t.contains_set(t.spec_subsets(q)[k]),
        forall|e: i32| t.spec_subsets(q)[k].contains(e) ==> q.contains(e),
{
    lemma_walk_hits_sound(t.roots(), canon(q), k);
    assert forall|e: i32| t.spec_subsets(q)[k].contains(e) implies q.contains(e) by {
        assert(canon(q).contains(e));
        lemma_canon_contains(q, e);
    }
}

/// Soundness half of the superset law, under the proviso that the walk
/// matched every element of the query: each result is then a stored set
/// containing all the query's elements.  (Without the proviso, and in the
/// converse direction, the law fails for this structure: a stored superset
/// whose extra elements interleave the query's is missed, and so is one
/// reached only after an unmatched query value.)
pub proof fn lemma_supersets_sound(t: UBTree<i32>, q: Seq<i32>, k: int)
    requires
        t.wf(),
        walk_matched(t.roots(), canon(q)) == canon(q),
        0 <= k < t.spec_supersets(q).len(),
    ensures
        t.contains_set(t.spec_supersets(q)[k]),
        forall|e: i32| q.contains(e) ==> t.spec_supersets(q)[k].contains(e),
{
    let cq = canon(q);
    let m = walk_matched(t.roots(), cq);
    let f = walk_final(t.roots(), cq);
    let s = t.spec_supersets(q)[k];
    assert(t.spec_supersets(q) == forest_paths(f, m));
    assert(forest_paths(f, m).contains(s));
    lemma_forest_paths_elems(f, m, s);
    assert(path_extends(s, m));
    let tail = s.skip(m.len() as int);
    assert(forest_contains(f, tail));
    lemma_walk_descends(t.roots(), cq, tail);
    assert(m + tail =~= s) by {
        assert(forall|j: int| 0 <= j < m.len() ==> s[j] == s.subrange(0, m.len() as int)[j]);
    }
    assert(t.contains_set(s));
    assert forall|e: i32| q.contains(e) implies s.contains(e) by {
        lemma_canon_contains(q, e);
        assert(cq.contains(e));
        let w = choose|w: int| 0 <= w < cq.len() && cq[w] == e;
        assert(s.subrange(0, m.len() as int)[w] == e);
        assert(s[w] == e);
    }
}

/// Every stored set is found, stated over an insertion: if `post` is `pre`
/// after inserting the non-empty `set` (the relation `insert` ensures),
/// then `exists_set(set)` reports true on `post`.
pub proof fn lemma_insert_then_exists(pre: UBTree<i32>, post: UBTree<i32>, set: Seq<i32>)
    requires
        post.wf(),
        set.len() > 0,
        forall|s: Seq<i32>| post.contains_set(s) <==> pre.contains_set(s) || s == canon(set),
    ensures
        post.spec_exists(set),
{
    assert(post.contains_set(canon(set)));
    lemma_inserted_set_exists(post, set);
}

/// Below every well-formed node some stored path begins with its value.
proof fn lemma_node_has_path(n: Node<i32>)
    requires
        node_wf(n),
    ensures
        exists|t: Seq<i32>| t.len() > 0 && t[0] == n.element && node_carries(n, t),
    decreases n,
{
    if n.end_of_path {
        let t = seq![n.element];
        assert(t.len() > 0 && t[0] == n.element && node_carries(n, t));
    } else {
        assert(n.children@.len() > 0);
        assert(node_wf(n.children@[0]));
        lemma_node_has_path(n.children@[0]);
        let t0 = choose|t: Seq<i32>|
            t.len() > 0 && t[0] == n.children@[0].element && node_carries(n.children@[0], t);
        assert(forest_contains(n.children@, t0));
        let t = seq![n.element] + t0;
        assert(t.drop_first() =~= t0);
        assert(t.len() > 1);
        assert(node_carries(n, t));
        assert(t.len() > 0 && t[0] == n.element && node_carries(n, t));
    }
}

/// Every stored set is in canonical form: non-empty and strictly increasing
/// (so its first value is its least).
pub proof fn lemma_stored_sets_canonical(t: UBTree<i32>, s: Seq<i32>)
    requires
        t.wf(),
        t.contains_set(s),
    ensures
        s.len() > 0,
        strictly_increasing(s),
{
    lemma_forest_contains_increasing(t.roots(), s);
}

proof fn lemma_forest_contains_increasing(ns: Seq<Node<i32>>, s: Seq<i32>)
    requires
        forest_wf(ns),
        forest_contains(ns, s),
    ensures
        s.len() > 0,
        strictly_increasing(s),
    decreases s.len(),
{
    let j = choose|j: int|
        0 <= j < ns.len() && (#[trigger] ns[j]).element == s[0] && node_carries(ns[j], s);
    let n = ns[j];
    assert(node_wf(n));
    if s.len() > 1 {
        let d = s.drop_first();
        assert(forest_contains(n.children@, d));
        assert(forest_wf(n.children@));
        lemma_forest_contains_increasing(n.children@, d);
        let k = choose|k: int|
            0 <= k < n.children@.len() && (#[trigger] n.children@[k]).element == d[0]
                && node_carries(n.children@[k], d);
        assert(n.children@[k].element > n.element);
        assert(s[1] > s[0]);
        assert forall|a: int, b: int| 0 <= a < b < s.len() implies s[a] < s[b] by {
            if a == 0 {
                if b > 1 {
                    assert(d[0] < d[b - 1]);
                }
            } else {
                assert(d[a - 1] < d[b - 1]);
            }
        }
    }
}

/// Some stored set has `x` as its first (least) value.
pub open spec fn some_stored_starts_with(t: UBTree<i32>, x: i32) -> bool {
    exists|s: Seq<i32>| #[trigger] t.contains_set(s) && s.len() > 0 && s[0] == x
}

/// What `len` counts: each root's value is the least element of some stored
/// set, and every stored set begins with (has as its least element) the
/// value of some root.
pub proof fn lemma_roots_are_minimal_elements(t: UBTree<i32>)
    requires
        t.wf(),
    ensures
        forall|j: int| 0 <= j < t.roots().len() ==> some_stored_starts_with(
            t,
            (#[trigger] t.roots()[j]).element,
        ),
        forall|s: Seq<i32>| #[trigger] t.contains_set(s) ==> s.len() > 0 && has_sib(
            t.roots(),
            s[0],
        ),
{
    assert forall|j: int| 0 <= j < t.roots().len() implies some_stored_starts_with(
        t,
        (#[trigger] t.roots()[j]).element,
    ) by {
        assert(node_wf(t.roots()[j]));
        lemma_node_has_path(t.roots()[j]);
        let t0 = choose|u: Seq<i32>|
            u.len() > 0 && u[0] == t.roots()[j].element && node_carries(t.roots()[j], u);
        assert(forest_contains(t.roots(), t0));
        assert(t.contains_set(t0) && t0.len() > 0 && t0[0] == t.roots()[j].element);
    }
    assert forall|s: Seq<i32>| #[trigger] t.contains_set(s) implies s.len() > 0 && has_sib(
        t.roots(),
        s[0],
    ) by {
        let j = choose|j: int|
            0 <= j < t.roots().len() && (#[trigger] t.roots()[j]).element == s[0] && node_carries(
                t.roots()[j],
                s,
            );
        assert(has_sib(t.roots(), s[0]));
    }
}

/// Order-insensitivity: two inputs with the same members canonicalize
/// identically, so `insert`, `exists_set`, `subsets` and `supersets` treat
/// them identically.
pub proof fn lemma_order_insensitive(t: UBTree<i32>, q1: Seq<i32>, q2: Seq<i32>)
    requires
        forall|e: i32| q1.contains(e) <==> q2.contains(e),
    ensures
        canon(q1) == canon(q2),
        t.spec_exists(q1) == t.spec_exists(q2),
        t.spec_subsets(q1) == t.spec_subsets(q2),
        t.spec_supersets(q1) == t.spec_supersets(q2),
{
    lemma_canon_same_members(q1, q2);
    lemma_canon_increasing(q1);
    lemma_canon_increasing(q2);
    if q1.len() == 0 && q2.len() > 0 {
        assert(q2.contains(q2[0]));
        assert(q1.contains(q2[0]));
    }
    if q2.len() == 0 && q1.len() > 0 {
        assert(q1.contains(q1[0]));
        assert(q2.contains(q1[0]));
    }
}

} // verus!
