//! The mathematical model of the set-trie.
//!
//! Sets are modelled as strictly increasing sequences of their elements
//! (`canon` maps an arbitrary input sequence to that form, discarding order
//! and duplicates).  The trie itself is modelled by `forest_contains`, which
//! says which sorted sequences end at a terminal node, and by the walk
//! functions, which describe the greedy subsequence match that all three
//! query operations perform.

use vstd::prelude::*;

use crate::node::Node;

verus! {

/// The sequence is sorted ascending with no repeated values.
pub open spec fn strictly_increasing(s: Seq<i32>) -> bool {
    forall|i: int, j: int| 0 <= i < j < s.len() ==> s[i] < s[j]
}

/// Insert `x` into a strictly increasing sequence, keeping it strictly
/// increasing; inserting a value already present changes nothing.
pub open spec fn sorted_insert(s: Seq<i32>, x: i32) -> Seq<i32>
    decreases s.len(),
{
    if s.len() == 0 {
        seq![x]
    } else if x < s[0] {
        seq![x] + s
    } else if x == s[0] {
        s
    } else {
        seq![s[0]] + sorted_insert(s.drop_first(), x)
    }
}

/// The canonical form of a set given as an arbitrary sequence: the strictly
/// increasing sequence of its distinct elements.
pub open spec fn canon(s: Seq<i32>) -> Seq<i32>
    decreases s.len(),
{
    if s.len() == 0 {
        Seq::empty()
    } else {
        sorted_insert(canon(s.drop_first()), s[0])
    }
}

/// Dropping the first entry keeps a sequence strictly increasing.
pub proof fn lemma_drop_first_increasing(s: Seq<i32>)
    requires
        strictly_increasing(s),
        s.len() > 0,
    ensures
        strictly_increasing(s.drop_first()),
{
    let t = s.drop_first();
    assert forall|i: int, j: int| 0 <= i < j < t.len() implies t[i] < t[j] by {
        assert(t[i] == s[i + 1] && t[j] == s[j + 1]);
    }
}

pub proof fn lemma_sorted_insert_contains(s: Seq<i32>, x: i32, e: i32)
    requires
        strictly_increasing(s),
    ensures
        sorted_insert(s, x).contains(e) <==> (s.contains(e) || e == x),
    decreases s.len(),
{
    let r = sorted_insert(s, x);
    if s.len() == 0 {
        assert(r =~= seq![x]);
        if r.contains(e) {
            let i = choose|i: int| 0 <= i < r.len() && r[i] == e;
            assert(r[i] == x);
        }
        if e == x {
            assert(r[0] == e);
            assert(r.contains(e));
        }
    } else if x < s[0] {
        assert(r =~= seq![x] + s);
        if r.contains(e) {
            let i = choose|i: int| 0 <= i < r.len() && r[i] == e;
            if i > 0 {
                assert(s[i - 1] == e);
                assert(s.contains(e));
            }
        }
        if s.contains(e) {
            let i = choose|i: int| 0 <= i < s.len() && s[i] == e;
            assert(r[i + 1] == e);
            assert(r.contains(e));
        }
        if e == x {
            assert(r[0] == e);
            assert(r.contains(e));
        }
    } else if x == s[0] {
        if e == x {
            assert(s[0] == e);
            assert(s.contains(e));
        }
    } else {
        let t = s.drop_first();
        lemma_drop_first_increasing(s);
        lemma_sorted_insert_contains(t, x, e);
        let ti = sorted_insert(t, x);
        assert(r =~= seq![s[0]] + ti);
        if r.contains(e) {
            let i = choose|i: int| 0 <= i < r.len() && r[i] == e;
            if i == 0 {
                assert(s[0] == e);
                assert(s.contains(e));
            } else {
                assert(ti[i - 1] == e);
                assert(ti.contains(e));
                if t.contains(e) {
                    let k = choose|k: int| 0 <= k < t.len() && t[k] == e;
                    assert(s[k + 1] == e);
                    assert(s.contains(e));
                }
            }
        }
        if s.contains(e) || e == x {
            if e == x {
                assert(ti.contains(e));
                let k = choose|k: int| 0 <= k < ti.len() && ti[k] == e;
                assert(r[k + 1] == e);
            } else {
                let i = choose|i: int| 0 <= i < s.len() && s[i] == e;
                if i == 0 {
                    assert(r[0] == e);
                } else {
                    assert(t[i - 1] == e);
                    assert(t.contains(e));
                    assert(ti.contains(e));
                    let k = choose|k: int| 0 <= k < ti.len() && ti[k] == e;
                    assert(r[k + 1] == e);
                }
            }
            assert(r.contains(e));
        }
    }
}

pub proof fn lemma_sorted_insert_increasing(s: Seq<i32>, x: i32)
    requires
        strictly_increasing(s),
    ensures
        strictly_increasing(sorted_insert(s, x)),
        sorted_insert(s, x).len() > 0,
    decreases s.len(),
{
    let r = sorted_insert(s, x);
    if s.len() == 0 {
    } else if x < s[0] {
        assert(r =~= seq![x] + s);
        assert forall|i: int, j: int| 0 <= i < j < r.len() implies r[i] < r[j] by {
            if i == 0 {
                assert(r[j] == s[j - 1]);
                if j - 1 > 0 {
                    assert(s[0] < s[j - 1]);
                }
            } else {
                assert(r[i] == s[i - 1] && r[j] == s[j - 1]);
            }
        }
    } else if x == s[0] {
    } else {
        let t = s.drop_first();
        lemma_drop_first_increasing(s);
        lemma_sorted_insert_increasing(t, x);
        let ti = sorted_insert(t, x);
        assert(r =~= seq![s[0]] + ti);
        assert forall|k: int| 0 <= k < ti.len() implies ti[k] > s[0] by {
            assert(ti.contains(ti[k]));
            lemma_sorted_insert_contains(t, x, ti[k]);
            if t.contains(ti[k]) {
                let m = choose|m: int| 0 <= m < t.len() && t[m] == ti[k];
                assert(s[m + 1] == ti[k]);
                assert(s[0] < s[m + 1]);
            }
        }
        assert forall|i: int, j: int| 0 <= i < j < r.len() implies r[i] < r[j] by {
            if i == 0 {
                assert(r[j] == ti[j - 1]);
            } else {
                assert(r[i] == ti[i - 1] && r[j] == ti[j - 1]);
            }
        }
    }
}

pub proof fn lemma_canon_increasing(s: Seq<i32>)
    ensures
        strictly_increasing(canon(s)),
        s.len() == 0 <==> canon(s).len() == 0,
    decreases s.len(),
{
    if s.len() > 0 {
        lemma_canon_increasing(s.drop_first());
        lemma_sorted_insert_increasing(canon(s.drop_first()), s[0]);
    }
}

pub proof fn lemma_canon_contains(s: Seq<i32>, e: i32)
    ensures
        canon(s).contains(e) <==> s.contains(e),
    decreases s.len(),
{
    if s.len() == 0 {
        if s.contains(e) {
            let i = choose|i: int| 0 <= i < s.len() && s[i] == e;
        }
    } else {
        let t = s.drop_first();
        lemma_canon_contains(t, e);
        lemma_canon_increasing(t);
        lemma_sorted_insert_contains(canon(t), s[0], e);
        assert(canon(s) == sorted_insert(canon(t), s[0]));
        if s.contains(e) {
            let i = choose|i: int| 0 <= i < s.len() && s[i] == e;
            if i > 0 {
                assert(t[i - 1] == e);
                assert(t.contains(e));
            }
            assert(canon(s).contains(e));
        }
        if canon(s).contains(e) {
            if t.contains(e) {
                let i = choose|i: int| 0 <= i < t.len() && t[i] == e;
                assert(s[i + 1] == e);
                assert(s.contains(e));
            } else {
                assert(e == s[0]);
                assert(s.contains(e));
            }
        }
    }
}

/// Two strictly increasing sequences with the same members are equal:
/// the canonical form of a set is unique.
pub proof fn lemma_increasing_same_members_equal(a: Seq<i32>, b: Seq<i32>)
    requires
        strictly_increasing(a),
        strictly_increasing(b),
        forall|e: i32| a.contains(e) <==> b.contains(e),
    ensures
        a == b,
    decreases a.len(),
{
    if a.len() == 0 {
        if b.len() > 0 {
            assert(b.contains(b[0]));
            assert(a.contains(b[0]));
        }
        assert(a =~= b);
    } else {
        assert(a.contains(a[0]));
        assert(b.contains(a[0]));
        assert(b.len() > 0);
        assert(b.contains(b[0]));
        assert(a.contains(b[0]));
        let ia = choose|i: int| 0 <= i < a.len() && a[i] == b[0];
        let ib = choose|i: int| 0 <= i < b.len() && b[i] == a[0];
        assert(a[ia] >= a[0]);
        assert(b[ib] >= b[0]);
        assert(a[0] == b[0]);
        let at = a.drop_first();
        let bt = b.drop_first();
        lemma_drop_first_increasing(a);
        lemma_drop_first_increasing(b);
        assert forall|e: i32| at.contains(e) <==> bt.contains(e) by {
            if at.contains(e) {
                let i = choose|i: int| 0 <= i < at.len() && at[i] == e;
                assert(a[i + 1] == e);
                assert(a[0] < a[i + 1]);
                assert(a.contains(e));
                assert(b.contains(e));
                let j = choose|j: int| 0 <= j < b.len() && b[j] == e;
                assert(j > 0);
                assert(bt[j - 1] == e);
                assert(bt.contains(e));
            }
            if bt.contains(e) {
                let i = choose|i: int| 0 <= i < bt.len() && bt[i] == e;
                assert(b[i + 1] == e);
                assert(b[0] < b[i + 1]);
                assert(b.contains(e));
                assert(a.contains(e));
                let j = choose|j: int| 0 <= j < a.len() && a[j] == e;
                assert(j > 0);
                assert(at[j - 1] == e);
                assert(at.contains(e));
            }
        }
        lemma_increasing_same_members_equal(at, bt);
        assert(a =~= b) by {
            assert(forall|i: int| 1 <= i < a.len() ==> a[i] == at[i - 1] && at[i - 1] == bt[i
                - 1] && bt[i - 1] == b[i]);
        }
    }
}

/// Sibling lists hold pairwise distinct element values in ascending order.
pub open spec fn siblings_sorted(ns: Seq<Node<i32>>) -> bool {
    forall|i: int, j: int| 0 <= i < j < ns.len() ==> ns[i].element < ns[j].element
}

/// Structural invariant of a subtree rooted at `n`: children are sorted and
/// unique, every child value exceeds the node's own value (paths are strictly
/// increasing), leaves are terminal (every node lies on some stored path),
/// and the children are themselves well formed.
pub open spec fn node_wf(n: Node<i32>) -> bool
    decreases n,
{
    &&& siblings_sorted(n.children@)
    &&& forall|j: int|
        0 <= j < n.children@.len() ==> (#[trigger] n.children@[j]).element > n.element
    &&& (n.children@.len() == 0 ==> n.end_of_path)
    &&& forall|j: int| 0 <= j < n.children@.len() ==> node_wf(#[trigger] n.children@[j])
}

/// Invariant of a sibling list taken as a forest (in particular the roots).
pub open spec fn forest_wf(ns: Seq<Node<i32>>) -> bool {
    siblings_sorted(ns) && (forall|j: int| 0 <= j < ns.len() ==> node_wf(#[trigger] ns[j]))
}

/// Some sibling in `ns` carries the value `x`.
pub open spec fn has_sib(ns: Seq<Node<i32>>, x: i32) -> bool {
    exists|j: int| 0 <= j < ns.len() && (#[trigger] ns[j]).element == x
}

/// Index of the sibling carrying `x` (unique when the list is sorted).
pub open spec fn sib_idx(ns: Seq<Node<i32>>, x: i32) -> int {
    choose|j: int| 0 <= j < ns.len() && (#[trigger] ns[j]).element == x
}

/// The sibling carrying `x`.
pub open spec fn sib_at(ns: Seq<Node<i32>>, x: i32) -> Node<i32> {
    ns[sib_idx(ns, x)]
}

pub proof fn lemma_sib_unique(ns: Seq<Node<i32>>, x: i32)
    requires
        siblings_sorted(ns),
        has_sib(ns, x),
    ensures
        0 <= sib_idx(ns, x) < ns.len(),
        sib_at(ns, x).element == x,
        forall|j: int| 0 <= j < ns.len() && (#[trigger] ns[j]).element == x ==> j == sib_idx(
            ns,
            x,
        ),
{
    let i = sib_idx(ns, x);
    assert forall|j: int| 0 <= j < ns.len() && (#[trigger] ns[j]).element == x implies j == i by {
        if j < i {
            assert(ns[j].element < ns[i].element);
        }
        if j > i {
            assert(ns[i].element < ns[j].element);
        }
    }
}

/// Given that `n` is the sibling matching `s[0]`, does the remainder of `s`
/// end at a terminal below (or at) `n`?
pub open spec fn node_carries(n: Node<i32>, s: Seq<i32>) -> bool
    decreases s.len(), 0int,
{
    if s.len() <= 1 {
        n.end_of_path
    } else {
        forest_contains(n.children@, s.drop_first())
    }
}

/// The sorted sequence `s` is stored in the forest `ns`: starting from the
/// sibling list `ns`, the values of `s` name a descending chain of nodes and
/// the last one is terminal.  This is the abstract contents of the trie.
pub open spec fn forest_contains(ns: Seq<Node<i32>>, s: Seq<i32>) -> bool
    decreases s.len(), 1int,
{
    s.len() > 0 && exists|j: int|
        0 <= j < ns.len() && (#[trigger] ns[j]).element == s[0] && node_carries(ns[j], s)
}

pub proof fn lemma_contains_at_sib(ns: Seq<Node<i32>>, s: Seq<i32>)
    requires
        siblings_sorted(ns),
    ensures
        forest_contains(ns, s) <==> (s.len() > 0 && has_sib(ns, s[0]) && node_carries(
            sib_at(ns, s[0]),
            s,
        )),
{
    if forest_contains(ns, s) {
        let j = choose|j: int|
            0 <= j < ns.len() && (#[trigger] ns[j]).element == s[0] && node_carries(ns[j], s);
        assert(has_sib(ns, s[0]));
        lemma_sib_unique(ns, s[0]);
        assert(j == sib_idx(ns, s[0]));
    }
    if s.len() > 0 && has_sib(ns, s[0]) && node_carries(sib_at(ns, s[0]), s) {
        lemma_sib_unique(ns, s[0]);
        let j = sib_idx(ns, s[0]);
        assert(0 <= j < ns.len() && ns[j].element == s[0] && node_carries(ns[j], s));
    }
}

/// The greedy walk, reduced to the one bit `exists_set` reports: was a terminal
/// node met at some matched position?
pub open spec fn walk_exists(ns: Seq<Node<i32>>, q: Seq<i32>) -> bool
    decreases q.len(),
{
    if q.len() == 0 {
        false
    } else if has_sib(ns, q[0]) {
        sib_at(ns, q[0]).end_of_path || walk_exists(sib_at(ns, q[0]).children@, q.drop_first())
    } else {
        walk_exists(ns, q.drop_first())
    }
}

/// The stored sets met as terminals along the greedy walk for `q`, each as
/// the full path of matched values, in the order the walk meets them.  This
/// is exactly what `subsets` returns.
pub open spec fn walk_hits(ns: Seq<Node<i32>>, q: Seq<i32>) -> Seq<Seq<i32>>
    decreases q.len(),
{
    if q.len() == 0 {
        Seq::empty()
    } else if has_sib(ns, q[0]) {
        let deeper = walk_hits(sib_at(ns, q[0]).children@, q.drop_first()).map_values(
            |h: Seq<i32>| seq![q[0]] + h,
        );
        if sib_at(ns, q[0]).end_of_path {
            seq![seq![q[0]]] + deeper
        } else {
            deeper
        }
    } else {
        walk_hits(ns, q.drop_first())
    }
}

/// The values of `q` that the greedy walk matches, in order: the path of the
/// node reached when the walk ends.
pub open spec fn walk_matched(ns: Seq<Node<i32>>, q: Seq<i32>) -> Seq<i32>
    decreases q.len(),
{
    if q.len() == 0 {
        Seq::empty()
    } else if has_sib(ns, q[0]) {
        seq![q[0]] + walk_matched(sib_at(ns, q[0]).children@, q.drop_first())
    } else {
        walk_matched(ns, q.drop_first())
    }
}

/// The sibling list the greedy walk ends at: the children of the last matched
/// node, or `ns` itself if nothing matched.
pub open spec fn walk_final(ns: Seq<Node<i32>>, q: Seq<i32>) -> Seq<Node<i32>>
    decreases q.len(),
{
    if q.len() == 0 {
        ns
    } else if has_sib(ns, q[0]) {
        walk_final(sib_at(ns, q[0]).children@, q.drop_first())
    } else {
        walk_final(ns, q.drop_first())
    }
}

/// Every stored set in the subtree rooted at `n`, written as `prefix` plus
/// the path down from `n`, in depth-first left-to-right order.
pub open spec fn node_paths(n: Node<i32>, prefix: Seq<i32>) -> Seq<Seq<i32>>
    decreases n,
{
    (if n.end_of_path {
        seq![prefix.push(n.element)]
    } else {
        Seq::empty()
    }) + forest_paths(n.children@, prefix.push(n.element))
}

/// Every stored set in the forest `ns`, prefixed by `prefix`, in depth-first
/// left-to-right order.  This is exactly what `supersets` returns.
pub open spec fn forest_paths(ns: Seq<Node<i32>>, prefix: Seq<i32>) -> Seq<Seq<i32>>
    decreases ns,
{
    if ns.len() == 0 {
        Seq::empty()
    } else {
        node_paths(ns[0], prefix) + forest_paths(ns.drop_first(), prefix)
    }
}

/// Inserting a value already present leaves a canonical sequence unchanged.
pub proof fn lemma_sorted_insert_present(s: Seq<i32>, x: i32)
    requires
        strictly_increasing(s),
        s.contains(x),
    ensures
        sorted_insert(s, x) == s,
    decreases s.len(),
{
    let i = choose|i: int| 0 <= i < s.len() && s[i] == x;
    if x < s[0] {
        if i > 0 {
            assert(s[0] < s[i]);
        }
        assert(false);
    } else if x == s[0] {
    } else {
        let t = s.drop_first();
        lemma_drop_first_increasing(s);
        assert(i > 0);
        assert(t[i - 1] == x);
        assert(t.contains(x));
        lemma_sorted_insert_present(t, x);
        assert(sorted_insert(s, x) =~= s);
    }
}

/// When `x` is absent and `k` is its insertion point, `sorted_insert` places
/// `x` exactly at index `k`.
pub proof fn lemma_sorted_insert_shape(s: Seq<i32>, x: i32, k: int)
    requires
        strictly_increasing(s),
        0 <= k <= s.len(),
        forall|j: int| 0 <= j < k ==> s[j] < x,
        forall|j: int| k <= j < s.len() ==> s[j] > x,
    ensures
        sorted_insert(s, x) == s.insert(k, x),
    decreases s.len(),
{
    s.insert_ensures(k, x);
    if s.len() == 0 {
        assert(sorted_insert(s, x) =~= s.insert(k, x));
    } else if x < s[0] {
        assert(k == 0);
        assert(sorted_insert(s, x) =~= s.insert(0, x));
    } else if x == s[0] {
        assert(false);
    } else {
        let t = s.drop_first();
        lemma_drop_first_increasing(s);
        assert(k >= 1);
        assert forall|j: int| 0 <= j < k - 1 implies t[j] < x by {
            assert(t[j] == s[j + 1]);
        }
        assert forall|j: int| k - 1 <= j < t.len() implies t[j] > x by {
            assert(t[j] == s[j + 1]);
        }
        lemma_sorted_insert_shape(t, x, k - 1);
        t.insert_ensures(k - 1, x);
        assert(sorted_insert(s, x) =~= s.insert(k, x));
    }
}

/// Replacing the sibling at `k` by a node with the same element value only
/// changes which sequences beginning with that value are stored.
pub proof fn lemma_contains_update(ns: Seq<Node<i32>>, k: int, n2: Node<i32>, s: Seq<i32>)
    requires
        siblings_sorted(ns),
        0 <= k < ns.len(),
        n2.element == ns[k].element,
    ensures
        siblings_sorted(ns.update(k, n2)),
        s.len() > 0 && s[0] == n2.element ==> (forest_contains(ns.update(k, n2), s)
            <==> node_carries(n2, s)),
        s.len() > 0 && s[0] == n2.element ==> (forest_contains(ns, s) <==> node_carries(
            ns[k],
            s,
        )),
        !(s.len() > 0 && s[0] == n2.element) ==> (forest_contains(ns.update(k, n2), s)
            <==> forest_contains(ns, s)),
{
    let us = ns.update(k, n2);
    assert(forall|j: int| 0 <= j < ns.len() ==> us[j].element == ns[j].element);
    lemma_contains_at_sib(ns, s);
    lemma_contains_at_sib(us, s);
    if s.len() > 0 {
        let x = s[0];
        if has_sib(ns, x) {
            let j = choose|j: int| 0 <= j < ns.len() && (#[trigger] ns[j]).element == x;
            assert(us[j].element == x);
            assert(has_sib(us, x));
        }
        if has_sib(us, x) {
            let j = choose|j: int| 0 <= j < us.len() && (#[trigger] us[j]).element == x;
            assert(ns[j].element == x);
            assert(has_sib(ns, x));
        }
        if has_sib(ns, x) {
            lemma_sib_unique(ns, x);
            lemma_sib_unique(us, x);
            let j = sib_idx(ns, x);
            let j2 = sib_idx(us, x);
            assert(us[j].element == x);
            assert(j2 == j);
            if x == n2.element {
                assert(ns[k].element == x);
                assert(j == k);
                assert(sib_at(us, x) == n2);
                assert(sib_at(ns, x) == ns[k]);
            } else {
                assert(j != k);
                assert(sib_at(us, x) == sib_at(ns, x));
            }
        } else {
            if x == n2.element {
                assert(ns[k].element == x);
                assert(has_sib(ns, x));
            }
        }
    }
}

pub proof fn lemma_has_sib_insert(ns: Seq<Node<i32>>, k: int, n2: Node<i32>, e: i32)
    requires
        0 <= k <= ns.len(),
    ensures
        has_sib(ns.insert(k, n2), e) <==> has_sib(ns, e) || e == n2.element,
{
    ns.insert_ensures(k, n2);
    let is = ns.insert(k, n2);
    if has_sib(is, e) {
        let j = choose|j: int| 0 <= j < is.len() && (#[trigger] is[j]).element == e;
        if j < k {
            assert(ns[j].element == e);
            assert(has_sib(ns, e));
        } else if j == k {
            assert(e == n2.element);
        } else {
            assert(ns[j - 1].element == e);
            assert(has_sib(ns, e));
        }
    }
    if has_sib(ns, e) {
        let j = choose|j: int| 0 <= j < ns.len() && (#[trigger] ns[j]).element == e;
        if j < k {
            assert(is[j].element == e);
        } else {
            assert(is[j + 1].element == e);
        }
        assert(has_sib(is, e));
    }
    if e == n2.element {
        assert(is[k].element == e);
        assert(has_sib(is, e));
    }
}

/// Inserting a new sibling (with a fresh value, at its sorted position) adds
/// exactly the sequences that begin with that value and continue below the
/// new node.
pub proof fn lemma_contains_insert(ns: Seq<Node<i32>>, k: int, n2: Node<i32>, s: Seq<i32>)
    requires
        siblings_sorted(ns),
        0 <= k <= ns.len(),
        forall|j: int| 0 <= j < k ==> ns[j].element < n2.element,
        forall|j: int| k <= j < ns.len() ==> ns[j].element > n2.element,
    ensures
        siblings_sorted(ns.insert(k, n2)),
        s.len() > 0 && s[0] == n2.element ==> (forest_contains(ns.insert(k, n2), s)
            <==> node_carries(n2, s)),
        s.len() > 0 && s[0] == n2.element ==> !forest_contains(ns, s),
        !(s.len() > 0 && s[0] == n2.element) ==> (forest_contains(ns.insert(k, n2), s)
            <==> forest_contains(ns, s)),
{
    ns.insert_ensures(k, n2);
    let is = ns.insert(k, n2);
    assert forall|i: int, j: int| 0 <= i < j < is.len() implies is[i].element < is[j].element by {
        if i < k && j < k {
        } else if i < k && j == k {
            assert(is[i] == ns[i]);
        } else if i < k && j > k {
            assert(is[i] == ns[i] && is[j] == ns[j - 1]);
            assert(ns[i].element < n2.element);
            assert(ns[j - 1].element > n2.element);
        } else if i == k {
            assert(is[j] == ns[j - 1]);
        } else {
            assert(is[i] == ns[i - 1] && is[j] == ns[j - 1]);
        }
    }
    lemma_contains_at_sib(ns, s);
    lemma_contains_at_sib(is, s);
    if s.len() > 0 {
        let x = s[0];
        lemma_has_sib_insert(ns, k, n2, x);
        if x == n2.element {
            assert(is[k].element == x);
            assert(has_sib(is, x));
            lemma_sib_unique(is, x);
            assert(sib_idx(is, x) == k);
            assert(sib_at(is, x) == n2);
            if has_sib(ns, x) {
                let j = choose|j: int| 0 <= j < ns.len() && (#[trigger] ns[j]).element == x;
                if j < k {
                    assert(ns[j].element < n2.element);
                } else {
                    assert(ns[j].element > n2.element);
                }
                assert(false);
            }
        } else {
            if has_sib(ns, x) {
                lemma_sib_unique(ns, x);
                lemma_sib_unique(is, x);
                let j = sib_idx(ns, x);
                let j2: int = if j < k {
                    j
                } else {
                    j + 1
                };
                assert(is[j2].element == x);
                assert(j2 == sib_idx(is, x));
                assert(sib_at(is, x) == sib_at(ns, x));
            }
        }
    }
}

/// Canonicalization depends only on the members of the input: any two
/// sequences with the same members canonicalize identically.
pub proof fn lemma_canon_same_members(a: Seq<i32>, b: Seq<i32>)
    requires
        forall|e: i32| a.contains(e) <==> b.contains(e),
    ensures
        canon(a) == canon(b),
{
    lemma_canon_increasing(a);
    lemma_canon_increasing(b);
    assert forall|e: i32| canon(a).contains(e) <==> canon(b).contains(e) by {
        lemma_canon_contains(a, e);
        lemma_canon_contains(b, e);
        assert(a.contains(e) <==> b.contains(e));
    }
    lemma_increasing_same_members_equal(canon(a), canon(b));
}

} // verus!
