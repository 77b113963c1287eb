//! The mathematical model of a soft pairing heap: a tree of items, each node
//! carrying a pool count, and the heap operations written over that model.
use vstd::prelude::*;
use vstd::multiset::Multiset;
use crate::order::{item_le, item_lt};

verus! {

/// A node of the model: its item, its pool count, and its subtrees in order.
pub struct Tree<T> {
    pub item: T,
    pub count: nat,
    pub children: Seq<Tree<T>>,
}

/// The number of nodes of a tree.
pub open spec fn size<T>(t: Tree<T>) -> nat
    decreases t,
{
    1 + forest_size(t.children)
}

/// The number of nodes of a sequence of trees.
pub open spec fn forest_size<T>(s: Seq<Tree<T>>) -> nat
    decreases s,
{
    if s.len() == 0 {
        0
    } else {
        forest_size(s.drop_last()) + size(s.last())
    }
}

/// The items held by the nodes of a tree.
pub open spec fn items<T>(t: Tree<T>) -> Multiset<T>
    decreases t,
{
    forest_items(t.children).insert(t.item)
}

/// The items held by the nodes of a sequence of trees.
pub open spec fn forest_items<T>(s: Seq<Tree<T>>) -> Multiset<T>
    decreases s,
{
    if s.len() == 0 {
        Multiset::empty()
    } else {
        forest_items(s.drop_last()).add(items(s.last()))
    }
}

/// The sum of the pool counts of the nodes of a tree.
pub open spec fn pooled<T>(t: Tree<T>) -> nat
    decreases t,
{
    t.count + forest_pooled(t.children)
}

/// The sum of the pool counts of the nodes of a sequence of trees.
pub open spec fn forest_pooled<T>(s: Seq<Tree<T>>) -> nat
    decreases s,
{
    if s.len() == 0 {
        0
    } else {
        forest_pooled(s.drop_last()) + pooled(s.last())
    }
}

/// Every node's item is at most the item of each of its children.
pub open spec fn heap_ordered<T: PartialOrd>(t: Tree<T>) -> bool
    decreases t,
{
    forall|i: int|
        #![trigger t.children[i]]
        0 <= i < t.children.len() ==> item_le(t.item, t.children[i].item) && heap_ordered(
            t.children[i],
        )
}

/// Every tree of the sequence is heap-ordered.
pub open spec fn forest_heap_ordered<T: PartialOrd>(s: Seq<Tree<T>>) -> bool {
    forall|i: int| 0 <= i < s.len() ==> heap_ordered(#[trigger] s[i])
}

/// `b` is a clone of `a`: the same shape and pool counts, each item a clone.
pub open spec fn tree_cloned<T: Clone>(a: Tree<T>, b: Tree<T>) -> bool
    decreases a,
{
    &&& a.count == b.count
    &&& cloned(a.item, b.item)
    &&& a.children.len() == b.children.len()
    &&& forall|i: int|
        #![trigger a.children[i]]
        0 <= i < a.children.len() ==> tree_cloned(a.children[i], b.children[i])
}

/// A tree of one node with an empty pool.
pub open spec fn singleton<T>(item: T) -> Tree<T> {
    Tree { item, count: 0, children: Seq::empty() }
}

/// Links two trees: the one whose item is strictly smaller becomes the root
/// (on a tie, `b`), and the other becomes its last child.
pub open spec fn meld<T: PartialOrd>(a: Tree<T>, b: Tree<T>) -> Tree<T> {
    if item_lt(a.item, b.item) {
        Tree { item: a.item, count: a.count, children: a.children.push(b) }
    } else {
        Tree { item: b.item, count: b.count, children: b.children.push(a) }
    }
}

/// The work queue that merging starts from: each tree at level 0.
pub open spec fn queue_of<T>(s: Seq<Tree<T>>) -> Seq<(Tree<T>, nat)> {
    s.map_values(|c: Tree<T>| (c, 0nat))
}

/// The trees of a work queue, without their levels.
pub open spec fn queue_trees<T>(q: Seq<(Tree<T>, nat)>) -> Seq<Tree<T>> {
    q.map_values(|e: (Tree<T>, nat)| e.0)
}

/// Corrupts a tree: the root's item leaves the tree (it is returned as
/// corrupted), its subtrees are merged, and the root's pool count is added to
/// the pool of the merged root. A tree without subtrees is left as it is.
pub open spec fn corrupt_tree<T: PartialOrd>(t: Tree<T>, every: nat) -> (Tree<T>, Seq<T>)
    decreases size(t), 0nat, 0nat,
{
    proof {
        lemma_queue_of(t.children);
    }
    let (merged, cs) = merge_queue(queue_of(t.children), every);
    match merged {
        None => (Tree { item: t.item, count: t.count, children: Seq::empty() }, cs),
        Some(p) => (Tree { item: p.item, count: p.count + t.count, children: p.children }, cs.push(t.item)),
    }
}

/// Multipass merging of a work queue: the two front trees are linked and the
/// result goes to the back, one level above the second; a link made at level
/// `every` is corrupted. Returns the last tree and the items corrupted on the way.
pub open spec fn merge_queue<T: PartialOrd>(q: Seq<(Tree<T>, nat)>, every: nat) -> (Option<Tree<T>>, Seq<T>)
    decreases forest_size(queue_trees(q)), 1nat, q.len(),
{
    if q.len() == 0 {
        (None, Seq::empty())
    } else if q.len() == 1 {
        (Some(q[0].0), Seq::empty())
    } else {
        let m = meld(q[0].0, q[1].0);
        let level = q[1].1;
        let rest = q.skip(2);
        proof {
            lemma_queue_front(q);
        }
        if level == every {
            let (c, cs) = corrupt_tree(m, every);
            if size(c) <= size(m) {
                proof {
                    lemma_queue_push(rest, (c, level + 1));
                }
                let (r, rs) = merge_queue(rest.push((c, level + 1)), every);
                (r, cs + rs)
            } else {
                (None, cs)
            }
        } else {
            proof {
                lemma_queue_push(rest, (m, level + 1));
            }
            merge_queue(rest.push((m, level + 1)), every)
        }
    }
}

/// Merges a sequence of trees into one (`None` when there are none).
pub open spec fn merge_forest<T: PartialOrd>(s: Seq<Tree<T>>, every: nat) -> (Option<Tree<T>>, Seq<T>) {
    merge_queue(queue_of(s), every)
}

/// Deletes the minimum of a tree: with a nonempty pool the pool shrinks by one;
/// otherwise the root leaves and its subtrees are merged.
pub open spec fn delete_min_tree<T: PartialOrd>(t: Tree<T>, every: nat) -> (Option<Tree<T>>, Seq<T>) {
    if t.count == 0 {
        merge_forest(t.children, every)
    } else {
        (Some(Tree { item: t.item, count: (t.count - 1) as nat, children: t.children }), Seq::empty())
    }
}

/// The items of a sequence of trees in pre-order: the first tree's root, then
/// the whole subtree of each of its children in turn, then the trees after it.
pub open spec fn pre_order<T>(q: Seq<Tree<T>>) -> Seq<T>
    decreases forest_size(q),
{
    if q.len() == 0 {
        Seq::empty()
    } else {
        proof {
            lemma_forest_size_pop_front(q);
        }
        seq![q[0].item] + pre_order(q[0].children + q.drop_first())
    }
}

/// The items of a tree that may be absent.
pub open spec fn opt_items<T>(t: Option<Tree<T>>) -> Multiset<T> {
    match t {
        None => Multiset::empty(),
        Some(t) => items(t),
    }
}

/// The pooled count of a tree that may be absent.
pub open spec fn opt_pooled<T>(t: Option<Tree<T>>) -> nat {
    match t {
        None => 0,
        Some(t) => pooled(t),
    }
}

/// The number of nodes of a tree that may be absent.
pub open spec fn opt_size<T>(t: Option<Tree<T>>) -> nat {
    match t {
        None => 0,
        Some(t) => size(t),
    }
}

/// The model of a soft heap after inserting `item`.
pub open spec fn heap_insert<T: PartialOrd>(h: Option<Tree<T>>, item: T) -> Tree<T> {
    match h {
        None => singleton(item),
        Some(t) => meld(t, singleton(item)),
    }
}

/// The model of a soft heap after deleting its minimum, and the items
/// corrupted on the way.
pub open spec fn heap_delete_min<T: PartialOrd>(h: Option<Tree<T>>, every: nat) -> (Option<Tree<T>>, Seq<T>) {
    match h {
        None => (None, Seq::empty()),
        Some(t) => delete_min_tree(t, every),
    }
}

/// An operation on a soft heap.
pub enum HeapOp<T> {
    Insert(T),
    DeleteMin,
}

/// The soft heap left after a run of operations.
pub open spec fn run_ops<T: PartialOrd>(ops: Seq<HeapOp<T>>, every: nat) -> Option<Tree<T>>
    decreases ops.len(),
{
    if ops.len() == 0 {
        None
    } else {
        let h = run_ops(ops.drop_last(), every);
        match ops.last() {
            HeapOp::Insert(x) => Some(heap_insert(h, x)),
            HeapOp::DeleteMin => heap_delete_min(h, every).0,
        }
    }
}

/// What `delete_min` needs of a soft heap so that merging cannot fail: when
/// the root's pool is empty and it has enough subtrees for a link to be
/// corrupted (`every + 2`), those subtrees are heap-ordered and their pools fit
/// in a `usize`.
pub open spec fn can_delete_min<T: PartialOrd>(h: Option<Tree<T>>, every: nat) -> bool {
    match h {
        None => true,
        Some(t) => t.count == 0 && t.children.len() >= every + 2 ==> forest_heap_ordered(t.children)
            && forest_pooled(t.children) <= usize::MAX,
    }
}

// ---------------------------------------------------------------------------
// Sizes of sequences of trees

pub proof fn lemma_forest_size_concat<T>(s1: Seq<Tree<T>>, s2: Seq<Tree<T>>)
    ensures
        forest_size(s1 + s2) == forest_size(s1) + forest_size(s2),
    decreases s2.len(),
{
    if s2.len() == 0 {
        assert(s1 + s2 =~= s1);
    } else {
        assert((s1 + s2).drop_last() =~= s1 + s2.drop_last());
        lemma_forest_size_concat(s1, s2.drop_last());
    }
}

pub proof fn lemma_forest_size_pop_front<T>(q: Seq<Tree<T>>)
    requires
        q.len() > 0,
    ensures
        forest_size(q[0].children + q.drop_first()) + 1 == forest_size(q),
{
    lemma_forest_size_concat(q[0].children, q.drop_first());
    lemma_forest_size_concat(seq![q[0]], q.drop_first());
    assert(seq![q[0]] + q.drop_first() =~= q);
    assert(seq![q[0]].drop_last() =~= Seq::<Tree<T>>::empty());
    assert(forest_size(Seq::<Tree<T>>::empty()) == 0);
    assert(forest_size(seq![q[0]]) == size(q[0]));
}

pub proof fn lemma_queue_of<T>(s: Seq<Tree<T>>)
    ensures
        queue_trees(queue_of(s)) == s,
        queue_of(s).len() == s.len(),
{
    assert(queue_trees(queue_of(s)) =~= s);
}

pub proof fn lemma_forest_items_concat<T>(s1: Seq<Tree<T>>, s2: Seq<Tree<T>>)
    ensures
        forest_items(s1 + s2) == forest_items(s1).add(forest_items(s2)),
    decreases s2.len(),
{
    broadcast use vstd::multiset::group_multiset_axioms;

    if s2.len() == 0 {
        assert(s1 + s2 =~= s1);
        assert(forest_items(s1).add(forest_items(s2)) =~= forest_items(s1));
    } else {
        assert((s1 + s2).drop_last() =~= s1 + s2.drop_last());
        lemma_forest_items_concat(s1, s2.drop_last());
        assert(forest_items(s1 + s2) =~= forest_items(s1).add(forest_items(s2)));
    }
}

pub proof fn lemma_forest_pooled_concat<T>(s1: Seq<Tree<T>>, s2: Seq<Tree<T>>)
    ensures
        forest_pooled(s1 + s2) == forest_pooled(s1) + forest_pooled(s2),
    decreases s2.len(),
{
    if s2.len() == 0 {
        assert(s1 + s2 =~= s1);
    } else {
        assert((s1 + s2).drop_last() =~= s1 + s2.drop_last());
        lemma_forest_pooled_concat(s1, s2.drop_last());
    }
}

/// The measures of a sequence of two trees.
pub proof fn lemma_forest_pair<T>(a: Tree<T>, b: Tree<T>)
    ensures
        forest_size(seq![a, b]) == size(a) + size(b),
        forest_items(seq![a, b]) == items(a).add(items(b)),
        forest_pooled(seq![a, b]) == pooled(a) + pooled(b),
{
    broadcast use vstd::multiset::group_multiset_axioms;

    let e = Seq::<Tree<T>>::empty();
    assert(seq![a, b].drop_last() =~= seq![a]);
    assert(seq![a].drop_last() =~= e);
    assert(forest_items(e) =~= Multiset::empty());
    assert(forest_items(seq![a]) =~= items(a));
    assert(forest_items(seq![a, b]) =~= items(a).add(items(b)));
    assert(forest_size(e) == 0);
    assert(forest_size(seq![a]) == size(a));
    assert(forest_pooled(e) == 0);
    assert(forest_pooled(seq![a]) == pooled(a));
}

/// The measures of a sequence of one tree.
pub proof fn lemma_forest_one<T>(a: Tree<T>)
    ensures
        forest_size(seq![a]) == size(a),
        forest_items(seq![a]) == items(a),
        forest_pooled(seq![a]) == pooled(a),
{
    broadcast use vstd::multiset::group_multiset_axioms;

    let e = Seq::<Tree<T>>::empty();
    assert(seq![a].drop_last() =~= e);
    assert(forest_items(e) =~= Multiset::empty());
    assert(forest_items(seq![a]) =~= items(a));
    assert(forest_size(e) == 0);
    assert(forest_pooled(e) == 0);
}

/// A forest with one more tree at its end.
pub proof fn lemma_forest_push<T>(s: Seq<Tree<T>>, t: Tree<T>)
    ensures
        forest_size(s.push(t)) == forest_size(s) + size(t),
        forest_items(s.push(t)) == forest_items(s).add(items(t)),
        forest_pooled(s.push(t)) == forest_pooled(s) + pooled(t),
{
    assert(s.push(t).drop_last() =~= s);
}

/// The measures of a work queue split after its two front trees.
pub proof fn lemma_queue_front<T: PartialOrd>(q: Seq<(Tree<T>, nat)>)
    requires
        q.len() >= 2,
    ensures
        forest_size(queue_trees(q)) == size(q[0].0) + size(q[1].0) + forest_size(
            queue_trees(q.skip(2)),
        ),
        forest_items(queue_trees(q)) == items(q[0].0).add(items(q[1].0)).add(
            forest_items(queue_trees(q.skip(2))),
        ),
        forest_pooled(queue_trees(q)) == pooled(q[0].0) + pooled(q[1].0) + forest_pooled(
            queue_trees(q.skip(2)),
        ),
        size(meld(q[0].0, q[1].0)) == size(q[0].0) + size(q[1].0),
        queue_trees(q.skip(2)) == queue_trees(q).skip(2),
{
    let a = q[0].0;
    let b = q[1].0;
    let rest = queue_trees(q.skip(2));
    assert(queue_trees(q) =~= seq![a, b] + rest);
    assert(queue_trees(q.skip(2)) =~= queue_trees(q).skip(2));
    lemma_forest_size_concat(seq![a, b], rest);
    lemma_forest_items_concat(seq![a, b], rest);
    lemma_forest_pooled_concat(seq![a, b], rest);
    lemma_forest_pair(a, b);
    lemma_forest_push(a.children, b);
    lemma_forest_push(b.children, a);
}

/// A work queue with one more entry at its back.
pub proof fn lemma_queue_push<T>(q: Seq<(Tree<T>, nat)>, e: (Tree<T>, nat))
    ensures
        forest_size(queue_trees(q.push(e))) == forest_size(queue_trees(q)) + size(e.0),
        forest_items(queue_trees(q.push(e))) == forest_items(queue_trees(q)).add(items(e.0)),
        forest_pooled(queue_trees(q.push(e))) == forest_pooled(queue_trees(q)) + pooled(e.0),
        queue_trees(q.push(e)) == queue_trees(q).push(e.0),
        q.push(e).len() == q.len() + 1,
{
    assert(queue_trees(q.push(e)) =~= queue_trees(q).push(e.0));
    lemma_forest_push(queue_trees(q), e.0);
}

} // verus!
