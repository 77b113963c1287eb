//! What the heap operations keep: every node's item is either still in the
//! heap or handed out as corrupted, pool counts are moved but never lost, and
//! heap order survives every operation.
use vstd::prelude::*;
use vstd::multiset::Multiset;
use crate::order::{
    lawful_order, item_le, item_lt, lemma_le_refl, lemma_lt_le, lemma_not_lt_le, lemma_le_trans,
};
use crate::tree::{
    Tree, size, forest_size, items, forest_items, pooled, forest_pooled, heap_ordered,
    forest_heap_ordered, meld, queue_of, queue_trees, corrupt_tree, merge_queue, opt_items,
    opt_pooled, opt_size, lemma_forest_one, lemma_forest_push, lemma_queue_front,
    lemma_queue_push, lemma_queue_of, delete_min_tree, singleton, pre_order,
    lemma_forest_size_pop_front, lemma_forest_items_concat, heap_insert, can_delete_min,
    merge_forest, heap_delete_min, HeapOp, run_ops,
};

verus! {

broadcast use {vstd::multiset::group_multiset_axioms, vstd::seq_lib::group_to_multiset_ensures};

/// Linking two trees keeps all their nodes, items and pool counts; linking two
/// heap-ordered trees gives a heap-ordered tree whose root is the smaller root.
pub proof fn law_meld<T: Ord>(a: Tree<T>, b: Tree<T>)
    ensures
        size(meld(a, b)) == size(a) + size(b),
        items(meld(a, b)) == items(a).add(items(b)),
        pooled(meld(a, b)) == pooled(a) + pooled(b),
        lawful_order::<T>() ==> item_le(meld(a, b).item, a.item) && item_le(meld(a, b).item, b.item),
        lawful_order::<T>() && heap_ordered(a) && heap_ordered(b) ==> heap_ordered(meld(a, b)),
{
    let m = meld(a, b);
    lemma_forest_push(a.children, b);
    lemma_forest_push(b.children, a);
    assert(items(m) =~= items(a).add(items(b)));
    if lawful_order::<T>() {
        lemma_le_refl(a.item);
        lemma_le_refl(b.item);
        if item_lt(a.item, b.item) {
            lemma_lt_le(a.item, b.item);
        } else {
            lemma_not_lt_le(a.item, b.item);
        }
        if heap_ordered(a) && heap_ordered(b) {
            assert forall|i: int| 0 <= i < m.children.len() implies item_le(
                m.item,
                #[trigger] m.children[i].item,
            ) && heap_ordered(m.children[i]) by {
                if item_lt(a.item, b.item) {
                    if i < a.children.len() {
                        assert(m.children[i] == a.children[i]);
                    }
                } else {
                    if i < b.children.len() {
                        assert(m.children[i] == b.children[i]);
                    }
                }
            }
        }
    }
}

/// In a heap-ordered tree the root's item is at most every item of the tree.
pub proof fn law_root_is_min<T: Ord>(t: Tree<T>, x: T)
    requires
        lawful_order::<T>(),
        heap_ordered(t),
        items(t).contains(x),
    ensures
        item_le(t.item, x),
    decreases t, 0nat,
{
    if x == t.item {
        lemma_le_refl(x);
    } else {
        assert(forest_items(t.children).contains(x));
        lemma_forest_bound(t.item, t.children, x);
    }
}

/// An item of a forest of heap-ordered trees whose roots are all at least `p`
/// is at least `p`.
pub proof fn lemma_forest_bound<T: Ord>(p: T, s: Seq<Tree<T>>, x: T)
    requires
        lawful_order::<T>(),
        forall|i: int|
            #![trigger s[i]]
            0 <= i < s.len() ==> item_le(p, s[i].item) && heap_ordered(s[i]),
        forest_items(s).contains(x),
    ensures
        item_le(p, x),
    decreases s, 1nat,
{
    if s.len() == 0 {
    } else {
        let last = s.last();
        assert(item_le(p, s[s.len() - 1].item) && heap_ordered(s[s.len() - 1]));
        if forest_items(s.drop_last()).contains(x) {
            assert forall|i: int|
                #![trigger s.drop_last()[i]]
                0 <= i < s.drop_last().len() implies item_le(p, s.drop_last()[i].item)
                && heap_ordered(s.drop_last()[i]) by {
                assert(s.drop_last()[i] == s[i]);
            }
            lemma_forest_bound(p, s.drop_last(), x);
        } else {
            assert(items(last).contains(x));
            law_root_is_min(last, x);
            lemma_le_trans(p, last.item, x);
        }
    }
}

/// Corrupting a tree hands out the items it removes and keeps the rest: the
/// items left plus the corrupted ones are the tree's items, the pool counts
/// add up as before, and a heap-ordered tree stays heap-ordered with a root no
/// smaller than before.
pub proof fn law_corrupt<T: Ord>(t: Tree<T>, every: nat)
    ensures
        items(corrupt_tree(t, every).0).add(corrupt_tree(t, every).1.to_multiset()) == items(t),
        pooled(corrupt_tree(t, every).0) == pooled(t),
        size(corrupt_tree(t, every).0) + corrupt_tree(t, every).1.len() == size(t),
        lawful_order::<T>() && heap_ordered(t) ==> heap_ordered(corrupt_tree(t, every).0)
            && item_le(t.item, corrupt_tree(t, every).0.item),
    decreases size(t), 0nat, 0nat,
{
    lemma_queue_of(t.children);
    let q = queue_of(t.children);
    law_merge(q, every);
    let (r, rs) = merge_queue(q, every);
    let (c, cs) = corrupt_tree(t, every);
    match r {
        None => {
            assert(t.children =~= Seq::<Tree<T>>::empty());
            assert(c.children =~= t.children);
            assert(rs.to_multiset() =~= Multiset::empty());
            assert(items(c) =~= items(t));
            if lawful_order::<T>() {
                lemma_le_refl(t.item);
            }
        },
        Some(p) => {
            assert(items(c) == items(p));
            assert(items(c).add(cs.to_multiset()) =~= items(t));
            if lawful_order::<T>() && heap_ordered(t) {
                assert(heap_ordered(c));
                assert(items(p).contains(p.item));
                assert(forest_items(t.children).contains(p.item));
                lemma_forest_bound(t.item, t.children, p.item);
            }
        },
    }
}

/// Merging a work queue keeps every node's item: the merged tree's items plus
/// the corrupted ones are the queue's items; pool counts add up as before; the
/// result is absent exactly when the queue is empty; heap-ordered trees merge
/// into a heap-ordered tree.
pub proof fn law_merge<T: Ord>(q: Seq<(Tree<T>, nat)>, every: nat)
    ensures
        opt_items(merge_queue(q, every).0).add(merge_queue(q, every).1.to_multiset())
            == forest_items(queue_trees(q)),
        opt_pooled(merge_queue(q, every).0) == forest_pooled(queue_trees(q)),
        opt_size(merge_queue(q, every).0) + merge_queue(q, every).1.len() == forest_size(
            queue_trees(q),
        ),
        merge_queue(q, every).0 is Some <==> q.len() > 0,
        lawful_order::<T>() && forest_heap_ordered(queue_trees(q)) && merge_queue(q, every).0 is Some
            ==> heap_ordered(merge_queue(q, every).0->0),
    decreases forest_size(queue_trees(q)), 1nat, q.len(),
{
    let (r, rs) = merge_queue(q, every);
    if q.len() == 0 {
        assert(queue_trees(q) =~= Seq::<Tree<T>>::empty());
        assert(opt_items(r).add(rs.to_multiset()) =~= forest_items(queue_trees(q)));
    } else if q.len() == 1 {
        assert(queue_trees(q) =~= seq![q[0].0]);
        lemma_forest_one(q[0].0);
        assert(opt_items(r).add(rs.to_multiset()) =~= forest_items(queue_trees(q)));
        if forest_heap_ordered(queue_trees(q)) {
            assert(heap_ordered(queue_trees(q)[0]));
        }
    } else {
        let a = q[0].0;
        let b = q[1].0;
        let m = meld(a, b);
        let level = q[1].1;
        let rest = q.skip(2);
        lemma_queue_front(q);
        law_meld(a, b);
        let heaps = lawful_order::<T>() && forest_heap_ordered(queue_trees(q));
        if heaps {
            assert(heap_ordered(queue_trees(q)[0]));
            assert(heap_ordered(queue_trees(q)[1]));
        }
        let e = if level == every {
            law_corrupt(m, every);
            (corrupt_tree(m, every).0, level + 1)
        } else {
            (m, level + 1)
        };
        let q2 = rest.push(e);
        lemma_queue_push(rest, e);
        law_merge(q2, every);
        if heaps {
            assert forall|i: int| 0 <= i < queue_trees(q2).len() implies heap_ordered(
                #[trigger] queue_trees(q2)[i],
            ) by {
                if i < rest.len() {
                    assert(queue_trees(q2)[i] == queue_trees(q)[i + 2]);
                }
            }
        }
        if level == every {
            let cs = corrupt_tree(m, every).1;
            let (r2, rs2) = merge_queue(q2, every);
            assert(rs == cs + rs2);
            vstd::seq_lib::lemma_multiset_commutative(cs, rs2);
            let c = corrupt_tree(m, every).0;
            assert(r == r2);
            assert(items(c).add(cs.to_multiset()) == items(a).add(items(b)));
            assert(opt_items(r2).add(rs2.to_multiset()) == forest_items(queue_trees(rest)).add(items(c)));
            assert(forest_items(queue_trees(q)) == items(a).add(items(b)).add(forest_items(queue_trees(rest))));
            assert forall|x: T| #[trigger] opt_items(r).add(rs.to_multiset()).count(x)
                == forest_items(queue_trees(q)).count(x) by {
                assert(items(c).add(cs.to_multiset()).count(x) == items(a).add(items(b)).count(x));
                assert(opt_items(r2).add(rs2.to_multiset()).count(x)
                    == forest_items(queue_trees(rest)).add(items(c)).count(x));
            }
            assert(opt_items(r).add(rs.to_multiset()) =~= forest_items(queue_trees(q)));
        } else {
            assert(opt_items(r).add(rs.to_multiset()) =~= forest_items(queue_trees(q)));
        }
    }
}

/// A tree holds one item per node.
pub proof fn law_items_len<T>(t: Tree<T>)
    ensures
        items(t).len() == size(t),
    decreases t, 0nat,
{
    lemma_forest_items_len(t.children);
}

/// A sequence of trees holds one item per node.
pub proof fn lemma_forest_items_len<T>(s: Seq<Tree<T>>)
    ensures
        forest_items(s).len() == forest_size(s),
    decreases s, 1nat,
{
    if s.len() > 0 {
        lemma_forest_items_len(s.drop_last());
        law_items_len(s.last());
    }
}

/// Inserting adds exactly the new item: one more node, the same pooled count,
/// and heap order is kept.
pub proof fn law_insert<T: Ord>(h: Option<Tree<T>>, x: T)
    ensures
        items(heap_insert(h, x)) == opt_items(h).insert(x),
        size(heap_insert(h, x)) == opt_size(h) + 1,
        pooled(heap_insert(h, x)) == opt_pooled(h),
        lawful_order::<T>() && (h matches Some(t) ==> heap_ordered(t)) ==> heap_ordered(
            heap_insert(h, x),
        ),
{
    let one = singleton(x);
    assert(one.children =~= Seq::<Tree<T>>::empty());
    assert(items(one) =~= Multiset::empty().insert(x));
    match h {
        None => {},
        Some(t) => {
            law_meld(t, one);
            assert(items(heap_insert(h, x)) =~= opt_items(h).insert(x));
        },
    }
}

/// Deleting the minimum of a tree: with a nonempty pool, only the pool
/// shrinks; otherwise the root's item goes, and the items left plus the
/// corrupted ones are the other items. Pool counts are kept (less the one
/// deleted), and heap order is kept.
pub proof fn law_delete_min<T: Ord>(t: Tree<T>, every: nat)
    ensures
        t.count > 0 ==> delete_min_tree(t, every).0 == Some(
            Tree { item: t.item, count: (t.count - 1) as nat, children: t.children },
        ) && delete_min_tree(t, every).1 == Seq::<T>::empty(),
        t.count > 0 ==> opt_pooled(delete_min_tree(t, every).0) + 1 == pooled(t),
        t.count == 0 ==> opt_items(delete_min_tree(t, every).0).add(
            delete_min_tree(t, every).1.to_multiset(),
        ) == items(t).remove(t.item),
        t.count == 0 ==> opt_size(delete_min_tree(t, every).0) + delete_min_tree(t, every).1.len()
            + 1 == size(t),
        t.count == 0 ==> opt_pooled(delete_min_tree(t, every).0) == pooled(t),
        t.count == 0 ==> (delete_min_tree(t, every).0 is None <==> t.children.len() == 0),
        opt_size(delete_min_tree(t, every).0) + opt_pooled(delete_min_tree(t, every).0) < size(t)
            + pooled(t),
        lawful_order::<T>() && heap_ordered(t) && delete_min_tree(t, every).0 is Some
            ==> heap_ordered(delete_min_tree(t, every).0->0) && item_le(
            t.item,
            delete_min_tree(t, every).0->0.item,
        ),
        lawful_order::<T>() && heap_ordered(t) ==> forall|i: int|
            0 <= i < delete_min_tree(t, every).1.len() ==> item_le(
                t.item,
                #[trigger] delete_min_tree(t, every).1[i],
            ),
{
    if t.count == 0 {
        let (r, cs) = delete_min_tree(t, every);
        lemma_queue_of(t.children);
        law_merge(queue_of(t.children), every);
        assert(items(t).remove(t.item) =~= forest_items(t.children));
        if lawful_order::<T>() && heap_ordered(t) {
            assert forall|i: int| 0 <= i < queue_trees(queue_of(t.children)).len() implies heap_ordered(
                #[trigger] queue_trees(queue_of(t.children))[i],
            ) by {
                assert(queue_trees(queue_of(t.children))[i] == t.children[i]);
            }
            assert forall|i: int| 0 <= i < cs.len() implies item_le(t.item, #[trigger] cs[i]) by {
                assert(cs.to_multiset().contains(cs[i]));
                assert(forest_items(t.children).contains(cs[i]));
                lemma_forest_bound(t.item, t.children, cs[i]);
            }
            if r is Some {
                let p = r->0;
                assert(items(p).contains(p.item));
                assert(forest_items(t.children).contains(p.item));
                lemma_forest_bound(t.item, t.children, p.item);
            }
        }
    } else {
        if lawful_order::<T>() {
            lemma_le_refl(t.item);
        }
    }
}

/// Deleting the minimum of a soft heap: the rest is heap-ordered, its root
/// and every corrupted item are at least the deleted root, and the nodes plus
/// the pooled counts strictly decrease, so repeated deletion empties the heap.
pub proof fn law_heap_delete_min<T: Ord>(h: Option<Tree<T>>, every: nat)
    ensures
        opt_size(heap_delete_min(h, every).0) + opt_pooled(heap_delete_min(h, every).0)
            <= opt_size(h) + opt_pooled(h),
        h is Some ==> opt_size(heap_delete_min(h, every).0) + opt_pooled(
            heap_delete_min(h, every).0,
        ) < opt_size(h) + opt_pooled(h),
        lawful_order::<T>() && h is Some && heap_ordered(h->0) ==> {
            &&& (heap_delete_min(h, every).0 matches Some(r) ==> heap_ordered(r) && item_le(
                h->0.item,
                r.item,
            ))
            &&& forall|i: int|
                0 <= i < heap_delete_min(h, every).1.len() ==> item_le(
                    h->0.item,
                    #[trigger] heap_delete_min(h, every).1[i],
                )
        },
{
    if let Some(t) = h {
        law_delete_min(t, every);
    }
}

/// An item of a sequence of trees is an item of one of the trees.
pub proof fn lemma_forest_member<T>(s: Seq<Tree<T>>, x: T)
    requires
        forest_items(s).contains(x),
    ensures
        exists|j: int| 0 <= j < s.len() && #[trigger] items(s[j]).contains(x),
    decreases s.len(),
{
    if s.len() > 0 {
        if forest_items(s.drop_last()).contains(x) {
            lemma_forest_member(s.drop_last(), x);
            let j = choose|j: int| 0 <= j < s.drop_last().len() && #[trigger] items(s.drop_last()[j]).contains(x);
            assert(s[j] == s.drop_last()[j]);
        } else {
            assert(items(s[s.len() - 1]).contains(x));
        }
    }
}

/// Merging a sequence of trees keeps every item: the merged tree's items plus
/// the corrupted ones are the trees' items; node and pool counts add up; the
/// result is absent exactly when there are no trees; heap-ordered trees merge
/// into a heap-ordered tree whose root is at least the root of one of them, so
/// at least the smallest root.
pub proof fn law_merge_children<T: Ord>(s: Seq<Tree<T>>, every: nat)
    ensures
        opt_items(merge_forest(s, every).0).add(merge_forest(s, every).1.to_multiset())
            == forest_items(s),
        opt_size(merge_forest(s, every).0) + merge_forest(s, every).1.len() == forest_size(s),
        opt_pooled(merge_forest(s, every).0) == forest_pooled(s),
        merge_forest(s, every).0 is Some <==> s.len() > 0,
        lawful_order::<T>() && forest_heap_ordered(s) && merge_forest(s, every).0 is Some ==> {
            &&& heap_ordered(merge_forest(s, every).0->0)
            &&& exists|j: int|
                0 <= j < s.len() && item_le(#[trigger] s[j].item, merge_forest(s, every).0->0.item)
        },
{
    lemma_queue_of(s);
    law_merge(queue_of(s), every);
    let (r, cs) = merge_forest(s, every);
    if lawful_order::<T>() && forest_heap_ordered(s) && r is Some {
        let p = r->0;
        assert(items(p).contains(p.item));
        assert(forest_items(s).contains(p.item));
        lemma_forest_member(s, p.item);
        let j = choose|j: int| 0 <= j < s.len() && #[trigger] items(s[j]).contains(p.item);
        law_root_is_min(s[j], p.item);
    }
}

/// A soft heap built from the empty heap by any run of inserts and
/// delete-mins is heap-ordered, every pool in it is empty (its pooled count
/// is 0), and its minimum can be deleted.
pub proof fn law_built_heap<T: Ord>(ops: Seq<HeapOp<T>>, every: nat)
    requires
        lawful_order::<T>(),
    ensures
        run_ops(ops, every) matches Some(t) ==> heap_ordered(t) && pooled(t) == 0,
        can_delete_min(run_ops(ops, every), every),
    decreases ops.len(),
{
    if ops.len() > 0 {
        let h = run_ops(ops.drop_last(), every);
        law_built_heap(ops.drop_last(), every);
        match ops.last() {
            HeapOp::Insert(x) => {
                law_insert(h, x);
            },
            HeapOp::DeleteMin => {
                if let Some(t) = h {
                    law_delete_min(t, every);
                }
            },
        }
    }
    if let Some(t) = run_ops(ops, every) {
        law_heap_ordered_can_delete_min(t, every);
    }
}

/// The item that `delete_min` removes from a heap-ordered tree with an empty
/// pool is a minimum: at most every item of the tree.
pub proof fn law_delete_min_removes_minimum<T: Ord>(t: Tree<T>, x: T)
    requires
        lawful_order::<T>(),
        heap_ordered(t),
        items(t).contains(x),
    ensures
        item_le(t.item, x),
{
    law_root_is_min(t, x);
}

/// Pre-order lists every item of a sequence of trees exactly once.
pub proof fn law_pre_order<T>(q: Seq<Tree<T>>)
    ensures
        pre_order(q).to_multiset() == forest_items(q),
        pre_order(q).len() == forest_size(q),
    decreases forest_size(q),
{
    if q.len() == 0 {
        assert(pre_order(q).to_multiset() =~= forest_items(q));
    } else {
        let next = q[0].children + q.drop_first();
        lemma_forest_size_pop_front(q);
        law_pre_order(next);
        lemma_forest_items_concat(q[0].children, q.drop_first());
        lemma_forest_items_concat(seq![q[0]], q.drop_first());
        assert(seq![q[0]] + q.drop_first() =~= q);
        lemma_forest_one(q[0]);
        vstd::seq_lib::lemma_multiset_commutative(seq![q[0].item], pre_order(next));
        assert(seq![q[0].item].to_multiset() =~= Multiset::empty().insert(q[0].item)) by {
            assert(seq![q[0].item] =~= Seq::<T>::empty().push(q[0].item));
        }
        assert(pre_order(q).to_multiset() =~= forest_items(q));
    }
}

/// Pre-order of one tree lists each of its items once: as many items as
/// nodes.
pub proof fn law_pre_order_of_tree<T>(t: Tree<T>)
    ensures
        pre_order(seq![t]).to_multiset() == items(t),
        pre_order(seq![t]).len() == size(t),
{
    law_pre_order(seq![t]);
    lemma_forest_one(t);
}

/// Every heap-ordered tree whose pools fit in a `usize` can have its minimum
/// deleted.
pub proof fn law_heap_ordered_can_delete_min<T: Ord>(t: Tree<T>, every: nat)
    requires
        heap_ordered(t),
        pooled(t) <= usize::MAX,
    ensures
        can_delete_min(Some(t), every),
{
    assert forall|i: int| 0 <= i < t.children.len() implies heap_ordered(#[trigger] t.children[i]) by {}
}

/// A work queue whose links cannot reach the corrupting level merges without
/// corrupting anything, into a tree whose root is at most every tree's root.
pub proof fn lemma_merge_below_level<T: Ord>(q: Seq<(Tree<T>, nat)>, every: nat)
    requires
        forall|j: int| 0 <= j < q.len() ==> #[trigger] q[j].1 + q.len() <= every + 1,
    ensures
        merge_queue(q, every).1 == Seq::<T>::empty(),
        q.len() > 0 ==> merge_queue(q, every).0 is Some,
        lawful_order::<T>() && q.len() > 0 ==> forall|j: int|
            0 <= j < q.len() ==> item_le(merge_queue(q, every).0->0.item, #[trigger] q[j].0.item),
    decreases q.len(),
{
    if q.len() == 1 {
        if lawful_order::<T>() {
            lemma_le_refl(q[0].0.item);
        }
    } else if q.len() >= 2 {
        let a = q[0].0;
        let b = q[1].0;
        let m = meld(a, b);
        let level = q[1].1;
        assert(level + q.len() <= every + 1);
        let q2 = q.skip(2).push((m, level + 1));
        assert forall|j: int| 0 <= j < q2.len() implies #[trigger] q2[j].1 + q2.len() <= every + 1 by {
            if j < q.len() - 2 {
                assert(q2[j] == q[j + 2]);
            }
        }
        lemma_merge_below_level(q2, every);
        law_meld(a, b);
        if lawful_order::<T>() {
            let r = merge_queue(q, every).0->0;
            assert(merge_queue(q, every) == merge_queue(q2, every));
            assert forall|j: int| 0 <= j < q.len() implies item_le(r.item, #[trigger] q[j].0.item) by {
                if j < 2 {
                    assert(q2[q2.len() - 1].0 == m);
                    lemma_le_trans(r.item, m.item, q[j].0.item);
                } else {
                    assert(q2[j - 2] == q[j]);
                }
            }
        }
    }
}

/// Merging at most `every + 1` trees corrupts nothing, and the merged root is
/// at most every tree's root.
pub proof fn law_merge_few<T: Ord>(s: Seq<Tree<T>>, every: nat)
    requires
        s.len() <= every + 1,
    ensures
        merge_forest(s, every).1 == Seq::<T>::empty(),
        s.len() > 0 ==> merge_forest(s, every).0 is Some,
        lawful_order::<T>() && s.len() > 0 ==> forall|j: int|
            0 <= j < s.len() ==> item_le(merge_forest(s, every).0->0.item, #[trigger] s[j].item),
{
    let q = queue_of(s);
    lemma_queue_of(s);
    assert forall|j: int| 0 <= j < q.len() implies #[trigger] q[j].1 + q.len() <= every + 1 by {}
    lemma_merge_below_level(q, every);
    if lawful_order::<T>() && s.len() > 0 {
        assert forall|j: int| 0 <= j < s.len() implies item_le(
            merge_forest(s, every).0->0.item,
            #[trigger] s[j].item,
        ) by {
            assert(q[j].0 == s[j]);
        }
    }
}

// ---------------------------------------------------------------------------
// How the operations are built from one another

/// Linking: the root whose item is strictly smaller (on a tie, `b`'s) stays
/// on top with its pool and its children, and the other tree is appended as
/// its last child.
pub proof fn law_meld_links<T: Ord>(a: Tree<T>, b: Tree<T>)
    ensures
        item_lt(a.item, b.item) ==> meld(a, b).item == a.item && meld(a, b).count == a.count
            && meld(a, b).children.len() == a.children.len() + 1 && meld(a, b).children.drop_last()
            == a.children && meld(a, b).children.last() == b,
        !item_lt(a.item, b.item) ==> meld(a, b).item == b.item && meld(a, b).count == b.count
            && meld(a, b).children.len() == b.children.len() + 1 && meld(a, b).children.drop_last()
            == b.children && meld(a, b).children.last() == a,
{
    assert(a.children.push(b).drop_last() =~= a.children);
    assert(b.children.push(a).drop_last() =~= b.children);
}

/// A one-node heap holds its item with an empty pool; inserting links the heap
/// with the one-node heap of the new item.
pub proof fn law_insert_links<T: Ord>(h: Option<Tree<T>>, x: T)
    ensures
        singleton(x).item == x,
        singleton(x).count == 0,
        singleton(x).children.len() == 0,
        h is None ==> heap_insert(h, x) == singleton(x),
        h matches Some(t) ==> heap_insert(h, x) == meld(t, singleton(x)),
{
}

/// Merging a sequence of trees starts from the work queue of those trees,
/// each at level 0, in order.
pub proof fn law_merge_children_starts_at_level_zero<T: Ord>(s: Seq<Tree<T>>, every: nat)
    ensures
        merge_forest(s, every) == merge_queue(
            Seq::new(s.len(), |i: int| (s[i], 0nat)),
            every,
        ),
{
    assert(queue_of(s) =~= Seq::new(s.len(), |i: int| (s[i], 0nat)));
}

/// Merging a work queue: no trees give nothing; one tree is the result; with
/// two or more, the two front trees are linked, and the link goes to the back
/// of the queue at one more than the level of the second tree. A link made
/// when that level is `every` is corrupted first, and the items it hands out
/// come before those of the rest of the merge.
pub proof fn law_merge_step<T: Ord>(q: Seq<(Tree<T>, nat)>, every: nat)
    ensures
        q.len() == 0 ==> merge_queue(q, every) == (None::<Tree<T>>, Seq::<T>::empty()),
        q.len() == 1 ==> merge_queue(q, every) == (Some(q[0].0), Seq::<T>::empty()),
        q.len() >= 2 && q[1].1 != every ==> merge_queue(q, every) == merge_queue(
            q.skip(2).push((meld(q[0].0, q[1].0), q[1].1 + 1)),
            every,
        ),
        q.len() >= 2 && q[1].1 == every ==> ({
            let c = corrupt_tree(meld(q[0].0, q[1].0), every);
            let rest = merge_queue(q.skip(2).push((c.0, q[1].1 + 1)), every);
            merge_queue(q, every) == (rest.0, c.1 + rest.1)
        }),
        q.len() >= 2 && q[1].1 == every ==> merge_queue(q, every).1.len() > 0,
{
    if q.len() >= 2 && q[1].1 == every {
        let m = meld(q[0].0, q[1].0);
        law_corrupt(m, every);
        law_corrupt_merges_children(m, every);
        law_meld_links(q[0].0, q[1].0);
    }
}

/// Corrupting a node merges its children exactly as `merge_children` does: a
/// node without children is kept as it is; otherwise the merged tree takes the
/// node's place with the node's pool added to its own, and the items handed
/// out are those the merge hands out, then the node's own item.
pub proof fn law_corrupt_merges_children<T: Ord>(t: Tree<T>, every: nat)
    ensures
        t.children.len() == 0 ==> corrupt_tree(t, every) == (t, Seq::<T>::empty()),
        t.children.len() > 0 ==> merge_forest(t.children, every).0 is Some && ({
            let m = merge_forest(t.children, every);
            let p = m.0->0;
            &&& corrupt_tree(t, every).0 == Tree { item: p.item, count: p.count + t.count, children: p.children }
            &&& corrupt_tree(t, every).1 == m.1.push(t.item)
        }),
{
    lemma_queue_of(t.children);
    law_merge(queue_of(t.children), every);
    if t.children.len() == 0 {
        assert(t.children =~= Seq::<Tree<T>>::empty());
        assert(queue_of(t.children) =~= Seq::<(Tree<T>, nat)>::empty());
    }
}

/// Deleting the minimum of a node with an empty pool gives exactly what
/// `merge_children` gives for the node's children: the merged tree and the
/// items it hands out. With a nonempty pool, only the pool shrinks by one.
pub proof fn law_delete_min_merges_children<T: Ord>(t: Tree<T>, every: nat)
    ensures
        t.count == 0 ==> delete_min_tree(t, every) == merge_forest(t.children, every),
        t.count > 0 ==> delete_min_tree(t, every) == (
            Some(Tree { item: t.item, count: (t.count - 1) as nat, children: t.children }),
            Seq::<T>::empty(),
        ),
        heap_delete_min(None::<Tree<T>>, every) == (None::<Tree<T>>, Seq::<T>::empty()),
        heap_delete_min(Some(t), every) == delete_min_tree(t, every),
{
}

/// Pre-order of a sequence of trees is the pre-order of each tree in turn.
pub proof fn law_pre_order_concat<T>(s1: Seq<Tree<T>>, s2: Seq<Tree<T>>)
    ensures
        pre_order(s1 + s2) == pre_order(s1) + pre_order(s2),
    decreases forest_size(s1),
{
    if s1.len() == 0 {
        assert(s1 + s2 =~= s2);
        assert(pre_order(s1) =~= Seq::<T>::empty());
        assert(pre_order(s1) + pre_order(s2) =~= pre_order(s2));
    } else {
        let next = s1[0].children + s1.drop_first();
        lemma_forest_size_pop_front(s1);
        law_pre_order_concat(next, s2);
        assert((s1 + s2)[0] == s1[0]);
        assert((s1 + s2).drop_first() =~= s1.drop_first() + s2);
        assert(s1[0].children + (s1.drop_first() + s2) =~= next + s2);
        assert(pre_order(s1 + s2) =~= pre_order(s1) + pre_order(s2));
    }
}

/// Pre-order of one tree: its root's item, then the pre-order of each child's
/// subtree in turn.
pub proof fn law_pre_order_node<T>(t: Tree<T>)
    ensures
        pre_order(seq![t]) == seq![t.item] + pre_order(t.children),
{
    let s = seq![t];
    lemma_forest_size_pop_front(s);
    assert(s[0].children + s.drop_first() =~= t.children);
}

} // verus!
