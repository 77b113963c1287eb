//! Soft heaps based on pairing heaps: a pool of corrupted count at each node,
//! multipass merging of a root's children, and a corruption step at a fixed
//! merge level.
use vstd::prelude::*;
use std::collections::VecDeque;
use vstd::std_specs::convert::FromSpecImpl;
use crate::order::{lawful_order, less_than, less_eq, item_le};
use crate::tree::{
    Tree, size, forest_size, pooled, forest_pooled, heap_ordered, forest_heap_ordered, singleton,
    meld, queue_of, queue_trees, corrupt_tree, merge_queue, merge_forest, delete_min_tree,
    pre_order, opt_pooled, opt_size, tree_cloned, heap_insert, heap_delete_min, can_delete_min,
    lemma_queue_front, lemma_queue_push, lemma_queue_of, lemma_forest_size_concat,
    lemma_forest_pooled_concat, lemma_forest_push, lemma_forest_size_pop_front,
};
use crate::laws::{law_meld, law_corrupt, law_merge};

verus! {

/// An item of the heap together with the number of corrupted elements pooled
/// with it.
#[derive(Debug, PartialEq, Eq, PartialOrd, Ord)]
pub struct Pool<T> {
    pub item: T,
    pub count: usize,
}

impl<T> Pool<T> {
    /// A pool holding `item` and nothing corrupted.
    pub fn new(item: T) -> (r: Self)
        ensures
            r.item == item,
            r.count == 0,
    {
        Pool { item, count: 0 }
    }

    /// One corrupted element fewer; `None` when the pool is empty.
    #[must_use]
    pub fn delete_one(self) -> (r: Option<Self>)
        ensures
            self.count == 0 ==> r is None,
            self.count > 0 ==> r == Some(Pool { item: self.item, count: (self.count - 1) as usize }),
    {
        match self.count.checked_sub(1) {
            None => None,
            Some(count) => Some(Pool { item: self.item, count }),
        }
    }

    /// Adds `count` corrupted elements to the pool.
    #[must_use]
    pub fn add_to_pool(self, count: usize) -> (r: Self)
        requires
            self.count + count <= usize::MAX,
        ensures
            r.item == self.item,
            r.count == self.count + count,
    {
        Pool { item: self.item, count: self.count + count }
    }
}

impl<T: Clone> Clone for Pool<T> {
    fn clone(&self) -> (r: Self)
        ensures
            r.count == self.count,
            cloned(self.item, r.item),
    {
        Pool { item: self.item.clone(), count: self.count }
    }
}

/// A node of a soft pairing heap: its pool and its subtrees.
#[derive(Debug, PartialEq, Eq, PartialOrd, Ord)]
pub struct Pairing<const CORRUPT_EVERY_N: usize, T> {
    pub key: Pool<T>,
    pub children: Vec<Pairing<CORRUPT_EVERY_N, T>>,
}

/// The model of a node.
pub open spec fn tree_of<const N: usize, T>(p: Pairing<N, T>) -> Tree<T>
    decreases p,
{
    Tree { item: p.key.item, count: p.key.count as nat, children: forest_of(p.children@) }
}

/// The models of a sequence of nodes.
pub open spec fn forest_of<const N: usize, T>(s: Seq<Pairing<N, T>>) -> Seq<Tree<T>>
    decreases s,
{
    if s.len() == 0 {
        Seq::empty()
    } else {
        forest_of(s.drop_last()).push(tree_of(s.last()))
    }
}

impl<const N: usize, T> View for Pairing<N, T> {
    type V = Tree<T>;

    open spec fn view(&self) -> Tree<T> {
        tree_of(*self)
    }
}

/// The model of a node that may be absent.
pub open spec fn opt_tree_of<const N: usize, T>(p: Option<Pairing<N, T>>) -> Option<Tree<T>> {
    match p {
        None => None,
        Some(p) => Some(tree_of(p)),
    }
}

/// The model of a merge work queue: each node with its level.
pub open spec fn queue_view<const N: usize, T>(d: Seq<(Pairing<N, T>, usize)>) -> Seq<(Tree<T>, nat)> {
    d.map_values(|e: (Pairing<N, T>, usize)| (tree_of(e.0), e.1 as nat))
}

impl<const N: usize, T: Clone> Clone for Pairing<N, T> {
    fn clone(&self) -> (r: Self)
        ensures
            tree_cloned(self@, r@),
        decreases self,
    {
        proof {
            lemma_forest_of(self.children@);
        }
        let mut children: Vec<Pairing<N, T>> = Vec::new();
        let mut i: usize = 0;
        while i < self.children.len()
            invariant
                i <= self.children@.len(),
                children@.len() == i,
                forall|j: int|
                    0 <= j < i ==> tree_cloned(
                        tree_of(#[trigger] self.children@[j]),
                        tree_of(children@[j]),
                    ),
            decreases self.children@.len() - i,
        {
            let c = self.children[i].clone();
            children.push(c);
            i = i + 1;
        }
        let r = Pairing { key: self.key.clone(), children };
        proof {
            lemma_forest_of(r.children@);
            assert forall|j: int| 0 <= j < self@.children.len() implies tree_cloned(
                #[trigger] self@.children[j],
                r@.children[j],
            ) by {
                assert(self@.children[j] == tree_of(self.children@[j]));
            }
        }
        r
    }
}

/// The models of a sequence of nodes are the nodes' models, one by one.
pub proof fn lemma_forest_of<const N: usize, T>(s: Seq<Pairing<N, T>>)
    ensures
        forest_of(s).len() == s.len(),
        forall|i: int| 0 <= i < s.len() ==> #[trigger] forest_of(s)[i] == tree_of(s[i]),
    decreases s.len(),
{
    if s.len() > 0 {
        lemma_forest_of(s.drop_last());
    }
}

/// The measures of the models of a prefix are bounded by those of the whole.
pub proof fn lemma_forest_of_prefix<const N: usize, T>(s: Seq<Pairing<N, T>>, k: int)
    requires
        0 <= k <= s.len(),
    ensures
        forest_size(forest_of(s.take(k))) <= forest_size(forest_of(s)),
        forest_pooled(forest_of(s.take(k))) <= forest_pooled(forest_of(s)),
{
    let f = forest_of(s);
    lemma_forest_of(s);
    lemma_forest_of(s.take(k));
    assert(forest_of(s.take(k)) =~= f.take(k));
    assert(f =~= f.take(k) + f.skip(k));
    lemma_forest_size_concat(f.take(k), f.skip(k));
    lemma_forest_pooled_concat(f.take(k), f.skip(k));
}

/// The models of a prefix grown by one node.
pub proof fn lemma_forest_of_take<const N: usize, T>(s: Seq<Pairing<N, T>>, i: int)
    requires
        0 <= i < s.len(),
    ensures
        forest_of(s.take(i + 1)) == forest_of(s.take(i)).push(tree_of(s[i])),
{
    assert(s.take(i + 1).drop_last() =~= s.take(i));
}

/// A heap of one node with the given pool.
impl<const N: usize, T> From<Pool<T>> for Pairing<N, T> {
    fn from(key: Pool<T>) -> (r: Self)
        ensures
            r.key == key,
            r.children@.len() == 0,
    {
        Self { key, children: Vec::new() }
    }
}

impl<const N: usize, T> FromSpecImpl<Pool<T>> for Pairing<N, T> {
    open spec fn obeys_from_spec() -> bool {
        false
    }

    open spec fn from_spec(v: Pool<T>) -> Self {
        arbitrary()
    }
}

impl<const N: usize, T> Pairing<N, T> {
    /// A heap of one node holding `item`, with an empty pool.
    pub fn new(item: T) -> (r: Self)
        ensures
            r@ == singleton(item),
    {
        let r = Self::from(Pool::new(item));
        proof {
            assert(r.children@ =~= Seq::empty());
            assert(forest_of(r.children@) =~= Seq::<Tree<T>>::empty());
        }
        r
    }

    /// The number of corrupted elements pooled in the heap.
    pub fn count_corrupted(&self) -> (r: usize)
        requires
            pooled(self@) <= usize::MAX,
        ensures
            r == pooled(self@),
        decreases self,
    {
        let ghost t = self@;
        let mut sum: usize = 0;
        let mut i: usize = 0;
        while i < self.children.len()
            invariant
                t == self@,
                pooled(t) <= usize::MAX,
                i <= self.children@.len(),
                sum == forest_pooled(forest_of(self.children@.take(i as int))),
            decreases self.children@.len() - i,
        {
            proof {
                lemma_forest_of_take(self.children@, i as int);
                lemma_forest_of_prefix(self.children@, i + 1);
                lemma_forest_push(forest_of(self.children@.take(i as int)), tree_of(self.children@[i as int]));
                assert(t.children == forest_of(self.children@));
            }
            let c = self.children[i].count_corrupted();
            sum = sum + c;
            i = i + 1;
        }
        proof {
            assert(self.children@.take(i as int) =~= self.children@);
        }
        self.key.count + sum
    }

    /// The number of nodes in the heap: the elements that are not corrupted.
    pub fn count_uncorrupted(&self) -> (r: usize)
        requires
            size(self@) <= usize::MAX,
        ensures
            r == size(self@),
        decreases self,
    {
        let ghost t = self@;
        let mut sum: usize = 0;
        let mut i: usize = 0;
        while i < self.children.len()
            invariant
                t == self@,
                size(t) <= usize::MAX,
                i <= self.children@.len(),
                sum == forest_size(forest_of(self.children@.take(i as int))),
            decreases self.children@.len() - i,
        {
            proof {
                lemma_forest_of_take(self.children@, i as int);
                lemma_forest_of_prefix(self.children@, i + 1);
                lemma_forest_push(forest_of(self.children@.take(i as int)), tree_of(self.children@[i as int]));
                assert(t.children == forest_of(self.children@));
            }
            let c = self.children[i].count_uncorrupted();
            sum = sum + c;
            i = i + 1;
        }
        proof {
            assert(self.children@.take(i as int) =~= self.children@);
        }
        1 + sum
    }
}

impl<const CORRUPT_EVERY_N: usize, T: Ord> Pairing<CORRUPT_EVERY_N, T> {
    /// Links two heaps: the one with the strictly smaller root item stays on
    /// top (on a tie, `other`), and the other becomes its last child.
    #[must_use]
    pub fn meld(self, other: Pairing<CORRUPT_EVERY_N, T>) -> (r: Pairing<CORRUPT_EVERY_N, T>)
        requires
            lawful_order::<T>(),
        ensures
            r@ == meld(self@, other@),
    {
        let (mut a, b) = if less_than(&self.key.item, &other.key.item) {
            (self, other)
        } else {
            (other, self)
        };
        let ghost a0 = a;
        a.children.push(b);
        proof {
            assert(a.children@.drop_last() =~= a0.children@);
        }
        a
    }

    /// Adds `item` to the heap, as a new node linked with the root.
    #[must_use]
    pub fn insert(self, item: T) -> (r: Self)
        requires
            lawful_order::<T>(),
        ensures
            r@ == meld(self@, singleton(item)),
    {
        let n = Self::new(item);
        self.meld(n)
    }

    /// Corrupts the heap by pooling the top two elements: the root's item is
    /// pushed onto `corrupted`, the root's children are merged, and the root's
    /// pool is added to the pool of the merged root. A node without children is
    /// returned unchanged. The heap must be heap-ordered: the merged root is
    /// never smaller than the root it replaces.
    #[must_use]
    pub fn corrupt(self, corrupted: &mut Vec<T>) -> (r: Self)
        requires
            lawful_order::<T>(),
            heap_ordered(self@),
            pooled(self@) <= usize::MAX,
        ensures
            r@ == corrupt_tree(self@, CORRUPT_EVERY_N as nat).0,
            final(corrupted)@ == old(corrupted)@ + corrupt_tree(self@, CORRUPT_EVERY_N as nat).1,
        decreases size(self@), 0nat,
    {
        let ghost t = self@;
        let ghost every = CORRUPT_EVERY_N as nat;
        let Pairing { key, children } = self;
        proof {
            lemma_queue_of(t.children);
            law_merge(queue_of(t.children), every);
            assert forall|i: int| 0 <= i < t.children.len() implies heap_ordered(
                #[trigger] t.children[i],
            ) by {}
        }
        match Self::merge_children(children, corrupted) {
            None => {
                let r = Pairing::from(key);
                proof {
                    assert(r.children@ =~= Seq::empty());
                    assert(forest_of(r.children@) =~= Seq::<Tree<T>>::empty());
                    assert(corrupted@ =~= old(corrupted)@ + corrupt_tree(t, every).1);
                }
                r
            },
            Some(pairing) => {
                corrupted.push(key.item);
                let r = Pairing { key: pairing.key.add_to_pool(key.count), children: pairing.children };
                proof {
                    assert(corrupted@ =~= old(corrupted)@ + corrupt_tree(t, every).1);
                }
                r
            },
        }
    }

    /// Merges the list of children of a (former) node into one node, by
    /// multipass linking through a work queue; a link made at level
    /// `CORRUPT_EVERY_N` is corrupted, its root item pushed onto `corrupted`.
    /// `None` when there are no children.
    ///
    /// Such a link needs at least `CORRUPT_EVERY_N + 2` trees; with that many,
    /// the trees must be heap-ordered (corrupting needs it) and their pools
    /// must fit in a `usize`.
    #[must_use]
    pub fn merge_children(items: Vec<Self>, corrupted: &mut Vec<T>) -> (r: Option<Self>)
        requires
            lawful_order::<T>(),
            items@.len() >= CORRUPT_EVERY_N + 2 ==> forest_heap_ordered(forest_of(items@))
                && forest_pooled(forest_of(items@)) <= usize::MAX,
        ensures
            opt_tree_of(r) == merge_forest(forest_of(items@), CORRUPT_EVERY_N as nat).0,
            final(corrupted)@ == old(corrupted)@ + merge_forest(
                forest_of(items@),
                CORRUPT_EVERY_N as nat,
            ).1,
        decreases forest_size(forest_of(items@)), 1nat,
    {
        let ghost orig = items@;
        let ghost f0 = forest_of(orig);
        let ghost every = CORRUPT_EVERY_N as nat;
        let ghost target = merge_forest(f0, every);
        proof {
            lemma_forest_of(orig);
        }
        let mut d: VecDeque<(Self, usize)> = VecDeque::with_capacity(items.len());
        let mut pending = items;
        while pending.len() > 0
            invariant
                pending@.len() <= orig.len(),
                pending@ == orig.take(pending@.len() as int),
                d@.len() + pending@.len() == orig.len(),
                forall|j: int|
                    0 <= j < d@.len() ==> #[trigger] d@[j] == (orig[j + pending@.len()], 0usize),
            decreases pending@.len(),
        {
            let x = pending.pop().unwrap();
            proof {
                assert(pending@ =~= orig.take(pending@.len() as int));
            }
            d.push_front((x, 0));
        }
        proof {
            assert(queue_view(d@) =~= queue_of(f0));
            lemma_queue_of(f0);
        }
        let ghost n0 = orig.len() as int;
        // Corrupting links only happen when there are enough trees.
        let ghost strict = n0 >= CORRUPT_EVERY_N + 2;
        loop
            invariant
                lawful_order::<T>(),
                every == CORRUPT_EVERY_N as nat,
                target == merge_forest(f0, every),
                f0 == forest_of(items@),
                merge_queue(queue_view(d@), every).0 == target.0,
                corrupted@ + merge_queue(queue_view(d@), every).1 == old(corrupted)@ + target.1,
                strict == (n0 >= CORRUPT_EVERY_N + 2),
                strict ==> forest_heap_ordered(queue_trees(queue_view(d@))),
                strict ==> forest_pooled(queue_trees(queue_view(d@))) <= usize::MAX,
                forest_size(queue_trees(queue_view(d@))) <= forest_size(f0),
                n0 <= usize::MAX,
                // A tree at level `l` was linked from at least `l + 1` trees.
                forall|j: int| 0 <= j < d@.len() ==> #[trigger] d@[j].1 + d@.len() <= n0,
            decreases d@.len(),
        {
            let ghost d0 = d@;
            let ghost q = queue_view(d@);
            let first = d.pop_front();
            let second = d.pop_front();
            match (first, second) {
                (None, _) => {
                    proof {
                        assert(q.len() == 0);
                        assert(merge_queue(q, every) == (None::<Tree<T>>, Seq::<T>::empty()));
                        assert(corrupted@ =~= old(corrupted)@ + target.1);
                    }
                    return None;
                },
                (Some((a, _)), None) => {
                    proof {
                        assert(q.len() == 1);
                        assert(q[0].0 == a@);
                        assert(merge_queue(q, every) == (Some(a@), Seq::<T>::empty()));
                        assert(corrupted@ =~= old(corrupted)@ + target.1);
                    }
                    return Some(a);
                },
                (Some((a, _)), Some((b, level))) => {
                    let ghost rest = d@;
                    proof {
                        assert(q.len() >= 2);
                        assert(q[0].0 == a@);
                        assert(q[1].0 == b@);
                        assert(q[1].1 == level as nat);
                        lemma_queue_front(q);
                        law_meld(a@, b@);
                        if strict {
                            assert(heap_ordered(queue_trees(q)[0]));
                            assert(heap_ordered(queue_trees(q)[1]));
                        }
                        assert(queue_view(rest) =~= q.skip(2));
                        assert(d0[1].1 + d0.len() <= n0);
                    }
                    let m = a.meld(b);
                    let e;
                    if level == CORRUPT_EVERY_N {
                        proof {
                            assert(strict);
                            law_corrupt(m@, every);
                            assert(size(m@) <= forest_size(f0));
                        }
                        let c = m.corrupt(corrupted);
                        e = (c, level + 1);
                    } else {
                        e = (m, level + 1);
                    }
                    d.push_back(e);
                    proof {
                        let ev = (tree_of(e.0), e.1 as nat);
                        assert(queue_view(d@) =~= q.skip(2).push(ev));
                        lemma_queue_push(q.skip(2), ev);
                        if strict {
                            assert forall|i: int| 0 <= i < queue_trees(queue_view(d@)).len() implies heap_ordered(
                                #[trigger] queue_trees(queue_view(d@))[i],
                            ) by {
                                if i < rest.len() {
                                    assert(queue_trees(queue_view(d@))[i] == queue_trees(q)[i + 2]);
                                }
                            }
                        }
                        assert forall|j: int| 0 <= j < d@.len() implies #[trigger] d@[j].1 + d@.len() <= n0 by {
                            if j < rest.len() {
                                assert(d@[j] == d0[j + 2]);
                            }
                        }
                        if level == CORRUPT_EVERY_N {
                            assert(corrupted@ + merge_queue(queue_view(d@), every).1 =~= old(corrupted)@ + target.1);
                        }
                    }
                },
            }
        }
    }

    /// Deletes the minimum: with a nonempty pool one pooled element goes;
    /// otherwise the root node goes and its children are merged. Returns the
    /// rest of the heap (`None` when it is empty) and the items corrupted.
    /// Merging the children needs what `merge_children` needs of them.
    pub fn delete_min(self) -> (r: (Option<Self>, Vec<T>))
        requires
            lawful_order::<T>(),
            self.key.count == 0 && self.children@.len() >= CORRUPT_EVERY_N + 2
                ==> forest_heap_ordered(self@.children) && forest_pooled(self@.children)
                <= usize::MAX,
        ensures
            opt_tree_of(r.0) == delete_min_tree(self@, CORRUPT_EVERY_N as nat).0,
            r.1@ == delete_min_tree(self@, CORRUPT_EVERY_N as nat).1,
    {
        let mut corrupted = Vec::new();
        let Pairing { key, children } = self;
        (
            match key.delete_one() {
                None => Self::merge_children(children, &mut corrupted),
                Some(key) => {
                    let r = Self { key, children };
                    proof {
                        assert(corrupted@ =~= Seq::empty());
                    }
                    Some(r)
                },
            },
            corrupted,
        )
    }

    /// Whether every node's item is at most the items of its children.
    pub fn check_heap_property(&self) -> (r: bool)
        requires
            lawful_order::<T>(),
        ensures
            r == heap_ordered(self@),
        decreases self,
    {
        let ghost t = self@;
        proof {
            lemma_forest_of(self.children@);
        }
        let mut i: usize = 0;
        while i < self.children.len()
            invariant
                t == self@,
                lawful_order::<T>(),
                i <= self.children@.len(),
                t.children.len() == self.children@.len(),
                forall|j: int|
                    0 <= j < self.children@.len() ==> #[trigger] t.children[j] == tree_of(
                        self.children@[j],
                    ),
                forall|j: int| 0 <= j < i ==> item_le(t.item, #[trigger] t.children[j].item),
            decreases self.children@.len() - i,
        {
            if !less_eq(&self.key.item, &self.children[i].key.item) {
                proof {
                    assert(!item_le(t.item, t.children[i as int].item));
                }
                return false;
            }
            i = i + 1;
        }
        let mut i: usize = 0;
        while i < self.children.len()
            invariant
                t == self@,
                lawful_order::<T>(),
                i <= self.children@.len(),
                t.children.len() == self.children@.len(),
                forall|j: int|
                    0 <= j < self.children@.len() ==> #[trigger] t.children[j] == tree_of(
                        self.children@[j],
                    ),
                forall|j: int| 0 <= j < self.children@.len() ==> item_le(t.item, #[trigger] t.children[j].item),
                forall|j: int| 0 <= j < i ==> heap_ordered(#[trigger] t.children[j]),
            decreases self.children@.len() - i,
        {
            if !self.children[i].check_heap_property() {
                proof {
                    assert(!heap_ordered(t.children[i as int]));
                }
                return false;
            }
            i = i + 1;
        }
        true
    }
}

/// All items of the heap that are not corrupted, in pre-order: each node,
/// then the whole subtree of each of its children in turn.
impl<const CORRUPT_EVERY_N: usize, T> From<Pairing<CORRUPT_EVERY_N, T>> for Vec<T> {
    fn from(pairing: Pairing<CORRUPT_EVERY_N, T>) -> (items: Vec<T>)
        ensures
            items@ == pre_order(seq![pairing@]),
    {
        let ghost start = seq![pairing@];
        let mut items = Vec::new();
        // The nodes still to visit; the next one is on top, at the end.
        let mut todo = Vec::new();
        todo.push(pairing);
        proof {
            lemma_forest_of(todo@);
            assert(forest_of(todo@).reverse() =~= start);
            assert(items@ + pre_order(forest_of(todo@).reverse()) =~= pre_order(start));
        }
        while todo.len() > 0
            invariant
                items@ + pre_order(forest_of(todo@).reverse()) == pre_order(start),
            decreases forest_size(forest_of(todo@).reverse()),
        {
            let ghost before = todo@;
            let pairing = todo.pop().unwrap();
            let ghost rest = todo@;
            let Pairing { key: Pool { item, count: _ }, children } = pairing;
            let ghost kids = children@;
            proof {
                lemma_forest_of(before);
                lemma_forest_of(rest);
                assert(before =~= rest.push(pairing));
                assert(forest_of(before).reverse() =~= seq![tree_of(pairing)] + forest_of(rest).reverse());
                lemma_forest_size_pop_front(forest_of(before).reverse());
                assert(forest_of(before).reverse().drop_first() =~= forest_of(rest).reverse());
            }
            let mut children = children;
            // Children go on in reverse, so that the first child is visited next.
            while children.len() > 0
                invariant
                    children@.len() <= kids.len(),
                    children@ == kids.take(children@.len() as int),
                    todo@ == rest + kids.skip(children@.len() as int).reverse(),
                decreases children@.len(),
            {
                let child = children.pop().unwrap();
                todo.push(child);
                proof {
                    assert(children@ =~= kids.take(children@.len() as int));
                    assert(todo@ =~= rest + kids.skip(children@.len() as int).reverse());
                }
            }
            items.push(item);
            proof {
                assert(todo@ =~= rest + kids.reverse());
                lemma_forest_of(kids);
                lemma_forest_of(todo@);
                assert(forest_of(todo@).reverse() =~= forest_of(kids) + forest_of(rest).reverse());
                assert(pre_order(forest_of(before).reverse()) == seq![pairing.key.item] + pre_order(
                    forest_of(todo@).reverse(),
                ));
                assert(items@ + pre_order(forest_of(todo@).reverse()) =~= pre_order(start));
            }
        }
        proof {
            assert(forest_of(todo@).reverse() =~= Seq::<Tree<T>>::empty());
            assert(items@ =~= pre_order(start));
        }
        items
    }
}

impl<const CORRUPT_EVERY_N: usize, T> FromSpecImpl<Pairing<CORRUPT_EVERY_N, T>> for Vec<T> {
    open spec fn obeys_from_spec() -> bool {
        false
    }

    open spec fn from_spec(v: Pairing<CORRUPT_EVERY_N, T>) -> Self {
        arbitrary()
    }
}

/// A soft heap: an optional pairing heap.
#[derive(Debug, PartialEq, Eq, PartialOrd, Ord)]
pub struct SoftHeap<const CORRUPT_EVERY_N: usize, T> {
    pub root: Option<Pairing<CORRUPT_EVERY_N, T>>,
}

impl<const N: usize, T> View for SoftHeap<N, T> {
    type V = Option<Tree<T>>;

    open spec fn view(&self) -> Option<Tree<T>> {
        opt_tree_of(self.root)
    }
}

impl<const N: usize, T: Clone> Clone for SoftHeap<N, T> {
    fn clone(&self) -> (r: Self)
        ensures
            match (self@, r@) {
                (None, None) => true,
                (Some(a), Some(b)) => tree_cloned(a, b),
                _ => false,
            },
    {
        match &self.root {
            None => Self { root: None },
            Some(root) => Self { root: Some(root.clone()) },
        }
    }
}

impl<const CORRUPT_EVERY_N: usize, T> Default for SoftHeap<CORRUPT_EVERY_N, T> {
    fn default() -> (r: Self)
        ensures
            r.root is None,
    {
        Self { root: None }
    }
}

impl<const CORRUPT_EVERY_N: usize, T: Ord> SoftHeap<CORRUPT_EVERY_N, T> {
    /// Adds `item` to the heap.
    #[must_use]
    pub fn insert(self, item: T) -> (r: Self)
        requires
            lawful_order::<T>(),
        ensures
            r@ == Some(heap_insert(self@, item)),
    {
        match self.root {
            None => Self { root: Some(Pairing::new(item)) },
            Some(root) => Self { root: Some(root.insert(item)) },
        }
    }

    /// Deletes the minimum (see `Pairing::delete_min`); returns the rest of
    /// the heap and the items corrupted on the way.
    #[must_use]
    pub fn delete_min(self) -> (r: (Self, Vec<T>))
        requires
            lawful_order::<T>(),
            can_delete_min(self@, CORRUPT_EVERY_N as nat),
        ensures
            r.0@ == heap_delete_min(self@, CORRUPT_EVERY_N as nat).0,
            r.1@ == heap_delete_min(self@, CORRUPT_EVERY_N as nat).1,
    {
        match self.root {
            None => {
                let r = (Self::default(), Vec::new());
                proof {
                    assert(r.1@ =~= Seq::empty());
                }
                r
            },
            Some(root) => {
                proof {
                    lemma_forest_of(root.children@);
                }
                let (root, corrupted) = root.delete_min();
                (Self { root }, corrupted)
            },
        }
    }

    /// The number of corrupted elements pooled in the heap.
    pub fn count_corrupted(&self) -> (r: usize)
        requires
            opt_pooled(self@) <= usize::MAX,
        ensures
            r == opt_pooled(self@),
    {
        match &self.root {
            None => 0,
            Some(root) => root.count_corrupted(),
        }
    }

    /// The number of elements in the heap that are not corrupted.
    pub fn count_uncorrupted(&self) -> (r: usize)
        requires
            opt_size(self@) <= usize::MAX,
        ensures
            r == opt_size(self@),
    {
        match &self.root {
            None => 0,
            Some(root) => root.count_uncorrupted(),
        }
    }
}

/// All items of the soft heap that are not corrupted, in pre-order.
impl<const CORRUPT_EVERY_N: usize, T> From<SoftHeap<CORRUPT_EVERY_N, T>> for Vec<T> {
    fn from(heap: SoftHeap<CORRUPT_EVERY_N, T>) -> (items: Vec<T>)
        ensures
            items@ == match heap@ {
                None => Seq::empty(),
                Some(t) => pre_order(seq![t]),
            },
    {
        match heap.root {
            None => Vec::new(),
            Some(root) => Vec::from(root),
        }
    }
}

impl<const CORRUPT_EVERY_N: usize, T> FromSpecImpl<SoftHeap<CORRUPT_EVERY_N, T>> for Vec<T> {
    open spec fn obeys_from_spec() -> bool {
        false
    }

    open spec fn from_spec(v: SoftHeap<CORRUPT_EVERY_N, T>) -> Self {
        arbitrary()
    }
}

} // verus!
