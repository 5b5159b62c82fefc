//! A plain binary search tree with subtree sizes; no rebalancing.
use vstd::prelude::*;
use crate::entries::{
    lemma_join_bounds,
    add_entry, all_above, all_below, count_less, has_key, join, lemma_add_entry_bounds,
    lemma_add_entry_sorted, lemma_count_less_bound, lemma_join_add, lemma_join_count_less,
    lemma_join_index, lemma_join_sorted, sorted_keys, value_of,
};
use crate::keys::{lemma_trichotomy, KeyBounds};
use crate::symbol_table::SymbolTable;
use core::cmp::Ordering;

verus! {

struct Node<K, V> {
    key: K,
    val: V,
    /// Number of nodes in the subtree rooted here, this one included.
    count: usize,
    left: Option<Box<Node<K, V>>>,
    right: Option<Box<Node<K, V>>>,
}

spec fn opt_entries<K: KeyBounds, V>(t: Option<Box<Node<K, V>>>) -> Seq<(K, V)> {
    match t {
        Some(n) => n.entries(),
        None => Seq::empty(),
    }
}

spec fn opt_wf<K: KeyBounds, V>(t: Option<Box<Node<K, V>>>) -> bool {
    match t {
        Some(n) => n.wf(),
        None => true,
    }
}

spec fn opt_count<K: KeyBounds, V>(t: Option<Box<Node<K, V>>>) -> nat {
    match t {
        Some(n) => n.count as nat,
        None => 0,
    }
}

proof fn lemma_opt_wf<K: KeyBounds, V>(t: Option<Box<Node<K, V>>>)
    requires
        opt_wf(t),
    ensures
        sorted_keys(opt_entries(t)),
        opt_count(t) == opt_entries(t).len(),
    decreases t,
{
    if let Some(n) = t {
        n.lemma_wf();
    }
}

/// Number of nodes on the longest path from the root.
/// A leaf has one level, on every path.
proof fn lemma_leaf_depths<K: KeyBounds, V>(n: Node<K, V>)
    requires
        n.left is None,
        n.right is None,
    ensures
        tree_height(Some(Box::new(n))) == 1,
        right_depth(Some(Box::new(n))) == 1,
{
    assert(tree_height::<K, V>(None) == 0);
    assert(right_depth::<K, V>(None) == 0);
}

proof fn lemma_right_depth_le_height<K: KeyBounds, V>(t: Option<Box<Node<K, V>>>)
    ensures
        right_depth(t) <= tree_height(t),
    decreases t,
{
    if let Some(n) = t {
        lemma_right_depth_le_height(n.right);
    }
}

/// Number of nodes on the path that always goes right.
spec fn right_depth<K: KeyBounds, V>(t: Option<Box<Node<K, V>>>) -> nat
    decreases t,
{
    match t {
        Some(n) => 1 + right_depth(n.right),
        None => 0,
    }
}

spec fn tree_height<K: KeyBounds, V>(t: Option<Box<Node<K, V>>>) -> nat
    decreases t,
{
    match t {
        Some(n) => {
            let l = tree_height(n.left);
            let r = tree_height(n.right);
            1 + if l >= r {
                l
            } else {
                r
            }
        },
        None => 0,
    }
}

/// No path is longer than the number of nodes.
proof fn lemma_height_le_count<K: KeyBounds, V>(t: Option<Box<Node<K, V>>>)
    requires
        opt_wf(t),
    ensures
        tree_height(t) <= opt_count(t),
    decreases t,
{
    if let Some(n) = t {
        lemma_height_le_count(n.left);
        lemma_height_le_count(n.right);
    }
}

/// Number of nodes on the longest path from the root of `t`.
fn levels<K: KeyBounds, V>(t: &Option<Box<Node<K, V>>>) -> (r: usize)
    requires
        opt_wf(*t),
    ensures
        r == tree_height(*t),
    decreases *t,
{
    proof {
        lemma_height_le_count(*t);
    }
    match t {
        Some(n) => {
            let l = levels(&n.left);
            let r = levels(&n.right);
            if l >= r {
                1 + l
            } else {
                1 + r
            }
        },
        None => 0,
    }
}

impl<K: KeyBounds, V> Node<K, V> {
    spec fn entries(self) -> Seq<(K, V)>
        decreases self,
    {
        join(
            match self.left {
                Some(l) => l.entries(),
                None => Seq::empty(),
            },
            (self.key, self.val),
            match self.right {
                Some(r) => r.entries(),
                None => Seq::empty(),
            },
        )
    }

    spec fn wf(self) -> bool
        decreases self,
    {
        &&& match self.left {
            Some(l) => l.wf(),
            None => true,
        }
        &&& match self.right {
            Some(r) => r.wf(),
            None => true,
        }
        &&& all_below(opt_entries(self.left), self.key)
        &&& all_above(opt_entries(self.right), self.key)
        &&& self.count == opt_count(self.left) + 1 + opt_count(self.right)
    }

    proof fn lemma_wf(self)
        requires
            self.wf(),
        ensures
            sorted_keys(self.entries()),
            self.count == self.entries().len(),
        decreases self,
    {
        lemma_opt_wf(self.left);
        lemma_opt_wf(self.right);
        lemma_join_sorted(opt_entries(self.left), (self.key, self.val), opt_entries(self.right));
    }

    /// A new leaf on the heap.
    fn new(key: K, val: V) -> (r: Box<Self>)
        ensures
            r.wf(),
            r.entries() == seq![(key, val)],
            *r == (Node { key, val, count: 1, left: None, right: None }),
    {
        let r = Box::new(Node { key, val, count: 1, left: None, right: None });
        assert(r.entries() =~= seq![(key, val)]);
        r
    }

    fn size(t: &Option<Box<Node<K, V>>>) -> (r: usize)
        ensures
            r == opt_count(*t),
    {
        match t {
            Some(n) => n.count,
            None => 0,
        }
    }

    fn update_count(&mut self)
        requires
            opt_count(old(self).left) + 1 + opt_count(old(self).right) <= usize::MAX,
        ensures
            *final(self) == (Node { count: final(self).count, ..*old(self) }),
            final(self).count == opt_count(old(self).left) + 1 + opt_count(old(self).right),
    {
        self.count = 1 + Node::size(&self.left) + Node::size(&self.right);
    }

    /// The subtree after a new key `k` is hung as a leaf where the search for
    /// it ends; no node moves, and the sizes on the path grow by one.
    spec fn with_leaf(self, k: K, v: V) -> Self
        decreases self,
    {
        let leaf = Node { key: k, val: v, count: 1, left: None, right: None };
        if k.precedes(self.key) {
            match self.left {
                Some(l) => Node { left: Some(Box::new(l.with_leaf(k, v))), count: (self.count + 1) as usize, ..self },
                None => Node { left: Some(Box::new(leaf)), count: (self.count + 1) as usize, ..self },
            }
        } else {
            match self.right {
                Some(r) => Node { right: Some(Box::new(r.with_leaf(k, v))), count: (self.count + 1) as usize, ..self },
                None => Node { right: Some(Box::new(leaf)), count: (self.count + 1) as usize, ..self },
            }
        }
    }

    fn add(&mut self, key: K, val: V)
        requires
            old(self).wf(),
            old(self).entries().len() < usize::MAX,
        ensures
            final(self).wf(),
            final(self).entries() == add_entry(old(self).entries(), key, val),
            has_key(old(self).entries(), key) ==> *final(self) == old(self).with_value(key, val),
            !has_key(old(self).entries(), key) ==> *final(self) == old(self).with_leaf(key, val),
            tree_height(Some(Box::new(*old(self)))) <= tree_height(Some(Box::new(*final(self)))),
            tree_height(Some(Box::new(*final(self)))) <= tree_height(Some(Box::new(*old(self)))) + 1,
            all_below(old(self).entries(), key) ==> right_depth(Some(Box::new(*final(self))))
                == right_depth(Some(Box::new(*old(self)))) + 1,
        decreases old(self).entries().len(),
    {
        proof {
            self.lemma_wf();
            lemma_trichotomy(key, self.key);
            lemma_join_bounds(opt_entries(self.left), (self.key, self.val), opt_entries(self.right), key);
            lemma_opt_wf(self.left);
            lemma_opt_wf(self.right);
            lemma_join_add(opt_entries(self.left), (self.key, self.val), opt_entries(self.right), key, val);
            lemma_add_entry_bounds(opt_entries(self.left), key, val, self.key);
            lemma_add_entry_bounds(opt_entries(self.right), key, val, self.key);
        }
        let ord = key.compare(&self.key);
        if matches!(ord, Ordering::Equal) {
            self.val = val;
        } else if matches!(ord, Ordering::Less) {
            match self.left.take() {
                Some(mut child) => {
                    child.add(key, val);
                    self.left = Some(child);
                },
                None => {
                    self.left = Some(Node::new(key, val));
                    proof {
                        lemma_leaf_depths(Node { key, val, count: 1, left: None, right: None });
                    }
                },
            }
            proof {
                lemma_opt_wf(self.left);
            }
            self.update_count();
        } else {
            match self.right.take() {
                Some(mut child) => {
                    child.add(key, val);
                    self.right = Some(child);
                },
                None => {
                    self.right = Some(Node::new(key, val));
                    proof {
                        lemma_leaf_depths(Node { key, val, count: 1, left: None, right: None });
                    }
                },
            }
            proof {
                lemma_opt_wf(self.right);
            }
            self.update_count();
        }
    }

    /// The subtree with the value of `k` replaced by `v`, following the
    /// search path for `k`; every other field stays as it is.
    spec fn with_value(self, k: K, v: V) -> Self
        decreases self,
    {
        if self.key == k {
            Node { val: v, ..self }
        } else if k.precedes(self.key) {
            match self.left {
                Some(l) => Node { left: Some(Box::new(l.with_value(k, v))), ..self },
                None => self,
            }
        } else {
            match self.right {
                Some(r) => Node { right: Some(Box::new(r.with_value(k, v))), ..self },
                None => self,
            }
        }
    }

    fn value(&mut self, key: &K) -> (r: Option<&mut V>)
        requires
            old(self).wf(),
        ensures
            final(self).wf(),
            final(self).count == old(self).count,
            match r {
                Some(v) => {
                    &&& has_key(old(self).entries(), *key)
                    &&& Some(*v) == value_of(old(self).entries(), *key)
                    &&& final(self).entries() == old(self).entries().update(
                        count_less(old(self).entries(), *key) as int,
                        (*key, *final(v)),
                    )
                },
                None => {
                    &&& !has_key(old(self).entries(), *key)
                    &&& final(self).entries() == old(self).entries()
                },
            },
            r is None ==> *final(self) == *old(self),
            r matches Some(v) ==> *final(self) == old(self).with_value(*key, *final(v)),
        decreases old(self).entries().len(),
    {
        proof {
            lemma_opt_wf(self.left);
            lemma_opt_wf(self.right);
            lemma_join_add(opt_entries(self.left), (self.key, self.val), opt_entries(self.right), *key, self.val);
            lemma_join_count_less(opt_entries(self.left), (self.key, self.val), opt_entries(self.right), *key);
        }
        let ord = key.compare(&self.key);
        if matches!(ord, Ordering::Equal) {
            Some(&mut self.val)
        } else if matches!(ord, Ordering::Less) {
            match &mut self.left {
                Some(child) => child.value(key),
                None => None,
            }
        } else {
            match &mut self.right {
                Some(child) => child.value(key),
                None => None,
            }
        }
    }

    fn rank(&self, key: &K) -> (r: usize)
        requires
            self.wf(),
        ensures
            r == count_less(self.entries(), *key),
        decreases self,
    {
        proof {
            self.lemma_wf();
            lemma_opt_wf(self.left);
            lemma_opt_wf(self.right);
            lemma_join_count_less(opt_entries(self.left), (self.key, self.val), opt_entries(self.right), *key);
            lemma_count_less_bound(opt_entries(self.right), *key);
        }
        let left_count = Node::size(&self.left);
        if !matches!(self.key.compare(key), Ordering::Less) {
            match &self.left {
                Some(child) => child.rank(key),
                None => 0,
            }
        } else {
            match &self.right {
                Some(child) => left_count + 1 + child.rank(key),
                None => left_count + 1,
            }
        }
    }

    fn select(&self, k: usize) -> (r: &K)
        requires
            self.wf(),
            k < self.entries().len(),
        ensures
            *r == self.entries()[k as int].0,
        decreases self,
    {
        proof {
            self.lemma_wf();
            lemma_opt_wf(self.left);
            lemma_opt_wf(self.right);
            lemma_join_index(opt_entries(self.left), (self.key, self.val), opt_entries(self.right), k as int);
        }
        let left_count = Node::size(&self.left);
        if k == left_count {
            &self.key
        } else if k < left_count {
            match &self.left {
                Some(child) => child.select(k),
                None => unreached(),
            }
        } else {
            match &self.right {
                Some(child) => child.select(k - left_count - 1),
                None => unreached(),
            }
        }
    }
}

pub struct ABB<K, V> {
    root: Option<Box<Node<K, V>>>,
}

impl<K: KeyBounds, V> ABB<K, V> {
    /// An empty map.
    pub fn new() -> (r: Self)
        ensures
            r.wf(),
            r.entries() == Seq::<(K, V)>::empty(),
    {
        ABB { root: None }
    }

    /// Number of nodes on the longest path from the root.
    pub closed spec fn height(&self) -> nat {
        tree_height(self.root)
    }

    /// Number of nodes on the path from the root that always goes right.
    pub closed spec fn right_depth(&self) -> nat {
        right_depth(self.root)
    }

    /// The right path is no longer than the longest path, which holds no
    /// more nodes than the map has keys.
    pub proof fn lemma_depths(&self)
        requires
            self.wf(),
        ensures
            self.right_depth() <= self.height() <= self.entries().len(),
    {
        lemma_right_depth_le_height(self.root);
        lemma_height_le_count(self.root);
        lemma_opt_wf(self.root);
    }

    /// Number of nodes on the longest path from the root; with no
    /// rebalancing it can be as large as the number of keys.
    pub fn levels(&self) -> (r: usize)
        requires
            self.wf(),
        ensures
            r == self.height(),
    {
        levels(&self.root)
    }
}

impl<K: KeyBounds, V> ABB<K, V> {
    /// The map with the value of `k` replaced by `v`, no node moved.
    pub closed spec fn with_value(&self, k: K, v: V) -> Self {
        match self.root {
            Some(n) => ABB { root: Some(Box::new(n.with_value(k, v))), ..*self },
            None => *self,
        }
    }
}

impl<K: KeyBounds, V> SymbolTable<K, V> for ABB<K, V> {
    closed spec fn entries(&self) -> Seq<(K, V)> {
        opt_entries(self.root)
    }

    closed spec fn wf(&self) -> bool {
        opt_wf(self.root)
    }

    proof fn lemma_entries_sorted(&self) {
        lemma_opt_wf(self.root);
    }

    fn add(&mut self, key: K, val: V)
        ensures
            old(self).height() <= final(self).height() <= old(self).height() + 1,
            all_below(old(self).entries(), key) ==> final(self).right_depth() == old(self).right_depth()
                + 1,
            has_key(old(self).entries(), key) ==> *final(self) == old(self).with_value(key, val),
    {
        match self.root.take() {
            Some(mut root) => {
                root.add(key, val);
                self.root = Some(root);
            },
            None => {
                proof {
                    lemma_add_entry_sorted(Seq::<(K, V)>::empty(), key, val);
                    assert(add_entry(Seq::<(K, V)>::empty(), key, val) =~= seq![(key, val)]);
                    lemma_leaf_depths(Node { key, val, count: 1, left: None, right: None });
                }
                self.root = Some(Node::new(key, val));
            },
        }
    }

    fn value(&mut self, key: &K) -> (r: Option<&mut V>)
        ensures
            r is None ==> *final(self) == *old(self),
            r matches Some(v) ==> *final(self) == old(self).with_value(*key, *final(v)),
    {
        match &mut self.root {
            Some(root) => root.value(key),
            None => None,
        }
    }

    fn rank(&self, key: &K) -> (r: usize) {
        match &self.root {
            Some(root) => root.rank(key),
            None => 0,
        }
    }

    fn select(&self, k: usize) -> (r: Option<&K>) {
        let size = Node::size(&self.root);
        proof {
            self.lemma_entries_sorted();
            lemma_opt_wf(self.root);
        }
        if k < size {
            match &self.root {
                Some(root) => Some(root.select(k)),
                None => None,
            }
        } else {
            None
        }
    }
}

} // verus!
