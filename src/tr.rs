//! A randomized balanced tree (treap): a binary search tree on keys that is
//! also a max-heap on priorities drawn when each node is created.
use vstd::prelude::*;
use crate::entries::{
    add_entry, all_above, all_below, count_less, has_key, join, lemma_above_weaken,
    lemma_add_entry_bounds, lemma_add_entry_sorted, lemma_below_weaken, lemma_count_less_bound,
    lemma_join_add, lemma_join_bounds, lemma_join_count_less, lemma_join_index, lemma_join_sorted,
    sorted_keys, value_of,
};
use crate::keys::{lemma_trichotomy, KeyBounds};
use crate::symbol_table::SymbolTable;
use core::cmp::Ordering;

verus! {

struct Node<K, V> {
    key: K,
    val: V,
    /// Drawn once when the node is created; no child has a higher one.
    prio: u64,
    /// Number of nodes in the subtree rooted here, this one included.
    count: usize,
    left: Option<Box<Node<K, V>>>,
    right: Option<Box<Node<K, V>>>,
}

spec fn opt_entries<K: KeyBounds, V>(t: Option<Box<Node<K, V>>>) -> Seq<(K, V)> {
    match t {
        Some(n) => n.entries(),
        None => Seq::empty(),
    }
}

spec fn opt_wf<K: KeyBounds, V>(t: Option<Box<Node<K, V>>>) -> bool {
    match t {
        Some(n) => n.wf(),
        None => true,
    }
}

spec fn opt_prio<K: KeyBounds, V>(t: Option<Box<Node<K, V>>>) -> u64 {
    match t {
        Some(n) => n.prio,
        None => 0,
    }
}

spec fn opt_prios<K: KeyBounds, V>(t: Option<Box<Node<K, V>>>) -> Seq<u64> {
    match t {
        Some(n) => n.prios(),
        None => Seq::empty(),
    }
}

spec fn opt_count<K: KeyBounds, V>(t: Option<Box<Node<K, V>>>) -> nat {
    match t {
        Some(n) => n.count as nat,
        None => 0,
    }
}

proof fn lemma_prios_unfold<K: KeyBounds, V>(n: Node<K, V>)
    ensures
        n.prios() == opt_prios(n.left) + seq![n.prio] + opt_prios(n.right),
{
}

/// Inserting into the left part of `l + [p] + r` inserts into the whole.
proof fn lemma_insert_left(l: Seq<u64>, p: u64, r: Seq<u64>, at: int, x: u64)
    requires
        0 <= at <= l.len(),
    ensures
        l.insert(at, x) + seq![p] + r == (l + seq![p] + r).insert(at, x),
{
    assert(l.insert(at, x) + seq![p] + r =~= (l + seq![p] + r).insert(at, x));
}

/// Inserting into the right part of `l + [p] + r` inserts into the whole.
proof fn lemma_insert_right(l: Seq<u64>, p: u64, r: Seq<u64>, at: int, x: u64)
    requires
        0 <= at <= r.len(),
    ensures
        l + seq![p] + r.insert(at, x) == (l + seq![p] + r).insert(l.len() + 1 + at, x),
{
    assert(l + seq![p] + r.insert(at, x) =~= (l + seq![p] + r).insert(l.len() + 1 + at, x));
}

proof fn lemma_opt_wf<K: KeyBounds, V>(t: Option<Box<Node<K, V>>>)
    requires
        opt_wf(t),
    ensures
        sorted_keys(opt_entries(t)),
        opt_count(t) == opt_entries(t).len(),
        opt_prios(t).len() == opt_entries(t).len(),
    decreases t,
{
    if let Some(n) = t {
        n.lemma_wf();
    }
}

impl<K: KeyBounds, V> Node<K, V> {
    spec fn entries(self) -> Seq<(K, V)>
        decreases self,
    {
        join(
            match self.left {
                Some(l) => l.entries(),
                None => Seq::empty(),
            },
            (self.key, self.val),
            match self.right {
                Some(r) => r.entries(),
                None => Seq::empty(),
            },
        )
    }

    /// The priorities of the subtree, in key order.
    spec fn prios(self) -> Seq<u64>
        decreases self,
    {
        let left = match self.left {
            Some(l) => l.prios(),
            None => Seq::empty(),
        };
        let right = match self.right {
            Some(r) => r.prios(),
            None => Seq::empty(),
        };
        left + seq![self.prio] + right
    }

    spec fn wf(self) -> bool
        decreases self,
    {
        &&& match self.left {
            Some(l) => l.wf(),
            None => true,
        }
        &&& match self.right {
            Some(r) => r.wf(),
            None => true,
        }
        &&& all_below(opt_entries(self.left), self.key)
        &&& all_above(opt_entries(self.right), self.key)
        &&& self.count == opt_count(self.left) + 1 + opt_count(self.right)
        &&& opt_prio(self.left) <= self.prio
        &&& opt_prio(self.right) <= self.prio
    }

    proof fn lemma_wf(self)
        requires
            self.wf(),
        ensures
            sorted_keys(self.entries()),
            self.count == self.entries().len(),
            self.prios().len() == self.entries().len(),
        decreases self,
    {
        lemma_opt_wf(self.left);
        lemma_opt_wf(self.right);
        lemma_join_sorted(opt_entries(self.left), (self.key, self.val), opt_entries(self.right));
        lemma_prios_unfold(self);
    }

    /// A new leaf on the heap.
    fn new(key: K, val: V, prio: u64) -> (r: Box<Self>)
        ensures
            r.wf(),
            r.entries() == seq![(key, val)],
            r.prio == prio,
            r.prios() == seq![prio],
            r.left is None,
            r.right is None,
    {
        let r = Box::new(Node { key, val, prio, count: 1, left: None, right: None });
        assert(r.entries() =~= seq![(key, val)]);
        r
    }

    fn size(t: &Option<Box<Node<K, V>>>) -> (r: usize)
        ensures
            r == opt_count(*t),
    {
        match t {
            Some(n) => n.count,
            None => 0,
        }
    }

    fn update_count(&mut self)
        requires
            opt_count(old(self).left) + 1 + opt_count(old(self).right) <= usize::MAX,
        ensures
            *final(self) == (Node { count: final(self).count, ..*old(self) }),
            final(self).count == opt_count(old(self).left) + 1 + opt_count(old(self).right),
    {
        self.count = 1 + Node::size(&self.left) + Node::size(&self.right);
    }

    /// Makes `child` the left subtree of `cur`, rotating it above `cur` when
    /// its priority is higher.
    fn hang_left(cur: Box<Self>, child: Box<Self>) -> (r: Box<Self>)
        requires
            child.wf(),
            opt_wf(cur.right),
            all_below(child.entries(), cur.key),
            all_above(opt_entries(cur.right), cur.key),
            opt_prio(cur.right) <= cur.prio,
            child.prio <= cur.prio || (opt_prio(child.left) <= cur.prio && opt_prio(child.right)
                <= cur.prio),
            child.entries().len() + 1 + opt_entries(cur.right).len() <= usize::MAX,
        ensures
            r.wf(),
            r.entries() == join(child.entries(), (cur.key, cur.val), opt_entries(cur.right)),
            r.prios() == child.prios() + seq![cur.prio] + opt_prios(cur.right),
            child.prio <= cur.prio ==> *r == (Node { left: Some(child), count: r.count, ..*cur }),
            child.prio <= cur.prio ==> r.prio == cur.prio,
            child.prio > cur.prio ==> r.prio == child.prio && opt_prio(r.left) <= cur.prio
                && opt_prio(r.right) <= cur.prio,
    {
        let mut cur = cur;
        let mut child = child;
        proof {
            child.lemma_wf();
            lemma_opt_wf(child.left);
            lemma_opt_wf(child.right);
            lemma_opt_wf(cur.right);
            lemma_join_bounds(opt_entries(child.left), (child.key, child.val), opt_entries(child.right), cur.key);
        }
        if child.prio <= cur.prio {
            cur.left = Some(child);
            cur.update_count();
            proof {
                lemma_prios_unfold(*cur);
            }
            cur
        } else {
            let ghost a = opt_entries(child.left);
            let ghost b = opt_entries(child.right);
            let ghost c = opt_entries(cur.right);
            let ghost pa = opt_prios(child.left);
            let ghost pb = opt_prios(child.right);
            let ghost pc = opt_prios(cur.right);
            let ghost px = child.prio;
            let ghost py = cur.prio;
            proof {
                lemma_prios_unfold(*child);
            }
            let ghost x = (child.key, child.val);
            let ghost y = (cur.key, cur.val);
            cur.left = child.right.take();
            cur.update_count();
            proof {
                lemma_join_sorted(b, y, c);
                lemma_above_weaken(c, child.key, y.0);
                lemma_join_bounds(b, y, c, child.key);
                assert(cur.entries() == join(b, y, c));
                assert(cur.wf());
                lemma_prios_unfold(*cur);
            }
            child.right = Some(cur);
            child.update_count();
            proof {
                lemma_prios_unfold(*child);
                assert(join(join(a, x, b), y, c) =~= join(a, x, join(b, y, c)));
                assert(pa + seq![px] + pb + seq![py] + pc =~= pa + seq![px] + (pb + seq![py] + pc));
            }
            child
        }
    }

    /// Makes `child` the right subtree of `cur`, rotating it above `cur` when
    /// its priority is higher.
    fn hang_right(cur: Box<Self>, child: Box<Self>) -> (r: Box<Self>)
        requires
            child.wf(),
            opt_wf(cur.left),
            all_above(child.entries(), cur.key),
            all_below(opt_entries(cur.left), cur.key),
            opt_prio(cur.left) <= cur.prio,
            child.prio <= cur.prio || (opt_prio(child.left) <= cur.prio && opt_prio(child.right)
                <= cur.prio),
            opt_entries(cur.left).len() + 1 + child.entries().len() <= usize::MAX,
        ensures
            r.wf(),
            r.entries() == join(opt_entries(cur.left), (cur.key, cur.val), child.entries()),
            r.prios() == opt_prios(cur.left) + seq![cur.prio] + child.prios(),
            child.prio <= cur.prio ==> *r == (Node { right: Some(child), count: r.count, ..*cur }),
            child.prio <= cur.prio ==> r.prio == cur.prio,
            child.prio > cur.prio ==> r.prio == child.prio && opt_prio(r.left) <= cur.prio
                && opt_prio(r.right) <= cur.prio,
    {
        let mut cur = cur;
        let mut child = child;
        proof {
            child.lemma_wf();
            lemma_opt_wf(child.left);
            lemma_opt_wf(child.right);
            lemma_opt_wf(cur.left);
            lemma_join_bounds(opt_entries(child.left), (child.key, child.val), opt_entries(child.right), cur.key);
        }
        if child.prio <= cur.prio {
            cur.right = Some(child);
            cur.update_count();
            proof {
                lemma_prios_unfold(*cur);
            }
            cur
        } else {
            let ghost a = opt_entries(cur.left);
            let ghost b = opt_entries(child.left);
            let ghost c = opt_entries(child.right);
            let ghost pa = opt_prios(cur.left);
            let ghost pb = opt_prios(child.left);
            let ghost pc = opt_prios(child.right);
            let ghost px = cur.prio;
            let ghost py = child.prio;
            proof {
                lemma_prios_unfold(*child);
            }
            let ghost x = (cur.key, cur.val);
            let ghost y = (child.key, child.val);
            cur.right = child.left.take();
            cur.update_count();
            proof {
                lemma_join_sorted(a, x, b);
                lemma_below_weaken(a, x.0, child.key);
                lemma_join_bounds(a, x, b, child.key);
                assert(cur.entries() == join(a, x, b));
                assert(cur.wf());
                lemma_prios_unfold(*cur);
            }
            child.left = Some(cur);
            child.update_count();
            proof {
                lemma_prios_unfold(*child);
                assert(join(a, x, join(b, y, c)) =~= join(join(a, x, b), y, c));
                assert(pa + seq![px] + (pb + seq![py] + pc) =~= pa + seq![px] + pb + seq![py] + pc);
            }
            child
        }
    }

    /// Inserts below `cur` (a new node gets priority `prio`), restoring heap
    /// order by rotations on the way up. Returns the new subtree root and
    /// whether a node was created.
    fn add(cur: Box<Self>, key: K, val: V, prio: u64) -> (r: (Box<Self>, bool))
        requires
            cur.wf(),
            cur.entries().len() < usize::MAX,
        ensures
            r.0.wf(),
            r.0.entries() == add_entry(cur.entries(), key, val),
            r.1 == !has_key(cur.entries(), key),
            has_key(cur.entries(), key) ==> *r.0 == (*cur).with_value(key, val),
            r.0.prios() == if r.1 {
                cur.prios().insert(count_less(cur.entries(), key) as int, prio)
            } else {
                cur.prios()
            },
            r.0.prio == cur.prio || (r.0.prio == prio && opt_prio(r.0.left) <= cur.prio
                && opt_prio(r.0.right) <= cur.prio),
        decreases cur.entries().len(), 1nat,
    {
        let mut cur = cur;
        let ord = key.compare(&cur.key);
        if matches!(ord, Ordering::Equal) {
            proof {
                lemma_opt_wf(cur.left);
                lemma_opt_wf(cur.right);
                lemma_join_add(opt_entries(cur.left), (cur.key, cur.val), opt_entries(cur.right), key, val);
                lemma_prios_unfold(*cur);
            }
            cur.val = val;
            proof {
                lemma_prios_unfold(*cur);
            }
            (cur, false)
        } else if matches!(ord, Ordering::Less) {
            Node::add_left(cur, key, val, prio)
        } else {
            Node::add_right(cur, key, val, prio)
        }
    }

    /// Inserts a key that comes before `cur`'s into its left subtree.
    fn add_left(cur: Box<Self>, key: K, val: V, prio: u64) -> (r: (Box<Self>, bool))
        requires
            cur.wf(),
            cur.entries().len() < usize::MAX,
            key.precedes(cur.key),
        ensures
            r.0.wf(),
            r.0.entries() == add_entry(cur.entries(), key, val),
            r.1 == !has_key(cur.entries(), key),
            has_key(cur.entries(), key) ==> *r.0 == (*cur).with_value(key, val),
            r.0.prios() == if r.1 {
                cur.prios().insert(count_less(cur.entries(), key) as int, prio)
            } else {
                cur.prios()
            },
            r.0.prio == cur.prio || (r.0.prio == prio && opt_prio(r.0.left) <= cur.prio
                && opt_prio(r.0.right) <= cur.prio),
        decreases cur.entries().len(), 0nat,
    {
        let mut cur = cur;
        proof {
            cur.lemma_wf();
            lemma_opt_wf(cur.left);
            lemma_opt_wf(cur.right);
            lemma_join_add(opt_entries(cur.left), (cur.key, cur.val), opt_entries(cur.right), key, val);
            lemma_add_entry_bounds(opt_entries(cur.left), key, val, cur.key);
        }
        let ghost whole = *cur;
        let ghost lp = opt_prios(cur.left);
        let ghost rp = opt_prios(cur.right);
        let ghost at = count_less(cur.entries(), key) as int;
        proof {
            lemma_prios_unfold(whole);
            lemma_count_less_bound(opt_entries(cur.left), key);
            lemma_join_count_less(opt_entries(cur.left), (cur.key, cur.val), opt_entries(cur.right), key);
            lemma_trichotomy(key, cur.key);
        }
        let (child, created) = match cur.left.take() {
            Some(c) => Node::add(c, key, val, prio),
            None => (Node::new(key, val, prio), true),
        };
        proof {
            child.lemma_wf();
            if created {
                assert(at <= lp.len());
                assert(child.prios() == lp.insert(at, prio));
                lemma_insert_left(lp, whole.prio, rp, at, prio);
            }
        }
        (Node::hang_left(cur, child), created)
    }

    /// Inserts a key that comes after `cur`'s into its right subtree.
    #[verifier::rlimit(60)]
    fn add_right(cur: Box<Self>, key: K, val: V, prio: u64) -> (r: (Box<Self>, bool))
        requires
            cur.wf(),
            cur.entries().len() < usize::MAX,
            cur.key.precedes(key),
        ensures
            r.0.wf(),
            r.0.entries() == add_entry(cur.entries(), key, val),
            r.1 == !has_key(cur.entries(), key),
            has_key(cur.entries(), key) ==> *r.0 == (*cur).with_value(key, val),
            r.0.prios() == if r.1 {
                cur.prios().insert(count_less(cur.entries(), key) as int, prio)
            } else {
                cur.prios()
            },
            r.0.prio == cur.prio || (r.0.prio == prio && opt_prio(r.0.left) <= cur.prio
                && opt_prio(r.0.right) <= cur.prio),
        decreases cur.entries().len(), 0nat,
    {
        let mut cur = cur;
        proof {
            cur.lemma_wf();
            lemma_opt_wf(cur.left);
            lemma_opt_wf(cur.right);
            lemma_join_add(opt_entries(cur.left), (cur.key, cur.val), opt_entries(cur.right), key, val);
            lemma_add_entry_bounds(opt_entries(cur.right), key, val, cur.key);
        }
        let ghost whole = *cur;
        let ghost lp = opt_prios(cur.left);
        let ghost rp = opt_prios(cur.right);
        let ghost at = count_less(cur.entries(), key) as int;
        proof {
            lemma_prios_unfold(whole);
            lemma_count_less_bound(opt_entries(cur.right), key);
            lemma_join_count_less(opt_entries(cur.left), (cur.key, cur.val), opt_entries(cur.right), key);
            lemma_trichotomy(key, cur.key);
        }
        let (child, created) = match cur.right.take() {
            Some(c) => Node::add(c, key, val, prio),
            None => (Node::new(key, val, prio), true),
        };
        proof {
            child.lemma_wf();
            if created {
                let j = at - lp.len() - 1;
                assert(0 <= j <= rp.len());
                assert(child.prios() == rp.insert(j, prio));
                lemma_insert_right(lp, whole.prio, rp, j, prio);
            }
        }
        (Node::hang_right(cur, child), created)
    }

    /// The subtree with the value of `k` replaced by `v`, following the
    /// search path for `k`; every other field stays as it is.
    spec fn with_value(self, k: K, v: V) -> Self
        decreases self,
    {
        if self.key == k {
            Node { val: v, ..self }
        } else if k.precedes(self.key) {
            match self.left {
                Some(l) => Node { left: Some(Box::new(l.with_value(k, v))), ..self },
                None => self,
            }
        } else {
            match self.right {
                Some(r) => Node { right: Some(Box::new(r.with_value(k, v))), ..self },
                None => self,
            }
        }
    }

    fn value(&mut self, key: &K) -> (r: Option<&mut V>)
        requires
            old(self).wf(),
        ensures
            final(self).wf(),
            final(self).count == old(self).count,
            final(self).prio == old(self).prio,
            match r {
                Some(v) => {
                    &&& has_key(old(self).entries(), *key)
                    &&& Some(*v) == value_of(old(self).entries(), *key)
                    &&& final(self).entries() == old(self).entries().update(
                        count_less(old(self).entries(), *key) as int,
                        (*key, *final(v)),
                    )
                },
                None => {
                    &&& !has_key(old(self).entries(), *key)
                    &&& final(self).entries() == old(self).entries()
                },
            },
            r is None ==> *final(self) == *old(self),
            r matches Some(v) ==> *final(self) == old(self).with_value(*key, *final(v)),
        decreases old(self).entries().len(),
    {
        proof {
            lemma_opt_wf(self.left);
            lemma_opt_wf(self.right);
            lemma_join_add(opt_entries(self.left), (self.key, self.val), opt_entries(self.right), *key, self.val);
            lemma_join_count_less(opt_entries(self.left), (self.key, self.val), opt_entries(self.right), *key);
        }
        let ord = key.compare(&self.key);
        if matches!(ord, Ordering::Equal) {
            Some(&mut self.val)
        } else if matches!(ord, Ordering::Less) {
            match &mut self.left {
                Some(child) => child.value(key),
                None => None,
            }
        } else {
            match &mut self.right {
                Some(child) => child.value(key),
                None => None,
            }
        }
    }

    fn rank(&self, key: &K) -> (r: usize)
        requires
            self.wf(),
        ensures
            r == count_less(self.entries(), *key),
        decreases self,
    {
        proof {
            self.lemma_wf();
            lemma_opt_wf(self.left);
            lemma_opt_wf(self.right);
            lemma_join_count_less(opt_entries(self.left), (self.key, self.val), opt_entries(self.right), *key);
            lemma_count_less_bound(opt_entries(self.right), *key);
        }
        let left_count = Node::size(&self.left);
        if !matches!(self.key.compare(key), Ordering::Less) {
            match &self.left {
                Some(child) => child.rank(key),
                None => 0,
            }
        } else {
            match &self.right {
                Some(child) => left_count + 1 + child.rank(key),
                None => left_count + 1,
            }
        }
    }

    fn select(&self, k: usize) -> (r: &K)
        requires
            self.wf(),
            k < self.entries().len(),
        ensures
            *r == self.entries()[k as int].0,
        decreases self,
    {
        proof {
            self.lemma_wf();
            lemma_opt_wf(self.left);
            lemma_opt_wf(self.right);
            lemma_join_index(opt_entries(self.left), (self.key, self.val), opt_entries(self.right), k as int);
        }
        let left_count = Node::size(&self.left);
        if k == left_count {
            &self.key
        } else if k < left_count {
            match &self.left {
                Some(child) => child.select(k),
                None => unreached(),
            }
        } else {
            match &self.right {
                Some(child) => child.select(k - left_count - 1),
                None => unreached(),
            }
        }
    }
}

/// The deterministic sequence that priorities are drawn from: a linear
/// congruential generator on 31-bit states.
pub struct PrioritySource {
    state: u64,
}

pub open spec fn next_priority(state: u64) -> u64 {
    ((state * 1103515245 + 12345) % 2147483648) as u64
}

impl PrioritySource {
    /// A source that starts from `seed` (reduced to 31 bits).
    pub fn new(seed: u64) -> (r: Self)
        ensures
            r.state() == seed % 2147483648,
    {
        PrioritySource { state: seed % 2147483648 }
    }

    pub closed spec fn state(&self) -> u64 {
        self.state
    }

    pub closed spec fn wf(&self) -> bool {
        self.state < 2147483648
    }

    /// The priority that the next `draw` returns.
    pub fn peek(&self) -> (r: u64)
        requires
            self.wf(),
        ensures
            r == next_priority(self.state()),
    {
        (self.state * 1103515245 + 12345) % 2147483648
    }

    /// Advances the sequence and returns its next element.
    pub fn draw(&mut self) -> (r: u64)
        requires
            old(self).wf(),
        ensures
            final(self).wf(),
            r == next_priority(old(self).state()),
            final(self).state() == r,
    {
        self.state = (self.state * 1103515245 + 12345) % 2147483648;
        self.state
    }
}

pub struct TR<K, V> {
    root: Option<Box<Node<K, V>>>,
    priorities: PrioritySource,
}

impl<K: KeyBounds, V> TR<K, V> {
    /// An empty map whose priorities come from the sequence seeded with 0.
    pub fn new() -> (r: Self)
        ensures
            r.wf(),
            r.entries() == Seq::<(K, V)>::empty(),
            r.priority_state() == 0,
    {
        TR::with_seed(0)
    }

    /// An empty map whose priorities come from the sequence seeded with `seed`.
    pub fn with_seed(seed: u64) -> (r: Self)
        ensures
            r.wf(),
            r.entries() == Seq::<(K, V)>::empty(),
            r.priority_state() == seed % 2147483648,
    {
        TR { root: None, priorities: PrioritySource::new(seed) }
    }
}

impl<K: KeyBounds, V> TR<K, V> {
    /// The priorities of the stored keys, in key order.
    pub closed spec fn priorities(&self) -> Seq<u64> {
        opt_prios(self.root)
    }

    /// The state of the map's priority sequence: the next new key gets
    /// `next_priority(priority_state())`.
    pub closed spec fn priority_state(&self) -> u64 {
        self.priorities.state()
    }

    /// The map with the value of `k` replaced by `v`, no node moved.
    pub closed spec fn with_value(&self, k: K, v: V) -> Self {
        match self.root {
            Some(n) => TR { root: Some(Box::new(n.with_value(k, v))), ..*self },
            None => *self,
        }
    }
}

impl<K: KeyBounds, V> SymbolTable<K, V> for TR<K, V> {
    closed spec fn entries(&self) -> Seq<(K, V)> {
        opt_entries(self.root)
    }

    closed spec fn wf(&self) -> bool {
        opt_wf(self.root) && self.priorities.wf()
    }

    proof fn lemma_entries_sorted(&self) {
        lemma_opt_wf(self.root);
    }

    fn add(&mut self, key: K, val: V)
        ensures
            has_key(old(self).entries(), key) ==> *final(self) == old(self).with_value(key, val),
            !has_key(old(self).entries(), key) ==> final(self).priorities() == old(self).priorities().insert(
                count_less(old(self).entries(), key) as int,
                next_priority(old(self).priority_state()),
            ),
            !has_key(old(self).entries(), key) ==> final(self).priority_state() == next_priority(
                old(self).priority_state(),
            ),
    {
        match self.root.take() {
            Some(root) => {
                let prio = self.priorities.peek();
                let (root, created) = Node::add(root, key, val, prio);
                if created {
                    self.priorities.draw();
                }
                self.root = Some(root);
            },
            None => {
                proof {
                    lemma_add_entry_sorted(Seq::<(K, V)>::empty(), key, val);
                    assert(add_entry(Seq::<(K, V)>::empty(), key, val) =~= seq![(key, val)]);
                }
                let prio = self.priorities.draw();
                self.root = Some(Node::new(key, val, prio));
                proof {
                    assert(seq![prio] =~= Seq::<u64>::empty().insert(0, prio));
                }
            },
        }
    }

    fn value(&mut self, key: &K) -> (r: Option<&mut V>)
        ensures
            r is None ==> *final(self) == *old(self),
            r matches Some(v) ==> *final(self) == old(self).with_value(*key, *final(v)),
    {
        match &mut self.root {
            Some(root) => root.value(key),
            None => None,
        }
    }

    fn rank(&self, key: &K) -> (r: usize) {
        match &self.root {
            Some(root) => root.rank(key),
            None => 0,
        }
    }

    fn select(&self, k: usize) -> (r: Option<&K>) {
        let size = Node::size(&self.root);
        proof {
            self.lemma_entries_sorted();
            lemma_opt_wf(self.root);
        }
        if k < size {
            match &self.root {
                Some(root) => Some(root.select(k)),
                None => None,
            }
        } else {
            None
        }
    }
}

} // verus!
