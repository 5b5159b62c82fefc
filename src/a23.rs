//! A 2-3 tree: nodes hold one key (two children) or two keys (three children),
//! every leaf is at the same depth, and each node records its subtree size.
use vstd::prelude::*;
use crate::entries::{
    add_entry, all_above, all_below, count_less, has_key, join, lemma_above_weaken,
    lemma_add_entry_bounds, lemma_below_weaken, lemma_count_less_bound, lemma_join_add,
    lemma_join_bounds, lemma_join_count_less, lemma_join_index, lemma_join_sorted, sorted_keys,
    value_of,
};
use crate::keys::{lemma_place, lemma_trichotomy, KeyBounds};
use crate::symbol_table::SymbolTable;
use core::cmp::Ordering;

verus! {

/// A node with one key and, unless it is a leaf, two children.
struct TwoNode<K, V> {
    key: K,
    val: V,
    count: usize,
    child: Option<(Box<Node<K, V>>, Box<Node<K, V>>)>,
}

/// A node with two keys and, unless it is a leaf, three children.
struct ThreeNode<K, V> {
    key1: K,
    val1: V,
    key2: K,
    val2: V,
    count: usize,
    child: Option<(Box<Node<K, V>>, Box<Node<K, V>>, Box<Node<K, V>>)>,
}

enum Node<K, V> {
    Two(TwoNode<K, V>),
    Three(ThreeNode<K, V>),
}

/// What an insertion below a node hands back: the rebuilt node, or the two
/// halves of a node that overflowed together with the key promoted between them.
enum Insertion<K, V> {
    Fit(Box<Node<K, V>>),
    Split(Box<Node<K, V>>, K, V, Box<Node<K, V>>),
}

/// The entries of a node with two keys.
spec fn three<K: KeyBounds, V>(a: Seq<(K, V)>, e1: (K, V), b: Seq<(K, V)>, e2: (K, V), c: Seq<(K, V)>) -> Seq<(K, V)> {
    join(join(a, e1, b), e2, c)
}

/// The parts of a node with two keys are ordered, so the whole is.
proof fn lemma_three<K: KeyBounds, V>(a: Seq<(K, V)>, e1: (K, V), b: Seq<(K, V)>, e2: (K, V), c: Seq<(K, V)>)
    requires
        sorted_keys(a),
        sorted_keys(b),
        sorted_keys(c),
        e1.0.precedes(e2.0),
        all_below(a, e1.0),
        all_above(b, e1.0),
        all_below(b, e2.0),
        all_above(c, e2.0),
    ensures
        sorted_keys(join(a, e1, b)),
        all_below(join(a, e1, b), e2.0),
        sorted_keys(three(a, e1, b, e2, c)),
        three(a, e1, b, e2, c).len() == a.len() + b.len() + c.len() + 2,
{
    lemma_join_sorted(a, e1, b);
    lemma_join_bounds(a, e1, b, e2.0);
    lemma_below_weaken(a, e1.0, e2.0);
    lemma_join_sorted(join(a, e1, b), e2, c);
}

impl<K: KeyBounds, V> Node<K, V> {
    spec fn entries(self) -> Seq<(K, V)>
        decreases self,
    {
        match self {
            Node::Two(n) => match n.child {
                Some((l, r)) => join(l.entries(), (n.key, n.val), r.entries()),
                None => join(Seq::empty(), (n.key, n.val), Seq::empty()),
            },
            Node::Three(n) => match n.child {
                Some((a, b, c)) => three(a.entries(), (n.key1, n.val1), b.entries(), (n.key2, n.val2), c.entries()),
                None => three(Seq::empty(), (n.key1, n.val1), Seq::empty(), (n.key2, n.val2), Seq::empty()),
            },
        }
    }

    /// Number of levels: 1 for a leaf.
    spec fn height(self) -> nat
        decreases self,
    {
        match self {
            Node::Two(n) => match n.child {
                Some((l, r)) => 1 + l.height(),
                None => 1,
            },
            Node::Three(n) => match n.child {
                Some((a, b, c)) => 1 + a.height(),
                None => 1,
            },
        }
    }

    spec fn stored_count(self) -> nat {
        match self {
            Node::Two(n) => n.count as nat,
            Node::Three(n) => n.count as nat,
        }
    }

    spec fn wf(self) -> bool
        decreases self,
    {
        match self {
            Node::Two(n) => match n.child {
                Some((l, r)) => {
                    &&& l.wf()
                    &&& r.wf()
                    &&& l.height() == r.height()
                    &&& all_below(l.entries(), n.key)
                    &&& all_above(r.entries(), n.key)
                    &&& n.count == l.stored_count() + 1 + r.stored_count()
                },
                None => n.count == 1,
            },
            Node::Three(n) => match n.child {
                Some((a, b, c)) => {
                    &&& a.wf()
                    &&& b.wf()
                    &&& c.wf()
                    &&& a.height() == b.height()
                    &&& b.height() == c.height()
                    &&& n.key1.precedes(n.key2)
                    &&& all_below(a.entries(), n.key1)
                    &&& all_above(b.entries(), n.key1)
                    &&& all_below(b.entries(), n.key2)
                    &&& all_above(c.entries(), n.key2)
                    &&& n.count == a.stored_count() + b.stored_count() + c.stored_count() + 2
                },
                None => n.key1.precedes(n.key2) && n.count == 2,
            },
        }
    }

    proof fn lemma_wf(self)
        requires
            self.wf(),
        ensures
            sorted_keys(self.entries()),
            self.stored_count() == self.entries().len(),
            self.height() >= 1,
            vstd::arithmetic::power2::pow2(self.height()) <= self.entries().len() + 1,
        decreases self,
    {
        vstd::arithmetic::power2::lemma_pow2_unfold(self.height());
        match self {
            Node::Two(n) => match n.child {
                Some((l, r)) => {
                    l.lemma_wf();
                    r.lemma_wf();
                    lemma_join_sorted(l.entries(), (n.key, n.val), r.entries());
                },
                None => {
                    lemma_join_sorted(Seq::<(K, V)>::empty(), (n.key, n.val), Seq::<(K, V)>::empty());
                    vstd::arithmetic::power2::lemma2_to64();
                },
            },
            Node::Three(n) => match n.child {
                Some((a, b, c)) => {
                    a.lemma_wf();
                    b.lemma_wf();
                    c.lemma_wf();
                    lemma_three(a.entries(), (n.key1, n.val1), b.entries(), (n.key2, n.val2), c.entries());
                },
                None => {
                    lemma_three(Seq::<(K, V)>::empty(), (n.key1, n.val1), Seq::<(K, V)>::empty(), (n.key2, n.val2), Seq::<(K, V)>::empty());
                    vstd::arithmetic::power2::lemma2_to64();
                },
            },
        }
    }

    fn count(&self) -> (r: usize)
        ensures
            r == self.stored_count(),
    {
        match self {
            Node::Two(n) => n.count,
            Node::Three(n) => n.count,
        }
    }
}

impl<K: KeyBounds, V> TwoNode<K, V> {
    /// A leaf with one key.
    fn new(key: K, val: V) -> (r: Self)
        ensures
            Node::Two(r).wf(),
            Node::Two(r).height() == 1,
            Node::Two(r).entries() == join(Seq::empty(), (key, val), Seq::empty()),
    {
        TwoNode { key, val, count: 1, child: None }
    }

    /// An inner node with one key between two subtrees of equal height.
    fn new_with_child(key: K, val: V, left: Box<Node<K, V>>, right: Box<Node<K, V>>) -> (r: Self)
        requires
            left.wf(),
            right.wf(),
            left.height() == right.height(),
            all_below(left.entries(), key),
            all_above(right.entries(), key),
            left.entries().len() + 1 + right.entries().len() <= usize::MAX,
        ensures
            Node::Two(r).wf(),
            Node::Two(r).height() == left.height() + 1,
            Node::Two(r).entries() == join(left.entries(), (key, val), right.entries()),
    {
        proof {
            left.lemma_wf();
            right.lemma_wf();
        }
        let count = 1 + left.count() + right.count();
        TwoNode { key, val, count, child: Some((left, right)) }
    }
}

impl<K: KeyBounds, V> ThreeNode<K, V> {
    /// A leaf with two keys.
    fn new(key1: K, val1: V, key2: K, val2: V) -> (r: Self)
        requires
            key1.precedes(key2),
        ensures
            Node::Three(r).wf(),
            Node::Three(r).height() == 1,
            Node::Three(r).entries() == three(Seq::empty(), (key1, val1), Seq::empty(), (key2, val2), Seq::empty()),
    {
        ThreeNode { key1, val1, key2, val2, count: 2, child: None }
    }

    /// An inner node with two keys among three subtrees of equal height.
    fn new_with_child(
        key1: K,
        val1: V,
        key2: K,
        val2: V,
        a: Box<Node<K, V>>,
        b: Box<Node<K, V>>,
        c: Box<Node<K, V>>,
    ) -> (r: Self)
        requires
            a.wf(),
            b.wf(),
            c.wf(),
            a.height() == b.height(),
            b.height() == c.height(),
            key1.precedes(key2),
            all_below(a.entries(), key1),
            all_above(b.entries(), key1),
            all_below(b.entries(), key2),
            all_above(c.entries(), key2),
            a.entries().len() + b.entries().len() + c.entries().len() + 2 <= usize::MAX,
        ensures
            Node::Three(r).wf(),
            Node::Three(r).height() == a.height() + 1,
            Node::Three(r).entries() == three(a.entries(), (key1, val1), b.entries(), (key2, val2), c.entries()),
    {
        proof {
            a.lemma_wf();
            b.lemma_wf();
            c.lemma_wf();
        }
        let count = 2 + a.count() + b.count() + c.count();
        ThreeNode { key1, val1, key2, val2, count, child: Some((a, b, c)) }
    }
}


/// The entries of the two subtrees of a node with one key (empty for a leaf).
spec fn two_kids<K: KeyBounds, V>(n: TwoNode<K, V>) -> (Seq<(K, V)>, Seq<(K, V)>) {
    match n.child {
        Some((l, r)) => (l.entries(), r.entries()),
        None => (Seq::empty(), Seq::empty()),
    }
}

/// The entries of the three subtrees of a node with two keys (empty for a leaf).
spec fn three_kids<K: KeyBounds, V>(n: ThreeNode<K, V>) -> (Seq<(K, V)>, Seq<(K, V)>, Seq<(K, V)>) {
    match n.child {
        Some((a, b, c)) => (a.entries(), b.entries(), c.entries()),
        None => (Seq::empty(), Seq::empty(), Seq::empty()),
    }
}

proof fn lemma_two_kids<K: KeyBounds, V>(n: TwoNode<K, V>)
    requires
        Node::Two(n).wf(),
    ensures
        sorted_keys(two_kids(n).0),
        sorted_keys(two_kids(n).1),
        all_below(two_kids(n).0, n.key),
        all_above(two_kids(n).1, n.key),
        Node::Two(n).entries() == join(two_kids(n).0, (n.key, n.val), two_kids(n).1),
{
    match n.child {
        Some((l, r)) => {
            l.lemma_wf();
            r.lemma_wf();
        },
        None => {},
    }
}

proof fn lemma_three_kids<K: KeyBounds, V>(n: ThreeNode<K, V>)
    requires
        Node::Three(n).wf(),
    ensures
        sorted_keys(three_kids(n).0),
        sorted_keys(three_kids(n).1),
        sorted_keys(three_kids(n).2),
        n.key1.precedes(n.key2),
        all_below(three_kids(n).0, n.key1),
        all_above(three_kids(n).1, n.key1),
        all_below(three_kids(n).1, n.key2),
        all_above(three_kids(n).2, n.key2),
        Node::Three(n).entries() == three(three_kids(n).0, (n.key1, n.val1), three_kids(n).1, (n.key2, n.val2), three_kids(n).2),
{
    match n.child {
        Some((a, b, c)) => {
            a.lemma_wf();
            b.lemma_wf();
            c.lemma_wf();
        },
        None => {},
    }
}

impl<K: KeyBounds, V> Insertion<K, V> {
    /// The insertion result stands for the entries `s` at height `h`.
    spec fn holds(self, h: nat, s: Seq<(K, V)>) -> bool {
        match self {
            Insertion::Fit(n) => n.wf() && n.height() == h && n.entries() == s,
            Insertion::Split(l, k, v, r) => {
                &&& l.wf()
                &&& r.wf()
                &&& l.height() == h
                &&& r.height() == h
                &&& all_below(l.entries(), k)
                &&& all_above(r.entries(), k)
                &&& join(l.entries(), (k, v), r.entries()) == s
            },
        }
    }
}

impl<K: KeyBounds, V> Node<K, V> {
    /// Inserts below `cur`; a node that overflows is split and its middle key
    /// handed up.
    fn add(cur: Box<Self>, key: K, val: V) -> (r: Insertion<K, V>)
        requires
            cur.wf(),
            cur.entries().len() < usize::MAX,
        ensures
            r.holds(cur.height(), add_entry(cur.entries(), key, val)),
            r is Split ==> !has_key(cur.entries(), key),
        decreases cur.entries().len(), 2nat,
    {
        match *cur {
            Node::Two(n) => Node::add_two(n, key, val),
            Node::Three(n) => Node::add_three(n, key, val),
        }
    }

    /// Inserts into a node with one key: a leaf grows into a node with two
    /// keys, an inner node absorbs a key promoted by a split below it.
    #[verifier::rlimit(40)]
    fn add_two(n: TwoNode<K, V>, key: K, val: V) -> (r: Insertion<K, V>)
        requires
            Node::Two(n).wf(),
            Node::Two(n).entries().len() < usize::MAX,
        ensures
            r.holds(Node::Two(n).height(), add_entry(Node::Two(n).entries(), key, val)),
            r is Split ==> !has_key(Node::Two(n).entries(), key),
        decreases Node::Two(n).entries().len(), 0nat,
    {
        let ghost whole = Node::Two(n);
        let ghost e = (n.key, n.val);
        proof {
            whole.lemma_wf();
        }
        let mut n = n;
        let ord = key.compare(&n.key);
        if matches!(ord, Ordering::Equal) {
            proof {
                lemma_two_kids(n);
                lemma_join_add(two_kids(n).0, e, two_kids(n).1, key, val);
            }
            n.val = val;
            return Insertion::Fit(Box::new(Node::Two(n)));
        }
        let nkey = n.key;
        let nval = n.val;
        match n.child {
            None => {
                let ghost z = Seq::<(K, V)>::empty();
                proof {
                    lemma_join_add(z, e, z, key, val);
                    assert(add_entry(z, key, val) =~= seq![(key, val)]);
                }
                if matches!(ord, Ordering::Less) {
                    let t = ThreeNode::new(key, val, nkey, nval);
                    proof {
                        assert(three(z, (key, val), z, e, z) =~= join(add_entry(z, key, val), e, z));
                    }
                    Insertion::Fit(Box::new(Node::Three(t)))
                } else {
                    let t = ThreeNode::new(nkey, nval, key, val);
                    proof {
                        assert(three(z, e, z, (key, val), z) =~= join(z, e, add_entry(z, key, val)));
                    }
                    Insertion::Fit(Box::new(Node::Three(t)))
                }
            },
            Some((l, r)) => {
                let ghost ls = l.entries();
                let ghost rs = r.entries();
                proof {
                    l.lemma_wf();
                    r.lemma_wf();
                    lemma_join_add(ls, e, rs, key, val);
                    lemma_add_entry_bounds(ls, key, val, nkey);
                    lemma_add_entry_bounds(rs, key, val, nkey);
                }
                if matches!(ord, Ordering::Less) {
                    match Node::add(l, key, val) {
                        Insertion::Fit(l2) => {
                            Insertion::Fit(Box::new(Node::Two(TwoNode::new_with_child(nkey, nval, l2, r))))
                        },
                        Insertion::Split(c1, k, v, c2) => {
                            proof {
                                lemma_join_bounds(c1.entries(), (k, v), c2.entries(), nkey);
                            }
                            let t = ThreeNode::new_with_child(k, v, nkey, nval, c1, c2, r);
                            Insertion::Fit(Box::new(Node::Three(t)))
                        },
                    }
                } else {
                    match Node::add(r, key, val) {
                        Insertion::Fit(r2) => {
                            Insertion::Fit(Box::new(Node::Two(TwoNode::new_with_child(nkey, nval, l, r2))))
                        },
                        Insertion::Split(c1, k, v, c2) => {
                            let ghost c1s = c1.entries();
                            let ghost c2s = c2.entries();
                            proof {
                                lemma_join_bounds(c1s, (k, v), c2s, nkey);
                                assert(three(ls, e, c1s, (k, v), c2s) =~= join(ls, e, join(c1s, (k, v), c2s)));
                            }
                            let t = ThreeNode::new_with_child(nkey, nval, k, v, l, c1, c2);
                            Insertion::Fit(Box::new(Node::Three(t)))
                        },
                    }
                }
            },
        }
    }
}

impl<K: KeyBounds, V> Node<K, V> {
    /// Inserts into a node with two keys: replaces a value, or hands the key
    /// down to the leaf, or to the subtree on its side.
    fn add_three(n: ThreeNode<K, V>, key: K, val: V) -> (r: Insertion<K, V>)
        requires
            Node::Three(n).wf(),
            Node::Three(n).entries().len() < usize::MAX,
        ensures
            r.holds(Node::Three(n).height(), add_entry(Node::Three(n).entries(), key, val)),
            r is Split ==> !has_key(Node::Three(n).entries(), key),
        decreases Node::Three(n).entries().len(), 1nat,
    {
        let mut n = n;
        let ord1 = key.compare(&n.key1);
        let ord2 = key.compare(&n.key2);
        if matches!(ord1, Ordering::Equal) {
            proof {
                Node::Three(n).lemma_wf();
                lemma_three_kids(n);
                lemma_place(key, n.key1, n.key2);
                lemma_three(three_kids(n).0, (n.key1, n.val1), three_kids(n).1, (n.key2, n.val2), three_kids(n).2);
                lemma_join_add(join(three_kids(n).0, (n.key1, n.val1), three_kids(n).1), (n.key2, n.val2), three_kids(n).2, key, val);
                lemma_join_add(three_kids(n).0, (n.key1, n.val1), three_kids(n).1, key, val);
            }
            n.val1 = val;
            Insertion::Fit(Box::new(Node::Three(n)))
        } else if matches!(ord2, Ordering::Equal) {
            proof {
                Node::Three(n).lemma_wf();
                lemma_three_kids(n);
                lemma_place(key, n.key1, n.key2);
                lemma_three(three_kids(n).0, (n.key1, n.val1), three_kids(n).1, (n.key2, n.val2), three_kids(n).2);
                lemma_join_add(join(three_kids(n).0, (n.key1, n.val1), three_kids(n).1), (n.key2, n.val2), three_kids(n).2, key, val);
            }
            n.val2 = val;
            Insertion::Fit(Box::new(Node::Three(n)))
        } else if n.child.is_none() {
            Node::split_leaf(n, key, val)
        } else if matches!(ord1, Ordering::Less) {
            Node::add_three_left(n, key, val)
        } else if matches!(ord2, Ordering::Less) {
            Node::add_three_mid(n, key, val)
        } else {
            Node::add_three_right(n, key, val)
        }
    }

    /// A leaf with two keys receives a third: the middle one is promoted
    /// between two leaves with one key each.
    fn split_leaf(n: ThreeNode<K, V>, key: K, val: V) -> (r: Insertion<K, V>)
        requires
            Node::Three(n).wf(),
            Node::Three(n).entries().len() < usize::MAX,
            n.child is None,
            key != n.key1,
            key != n.key2,
        ensures
            r.holds(Node::Three(n).height(), add_entry(Node::Three(n).entries(), key, val)),
            r is Split ==> !has_key(Node::Three(n).entries(), key),
    {
        let ghost whole = Node::Three(n);
        let ghost e1 = (n.key1, n.val1);
        let ghost e2 = (n.key2, n.val2);
        let ghost z = Seq::<(K, V)>::empty();
        let ghost a_s = three_kids(n).0;
        let ghost b_s = three_kids(n).1;
        let ghost c_s = three_kids(n).2;
        proof {
            whole.lemma_wf();
            lemma_three_kids(n);
            lemma_place(key, n.key1, n.key2);
            lemma_three(a_s, e1, b_s, e2, c_s);
            lemma_join_add(join(a_s, e1, b_s), e2, c_s, key, val);
            lemma_join_add(a_s, e1, b_s, key, val);
            lemma_add_entry_bounds(a_s, key, val, n.key1);
            lemma_add_entry_bounds(b_s, key, val, n.key1);
            lemma_add_entry_bounds(b_s, key, val, n.key2);
            lemma_add_entry_bounds(c_s, key, val, n.key2);
        }
        let k1 = n.key1;
        let v1 = n.val1;
        let k2 = n.key2;
        let v2 = n.val2;
        proof {
            assert(add_entry(z, key, val) =~= seq![(key, val)]);
        }
        if matches!(key.compare(&k1), Ordering::Less) {
            proof {
                assert(join(join(z, (key, val), z), e1, join(z, e2, z)) =~= three(add_entry(z, key, val), e1, z, e2, z));
            }
            Insertion::Split(Box::new(Node::Two(TwoNode::new(key, val))), k1, v1, Box::new(Node::Two(TwoNode::new(k2, v2))))
        } else if matches!(key.compare(&k2), Ordering::Less) {
            proof {
                assert(join(join(z, e1, z), (key, val), join(z, e2, z)) =~= three(z, e1, add_entry(z, key, val), e2, z));
            }
            Insertion::Split(Box::new(Node::Two(TwoNode::new(k1, v1))), key, val, Box::new(Node::Two(TwoNode::new(k2, v2))))
        } else {
            proof {
                assert(join(join(z, e1, z), e2, join(z, (key, val), z)) =~= three(z, e1, z, e2, add_entry(z, key, val)));
            }
            Insertion::Split(Box::new(Node::Two(TwoNode::new(k1, v1))), k2, v2, Box::new(Node::Two(TwoNode::new(key, val))))
        }
    }

    /// Inserts below the first subtree; a split there splits this node too.
    fn add_three_left(n: ThreeNode<K, V>, key: K, val: V) -> (r: Insertion<K, V>)
        requires
            Node::Three(n).wf(),
            Node::Three(n).entries().len() < usize::MAX,
            n.child is Some,
            key.precedes(n.key1),
        ensures
            r.holds(Node::Three(n).height(), add_entry(Node::Three(n).entries(), key, val)),
            r is Split ==> !has_key(Node::Three(n).entries(), key),
        decreases Node::Three(n).entries().len(), 0nat,
    {
        let ghost whole = Node::Three(n);
        let ghost e1 = (n.key1, n.val1);
        let ghost e2 = (n.key2, n.val2);
        let ghost a_s = three_kids(n).0;
        let ghost b_s = three_kids(n).1;
        let ghost c_s = three_kids(n).2;
        proof {
            whole.lemma_wf();
            lemma_three_kids(n);
            lemma_place(key, n.key1, n.key2);
            lemma_three(a_s, e1, b_s, e2, c_s);
            lemma_join_add(join(a_s, e1, b_s), e2, c_s, key, val);
            lemma_join_add(a_s, e1, b_s, key, val);
            lemma_add_entry_bounds(a_s, key, val, n.key1);
            lemma_add_entry_bounds(b_s, key, val, n.key1);
            lemma_add_entry_bounds(b_s, key, val, n.key2);
            lemma_add_entry_bounds(c_s, key, val, n.key2);
        }
        let k1 = n.key1;
        let v1 = n.val1;
        let k2 = n.key2;
        let v2 = n.val2;
        match n.child {
            Some((a, b, c)) => {
                match Node::add(a, key, val) {
                    Insertion::Fit(a2) => {
                        let t = ThreeNode::new_with_child(k1, v1, k2, v2, a2, b, c);
                        Insertion::Fit(Box::new(Node::Three(t)))
                    },
                    Insertion::Split(c1, k, v, c2) => {
                        let ghost c1s = c1.entries();
                        let ghost c2s = c2.entries();
                        proof {
                            lemma_join_bounds(c1s, (k, v), c2s, k1);
                            lemma_above_weaken(c_s, k1, k2);
                            lemma_join_bounds(b_s, e2, c_s, k1);
                            assert(join(join(c1s, (k, v), c2s), e1, join(b_s, e2, c_s)) =~= three(join(c1s, (k, v), c2s), e1, b_s, e2, c_s));
                        }
                        let left = TwoNode::new_with_child(k, v, c1, c2);
                        let right = TwoNode::new_with_child(k2, v2, b, c);
                        Insertion::Split(Box::new(Node::Two(left)), k1, v1, Box::new(Node::Two(right)))
                    },
                }
            },
            None => unreached(),
        }
    }

    /// Inserts below the middle subtree; a split there splits this node too.
    #[verifier::rlimit(60)]
    fn add_three_mid(n: ThreeNode<K, V>, key: K, val: V) -> (r: Insertion<K, V>)
        requires
            Node::Three(n).wf(),
            Node::Three(n).entries().len() < usize::MAX,
            n.child is Some,
            n.key1.precedes(key),
            key.precedes(n.key2),
        ensures
            r.holds(Node::Three(n).height(), add_entry(Node::Three(n).entries(), key, val)),
            r is Split ==> !has_key(Node::Three(n).entries(), key),
        decreases Node::Three(n).entries().len(), 0nat,
    {
        let ghost whole = Node::Three(n);
        let ghost e1 = (n.key1, n.val1);
        let ghost e2 = (n.key2, n.val2);
        let ghost a_s = three_kids(n).0;
        let ghost b_s = three_kids(n).1;
        let ghost c_s = three_kids(n).2;
        proof {
            whole.lemma_wf();
            lemma_three_kids(n);
            lemma_place(key, n.key1, n.key2);
            lemma_three(a_s, e1, b_s, e2, c_s);
            lemma_join_add(join(a_s, e1, b_s), e2, c_s, key, val);
            lemma_join_add(a_s, e1, b_s, key, val);
            lemma_add_entry_bounds(a_s, key, val, n.key1);
            lemma_add_entry_bounds(b_s, key, val, n.key1);
            lemma_add_entry_bounds(b_s, key, val, n.key2);
            lemma_add_entry_bounds(c_s, key, val, n.key2);
        }
        let k1 = n.key1;
        let v1 = n.val1;
        let k2 = n.key2;
        let v2 = n.val2;
        match n.child {
            Some((a, b, c)) => {
                match Node::add(b, key, val) {
                    Insertion::Fit(b2) => {
                        let t = ThreeNode::new_with_child(k1, v1, k2, v2, a, b2, c);
                        Insertion::Fit(Box::new(Node::Three(t)))
                    },
                    Insertion::Split(c1, k, v, c2) => {
                        let ghost c1s = c1.entries();
                        let ghost c2s = c2.entries();
                        proof {
                            lemma_join_bounds(c1s, (k, v), c2s, k1);
                            lemma_join_bounds(c1s, (k, v), c2s, k2);
                            lemma_below_weaken(a_s, k1, k);
                            lemma_above_weaken(c_s, k, k2);
                            lemma_join_bounds(a_s, e1, c1s, k);
                            lemma_join_bounds(c2s, e2, c_s, k);
                            assert(join(join(a_s, e1, c1s), (k, v), join(c2s, e2, c_s)) =~= three(a_s, e1, join(c1s, (k, v), c2s), e2, c_s));
                        }
                        let left = TwoNode::new_with_child(k1, v1, a, c1);
                        let right = TwoNode::new_with_child(k2, v2, c2, c);
                        Insertion::Split(Box::new(Node::Two(left)), k, v, Box::new(Node::Two(right)))
                    },
                }
            },
            None => unreached(),
        }
    }

    /// Inserts below the last subtree; a split there splits this node too.
    fn add_three_right(n: ThreeNode<K, V>, key: K, val: V) -> (r: Insertion<K, V>)
        requires
            Node::Three(n).wf(),
            Node::Three(n).entries().len() < usize::MAX,
            n.child is Some,
            n.key2.precedes(key),
        ensures
            r.holds(Node::Three(n).height(), add_entry(Node::Three(n).entries(), key, val)),
            r is Split ==> !has_key(Node::Three(n).entries(), key),
        decreases Node::Three(n).entries().len(), 0nat,
    {
        let ghost whole = Node::Three(n);
        let ghost e1 = (n.key1, n.val1);
        let ghost e2 = (n.key2, n.val2);
        let ghost a_s = three_kids(n).0;
        let ghost b_s = three_kids(n).1;
        let ghost c_s = three_kids(n).2;
        proof {
            whole.lemma_wf();
            lemma_three_kids(n);
            lemma_place(key, n.key1, n.key2);
            lemma_three(a_s, e1, b_s, e2, c_s);
            lemma_join_add(join(a_s, e1, b_s), e2, c_s, key, val);
            lemma_join_add(a_s, e1, b_s, key, val);
            lemma_add_entry_bounds(a_s, key, val, n.key1);
            lemma_add_entry_bounds(b_s, key, val, n.key1);
            lemma_add_entry_bounds(b_s, key, val, n.key2);
            lemma_add_entry_bounds(c_s, key, val, n.key2);
        }
        let k1 = n.key1;
        let v1 = n.val1;
        let k2 = n.key2;
        let v2 = n.val2;
        match n.child {
            Some((a, b, c)) => {
                match Node::add(c, key, val) {
                    Insertion::Fit(c2) => {
                        let t = ThreeNode::new_with_child(k1, v1, k2, v2, a, b, c2);
                        Insertion::Fit(Box::new(Node::Three(t)))
                    },
                    Insertion::Split(c1, k, v, c2) => {
                        let ghost c1s = c1.entries();
                        let ghost c2s = c2.entries();
                        proof {
                            lemma_join_bounds(c1s, (k, v), c2s, k2);
                        }
                        let left = TwoNode::new_with_child(k1, v1, a, b);
                        let right = TwoNode::new_with_child(k, v, c1, c2);
                        Insertion::Split(Box::new(Node::Two(left)), k2, v2, Box::new(Node::Two(right)))
                    },
                }
            },
            None => unreached(),
        }
    }
}

impl<K: KeyBounds, V> Node<K, V> {
    /// The node with the value of `k` replaced by `v`, following the search
    /// path for `k`; every other field stays as it is.
    spec fn with_value(self, k: K, v: V) -> Self
        decreases self,
    {
        match self {
            Node::Two(n) => if n.key == k {
                Node::Two(TwoNode { val: v, ..n })
            } else {
                match n.child {
                    Some((l, r)) => if k.precedes(n.key) {
                        Node::Two(TwoNode { child: Some((Box::new(l.with_value(k, v)), r)), ..n })
                    } else {
                        Node::Two(TwoNode { child: Some((l, Box::new(r.with_value(k, v)))), ..n })
                    },
                    None => self,
                }
            },
            Node::Three(n) => if n.key1 == k {
                Node::Three(ThreeNode { val1: v, ..n })
            } else if n.key2 == k {
                Node::Three(ThreeNode { val2: v, ..n })
            } else {
                match n.child {
                    Some((a, b, c)) => if k.precedes(n.key1) {
                        Node::Three(ThreeNode { child: Some((Box::new(a.with_value(k, v)), b, c)), ..n })
                    } else if k.precedes(n.key2) {
                        Node::Three(ThreeNode { child: Some((a, Box::new(b.with_value(k, v)), c)), ..n })
                    } else {
                        Node::Three(ThreeNode { child: Some((a, b, Box::new(c.with_value(k, v)))), ..n })
                    },
                    None => self,
                }
            },
        }
    }

    fn value(&mut self, key: &K) -> (r: Option<&mut V>)
        requires
            old(self).wf(),
        ensures
            final(self).wf(),
            final(self).height() == old(self).height(),
            final(self).stored_count() == old(self).stored_count(),
            match r {
                Some(v) => {
                    &&& has_key(old(self).entries(), *key)
                    &&& Some(*v) == value_of(old(self).entries(), *key)
                    &&& final(self).entries() == old(self).entries().update(
                        count_less(old(self).entries(), *key) as int,
                        (*key, *final(v)),
                    )
                },
                None => {
                    &&& !has_key(old(self).entries(), *key)
                    &&& final(self).entries() == old(self).entries()
                },
            },
            r is None ==> *final(self) == *old(self),
            r matches Some(v) ==> *final(self) == old(self).with_value(*key, *final(v)),
        decreases old(self).entries().len(),
    {
        match self {
            Node::Two(n) => {
                proof {
                    lemma_two_kids(*n);
                    lemma_trichotomy(*key, n.key);
                    lemma_join_add(two_kids(*n).0, (n.key, n.val), two_kids(*n).1, *key, n.val);
                    lemma_join_count_less(two_kids(*n).0, (n.key, n.val), two_kids(*n).1, *key);
                }
                let ord = key.compare(&n.key);
                if matches!(ord, Ordering::Equal) {
                    Some(&mut n.val)
                } else {
                    match &mut n.child {
                        Some((l, r)) => {
                            if matches!(ord, Ordering::Less) {
                                l.value(key)
                            } else {
                                r.value(key)
                            }
                        },
                        None => None,
                    }
                }
            },
            Node::Three(n) => {
                proof {
                    let a = three_kids(*n).0;
                    let b = three_kids(*n).1;
                    let c = three_kids(*n).2;
                    lemma_three_kids(*n);
                    lemma_place(*key, n.key1, n.key2);
                    lemma_three(a, (n.key1, n.val1), b, (n.key2, n.val2), c);
                    lemma_join_add(join(a, (n.key1, n.val1), b), (n.key2, n.val2), c, *key, n.val1);
                    lemma_join_add(a, (n.key1, n.val1), b, *key, n.val1);
                    lemma_join_count_less(join(a, (n.key1, n.val1), b), (n.key2, n.val2), c, *key);
                    lemma_join_count_less(a, (n.key1, n.val1), b, *key);
                }
                let ord1 = key.compare(&n.key1);
                let ord2 = key.compare(&n.key2);
                if matches!(ord1, Ordering::Equal) {
                    Some(&mut n.val1)
                } else if matches!(ord2, Ordering::Equal) {
                    Some(&mut n.val2)
                } else {
                    match &mut n.child {
                        Some((a, b, c)) => {
                            if matches!(ord1, Ordering::Less) {
                                a.value(key)
                            } else if matches!(ord2, Ordering::Less) {
                                b.value(key)
                            } else {
                                c.value(key)
                            }
                        },
                        None => None,
                    }
                }
            },
        }
    }

    fn rank(&self, key: &K) -> (r: usize)
        requires
            self.wf(),
        ensures
            r == count_less(self.entries(), *key),
        decreases self.entries().len(),
    {
        proof {
            self.lemma_wf();
        }
        match self {
            Node::Two(n) => {
                proof {
                    lemma_two_kids(*n);
                    lemma_trichotomy(*key, n.key);
                    lemma_join_count_less(two_kids(*n).0, (n.key, n.val), two_kids(*n).1, *key);
                    lemma_count_less_bound(two_kids(*n).1, *key);
                }
                match &n.child {
                    Some((l, r)) => {
                        proof {
                            l.lemma_wf();
                        }
                        if !matches!(n.key.compare(key), Ordering::Less) {
                            l.rank(key)
                        } else {
                            l.count() + 1 + r.rank(key)
                        }
                    },
                    None => {
                        if !matches!(n.key.compare(key), Ordering::Less) {
                            0
                        } else {
                            1
                        }
                    },
                }
            },
            Node::Three(n) => {
                proof {
                    let a = three_kids(*n).0;
                    let b = three_kids(*n).1;
                    let c = three_kids(*n).2;
                    lemma_three_kids(*n);
                    lemma_place(*key, n.key1, n.key2);
                    lemma_three(a, (n.key1, n.val1), b, (n.key2, n.val2), c);
                    lemma_join_count_less(join(a, (n.key1, n.val1), b), (n.key2, n.val2), c, *key);
                    lemma_join_count_less(a, (n.key1, n.val1), b, *key);
                    lemma_count_less_bound(b, *key);
                    lemma_count_less_bound(c, *key);
                }
                match &n.child {
                    Some((a, b, c)) => {
                        proof {
                            a.lemma_wf();
                            b.lemma_wf();
                        }
                        if !matches!(n.key1.compare(key), Ordering::Less) {
                            a.rank(key)
                        } else if !matches!(n.key2.compare(key), Ordering::Less) {
                            a.count() + 1 + b.rank(key)
                        } else {
                            a.count() + b.count() + 2 + c.rank(key)
                        }
                    },
                    None => {
                        if !matches!(n.key1.compare(key), Ordering::Less) {
                            0
                        } else if !matches!(n.key2.compare(key), Ordering::Less) {
                            1
                        } else {
                            2
                        }
                    },
                }
            },
        }
    }

    fn select(&self, k: usize) -> (r: &K)
        requires
            self.wf(),
            k < self.entries().len(),
        ensures
            *r == self.entries()[k as int].0,
        decreases self.entries().len(),
    {
        match self {
            Node::Two(n) => {
                proof {
                    lemma_two_kids(*n);
                    lemma_join_index(two_kids(*n).0, (n.key, n.val), two_kids(*n).1, k as int);
                }
                match &n.child {
                    Some((l, r)) => {
                        proof {
                            l.lemma_wf();
                        }
                        let left_count = l.count();
                        if k == left_count {
                            &n.key
                        } else if k < left_count {
                            l.select(k)
                        } else {
                            r.select(k - (left_count + 1))
                        }
                    },
                    None => &n.key,
                }
            },
            Node::Three(n) => {
                proof {
                    let a = three_kids(*n).0;
                    let b = three_kids(*n).1;
                    let c = three_kids(*n).2;
                    lemma_three_kids(*n);
                    lemma_three(a, (n.key1, n.val1), b, (n.key2, n.val2), c);
                    lemma_join_index(join(a, (n.key1, n.val1), b), (n.key2, n.val2), c, k as int);
                    if k < a.len() + 1 + b.len() {
                        lemma_join_index(a, (n.key1, n.val1), b, k as int);
                    }
                }
                match &n.child {
                    Some((a, b, c)) => {
                        proof {
                            a.lemma_wf();
                            b.lemma_wf();
                        }
                        let left_count = a.count();
                        let mid_count = b.count();
                        if k == left_count {
                            &n.key1
                        } else if k == left_count + mid_count + 1 {
                            &n.key2
                        } else if k < left_count {
                            a.select(k)
                        } else if k < left_count + mid_count + 1 {
                            b.select(k - (left_count + 1))
                        } else {
                            c.select(k - (left_count + mid_count + 2))
                        }
                    },
                    None => {
                        if k == 0 {
                            &n.key1
                        } else {
                            &n.key2
                        }
                    },
                }
            },
        }
    }
}

pub struct A23<K, V> {
    root: Option<Box<Node<K, V>>>,
}

impl<K: KeyBounds, V> A23<K, V> {
    /// An empty map.
    pub fn new() -> (r: Self)
        ensures
            r.wf(),
            r.entries() == Seq::<(K, V)>::empty(),
            r.height() == 0,
    {
        A23 { root: None }
    }

    /// The map with the value of `k` replaced by `v`, no node moved.
    pub closed spec fn with_value(&self, k: K, v: V) -> Self {
        match self.root {
            Some(n) => A23 { root: Some(Box::new(n.with_value(k, v))) },
            None => *self,
        }
    }

    /// Number of levels of the tree: 0 when empty, 1 for a single leaf.
    pub closed spec fn height(&self) -> nat {
        match self.root {
            Some(n) => n.height(),
            None => 0,
        }
    }

    /// Number of levels of the tree.
    pub fn levels(&self) -> (r: usize)
        requires
            self.wf(),
        ensures
            r == self.height(),
    {
        proof {
            self.lemma_height_bound();
        }
        match &self.root {
            None => 0,
            Some(root) => {
                let mut h: usize = 1;
                let mut cur: &Node<K, V> = root;
                loop
                    invariant
                        cur.wf(),
                        h >= 1,
                        h + cur.height() == self.height() + 1,
                        self.height() <= 64,
                    decreases cur.height(),
                {
                    let next: &Node<K, V> = match cur {
                        Node::Two(t) => match &t.child {
                            Some((l, _)) => l,
                            None => return h,
                        },
                        Node::Three(t) => match &t.child {
                            Some((a, _, _)) => a,
                            None => return h,
                        },
                    };
                    h = h + 1;
                    cur = next;
                }
            },
        }
    }

    /// A 2-3 tree with `n` entries has at most log2(n + 1) levels.
    pub proof fn lemma_height_bound(&self)
        requires
            self.wf(),
        ensures
            vstd::arithmetic::power2::pow2(self.height()) <= self.entries().len() + 1,
            self.height() <= 64,
    {
        match self.root {
            Some(n) => {
                n.lemma_wf();
                vstd::arithmetic::power2::lemma2_to64();
                if n.height() > 64 {
                    vstd::arithmetic::power2::lemma_pow2_strictly_increases(64, n.height());
                }
            },
            None => {
                vstd::arithmetic::power2::lemma2_to64();
            },
        }
    }
}

impl<K: KeyBounds, V> SymbolTable<K, V> for A23<K, V> {
    closed spec fn entries(&self) -> Seq<(K, V)> {
        match self.root {
            Some(n) => n.entries(),
            None => Seq::empty(),
        }
    }

    closed spec fn wf(&self) -> bool {
        match self.root {
            Some(n) => n.wf(),
            None => true,
        }
    }

    proof fn lemma_entries_sorted(&self) {
        match self.root {
            Some(n) => n.lemma_wf(),
            None => {},
        }
    }

    fn add(&mut self, key: K, val: V)
        ensures
            has_key(old(self).entries(), key) ==> final(self).height() == old(self).height(),
            !has_key(old(self).entries(), key) ==> final(self).height() == old(self).height()
                || final(self).height() == old(self).height() + 1,
    {
        match self.root.take() {
            Some(root) => {
                proof {
                    root.lemma_wf();
                }
                match Node::add(root, key, val) {
                    Insertion::Fit(n) => {
                        self.root = Some(n);
                    },
                    Insertion::Split(l, k, v, r) => {
                        proof {
                            l.lemma_wf();
                            r.lemma_wf();
                            lemma_add_entry_bounds(old(self).entries(), key, val, key);
                        }
                        self.root = Some(Box::new(Node::Two(TwoNode::new_with_child(k, v, l, r))));
                    },
                }
            },
            None => {
                proof {
                    let z = Seq::<(K, V)>::empty();
                    assert(add_entry(z, key, val) =~= join(z, (key, val), z));
                }
                self.root = Some(Box::new(Node::Two(TwoNode::new(key, val))));
            },
        }
    }

    fn value(&mut self, key: &K) -> (r: Option<&mut V>)
        ensures
            r is None ==> *final(self) == *old(self),
            r matches Some(v) ==> *final(self) == old(self).with_value(*key, *final(v)),
    {
        match &mut self.root {
            Some(root) => root.value(key),
            None => None,
        }
    }

    fn rank(&self, key: &K) -> (r: usize) {
        match &self.root {
            Some(root) => root.rank(key),
            None => 0,
        }
    }

    fn select(&self, k: usize) -> (r: Option<&K>) {
        match &self.root {
            Some(root) => {
                proof {
                    root.lemma_wf();
                }
                if k < root.count() {
                    Some(root.select(k))
                } else {
                    None
                }
            },
            None => None,
        }
    }
}

} // verus!
