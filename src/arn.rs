//! A red-black tree with subtree sizes. A new key enters as a red leaf; on the
//! way back up, a red child with a red child of its own is repaired at the
//! grandparent by recoloring (red uncle) or by one or two rotations.
use vstd::prelude::*;
use crate::entries::{
    add_entry, all_above, all_below, count_less, has_key, join, lemma_above_weaken,
    lemma_add_entry_bounds, lemma_add_entry_sorted, lemma_below_weaken, lemma_count_less_bound,
    lemma_join_add, lemma_join_bounds, lemma_join_count_less, lemma_join_index, lemma_join_sorted,
    sorted_keys, value_of,
};
use crate::keys::{lemma_asymmetric, KeyBounds};
use crate::symbol_table::SymbolTable;
use core::cmp::Ordering;

verus! {

#[derive(PartialEq, Eq, Structural, Clone, Copy)]
enum Color {
    Red,
    Black,
}

struct Node<K, V> {
    key: K,
    val: V,
    color: Color,
    /// Number of nodes in the subtree rooted here, this one included.
    count: usize,
    left: Option<Box<Node<K, V>>>,
    right: Option<Box<Node<K, V>>>,
}

spec fn opt_entries<K: KeyBounds, V>(t: Option<Box<Node<K, V>>>) -> Seq<(K, V)> {
    match t {
        Some(n) => n.entries(),
        None => Seq::empty(),
    }
}

spec fn opt_wf<K: KeyBounds, V>(t: Option<Box<Node<K, V>>>) -> bool {
    match t {
        Some(n) => n.wf(),
        None => true,
    }
}

spec fn opt_count<K: KeyBounds, V>(t: Option<Box<Node<K, V>>>) -> nat {
    match t {
        Some(n) => n.count as nat,
        None => 0,
    }
}

proof fn lemma_opt_wf<K: KeyBounds, V>(t: Option<Box<Node<K, V>>>)
    requires
        opt_wf(t),
    ensures
        sorted_keys(opt_entries(t)),
        opt_count(t) == opt_entries(t).len(),
    decreases t,
{
    if let Some(n) = t {
        n.lemma_wf();
    }
}


spec fn is_red<K: KeyBounds, V>(t: Option<Box<Node<K, V>>>) -> bool {
    match t {
        Some(n) => n.color == Color::Red,
        None => false,
    }
}

/// Black nodes on the leftmost path (on every path, in a valid tree).
spec fn black_height<K: KeyBounds, V>(t: Option<Box<Node<K, V>>>) -> nat
    decreases t,
{
    match t {
        Some(n) => black_height(n.left) + if n.color == Color::Black {
            1nat
        } else {
            0nat
        },
        None => 0,
    }
}

/// Every path has the same number of black nodes and no red node has a red child.
spec fn red_black<K: KeyBounds, V>(t: Option<Box<Node<K, V>>>) -> bool
    decreases t,
{
    match t {
        Some(n) => {
            &&& red_black(n.left)
            &&& red_black(n.right)
            &&& black_height(n.left) == black_height(n.right)
            &&& n.color == Color::Red ==> !is_red(n.left) && !is_red(n.right)
        },
        None => true,
    }
}

/// Valid below the node, with at most one red child: what an insertion may
/// leave at a red subtree root until its parent's parent repairs it.
spec fn red_black_below<K: KeyBounds, V>(n: Node<K, V>) -> bool {
    &&& red_black(n.left)
    &&& red_black(n.right)
    &&& black_height(n.left) == black_height(n.right)
    &&& n.color == Color::Red ==> !(is_red(n.left) && is_red(n.right))
}

/// Number of nodes on the longest path from the root.
spec fn tree_height<K: KeyBounds, V>(t: Option<Box<Node<K, V>>>) -> nat
    decreases t,
{
    match t {
        Some(n) => {
            let l = tree_height(n.left);
            let r = tree_height(n.right);
            1 + if l >= r {
                l
            } else {
                r
            }
        },
        None => 0,
    }
}

/// A valid tree is at most twice as high as its black height (plus one for a
/// red root) and holds at least 2^bh - 1 nodes.
proof fn lemma_red_black_height<K: KeyBounds, V>(t: Option<Box<Node<K, V>>>)
    requires
        red_black(t),
        opt_wf(t),
    ensures
        tree_height(t) <= 2 * black_height(t) + if is_red(t) {
            1int
        } else {
            0int
        },
        vstd::arithmetic::power2::pow2(black_height(t)) <= opt_entries(t).len() + 1,
    decreases t,
{
    vstd::arithmetic::power2::lemma2_to64();
    match t {
        Some(n) => {
            lemma_opt_wf(t);
            lemma_opt_wf(n.left);
            lemma_opt_wf(n.right);
            lemma_red_black_height(n.left);
            lemma_red_black_height(n.right);
            if black_height(t) > 0 {
                vstd::arithmetic::power2::lemma_pow2_unfold(black_height(t));
            }
        },
        None => {},
    }
}

/// No path is longer than the number of nodes.
proof fn lemma_height_le_count<K: KeyBounds, V>(t: Option<Box<Node<K, V>>>)
    requires
        opt_wf(t),
    ensures
        tree_height(t) <= opt_count(t),
    decreases t,
{
    if let Some(n) = t {
        lemma_height_le_count(n.left);
        lemma_height_le_count(n.right);
    }
}

/// Number of nodes on the longest path from the root of `t`.
fn levels<K: KeyBounds, V>(t: &Option<Box<Node<K, V>>>) -> (r: usize)
    requires
        opt_wf(*t),
    ensures
        r == tree_height(*t),
    decreases *t,
{
    proof {
        lemma_height_le_count(*t);
    }
    match t {
        Some(n) => {
            let l = levels(&n.left);
            let r = levels(&n.right);
            if l >= r {
                1 + l
            } else {
                1 + r
            }
        },
        None => 0,
    }
}

impl<K: KeyBounds, V> Node<K, V> {
    spec fn entries(self) -> Seq<(K, V)>
        decreases self,
    {
        join(
            match self.left {
                Some(l) => l.entries(),
                None => Seq::empty(),
            },
            (self.key, self.val),
            match self.right {
                Some(r) => r.entries(),
                None => Seq::empty(),
            },
        )
    }

    spec fn wf(self) -> bool
        decreases self,
    {
        &&& match self.left {
            Some(l) => l.wf(),
            None => true,
        }
        &&& match self.right {
            Some(r) => r.wf(),
            None => true,
        }
        &&& all_below(opt_entries(self.left), self.key)
        &&& all_above(opt_entries(self.right), self.key)
        &&& self.count == opt_count(self.left) + 1 + opt_count(self.right)
    }

    proof fn lemma_wf(self)
        requires
            self.wf(),
        ensures
            sorted_keys(self.entries()),
            self.count == self.entries().len(),
        decreases self,
    {
        lemma_opt_wf(self.left);
        lemma_opt_wf(self.right);
        lemma_join_sorted(opt_entries(self.left), (self.key, self.val), opt_entries(self.right));
    }

    /// A new leaf on the heap.
    fn new(key: K, val: V) -> (r: Box<Self>)
        ensures
            r.wf(),
            r.entries() == seq![(key, val)],
            r.color == Color::Red,
            r.left is None,
            r.right is None,
    {
        let r = Box::new(Node { key, val, color: Color::Red, count: 1, left: None, right: None });
        assert(r.entries() =~= seq![(key, val)]);
        r
    }

    fn size(t: &Option<Box<Node<K, V>>>) -> (r: usize)
        ensures
            r == opt_count(*t),
    {
        match t {
            Some(n) => n.count,
            None => 0,
        }
    }

    fn update_count(&mut self)
        requires
            opt_count(old(self).left) + 1 + opt_count(old(self).right) <= usize::MAX,
        ensures
            *final(self) == (Node { count: final(self).count, ..*old(self) }),
            final(self).count == opt_count(old(self).left) + 1 + opt_count(old(self).right),
    {
        self.count = 1 + Node::size(&self.left) + Node::size(&self.right);
    }

    fn is_red(t: &Option<Box<Node<K, V>>>) -> (r: bool)
        ensures
            r == is_red(*t),
    {
        match t {
            Some(n) => n.color == Color::Red,
            None => false,
        }
    }

    /// Hangs `p` as the left subtree of `g` when no repair is needed.
    fn attach_left(g: Box<Self>, p: Box<Self>) -> (r: Box<Self>)
        requires
            p.wf(),
            opt_wf(g.right),
            all_below(p.entries(), g.key),
            all_above(opt_entries(g.right), g.key),
            p.entries().len() + 1 + opt_entries(g.right).len() <= usize::MAX,
            red_black(g.right),
            red_black_below(*p),
            p.color == Color::Black ==> red_black(Some(p)),
            black_height(Some(p)) == black_height(g.right),
            g.color == Color::Red ==> red_black(Some(p)) && !is_red(g.right),
            !(p.color == Color::Red && (is_red(p.left) || is_red(p.right))),
        ensures
            r.wf(),
            r.entries() == join(p.entries(), (g.key, g.val), opt_entries(g.right)),
            black_height(Some(r)) == black_height(Some(p)) + if g.color == Color::Black {
                1nat
            } else {
                0nat
            },
            red_black_below(*r),
            g.color == Color::Black ==> red_black(Some(r)),
            g.color == Color::Red ==> r.color == Color::Red,
    {
        let mut g = g;
        let mut p = p;
        proof {
            p.lemma_wf();
            lemma_opt_wf(p.left);
            lemma_opt_wf(p.right);
            lemma_opt_wf(g.right);
            lemma_join_bounds(opt_entries(p.left), (p.key, p.val), opt_entries(p.right), g.key);
        }
        proof {
            assert(red_black(Some(p)));
        }
        g.left = Some(p);
        g.update_count();
        proof {
            assert(black_height(Some(g)) == black_height(g.left) + if g.color == Color::Black {
                1nat
            } else {
                0nat
            });
        }
        g
    }

    /// Red parent and red uncle: both turn black and the grandparent red.
    fn recolor_left(g: Box<Self>, p: Box<Self>) -> (r: Box<Self>)
        requires
            p.wf(),
            opt_wf(g.right),
            all_below(p.entries(), g.key),
            all_above(opt_entries(g.right), g.key),
            p.entries().len() + 1 + opt_entries(g.right).len() <= usize::MAX,
            red_black(g.right),
            red_black_below(*p),
            p.color == Color::Black ==> red_black(Some(p)),
            black_height(Some(p)) == black_height(g.right),
            g.color == Color::Red ==> red_black(Some(p)) && !is_red(g.right),
            p.color == Color::Red,
            is_red(p.left) || is_red(p.right),
            is_red(g.right),
        ensures
            r.wf(),
            r.entries() == join(p.entries(), (g.key, g.val), opt_entries(g.right)),
            black_height(Some(r)) == black_height(Some(p)) + if g.color == Color::Black {
                1nat
            } else {
                0nat
            },
            red_black_below(*r),
            g.color == Color::Black ==> red_black(Some(r)),
            g.color == Color::Red ==> r.color == Color::Red,
    {
        let mut g = g;
        let mut p = p;
        proof {
            p.lemma_wf();
            lemma_opt_wf(p.left);
            lemma_opt_wf(p.right);
            lemma_opt_wf(g.right);
            lemma_join_bounds(opt_entries(p.left), (p.key, p.val), opt_entries(p.right), g.key);
        }
        let ghost p_before = p;
        p.color = Color::Black;
        proof {
            assert(p.entries() == p_before.entries());
            assert(p.wf());
            assert(red_black(Some(p)));
            assert(black_height(Some(p)) == black_height(Some(p_before)) + 1);
        }
        match g.right.take() {
            Some(mut u) => {
                let ghost u_before = u;
                u.color = Color::Black;
                proof {
                    assert(u.entries() == u_before.entries());
                    assert(u.wf());
                    assert(red_black(Some(u)));
                    assert(black_height(Some(u)) == black_height(Some(u_before)) + 1);
                }
                g.right = Some(u);
            },
            None => {},
        }
        g.color = Color::Red;
        g.left = Some(p);
        g.update_count();
        proof {
            assert(black_height(Some(g)) == black_height(g.left));
            assert(red_black(Some(g)));
        }
        g
    }

    /// Red parent with a red outer child, black uncle: one rotation at the
    /// grandparent.
    fn rotate_left_outer(g: Box<Self>, p: Box<Self>) -> (r: Box<Self>)
        requires
            p.wf(),
            opt_wf(g.right),
            all_below(p.entries(), g.key),
            all_above(opt_entries(g.right), g.key),
            p.entries().len() + 1 + opt_entries(g.right).len() <= usize::MAX,
            red_black(g.right),
            red_black_below(*p),
            p.color == Color::Black ==> red_black(Some(p)),
            black_height(Some(p)) == black_height(g.right),
            g.color == Color::Red ==> red_black(Some(p)) && !is_red(g.right),
            p.color == Color::Red,
            is_red(p.left),
            !is_red(g.right),
        ensures
            r.wf(),
            r.entries() == join(p.entries(), (g.key, g.val), opt_entries(g.right)),
            black_height(Some(r)) == black_height(Some(p)) + if g.color == Color::Black {
                1nat
            } else {
                0nat
            },
            red_black_below(*r),
            g.color == Color::Black ==> red_black(Some(r)),
            g.color == Color::Red ==> r.color == Color::Red,
            r.key == p.key && r.val == p.val && r.color == Color::Black,
            r.left == p.left,
            match r.right {
                Some(h) => h.key == g.key && h.val == g.val && h.color == Color::Red && h.left == p.right
                    && h.right == g.right,
                None => false,
            },
    {
        let mut g = g;
        let mut p = p;
        proof {
            p.lemma_wf();
            lemma_opt_wf(p.left);
            lemma_opt_wf(p.right);
            lemma_opt_wf(g.right);
            lemma_join_bounds(opt_entries(p.left), (p.key, p.val), opt_entries(p.right), g.key);
        }
        let ghost a = opt_entries(p.left);
        let ghost b = opt_entries(p.right);
        let ghost c = opt_entries(g.right);
        let ghost x = (p.key, p.val);
        let ghost y = (g.key, g.val);
        g.left = p.right.take();
        g.color = Color::Red;
        g.update_count();
        proof {
            lemma_join_sorted(b, y, c);
            lemma_above_weaken(c, p.key, y.0);
            lemma_join_bounds(b, y, c, p.key);
            assert(g.entries() == join(b, y, c));
            assert(g.wf());
            assert(red_black(Some(g)));
            assert(black_height(Some(g)) == black_height(g.left));
        }
        p.right = Some(g);
        p.color = Color::Black;
        p.update_count();
        proof {
            assert(join(join(a, x, b), y, c) =~= join(a, x, join(b, y, c)));
        }
        p
    }

    /// Red parent with a red inner child, black uncle: two rotations bring the
    /// inner child to the top.
    #[verifier::rlimit(60)]
    fn rotate_left_inner(g: Box<Self>, p: Box<Self>) -> (r: Box<Self>)
        requires
            p.wf(),
            opt_wf(g.right),
            all_below(p.entries(), g.key),
            all_above(opt_entries(g.right), g.key),
            p.entries().len() + 1 + opt_entries(g.right).len() <= usize::MAX,
            red_black(g.right),
            red_black_below(*p),
            p.color == Color::Black ==> red_black(Some(p)),
            black_height(Some(p)) == black_height(g.right),
            g.color == Color::Red ==> red_black(Some(p)) && !is_red(g.right),
            p.color == Color::Red,
            !is_red(p.left),
            is_red(p.right),
            !is_red(g.right),
        ensures
            r.wf(),
            r.entries() == join(p.entries(), (g.key, g.val), opt_entries(g.right)),
            black_height(Some(r)) == black_height(Some(p)) + if g.color == Color::Black {
                1nat
            } else {
                0nat
            },
            red_black_below(*r),
            g.color == Color::Black ==> red_black(Some(r)),
            g.color == Color::Red ==> r.color == Color::Red,
            match p.right {
                Some(q) => {
                    &&& r.key == q.key && r.val == q.val && r.color == Color::Black
                    &&& match r.left {
                        Some(h) => h.key == p.key && h.val == p.val && h.color == Color::Red && h.left
                            == p.left && h.right == q.left,
                        None => false,
                    }
                    &&& match r.right {
                        Some(h) => h.key == g.key && h.val == g.val && h.color == Color::Red && h.left
                            == q.right && h.right == g.right,
                        None => false,
                    }
                },
                None => false,
            },
    {
        let mut p = p;
        proof {
            p.lemma_wf();
            lemma_opt_wf(p.left);
            lemma_opt_wf(p.right);
            lemma_opt_wf(g.right);
            lemma_join_bounds(opt_entries(p.left), (p.key, p.val), opt_entries(p.right), g.key);
        }
        let ghost a = opt_entries(p.left);
        let ghost x = (p.key, p.val);
        match p.right.take() {
            Some(mut q) => {
                proof {
                    assert(q.wf());
                    assert(opt_wf(q.left) && opt_wf(q.right));
                    q.lemma_wf();
                    lemma_opt_wf(q.left);
                    lemma_opt_wf(q.right);
                    lemma_join_bounds(opt_entries(q.left), (q.key, q.val), opt_entries(q.right), p.key);
                    lemma_join_bounds(opt_entries(q.left), (q.key, q.val), opt_entries(q.right), g.key);
                }
                let ghost b1 = opt_entries(q.left);
                let ghost b2 = opt_entries(q.right);
                let ghost z = (q.key, q.val);
                // first rotation: the inner child rises above its parent
                p.right = q.left.take();
                p.update_count();
                proof {
                    lemma_join_sorted(a, x, b1);
                    lemma_below_weaken(a, x.0, q.key);
                    lemma_join_bounds(a, x, b1, q.key);
                    assert(p.entries() == join(a, x, b1));
                    assert(p.wf());
                    assert(red_black(Some(p)));
                    assert(black_height(Some(p)) == black_height(p.left));
                }
                q.left = Some(p);
                q.update_count();
                proof {
                    assert(join(join(a, x, b1), z, b2) =~= join(a, x, join(b1, z, b2)));
                    q.lemma_wf();
                    assert(black_height(Some(q)) == black_height(q.left));
                    assert(red_black_below(*q));
                }
                // second rotation: as for a red outer child
                Node::rotate_left_outer(g, q)
            },
            None => {
                Node::attach_left(g, p)
            },
        }
    }

    /// Hangs `p` as the right subtree of `g` when no repair is needed.
    fn attach_right(g: Box<Self>, p: Box<Self>) -> (r: Box<Self>)
        requires
            p.wf(),
            opt_wf(g.left),
            all_above(p.entries(), g.key),
            all_below(opt_entries(g.left), g.key),
            opt_entries(g.left).len() + 1 + p.entries().len() <= usize::MAX,
            red_black(g.left),
            red_black_below(*p),
            p.color == Color::Black ==> red_black(Some(p)),
            black_height(Some(p)) == black_height(g.left),
            g.color == Color::Red ==> red_black(Some(p)) && !is_red(g.left),
            !(p.color == Color::Red && (is_red(p.left) || is_red(p.right))),
        ensures
            r.wf(),
            r.entries() == join(opt_entries(g.left), (g.key, g.val), p.entries()),
            black_height(Some(r)) == black_height(Some(p)) + if g.color == Color::Black {
                1nat
            } else {
                0nat
            },
            red_black_below(*r),
            g.color == Color::Black ==> red_black(Some(r)),
            g.color == Color::Red ==> r.color == Color::Red,
    {
        let mut g = g;
        let mut p = p;
        proof {
            p.lemma_wf();
            lemma_opt_wf(p.left);
            lemma_opt_wf(p.right);
            lemma_opt_wf(g.left);
            lemma_join_bounds(opt_entries(p.left), (p.key, p.val), opt_entries(p.right), g.key);
        }
        proof {
            assert(red_black(Some(p)));
        }
        g.right = Some(p);
        g.update_count();
        proof {
            assert(black_height(Some(g)) == black_height(g.left) + if g.color == Color::Black {
                1nat
            } else {
                0nat
            });
        }
        g
    }

    /// Red parent and red uncle: both turn black and the grandparent red.
    fn recolor_right(g: Box<Self>, p: Box<Self>) -> (r: Box<Self>)
        requires
            p.wf(),
            opt_wf(g.left),
            all_above(p.entries(), g.key),
            all_below(opt_entries(g.left), g.key),
            opt_entries(g.left).len() + 1 + p.entries().len() <= usize::MAX,
            red_black(g.left),
            red_black_below(*p),
            p.color == Color::Black ==> red_black(Some(p)),
            black_height(Some(p)) == black_height(g.left),
            g.color == Color::Red ==> red_black(Some(p)) && !is_red(g.left),
            p.color == Color::Red,
            is_red(p.left) || is_red(p.right),
            is_red(g.left),
        ensures
            r.wf(),
            r.entries() == join(opt_entries(g.left), (g.key, g.val), p.entries()),
            black_height(Some(r)) == black_height(Some(p)) + if g.color == Color::Black {
                1nat
            } else {
                0nat
            },
            red_black_below(*r),
            g.color == Color::Black ==> red_black(Some(r)),
            g.color == Color::Red ==> r.color == Color::Red,
    {
        let mut g = g;
        let mut p = p;
        proof {
            p.lemma_wf();
            lemma_opt_wf(p.left);
            lemma_opt_wf(p.right);
            lemma_opt_wf(g.left);
            lemma_join_bounds(opt_entries(p.left), (p.key, p.val), opt_entries(p.right), g.key);
        }
        let ghost p_before = p;
        p.color = Color::Black;
        proof {
            assert(p.entries() == p_before.entries());
            assert(p.wf());
            assert(red_black(Some(p)));
            assert(black_height(Some(p)) == black_height(Some(p_before)) + 1);
        }
        match g.left.take() {
            Some(mut u) => {
                let ghost u_before = u;
                u.color = Color::Black;
                proof {
                    assert(u.entries() == u_before.entries());
                    assert(u.wf());
                    assert(red_black(Some(u)));
                    assert(black_height(Some(u)) == black_height(Some(u_before)) + 1);
                }
                g.left = Some(u);
            },
            None => {},
        }
        g.color = Color::Red;
        g.right = Some(p);
        g.update_count();
        proof {
            assert(black_height(Some(g)) == black_height(g.left));
            assert(red_black(Some(g)));
        }
        g
    }

    /// Red parent with a red outer child, black uncle: one rotation at the
    /// grandparent.
    fn rotate_right_outer(g: Box<Self>, p: Box<Self>) -> (r: Box<Self>)
        requires
            p.wf(),
            opt_wf(g.left),
            all_above(p.entries(), g.key),
            all_below(opt_entries(g.left), g.key),
            opt_entries(g.left).len() + 1 + p.entries().len() <= usize::MAX,
            red_black(g.left),
            red_black_below(*p),
            p.color == Color::Black ==> red_black(Some(p)),
            black_height(Some(p)) == black_height(g.left),
            g.color == Color::Red ==> red_black(Some(p)) && !is_red(g.left),
            p.color == Color::Red,
            is_red(p.right),
            !is_red(g.left),
        ensures
            r.wf(),
            r.entries() == join(opt_entries(g.left), (g.key, g.val), p.entries()),
            black_height(Some(r)) == black_height(Some(p)) + if g.color == Color::Black {
                1nat
            } else {
                0nat
            },
            red_black_below(*r),
            g.color == Color::Black ==> red_black(Some(r)),
            g.color == Color::Red ==> r.color == Color::Red,
            r.key == p.key && r.val == p.val && r.color == Color::Black,
            r.right == p.right,
            match r.left {
                Some(h) => h.key == g.key && h.val == g.val && h.color == Color::Red && h.left == g.left
                    && h.right == p.left,
                None => false,
            },
    {
        let mut g = g;
        let mut p = p;
        proof {
            p.lemma_wf();
            lemma_opt_wf(p.left);
            lemma_opt_wf(p.right);
            lemma_opt_wf(g.left);
            lemma_join_bounds(opt_entries(p.left), (p.key, p.val), opt_entries(p.right), g.key);
        }
        let ghost a = opt_entries(g.left);
        let ghost b = opt_entries(p.left);
        let ghost c = opt_entries(p.right);
        let ghost y = (g.key, g.val);
        let ghost x = (p.key, p.val);
        g.right = p.left.take();
        g.color = Color::Red;
        g.update_count();
        proof {
            lemma_join_sorted(a, y, b);
            lemma_below_weaken(a, y.0, p.key);
            lemma_join_bounds(a, y, b, p.key);
            assert(g.entries() == join(a, y, b));
            assert(g.wf());
            assert(red_black(Some(g)));
            assert(black_height(Some(g)) == black_height(g.left));
        }
        p.left = Some(g);
        p.color = Color::Black;
        p.update_count();
        proof {
            assert(join(a, y, join(b, x, c)) =~= join(join(a, y, b), x, c));
        }
        p
    }

    /// Red parent with a red inner child, black uncle: two rotations bring the
    /// inner child to the top.
    #[verifier::rlimit(60)]
    fn rotate_right_inner(g: Box<Self>, p: Box<Self>) -> (r: Box<Self>)
        requires
            p.wf(),
            opt_wf(g.left),
            all_above(p.entries(), g.key),
            all_below(opt_entries(g.left), g.key),
            opt_entries(g.left).len() + 1 + p.entries().len() <= usize::MAX,
            red_black(g.left),
            red_black_below(*p),
            p.color == Color::Black ==> red_black(Some(p)),
            black_height(Some(p)) == black_height(g.left),
            g.color == Color::Red ==> red_black(Some(p)) && !is_red(g.left),
            p.color == Color::Red,
            is_red(p.left),
            !is_red(p.right),
            !is_red(g.left),
        ensures
            r.wf(),
            r.entries() == join(opt_entries(g.left), (g.key, g.val), p.entries()),
            black_height(Some(r)) == black_height(Some(p)) + if g.color == Color::Black {
                1nat
            } else {
                0nat
            },
            red_black_below(*r),
            g.color == Color::Black ==> red_black(Some(r)),
            g.color == Color::Red ==> r.color == Color::Red,
            match p.left {
                Some(q) => {
                    &&& r.key == q.key && r.val == q.val && r.color == Color::Black
                    &&& match r.left {
                        Some(h) => h.key == g.key && h.val == g.val && h.color == Color::Red && h.left
                            == g.left && h.right == q.left,
                        None => false,
                    }
                    &&& match r.right {
                        Some(h) => h.key == p.key && h.val == p.val && h.color == Color::Red && h.left
                            == q.right && h.right == p.right,
                        None => false,
                    }
                },
                None => false,
            },
    {
        let mut p = p;
        proof {
            p.lemma_wf();
            lemma_opt_wf(p.left);
            lemma_opt_wf(p.right);
            lemma_opt_wf(g.left);
            lemma_join_bounds(opt_entries(p.left), (p.key, p.val), opt_entries(p.right), g.key);
        }
        let ghost c = opt_entries(p.right);
        let ghost x = (p.key, p.val);
        match p.left.take() {
            Some(mut q) => {
                proof {
                    assert(q.wf());
                    assert(opt_wf(q.left) && opt_wf(q.right));
                    q.lemma_wf();
                    lemma_opt_wf(q.left);
                    lemma_opt_wf(q.right);
                    lemma_join_bounds(opt_entries(q.left), (q.key, q.val), opt_entries(q.right), p.key);
                    lemma_join_bounds(opt_entries(q.left), (q.key, q.val), opt_entries(q.right), g.key);
                }
                let ghost b1 = opt_entries(q.left);
                let ghost b2 = opt_entries(q.right);
                let ghost z = (q.key, q.val);
                // first rotation: the inner child rises above its parent
                p.left = q.right.take();
                p.update_count();
                proof {
                    lemma_join_sorted(b2, x, c);
                    lemma_above_weaken(c, q.key, x.0);
                    lemma_join_bounds(b2, x, c, q.key);
                    assert(p.entries() == join(b2, x, c));
                    assert(p.wf());
                    assert(red_black(Some(p)));
                    assert(black_height(Some(p)) == black_height(p.left));
                }
                q.right = Some(p);
                q.update_count();
                proof {
                    assert(join(b1, z, join(b2, x, c)) =~= join(join(b1, z, b2), x, c));
                    q.lemma_wf();
                    assert(black_height(Some(q)) == black_height(q.left));
                    assert(red_black_below(*q));
                }
                // second rotation: as for a red outer child
                Node::rotate_right_outer(g, q)
            },
            None => {
                Node::attach_right(g, p)
            },
        }
    }

    /// Hangs `p`, the left subtree of `g` after an insertion, back under `g`,
    /// repairing a red node with a red child inside `p`.
    fn balance_left(g: Box<Self>, p: Box<Self>) -> (r: Box<Self>)
        requires
            p.wf(),
            opt_wf(g.right),
            all_below(p.entries(), g.key),
            all_above(opt_entries(g.right), g.key),
            p.entries().len() + 1 + opt_entries(g.right).len() <= usize::MAX,
            red_black(g.right),
            red_black_below(*p),
            p.color == Color::Black ==> red_black(Some(p)),
            black_height(Some(p)) == black_height(g.right),
            g.color == Color::Red ==> red_black(Some(p)) && !is_red(g.right),
        ensures
            r.wf(),
            r.entries() == join(p.entries(), (g.key, g.val), opt_entries(g.right)),
            black_height(Some(r)) == black_height(Some(p)) + if g.color == Color::Black {
                1nat
            } else {
                0nat
            },
            red_black_below(*r),
            g.color == Color::Black ==> red_black(Some(r)),
            g.color == Color::Red ==> r.color == Color::Red,
    {
        if p.color == Color::Red && (Node::is_red(&p.left) || Node::is_red(&p.right)) {
            if Node::is_red(&g.right) {
                Node::recolor_left(g, p)
            } else if Node::is_red(&p.left) {
                Node::rotate_left_outer(g, p)
            } else {
                Node::rotate_left_inner(g, p)
            }
        } else {
            Node::attach_left(g, p)
        }
    }

    /// Hangs `p`, the right subtree of `g` after an insertion, back under `g`,
    /// repairing a red node with a red child inside `p`.
    fn balance_right(g: Box<Self>, p: Box<Self>) -> (r: Box<Self>)
        requires
            p.wf(),
            opt_wf(g.left),
            all_above(p.entries(), g.key),
            all_below(opt_entries(g.left), g.key),
            opt_entries(g.left).len() + 1 + p.entries().len() <= usize::MAX,
            red_black(g.left),
            red_black_below(*p),
            p.color == Color::Black ==> red_black(Some(p)),
            black_height(Some(p)) == black_height(g.left),
            g.color == Color::Red ==> red_black(Some(p)) && !is_red(g.left),
        ensures
            r.wf(),
            r.entries() == join(opt_entries(g.left), (g.key, g.val), p.entries()),
            black_height(Some(r)) == black_height(Some(p)) + if g.color == Color::Black {
                1nat
            } else {
                0nat
            },
            red_black_below(*r),
            g.color == Color::Black ==> red_black(Some(r)),
            g.color == Color::Red ==> r.color == Color::Red,
    {
        if p.color == Color::Red && (Node::is_red(&p.left) || Node::is_red(&p.right)) {
            if Node::is_red(&g.left) {
                Node::recolor_right(g, p)
            } else if Node::is_red(&p.right) {
                Node::rotate_right_outer(g, p)
            } else {
                Node::rotate_right_inner(g, p)
            }
        } else {
            Node::attach_right(g, p)
        }
    }

    /// Inserts below `cur` and returns the new subtree root, repaired except
    /// possibly for a red root with a red child when `cur` itself was red.
    fn add(cur: Box<Self>, key: K, val: V) -> (r: Box<Self>)
        requires
            cur.wf(),
            cur.entries().len() < usize::MAX,
            red_black(Some(cur)),
        ensures
            r.wf(),
            r.entries() == add_entry(cur.entries(), key, val),
            black_height(Some(r)) == black_height(Some(cur)),
            red_black_below(*r),
            cur.color == Color::Black ==> red_black(Some(r)),
            cur.color == Color::Red ==> r.color == Color::Red,
        decreases cur.entries().len(), 1nat,
    {
        let mut cur = cur;
        let ord = key.compare(&cur.key);
        if matches!(ord, Ordering::Equal) {
            proof {
                lemma_opt_wf(cur.left);
                lemma_opt_wf(cur.right);
                lemma_join_add(opt_entries(cur.left), (cur.key, cur.val), opt_entries(cur.right), key, val);
            }
            cur.val = val;
            cur
        } else if matches!(ord, Ordering::Less) {
            Node::add_left(cur, key, val)
        } else {
            Node::add_right(cur, key, val)
        }
    }

    /// Inserts a key that comes before `cur`'s into its left subtree.
    fn add_left(cur: Box<Self>, key: K, val: V) -> (r: Box<Self>)
        requires
            cur.wf(),
            cur.entries().len() < usize::MAX,
            red_black(Some(cur)),
            key.precedes(cur.key),
        ensures
            r.wf(),
            r.entries() == add_entry(cur.entries(), key, val),
            black_height(Some(r)) == black_height(Some(cur)),
            red_black_below(*r),
            cur.color == Color::Black ==> red_black(Some(r)),
            cur.color == Color::Red ==> r.color == Color::Red,
        decreases cur.entries().len(), 0nat,
    {
        let mut cur = cur;
        proof {
            cur.lemma_wf();
            lemma_opt_wf(cur.left);
            lemma_opt_wf(cur.right);
            lemma_join_add(opt_entries(cur.left), (cur.key, cur.val), opt_entries(cur.right), key, val);
            lemma_add_entry_bounds(opt_entries(cur.left), key, val, cur.key);
        }
        let child = match cur.left.take() {
            Some(c) => Node::add(c, key, val),
            None => Node::new(key, val),
        };
        proof {
            child.lemma_wf();
        }
        Node::balance_left(cur, child)
    }

    /// Inserts a key that comes after `cur`'s into its right subtree.
    fn add_right(cur: Box<Self>, key: K, val: V) -> (r: Box<Self>)
        requires
            cur.wf(),
            cur.entries().len() < usize::MAX,
            red_black(Some(cur)),
            cur.key.precedes(key),
        ensures
            r.wf(),
            r.entries() == add_entry(cur.entries(), key, val),
            black_height(Some(r)) == black_height(Some(cur)),
            red_black_below(*r),
            cur.color == Color::Black ==> red_black(Some(r)),
            cur.color == Color::Red ==> r.color == Color::Red,
        decreases cur.entries().len(), 0nat,
    {
        let mut cur = cur;
        proof {
            cur.lemma_wf();
            lemma_opt_wf(cur.left);
            lemma_opt_wf(cur.right);
            lemma_join_add(opt_entries(cur.left), (cur.key, cur.val), opt_entries(cur.right), key, val);
            lemma_add_entry_bounds(opt_entries(cur.right), key, val, cur.key);
            lemma_asymmetric(cur.key, key);
        }
        let child = match cur.right.take() {
            Some(c) => Node::add(c, key, val),
            None => Node::new(key, val),
        };
        proof {
            child.lemma_wf();
        }
        Node::balance_right(cur, child)
    }

    #[verifier::rlimit(60)]
    /// The subtree with the value of `k` replaced by `v`, following the
    /// search path for `k`; every other field stays as it is.
    spec fn with_value(self, k: K, v: V) -> Self
        decreases self,
    {
        if self.key == k {
            Node { val: v, ..self }
        } else if k.precedes(self.key) {
            match self.left {
                Some(l) => Node { left: Some(Box::new(l.with_value(k, v))), ..self },
                None => self,
            }
        } else {
            match self.right {
                Some(r) => Node { right: Some(Box::new(r.with_value(k, v))), ..self },
                None => self,
            }
        }
    }

    fn value(&mut self, key: &K) -> (r: Option<&mut V>)
        requires
            old(self).wf(),
        ensures
            final(self).wf(),
            final(self).count == old(self).count,
            final(self).color == old(self).color,
            red_black(Some(Box::new(*final(self)))) == red_black(Some(Box::new(*old(self)))),
            black_height(Some(Box::new(*final(self)))) == black_height(Some(Box::new(*old(self)))),
            tree_height(Some(Box::new(*final(self)))) == tree_height(Some(Box::new(*old(self)))),
            match r {
                Some(v) => {
                    &&& has_key(old(self).entries(), *key)
                    &&& Some(*v) == value_of(old(self).entries(), *key)
                    &&& final(self).entries() == old(self).entries().update(
                        count_less(old(self).entries(), *key) as int,
                        (*key, *final(v)),
                    )
                },
                None => {
                    &&& !has_key(old(self).entries(), *key)
                    &&& final(self).entries() == old(self).entries()
                },
            },
            r is None ==> *final(self) == *old(self),
            r matches Some(v) ==> *final(self) == old(self).with_value(*key, *final(v)),
        decreases old(self).entries().len(),
    {
        proof {
            lemma_opt_wf(self.left);
            lemma_opt_wf(self.right);
            lemma_join_add(opt_entries(self.left), (self.key, self.val), opt_entries(self.right), *key, self.val);
            lemma_join_count_less(opt_entries(self.left), (self.key, self.val), opt_entries(self.right), *key);
        }
        let ord = key.compare(&self.key);
        if matches!(ord, Ordering::Equal) {
            Some(&mut self.val)
        } else if matches!(ord, Ordering::Less) {
            match &mut self.left {
                Some(child) => child.value(key),
                None => None,
            }
        } else {
            match &mut self.right {
                Some(child) => child.value(key),
                None => None,
            }
        }
    }

    fn rank(&self, key: &K) -> (r: usize)
        requires
            self.wf(),
        ensures
            r == count_less(self.entries(), *key),
        decreases self,
    {
        proof {
            self.lemma_wf();
            lemma_opt_wf(self.left);
            lemma_opt_wf(self.right);
            lemma_join_count_less(opt_entries(self.left), (self.key, self.val), opt_entries(self.right), *key);
            lemma_count_less_bound(opt_entries(self.right), *key);
        }
        let left_count = Node::size(&self.left);
        if !matches!(self.key.compare(key), Ordering::Less) {
            match &self.left {
                Some(child) => child.rank(key),
                None => 0,
            }
        } else {
            match &self.right {
                Some(child) => left_count + 1 + child.rank(key),
                None => left_count + 1,
            }
        }
    }

    fn select(&self, k: usize) -> (r: &K)
        requires
            self.wf(),
            k < self.entries().len(),
        ensures
            *r == self.entries()[k as int].0,
        decreases self,
    {
        proof {
            self.lemma_wf();
            lemma_opt_wf(self.left);
            lemma_opt_wf(self.right);
            lemma_join_index(opt_entries(self.left), (self.key, self.val), opt_entries(self.right), k as int);
        }
        let left_count = Node::size(&self.left);
        if k == left_count {
            &self.key
        } else if k < left_count {
            match &self.left {
                Some(child) => child.select(k),
                None => unreached(),
            }
        } else {
            match &self.right {
                Some(child) => child.select(k - left_count - 1),
                None => unreached(),
            }
        }
    }
}


pub struct ARN<K, V> {
    root: Option<Box<Node<K, V>>>,
}

impl<K: KeyBounds, V> ARN<K, V> {
    /// An empty map.
    pub fn new() -> (r: Self)
        ensures
            r.wf(),
            r.entries() == Seq::<(K, V)>::empty(),
            r.height() == 0,
    {
        ARN { root: None }
    }

    /// Number of nodes on the longest path from the root.
    pub closed spec fn height(&self) -> nat {
        tree_height(self.root)
    }

    /// Number of nodes on the longest path from the root.
    pub fn levels(&self) -> (r: usize)
        requires
            self.wf(),
        ensures
            r == self.height(),
    {
        levels(&self.root)
    }

    /// A red-black tree with `n` entries has at most 2 log2(n + 1) levels.
    pub proof fn lemma_height_bound(&self)
        requires
            self.wf(),
        ensures
            vstd::arithmetic::power2::pow2(self.height()) <= (self.entries().len() + 1) * (
            self.entries().len() + 1),
    {
        let t = self.root;
        let h = tree_height(t);
        let b = black_height(t);
        let n = opt_entries(t).len() + 1;
        lemma_red_black_height(t);
        vstd::arithmetic::power2::lemma_pow2_adds(b, b);
        vstd::arithmetic::power2::lemma_pow2_pos(b);
        if h < 2 * b {
            vstd::arithmetic::power2::lemma_pow2_strictly_increases(h, 2 * b);
        }
        let p = vstd::arithmetic::power2::pow2(b);
        assert(p * p <= n * n) by (nonlinear_arith)
            requires
                0 < p <= n,
        ;
    }
}

impl<K: KeyBounds, V> ARN<K, V> {
    /// The map with the value of `k` replaced by `v`, no node moved.
    pub closed spec fn with_value(&self, k: K, v: V) -> Self {
        match self.root {
            Some(n) => ARN { root: Some(Box::new(n.with_value(k, v))), ..*self },
            None => *self,
        }
    }
}

impl<K: KeyBounds, V> SymbolTable<K, V> for ARN<K, V> {
    closed spec fn entries(&self) -> Seq<(K, V)> {
        opt_entries(self.root)
    }

    closed spec fn wf(&self) -> bool {
        opt_wf(self.root) && red_black(self.root) && !is_red(self.root)
    }

    proof fn lemma_entries_sorted(&self) {
        lemma_opt_wf(self.root);
    }

    fn add(&mut self, key: K, val: V) {
        match self.root.take() {
            Some(root) => {
                let mut root = Node::add(root, key, val);
                // the root is always black
                root.color = Color::Black;
                self.root = Some(root);
            },
            None => {
                proof {
                    lemma_add_entry_sorted(Seq::<(K, V)>::empty(), key, val);
                    assert(add_entry(Seq::<(K, V)>::empty(), key, val) =~= seq![(key, val)]);
                }
                let mut root = Node::new(key, val);
                root.color = Color::Black;
                self.root = Some(root);
            },
        }
    }

    fn value(&mut self, key: &K) -> (r: Option<&mut V>)
        ensures
            r is None ==> *final(self) == *old(self),
            r matches Some(v) ==> *final(self) == old(self).with_value(*key, *final(v)),
    {
        match &mut self.root {
            Some(root) => root.value(key),
            None => None,
        }
    }

    fn rank(&self, key: &K) -> (r: usize) {
        match &self.root {
            Some(root) => root.rank(key),
            None => 0,
        }
    }

    fn select(&self, k: usize) -> (r: Option<&K>) {
        let size = Node::size(&self.root);
        proof {
            self.lemma_entries_sorted();
            lemma_opt_wf(self.root);
        }
        if k < size {
            match &self.root {
                Some(root) => Some(root.select(k)),
                None => None,
            }
        } else {
            None
        }
    }
}

} // verus!
