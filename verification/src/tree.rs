//! The left-leaning red-black tree.
//!
//! `LLRBTree` owns an optional root node and is modeled as a `Map` from key
//! views to values. Insertion rebuilds the path from the root to the
//! insertion point and repairs it on the way back up with the three local
//! corrections of the left-leaning discipline: rotate left on a
//! right-leaning red link, rotate right on two red left links in a row, and
//! a color flip when both children turn red. After every insert the root is
//! forced black, the in-order key sequence is strictly increasing, no red
//! link leans right, no two red links follow each other, and every path from
//! the root to an empty child crosses the same number of black nodes.

use vstd::prelude::*;

use crate::order::KeyOrdering;
use crate::order::TotalOrder;
use crate::order::lt;
use crate::order::lemma_lt_transitive;

verus! {

/// One node of the tree. `color` is the color of the link from the node's
/// parent down to the node: `true` is red, `false` is black.
struct Node<K: TotalOrder, V> {
    key: K,
    val: V,
    color: bool,
    left: Option<Box<Node<K, V>>>,
    right: Option<Box<Node<K, V>>>,
}

impl<K: TotalOrder, V> Node<K, V> {
    /// The key-value map held by an optional subtree.
    spec fn map_of(o: Option<Box<Node<K, V>>>) -> Map<K::V, V>
        decreases o,
    {
        match o {
            None => Map::empty(),
            Some(n) => n.as_map(),
        }
    }

    /// The key-value map held by the subtree rooted at this node.
    spec fn as_map(self) -> Map<K::V, V>
        decreases self,
    {
        Self::map_of(self.left).union_prefer_right(Self::map_of(self.right)).insert(
            self.key@,
            self.val,
        )
    }

    /// Binary-search-tree ordering of an optional subtree.
    spec fn wf_of(o: Option<Box<Node<K, V>>>) -> bool
        decreases o,
    {
        match o {
            None => true,
            Some(n) => n.well_formed(),
        }
    }

    /// Binary-search-tree ordering: keys on the left are strictly below this
    /// node's key, keys on the right strictly above.
    spec fn well_formed(self) -> bool
        decreases self,
    {
        &&& (forall|e: K::V|
            #[trigger] Self::map_of(self.left).dom().contains(e) ==> lt::<K>(e, self.key@))
        &&& (forall|e: K::V|
            #[trigger] Self::map_of(self.right).dom().contains(e) ==> lt::<K>(self.key@, e))
        &&& Self::wf_of(self.left)
        &&& Self::wf_of(self.right)
    }

    /// Whether the link down to an optional subtree is red.
    spec fn is_red(o: Option<Box<Node<K, V>>>) -> bool {
        match o {
            None => false,
            Some(n) => n.color,
        }
    }

    /// The left-leaning color discipline for an optional subtree.
    spec fn colors_ok_of(o: Option<Box<Node<K, V>>>) -> bool
        decreases o,
    {
        match o {
            None => true,
            Some(n) => n.colors_ok(),
        }
    }

    /// The left-leaning color discipline: no red right child, and a red node
    /// never has a red left child (so no two red links in a row).
    spec fn colors_ok(self) -> bool
        decreases self,
    {
        &&& !Self::is_red(self.right)
        &&& !(self.color && Self::is_red(self.left))
        &&& Self::colors_ok_of(self.left)
        &&& Self::colors_ok_of(self.right)
    }

    /// The number of black nodes on the left spine of an optional subtree.
    /// Under `balanced_of` this is the black count of every path.
    spec fn bh_of(o: Option<Box<Node<K, V>>>) -> nat
        decreases o,
    {
        match o {
            None => 0,
            Some(n) => Self::bh_of(n.left) + if n.color {
                0nat
            } else {
                1nat
            },
        }
    }

    /// Perfect black balance: at every node, every path down to an empty
    /// child crosses the same number of black nodes.
    spec fn balanced_of(o: Option<Box<Node<K, V>>>) -> bool
        decreases o,
    {
        match o {
            None => true,
            Some(n) => Self::balanced_of(n.left) && Self::balanced_of(n.right) && Self::bh_of(
                n.left,
            ) == Self::bh_of(n.right),
        }
    }

    /// The number of nodes in an optional subtree.
    spec fn count_of(o: Option<Box<Node<K, V>>>) -> nat
        decreases o,
    {
        match o {
            None => 0,
            Some(n) => 1 + Self::count_of(n.left) + Self::count_of(n.right),
        }
    }

    /// The in-order sequence of key views of an optional subtree.
    spec fn keys_of(o: Option<Box<Node<K, V>>>) -> Seq<K::V>
        decreases o,
    {
        match o {
            None => Seq::empty(),
            Some(n) => Self::keys_of(n.left) + seq![n.key@] + Self::keys_of(n.right),
        }
    }

    /// The shortest distance from an optional subtree down to an empty child.
    spec fn min_depth_of(o: Option<Box<Node<K, V>>>) -> nat
        decreases o,
    {
        match o {
            None => 0,
            Some(n) => {
                let dl = Self::min_depth_of(n.left);
                let dr = Self::min_depth_of(n.right);
                1 + if dl <= dr {
                    dl
                } else {
                    dr
                }
            },
        }
    }

    /// The longest distance from an optional subtree down to an empty child.
    spec fn max_depth_of(o: Option<Box<Node<K, V>>>) -> nat
        decreases o,
    {
        match o {
            None => 0,
            Some(n) => {
                let dl = Self::max_depth_of(n.left);
                let dr = Self::max_depth_of(n.right);
                1 + if dl <= dr {
                    dr
                } else {
                    dl
                }
            },
        }
    }

    /// Black balance of a node's two subtrees, before the node's own color
    /// is counted.
    spec fn node_balanced(self) -> bool {
        &&& Self::balanced_of(self.left)
        &&& Self::balanced_of(self.right)
        &&& Self::bh_of(self.left) == Self::bh_of(self.right)
    }

    /// The black count of a path through this node.
    spec fn node_bh(self) -> nat {
        Self::bh_of(self.left) + if self.color {
            0nat
        } else {
            1nat
        }
    }

    /// The number of nodes in the subtree rooted at this node.
    spec fn node_count(self) -> nat {
        1 + Self::count_of(self.left) + Self::count_of(self.right)
    }

    /// A fresh red leaf holding the given pair.
    fn new(k: K, v: V) -> (n: Node<K, V>)
        ensures
            n.key == k,
            n.val == v,
            n.color == true,
            n.left == None::<Box<Node<K, V>>>,
            n.right == None::<Box<Node<K, V>>>,
    {
        Node { key: k, val: v, color: true, left: None, right: None }
    }
}

impl<K: TotalOrder, V> Node<K, V> {
    /// No red link hangs as a right child anywhere in the subtree.
    spec fn no_red_right_of(o: Option<Box<Node<K, V>>>) -> bool
        decreases o,
    {
        match o {
            None => true,
            Some(n) => !Self::is_red(n.right) && Self::no_red_right_of(n.left)
                && Self::no_red_right_of(n.right),
        }
    }

    /// No red node has a red child, so no downward path holds two red links
    /// in a row.
    spec fn no_double_red_of(o: Option<Box<Node<K, V>>>) -> bool
        decreases o,
    {
        match o {
            None => true,
            Some(n) => (n.color ==> !Self::is_red(n.left) && !Self::is_red(n.right))
                && Self::no_double_red_of(n.left) && Self::no_double_red_of(n.right),
        }
    }

    /// The color discipline yields both red-link properties.
    proof fn lemma_colors_decompose(o: Option<Box<Node<K, V>>>)
        requires
            Self::colors_ok_of(o),
        ensures
            Self::no_red_right_of(o),
            Self::no_double_red_of(o),
        decreases o,
    {
        match o {
            None => {},
            Some(n) => {
                Self::lemma_colors_decompose(n.left);
                Self::lemma_colors_decompose(n.right);
            },
        }
    }

    /// Whether the sequence of turns (`false` left, `true` right) leads from
    /// an optional subtree exactly down to an empty child.
    spec fn path_to_empty_of(o: Option<Box<Node<K, V>>>, p: Seq<bool>) -> bool
        decreases o,
    {
        match o {
            None => p.len() == 0,
            Some(n) => p.len() > 0 && Self::path_to_empty_of(
                if p[0] {
                    n.right
                } else {
                    n.left
                },
                p.drop_first(),
            ),
        }
    }

    /// How many black nodes the path crosses.
    spec fn black_count_on(o: Option<Box<Node<K, V>>>, p: Seq<bool>) -> nat
        decreases o,
    {
        match o {
            None => 0,
            Some(n) => if p.len() == 0 {
                0
            } else {
                Self::black_count_on(
                    if p[0] {
                        n.right
                    } else {
                        n.left
                    },
                    p.drop_first(),
                ) + if n.color {
                    0nat
                } else {
                    1nat
                }
            },
        }
    }

    /// Black balance means every path down to an empty child crosses exactly
    /// `bh_of` black nodes.
    proof fn lemma_black_paths(o: Option<Box<Node<K, V>>>)
        requires
            Self::balanced_of(o),
        ensures
            forall|p: Seq<bool>| #[trigger]
                Self::path_to_empty_of(o, p) ==> Self::black_count_on(o, p) == Self::bh_of(o),
        decreases o,
    {
        match o {
            None => {},
            Some(n) => {
                Self::lemma_black_paths(n.left);
                Self::lemma_black_paths(n.right);
                assert forall|p: Seq<bool>| #[trigger] Self::path_to_empty_of(o, p) implies
                    Self::black_count_on(o, p) == Self::bh_of(o) by {
                    let rest = p.drop_first();
                    if p[0] {
                        assert(Self::path_to_empty_of(n.right, rest));
                    } else {
                        assert(Self::path_to_empty_of(n.left, rest));
                    }
                }
            },
        }
    }

    /// In-order keys: strictly sorted, exactly the map's domain, one per node.
    proof fn lemma_keys_sorted(o: Option<Box<Node<K, V>>>)
        requires
            Self::wf_of(o),
        ensures
            forall|i: int, j: int|
                0 <= i < j < Self::keys_of(o).len() ==> lt::<K>(
                    Self::keys_of(o)[i],
                    Self::keys_of(o)[j],
                ),
            forall|e: K::V| #[trigger]
                Self::keys_of(o).contains(e) <==> Self::map_of(o).dom().contains(e),
            Self::keys_of(o).len() == Self::count_of(o),
        decreases o,
    {
        match o {
            None => {},
            Some(n) => {
                Self::lemma_keys_sorted(n.left);
                Self::lemma_keys_sorted(n.right);
                let kl = Self::keys_of(n.left);
                let kr = Self::keys_of(n.right);
                let ks = Self::keys_of(o);
                assert(ks == kl + seq![n.key@] + kr);
                assert forall|e: K::V| #[trigger] ks.contains(e) implies Self::map_of(
                    o,
                ).dom().contains(e) by {
                    let i = choose|i: int| 0 <= i < ks.len() && ks[i] == e;
                    if i < kl.len() {
                        assert(kl[i] == e);
                        assert(kl.contains(e));
                    } else if i > kl.len() {
                        assert(kr[i - kl.len() - 1] == e);
                        assert(kr.contains(e));
                    }
                }
                assert forall|e: K::V| Self::map_of(o).dom().contains(e) implies #[trigger] ks.contains(
                    e,
                ) by {
                    if e == n.key@ {
                        assert(ks[kl.len() as int] == e);
                    } else if Self::map_of(n.left).dom().contains(e) {
                        assert(kl.contains(e));
                        let i = choose|i: int| 0 <= i < kl.len() && kl[i] == e;
                        assert(ks[i] == e);
                    } else {
                        assert(Self::map_of(n.right).dom().contains(e));
                        assert(kr.contains(e));
                        let i = choose|i: int| 0 <= i < kr.len() && kr[i] == e;
                        assert(ks[i + kl.len() + 1] == e);
                    }
                }
                assert forall|i: int, j: int| 0 <= i < j < ks.len() implies lt::<K>(
                    ks[i],
                    ks[j],
                ) by {
                    let li = kl.len() as int;
                    if i < li {
                        assert(kl[i] == ks[i]);
                        assert(kl.contains(kl[i]));
                        assert(Self::map_of(n.left).dom().contains(ks[i]));
                    }
                    if j > li {
                        assert(kr[j - li - 1] == ks[j]);
                        assert(kr.contains(kr[j - li - 1]));
                        assert(Self::map_of(n.right).dom().contains(ks[j]));
                    }
                    if j < li || i > li {
                        // both on the same side: inherited from the subtree
                    } else if i < li && j > li {
                        lemma_lt_transitive::<K>(ks[i], n.key@, ks[j]);
                    }
                }
            },
        }
    }

    /// Under the color discipline and black balance, every node's shortest
    /// way down is at least the black height and its longest way down at
    /// most twice that (plus one when its own link is red).
    proof fn lemma_depth_bounds(o: Option<Box<Node<K, V>>>)
        requires
            Self::colors_ok_of(o),
            Self::balanced_of(o),
        ensures
            Self::min_depth_of(o) >= Self::bh_of(o),
            Self::max_depth_of(o) <= 2 * Self::bh_of(o) + if Self::is_red(o) {
                1nat
            } else {
                0nat
            },
        decreases o,
    {
        match o {
            None => {},
            Some(n) => {
                Self::lemma_depth_bounds(n.left);
                Self::lemma_depth_bounds(n.right);
            },
        }
    }
}

/// An ordered map from keys to values, balanced as a left-leaning red-black
/// tree. The empty tree has no root.
pub struct LLRBTree<K: TotalOrder, V> {
    root: Option<Box<Node<K, V>>>,
}

impl<K: TotalOrder, V> View for LLRBTree<K, V> {
    type V = Map<K::V, V>;

    /// The map this tree holds, keyed by key views.
    closed spec fn view(&self) -> Map<K::V, V> {
        Node::map_of(self.root)
    }
}

impl<K: TotalOrder, V> LLRBTree<K, V> {
    /// Binary-search-tree ordering holds everywhere in the tree.
    pub closed spec fn well_formed(self) -> bool {
        Node::wf_of(self.root)
    }

    /// No red link leans right and no two red links follow each other.
    pub closed spec fn colors_ok(self) -> bool {
        Node::colors_ok_of(self.root)
    }

    /// Every path from the root to an empty child crosses the same number of
    /// black nodes.
    pub closed spec fn black_balanced(self) -> bool {
        Node::balanced_of(self.root)
    }

    /// The link down to the root is black (the empty tree counts as black).
    pub closed spec fn root_is_black(self) -> bool {
        !Node::is_red(self.root)
    }

    /// Everything an insert maintains: ordering, color discipline, black
    /// balance, and a black root.
    pub closed spec fn inv(self) -> bool {
        &&& self.well_formed()
        &&& self.colors_ok()
        &&& self.black_balanced()
        &&& self.root_is_black()
    }

    /// The number of nodes in the tree.
    pub closed spec fn node_count(self) -> nat {
        Node::count_of(self.root)
    }

    /// The in-order sequence of key views.
    pub closed spec fn key_seq(self) -> Seq<K::V> {
        Node::keys_of(self.root)
    }

    /// The shortest distance from the root down to an empty child.
    pub closed spec fn min_depth(self) -> nat {
        Node::min_depth_of(self.root)
    }

    /// The longest distance from the root down to an empty child.
    pub closed spec fn max_depth(self) -> nat {
        Node::max_depth_of(self.root)
    }

    /// Constructs the empty tree.
    pub fn new() -> (t: LLRBTree<K, V>)
        ensures
            t.inv(),
            t@ == Map::<K::V, V>::empty(),
            t.node_count() == 0,
    {
        LLRBTree { root: None }
    }
}

impl<K: TotalOrder, V: Clone> LLRBTree<K, V> {
    /// Standard binary-search-tree descent below an optional subtree.
    fn search_in(o: &Option<Box<Node<K, V>>>, k: &K) -> (r: Option<V>)
        requires
            Node::wf_of(*o),
        ensures
            match r {
                Some(v) => Node::map_of(*o).dom().contains(k@) && vstd::pervasive::cloned::<V>(
                    Node::map_of(*o)[k@],
                    v,
                ),
                None => !Node::map_of(*o).dom().contains(k@),
            },
        decreases *o,
    {
        match o {
            None => None,
            Some(node) => {
                match node.key.compare_with(k) {
                    KeyOrdering::Equal => Some(node.val.clone()),
                    KeyOrdering::Less => {
                        // the node's key is below the sought key: go right
                        proof {
                            if Node::map_of(node.left).dom().contains(k@) {
                                K::lemma_antisymmetric(node.key@, k@);
                            }
                        }
                        Self::search_in(&node.right, k)
                    },
                    KeyOrdering::Greater => {
                        proof {
                            if Node::map_of(node.right).dom().contains(k@) {
                                K::lemma_antisymmetric(node.key@, k@);
                            }
                        }
                        Self::search_in(&node.left, k)
                    },
                }
            },
        }
    }

    /// Looks the key up; absence is a normal outcome. The value comes back
    /// through `V::clone`, so the contract states the clone relation; for
    /// value types whose clone is exact this is equality.
    pub fn search(&self, k: K) -> (r: Option<V>)
        requires
            self.inv(),
        ensures
            r is Some <==> self@.dom().contains(k@),
            match r {
                Some(v) => self@.dom().contains(k@) && vstd::pervasive::cloned::<V>(self@[k@], v),
                None => !self@.dom().contains(k@),
            },
    {
        Self::search_in(&self.root, &k)
    }
}

impl<K: TotalOrder, V> LLRBTree<K, V> {
    /// Whether both children exist and both their links are red: the
    /// precondition of a color flip.
    fn _should_flip_color(node: &Node<K, V>) -> (r: bool)
        ensures
            r == (Node::is_red(node.left) && Node::is_red(node.right)),
    {
        match (&node.left, &node.right) {
            (Some(ln), Some(rn)) => ln.color && rn.color,
            _ => false,
        }
    }

    /// Inverts the node's color and the colors of both children. Reaching
    /// this with an absent child would mean the balance invariants were
    /// already broken, so absence is ruled out by precondition.
    fn _flip_color(h: &mut Node<K, V>)
        requires
            Node::is_red(old(h).left),
            Node::is_red(old(h).right),
            !old(h).color,
            old(h).node_balanced(),
            Node::colors_ok_of(old(h).left),
            Node::colors_ok_of(old(h).right),
        ensures
            final(h).key == old(h).key,
            final(h).val == old(h).val,
            final(h).color == true,
            final(h).as_map() == old(h).as_map(),
            old(h).well_formed() ==> final(h).well_formed(),
            final(h).node_count() == old(h).node_count(),
            final(h).node_balanced(),
            final(h).node_bh() == old(h).node_bh(),
            final(h).colors_ok(),
    {
        h.color = !h.color;
        let l = h.left.take();
        match l {
            Some(mut lb) => {
                lb.color = !lb.color;
                h.left = Some(lb);
            },
            None => {
                proof {
                    // flipping with an absent child would mean the balance
                    // invariants were already broken
                    assert(false);
                }
            },
        }
        let r = h.right.take();
        match r {
            Some(mut rb) => {
                rb.color = !rb.color;
                h.right = Some(rb);
            },
            None => {
                proof {
                    // as above: both children exist here
                    assert(false);
                }
            },
        }
        proof {
            let lb_old = old(h).left.unwrap();
            let rb_old = old(h).right.unwrap();
            let lb_new = h.left.unwrap();
            let rb_new = h.right.unwrap();
            assert(lb_new.as_map() == lb_old.as_map());
            assert(rb_new.as_map() == rb_old.as_map());
            assert(Node::map_of(h.left) == Node::map_of(old(h).left));
            assert(Node::map_of(h.right) == Node::map_of(old(h).right));
            assert(h.as_map() == old(h).as_map());
            if old(h).well_formed() {
                assert(lb_old.well_formed());
                assert(rb_old.well_formed());
                assert forall|e: K::V| #[trigger] Node::map_of(lb_new.left).dom().contains(e)
                    implies lt::<K>(e, lb_new.key@) by {
                    assert(Node::map_of(lb_old.left).dom().contains(e));
                }
                assert forall|e: K::V| #[trigger] Node::map_of(lb_new.right).dom().contains(e)
                    implies lt::<K>(lb_new.key@, e) by {
                    assert(Node::map_of(lb_old.right).dom().contains(e));
                }
                assert(lb_new.well_formed());
                assert forall|e: K::V| #[trigger] Node::map_of(rb_new.left).dom().contains(e)
                    implies lt::<K>(e, rb_new.key@) by {
                    assert(Node::map_of(rb_old.left).dom().contains(e));
                }
                assert forall|e: K::V| #[trigger] Node::map_of(rb_new.right).dom().contains(e)
                    implies lt::<K>(rb_new.key@, e) by {
                    assert(Node::map_of(rb_old.right).dom().contains(e));
                }
                assert(rb_new.well_formed());
                assert(h.well_formed());
            }
            assert(lb_new.colors_ok());
            assert(rb_new.colors_ok());
            assert(h.colors_ok());
            assert(Node::bh_of(h.left) == Node::bh_of(old(h).left) + 1);
            assert(Node::bh_of(h.right) == Node::bh_of(old(h).right) + 1);
            assert(h.node_balanced());
            assert(h.node_bh() == old(h).node_bh());
            assert(h.node_count() == old(h).node_count());
        }
    }

    /// Whether a right-leaning red link must be rotated away: the right link
    /// is red while the left is not.
    fn _should_rotate_left(left: &Option<Box<Node<K, V>>>, right: &Option<Box<Node<K, V>>>) -> (r:
        bool)
        ensures
            r == (Node::is_red(*right) && !Node::is_red(*left)),
    {
        match (right, left) {
            (Some(rn), None) => rn.color,
            (Some(rn), Some(ln)) => rn.color && !ln.color,
            _ => false,
        }
    }

    /// Whether two red left links follow each other, calling for a right
    /// rotation.
    fn _should_rotate_right(left: &Option<Box<Node<K, V>>>) -> (r: bool)
        ensures
            r == (Node::is_red(*left) && Node::is_red(left.unwrap().left)),
    {
        match left {
            None => false,
            Some(ln) => {
                match &ln.left {
                    None => false,
                    Some(ll) => ln.color && ll.color,
                }
            },
        }
    }

    /// Left rotation: the red right child becomes the local root and keeps
    /// the old root's color; the old root turns red and becomes its left
    /// child. Preserves the map, the node count and the black balance.
    fn _rotate_left(node_h: Node<K, V>) -> (r: Node<K, V>)
        requires
            node_h.right is Some,
            Node::is_red(node_h.right),
            node_h.well_formed(),
            node_h.node_balanced(),
        ensures
            r.well_formed(),
            r.as_map() == node_h.as_map(),
            r.node_count() == node_h.node_count(),
            r.node_balanced(),
            r.node_bh() == node_h.node_bh(),
            r.color == node_h.color,
            r.right == node_h.right.unwrap().right,
            r.left is Some,
            r.left.unwrap().color == true,
            r.left.unwrap().left == node_h.left,
            r.left.unwrap().right == node_h.right.unwrap().left,
    {
        let ghost orig = node_h;
        let Node { key, val, color, left, right } = node_h;
        let x = *right.unwrap();
        let new_h = Node { key, val, color: true, left, right: x.left };
        let res = Node { key: x.key, val: x.val, color, left: Some(Box::new(new_h)), right: x.right };
        proof {
            let x_s = orig.right.unwrap();
            let hk = orig.key@;
            let xk = x_s.key@;
            let l_map = Node::map_of(orig.left);
            let xl_map = Node::map_of(x_s.left);
            let xr_map = Node::map_of(x_s.right);
            assert(Node::map_of(orig.right) == x_s.as_map());
            assert(x_s.well_formed());
            assert(Node::map_of(orig.right).dom().contains(xk));
            assert(lt::<K>(hk, xk));
            assert forall|e: K::V| #[trigger] xl_map.dom().contains(e) implies lt::<K>(hk, e)
                && lt::<K>(e, xk) by {
                assert(Node::map_of(orig.right).dom().contains(e));
            }
            assert forall|e: K::V| #[trigger] xr_map.dom().contains(e) implies lt::<K>(xk, e)
                && lt::<K>(hk, e) by {
                assert(Node::map_of(orig.right).dom().contains(e));
                lemma_lt_transitive::<K>(hk, xk, e);
            }
            assert forall|e: K::V| #[trigger] l_map.dom().contains(e) implies lt::<K>(e, hk)
                && lt::<K>(e, xk) by {
                lemma_lt_transitive::<K>(e, hk, xk);
            }
            assert(Node::map_of(res.left) == l_map.union_prefer_right(xl_map).insert(
                hk,
                orig.val,
            ));
            assert(Node::map_of(res.right) == xr_map);
            assert(res.as_map() =~= orig.as_map());
            assert(res.left.unwrap().well_formed());
            assert(res.well_formed());
            assert(res.node_balanced());
        }
        res
    }

    /// Right rotation: the red left child becomes the local root and keeps
    /// the old root's color; the old root turns red and becomes its right
    /// child. Preserves the map, the node count and the black balance.
    fn _rotate_right(node_h: Node<K, V>) -> (r: Node<K, V>)
        requires
            node_h.left is Some,
            Node::is_red(node_h.left),
            node_h.well_formed(),
            node_h.node_balanced(),
        ensures
            r.well_formed(),
            r.as_map() == node_h.as_map(),
            r.node_count() == node_h.node_count(),
            r.node_balanced(),
            r.node_bh() == node_h.node_bh(),
            r.color == node_h.color,
            r.left == node_h.left.unwrap().left,
            r.right is Some,
            r.right.unwrap().color == true,
            r.right.unwrap().left == node_h.left.unwrap().right,
            r.right.unwrap().right == node_h.right,
    {
        let ghost orig = node_h;
        let Node { key, val, color, left, right } = node_h;
        let x = *left.unwrap();
        let new_h = Node { key, val, color: true, left: x.right, right };
        let res = Node { key: x.key, val: x.val, color, left: x.left, right: Some(Box::new(new_h)) };
        proof {
            let x_s = orig.left.unwrap();
            let hk = orig.key@;
            let xk = x_s.key@;
            let r_map = Node::map_of(orig.right);
            let xl_map = Node::map_of(x_s.left);
            let xr_map = Node::map_of(x_s.right);
            assert(Node::map_of(orig.left) == x_s.as_map());
            assert(x_s.well_formed());
            assert(Node::map_of(orig.left).dom().contains(xk));
            assert(lt::<K>(xk, hk));
            assert forall|e: K::V| #[trigger] xr_map.dom().contains(e) implies lt::<K>(e, hk)
                && lt::<K>(xk, e) by {
                assert(Node::map_of(orig.left).dom().contains(e));
            }
            assert forall|e: K::V| #[trigger] xl_map.dom().contains(e) implies lt::<K>(e, xk)
                && lt::<K>(e, hk) by {
                assert(Node::map_of(orig.left).dom().contains(e));
                lemma_lt_transitive::<K>(e, xk, hk);
            }
            assert forall|e: K::V| #[trigger] r_map.dom().contains(e) implies lt::<K>(hk, e)
                && lt::<K>(xk, e) by {
                lemma_lt_transitive::<K>(xk, hk, e);
            }
            assert(Node::map_of(res.right) == xr_map.union_prefer_right(r_map).insert(
                hk,
                orig.val,
            ));
            assert(Node::map_of(res.left) == xl_map);
            assert(res.as_map() =~= orig.as_map());
            assert(res.right.unwrap().well_formed());
            assert(res.well_formed());
            assert(res.node_balanced());
        }
        res
    }

    /// Recursive insert-and-repair. The result holds the grown map, keeps
    /// the black height, and obeys the color discipline everywhere except
    /// that, when the given subtree's own link was red, the result's root
    /// may be red with a red left child; the parent's corrections resolve
    /// that.
    fn _insert(h: Option<Box<Node<K, V>>>, k: K, v: V) -> (r: Option<Box<Node<K, V>>>)
        requires
            Node::wf_of(h),
            Node::colors_ok_of(h),
            Node::balanced_of(h),
        ensures
            r is Some,
            Node::wf_of(r),
            Node::map_of(r) == Node::map_of(h).insert(k@, v),
            Node::balanced_of(r),
            Node::bh_of(r) == Node::bh_of(h),
            !Node::is_red(r.unwrap().right),
            Node::colors_ok_of(r.unwrap().left),
            Node::colors_ok_of(r.unwrap().right),
            !Node::is_red(h) ==> Node::colors_ok_of(r),
            Node::count_of(r) == Node::count_of(h) + if Node::map_of(h).dom().contains(k@) {
                0nat
            } else {
                1nat
            },
        decreases h,
    {
        match h {
            None => {
                let n = Node::new(k, v);
                let r = Some(Box::new(n));
                proof {
                    assert(Node::map_of(r) =~= Node::map_of(h).insert(k@, v));
                }
                r
            },
            Some(boxed_h) => {
                let ghost h_snap = *boxed_h;
                let mut node = *boxed_h;
                if Self::_should_flip_color(&node) {
                    proof {
                        // a red right child contradicts the color discipline
                        assert(false);
                    }
                    Self::_flip_color(&mut node);
                }
                match node.key.compare_with(&k) {
                    KeyOrdering::Equal => {
                        node.val = v;
                        proof {
                            assert(node.as_map() =~= h_snap.as_map().insert(k@, v));
                            assert(node.colors_ok());
                        }
                    },
                    KeyOrdering::Less => {
                        // the node's key is below the new key: grow the right subtree
                        proof {
                            if Node::map_of(node.left).dom().contains(k@) {
                                K::lemma_antisymmetric(k@, node.key@);
                            }
                        }
                        node.right = Self::_insert(node.right, k, v);
                        proof {
                            assert forall|e: K::V| #[trigger] Node::map_of(
                                node.right,
                            ).dom().contains(e) implies lt::<K>(node.key@, e) by {
                                assert(Node::map_of(h_snap.right).dom().contains(e) || e == k@);
                            }
                            assert(node.well_formed());
                            assert(node.as_map() =~= h_snap.as_map().insert(k@, v));
                            assert(Node::map_of(h).dom().contains(k@) == Node::map_of(
                                h_snap.right,
                            ).dom().contains(k@));
                            assert(node.node_balanced());
                            assert(node.node_bh() == Node::bh_of(h));
                            assert(Node::colors_ok_of(node.left));
                            assert(Node::colors_ok_of(node.right));
                        }
                    },
                    KeyOrdering::Greater => {
                        proof {
                            if Node::map_of(node.right).dom().contains(k@) {
                                K::lemma_antisymmetric(node.key@, k@);
                            }
                        }
                        node.left = Self::_insert(node.left, k, v);
                        proof {
                            assert forall|e: K::V| #[trigger] Node::map_of(
                                node.left,
                            ).dom().contains(e) implies lt::<K>(e, node.key@) by {
                                assert(Node::map_of(h_snap.left).dom().contains(e) || e == k@);
                            }
                            assert(node.well_formed());
                            assert(node.as_map() =~= h_snap.as_map().insert(k@, v));
                            assert(Node::map_of(h).dom().contains(k@) == Node::map_of(
                                h_snap.left,
                            ).dom().contains(k@));
                            assert(node.node_balanced());
                            assert(node.node_bh() == Node::bh_of(h));
                            assert(!Node::is_red(h_snap.left) ==> Node::colors_ok_of(node.left));
                        }
                    },
                }
                if Self::_should_rotate_left(&node.left, &node.right) {
                    node = Self::_rotate_left(node);
                    proof {
                        assert(Node::colors_ok_of(node.left));
                        assert(!Node::is_red(node.right));
                        assert(Node::colors_ok_of(node.right));
                        assert(!node.color ==> node.colors_ok());
                        assert(node.color == h_snap.color);
                    }
                }
                if Self::_should_rotate_right(&node.left) {
                    proof {
                        if Node::colors_ok_of(node.left) {
                            // a disciplined left child never carries a second red link
                            assert(node.left.unwrap().colors_ok());
                        }
                    }
                    node = Self::_rotate_right(node);
                    proof {
                        assert(!node.color);
                        assert(node.right.unwrap().colors_ok());
                        assert(Node::colors_ok_of(node.right));
                        assert(Node::colors_ok_of(node.left));
                    }
                }
                if Self::_should_flip_color(&node) {
                    proof {
                        assert(!node.color);
                        assert(node.node_balanced());
                    }
                    Self::_flip_color(&mut node);
                }
                let r = Some(Box::new(node));
                proof {
                    assert(Node::wf_of(r));
                    assert(Node::map_of(r) == Node::map_of(h).insert(k@, v));
                    assert(Node::balanced_of(r));
                    assert(Node::bh_of(r) == Node::bh_of(h));
                    assert(!Node::is_red(node.right));
                    assert(Node::colors_ok_of(node.left));
                    assert(Node::colors_ok_of(node.right));
                    assert(!Node::is_red(h) ==> node.colors_ok());
                }
                r
            },
        }
    }

    /// Inserts the pair, overwriting the value if the key's view is already
    /// present, and forces the root black. Insertion always succeeds; the
    /// node count grows exactly when the key view was absent.
    pub fn insert(&mut self, k: K, v: V)
        requires
            old(self).inv(),
        ensures
            final(self).inv(),
            final(self).root_is_black(),
            final(self)@ == old(self)@.insert(k@, v),
            final(self).node_count() == old(self).node_count() + if old(self)@.dom().contains(k@) {
                0nat
            } else {
                1nat
            },
    {
        let root = self.root.take();
        let new_root = Self::_insert(root, k, v);
        match new_root {
            Some(mut b) => {
                let ghost before = *b;
                b.color = false;
                proof {
                    assert((*b).as_map() == before.as_map());
                    assert((*b).well_formed());
                    assert((*b).colors_ok());
                    assert((*b).node_balanced());
                }
                self.root = Some(b);
            },
            None => {
                proof {
                    // the recursive insert always returns a node
                    assert(false);
                }
                self.root = None;
            },
        }
    }
}

impl<K: TotalOrder, V> LLRBTree<K, V> {
    /// The number of black nodes on the tree's left spine; by
    /// `lemma_black_height_uniform` the black count of every path.
    pub closed spec fn black_height(self) -> nat {
        Node::bh_of(self.root)
    }

    /// Whether the sequence of turns (`false` left, `true` right) leads from
    /// the root exactly down to an empty child.
    pub closed spec fn path_to_empty(self, p: Seq<bool>) -> bool {
        Node::path_to_empty_of(self.root, p)
    }

    /// How many black nodes the path crosses.
    pub closed spec fn black_count_on(self, p: Seq<bool>) -> nat {
        Node::black_count_on(self.root, p)
    }

    /// Law: in a black-balanced tree, every path from the root down to an
    /// empty child crosses the same number of black nodes, namely the tree's
    /// black height.
    pub proof fn lemma_black_height_uniform(t: LLRBTree<K, V>)
        requires
            t.black_balanced(),
        ensures
            forall|p: Seq<bool>| #[trigger]
                t.path_to_empty(p) ==> t.black_count_on(p) == t.black_height(),
    {
        Node::lemma_black_paths(t.root);
    }

    /// No red link hangs as a right child anywhere in the tree.
    pub closed spec fn no_red_right(self) -> bool {
        Node::no_red_right_of(self.root)
    }

    /// No downward path in the tree holds two red links in a row.
    pub closed spec fn no_double_red(self) -> bool {
        Node::no_double_red_of(self.root)
    }

    /// What the insert invariant spells out, piece by piece: the tree is a
    /// search tree, its red links lean left and never double up, its black
    /// height is the same along every path, and its root is black.
    pub proof fn lemma_inv_parts(t: LLRBTree<K, V>)
        requires
            t.inv(),
        ensures
            t.well_formed(),
            t.colors_ok(),
            t.black_balanced(),
            t.root_is_black(),
    {
    }

    /// Law: in a well-formed tree the in-order key sequence is strictly
    /// increasing, lists exactly the keys of the map, and has one entry per
    /// node. Every tree reachable through `new` and `insert` is well formed.
    pub proof fn lemma_inorder_sorted(t: LLRBTree<K, V>)
        requires
            t.well_formed(),
        ensures
            forall|i: int, j: int|
                0 <= i < j < t.key_seq().len() ==> lt::<K>(t.key_seq()[i], t.key_seq()[j]),
            forall|e: K::V| #[trigger] t.key_seq().contains(e) <==> t@.dom().contains(e),
            t.key_seq().len() == t.node_count(),
    {
        Node::lemma_keys_sorted(t.root);
    }

    /// Law: in a tree satisfying the insert invariant, the longest way down
    /// to an empty child is at most twice the shortest.
    pub proof fn lemma_height_bounded(t: LLRBTree<K, V>)
        requires
            t.inv(),
        ensures
            t.max_depth() <= 2 * t.min_depth(),
    {
        Node::lemma_depth_bounds(t.root);
    }

    /// Law: the color discipline kept by every insert means no red link ever
    /// leans right and no two red links ever follow each other.
    pub proof fn lemma_red_links(t: LLRBTree<K, V>)
        requires
            t.colors_ok(),
        ensures
            t.no_red_right(),
            t.no_double_red(),
    {
        Node::lemma_colors_decompose(t.root);
    }

    /// Counts the nodes below an optional subtree.
    fn count_in(o: &Option<Box<Node<K, V>>>) -> (c: usize)
        requires
            Node::count_of(*o) <= usize::MAX,
        ensures
            c == Node::count_of(*o),
        decreases *o,
    {
        match o {
            None => 0,
            Some(n) => {
                let cl = Self::count_in(&n.left);
                let cr = Self::count_in(&n.right);
                1 + cl + cr
            },
        }
    }

    /// The number of nodes in the tree.
    pub fn len(&self) -> (c: usize)
        requires
            self.node_count() <= usize::MAX,
        ensures
            c == self.node_count(),
    {
        Self::count_in(&self.root)
    }

    /// The longest way down from an optional subtree to an empty child.
    fn height_in(o: &Option<Box<Node<K, V>>>) -> (d: usize)
        requires
            Node::max_depth_of(*o) <= usize::MAX,
        ensures
            d == Node::max_depth_of(*o),
        decreases *o,
    {
        match o {
            None => 0,
            Some(n) => {
                let dl = Self::height_in(&n.left);
                let dr = Self::height_in(&n.right);
                if dl <= dr {
                    1 + dr
                } else {
                    1 + dl
                }
            },
        }
    }

    /// The height of the tree: the longest way down from the root to an
    /// empty child.
    pub fn height(&self) -> (d: usize)
        requires
            self.max_depth() <= usize::MAX,
        ensures
            d == self.max_depth(),
    {
        Self::height_in(&self.root)
    }
}

/// The map left behind by inserting a sequence of pairs in order, each
/// insert overwriting any earlier value under the same key — exactly what a
/// run of `LLRBTree::insert` calls builds, by `insert`'s contract.
pub open spec fn map_of_pairs<A, B>(s: Seq<(A, B)>) -> Map<A, B>
    decreases s.len(),
{
    if s.len() == 0 {
        Map::empty()
    } else {
        map_of_pairs(s.drop_last()).insert(s.last().0, s.last().1)
    }
}

/// No key appears twice in the sequence of pairs.
pub open spec fn distinct_keys<A, B>(s: Seq<(A, B)>) -> bool {
    forall|i: int, j: int| 0 <= i < j < s.len() ==> s[i].0 != s[j].0
}

/// With distinct keys, the built map holds exactly the given pairs.
proof fn lemma_map_of_pairs_members<A, B>(s: Seq<(A, B)>)
    requires
        distinct_keys(s),
    ensures
        forall|p: (A, B)| #[trigger]
            s.contains(p) ==> map_of_pairs(s).dom().contains(p.0) && map_of_pairs(s)[p.0] == p.1,
        forall|a: A| #[trigger]
            map_of_pairs(s).dom().contains(a) ==> exists|p: (A, B)| s.contains(p) && p.0 == a,
    decreases s.len(),
{
    if s.len() > 0 {
        let pre = s.drop_last();
        assert forall|i: int, j: int| 0 <= i < j < pre.len() implies pre[i].0 != pre[j].0 by {
            assert(pre[i] == s[i]);
            assert(pre[j] == s[j]);
        }
        lemma_map_of_pairs_members(pre);
        assert forall|p: (A, B)| #[trigger] s.contains(p) implies map_of_pairs(s).dom().contains(
            p.0,
        ) && map_of_pairs(s)[p.0] == p.1 by {
            let i = choose|i: int| 0 <= i < s.len() && s[i] == p;
            if i < s.len() - 1 {
                assert(pre[i] == p);
                assert(pre.contains(p));
                assert(p.0 != s.last().0);
            }
        }
        assert forall|a: A| #[trigger] map_of_pairs(s).dom().contains(a) implies exists|p: (A, B)|
            s.contains(p) && p.0 == a by {
            if a == s.last().0 {
                assert(s[s.len() - 1] == s.last());
                assert(s.contains(s.last()));
            } else {
                assert(map_of_pairs(pre).dom().contains(a));
                let p = choose|p: (A, B)| pre.contains(p) && p.0 == a;
                assert(pre.contains(p));
                let i = choose|i: int| 0 <= i < pre.len() && pre[i] == p;
                assert(pre[i] == p);
                assert(s[i] == p);
                assert(s.contains(p));
            }
        }
    }
}

/// Law: the most recent insert for a key wins. If position `i` holds the
/// last pair with its key, the built map holds that pair's value under it.
pub proof fn lemma_last_insert_wins<A, B>(s: Seq<(A, B)>, i: int)
    requires
        0 <= i < s.len(),
        forall|j: int| i < j < s.len() ==> s[j].0 != s[i].0,
    ensures
        map_of_pairs(s).dom().contains(s[i].0),
        map_of_pairs(s)[s[i].0] == s[i].1,
    decreases s.len(),
{
    if i < s.len() - 1 {
        let pre = s.drop_last();
        assert(pre[i] == s[i]);
        assert forall|j: int| i < j < pre.len() implies pre[j].0 != pre[i].0 by {
            assert(pre[j] == s[j]);
        }
        lemma_last_insert_wins(pre, i);
        assert(s[s.len() - 1].0 != s[i].0);
    }
}

/// Law: a key that no pair carries is absent from the built map.
pub proof fn lemma_never_inserted_absent<A, B>(s: Seq<(A, B)>, a: A)
    requires
        forall|j: int| 0 <= j < s.len() ==> s[j].0 != a,
    ensures
        !map_of_pairs(s).dom().contains(a),
    decreases s.len(),
{
    if s.len() > 0 {
        let pre = s.drop_last();
        assert forall|j: int| 0 <= j < pre.len() implies pre[j].0 != a by {
            assert(pre[j] == s[j]);
        }
        lemma_never_inserted_absent(pre, a);
        assert(s[s.len() - 1].0 != a);
    }
}

/// Law: inserting the same distinct-keyed pairs in any order builds the same
/// map. Together with `insert`'s contract this says the tree's content does
/// not depend on insertion order.
pub proof fn lemma_insert_order_irrelevant<A, B>(s1: Seq<(A, B)>, s2: Seq<(A, B)>)
    requires
        distinct_keys(s1),
        distinct_keys(s2),
        forall|p: (A, B)| #[trigger] s1.contains(p) <==> #[trigger] s2.contains(p),
    ensures
        map_of_pairs(s1) == map_of_pairs(s2),
{
    lemma_map_of_pairs_members(s1);
    lemma_map_of_pairs_members(s2);
    assert forall|a: A| #[trigger] map_of_pairs(s1).dom().contains(a) implies map_of_pairs(
        s2,
    ).dom().contains(a) && map_of_pairs(s2)[a] == map_of_pairs(s1)[a] by {
        let p = choose|p: (A, B)| s1.contains(p) && p.0 == a;
        assert(s2.contains(p));
    }
    assert forall|a: A| #[trigger] map_of_pairs(s2).dom().contains(a) implies map_of_pairs(
        s1,
    ).dom().contains(a) && map_of_pairs(s1)[a] == map_of_pairs(s2)[a] by {
        let p = choose|p: (A, B)| s2.contains(p) && p.0 == a;
        assert(s1.contains(p));
    }
    assert(map_of_pairs(s1) =~= map_of_pairs(s2));
}

} // verus!
