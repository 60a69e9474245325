//! The mathematical model of the key-evolution tree: a complete binary tree of
//! depth 32 whose nodes are visited in preorder.
use vstd::arithmetic::power2::*;
use vstd::prelude::*;

verus! {

/// Position of a node in the tree: `depth` edges below the root, and the
/// `index`-th node of that depth counted from the left, starting at zero.
pub struct Addr {
    pub depth: nat,
    pub index: nat,
}

/// Number of nodes of the whole tree.
pub open spec fn node_count() -> nat {
    (pow2(33) - 1) as nat
}

impl Addr {
    pub open spec fn root() -> Addr {
        Addr { depth: 0, index: 0 }
    }

    /// The rightmost leaf, which preorder visits last.
    pub open spec fn last() -> Addr {
        Addr { depth: 32, index: (pow2(32) - 1) as nat }
    }

    /// A position names a node of the tree.
    pub open spec fn wf(self) -> bool {
        self.depth <= 32 && self.index < pow2(self.depth)
    }

    pub open spec fn is_leaf(self) -> bool {
        self.depth == 32
    }

    pub open spec fn left(self) -> Addr {
        Addr { depth: self.depth + 1, index: 2 * self.index }
    }

    pub open spec fn right(self) -> Addr {
        Addr { depth: self.depth + 1, index: 2 * self.index + 1 }
    }

    pub open spec fn parent(self) -> Addr {
        Addr { depth: (self.depth - 1) as nat, index: self.index / 2 }
    }

    pub open spec fn is_left_child(self) -> bool {
        self.depth > 0 && self.index % 2 == 0
    }

    pub open spec fn is_right_child(self) -> bool {
        self.depth > 0 && self.index % 2 == 1
    }

    /// Number of nodes of the subtree rooted at this node.
    pub open spec fn subtree_size(self) -> nat {
        (pow2((33 - self.depth) as nat) - 1) as nat
    }

    /// The node of depth `d` on the path from the root to this node; the node
    /// itself where it is no deeper than `d`.
    pub open spec fn ancestor(self, d: nat) -> Addr
        decreases self.depth,
    {
        if self.depth <= d {
            self
        } else {
            self.parent().ancestor(d)
        }
    }

    /// This node lies in the subtree rooted at `other`.
    pub open spec fn in_subtree(self, other: Addr) -> bool {
        other == Addr::root() || (other.depth <= self.depth && self.ancestor(other.depth) == other)
    }

    /// The path from the root down to this node, both ends included.
    pub open spec fn walk(self) -> Seq<Addr> {
        Seq::new(self.depth + 1, |d: int| self.ancestor(d as nat))
    }

    /// What the edge from the parent into this node adds to the numbering: one
    /// for a left edge, the size of the left sibling's subtree plus one for a
    /// right edge.
    pub open spec fn edge_weight(self) -> nat {
        if self.index % 2 == 0 {
            1
        } else {
            pow2((33 - self.depth) as nat)
        }
    }

    /// The number of nodes that preorder visits before this one.
    pub open spec fn numbering(self) -> nat
        decreases self.depth,
    {
        if self.depth == 0 {
            0
        } else {
            self.parent().numbering() + self.edge_weight()
        }
    }

    /// The node that preorder visits `k` steps after this one, inside the
    /// subtree of this node.
    pub open spec fn descend(self, k: nat) -> Addr
        decreases 32 - self.depth,
    {
        if k == 0 || self.depth >= 32 {
            self
        } else if k >= pow2((32 - self.depth) as nat) {
            self.right().descend((k - pow2((32 - self.depth) as nat)) as nat)
        } else {
            self.left().descend((k - 1) as nat)
        }
    }

    /// The node with the given numbering.
    pub open spec fn from_numbering(k: nat) -> Addr {
        Addr::root().descend(k)
    }

    /// The nearest node on the way up that is not a right child.
    pub open spec fn climb(self) -> Addr
        decreases self.depth,
    {
        if self.is_right_child() {
            self.parent().climb()
        } else {
            self
        }
    }

    /// The node that preorder visits immediately after this one.
    pub open spec fn successor(self) -> Option<Addr> {
        if self.depth < 32 {
            Some(self.left())
        } else if self.climb().depth == 0 {
            None
        } else {
            Some(self.climb().parent().right())
        }
    }

    /// The roots of the subtrees that preorder enters after it has left the
    /// subtree of this node, the one entered last first: the right siblings
    /// of the left children on the path from the root to this node.
    pub open spec fn pending(self) -> Seq<Addr>
        decreases self.depth,
    {
        if self.depth == 0 {
            Seq::empty()
        } else if self.index % 2 == 0 {
            self.parent().pending().push(self.parent().right())
        } else {
            self.parent().pending()
        }
    }

    /// The nodes whose subtrees hold this node and all that preorder visits
    /// after it, and no node that it visits before: this node on top of those
    /// that are pending.
    pub open spec fn frontier(self) -> Seq<Addr> {
        self.pending().push(self)
    }

    /// The node reached from the root by `k` steps of `successor`.
    pub open spec fn nth(k: nat) -> Option<Addr>
        decreases k,
    {
        if k == 0 {
            Some(Addr::root())
        } else {
            match Addr::nth((k - 1) as nat) {
                Some(a) => a.successor(),
                None => None,
            }
        }
    }
}

/// Each power of two is twice the one before it, and none is zero.
pub proof fn lemma_pow2_step(n: nat)
    ensures
        pow2(n + 1) == 2 * pow2(n),
        pow2(n) >= 1,
{
    lemma_pow2_unfold(n + 1);
    lemma_pow2_pos(n);
}

/// A node with a child below it is the parent of both its children.
pub proof fn lemma_children(a: Addr)
    requires
        a.wf(),
        a.depth < 32,
    ensures
        a.left().wf(),
        a.right().wf(),
        a.left().parent() == a,
        a.right().parent() == a,
        a.left().is_left_child(),
        a.right().is_right_child(),
{
    lemma_pow2_step(a.depth);
}

/// A node below the root is the left or the right child of its parent.
pub proof fn lemma_parent(a: Addr)
    requires
        a.wf(),
        a.depth > 0,
    ensures
        a.parent().wf(),
        a.parent().depth + 1 == a.depth,
        a.is_left_child() ==> a == a.parent().left(),
        a.is_right_child() ==> a == a.parent().right(),
{
    lemma_pow2_step((a.depth - 1) as nat);
}

/// The ancestors of a node are nodes, each the parent of the next one down.
pub proof fn lemma_ancestor(a: Addr, d: nat)
    requires
        a.wf(),
        d <= a.depth,
    ensures
        a.ancestor(d).wf(),
        a.ancestor(d).depth == d,
        d < a.depth ==> a.ancestor(d) == a.ancestor(d + 1).parent(),
        d == 0 ==> a.ancestor(d) == Addr::root(),
    decreases a.depth,
{
    lemma2_to64();
    if a.depth > d {
        lemma_parent(a);
        lemma_ancestor(a.parent(), d);
    }
}

/// Preorder numbers the nodes of a subtree without a gap, from the number of
/// its root on: the numbers of a node's own subtree lie among those of the
/// subtree of each of its ancestors.
pub proof fn lemma_numbering_in_subtree(a: Addr, d: nat)
    requires
        a.wf(),
        d <= a.depth,
    ensures
        a.ancestor(d).numbering() <= a.numbering(),
        a.numbering() + a.subtree_size() <= a.ancestor(d).numbering() + a.ancestor(
            d,
        ).subtree_size(),
    decreases a.depth,
{
    if a.depth > d {
        lemma_parent(a);
        lemma_numbering_in_subtree(a.parent(), d);
        lemma_pow2_step((33 - a.depth) as nat);
    }
}

/// Every node of the tree has a numbering below the number of nodes.
pub proof fn lemma_numbering_bound(a: Addr)
    requires
        a.wf(),
    ensures
        a.numbering() + a.subtree_size() <= node_count(),
        a.numbering() < node_count(),
{
    lemma_ancestor(a, 0);
    lemma_numbering_in_subtree(a, 0);
    lemma_pow2_step((32 - a.depth) as nat);
}

/// Going `k` steps on from a node, with `k` below the size of its subtree,
/// ends at the node of that subtree whose numbering is `k` higher.
pub proof fn lemma_descend(a: Addr, k: nat)
    requires
        a.wf(),
        k < a.subtree_size(),
    ensures
        a.descend(k).wf(),
        a.descend(k).numbering() == a.numbering() + k,
        a.depth <= a.descend(k).depth,
        a.descend(k).ancestor(a.depth) == a,
    decreases 32 - a.depth,
{
    lemma2_to64();
    if k == 0 {
    } else if a.depth >= 32 {
    } else {
        lemma_children(a);
        lemma_pow2_step((32 - a.depth) as nat);
        let half = pow2((32 - a.depth) as nat);
        let (c, rest) = if k >= half {
            (a.right(), (k - half) as nat)
        } else {
            (a.left(), (k - 1) as nat)
        };
        lemma_descend(c, rest);
        lemma_ancestor(c.descend(rest), a.depth);
    }
}

/// Going on from an ancestor by the difference of the numberings ends at the
/// node.
pub proof fn lemma_descend_to(a: Addr, d: nat)
    requires
        a.wf(),
        d <= a.depth,
    ensures
        a.ancestor(d).numbering() <= a.numbering(),
        a.ancestor(d).descend((a.numbering() - a.ancestor(d).numbering()) as nat) == a,
    decreases a.depth - d,
{
    lemma_numbering_in_subtree(a, d);
    lemma_ancestor(a, d);
    if d < a.depth {
        let b = a.ancestor(d);
        let c = a.ancestor(d + 1);
        lemma_ancestor(a, d + 1);
        lemma_descend_to(a, d + 1);
        lemma_numbering_in_subtree(a, d + 1);
        lemma_parent(c);
        lemma_pow2_step((32 - d) as nat);
        lemma_pow2_step((32 - a.depth) as nat);
        let k = (a.numbering() - b.numbering()) as nat;
        let rest = (a.numbering() - c.numbering()) as nat;
        assert(c.numbering() == b.numbering() + c.edge_weight());
        if c.is_right_child() {
            assert(b.descend(k) == b.right().descend(rest));
        } else {
            assert(b.descend(k) == b.left().descend(rest));
        }
    }
}

/// The numbering of a node leads back to the node.
pub proof fn lemma_numbering_roundtrip(a: Addr)
    requires
        a.wf(),
    ensures
        a.numbering() < node_count(),
        Addr::from_numbering(a.numbering()) == a,
{
    lemma_numbering_bound(a);
    lemma_ancestor(a, 0);
    lemma_descend_to(a, 0);
}

/// Every number below the number of nodes is the numbering of the node that
/// `from_numbering` gives for it.
pub proof fn lemma_from_numbering(k: nat)
    requires
        k < node_count(),
    ensures
        Addr::from_numbering(k).wf(),
        Addr::from_numbering(k).numbering() == k,
{
    lemma2_to64();
    lemma_descend(Addr::root(), k);
}

/// No two nodes share a numbering.
pub proof fn lemma_numbering_injective(a: Addr, b: Addr)
    requires
        a.wf(),
        b.wf(),
        a.numbering() == b.numbering(),
    ensures
        a == b,
{
    lemma_numbering_roundtrip(a);
    lemma_numbering_roundtrip(b);
}

/// The rightmost node of depth `d`.
spec fn rightmost(d: nat) -> Addr {
    Addr { depth: d, index: (pow2(d) - 1) as nat }
}

proof fn lemma_rightmost(d: nat)
    requires
        d <= 32,
    ensures
        rightmost(d).wf(),
        rightmost(d).numbering() + rightmost(d).subtree_size() == node_count(),
    decreases d,
{
    lemma2_to64();
    lemma_pow2_step(d);
    if d > 0 {
        lemma_rightmost((d - 1) as nat);
        lemma_pow2_step((d - 1) as nat);
        lemma_pow2_step((33 - d) as nat);
        assert(rightmost(d).parent() == rightmost((d - 1) as nat));
    }
}

/// The root is the node with the numbering zero, and the rightmost leaf the
/// node with the highest numbering.
pub proof fn lemma_numbering_ends()
    ensures
        Addr::root().wf(),
        Addr::root().numbering() == 0,
        Addr::last().wf(),
        Addr::last().numbering() + 1 == node_count(),
{
    lemma2_to64();
    lemma_rightmost(32);
}

/// Climbing ends at a node that is no right child, and the node climbed from
/// is the one that preorder visits last in the subtree of that node.
pub proof fn lemma_climb(a: Addr)
    requires
        a.wf(),
    ensures
        a.climb().wf(),
        !a.climb().is_right_child(),
        a.climb().depth <= a.depth,
        a.numbering() + a.subtree_size() == a.climb().numbering() + a.climb().subtree_size(),
    decreases a.depth,
{
    if a.is_right_child() {
        lemma_parent(a);
        lemma_climb(a.parent());
        lemma_pow2_step((33 - a.depth) as nat);
    }
}

/// Every node but the last has a successor, which is a node and has the next
/// numbering; the last node has none.
pub proof fn lemma_successor(a: Addr)
    requires
        a.wf(),
    ensures
        a.successor() is None <==> a == Addr::last(),
        a.successor() matches Some(s) ==> s.wf() && s.numbering() == a.numbering() + 1,
{
    lemma2_to64();
    lemma_numbering_ends();
    if a.depth < 32 {
        lemma_children(a);
    } else {
        let c = a.climb();
        lemma_climb(a);
        if c.depth == 0 {
            lemma_numbering_injective(a, Addr::last());
        } else {
            lemma_parent(c);
            let s = c.parent().right();
            lemma_children(c.parent());
            lemma_numbering_bound(s);
        }
    }
}

/// The `k`-th step of preorder from the root reaches the node numbered `k`.
pub proof fn lemma_nth(k: nat)
    requires
        k < node_count(),
    ensures
        Addr::nth(k) == Some(Addr::from_numbering(k)),
    decreases k,
{
    lemma_from_numbering(k);
    if k > 0 {
        let a = Addr::from_numbering((k - 1) as nat);
        lemma_nth((k - 1) as nat);
        lemma_from_numbering((k - 1) as nat);
        lemma_successor(a);
        lemma_numbering_ends();
        lemma_numbering_injective(a.successor().unwrap(), Addr::from_numbering(k));
    }
}

/// Preorder reaches every node of the tree from the root, in as many steps
/// as its numbering says.
pub proof fn lemma_reachable(a: Addr)
    requires
        a.wf(),
    ensures
        a.numbering() < node_count(),
        Addr::nth(a.numbering()) == Some(a),
{
    lemma_numbering_roundtrip(a);
    lemma_nth(a.numbering());
}

/// Preorder never comes back to a node: two different numbers of steps from
/// the root end at different nodes.
pub proof fn lemma_no_repeat(i: nat, j: nat)
    requires
        i < node_count(),
        j < node_count(),
        Addr::nth(i) == Addr::nth(j),
    ensures
        i == j,
{
    lemma_nth(i);
    lemma_nth(j);
    lemma_from_numbering(i);
    lemma_from_numbering(j);
}

/// Preorder ends after it has visited every node: the step after the last
/// node leads nowhere.
pub proof fn lemma_exhausted()
    ensures
        Addr::nth((node_count() - 1) as nat) == Some(Addr::last()),
        Addr::nth(node_count()) is None,
{
    lemma2_to64();
    lemma_numbering_ends();
    lemma_reachable(Addr::last());
    lemma_successor(Addr::last());
}

/// The subtree of a node is the run of nodes that preorder visits from that
/// node on, as many as the subtree has.
pub proof fn lemma_in_subtree_numbering(a: Addr, b: Addr)
    requires
        a.wf(),
        b.wf(),
    ensures
        a.in_subtree(b) <==> b.numbering() <= a.numbering() < b.numbering() + b.subtree_size(),
{
    lemma2_to64();
    lemma_numbering_bound(a);
    lemma_pow2_step((32 - a.depth) as nat);
    if b == Addr::root() {
    } else if a.in_subtree(b) {
        lemma_numbering_in_subtree(a, b.depth);
    } else if b.numbering() <= a.numbering() < b.numbering() + b.subtree_size() {
        let k = (a.numbering() - b.numbering()) as nat;
        lemma_descend(b, k);
        lemma_numbering_injective(a, b.descend(k));
    }
}

/// Every node lies in the subtree of the root, and in its own.
pub proof fn lemma_in_subtree_root(a: Addr)
    ensures
        a.in_subtree(Addr::root()),
        a.in_subtree(a),
{
}

/// The subtrees of the two children of a node share no node.
pub proof fn lemma_sibling_subtrees_disjoint(a: Addr, n: Addr)
    requires
        n.wf(),
        n.depth < 32,
    ensures
        !(a.in_subtree(n.left()) && a.in_subtree(n.right())),
        !n.left().in_subtree(n.right()),
        !n.right().in_subtree(n.left()),
{
}

/// The index of a node has no bit set at or above the depth of the node:
/// nothing is left of it when that many bits, or more, are shifted out.
pub proof fn lemma_no_high_bits(a: Addr, i: nat)
    requires
        a.wf(),
        a.depth <= i,
    ensures
        a.index / pow2(i) == 0,
{
    if a.depth < i {
        lemma_pow2_strictly_increases(a.depth, i);
    }
    vstd::arithmetic::div_mod::lemma_basic_div(a.index as int, pow2(i) as int);
}

/// The pending subtrees of a node hold the nodes that preorder visits after
/// the subtree of that node, all of them and no other.
pub proof fn lemma_pending_covers(a: Addr, b: Addr)
    requires
        a.wf(),
        b.wf(),
    ensures
        (exists|i: int| 0 <= i < a.pending().len() && b.in_subtree(#[trigger] a.pending()[i]))
            <==> a.numbering() + a.subtree_size() <= b.numbering(),
    decreases a.depth,
{
    lemma_numbering_bound(b);
    lemma2_to64();
    if a.depth > 0 {
        let p = a.parent();
        lemma_parent(a);
        lemma_children(p);
        lemma_pending_covers(p, b);
        lemma_pow2_step((33 - a.depth) as nat);
        if a.index % 2 == 0 {
            // The right sibling is pending on top of what is pending above.
            let r = p.right();
            let n = p.pending().len() as int;
            lemma_in_subtree_numbering(b, r);
            assert(a.pending() == p.pending().push(r));
            assert(a.numbering() + a.subtree_size() == r.numbering());
            assert(r.numbering() + r.subtree_size() == p.numbering() + p.subtree_size());
            if a.numbering() + a.subtree_size() <= b.numbering() {
                if b.in_subtree(r) {
                    assert(a.pending()[n] == r);
                } else {
                    let i = choose|i: int|
                        0 <= i < p.pending().len() && b.in_subtree(#[trigger] p.pending()[i]);
                    assert(a.pending()[i] == p.pending()[i]);
                }
            }
            if exists|i: int| 0 <= i < a.pending().len() && b.in_subtree(#[trigger] a.pending()[i]) {
                let i = choose|i: int|
                    0 <= i < a.pending().len() && b.in_subtree(#[trigger] a.pending()[i]);
                if i < n {
                    assert(a.pending()[i] == p.pending()[i]);
                }
            }
        } else {
            // Below a right child nothing more is pending.
            assert(a.pending() == p.pending());
            assert(a.numbering() + a.subtree_size() == p.numbering() + p.subtree_size());
        }
    }
}

/// The frontier of a node holds that node and the nodes that preorder visits
/// after it, all of them and no other: whoever holds the keys of the frontier
/// can reach every node still to come, and none that was left behind.
pub proof fn lemma_frontier_covers(a: Addr, b: Addr)
    requires
        a.wf(),
        b.wf(),
    ensures
        (exists|i: int| 0 <= i < a.frontier().len() && b.in_subtree(#[trigger] a.frontier()[i]))
            <==> a.numbering() <= b.numbering(),
{
    lemma_pending_covers(a, b);
    lemma_in_subtree_numbering(b, a);
    let n = a.pending().len() as int;
    if a.numbering() <= b.numbering() {
        if b.in_subtree(a) {
            assert(a.frontier()[n] == a);
        } else {
            let i = choose|i: int|
                0 <= i < a.pending().len() && b.in_subtree(#[trigger] a.pending()[i]);
            assert(a.frontier()[i] == a.pending()[i]);
        }
    }
    if exists|i: int| 0 <= i < a.frontier().len() && b.in_subtree(#[trigger] a.frontier()[i]) {
        let i = choose|i: int|
            0 <= i < a.frontier().len() && b.in_subtree(#[trigger] a.frontier()[i]);
        if i < n {
            assert(a.frontier()[i] == a.pending()[i]);
        }
    }
}

/// No more subtrees are pending than the node has edges above it.
pub proof fn lemma_pending_len(a: Addr)
    requires
        a.wf(),
    ensures
        a.pending().len() <= a.depth,
        a.frontier().len() <= 33,
    decreases a.depth,
{
    if a.depth > 0 {
        lemma_parent(a);
        lemma_pending_len(a.parent());
    }
}

/// Climbing passes right children only, below which nothing more is pending.
pub proof fn lemma_climb_pending(a: Addr)
    requires
        a.wf(),
    ensures
        a.climb().pending() == a.pending(),
    decreases a.depth,
{
    if a.is_right_child() {
        lemma_parent(a);
        lemma_climb_pending(a.parent());
    }
}

/// How the frontier moves with a step of preorder. Below an inner node its
/// two children take the node's place, the left one on top. After a leaf the
/// node that was pending on top is the next one, and the rest stays.
pub proof fn lemma_frontier_step(a: Addr)
    requires
        a.wf(),
        a != Addr::last(),
    ensures
        a.successor() is Some,
        !a.is_leaf() ==> a.successor().unwrap().frontier() == a.pending().push(a.right()).push(
            a.left(),
        ),
        a.is_leaf() ==> a.pending().len() > 0 && a.successor().unwrap() == a.pending().last()
            && a.successor().unwrap().frontier() == a.pending(),
{
    lemma_successor(a);
    if a.depth < 32 {
        lemma_children(a);
    } else {
        let c = a.climb();
        lemma_climb(a);
        lemma_climb_pending(a);
        lemma_parent(c);
        lemma_children(c.parent());
    }
}

} // verus!
