//! Names of the nodes of the key-evolution tree.
//!
//! A name is the path from the root to the node, one bit per edge, the edge
//! into the node in the lowest bit: below `w` the left child is `w0` and the
//! right child is `w1`.
use crate::tree::{
    lemma_ancestor, lemma_children, lemma_climb, lemma_no_high_bits, lemma_numbering_bound,
    lemma_parent, lemma_pow2_step, lemma_successor, Addr,
};
use arrayvec::ArrayVec;
use vstd::arithmetic::div_mod::*;
use vstd::arithmetic::power2::*;
use vstd::bits::*;
use vstd::prelude::*;

verus! {

/// The name of a node: the length of its path, and the bits of the path.
#[derive(Clone, Copy, Debug, PartialEq, Eq, Hash, Structural)]
pub struct NodeName(u8, u32);

impl View for NodeName {
    type V = Addr;

    closed spec fn view(&self) -> Addr {
        Addr { depth: self.0 as nat, index: self.1 as nat }
    }
}

/// `arrayvec::ArrayVec`: a vector of bounded length that lies in place.
#[verifier::external_type_specification]
#[verifier::external_body]
#[verifier::reject_recursive_types(T)]
pub struct ExArrayVec<T, const CAP: usize>(ArrayVec<T, CAP>);

/// The names that a path buffer holds, in the order in which they lie in it.
pub uninterp spec fn buffer_items(buf: ArrayVec<NodeName, 33>) -> Seq<NodeName>;

/// `ArrayVec::new`: a buffer that holds nothing.
#[verifier::external_body]
fn buffer_new() -> (buf: ArrayVec<NodeName, 33>)
    ensures
        buffer_items(buf) == Seq::<NodeName>::empty(),
{
    ArrayVec::new()
}

/// `ArrayVec::push`: the name is put behind those that the buffer holds. The
/// call panics on a full buffer, which `requires` leaves out.
#[verifier::external_body]
fn buffer_push(buf: &mut ArrayVec<NodeName, 33>, name: NodeName)
    requires
        buffer_items(*old(buf)).len() < 33,
    ensures
        buffer_items(*final(buf)) == buffer_items(*old(buf)).push(name),
{
    buf.push(name)
}

/// `reverse` on the slice that `ArrayVec::as_mut_slice` lends: the same names
/// in the opposite order.
#[verifier::external_body]
fn buffer_reverse(buf: &mut ArrayVec<NodeName, 33>)
    ensures
        buffer_items(*final(buf)) == buffer_items(*old(buf)).reverse(),
{
    buf.as_mut_slice().reverse()
}

/// `ArrayVec::into_iter`: the names are handed out front to back.
#[verifier::external_body]
fn buffer_into_vec(buf: ArrayVec<NodeName, 33>) -> (names: Vec<NodeName>)
    ensures
        names@ == buffer_items(buf),
{
    buf.into_iter().collect()
}

impl NodeName {
    /// Every name is canonical: its length is at most 32, and its path has
    /// no bit set at or above its length.
    #[verifier::type_invariant]
    pub open spec fn inv(self) -> bool {
        self@.wf()
    }

    /// The name of the root.
    pub fn root() -> (r: NodeName)
        ensures
            r@ == Addr::root(),
    {
        proof {
            lemma2_to64();
        }
        NodeName(0, 0)
    }

    /// The name of the rightmost leaf, after which there is no other.
    pub fn max() -> (r: NodeName)
        ensures
            r@ == Addr::last(),
    {
        proof {
            lemma2_to64();
        }
        NodeName(32, u32::MAX)
    }

    /// Clears the bits of `path` at and above `length`.
    fn canonicalized(length: u8, path: u32) -> (r: NodeName)
        requires
            length <= 32,
        ensures
            r@.depth == length,
            r@.index == path as nat % pow2(length as nat),
    {
        proof {
            lemma2_to64();
        }
        if length == 32 {
            proof {
                lemma_small_mod(path as nat, pow2(32));
            }
            NodeName(length, path)
        } else {
            proof {
                lemma_u32_pow2_no_overflow(length as nat);
                lemma_u32_shl_is_mul(1, length as u32);
                lemma_u32_low_bits_mask_is_mod(path, length as nat);
                lemma_mod_bound(path as int, pow2(length as nat) as int);
            }
            let mask: u32 = (1u32 << length) - 1;
            NodeName(length, path & mask)
        }
    }

    /// The name of the given length whose path is the low `length` bits of
    /// `path`.
    pub fn new(length: u8, path: u32) -> (r: NodeName)
        requires
            length <= 32,
        ensures
            r@.wf(),
            r@.depth == length,
            r@.index == path as nat % pow2(length as nat),
            forall|i: nat| length <= i ==> r@.index / #[trigger] pow2(i) == 0,
    {
        let r = NodeName::canonicalized(length, path);
        proof {
            use_type_invariant(&r);
            assert forall|i: nat| length <= i implies r@.index / #[trigger] pow2(i) == 0 by {
                lemma_no_high_bits(r@, i);
            }
        }
        r
    }

    /// The name one edge up. The root has no parent.
    pub fn parent(self) -> (r: NodeName)
        requires
            self@.depth > 0,
        ensures
            r@ == self@.parent(),
    {
        proof {
            use_type_invariant(&self);
            lemma_parent(self@);
            let x = self.1;
            assert(x >> 1 == x / 2) by (bit_vector);
        }
        NodeName(self.0 - 1, self.1 >> 1)
    }

    /// The name of the left child. A leaf has no children.
    pub fn left(self) -> (r: NodeName)
        requires
            self@.depth < 32,
        ensures
            r@ == self@.left(),
    {
        proof {
            use_type_invariant(&self);
            lemma_children(self@);
            lemma2_to64();
            if self@.depth < 31 {
                lemma_pow2_strictly_increases(self@.depth, 31);
            }
            let x = self.1;
            assert(x << 1 == 2 * x) by (bit_vector)
                requires
                    x < 0x8000_0000u32,
            ;
        }
        NodeName(self.0 + 1, self.1 << 1)
    }

    /// The name of the right child. A leaf has no children.
    pub fn right(self) -> (r: NodeName)
        requires
            self@.depth < 32,
        ensures
            r@ == self@.right(),
    {
        proof {
            use_type_invariant(&self);
            lemma_children(self@);
            lemma2_to64();
            if self@.depth < 31 {
                lemma_pow2_strictly_increases(self@.depth, 31);
            }
            let x = self.1;
            assert((x << 1) | 1 == 2 * x + 1) by (bit_vector)
                requires
                    x < 0x8000_0000u32,
            ;
        }
        NodeName(self.0 + 1, (self.1 << 1) | 1)
    }

    /// The number of edges from the root to the node.
    pub fn len(self) -> (r: u8)
        ensures
            r == self@.depth,
            r <= 32,
    {
        proof {
            use_type_invariant(&self);
        }
        self.0
    }

    /// Whether this is the name of the root.
    pub fn is_empty(self) -> (r: bool)
        ensures
            r <==> self@.depth == 0,
            r <==> self@ == Addr::root(),
    {
        proof {
            use_type_invariant(&self);
            lemma2_to64();
        }
        self.len() == 0
    }

    /// The bits of the path, the last edge lowest.
    pub fn path(self) -> (r: u32)
        ensures
            r == self@.index,
            r < pow2(self@.depth),
    {
        proof {
            use_type_invariant(&self);
        }
        self.1
    }

    /// Whether the node has no children.
    pub fn is_leaf(self) -> (r: bool)
        ensures
            r <==> self@.is_leaf(),
    {
        self.0 == 32
    }

    /// The name that preorder visits immediately after this one: `None` for
    /// the rightmost leaf, and for no other name.
    pub fn next(self) -> (r: Option<NodeName>)
        ensures
            r is None <==> self@ == Addr::last(),
            match r {
                Some(n) => self@.successor() == Some(n@) && n@.numbering() == self@.numbering()
                    + 1,
                None => self@.successor() is None,
            },
    {
        proof {
            use_type_invariant(&self);
            lemma_successor(self@);
            lemma_climb(self@);
            lemma2_to64();
        }
        if self == NodeName::max() {
            None
        } else {
            let mut node = self;
            if node.len() < 32 {
                node = node.left();
            } else {
                while node == node.parent().right()
                    invariant
                        node@.wf(),
                        node@.climb() == self@.climb(),
                        self@.climb().wf(),
                        self@.climb().depth > 0,
                        node@.depth >= self@.climb().depth,
                    decreases node@.depth,
                {
                    proof {
                        lemma_parent(node@);
                    }
                    node = node.parent();
                    proof {
                        lemma_climb(node@);
                    }
                }
                proof {
                    lemma_parent(node@);
                }
                node = node.parent().right();
            }
            Some(node)
        }
    }

    /// The names on the way from the root down to this name, both included.
    pub fn walk(self) -> (r: Vec<NodeName>)
        ensures
            r@.map_values(|n: NodeName| n@) == self@.walk(),
            r@.len() == self@.depth + 1,
            forall|i: int| 0 <= i < r@.len() ==> (#[trigger] r@[i])@ == self@.ancestor(i as nat),
    {
        proof {
            use_type_invariant(&self);
        }
        let mut parents = buffer_new();
        let mut node = self;
        while !node.is_empty()
            invariant
                self@.wf(),
                node@.wf(),
                node@.depth <= self@.depth,
                node@ == self@.ancestor(node@.depth),
                buffer_items(parents).len() == self@.depth - node@.depth,
                forall|j: int|
                    0 <= j < buffer_items(parents).len() ==> (#[trigger] buffer_items(
                        parents,
                    )[j])@ == self@.ancestor((self@.depth - j) as nat),
            decreases node@.depth,
        {
            proof {
                lemma2_to64();
                lemma_ancestor(self@, (node@.depth - 1) as nat);
                lemma_parent(node@);
            }
            buffer_push(&mut parents, node);
            node = node.parent();
        }
        buffer_push(&mut parents, node);
        buffer_reverse(&mut parents);
        let path = buffer_into_vec(parents);
        proof {
            assert(path@.map_values(|n: NodeName| n@) =~= self@.walk());
        }
        path
    }

    /// The name that preorder visits after `number` others.
    pub fn from_numbering(number: u64) -> (r: NodeName)
        requires
            number < pow2(33) - 1,
        ensures
            r@ == Addr::from_numbering(number as nat),
    {
        let mut rest = number;
        let mut node = NodeName::root();
        let mut cutoff: u64 = 0x1_0000_0000;
        proof {
            lemma2_to64();
            lemma_pow2_step(32);
        }
        while cutoff > 0
            invariant
                node@.wf(),
                cutoff == pow2((32 - node@.depth) as nat),
                rest < 2 * cutoff - 1,
                node@.descend(rest as nat) == Addr::from_numbering(number as nat),
            decreases 32 - node@.depth,
        {
            proof {
                lemma2_to64();
                if node@.depth < 32 {
                    lemma_children(node@);
                    lemma_pow2_step((31 - node@.depth) as nat);
                }
            }
            if rest == 0 {
                return node;
            } else if rest >= cutoff {
                node = node.right();
                rest -= cutoff;
            } else {
                node = node.left();
                rest -= 1;
            }
            cutoff /= 2;
        }
        node
    }

    /// The number of names that preorder visits before this one.
    pub fn to_numbering(self) -> (r: u64)
        ensures
            r == self@.numbering(),
            r < pow2(33) - 1,
    {
        let mut result: u64 = 0;
        let mut bonus: u64 = 0x1_0000_0000;
        let path = self.walk();
        let mut i: usize = 1;
        proof {
            use_type_invariant(&self);
            lemma2_to64();
            lemma_pow2_step(32);
            lemma_ancestor(self@, 0);
        }
        while i < path.len()
            invariant
                self@.wf(),
                1 <= i <= path@.len(),
                path@.len() == self@.depth + 1,
                forall|k: int|
                    0 <= k < path@.len() ==> (#[trigger] path@[k])@ == self@.ancestor(k as nat),
                result == self@.ancestor((i - 1) as nat).numbering(),
                bonus == pow2((33 - i) as nat),
                pow2(33) == 0x2_0000_0000,
            decreases path@.len() - i,
        {
            let node = path[i];
            proof {
                lemma_ancestor(self@, i as nat);
                lemma_ancestor(self@, (i - 1) as nat);
                lemma_parent(node@);
                lemma_children(node@.parent());
                lemma_numbering_bound(node@);
                lemma_pow2_step((32 - i) as nat);
            }
            let parent = node.parent();
            if node == parent.left() {
                result += 1;
            } else {
                result += bonus;
            }
            bonus /= 2;
            i += 1;
        }
        proof {
            lemma_numbering_bound(self@);
        }
        result
    }

    /// The names of the frontier of this name: the roots of the subtrees
    /// that preorder enters after it has left the subtree of this name, the
    /// one entered last first, and then this name.
    pub fn frontier(self) -> (r: Vec<NodeName>)
        ensures
            r@.map_values(|n: NodeName| n@) == self@.frontier(),
            r@.len() == self@.frontier().len(),
            forall|i: int| 0 <= i < r@.len() ==> (#[trigger] r@[i])@ == self@.frontier()[i],
    {
        let path = self.walk();
        let mut names: Vec<NodeName> = Vec::new();
        let mut i: usize = 1;
        proof {
            use_type_invariant(&self);
            lemma_ancestor(self@, 0);
        }
        while i < path.len()
            invariant
                self@.wf(),
                1 <= i <= path@.len(),
                path@.len() == self@.depth + 1,
                forall|k: int|
                    0 <= k < path@.len() ==> (#[trigger] path@[k])@ == self@.ancestor(k as nat),
                names@.len() == self@.ancestor((i - 1) as nat).pending().len(),
                forall|k: int|
                    0 <= k < names@.len() ==> (#[trigger] names@[k])@ == self@.ancestor(
                        (i - 1) as nat,
                    ).pending()[k],
            decreases path@.len() - i,
        {
            let node = path[i];
            proof {
                lemma_ancestor(self@, i as nat);
                lemma_ancestor(self@, (i - 1) as nat);
                lemma_parent(node@);
            }
            if node.path() % 2 == 0 {
                names.push(node.parent().right());
            }
            i += 1;
        }
        names.push(self);
        proof {
            assert(names@.map_values(|n: NodeName| n@) =~= self@.frontier());
        }
        names
    }

    /// Whether this name lies in the subtree below `other`: whether `other`
    /// is the root, or this name, or a name on the way from the root to it.
    pub fn in_subtree(self, other: NodeName) -> (r: bool)
        ensures
            r <==> self@.in_subtree(other@),
    {
        proof {
            use_type_invariant(&self);
            use_type_invariant(&other);
        }
        if other.is_empty() {
            return true;
        }
        if self.len() < other.len() {
            return false;
        }
        let path = self.walk();
        let mut i: usize = 0;
        while i < path.len()
            invariant
                self@.wf(),
                other@.depth <= self@.depth,
                0 <= i <= path@.len(),
                path@.len() == self@.depth + 1,
                forall|k: int|
                    0 <= k < path@.len() ==> (#[trigger] path@[k])@ == self@.ancestor(k as nat),
                forall|k: int| 0 <= k < i ==> (#[trigger] path@[k])@ != other@,
            decreases path@.len() - i,
        {
            proof {
                lemma_ancestor(self@, i as nat);
            }
            if path[i] == other {
                return true;
            }
            i += 1;
        }
        assert(path@[other@.depth as int]@ != other@);
        false
    }
}

/// Two names of the same node are the same name.
pub proof fn lemma_view_injective(a: NodeName, b: NodeName)
    requires
        a@ == b@,
    ensures
        a == b,
{
}

} // verus!
