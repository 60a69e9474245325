//! Binary tree encryption: encryption to the name of a node of the tree,
//! under keys of which each node's key gives the keys of its two children.
//!
//! The scheme has the shape of the hierarchical identity-based encryption of
//! Boneh and Boyen over an asymmetric pairing. The identity of a node is the
//! list of the branches on its path, closed by an end mark, so that the key
//! of a node opens what was sealed to that node and to no other.
//!
//! Every value of a group that a key, the parameters or an encrypted element
//! holds is a point of the curve in the subgroup of prime order: the pairing
//! is defined on no other. What comes from outside is tested before it is
//! taken in.
use crate::curve::{
    g1_generator, g1_is_on_curve, g1_is_torsion_free, g1_mul, g1_product, g1_valid, g2_add,
    g2_is_on_curve, g2_is_torsion_free, g2_mul, g2_product, g2_sum, g2_valid, gt_add,
    gt_difference, gt_sub, gt_sum, pairing, pairing_value, random_g2, random_scalar,
};
use crate::nodename::NodeName;
use crate::tree::{lemma_children, Addr};
use bls12_381::{G1Affine, G2Affine, Gt, Scalar};
use rand::rngs::ThreadRng;
use vstd::prelude::*;

verus! {

/// Number of levels for which the public parameters hold an element: one for
/// each edge of the longest path, and one for the end mark below a leaf.
pub const LEVELS: usize = 33;

/// What follows a node on a path: one of its two children, or the end.
#[derive(Clone, Copy, Debug, PartialEq, Eq, Structural)]
pub enum Branch {
    Left,
    Right,
    End,
}

/// The public parameters, as mathematics sees them.
pub struct Params {
    /// The generator of the first group.
    pub g: G1Affine,
    /// The master secret times the generator.
    pub q: G1Affine,
    /// The element of the second group that masks are made with.
    pub h: G2Affine,
    /// The step from one branch of a level to the next.
    pub u: G2Affine,
    /// The element of each level.
    pub levels: Seq<G2Affine>,
}

/// The secret key of a node, as mathematics sees it.
pub struct NodeKey {
    /// The node that the key belongs to.
    pub name: Addr,
    /// One element for each edge of the path to the node.
    pub ds: Seq<G1Affine>,
    /// The part from which the keys of the children are derived.
    pub d0: G2Affine,
    /// The element for the end mark.
    pub end_d: G1Affine,
    /// The part that decrypts: `d0` closed by the end mark.
    pub end_d0: G2Affine,
}

/// An encrypted element of the target group, as mathematics sees it.
pub struct Sealed {
    /// The element under its mask.
    pub a: Gt,
    /// The randomness of the encryption, in the first group.
    pub b: G1Affine,
    /// One element for each edge of the path to the node, and one for the
    /// end mark.
    pub cs: Seq<G2Affine>,
}

/// Every value of the list is an element of the first group.
pub open spec fn g1_all_valid(list: Seq<G1Affine>) -> bool {
    forall|i: int| 0 <= i < list.len() ==> g1_valid(#[trigger] list[i])
}

/// Every value of the list is an element of the second group.
pub open spec fn g2_all_valid(list: Seq<G2Affine>) -> bool {
    forall|i: int| 0 <= i < list.len() ==> g2_valid(#[trigger] list[i])
}

impl Params {
    /// There is an element for each level, and every value is an element
    /// of its group.
    pub open spec fn wf(self) -> bool {
        &&& self.levels.len() == LEVELS
        &&& g1_valid(self.g)
        &&& g1_valid(self.q)
        &&& g2_valid(self.h)
        &&& g2_valid(self.u)
        &&& g2_all_valid(self.levels)
    }

    /// The element that stands for a branch taken at a level; levels count
    /// from one.
    pub open spec fn tag(self, level: nat, branch: Branch) -> G2Affine {
        let base = self.levels[level - 1];
        match branch {
            Branch::Left => base,
            Branch::Right => g2_sum(base, self.u),
            Branch::End => g2_sum(g2_sum(base, self.u), self.u),
        }
    }

    /// The branch that the path to `name` takes at a level: the end mark
    /// below the node itself.
    pub open spec fn branch_of(name: Addr, level: nat) -> Branch {
        if level > name.depth {
            Branch::End
        } else if name.ancestor(level).index % 2 == 0 {
            Branch::Left
        } else {
            Branch::Right
        }
    }

    /// The key of the root under the master secret `alpha`, closed with the
    /// scalar `r_end`.
    pub open spec fn root_key(self, alpha: Scalar, r_end: Scalar) -> NodeKey {
        let d0 = g2_product(self.h, alpha);
        NodeKey {
            name: Addr::root(),
            ds: Seq::empty(),
            d0,
            end_d: g1_product(self.g, r_end),
            end_d0: g2_sum(d0, g2_product(self.tag(1, Branch::End), r_end)),
        }
    }

    /// The key of a child of the node of `key`, derived with the scalar `r`
    /// and closed with the scalar `r_end`.
    pub open spec fn child_key(self, key: NodeKey, right: bool, r: Scalar, r_end: Scalar) -> NodeKey {
        let name = if right {
            key.name.right()
        } else {
            key.name.left()
        };
        let branch = if right {
            Branch::Right
        } else {
            Branch::Left
        };
        let d0 = g2_sum(key.d0, g2_product(self.tag(name.depth, branch), r));
        NodeKey {
            name,
            ds: key.ds.push(g1_product(self.g, r)),
            d0,
            end_d: g1_product(self.g, r_end),
            end_d0: g2_sum(d0, g2_product(self.tag(name.depth + 1, Branch::End), r_end)),
        }
    }

    /// The element sealed to the node `name` with the scalar `s`.
    pub open spec fn seal(self, name: Addr, element: Gt, s: Scalar) -> Sealed {
        Sealed {
            a: gt_sum(element, pairing_value(g1_product(self.q, s), self.h)),
            b: g1_product(self.g, s),
            cs: Seq::new(
                name.depth + 1,
                |j: int|
                    g2_product(self.tag((j + 1) as nat, Params::branch_of(name, (j + 1) as nat)), s),
            ),
        }
    }
}

impl Sealed {
    /// Every value is an element of its group.
    pub open spec fn wf(self) -> bool {
        g1_valid(self.b) && g2_all_valid(self.cs)
    }
}

impl NodeKey {
    /// There is an element for each edge of the path to the node, and every
    /// value is an element of its group.
    pub open spec fn wf(self) -> bool {
        &&& self.name.wf()
        &&& self.ds.len() == self.name.depth
        &&& g1_all_valid(self.ds)
        &&& g2_valid(self.d0)
        &&& g1_valid(self.end_d)
        &&& g2_valid(self.end_d0)
    }

    /// The sum of the first `n` pairings of the elements of `ds` with those
    /// of `cs`, added to `acc`.
    pub open spec fn pairing_sum(acc: Gt, ds: Seq<G1Affine>, cs: Seq<G2Affine>, n: nat) -> Gt
        decreases n,
    {
        if n == 0 {
            acc
        } else {
            gt_sum(
                NodeKey::pairing_sum(acc, ds, cs, (n - 1) as nat),
                pairing_value(ds[n - 1], cs[n - 1]),
            )
        }
    }

    /// What the key makes of a sealed element: the element that was sealed,
    /// where it was sealed to the node of the key.
    pub open spec fn unseal(self, c: Sealed) -> Gt {
        let ds = self.ds.push(self.end_d);
        let n = if ds.len() <= c.cs.len() {
            ds.len()
        } else {
            c.cs.len()
        };
        NodeKey::pairing_sum(gt_difference(c.a, pairing_value(c.b, self.end_d0)), ds, c.cs, n)
    }
}

/// The public parameters of a key pair.
#[derive(Debug, PartialEq, Eq)]
pub struct PK {
    g: G1Affine,
    q: G1Affine,
    h: G2Affine,
    u: G2Affine,
    levels: Vec<G2Affine>,
}

/// The secret key of one node.
#[derive(Debug, PartialEq, Eq)]
pub struct SK {
    name: NodeName,
    ds: Vec<G1Affine>,
    d0: G2Affine,
    end_d: G1Affine,
    end_d0: G2Affine,
}

/// An element of the target group, encrypted to a node.
#[derive(Debug)]
pub struct EncryptedElement {
    a: Gt,
    b: G1Affine,
    cs: Vec<G2Affine>,
}

impl View for PK {
    type V = Params;

    closed spec fn view(&self) -> Params {
        Params { g: self.g, q: self.q, h: self.h, u: self.u, levels: self.levels@ }
    }
}

impl View for SK {
    type V = NodeKey;

    closed spec fn view(&self) -> NodeKey {
        NodeKey {
            name: self.name@,
            ds: self.ds@,
            d0: self.d0,
            end_d: self.end_d,
            end_d0: self.end_d0,
        }
    }
}

impl View for EncryptedElement {
    type V = Sealed;

    closed spec fn view(&self) -> Sealed {
        Sealed { a: self.a, b: self.b, cs: self.cs@ }
    }
}

/// Whether the value is an element of the first group.
fn g1_is_valid(p: &G1Affine) -> (r: bool)
    ensures
        r == g1_valid(*p),
{
    g1_is_on_curve(p) && g1_is_torsion_free(p)
}

/// Whether the value is an element of the second group.
fn g2_is_valid(p: &G2Affine) -> (r: bool)
    ensures
        r == g2_valid(*p),
{
    g2_is_on_curve(p) && g2_is_torsion_free(p)
}

/// Whether every value of the list is an element of the first group.
fn g1_are_valid(list: &Vec<G1Affine>) -> (r: bool)
    ensures
        r == g1_all_valid(list@),
{
    let mut i: usize = 0;
    while i < list.len()
        invariant
            i <= list@.len(),
            g1_all_valid(list@.take(i as int)),
        decreases list@.len() - i,
    {
        if !g1_is_valid(&list[i]) {
            return false;
        }
        proof {
            assert forall|k: int| 0 <= k < i + 1 implies g1_valid(
                #[trigger] list@.take(i + 1)[k],
            ) by {
                if k < i {
                    assert(list@.take(i + 1)[k] == list@.take(i as int)[k]);
                }
            }
        }
        i += 1;
    }
    proof {
        assert(list@.take(list@.len() as int) == list@);
    }
    true
}

/// Whether every value of the list is an element of the second group.
fn g2_are_valid(list: &Vec<G2Affine>) -> (r: bool)
    ensures
        r == g2_all_valid(list@),
{
    let mut i: usize = 0;
    while i < list.len()
        invariant
            i <= list@.len(),
            g2_all_valid(list@.take(i as int)),
        decreases list@.len() - i,
    {
        if !g2_is_valid(&list[i]) {
            return false;
        }
        proof {
            assert forall|k: int| 0 <= k < i + 1 implies g2_valid(
                #[trigger] list@.take(i + 1)[k],
            ) by {
                if k < i {
                    assert(list@.take(i + 1)[k] == list@.take(i as int)[k]);
                }
            }
        }
        i += 1;
    }
    proof {
        assert(list@.take(list@.len() as int) == list@);
    }
    true
}

/// A copy of a list of elements of the first group.
fn copy_g1(list: &Vec<G1Affine>) -> (copy: Vec<G1Affine>)
    ensures
        copy@ == list@,
{
    let mut copy: Vec<G1Affine> = Vec::new();
    let mut i: usize = 0;
    while i < list.len()
        invariant
            i <= list@.len(),
            copy@ == list@.take(i as int),
        decreases list@.len() - i,
    {
        copy.push(list[i]);
        i += 1;
    }
    proof {
        assert(list@.take(list@.len() as int) == list@);
    }
    copy
}

/// A copy of a list of elements of the second group.
fn copy_g2(list: &Vec<G2Affine>) -> (copy: Vec<G2Affine>)
    ensures
        copy@ == list@,
{
    let mut copy: Vec<G2Affine> = Vec::new();
    let mut i: usize = 0;
    while i < list.len()
        invariant
            i <= list@.len(),
            copy@ == list@.take(i as int),
        decreases list@.len() - i,
    {
        copy.push(list[i]);
        i += 1;
    }
    proof {
        assert(list@.take(list@.len() as int) == list@);
    }
    copy
}

impl Clone for PK {
    fn clone(&self) -> (copy: PK)
        ensures
            copy@ == self@,
    {
        proof {
            use_type_invariant(self);
        }
        PK { g: self.g, q: self.q, h: self.h, u: self.u, levels: copy_g2(&self.levels) }
    }
}

impl Clone for SK {
    fn clone(&self) -> (copy: SK)
        ensures
            copy@ == self@,
    {
        proof {
            use_type_invariant(self);
        }
        SK {
            name: self.name,
            ds: copy_g1(&self.ds),
            d0: self.d0,
            end_d: self.end_d,
            end_d0: self.end_d0,
        }
    }
}

impl Clone for EncryptedElement {
    fn clone(&self) -> (copy: EncryptedElement)
        ensures
            copy@ == self@,
    {
        proof {
            use_type_invariant(self);
        }
        EncryptedElement { a: self.a, b: self.b, cs: copy_g2(&self.cs) }
    }
}

impl PK {
    /// The parameters hold an element for every level, and every value in
    /// them is an element of its group.
    #[verifier::type_invariant]
    pub open spec fn inv(&self) -> bool {
        self@.wf()
    }

    /// The public parameters that belong to the master secret `alpha`, made
    /// of elements that are known to be good.
    fn assemble(alpha: &Scalar, h: G2Affine, u: G2Affine, levels: Vec<G2Affine>) -> (pk: PK)
        requires
            levels@.len() == LEVELS,
            g2_valid(h),
            g2_valid(u),
            g2_all_valid(levels@),
        ensures
            pk@.wf(),
            pk@.q == g1_product(pk@.g, *alpha),
            pk@.h == h,
            pk@.u == u,
            pk@.levels == levels@,
    {
        let g = g1_generator();
        let q = g1_mul(&g, alpha);
        PK { g, q, h, u, levels }
    }

    /// The public parameters that belong to the master secret `alpha`, with
    /// the given values for the elements of the second group: `None` unless
    /// there is one for each level, and each is an element of that group.
    pub fn new(alpha: &Scalar, h: G2Affine, u: G2Affine, levels: Vec<G2Affine>) -> (r: Option<PK>)
        ensures
            r is Some <==> levels@.len() == LEVELS && g2_valid(h) && g2_valid(u) && g2_all_valid(
                levels@,
            ),
            r matches Some(pk) ==> pk@.wf() && pk@.q == g1_product(pk@.g, *alpha) && pk@.h == h
                && pk@.u == u && pk@.levels == levels@,
    {
        if levels.len() == LEVELS && g2_is_valid(&h) && g2_is_valid(&u) && g2_are_valid(&levels) {
            Some(PK::assemble(alpha, h, u, levels))
        } else {
            None
        }
    }

    /// The public parameters made of the given values: `None` unless there
    /// is one for each level, and each value is an element of its group.
    pub fn from_parts(
        g: G1Affine,
        q: G1Affine,
        h: G2Affine,
        u: G2Affine,
        levels: Vec<G2Affine>,
    ) -> (r: Option<PK>)
        ensures
            r is Some <==> (Params { g, q, h, u, levels: levels@ }).wf(),
            r matches Some(pk) ==> pk@ == (Params { g, q, h, u, levels: levels@ }),
    {
        if levels.len() == LEVELS && g1_is_valid(&g) && g1_is_valid(&q) && g2_is_valid(&h)
            && g2_is_valid(&u) && g2_are_valid(&levels) {
            Some(PK { g, q, h, u, levels })
        } else {
            None
        }
    }

    /// The generator of the first group.
    pub fn g(&self) -> (g: G1Affine)
        ensures
            g == self@.g,
    {
        self.g
    }

    /// The master secret times the generator.
    pub fn q(&self) -> (q: G1Affine)
        ensures
            q == self@.q,
    {
        self.q
    }

    /// The element of the second group that masks are made with.
    pub fn h(&self) -> (h: G2Affine)
        ensures
            h == self@.h,
    {
        self.h
    }

    /// The step from one branch of a level to the next.
    pub fn u(&self) -> (u: G2Affine)
        ensures
            u == self@.u,
    {
        self.u
    }

    /// The element of each level, 33 in all.
    pub fn levels(&self) -> (levels: &Vec<G2Affine>)
        ensures
            levels@ == self@.levels,
            levels@.len() == LEVELS,
    {
        proof {
            use_type_invariant(self);
        }
        &self.levels
    }

    /// The element that stands for a branch taken at a level.
    fn tag(&self, level: usize, branch: Branch) -> (t: G2Affine)
        requires
            1 <= level <= LEVELS,
        ensures
            t == self@.tag(level as nat, branch),
            g2_valid(t),
    {
        proof {
            use_type_invariant(self);
        }
        let base = self.levels[level - 1];
        match branch {
            Branch::Left => base,
            Branch::Right => g2_add(&base, &self.u),
            Branch::End => {
                let right = g2_add(&base, &self.u);
                g2_add(&right, &self.u)
            },
        }
    }

    /// The key of the root under the master secret `alpha`.
    pub fn root_key(&self, alpha: &Scalar, r_end: &Scalar) -> (sk: SK)
        ensures
            sk@ == self@.root_key(*alpha, *r_end),
            sk@.wf(),
    {
        proof {
            use_type_invariant(self);
        }
        let d0 = g2_mul(&self.h, alpha);
        let end_tag = self.tag(1, Branch::End);
        let end_part = g2_mul(&end_tag, r_end);
        let name = NodeName::root();
        proof {
            use_type_invariant(&name);
        }
        SK {
            name,
            ds: Vec::new(),
            d0,
            end_d: g1_mul(&self.g, r_end),
            end_d0: g2_add(&d0, &end_part),
        }
    }

    /// The key of the left or of the right child of the node of `sk`.
    pub fn child_key(&self, sk: &SK, right: bool, r: &Scalar, r_end: &Scalar) -> (child: SK)
        requires
            !sk@.name.is_leaf(),
        ensures
            child@ == self@.child_key(sk@, right, *r, *r_end),
            child@.wf(),
    {
        proof {
            use_type_invariant(self);
            use_type_invariant(sk);
            lemma_children(sk@.name);
        }
        let name = if right {
            sk.name.right()
        } else {
            sk.name.left()
        };
        let branch = if right {
            Branch::Right
        } else {
            Branch::Left
        };
        let level: usize = name.len() as usize;
        let tag = self.tag(level, branch);
        let part = g2_mul(&tag, r);
        let d0 = g2_add(&sk.d0, &part);
        let end_tag = self.tag(level + 1, Branch::End);
        let end_part = g2_mul(&end_tag, r_end);
        let mut ds = copy_g1(&sk.ds);
        ds.push(g1_mul(&self.g, r));
        SK { name, ds, d0, end_d: g1_mul(&self.g, r_end), end_d0: g2_add(&d0, &end_part) }
    }

    /// Encrypts the element to the node `name`, with the scalar `s`.
    pub fn seal(&self, name: NodeName, element: &Gt, s: &Scalar) -> (c: EncryptedElement)
        ensures
            c@ == self@.seal(name@, *element, *s),
    {
        proof {
            use_type_invariant(self);
            use_type_invariant(&name);
        }
        let path = name.walk();
        let masked = g1_mul(&self.q, s);
        let mask = pairing(&masked, &self.h);
        let mut cs: Vec<G2Affine> = Vec::new();
        let mut level: usize = 1;
        while level < path.len()
            invariant
                name@.wf(),
                1 <= level <= path@.len(),
                path@.len() == name@.depth + 1,
                forall|i: int|
                    0 <= i < path@.len() ==> (#[trigger] path@[i])@ == name@.ancestor(i as nat),
                cs@.len() == level - 1,
                g2_all_valid(cs@),
                forall|j: int|
                    0 <= j < cs@.len() ==> #[trigger] cs@[j] == g2_product(
                        self@.tag((j + 1) as nat, Params::branch_of(name@, (j + 1) as nat)),
                        *s,
                    ),
            decreases path@.len() - level,
        {
            let node = path[level];
            let branch = if node.path() % 2 == 0 {
                Branch::Left
            } else {
                Branch::Right
            };
            let tag = self.tag(level, branch);
            cs.push(g2_mul(&tag, s));
            level += 1;
        }
        let end_tag = self.tag(level, Branch::End);
        cs.push(g2_mul(&end_tag, s));
        let c = EncryptedElement { a: gt_add(element, &mask), b: g1_mul(&self.g, s), cs };
        proof {
            assert(c@.cs =~= self@.seal(name@, *element, *s).cs);
        }
        c
    }
}

impl SK {
    /// The key holds an element for each edge of the path to its node, and
    /// every value in it is an element of its group.
    #[verifier::type_invariant]
    pub open spec fn inv(&self) -> bool {
        self@.wf()
    }

    /// The secret key of the node `name` made of the given values: `None`
    /// unless there is one value of the first group for each edge of the
    /// path to the node, and each value is an element of its group.
    pub fn from_parts(
        name: NodeName,
        ds: Vec<G1Affine>,
        d0: G2Affine,
        end_d: G1Affine,
        end_d0: G2Affine,
    ) -> (r: Option<SK>)
        ensures
            r is Some <==> (NodeKey { name: name@, ds: ds@, d0, end_d, end_d0 }).wf(),
            r matches Some(sk) ==> sk@ == (NodeKey { name: name@, ds: ds@, d0, end_d, end_d0 }),
    {
        proof {
            use_type_invariant(&name);
        }
        if ds.len() == name.len() as usize && g1_are_valid(&ds) && g2_is_valid(&d0)
            && g1_is_valid(&end_d) && g2_is_valid(&end_d0) {
            Some(SK { name, ds, d0, end_d, end_d0 })
        } else {
            None
        }
    }

    /// The elements for the edges of the path, as many as the node is deep.
    pub fn ds(&self) -> (ds: &Vec<G1Affine>)
        ensures
            ds@ == self@.ds,
            ds@.len() == self@.name.depth,
    {
        proof {
            use_type_invariant(self);
        }
        &self.ds
    }

    /// The part from which the keys of the children are derived.
    pub fn d0(&self) -> (d0: G2Affine)
        ensures
            d0 == self@.d0,
    {
        self.d0
    }

    /// The element for the end mark.
    pub fn end_d(&self) -> (end_d: G1Affine)
        ensures
            end_d == self@.end_d,
    {
        self.end_d
    }

    /// The part that decrypts.
    pub fn end_d0(&self) -> (end_d0: G2Affine)
        ensures
            end_d0 == self@.end_d0,
    {
        self.end_d0
    }

    /// The node that the key belongs to.
    pub fn name(&self) -> (name: NodeName)
        ensures
            name@ == self@.name,
            self@.wf(),
    {
        proof {
            use_type_invariant(self);
        }
        self.name
    }

    /// Decrypts an encrypted element. The result is the element that was
    /// encrypted where it was encrypted to the node of this key, and some
    /// other element of the target group where it was not: there is no sign
    /// by which the two can be told apart.
    pub fn unseal(&self, c: &EncryptedElement) -> (element: Gt)
        ensures
            element == self@.unseal(c@),
    {
        proof {
            use_type_invariant(self);
            use_type_invariant(c);
        }
        let blind = pairing(&c.b, &self.end_d0);
        let mut acc = gt_sub(&c.a, &blind);
        let ghost start = acc;
        let ghost ds = self.ds@.push(self.end_d);
        let mut i: usize = 0;
        while i < self.ds.len() && i < c.cs.len()
            invariant
                i <= self.ds@.len(),
                i <= c.cs@.len(),
                ds == self.ds@.push(self.end_d),
                g1_all_valid(self.ds@),
                g2_all_valid(c.cs@),
                acc == NodeKey::pairing_sum(start, ds, c.cs@, i as nat),
            decreases self.ds@.len() - i,
        {
            let term = pairing(&self.ds[i], &c.cs[i]);
            acc = gt_add(&acc, &term);
            i += 1;
        }
        if i < c.cs.len() {
            let term = pairing(&self.end_d, &c.cs[i]);
            acc = gt_add(&acc, &term);
        }
        acc
    }
}

impl EncryptedElement {
    /// Every value in an encrypted element is an element of its group.
    #[verifier::type_invariant]
    pub open spec fn inv(&self) -> bool {
        self@.wf()
    }

    /// The encrypted element made of the given parts: `None` unless each
    /// value is an element of its group.
    pub fn from_parts(a: Gt, b: G1Affine, cs: Vec<G2Affine>) -> (r: Option<EncryptedElement>)
        ensures
            r is Some <==> (Sealed { a, b, cs: cs@ }).wf(),
            r matches Some(c) ==> c@ == (Sealed { a, b, cs: cs@ }),
    {
        if g1_is_valid(&b) && g2_are_valid(&cs) {
            Some(EncryptedElement { a, b, cs })
        } else {
            None
        }
    }

    /// The element under its mask.
    pub fn a(&self) -> (a: Gt)
        ensures
            a == self@.a,
    {
        self.a
    }

    /// The randomness of the encryption, in the first group.
    pub fn b(&self) -> (b: G1Affine)
        ensures
            b == self@.b,
    {
        self.b
    }

    /// The elements for the edges of the path and for the end mark.
    pub fn cs(&self) -> (cs: &Vec<G2Affine>)
        ensures
            cs@ == self@.cs,
    {
        &self.cs
    }
}

/// One element of the second group for each level, each drawn from the
/// generator.
fn random_levels(rng: &mut ThreadRng) -> (levels: Vec<G2Affine>)
    ensures
        levels@.len() == LEVELS,
        g2_all_valid(levels@),
{
    let mut levels: Vec<G2Affine> = Vec::new();
    while levels.len() < LEVELS
        invariant
            levels@.len() <= LEVELS,
            g2_all_valid(levels@),
        decreases LEVELS - levels@.len(),
    {
        levels.push(random_g2(rng));
    }
    levels
}

/// A fresh key pair of the tree encryption: the public parameters, and the
/// key of the root that belongs to them.
pub fn keygen(rng: &mut ThreadRng) -> (pair: (PK, SK))
    ensures
        pair.0@.wf(),
        pair.1@.wf(),
        pair.1@.name == Addr::root(),
        exists|alpha: Scalar, r_end: Scalar|
            pair.0@.q == g1_product(pair.0@.g, alpha) && pair.1@ == pair.0@.root_key(alpha, r_end),
{
    let alpha = random_scalar(rng);
    let r_end = random_scalar(rng);
    let h = random_g2(rng);
    let u = random_g2(rng);
    let levels = random_levels(rng);
    let pk = PK::assemble(&alpha, h, u, levels);
    let sk = pk.root_key(&alpha, &r_end);
    assert(pk@.q == g1_product(pk@.g, alpha) && sk@ == pk@.root_key(alpha, r_end));
    (pk, sk)
}

/// Derives the keys of the two children from the key of a node: the left
/// child's first.
pub fn der(rng: &mut ThreadRng, pk: &PK, sk: &SK) -> (pair: (SK, SK))
    requires
        !sk@.name.is_leaf(),
    ensures
        exists|r: Scalar, r_end: Scalar| pair.0@ == pk@.child_key(sk@, false, r, r_end),
        exists|r: Scalar, r_end: Scalar| pair.1@ == pk@.child_key(sk@, true, r, r_end),
{
    let r_left = random_scalar(rng);
    let r_left_end = random_scalar(rng);
    let r_right = random_scalar(rng);
    let r_right_end = random_scalar(rng);
    let left = pk.child_key(sk, false, &r_left, &r_left_end);
    let right = pk.child_key(sk, true, &r_right, &r_right_end);
    (left, right)
}

/// Encrypts the element to the node `name`.
pub fn enc(rng: &mut ThreadRng, pk: &PK, name: NodeName, element: &Gt) -> (c: EncryptedElement)
    ensures
        exists|s: Scalar| c@ == pk@.seal(name@, *element, s),
{
    let s = random_scalar(rng);
    pk.seal(name, element, &s)
}

/// Decrypts an encrypted element with the key of a node.
pub fn dec(sk: &SK, c: &EncryptedElement) -> (element: Gt)
    ensures
        element == sk@.unseal(c@),
{
    sk.unseal(c)
}

} // verus!
