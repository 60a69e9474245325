//! Forward-secure public-key encryption.
//!
//! A key pair moves through the nodes of a binary tree in preorder. The
//! public key only remembers at which node it stands. The private key holds
//! the secret keys of a frontier: of the node it stands at, and of the roots
//! of the subtrees still to come. A ratchet step derives the keys of the two
//! children from the key of the node and drops that key, so that what was
//! encrypted to a node left behind stays closed to whoever learns the private
//! key later.
//!
//! A payload is encrypted under the keystream of a fresh key, and the
//! element of the target group that the key is derived from is encrypted to
//! the node. The payload is not padded, and nothing tells a decryption under
//! the key of another node from a right one.
pub mod bte;
pub mod curve;
pub mod nodename;
pub mod symmetric;
pub mod tree;

use crate::bte::{
    dec, der, enc, g2_all_valid, keygen, EncryptedElement, NodeKey, Params, Sealed, LEVELS, PK, SK,
};
use crate::curve::{g1_product, g2_valid, random_gt};
use crate::nodename::{lemma_view_injective, NodeName};
use crate::symmetric::{
    derived_key, kdf, keystream_xor, lemma_keystream_xor_involution, stream_xor,
};
use crate::tree::{lemma_frontier_step, lemma_pending_len, lemma_successor, Addr};
use bls12_381::{G2Affine, Gt, Scalar};
use rand::rngs::ThreadRng;
use vstd::prelude::*;

verus! {

#[derive(Clone, Copy, Debug, PartialEq, Eq, Structural)]
pub enum RatchetError {
    /// The key stands at the last node of the tree.
    Exhausted,
}

impl RatchetError {
    /// What the error says, in words.
    pub fn message(&self) -> (text: String)
        ensures
            text@ == "the ratchet is exhausted and has no more keys"@,
    {
        "the ratchet is exhausted and has no more keys".to_owned()
    }
}

/// A ciphertext, as mathematics sees it.
pub struct Message {
    /// The element that the key of the payload is derived from, encrypted
    /// to a node.
    pub hidden_key: Sealed,
    /// The payload under the keystream.
    pub payload: Seq<u8>,
}

/// A public key, as mathematics sees it.
pub struct PublicState {
    pub params: Params,
    /// The node that the key stands at.
    pub name: Addr,
}

/// A private key, as mathematics sees it.
pub struct PrivateState {
    pub params: Params,
    /// The node that the key stands at.
    pub name: Addr,
    /// The secret keys that are held, the key of `name` last.
    pub frontier: Seq<NodeKey>,
}

impl PublicState {
    /// The ciphertext of a payload under the element `element`, which is
    /// encrypted to the node of the key with the scalar `s`.
    pub open spec fn encrypt(self, element: Gt, s: Scalar, payload: Seq<u8>) -> Message {
        Message {
            hidden_key: self.params.seal(self.name, element, s),
            payload: keystream_xor(derived_key(element), payload),
        }
    }
}

impl PrivateState {
    /// The key holds exactly the secret keys of the frontier of its node,
    /// in the order of the frontier.
    pub open spec fn wf(self) -> bool {
        &&& self.params.wf()
        &&& self.name.wf()
        &&& self.frontier.len() == self.name.frontier().len()
        &&& forall|i: int|
            0 <= i < self.frontier.len() ==> (#[trigger] self.frontier[i]).wf()
                && self.frontier[i].name == self.name.frontier()[i]
    }

    /// The payload that the key makes of a ciphertext.
    pub open spec fn decrypt(self, message: Message) -> Seq<u8> {
        keystream_xor(
            derived_key(self.frontier.last().unseal(message.hidden_key)),
            message.payload,
        )
    }

    /// The key after a ratchet step from a leaf: the secret key of the leaf
    /// is dropped, and the key stands at the node whose secret key was held
    /// below it.
    pub open spec fn leave_leaf(self) -> PrivateState {
        PrivateState {
            params: self.params,
            name: self.name.successor().unwrap(),
            frontier: self.frontier.drop_last(),
        }
    }

    /// The key after a ratchet step from an inner node, which derives the
    /// key of the left child with the scalars `left` and that of the right
    /// child with the scalars `right`: the secret key of the node is dropped
    /// for those of its children, the left one last.
    pub open spec fn descend(self, left: (Scalar, Scalar), right: (Scalar, Scalar)) -> PrivateState {
        let top = self.frontier.last();
        PrivateState {
            params: self.params,
            name: self.name.left(),
            frontier: self.frontier.drop_last().push(
                self.params.child_key(top, true, right.0, right.1),
            ).push(self.params.child_key(top, false, left.0, left.1)),
        }
    }

    /// The key after a ratchet step with the given scalars. At a leaf no key
    /// is derived, and the scalars are not looked at.
    pub open spec fn ratchet(self, left: (Scalar, Scalar), right: (Scalar, Scalar)) -> PrivateState {
        if self.name.is_leaf() {
            self.leave_leaf()
        } else {
            self.descend(left, right)
        }
    }
}

/// Ciphertext representation
#[derive(Debug)]
pub struct Ciphertext {
    hidden_key: EncryptedElement,
    payload: Vec<u8>,
}

/// Structure representing a ratchetable public key.
#[derive(Debug, PartialEq, Eq)]
pub struct PublicKey {
    inner_key: PK,
    current_name: NodeName,
}

/// Structure representing a ratchetable private key.
#[derive(Debug, PartialEq, Eq)]
pub struct PrivateKey {
    public_key: PK,
    keystack: Vec<SK>,
    current_name: NodeName,
}

impl View for Ciphertext {
    type V = Message;

    closed spec fn view(&self) -> Message {
        Message { hidden_key: self.hidden_key@, payload: self.payload@ }
    }
}

impl View for PublicKey {
    type V = PublicState;

    closed spec fn view(&self) -> PublicState {
        PublicState { params: self.inner_key@, name: self.current_name@ }
    }
}

impl View for PrivateKey {
    type V = PrivateState;

    closed spec fn view(&self) -> PrivateState {
        PrivateState {
            params: self.public_key@,
            name: self.current_name@,
            frontier: self.keystack@.map_values(|sk: SK| sk@),
        }
    }
}

impl Clone for Ciphertext {
    fn clone(&self) -> (copy: Ciphertext)
        ensures
            copy@ == self@,
    {
        let mut payload: Vec<u8> = Vec::new();
        let mut i: usize = 0;
        while i < self.payload.len()
            invariant
                i <= self.payload@.len(),
                payload@ == self.payload@.take(i as int),
            decreases self.payload@.len() - i,
        {
            payload.push(self.payload[i]);
            i += 1;
        }
        proof {
            assert(self.payload@.take(self.payload@.len() as int) == self.payload@);
        }
        Ciphertext { hidden_key: self.hidden_key.clone(), payload }
    }
}

impl Clone for PublicKey {
    fn clone(&self) -> (copy: PublicKey)
        ensures
            copy@ == self@,
    {
        PublicKey { inner_key: self.inner_key.clone(), current_name: self.current_name }
    }
}

impl Clone for PrivateKey {
    fn clone(&self) -> (copy: PrivateKey)
        ensures
            copy@ == self@,
    {
        let mut keystack: Vec<SK> = Vec::new();
        let mut i: usize = 0;
        while i < self.keystack.len()
            invariant
                i <= self.keystack@.len(),
                keystack@.len() == i,
                forall|k: int| 0 <= k < i ==> (#[trigger] keystack@[k])@ == self.keystack@[k]@,
            decreases self.keystack@.len() - i,
        {
            keystack.push(self.keystack[i].clone());
            i += 1;
        }
        let copy = PrivateKey {
            public_key: self.public_key.clone(),
            keystack,
            current_name: self.current_name,
        };
        proof {
            assert(copy@.frontier =~= self@.frontier);
        }
        copy
    }
}

impl Ciphertext {
    /// The ciphertext made of a hidden key and an encrypted payload.
    pub fn from_parts(hidden_key: EncryptedElement, payload: Vec<u8>) -> (c: Ciphertext)
        ensures
            c@ == (Message { hidden_key: hidden_key@, payload: payload@ }),
    {
        Ciphertext { hidden_key, payload }
    }

    /// The element that the key of the payload is derived from, encrypted.
    pub fn hidden_key(&self) -> (hidden_key: &EncryptedElement)
        ensures
            hidden_key@ == self@.hidden_key,
    {
        &self.hidden_key
    }

    /// The encrypted payload, which is as long as the payload.
    pub fn payload(&self) -> (payload: &Vec<u8>)
        ensures
            payload@ == self@.payload,
    {
        &self.payload
    }
}

impl PublicKey {
    /// The public key with the given parameters that stands at the given
    /// node.
    pub fn from_parts(inner_key: PK, current_name: NodeName) -> (key: PublicKey)
        ensures
            key@ == (PublicState { params: inner_key@, name: current_name@ }),
    {
        PublicKey { inner_key, current_name }
    }

    /// The public parameters.
    pub fn inner_key(&self) -> (inner_key: &PK)
        ensures
            inner_key@ == self@.params,
    {
        &self.inner_key
    }

    /// The node that the key stands at.
    pub fn current_name(&self) -> (name: NodeName)
        ensures
            name@ == self@.name,
    {
        self.current_name
    }

    /// Ratchet the current key forward.
    ///
    /// Note that private key and public key must be ratcheted "in sync",
    /// otherwise messages encrypted with the (older or newer) public key
    /// cannot be decrypted.
    ///
    /// The ratcheting of a public key can be undone: a public key holds no
    /// secret.
    pub fn ratchet(&mut self) -> (r: Result<(), RatchetError>)
        ensures
            r is Err <==> old(self)@.name == Addr::last(),
            r is Err ==> *final(self) == *old(self),
            r is Ok ==> old(self)@.name.successor() == Some(final(self)@.name),
            r is Ok ==> final(self)@.params == old(self)@.params,
    {
        match self.current_name.next() {
            Some(name) => {
                self.current_name = name;
                Ok(())
            },
            None => Err(RatchetError::Exhausted),
        }
    }

    /// Encrypts the payload under the given element of the target group,
    /// which is encrypted to the node of the key with the scalar `s`. No
    /// element may serve twice: the keystream would be the same.
    pub fn encrypt_with(&self, element: &Gt, s: &Scalar, payload: Vec<u8>) -> (c: Ciphertext)
        ensures
            c@ == self@.encrypt(*element, *s, payload@),
            c@.payload.len() == payload@.len(),
    {
        let hidden_key = self.inner_key.seal(self.current_name, element, s);
        Ciphertext { hidden_key, payload: hide_payload(element, payload) }
    }

    /// Encrypt the given payload.
    pub fn encrypt(&self, rng: &mut ThreadRng, payload: Vec<u8>) -> (r: Result<
        Ciphertext,
        RatchetError,
    >)
        ensures
            r matches Ok(c) && c@.payload.len() == payload@.len() && exists|
                element: Gt,
                s: Scalar,
            |
                c@ == self@.encrypt(element, s, payload@),
    {
        let element = random_gt(rng);
        let ghost plain = payload@;
        let hidden = hide_payload(&element, payload);
        let hidden_key = enc(rng, &self.inner_key, self.current_name, &element);
        let c = Ciphertext { hidden_key, payload: hidden };
        proof {
            let s = choose|s: Scalar| c@.hidden_key == self@.params.seal(self@.name, element, s);
            assert(c@ == self@.encrypt(element, s, plain));
        }
        Ok(c)
    }
}

/// The payload under the keystream of the key that the element stands for.
fn hide_payload(element: &Gt, payload: Vec<u8>) -> (hidden: Vec<u8>)
    ensures
        hidden@ == keystream_xor(derived_key(*element), payload@),
        hidden@.len() == payload@.len(),
{
    let key = kdf(element);
    stream_xor(&key, payload)
}

impl PrivateKey {
    /// The private key that stands at the given node and holds the given
    /// secret keys: `None` unless these are the keys of the frontier of that
    /// node, in the order of the frontier.
    pub fn from_parts(public_key: PK, keystack: Vec<SK>, current_name: NodeName) -> (r: Option<
        PrivateKey,
    >)
        ensures
            r is Some <==> (PrivateState {
                params: public_key@,
                name: current_name@,
                frontier: keystack@.map_values(|sk: SK| sk@),
            }).wf(),
            r matches Some(key) ==> key@ == (PrivateState {
                params: public_key@,
                name: current_name@,
                frontier: keystack@.map_values(|sk: SK| sk@),
            }),
    {
        let ghost state = PrivateState {
            params: public_key@,
            name: current_name@,
            frontier: keystack@.map_values(|sk: SK| sk@),
        };
        let names = current_name.frontier();
        if keystack.len() != names.len() {
            return None;
        }
        let mut i: usize = 0;
        while i < keystack.len()
            invariant
                i <= keystack@.len(),
                keystack@.len() == names@.len(),
                names@.len() == current_name@.frontier().len(),
                forall|k: int|
                    0 <= k < names@.len() ==> (#[trigger] names@[k])@ == current_name@.frontier()[k],
                forall|k: int|
                    0 <= k < i ==> (#[trigger] keystack@[k])@.wf() && keystack@[k]@.name
                        == current_name@.frontier()[k],
                state.frontier == keystack@.map_values(|sk: SK| sk@),
                state.name == current_name@,
            decreases keystack@.len() - i,
        {
            let name = keystack[i].name();
            if name != names[i] {
                proof {
                    if name@ == names@[i as int]@ {
                        lemma_view_injective(name, names@[i as int]);
                    }
                    assert(state.frontier[i as int].name != state.name.frontier()[i as int]);
                }
                return None;
            }
            i += 1;
        }
        proof {
            use_type_invariant(&public_key);
            use_type_invariant(&current_name);
            assert forall|k: int| 0 <= k < state.frontier.len() implies (
            #[trigger] state.frontier[k]).wf() && state.frontier[k].name
                == state.name.frontier()[k] by {
                assert(state.frontier[k] == keystack@[k]@);
            }
        }
        Some(PrivateKey { public_key, keystack, current_name })
    }

    /// The public parameters.
    pub fn public_key(&self) -> (public_key: &PK)
        ensures
            public_key@ == self@.params,
    {
        &self.public_key
    }

    /// The secret keys that the key holds, the key of its node last.
    pub fn keystack(&self) -> (keystack: &Vec<SK>)
        ensures
            keystack@.map_values(|sk: SK| sk@) == self@.frontier,
    {
        &self.keystack
    }

    /// The node that the key stands at.
    pub fn current_name(&self) -> (name: NodeName)
        ensures
            name@ == self@.name,
    {
        self.current_name
    }

    /// The number of secret keys that the key holds.
    pub fn frontier_len(&self) -> (n: usize)
        requires
            self@.wf(),
        ensures
            n == self@.frontier.len(),
            1 <= n <= 33,
    {
        proof {
            lemma_pending_len(self@.name);
        }
        self.keystack.len()
    }

    /// The step from a leaf to `next_name`: the secret key of the leaf is
    /// dropped.
    fn leave_leaf(&mut self, next_name: NodeName)
        requires
            old(self)@.wf(),
            old(self)@.name.is_leaf(),
            old(self)@.name.successor() == Some(next_name@),
        ensures
            final(self)@.wf(),
            final(self)@ == old(self)@.leave_leaf(),
    {
        let ghost before = self@;
        let ghost after = before.leave_leaf();
        proof {
            lemma_successor(before.name);
            lemma_frontier_step(before.name);
        }
        let _ = self.keystack.pop();
        self.current_name = next_name;
        proof {
            assert(self@.frontier =~= after.frontier);
            assert forall|i: int| 0 <= i < after.frontier.len() implies (
            #[trigger] after.frontier[i]).wf() && after.frontier[i].name
                == after.name.frontier()[i] by {
                assert(after.frontier[i] == before.frontier[i]);
            }
        }
    }

    /// The step from an inner node to its left child `next_name`: the secret
    /// key of the node is dropped for those of its two children.
    fn descend(&mut self, next_name: NodeName, left_key: SK, right_key: SK)
        requires
            old(self)@.wf(),
            !old(self)@.name.is_leaf(),
            old(self)@.name.successor() == Some(next_name@),
            left_key@.name == old(self)@.name.left(),
            right_key@.name == old(self)@.name.right(),
        ensures
            final(self)@.wf(),
            final(self)@ == (PrivateState {
                params: old(self)@.params,
                name: old(self)@.name.left(),
                frontier: old(self)@.frontier.drop_last().push(right_key@).push(left_key@),
            }),
    {
        let ghost before = self@;
        let ghost after = PrivateState {
            params: before.params,
            name: before.name.left(),
            frontier: before.frontier.drop_last().push(right_key@).push(left_key@),
        };
        proof {
            use_type_invariant(&left_key);
            use_type_invariant(&right_key);
            lemma_pending_len(before.name);
            lemma_successor(before.name);
            lemma_frontier_step(before.name);
        }
        let _ = self.keystack.pop();
        assert(self.keystack@.map_values(|sk: SK| sk@) =~= before.frontier.drop_last());
        self.keystack.push(right_key);
        self.keystack.push(left_key);
        self.current_name = next_name;
        proof {
            assert(self@.frontier =~= after.frontier);
            assert forall|i: int| 0 <= i < after.frontier.len() implies (
            #[trigger] after.frontier[i]).wf() && after.frontier[i].name
                == after.name.frontier()[i] by {
                if i < before.frontier.len() - 1 {
                    assert(after.frontier[i] == before.frontier[i]);
                }
            }
        }
    }

    /// The secret key of the node that the key stands at.
    fn top(&self) -> (top: &SK)
        requires
            self@.wf(),
        ensures
            top@ == self@.frontier.last(),
            top@.name == self@.name,
    {
        proof {
            lemma_pending_len(self@.name);
            let last = self@.frontier.len() - 1;
            assert(self@.frontier[last].name == self@.name.frontier()[last]);
        }
        &self.keystack[self.keystack.len() - 1]
    }

    /// Ratchet the current key forward.
    ///
    /// Note that private key and public key must be ratcheted "in sync",
    /// otherwise messages encrypted with the (older or newer) public key
    /// cannot be decrypted.
    ///
    /// This cannot be undone: the secret key of the node that is left is
    /// dropped, and no key that is kept leads back to it. Nothing promises
    /// that the memory it lay in is wiped.
    ///
    /// The generator is drawn from only where keys are derived: below an
    /// inner node. At the last node, and at any other leaf, it is left as it
    /// was.
    pub fn ratchet(&mut self, rng: &mut ThreadRng) -> (r: Result<(), RatchetError>)
        requires
            old(self)@.wf(),
        ensures
            final(self)@.wf(),
            1 <= final(self)@.frontier.len() <= 33,
            r is Err <==> old(self)@.name == Addr::last(),
            r is Err ==> final(self)@ == old(self)@,
            r is Err ==> *final(rng) == *old(rng),
            r is Ok ==> old(self)@.name.successor() == Some(final(self)@.name),
            old(self)@.name.is_leaf() ==> *final(rng) == *old(rng),
            r is Ok && old(self)@.name.is_leaf() ==> final(self)@ == old(self)@.leave_leaf(),
            r is Ok && !old(self)@.name.is_leaf() ==> exists|
                left: (Scalar, Scalar),
                right: (Scalar, Scalar),
            |
                final(self)@ == old(self)@.descend(left, right),
    {
        proof {
            lemma_pending_len(self@.name);
        }
        let next_name = match self.current_name.next() {
            Some(name) => name,
            None => {
                return Err(RatchetError::Exhausted);
            },
        };
        if self.current_name.is_leaf() {
            self.leave_leaf(next_name);
        } else {
            let (left_key, right_key) = der(rng, &self.public_key, self.top());
            proof {
                let params = self@.params;
                let top = self@.frontier.last();
                let l = choose|r: Scalar, r_end: Scalar|
                    left_key@ == params.child_key(top, false, r, r_end);
                let r = choose|r: Scalar, r_end: Scalar|
                    right_key@ == params.child_key(top, true, r, r_end);
                assert(old(self)@.descend(l, r).frontier == old(self)@.frontier.drop_last().push(
                    right_key@,
                ).push(left_key@));
            }
            self.descend(next_name, left_key, right_key);
        }
        proof {
            lemma_pending_len(self@.name);
        }
        Ok(())
    }

    /// Decrypts the ciphertext with the secret key of the node that the key
    /// stands at. A ciphertext that was made for another node gives other
    /// bytes, of the same number, and no error.
    pub fn decrypt(&self, ciphertext: Ciphertext) -> (r: Result<Vec<u8>, RatchetError>)
        requires
            self@.wf(),
        ensures
            r matches Ok(payload) && payload@ == self@.decrypt(ciphertext@) && payload@.len()
                == ciphertext@.payload.len(),
    {
        proof {
            lemma_pending_len(self@.name);
        }
        let element = dec(self.top(), &ciphertext.hidden_key);
        Ok(hide_payload(&element, ciphertext.payload))
    }

    /// A ratchet step with the given scalars for the keys of the two
    /// children. At a leaf no key is derived, and the scalars are not looked
    /// at.
    pub fn ratchet_with(&mut self, left: (&Scalar, &Scalar), right: (&Scalar, &Scalar)) -> (r:
        Result<(), RatchetError>)
        requires
            old(self)@.wf(),
        ensures
            final(self)@.wf(),
            1 <= final(self)@.frontier.len() <= 33,
            r is Err <==> old(self)@.name == Addr::last(),
            r is Err ==> final(self)@ == old(self)@,
            r is Ok ==> final(self)@ == old(self)@.ratchet(
                (*left.0, *left.1),
                (*right.0, *right.1),
            ),
            r is Ok ==> old(self)@.name.successor() == Some(final(self)@.name),
    {
        proof {
            lemma_pending_len(self@.name);
        }
        let next_name = match self.current_name.next() {
            Some(name) => name,
            None => {
                return Err(RatchetError::Exhausted);
            },
        };
        if self.current_name.is_leaf() {
            self.leave_leaf(next_name);
        } else {
            let left_key = self.public_key.child_key(self.top(), false, left.0, left.1);
            let right_key = self.public_key.child_key(self.top(), true, right.0, right.1);
            self.descend(next_name, left_key, right_key);
        }
        proof {
            lemma_pending_len(self@.name);
        }
        Ok(())
    }
}

/// The two keys that stand at the root, with the given parameters and the
/// given secret key of the root.
fn pair_at_root(inner_pk: PK, inner_sk: SK) -> (pair: (PublicKey, PrivateKey))
    requires
        inner_sk@.name == Addr::root(),
    ensures
        pair.0@ == (PublicState { params: inner_pk@, name: Addr::root() }),
        pair.1@ == (PrivateState {
            params: inner_pk@,
            name: Addr::root(),
            frontier: seq![inner_sk@],
        }),
        pair.1@.wf(),
{
    proof {
        use_type_invariant(&inner_pk);
        use_type_invariant(&inner_sk);
    }
    let ghost root_key = inner_sk@;
    let public_key = inner_pk.clone();
    let current_name = NodeName::root();
    let public = PublicKey { inner_key: inner_pk, current_name };
    let mut keystack: Vec<SK> = Vec::new();
    keystack.push(inner_sk);
    let private = PrivateKey { public_key, keystack, current_name };
    proof {
        assert(private@.frontier =~= seq![root_key]);
        assert(private@.name.frontier() =~= seq![Addr::root()]);
    }
    (public, private)
}

/// The key pair that belongs to the master secret `alpha`: a public and a
/// private key that stand at the root, with the same parameters, made of the
/// given values for the elements of the second group, and the secret key of
/// the root under `alpha`, closed with `r_end`. `None` unless there is one
/// value for each level, and each value is an element of that group.
pub fn keypair_from(
    alpha: &Scalar,
    r_end: &Scalar,
    h: G2Affine,
    u: G2Affine,
    levels: Vec<G2Affine>,
) -> (r: Option<(PublicKey, PrivateKey)>)
    ensures
        r is Some <==> levels@.len() == LEVELS && g2_valid(h) && g2_valid(u) && g2_all_valid(
            levels@,
        ),
        r matches Some(pair) ==> {
            &&& pair.0@.name == Addr::root()
            &&& pair.1@.name == Addr::root()
            &&& pair.0@.params == pair.1@.params
            &&& pair.0@.params.q == g1_product(pair.0@.params.g, *alpha)
            &&& pair.0@.params.h == h
            &&& pair.0@.params.u == u
            &&& pair.0@.params.levels == levels@
            &&& pair.1@.frontier == seq![pair.1@.params.root_key(*alpha, *r_end)]
            &&& pair.1@.wf()
        },
{
    match PK::new(alpha, h, u, levels) {
        Some(inner_pk) => {
            let inner_sk = inner_pk.root_key(alpha, r_end);
            Some(pair_at_root(inner_pk, inner_sk))
        },
        None => None,
    }
}

/// Generates a new key pair: a public and a private key that stand at the
/// root, with the same parameters, and the secret key of the root under the
/// master secret that the parameters were made with.
pub fn generate_keypair(rng: &mut ThreadRng) -> (pair: (PublicKey, PrivateKey))
    ensures
        pair.0@.name == Addr::root(),
        pair.1@.name == Addr::root(),
        pair.0@.params == pair.1@.params,
        pair.1@.wf(),
        pair.1@.frontier.len() == 1,
        exists|alpha: Scalar, r_end: Scalar|
            pair.0@.params.q == g1_product(pair.0@.params.g, alpha) && pair.1@.frontier
                == seq![pair.1@.params.root_key(alpha, r_end)],
{
    let (inner_pk, inner_sk) = keygen(rng);
    let ghost params = inner_pk@;
    let ghost root_key = inner_sk@;
    let pair = pair_at_root(inner_pk, inner_sk);
    proof {
        let (alpha, r_end) = choose|alpha: Scalar, r_end: Scalar|
            params.q == g1_product(params.g, alpha) && root_key == params.root_key(alpha, r_end);
        assert(pair.0@.params.q == g1_product(pair.0@.params.g, alpha) && pair.1@.frontier
            == seq![pair.1@.params.root_key(alpha, r_end)]);
    }
    pair
}

/// Under the secret key that opens the hidden key, decryption gives back the
/// payload that was encrypted.
pub proof fn lemma_decrypt_inverts_encrypt(
    public: PublicState,
    private: PrivateState,
    element: Gt,
    s: Scalar,
    payload: Seq<u8>,
)
    requires
        private.frontier.last().unseal(public.params.seal(public.name, element, s)) == element,
    ensures
        private.decrypt(public.encrypt(element, s, payload)) == payload,
{
    lemma_keystream_xor_involution(derived_key(element), payload);
}

/// A private key never holds more than 33 secret keys, and never none.
pub proof fn lemma_frontier_bound(private: PrivateState)
    requires
        private.wf(),
    ensures
        1 <= private.frontier.len() <= 33,
{
    lemma_pending_len(private.name);
}

} // verus!
