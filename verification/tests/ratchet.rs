use bls12_381::{G1Affine, G2Affine, G2Projective, Gt, Scalar};
use fspke::bte::{PK, SK};
use fspke::nodename::NodeName;
use fspke::{generate_keypair, keypair_from, PrivateKey, PublicKey, RatchetError};
use group::ff::Field;
use group::Group;

#[test]
fn keypair_generation() {
    generate_keypair(&mut rand::thread_rng());
}

#[test]
fn public_key_ratchet() {
    let (mut pk, _) = generate_keypair(&mut rand::thread_rng());
    pk.ratchet().unwrap();
    assert_eq!(pk.current_name(), NodeName::new(1, 0));
    for _ in 0..32 {
        pk.ratchet().unwrap();
    }
    assert_eq!(pk.current_name(), NodeName::new(32, 1));
}

#[test]
fn private_key_ratchet() {
    let mut rng = rand::thread_rng();
    let (_, mut sk) = generate_keypair(&mut rng);
    sk.ratchet(&mut rng).unwrap();
    assert_eq!(sk.current_name(), NodeName::new(1, 0));
    for _ in 0..32 {
        sk.ratchet(&mut rng).unwrap();
    }
    assert_eq!(sk.current_name(), NodeName::new(32, 1));
}

#[test]
fn message_roundtrip() {
    let message: &[u8] = b"Hello, world!";

    let mut rng = rand::thread_rng();
    let (mut pk, mut sk) = generate_keypair(&mut rng);

    let cipher = pk.encrypt(&mut rng, message.into()).unwrap();
    let plain = sk.decrypt(cipher).unwrap();
    assert_eq!(plain, message);

    pk.ratchet().unwrap();
    sk.ratchet(&mut rng).unwrap();

    let cipher = pk.encrypt(&mut rng, message.into()).unwrap();
    let plain = sk.decrypt(cipher).unwrap();
    assert_eq!(plain, message);
}

#[test]
fn public_key_too_advanced() {
    let message: &[u8] = b"Hello, world!";

    let mut rng = rand::thread_rng();
    let (mut pk, sk) = generate_keypair(&mut rng);

    pk.ratchet().unwrap();

    let cipher = pk.encrypt(&mut rng, message.into()).unwrap();
    let plain = sk.decrypt(cipher).unwrap();
    assert_ne!(plain, message);
}

#[test]
fn secret_key_too_advanced() {
    let message: &[u8] = b"Hello, world!";

    let mut rng = rand::thread_rng();
    let (pk, mut sk) = generate_keypair(&mut rng);

    sk.ratchet(&mut rng).unwrap();

    let cipher = pk.encrypt(&mut rng, message.into()).unwrap();
    let plain = sk.decrypt(cipher).unwrap();
    assert_ne!(plain, message);
}

#[test]
fn roundtrip_after_33_synchronized_ratchets() {
    let message: &[u8] = b"Hello, world!";

    let mut rng = rand::thread_rng();
    let (mut pk, mut sk) = generate_keypair(&mut rng);

    let cipher = pk.encrypt(&mut rng, message.into()).unwrap();
    assert_eq!(sk.decrypt(cipher).unwrap(), message);

    for _ in 0..33 {
        pk.ratchet().unwrap();
        sk.ratchet(&mut rng).unwrap();
        assert_eq!(pk.current_name(), sk.current_name());
        assert!(sk.frontier_len() >= 1);
        assert!(sk.frontier_len() <= 33);
    }
    assert_eq!(pk.current_name(), NodeName::new(32, 1));

    let cipher = pk.encrypt(&mut rng, message.into()).unwrap();
    assert_eq!(cipher.payload().len(), message.len());
    assert_eq!(sk.decrypt(cipher).unwrap(), message);
}

#[test]
fn roundtrip_at_every_step_down_and_up() {
    let message: &[u8] = b"forward secrecy";
    let mut rng = rand::thread_rng();
    let (mut pk, mut sk) = generate_keypair(&mut rng);
    for step in 0..8u64 {
        assert_eq!(pk.current_name(), NodeName::from_numbering(step));
        assert_eq!(sk.current_name(), NodeName::from_numbering(step));
        assert_eq!(sk.frontier_len(), pk.current_name().frontier().len());
        let names: Vec<NodeName> = sk.keystack().iter().map(|key| key.name()).collect();
        assert_eq!(names, sk.current_name().frontier());
        let cipher = pk.encrypt(&mut rng, message.into()).unwrap();
        assert_eq!(sk.decrypt(cipher).unwrap(), message);
        pk.ratchet().unwrap();
        sk.ratchet(&mut rng).unwrap();
    }
}

#[test]
fn frontier_grows_by_one_below_an_inner_node_and_shrinks_after_a_leaf() {
    let mut rng = rand::thread_rng();
    let (_, mut sk) = generate_keypair(&mut rng);
    assert_eq!(sk.frontier_len(), 1);
    for depth in 1..=32 {
        sk.ratchet(&mut rng).unwrap();
        assert_eq!(sk.frontier_len(), depth + 1);
    }
    assert_eq!(sk.current_name(), NodeName::new(32, 0));
    assert_eq!(sk.frontier_len(), 33);
    sk.ratchet(&mut rng).unwrap();
    assert_eq!(sk.current_name(), NodeName::new(32, 1));
    assert_eq!(sk.frontier_len(), 32);
    sk.ratchet(&mut rng).unwrap();
    assert_eq!(sk.current_name(), NodeName::new(31, 1));
    assert_eq!(sk.frontier_len(), 31);
}

#[test]
fn old_ciphertexts_stay_closed_after_a_ratchet() {
    let message: &[u8] = b"Hello, world!";
    let mut rng = rand::thread_rng();
    let (mut pk, mut sk) = generate_keypair(&mut rng);
    for _ in 0..5 {
        pk.ratchet().unwrap();
        sk.ratchet(&mut rng).unwrap();
    }
    let cipher = pk.encrypt(&mut rng, message.into()).unwrap();
    assert_eq!(sk.decrypt(cipher.clone()).unwrap(), message);
    sk.ratchet(&mut rng).unwrap();
    let plain = sk.decrypt(cipher).unwrap();
    assert_eq!(plain.len(), message.len());
    assert_ne!(plain, message);
}

#[test]
fn a_key_of_another_branch_gives_other_bytes() {
    let message: &[u8] = b"Hello, world!";
    let mut rng = rand::thread_rng();
    let (pk, sk) = generate_keypair(&mut rng);
    let left = PublicKey::from_parts(pk.inner_key().clone(), NodeName::new(3, 0b010));
    let mut private = sk;
    for _ in 0..3 {
        private.ratchet(&mut rng).unwrap();
    }
    assert_eq!(private.current_name(), NodeName::new(3, 0));
    let cipher = left.encrypt(&mut rng, message.into()).unwrap();
    assert_ne!(private.decrypt(cipher).unwrap(), message);
}

#[test]
fn encryptions_of_one_payload_differ() {
    let message: &[u8] = b"Hello, world!";
    let mut rng = rand::thread_rng();
    let (pk, sk) = generate_keypair(&mut rng);
    let first = pk.encrypt(&mut rng, message.into()).unwrap();
    let second = pk.encrypt(&mut rng, message.into()).unwrap();
    assert_ne!(first.payload(), second.payload());
    assert_eq!(sk.decrypt(first).unwrap(), message);
    assert_eq!(sk.decrypt(second).unwrap(), message);
}

#[test]
fn empty_and_long_payloads() {
    let mut rng = rand::thread_rng();
    let (pk, sk) = generate_keypair(&mut rng);
    let cipher = pk.encrypt(&mut rng, Vec::new()).unwrap();
    assert!(cipher.payload().is_empty());
    assert_eq!(sk.decrypt(cipher).unwrap(), Vec::<u8>::new());
    let long: Vec<u8> = (0..1000u32).map(|i| (i % 251) as u8).collect();
    let cipher = pk.encrypt(&mut rng, long.clone()).unwrap();
    assert_eq!(cipher.payload().len(), 1000);
    assert_ne!(cipher.payload(), &long);
    assert_eq!(sk.decrypt(cipher).unwrap(), long);
}

#[test]
fn encrypt_with_is_determined_by_its_arguments() {
    let message: &[u8] = b"Hello, world!";
    let mut rng = rand::thread_rng();
    let (pk, sk) = generate_keypair(&mut rng);
    let element = Gt::random(&mut rng);
    let s = Scalar::random(&mut rng);
    let first = pk.encrypt_with(&element, &s, message.into());
    let second = pk.encrypt_with(&element, &s, message.into());
    assert_eq!(first.payload(), second.payload());
    let expected = fspke::symmetric::stream_xor(&fspke::symmetric::kdf(&element), message.into());
    assert_eq!(first.payload(), &expected);
    assert_eq!(sk.keystack()[0].unseal(first.hidden_key()), element);
    assert_eq!(sk.decrypt(first).unwrap(), message);
}

fn rightmost_key(pk: &PK, root: &SK) -> SK {
    let mut rng = rand::thread_rng();
    let mut key = root.clone();
    for _ in 0..32 {
        let r = Scalar::random(&mut rng);
        let r_end = Scalar::random(&mut rng);
        key = pk.child_key(&key, true, &r, &r_end);
    }
    key
}

#[test]
fn public_key_exhausted_at_max() {
    let (pk, _) = generate_keypair(&mut rand::thread_rng());
    let mut last = PublicKey::from_parts(pk.inner_key().clone(), NodeName::new(32, u32::MAX - 1));
    last.ratchet().unwrap();
    assert_eq!(last.current_name(), NodeName::max());
    let before = last.clone();
    assert_eq!(last.ratchet(), Err(RatchetError::Exhausted));
    assert_eq!(last, before);
    assert_eq!(last.ratchet(), Err(RatchetError::Exhausted));
}

#[test]
fn private_key_exhausted_at_max() {
    let mut rng = rand::thread_rng();
    let (pk, sk) = generate_keypair(&mut rng);
    let key = rightmost_key(sk.public_key(), &sk.keystack()[0]);
    assert_eq!(key.name(), NodeName::max());
    let mut last =
        PrivateKey::from_parts(sk.public_key().clone(), vec![key], NodeName::max()).unwrap();
    let before = last.clone();
    assert_eq!(last.ratchet(&mut rng), Err(RatchetError::Exhausted));
    assert_eq!(last, before);
    assert_eq!(last.frontier_len(), 1);

    let message: &[u8] = b"Hello, world!";
    let public = PublicKey::from_parts(pk.inner_key().clone(), NodeName::max());
    let cipher = public.encrypt(&mut rng, message.into()).unwrap();
    assert_eq!(last.decrypt(cipher).unwrap(), message);
}

#[test]
fn last_ratchet_before_exhaustion() {
    let mut rng = rand::thread_rng();
    let (_, sk) = generate_keypair(&mut rng);
    let pk = sk.public_key().clone();
    let mut key = sk.keystack()[0].clone();
    for _ in 0..31 {
        key = pk.child_key(&key, true, &Scalar::random(&mut rng), &Scalar::random(&mut rng));
    }
    let left = pk.child_key(&key, false, &Scalar::random(&mut rng), &Scalar::random(&mut rng));
    let right = pk.child_key(&key, true, &Scalar::random(&mut rng), &Scalar::random(&mut rng));
    let name = NodeName::new(32, u32::MAX - 1);
    let mut private = PrivateKey::from_parts(pk, vec![right, left], name).unwrap();
    assert_eq!(private.current_name().to_numbering(), 2u64.pow(33) - 3);
    private.ratchet(&mut rng).unwrap();
    assert_eq!(private.current_name(), NodeName::max());
    assert_eq!(private.current_name().to_numbering(), 2u64.pow(33) - 2);
    assert_eq!(private.frontier_len(), 1);
    assert_eq!(private.ratchet(&mut rng), Err(RatchetError::Exhausted));
}

#[test]
fn from_parts_wants_the_keys_of_the_frontier() {
    let mut rng = rand::thread_rng();
    let (_, sk) = generate_keypair(&mut rng);
    let pk = sk.public_key().clone();
    let root = sk.keystack()[0].clone();
    let left = pk.child_key(&root, false, &Scalar::random(&mut rng), &Scalar::random(&mut rng));
    let right = pk.child_key(&root, true, &Scalar::random(&mut rng), &Scalar::random(&mut rng));
    let at_left = NodeName::root().left();
    assert!(PrivateKey::from_parts(pk.clone(), vec![right.clone(), left.clone()], at_left).is_some());
    assert!(PrivateKey::from_parts(pk.clone(), vec![left.clone(), right.clone()], at_left).is_none());
    assert!(PrivateKey::from_parts(pk.clone(), vec![left.clone()], at_left).is_none());
    assert!(PrivateKey::from_parts(pk.clone(), vec![], at_left).is_none());
    assert!(PrivateKey::from_parts(pk.clone(), vec![root.clone()], at_left).is_none());
    assert!(PrivateKey::from_parts(pk.clone(), vec![root.clone()], NodeName::root()).is_some());
    assert!(PrivateKey::from_parts(pk.clone(), vec![right.clone()], NodeName::root().right()).is_some());
    assert!(PrivateKey::from_parts(pk, vec![root, right], NodeName::root().right()).is_none());
}

#[test]
fn error_message() {
    assert_eq!(
        RatchetError::Exhausted.message(),
        "the ratchet is exhausted and has no more keys"
    );
}

#[test]
fn parts_of_a_ciphertext() {
    let message: &[u8] = b"Hello, world!";
    let mut rng = rand::thread_rng();
    let (pk, sk) = generate_keypair(&mut rng);
    let cipher = pk.encrypt(&mut rng, message.into()).unwrap();
    let same =
        fspke::Ciphertext::from_parts(cipher.hidden_key().clone(), cipher.payload().clone());
    assert_eq!(same.payload(), cipher.payload());
    assert_eq!(sk.decrypt(same).unwrap(), message);
    let mut flipped = cipher.payload().clone();
    flipped[0] ^= 1;
    let other = fspke::Ciphertext::from_parts(cipher.hidden_key().clone(), flipped);
    let plain = sk.decrypt(other).unwrap();
    assert_eq!(plain[0], message[0] ^ 1);
    assert_eq!(&plain[1..], &message[1..]);
}

#[test]
fn copies_of_keys_are_equal_and_move_alike() {
    let mut rng = rand::thread_rng();
    let (pk, sk) = generate_keypair(&mut rng);
    let mut pk_copy = pk.clone();
    assert_eq!(pk_copy, pk);
    pk_copy.ratchet().unwrap();
    assert_ne!(pk_copy, pk);
    assert_eq!(pk.current_name(), NodeName::root());
    let mut sk_copy = sk.clone();
    assert_eq!(sk_copy, sk);
    sk_copy.ratchet(&mut rng).unwrap();
    assert_eq!(sk.current_name(), NodeName::root());
    assert_eq!(sk.frontier_len(), 1);
    assert_eq!(sk_copy.frontier_len(), 2);
    assert_eq!(pk.inner_key(), sk.public_key());
}

#[test]
fn ratchet_with_is_determined_by_its_arguments() {
    let mut rng = rand::thread_rng();
    let (_, sk) = generate_keypair(&mut rng);
    let mut first = sk.clone();
    let mut second = sk.clone();
    let left = (Scalar::from(2u64), Scalar::from(3u64));
    let right = (Scalar::from(5u64), Scalar::from(7u64));
    first.ratchet_with((&left.0, &left.1), (&right.0, &right.1)).unwrap();
    second.ratchet_with((&left.0, &left.1), (&right.0, &right.1)).unwrap();
    assert_eq!(first, second);
    assert_eq!(first.current_name(), NodeName::root().left());
    let pk = sk.public_key();
    let root = &sk.keystack()[0];
    assert_eq!(first.keystack()[0], pk.child_key(root, true, &right.0, &right.1));
    assert_eq!(first.keystack()[1], pk.child_key(root, false, &left.0, &left.1));
    let mut third = sk.clone();
    third.ratchet_with((&right.0, &right.1), (&left.0, &left.1)).unwrap();
    assert_ne!(third, first);
}

fn drawn_setup() -> (Scalar, Scalar, G2Affine, G2Affine, Vec<G2Affine>) {
    let mut rng = rand::thread_rng();
    let point = |rng: &mut rand::rngs::ThreadRng| G2Affine::from(G2Projective::random(rng));
    let alpha = Scalar::random(&mut rng);
    let r_end = Scalar::random(&mut rng);
    let h = point(&mut rng);
    let u = point(&mut rng);
    let levels = (0..33).map(|_| point(&mut rng)).collect();
    (alpha, r_end, h, u, levels)
}

#[test]
fn keypair_from_drawn_values() {
    let message: &[u8] = b"Hello, world!";
    let mut rng = rand::thread_rng();
    let (alpha, r_end, h, u, levels) = drawn_setup();
    let (mut pk, mut sk) = keypair_from(&alpha, &r_end, h, u, levels.clone()).unwrap();
    assert_eq!(pk.current_name(), NodeName::root());
    assert_eq!(sk.current_name(), NodeName::root());
    assert_eq!(pk.inner_key(), sk.public_key());
    assert_eq!(sk.frontier_len(), 1);
    assert_eq!(pk.inner_key().h(), h);
    assert_eq!(pk.inner_key().u(), u);
    assert_eq!(pk.inner_key().levels(), &levels);
    assert_eq!(pk.inner_key().q(), G1Affine::from(pk.inner_key().g() * alpha));
    assert_eq!(sk.keystack()[0], pk.inner_key().root_key(&alpha, &r_end));

    let again = keypair_from(&alpha, &r_end, h, u, levels.clone()).unwrap();
    assert_eq!(again.0, pk);
    assert_eq!(again.1, sk);

    let cipher = pk.encrypt(&mut rng, message.into()).unwrap();
    assert_eq!(sk.decrypt(cipher).unwrap(), message);
    pk.ratchet().unwrap();
    sk.ratchet(&mut rng).unwrap();
    let cipher = pk.encrypt(&mut rng, message.into()).unwrap();
    assert_eq!(sk.decrypt(cipher).unwrap(), message);
}

#[test]
fn keypair_from_another_master_secret_does_not_open() {
    let message: &[u8] = b"Hello, world!";
    let mut rng = rand::thread_rng();
    let (alpha, r_end, h, u, levels) = drawn_setup();
    let (pk, _) = keypair_from(&alpha, &r_end, h, u, levels.clone()).unwrap();
    let other = alpha + Scalar::ONE;
    let (_, sk) = keypair_from(&other, &r_end, h, u, levels).unwrap();
    let cipher = pk.encrypt(&mut rng, message.into()).unwrap();
    assert_ne!(sk.decrypt(cipher).unwrap(), message);
}

#[test]
fn keypair_from_wants_an_element_for_each_level() {
    let (alpha, r_end, h, u, levels) = drawn_setup();
    assert!(keypair_from(&alpha, &r_end, h, u, levels[..32].to_vec()).is_none());
    assert!(keypair_from(&alpha, &r_end, h, u, Vec::new()).is_none());
    let mut longer = levels.clone();
    longer.push(h);
    assert!(keypair_from(&alpha, &r_end, h, u, longer).is_none());
    assert!(keypair_from(&alpha, &r_end, h, u, levels).is_some());
}

#[test]
fn a_ratchet_from_a_leaf_derives_nothing() {
    let mut rng = rand::thread_rng();
    let (_, sk) = generate_keypair(&mut rng);
    let pk = sk.public_key().clone();
    let root = sk.keystack()[0].clone();
    let mut key = root;
    for _ in 0..31 {
        key = pk.child_key(&key, true, &Scalar::random(&mut rng), &Scalar::random(&mut rng));
    }
    let left = pk.child_key(&key, false, &Scalar::random(&mut rng), &Scalar::random(&mut rng));
    let right = pk.child_key(&key, true, &Scalar::random(&mut rng), &Scalar::random(&mut rng));
    let name = NodeName::new(32, u32::MAX - 1);
    let at_leaf = PrivateKey::from_parts(pk, vec![right.clone(), left], name).unwrap();

    let mut first = at_leaf.clone();
    let mut second = at_leaf.clone();
    let mut third = at_leaf.clone();
    let a = (Scalar::from(2u64), Scalar::from(3u64));
    let b = (Scalar::from(5u64), Scalar::from(7u64));
    first.ratchet_with((&a.0, &a.1), (&b.0, &b.1)).unwrap();
    second.ratchet_with((&b.0, &b.1), (&a.0, &a.1)).unwrap();
    third.ratchet(&mut rng).unwrap();
    assert_eq!(first, second);
    assert_eq!(first, third);
    assert_eq!(first.current_name(), NodeName::max());
    assert_eq!(first.keystack().len(), 1);
    assert_eq!(first.keystack()[0], right);
}

#[test]
fn keypair_from_refuses_values_off_the_curve() {
    let (alpha, r_end, h, u, levels) = drawn_setup();
    let bad = G2Affine::from_uncompressed_unchecked(&[0u8; 192]).unwrap();
    assert!(keypair_from(&alpha, &r_end, bad, u, levels.clone()).is_none());
    assert!(keypair_from(&alpha, &r_end, h, bad, levels.clone()).is_none());
    let mut spoiled = levels;
    spoiled[7] = bad;
    assert!(keypair_from(&alpha, &r_end, h, u, spoiled).is_none());
}
