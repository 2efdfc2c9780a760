use itertools::Itertools;
use rand::Rng;

use rabe_bn::{Fr, Group, Gt, G1, G2};

use abe::abe_attribute::AbeAttribute;
use abe::access_tree::TreeOperator::{And, Or};
use abe::access_tree::{AccessTree, Leaf, Operator};
use abe::crypto::{decrypt, encrypt, keygen, m_decrypt, setup};
use abe::models::{AbeCipherText, AbeMasterKey, AbeMediatorKey};
use abe::parser::AccessTreeParser;

fn encrypt_decrypt(tree: &AccessTree, key_attributes: &Vec<AbeAttribute>) {
    let rng = &mut rand::thread_rng();

    let secret: Gt = rng.gen();
    let message_bytes = String::from("Hello World!").into_bytes();

    let attributes = tree
        .get_attributes()
        .iter()
        .map(|a| a.name.clone())
        .unique()
        .collect();

    let (public_key, master_key) = setup(&attributes, G1::one(), G2::one());

    let (secret_key, m_secret) = keygen(
        &key_attributes.iter().map(|a| a.name.clone()).collect(),
        &public_key,
        &master_key,
    )
    .unwrap();
    let cipher_text = encrypt(&secret, &message_bytes, &public_key, &tree).unwrap();
    let mediated_value = m_decrypt(&cipher_text, &m_secret).unwrap();
    let decrypted = decrypt(&cipher_text, &secret_key, &mediated_value).unwrap();

    assert_eq!(secret, decrypted.secret);
    assert_eq!(message_bytes, decrypted.message);
}

#[test]
fn integration_tests_correctness_test1() {
    let access_tree = AccessTree::Operator(Operator {
        left: Box::from(AccessTree::Operator(Operator {
            left: Box::from(AccessTree::Leaf(Leaf {
                value: None,
                attribute: AbeAttribute::new_with_value("A", Fr::one()),
            })),
            right: Box::from(AccessTree::Leaf(Leaf {
                value: None,
                attribute: AbeAttribute::new_with_value("B", Fr::one()),
            })),
            value: None,
            operator: And,
        })),
        right: Box::from(AccessTree::Operator(Operator {
            left: Box::from(AccessTree::Leaf(Leaf {
                value: None,
                attribute: AbeAttribute::new_with_value("C", Fr::one()),
            })),
            right: Box::from(AccessTree::Leaf(Leaf {
                value: None,
                attribute: AbeAttribute::new_with_value("D", Fr::one()),
            })),
            value: None,
            operator: And,
        })),
        value: None,
        operator: Or,
    });

    encrypt_decrypt(
        &access_tree,
        &vec![AbeAttribute::new("A"), AbeAttribute::new("B")],
    );
}

#[test]
fn correctness_test2() {
    let mut parser = AccessTreeParser::new("A&A");
    let access_tree = parser.parse().unwrap();

    encrypt_decrypt(&access_tree, &vec![AbeAttribute::new("A")]);
}

#[test]
fn correctness_test3() {
    let mut parser = AccessTreeParser::new("(A&A)&A");
    let access_tree = parser.parse().unwrap();

    encrypt_decrypt(&access_tree, &vec![AbeAttribute::new("A")]);
}

#[test]
fn correctness_test4() {
    let mut parser = AccessTreeParser::new("(A&B)|(C&D)");
    let access_tree = parser.parse().unwrap();

    encrypt_decrypt(
        &access_tree,
        &vec![AbeAttribute::new("A"), AbeAttribute::new("B")],
    );
}

#[test]
fn correctness_test_complex() {
    let mut parser = AccessTreeParser::new("((A&B)|(C&D))&((E&F)|(G&H))");
    let access_tree = parser.parse().unwrap();

    encrypt_decrypt(
        &access_tree,
        &vec![
            AbeAttribute::new("A"),
            AbeAttribute::new("B"),
            AbeAttribute::new("E"),
            AbeAttribute::new("F"),
        ],
    );
}

#[test]
fn correctness_test_very_complex() {
    let mut parser = AccessTreeParser::new("((A&B)|(C&D))&((E&F)|(G&H))&((I&J)|(K&L))");
    let access_tree = parser.parse().unwrap();

    encrypt_decrypt(
        &access_tree,
        &vec![
            AbeAttribute::new("A"),
            AbeAttribute::new("B"),
            AbeAttribute::new("E"),
            AbeAttribute::new("F"),
            AbeAttribute::new("I"),
            AbeAttribute::new("J"),
        ],
    );
}

#[test]
fn correctness_test_unbalanced_tree() {
    let mut parser =
        AccessTreeParser::new("((A&B)|(C&D))&((E&F)|(G&H))&((I&J)|(K&L))&((M&N)|(O&P))");
    let access_tree = parser.parse().unwrap();

    encrypt_decrypt(
        &access_tree,
        &vec![
            AbeAttribute::new("A"),
            AbeAttribute::new("B"),
            AbeAttribute::new("E"),
            AbeAttribute::new("F"),
            AbeAttribute::new("I"),
            AbeAttribute::new("J"),
            AbeAttribute::new("M"),
            AbeAttribute::new("N"),
        ],
    );
}

#[test]
fn correctness_test_long_chain() {
    let mut parser = AccessTreeParser::new("A&B&C&D&E&F&G&H&I&J&K&L&M&N&O&P");
    let access_tree = parser.parse().unwrap();

    encrypt_decrypt(
        &access_tree,
        &vec![
            AbeAttribute::new("A"),
            AbeAttribute::new("B"),
            AbeAttribute::new("C"),
            AbeAttribute::new("D"),
            AbeAttribute::new("E"),
            AbeAttribute::new("F"),
            AbeAttribute::new("G"),
            AbeAttribute::new("H"),
            AbeAttribute::new("I"),
            AbeAttribute::new("J"),
            AbeAttribute::new("K"),
            AbeAttribute::new("L"),
            AbeAttribute::new("M"),
            AbeAttribute::new("N"),
            AbeAttribute::new("O"),
            AbeAttribute::new("P"),
        ],
    );
}

#[test]
fn test_mediator_decrypt_unsatisfied() {
    let rng = &mut rand::thread_rng();
    let secret: Gt = rng.gen();
    let message_bytes = String::from("Hello World!").into_bytes();

    let mut parser = AccessTreeParser::new("A&B");
    let tree = parser.parse().unwrap();

    let attributes = vec!["A".to_string(), "B".to_string()];
    let (public_key, master_key) = setup(&attributes, G1::one(), G2::one());
    let (_, m_secret) = keygen(&vec!["A".to_string()], &public_key, &master_key).unwrap();

    let cipher_text = encrypt(&secret, &message_bytes, &public_key, &tree).unwrap();
    let err = m_decrypt(&cipher_text, &m_secret).unwrap_err();
    assert_eq!(
        err.message,
        "Initial attribute set does not satisfy the tree".to_string()
    );
}

#[test]
fn test_duplicate_name_distinct_shares() {
    let rng = &mut rand::thread_rng();
    let secret: Gt = rng.gen();
    let message_bytes = String::from("Hello World!").into_bytes();

    let mut parser = AccessTreeParser::new("A&A");
    let tree = parser.parse().unwrap();

    let attributes = vec!["A".to_string()];
    let (public_key, _master_key) = setup(&attributes, G1::one(), G2::one());

    let cipher_text = encrypt(&secret, &message_bytes, &public_key, &tree).unwrap();
    assert_eq!(cipher_text.arr_c.len(), 2);
    assert_eq!(cipher_text.arr_c[0].0.name, "A".to_string());
    assert_eq!(cipher_text.arr_c[1].0.name, "A".to_string());
    assert_eq!(cipher_text.arr_c[0].0.index, Some(0));
    assert_eq!(cipher_text.arr_c[1].0.index, Some(1));
}

#[test]
fn test_keygen_unknown_attribute() {
    let attributes = vec!["A".to_string()];
    let (public_key, master_key) = setup(&attributes, G1::one(), G2::one());

    let err = keygen(&vec!["Z".to_string()], &public_key, &master_key).unwrap_err();
    assert_eq!(
        err.message,
        "Attribute Z not found in master key".to_string()
    );
}

#[test]
fn test_keygen_noninvertible_scalar() {
    let attributes = vec!["A".to_string()];
    let (public_key, master_key) = setup(&attributes, G1::one(), G2::one());
    let corrupt = AbeMasterKey {
        alpha: master_key.alpha,
        small_t: vec![("A".to_string(), Fr::zero())],
    };

    let err = keygen(&vec!["A".to_string()], &public_key, &corrupt).unwrap_err();
    assert_eq!(
        err.message,
        "Could not calculate inverse of A".to_string()
    );
}

#[test]
fn test_decrypt_without_mediator_value_fails() {
    let rng = &mut rand::thread_rng();
    let secret: Gt = rng.gen();
    let message_bytes = String::from("Hello World!").into_bytes();

    let mut parser = AccessTreeParser::new("A&B");
    let tree = parser.parse().unwrap();

    let attributes = vec!["A".to_string(), "B".to_string()];
    let (public_key, master_key) = setup(&attributes, G1::one(), G2::one());
    let (secret_key, _m_secret) = keygen(
        &vec!["A".to_string(), "B".to_string()],
        &public_key,
        &master_key,
    )
    .unwrap();

    let cipher_text = encrypt(&secret, &message_bytes, &public_key, &tree).unwrap();
    // A stand-in for the mediator's value recovers nothing: the
    // payload fails to authenticate under the wrongly recovered secret.
    let bogus: Gt = rng.gen();
    assert!(decrypt(&cipher_text, &secret_key, &bogus).is_err());
}

#[test]
fn test_setup_publishes_one_share_per_attribute() {
    let attributes = vec!["A".to_string(), "B".to_string(), "C".to_string()];
    let (public_key, master_key) = setup(&attributes, G1::one(), G2::one());

    assert_eq!(public_key.big_t.len(), 3);
    assert_eq!(master_key.small_t.len(), 3);
    for i in 0..attributes.len() {
        assert_eq!(public_key.big_t[i].0, attributes[i]);
        assert_eq!(master_key.small_t[i].0, attributes[i]);
        // big_t mirrors small_t: T_a = g1 * t_a
        assert_eq!(public_key.big_t[i].1, G1::one() * master_key.small_t[i].1);
    }
}

#[test]
fn test_keygen_key_maps_share_order() {
    let attributes = vec!["A".to_string(), "B".to_string()];
    let (public_key, master_key) = setup(&attributes, G1::one(), G2::one());
    let (client_key, mediator_key) = keygen(&attributes, &public_key, &master_key).unwrap();

    assert_eq!(client_key.arr_d_2.len(), 2);
    assert_eq!(mediator_key.arr_d_1.len(), 2);
    for i in 0..attributes.len() {
        assert_eq!(client_key.arr_d_2[i].0, attributes[i]);
        assert_eq!(mediator_key.arr_d_1[i].0, attributes[i]);
    }
}

#[test]
fn test_mediator_decrypt_empty_share_set() {
    let rng = &mut rand::thread_rng();
    // A well-named key for the single-leaf policy, but a ciphertext
    // carrying no shares at all: the minimal set is found, yet the
    // decryption product is empty.
    let tree = AccessTree::Leaf(Leaf {
        attribute: AbeAttribute::new("A"),
        value: None,
    });
    let cipher_text = AbeCipherText {
        access_tree: Box::new(tree),
        c_0: G1::one(),
        c_1: rng.gen(),
        arr_c: vec![],
        message: vec![],
    };
    let mediator_key = AbeMediatorKey {
        arr_d_1: vec![("A".to_string(), G2::one())],
    };
    let err = m_decrypt(&cipher_text, &mediator_key).unwrap_err();
    assert_eq!(
        err.message,
        "Could not calculate product of e(cj,dj)".to_string()
    );
}
