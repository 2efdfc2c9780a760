//! The key material and ciphertext shapes of the scheme, together with
//! the insertion-ordered attribute maps they carry.
//!
//! An attribute map is a vector of `(name, value)` pairs kept in
//! insertion order; a lookup takes the first pair bearing the name.
//! The minimal-set search's tie-breaking depends on that order, so it
//! is part of the contracts.
use vstd::prelude::*;

use crate::abe_attribute::AbeIdentifier;
use crate::access_tree::AccessTree;

verus! {

/// The names of a key-value sequence, in order.
pub open spec fn map_keys<T>(m: Seq<(String, T)>) -> Seq<Seq<char>> {
    m.map_values(|p: (String, T)| p.0@)
}

/// The value under the first pair bearing the given name, if any.
pub open spec fn map_first<T>(m: Seq<(String, T)>, k: Seq<char>) -> Option<T>
    decreases m.len(),
{
    if m.len() == 0 {
        None
    } else if m[0].0@ == k {
        Some(m[0].1)
    } else {
        map_first(m.drop_first(), k)
    }
}

/// The views of a sequence of owned names, in order.
pub open spec fn strs_view(s: Seq<String>) -> Seq<Seq<char>> {
    s.map_values(|x: String| x@)
}

proof fn lemma_map_first_skip<T>(m: Seq<(String, T)>, k: Seq<char>, i: int)
    requires
        0 <= i <= m.len(),
        forall|j: int| 0 <= j < i ==> m[j].0@ != k,
    ensures
        map_first(m, k) == map_first(m.skip(i), k),
    decreases i,
{
    if i > 0 {
        assert(m.drop_first().skip(i - 1) =~= m.skip(i));
        lemma_map_first_skip(m.drop_first(), k, i - 1);
    } else {
        assert(m.skip(0) =~= m);
    }
}

/// The value under the first pair bearing the given name, if any.
pub fn map_lookup<T: Copy>(m: &Vec<(String, T)>, k: &String) -> (r: Option<T>)
    ensures
        r == map_first(m@, k@),
{
    let mut i: usize = 0;
    while i < m.len()
        invariant
            i <= m.len(),
            forall|j: int| 0 <= j < i ==> m@[j].0@ != k@,
        decreases m.len() - i,
    {
        if m[i].0 == *k {
            proof {
                lemma_map_first_skip(m@, k@, i as int);
                assert(m@.skip(i as int)[0] == m@[i as int]);
            }
            return Some(m[i].1);
        }
        i += 1;
    }
    proof {
        lemma_map_first_skip(m@, k@, m@.len() as int);
        assert(m@.skip(m@.len() as int) =~= Seq::<(String, T)>::empty());
    }
    None
}

/// The system public key.
#[derive(Debug)]
pub struct AbePublicKey {
    pub map: rabe_bn::Gt,
    pub g1: rabe_bn::G1,
    pub g2: rabe_bn::G2,
    pub y: rabe_bn::Gt,
    pub big_t: Vec<(String, rabe_bn::G1)>,
}

/// The master secret held by the authority.
#[derive(Debug)]
pub struct AbeMasterKey {
    pub alpha: rabe_bn::Fr,
    pub small_t: Vec<(String, rabe_bn::Fr)>,
}

/// A combined secret key, as persisted by earlier clients: the user
/// part `d_0` together with one attribute map.
#[derive(Debug)]
pub struct AbeSecretKey {
    pub d_0: rabe_bn::G2,
    pub arr_d: Vec<(String, rabe_bn::G2)>,
}

/// The user's half of a decryption key.
#[derive(Debug)]
pub struct AbeClientKey {
    pub unique_secret: rabe_bn::Fr,
    pub d_0: rabe_bn::G2,
    pub arr_d_2: Vec<(String, rabe_bn::G2)>,
}

/// The mediator's half of a decryption key; deleting it revokes the
/// user.
#[derive(Debug)]
pub struct AbeMediatorKey {
    pub arr_d_1: Vec<(String, rabe_bn::G2)>,
}

/// A ciphertext: the value-annotated policy tree, the group elements
/// binding the secret, one G1 share per policy leaf keyed by the
/// leaf's identifier, and the symmetric payload.
#[derive(Debug)]
pub struct AbeCipherText {
    pub access_tree: Box<AccessTree>,
    pub c_0: rabe_bn::G1,
    pub c_1: rabe_bn::Gt,
    pub arr_c: Vec<(AbeIdentifier, rabe_bn::G1)>,
    pub message: Vec<u8>,
}

/// The outcome of a completed decryption: the recovered group element
/// and the authenticated plaintext.
#[derive(Debug)]
pub struct AbeDecrypted {
    pub message: Vec<u8>,
    pub secret: rabe_bn::Gt,
}

} // verus!
