//! The five algorithms of the mediated attribute-based scheme: Setup,
//! KeyGen, Encrypt, Mediator-Decrypt and User-Decrypt, stated over the
//! named operations of the pairing-group adapter.
use vstd::prelude::*;
use vstd::string::StringExecFns;

use crate::abe_attribute::{AbeAttribute, AbeIdentifier, AttrV, IdentV};
use crate::access_tree::{
    attrs_view, leaves_of, minimal_set_spec, names_of, sat, values_assigned, with_indices,
    AccessTree, TreeV,
};
use crate::aes;
use crate::aes::{gcm_open, gcm_plaintext_fits, gcm_seal, sha3_256};
use crate::errors::abe_error::AbeError;
use crate::groups::{
    fr_inverse, fr_mul, fr_sub, g1_mul, g2_mul, gt_bytes, gt_inv, gt_mul, gt_pow, pair_of,
};
use crate::models::{
    map_first, map_keys, strs_view, AbeCipherText, AbeClientKey, AbeDecrypted, AbeMasterKey,
    AbeMediatorKey, AbePublicKey,
};

verus! {

/// Whether an attribute name can be served by the master key: it is
/// present, and its scalar has an inverse.
pub open spec fn attr_ok(small_t: Seq<(String, rabe_bn::Fr)>, name: Seq<char>) -> bool {
    match map_first(small_t, name) {
        Some(t) => fr_inverse(t) is Some,
        None => false,
    }
}

/// The inverse scalar the master key holds for a name.
pub open spec fn inv_of(small_t: Seq<(String, rabe_bn::Fr)>, name: Seq<char>) -> rabe_bn::Fr {
    fr_inverse(map_first(small_t, name)->Some_0)->Some_0
}

/// How one attribute's pair of half keys arises from the per-user
/// secret `uid`, the per-attribute random share `u` and the inverse
/// scalar: the mediator holds `g2 * (u / t)`, the user the complement.
pub open spec fn half_keys_ok(
    g2: rabe_bn::G2,
    uid: rabe_bn::Fr,
    inv: rabe_bn::Fr,
    d1: rabe_bn::G2,
    d2: rabe_bn::G2,
    u: rabe_bn::Fr,
) -> bool {
    &&& d1 == g2_mul(g2, fr_mul(u, inv))
    &&& d2 == g2_mul(g2, fr_mul(fr_sub(uid, u), inv))
}

/// The candidate attributes a half-key map stands for: its names in
/// order, with no index and no value.
pub open spec fn key_attrs(m: Seq<(String, rabe_bn::G2)>) -> Seq<AttrV> {
    m.map_values(|p: (String, rabe_bn::G2)| AttrV { index: None, name: p.0@, value: None })
}

/// The views of the ciphertext share list.
pub open spec fn shares_view(s: Seq<(AbeIdentifier, rabe_bn::G1)>) -> Seq<(IdentV, rabe_bn::G1)> {
    s.map_values(|p: (AbeIdentifier, rabe_bn::G1)| (p.0@, p.1))
}

/// The ciphertext shares that enter the decryption product: those
/// whose leaf name lies in the minimal satisfying subset and has an
/// entry in the half-key map.
pub open spec fn included_shares(
    shares: Seq<(IdentV, rabe_bn::G1)>,
    minimal: Seq<AttrV>,
    d: Seq<(String, rabe_bn::G2)>,
) -> Seq<(IdentV, rabe_bn::G1)> {
    shares.filter(
        |p: (IdentV, rabe_bn::G1)|
            names_of(minimal).contains(p.0.name) && map_first(d, p.0.name) is Some,
    )
}

/// The pairing of each share against its half key.
pub open spec fn share_pairings(
    shares: Seq<(IdentV, rabe_bn::G1)>,
    d: Seq<(String, rabe_bn::G2)>,
) -> Seq<rabe_bn::Gt> {
    shares.map_values(
        |p: (IdentV, rabe_bn::G1)| pair_of(p.1, map_first(d, p.0.name)->Some_0),
    )
}

/// The left-to-right product of a non-empty list of Gt elements.
pub open spec fn gt_list_product(s: Seq<rabe_bn::Gt>) -> rabe_bn::Gt
    decreases s.len(),
{
    if s.len() <= 1 {
        s[0]
    } else {
        gt_mul(gt_list_product(s.drop_last()), s.last())
    }
}

/// System setup over a set of attribute names: samples the master
/// scalar `alpha` and one scalar per attribute, and publishes the
/// generators, the pairing of the generators, `y = e(g1,g2)^alpha`,
/// and `T_a = g1 * t_a` per attribute, in the order given.
pub fn setup(attributes: &Vec<String>, g: rabe_bn::G1, g2: rabe_bn::G2) -> (r: (
    AbePublicKey,
    AbeMasterKey,
))
    ensures
        r.0.g1 == g,
        r.0.g2 == g2,
        r.0.map == pair_of(g, g2),
        r.0.y == gt_pow(pair_of(g, g2), r.1.alpha),
        map_keys(r.1.small_t@) == strs_view(attributes@),
        map_keys(r.0.big_t@) == strs_view(attributes@),
        r.0.big_t@.len() == attributes@.len(),
        r.1.small_t@.len() == attributes@.len(),
        forall|i: int|
            0 <= i < attributes@.len() ==> (#[trigger] r.0.big_t@[i]).1 == g1_mul(
                g,
                r.1.small_t@[i].1,
            ),
{
    let mut small_t: Vec<(String, rabe_bn::Fr)> = Vec::new();
    let mut i: usize = 0;
    while i < attributes.len()
        invariant
            i <= attributes.len(),
            small_t@.len() == i,
            forall|j: int| 0 <= j < i ==> (#[trigger] small_t@[j]).0@ == attributes@[j]@,
        decreases attributes.len() - i,
    {
        small_t.push((attributes[i].clone(), crate::groups::sample_fr()));
        i += 1;
    }
    let alpha = crate::groups::sample_fr();

    let pair = rabe_bn::pairing(g, g2);
    let y = pair.pow(alpha);

    let mut big_t: Vec<(String, rabe_bn::G1)> = Vec::new();
    let mut j: usize = 0;
    while j < attributes.len()
        invariant
            j <= attributes.len(),
            big_t@.len() == j,
            small_t@.len() == attributes@.len(),
            forall|m: int| 0 <= m < attributes@.len() ==> (#[trigger] small_t@[m]).0@ == attributes@[m]@,
            forall|m: int| 0 <= m < j ==> (#[trigger] big_t@[m]).0@ == attributes@[m]@,
            forall|m: int| 0 <= m < j ==> (#[trigger] big_t@[m]).1 == g1_mul(g, small_t@[m].1),
        decreases attributes.len() - j,
    {
        big_t.push((attributes[j].clone(), crate::groups::g1_scale(g, small_t[j].1)));
        j += 1;
    }
    proof {
        assert(map_keys(small_t@) =~= strs_view(attributes@));
        assert(map_keys(big_t@) =~= strs_view(attributes@));
    }
    (AbePublicKey { map: pair, g1: g, g2, y, big_t }, AbeMasterKey { alpha, small_t })
}

/// Key generation for a user over the given attribute names: samples
/// the per-user secret, computes `d0 = g2 * (alpha - uid)`, and for
/// each attribute splits `uid` into a mediator half and a user half
/// scaled by the inverse of the attribute's master scalar. Succeeds
/// exactly when every requested name is in the master key with an
/// invertible scalar.
pub fn keygen(
    attributes: &Vec<String>,
    public_key: &AbePublicKey,
    master_key: &AbeMasterKey,
) -> (r: Result<(AbeClientKey, AbeMediatorKey), AbeError>)
    ensures
        r is Ok <==> (forall|i: int|
            0 <= i < attributes@.len() ==> attr_ok(master_key.small_t@, #[trigger] attributes@[i]@)),
        r matches Ok((ck, mk)) ==> {
            &&& map_keys(mk.arr_d_1@) == strs_view(attributes@)
            &&& map_keys(ck.arr_d_2@) == strs_view(attributes@)
            &&& ck.d_0 == g2_mul(public_key.g2, fr_sub(master_key.alpha, ck.unique_secret))
            &&& mk.arr_d_1@.len() == attributes@.len()
            &&& ck.arr_d_2@.len() == attributes@.len()
            &&& exists|us: Seq<rabe_bn::Fr>|
                #[trigger] us.len() == attributes@.len() && (forall|i: int|
                    0 <= i < attributes@.len() ==> half_keys_ok(
                        public_key.g2,
                        ck.unique_secret,
                        inv_of(master_key.small_t@, #[trigger] attributes@[i]@),
                        mk.arr_d_1@[i].1,
                        ck.arr_d_2@[i].1,
                        us[i],
                    ))
        },
{
    let identifier = crate::groups::sample_fr();

    let d_0 = crate::groups::g2_scale(
        public_key.g2,
        crate::groups::fr_diff(master_key.alpha, identifier),
    );

    let mut arr_d_1: Vec<(String, rabe_bn::G2)> = Vec::new();
    let mut arr_d_2: Vec<(String, rabe_bn::G2)> = Vec::new();
    let ghost mut us: Seq<rabe_bn::Fr> = Seq::empty();
    let mut i: usize = 0;
    while i < attributes.len()
        invariant
            i <= attributes.len(),
            arr_d_1@.len() == i,
            arr_d_2@.len() == i,
            forall|j: int| 0 <= j < i ==> attr_ok(master_key.small_t@, #[trigger] attributes@[j]@),
            forall|j: int| 0 <= j < i ==> (#[trigger] arr_d_1@[j]).0@ == attributes@[j]@,
            forall|j: int| 0 <= j < i ==> (#[trigger] arr_d_2@[j]).0@ == attributes@[j]@,
            us.len() == i,
            forall|j: int|
                0 <= j < i ==> half_keys_ok(
                    public_key.g2,
                    identifier,
                    inv_of(master_key.small_t@, #[trigger] attributes@[j]@),
                    arr_d_1@[j].1,
                    arr_d_2@[j].1,
                    us[j],
                ),
        decreases attributes.len() - i,
    {
        let a = &attributes[i];
        let t = match crate::models::map_lookup(&master_key.small_t, a) {
            Some(t) => t,
            None => {
                let msg = String::from_str("Attribute ").concat(a.as_str()).concat(
                    " not found in master key",
                );
                return Err(AbeError::new(msg.as_str()));
            },
        };
        let inverse = match t.inverse() {
            Some(x) => x,
            None => {
                let msg = String::from_str("Could not calculate inverse of ").concat(a.as_str());
                return Err(AbeError::new(msg.as_str()));
            },
        };
        let uj = crate::groups::sample_fr();

        let val1 = crate::groups::g2_scale(public_key.g2, crate::groups::fr_prod(uj, inverse));
        let val2 = crate::groups::g2_scale(
            public_key.g2,
            crate::groups::fr_prod(crate::groups::fr_diff(identifier, uj), inverse),
        );

        arr_d_1.push((a.clone(), val1));
        arr_d_2.push((a.clone(), val2));
        proof {
            us = us.push(uj);
            assert(inverse == inv_of(master_key.small_t@, attributes@[i as int]@));
            assert(half_keys_ok(
                public_key.g2,
                identifier,
                inv_of(master_key.small_t@, attributes@[i as int]@),
                arr_d_1@[i as int].1,
                arr_d_2@[i as int].1,
                us[i as int],
            ));
        }
        i += 1;
    }
    proof {
        assert(map_keys(arr_d_1@) =~= strs_view(attributes@));
        assert(map_keys(arr_d_2@) =~= strs_view(attributes@));
        assert(us.len() == attributes@.len());
    }
    Ok(
        (
            AbeClientKey { unique_secret: identifier, d_0, arr_d_2 },
            AbeMediatorKey { arr_d_1 },
        ),
    )
}

/// Encryption of a payload under a policy tree: samples the root
/// scalar `s`, binds the sampled group secret as `c1 = secret * y^s`,
/// annotates a copy of the tree with secret shares and leaf indices,
/// derives one `G1` share per leaf from the public key, and seals the
/// payload under the secret. The stored tree determines every share:
/// the i-th share carries the i-th leaf's identifier and
/// `T_name * value`. Succeeds whenever every leaf name has an entry in
/// the public key and the payload is within the cipher's length bound.
pub fn encrypt(
    secret: &rabe_bn::Gt,
    message: &Vec<u8>,
    public_key: &AbePublicKey,
    access_tree: &AccessTree,
) -> (r: Result<AbeCipherText, AbeError>)
    requires
        crate::access_tree::leaf_count(access_tree@) <= usize::MAX,
    ensures
        r matches Ok(ct) ==> {
            &&& exists|s_val: rabe_bn::Fr, vt: TreeV|
                {
                    &&& #[trigger] values_assigned(access_tree@, vt, s_val)
                    &&& ct.access_tree@ == with_indices(vt, 0)
                    &&& ct.c_0 == g1_mul(public_key.g1, s_val)
                    &&& ct.c_1 == gt_mul(*secret, gt_pow(public_key.y, s_val))
                }
            &&& ct.arr_c@.len() == leaves_of(ct.access_tree@).len()
            &&& forall|i: int|
                0 <= i < ct.arr_c@.len() ==> {
                    let leaf = leaves_of(ct.access_tree@)[i];
                    &&& (#[trigger] ct.arr_c@[i]).0@ == (IdentV { index: leaf.index, name: leaf.name })
                    &&& leaf.index == Some(i as usize)
                    &&& leaf.value matches Some(v) && map_first(public_key.big_t@, leaf.name)
                        matches Some(t) && ct.arr_c@[i].1 == g1_mul(t, v)
                }
            &&& ct.message@.len() >= 12
            &&& ct.message@.skip(12) == gcm_seal(
                sha3_256(gt_bytes(*secret)),
                ct.message@.take(12),
                message@,
            )
            &&& gcm_open(sha3_256(gt_bytes(*secret)), ct.message@.take(12), ct.message@.skip(12))
                == Some(message@)
        },
        (gcm_plaintext_fits(message@.len()) && (forall|i: int|
            0 <= i < leaves_of(access_tree@).len() ==> map_first(
                public_key.big_t@,
                (#[trigger] leaves_of(access_tree@)[i]).name,
            ) is Some)) ==> r is Ok,
{
    let s = crate::groups::sample_fr();

    let c_0 = crate::groups::g1_scale(public_key.g1, s);

    let c_1 = crate::groups::gt_prod(*secret, public_key.y.pow(s));

    let mut filled_tree = access_tree.assign_values(s, None);
    let ghost vt = filled_tree@;
    let ghost ol = leaves_of(access_tree@);
    proof {
        crate::access_tree::lemma_values_assigned_leaf_count(access_tree@, vt, s);
        crate::access_tree::lemma_values_assigned_leaves(access_tree@, vt, s);
    }
    filled_tree.assign_indices();
    proof {
        crate::access_tree::lemma_leaves_with_indices(vt, 0);
        crate::access_tree::lemma_leaf_count_is_leaves_len(vt);
    }

    let attributes = filled_tree.get_attributes();
    let ghost la = leaves_of(filled_tree@);
    proof {
        assert(la.len() == ol.len());
        assert(forall|j: int|
            0 <= j < la.len() ==> (#[trigger] la[j]).name == leaves_of(vt)[j].name
                && la[j].value == leaves_of(vt)[j].value);
        assert(forall|j: int| 0 <= j < la.len() ==> (#[trigger] la[j]).name == ol[j].name);
        assert(forall|j: int| 0 <= j < la.len() ==> (#[trigger] la[j]).value is Some);
    }
    let mut arr_c: Vec<(AbeIdentifier, rabe_bn::G1)> = Vec::new();
    let mut i: usize = 0;
    while i < attributes.len()
        invariant
            i <= attributes.len(),
            arr_c@.len() == i,
            la == leaves_of(filled_tree@),
            ol == leaves_of(access_tree@),
            attrs_view(attributes@) == la,
            attributes@.len() == la.len(),
            la.len() == ol.len(),
            forall|j: int| 0 <= j < la.len() ==> (#[trigger] la[j]).index == Some(j as usize),
            forall|j: int| 0 <= j < la.len() ==> (#[trigger] la[j]).name == ol[j].name,
            forall|j: int| 0 <= j < la.len() ==> (#[trigger] la[j]).value is Some,
            forall|j: int|
                0 <= j < i ==> {
                    let leaf = la[j];
                    &&& (#[trigger] arr_c@[j]).0@ == (IdentV { index: leaf.index, name: leaf.name })
                    &&& leaf.value matches Some(v) && map_first(public_key.big_t@, leaf.name)
                        matches Some(t) && arr_c@[j].1 == g1_mul(t, v)
                },
        decreases attributes.len() - i,
    {
        let x = &attributes[i];
        proof {
            assert(attrs_view(attributes@)[i as int] == attributes@[i as int]@);
        }
        let value = match x.value {
            Some(v) => v,
            None => {
                proof {
                    assert(attributes@[i as int]@.value is Some);
                    assert(false);
                }
                let msg = String::from_str("Expected value for ").concat(x.name.as_str()).concat(
                    " but got None",
                );
                return Err(AbeError::new(msg.as_str()));
            },
        };
        let t_for_name = match crate::models::map_lookup(&public_key.big_t, &x.name) {
            Some(t) => t,
            None => {
                proof {
                    assert(map_first(public_key.big_t@, ol[i as int].name) is None);
                    assert(!(forall|k: int|
                        0 <= k < ol.len() ==> map_first(
                            public_key.big_t@,
                            (#[trigger] ol[k]).name,
                        ) is Some));
                }
                let msg = String::from_str("Attribute ").concat(x.name.as_str()).concat(
                    " not found in public key",
                );
                return Err(AbeError::new(msg.as_str()));
            },
        };
        arr_c.push(
            (
                AbeIdentifier { index: x.index, name: x.name.clone() },
                crate::groups::g1_scale(t_for_name, value),
            ),
        );
        i += 1;
    }

    let secret_bytes = secret.into_bytes();
    let sealed = match aes::encrypt_symmetric(&secret_bytes, message) {
        Ok(v) => v,
        Err(e) => {
            return Err(e);
        },
    };

    let ct = AbeCipherText {
        access_tree: Box::new(filled_tree),
        c_0,
        c_1,
        arr_c,
        message: sealed,
    };
    proof {
        assert(values_assigned(access_tree@, vt, s) && ct.access_tree@ == with_indices(vt, 0)
            && ct.c_0 == g1_mul(public_key.g1, s) && ct.c_1 == gt_mul(
            *secret,
            gt_pow(public_key.y, s),
        ));
    }
    Ok(ct)
}

/// The mediator's half of decryption: finds the minimal satisfying
/// subset of the names its half-key map covers, and multiplies the
/// pairings of every ciphertext share whose leaf name lies in that
/// subset against the matching half key. Fails exactly when the
/// covered names do not satisfy the policy, or no share matches.
pub fn m_decrypt(cipher_text: &AbeCipherText, secret_key: &AbeMediatorKey) -> (r: Result<
    rabe_bn::Gt,
    AbeError,
>)
    ensures
        r is Ok <==> sat(cipher_text.access_tree@, names_of(key_attrs(secret_key.arr_d_1@)))
            && included_shares(
            shares_view(cipher_text.arr_c@),
            minimal_set_spec(cipher_text.access_tree@, key_attrs(secret_key.arr_d_1@)),
            secret_key.arr_d_1@,
        ).len() > 0,
        r matches Ok(v) ==> v == gt_list_product(
            share_pairings(
                included_shares(
                    shares_view(cipher_text.arr_c@),
                    minimal_set_spec(cipher_text.access_tree@, key_attrs(secret_key.arr_d_1@)),
                    secret_key.arr_d_1@,
                ),
                secret_key.arr_d_1@,
            ),
        ),
        !sat(cipher_text.access_tree@, names_of(key_attrs(secret_key.arr_d_1@))) ==> (r matches
            Err(e) && e.message@ == "Initial attribute set does not satisfy the tree"@),
        (sat(cipher_text.access_tree@, names_of(key_attrs(secret_key.arr_d_1@)))
            && included_shares(
            shares_view(cipher_text.arr_c@),
            minimal_set_spec(cipher_text.access_tree@, key_attrs(secret_key.arr_d_1@)),
            secret_key.arr_d_1@,
        ).len() == 0) ==> (r matches Err(e) && e.message@
            == "Could not calculate product of e(cj,dj)"@),
{
    let ghost tv = cipher_text.access_tree@;
    let ghost d = secret_key.arr_d_1@;
    let mut original_set: Vec<AbeAttribute> = Vec::new();
    let mut i: usize = 0;
    while i < secret_key.arr_d_1.len()
        invariant
            i <= secret_key.arr_d_1@.len(),
            d == secret_key.arr_d_1@,
            original_set@.len() == i,
            forall|j: int| 0 <= j < i ==> (#[trigger] original_set@[j])@ == key_attrs(d)[j],
        decreases secret_key.arr_d_1@.len() - i,
    {
        original_set.push(AbeAttribute::new(secret_key.arr_d_1[i].0.as_str()));
        i += 1;
    }
    proof {
        assert(attrs_view(original_set@) =~= key_attrs(d));
    }

    let minimal_set = match cipher_text.access_tree.find_minimal_set(&original_set) {
        Ok(m) => m,
        Err(e) => {
            return Err(e);
        },
    };
    let ghost mv = attrs_view(minimal_set@);

    let mut product: Option<rabe_bn::Gt> = None;
    let mut k: usize = 0;
    while k < cipher_text.arr_c.len()
        invariant
            k <= cipher_text.arr_c@.len(),
            tv == cipher_text.access_tree@,
            d == secret_key.arr_d_1@,
            mv == attrs_view(minimal_set@),
            mv == minimal_set_spec(tv, key_attrs(d)),
            sat(tv, names_of(key_attrs(d))),
            ({
                let inc = included_shares(shares_view(cipher_text.arr_c@.take(k as int)), mv, d);
                match product {
                    None => inc.len() == 0,
                    Some(acc) => inc.len() > 0 && acc == gt_list_product(share_pairings(inc, d)),
                }
            }),
        decreases cipher_text.arr_c@.len() - k,
    {
        let ident = &cipher_text.arr_c[k].0;
        let c = cipher_text.arr_c[k].1;
        let ghost sv_old = shares_view(cipher_text.arr_c@.take(k as int));
        let ghost inc_old = included_shares(sv_old, mv, d);
        let in_minimal = crate::access_tree::contains_attribute_name(&minimal_set, &ident.name);
        let mut included: bool = false;
        if in_minimal {
            match crate::models::map_lookup(&secret_key.arr_d_1, &ident.name) {
                Some(dj) => {
                    let e = rabe_bn::pairing(c, dj);
                    product = match product {
                        None => Some(e),
                        Some(acc) => Some(crate::groups::gt_prod(acc, e)),
                    };
                    included = true;
                },
                None => {},
            }
        }
        proof {
            reveal(Seq::filter);
            let sv_new = shares_view(cipher_text.arr_c@.take(k + 1));
            let x = (cipher_text.arr_c@[k as int].0@, cipher_text.arr_c@[k as int].1);
            assert(sv_new =~= sv_old.push(x));
            assert(sv_new.drop_last() =~= sv_old);
            assert(sv_new.last() == x);
            let inc_new = included_shares(sv_new, mv, d);
            if included {
                assert(names_of(mv).contains(x.0.name));
                assert(map_first(d, x.0.name) is Some);
                assert(inc_new =~= inc_old.push(x));
                assert(share_pairings(inc_new, d) =~= share_pairings(inc_old, d).push(
                    pair_of(x.1, map_first(d, x.0.name)->Some_0),
                ));
                if inc_old.len() > 0 {
                    assert(share_pairings(inc_new, d).drop_last() =~= share_pairings(inc_old, d));
                }
            } else {
                assert(!(names_of(mv).contains(x.0.name) && map_first(d, x.0.name) is Some));
                assert(inc_new =~= inc_old);
            }
        }
        k += 1;
    }
    proof {
        assert(cipher_text.arr_c@.take(cipher_text.arr_c@.len() as int) =~= cipher_text.arr_c@);
    }
    match product {
        Some(v) => Ok(v),
        None => Err(AbeError::new("Could not calculate product of e(cj,dj)")),
    }
}

/// The value the user recovers before opening the envelope: the
/// pairing of `c0` against `d0`, times the mediator's value, times the
/// user's own share product, inverted and multiplied into `c1`.
pub open spec fn recovered_secret(
    ct: AbeCipherText,
    d_0: rabe_bn::G2,
    arr_d_2: Seq<(String, rabe_bn::G2)>,
    mediated_value: rabe_bn::Gt,
) -> rabe_bn::Gt {
    let w = gt_list_product(
        share_pairings(
            included_shares(
                shares_view(ct.arr_c@),
                minimal_set_spec(ct.access_tree@, key_attrs(arr_d_2)),
                arr_d_2,
            ),
            arr_d_2,
        ),
    );
    gt_mul(
        ct.c_1,
        gt_inv(gt_mul(gt_mul(pair_of(ct.c_0, d_0), mediated_value), w)),
    )
}

/// The user's half of decryption: combines `c0` with `d0`, the
/// mediator's value and the user's own share product to recover the
/// group secret, then opens the payload under it. Succeeds exactly
/// when the user's names satisfy the policy, a share matches, and the
/// payload authenticates under the recovered secret.
pub fn decrypt(
    cipher_text: &AbeCipherText,
    secret_key: &AbeClientKey,
    mediated_value: &rabe_bn::Gt,
) -> (r: Result<AbeDecrypted, AbeError>)
    ensures
        r is Ok <==> sat(cipher_text.access_tree@, names_of(key_attrs(secret_key.arr_d_2@)))
            && included_shares(
            shares_view(cipher_text.arr_c@),
            minimal_set_spec(cipher_text.access_tree@, key_attrs(secret_key.arr_d_2@)),
            secret_key.arr_d_2@,
        ).len() > 0 && cipher_text.message@.len() >= 12 && gcm_open(
            sha3_256(
                gt_bytes(
                    recovered_secret(
                        *cipher_text,
                        secret_key.d_0,
                        secret_key.arr_d_2@,
                        *mediated_value,
                    ),
                ),
            ),
            cipher_text.message@.take(12),
            cipher_text.message@.skip(12),
        ) is Some,
        r matches Ok(dec) ==> {
            &&& dec.secret == recovered_secret(
                *cipher_text,
                secret_key.d_0,
                secret_key.arr_d_2@,
                *mediated_value,
            )
            &&& gcm_open(
                sha3_256(gt_bytes(dec.secret)),
                cipher_text.message@.take(12),
                cipher_text.message@.skip(12),
            ) == Some(dec.message@)
        },
        !sat(cipher_text.access_tree@, names_of(key_attrs(secret_key.arr_d_2@))) ==> (r matches
            Err(e) && e.message@ == "Initial attribute set does not satisfy the tree"@),
        (sat(cipher_text.access_tree@, names_of(key_attrs(secret_key.arr_d_2@)))
            && included_shares(
            shares_view(cipher_text.arr_c@),
            minimal_set_spec(cipher_text.access_tree@, key_attrs(secret_key.arr_d_2@)),
            secret_key.arr_d_2@,
        ).len() == 0) ==> (r matches Err(e) && e.message@
            == "Could not calculate product of e(cj,dj)"@),
{
    let ghost tv = cipher_text.access_tree@;
    let ghost d = secret_key.arr_d_2@;
    let mut original_set: Vec<AbeAttribute> = Vec::new();
    let mut i: usize = 0;
    while i < secret_key.arr_d_2.len()
        invariant
            i <= secret_key.arr_d_2@.len(),
            d == secret_key.arr_d_2@,
            original_set@.len() == i,
            forall|j: int| 0 <= j < i ==> (#[trigger] original_set@[j])@ == key_attrs(d)[j],
        decreases secret_key.arr_d_2@.len() - i,
    {
        original_set.push(AbeAttribute::new(secret_key.arr_d_2[i].0.as_str()));
        i += 1;
    }
    proof {
        assert(attrs_view(original_set@) =~= key_attrs(d));
    }

    let minimal_set = match cipher_text.access_tree.find_minimal_set(&original_set) {
        Ok(m) => m,
        Err(e) => {
            return Err(e);
        },
    };
    let ghost mv = attrs_view(minimal_set@);

    let mut product: Option<rabe_bn::Gt> = None;
    let mut k: usize = 0;
    while k < cipher_text.arr_c.len()
        invariant
            k <= cipher_text.arr_c@.len(),
            tv == cipher_text.access_tree@,
            d == secret_key.arr_d_2@,
            mv == attrs_view(minimal_set@),
            mv == minimal_set_spec(tv, key_attrs(d)),
            sat(tv, names_of(key_attrs(d))),
            ({
                let inc = included_shares(shares_view(cipher_text.arr_c@.take(k as int)), mv, d);
                match product {
                    None => inc.len() == 0,
                    Some(acc) => inc.len() > 0 && acc == gt_list_product(share_pairings(inc, d)),
                }
            }),
        decreases cipher_text.arr_c@.len() - k,
    {
        let ident = &cipher_text.arr_c[k].0;
        let c = cipher_text.arr_c[k].1;
        let ghost sv_old = shares_view(cipher_text.arr_c@.take(k as int));
        let ghost inc_old = included_shares(sv_old, mv, d);
        let in_minimal = crate::access_tree::contains_attribute_name(&minimal_set, &ident.name);
        let mut included: bool = false;
        if in_minimal {
            match crate::models::map_lookup(&secret_key.arr_d_2, &ident.name) {
                Some(dj) => {
                    let e = rabe_bn::pairing(c, dj);
                    product = match product {
                        None => Some(e),
                        Some(acc) => Some(crate::groups::gt_prod(acc, e)),
                    };
                    included = true;
                },
                None => {},
            }
        }
        proof {
            reveal(Seq::filter);
            let sv_new = shares_view(cipher_text.arr_c@.take(k + 1));
            let x = (cipher_text.arr_c@[k as int].0@, cipher_text.arr_c@[k as int].1);
            assert(sv_new =~= sv_old.push(x));
            assert(sv_new.drop_last() =~= sv_old);
            assert(sv_new.last() == x);
            let inc_new = included_shares(sv_new, mv, d);
            if included {
                assert(names_of(mv).contains(x.0.name));
                assert(map_first(d, x.0.name) is Some);
                assert(inc_new =~= inc_old.push(x));
                assert(share_pairings(inc_new, d) =~= share_pairings(inc_old, d).push(
                    pair_of(x.1, map_first(d, x.0.name)->Some_0),
                ));
                if inc_old.len() > 0 {
                    assert(share_pairings(inc_new, d).drop_last() =~= share_pairings(inc_old, d));
                }
            } else {
                assert(!(names_of(mv).contains(x.0.name) && map_first(d, x.0.name) is Some));
                assert(inc_new =~= inc_old);
            }
        }
        k += 1;
    }
    proof {
        assert(cipher_text.arr_c@.take(cipher_text.arr_c@.len() as int) =~= cipher_text.arr_c@);
    }
    let product = match product {
        Some(p) => p,
        None => {
            return Err(AbeError::new("Could not calculate product of e(cj,dj)"));
        },
    };

    let egsga = crate::groups::gt_prod(
        crate::groups::gt_prod(rabe_bn::pairing(cipher_text.c_0, secret_key.d_0), *mediated_value),
        product,
    );

    let m_prime = crate::groups::gt_prod(cipher_text.c_1, crate::groups::gt_invert(&egsga));
    let secret_bytes = m_prime.into_bytes();
    let message_bytes = match aes::decrypt_symmetric(&secret_bytes, &cipher_text.message) {
        Ok(m) => m,
        Err(e) => {
            return Err(e);
        },
    };

    Ok(AbeDecrypted { secret: m_prime, message: message_bytes })
}

/// Distinct ciphertext shares for duplicated policy names: when each
/// share carries the index of its leaf, as `encrypt` ensures, any two
/// shares bear distinct identifiers even where their names coincide.
pub proof fn lemma_ciphertext_shares_distinct(ct: AbeCipherText)
    requires
        ct.arr_c@.len() <= usize::MAX,
        forall|i: int|
            0 <= i < ct.arr_c@.len() ==> (#[trigger] ct.arr_c@[i]).0@.index == Some(i as usize),
    ensures
        forall|i: int, j: int|
            0 <= i < j < ct.arr_c@.len() ==> (#[trigger] ct.arr_c@[i]).0@ != (#[trigger] ct.arr_c@[j]).0@,
{
    assert forall|i: int, j: int| 0 <= i < j < ct.arr_c@.len() implies (#[trigger] ct.arr_c@[i]).0@
        != (#[trigger] ct.arr_c@[j]).0@ by {
        assert(ct.arr_c@[i].0@.index == Some(i as usize));
        assert(ct.arr_c@[j].0@.index == Some(j as usize));
    }
}

} // verus!
