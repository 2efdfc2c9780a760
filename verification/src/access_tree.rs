//! The access-policy tree: a binary tree of AND/OR operators over named
//! attribute leaves, with the algorithms the scheme needs: leaf-index
//! assignment, attribute enumeration, the satisfaction test, the minimal
//! satisfying subset, and secret-sharing value assignment.
use vstd::prelude::*;

use crate::abe_attribute::{AbeAttribute, AttrV};
use crate::errors::abe_error::AbeError;
use crate::groups::fr_sub;

verus! {

#[derive(Clone, Copy, Debug, PartialEq, Eq, Structural)]
pub enum TreeOperator {
    Or,
    And,
}

#[derive(Debug, PartialEq)]
pub struct Operator {
    pub operator: TreeOperator,
    pub left: Box<AccessTree>,
    pub right: Box<AccessTree>,
    pub value: Option<rabe_bn::Fr>,
}

#[derive(Debug, PartialEq)]
pub struct Leaf {
    pub attribute: AbeAttribute,
    pub value: Option<rabe_bn::Fr>,
}

#[derive(Debug, PartialEq)]
pub enum AccessTree {
    Operator(Operator),
    Leaf(Leaf),
}

/// The mathematical content of an access tree.
pub enum TreeV {
    Op { op: TreeOperator, left: Box<TreeV>, right: Box<TreeV>, value: Option<rabe_bn::Fr> },
    Leaf { attribute: AttrV, value: Option<rabe_bn::Fr> },
}

/// The mathematical content of an access tree value.
pub open spec fn tree_view(t: AccessTree) -> TreeV
    decreases t,
{
    match t {
        AccessTree::Operator(o) => TreeV::Op {
            op: o.operator,
            left: Box::new(tree_view(*o.left)),
            right: Box::new(tree_view(*o.right)),
            value: o.value,
        },
        AccessTree::Leaf(l) => TreeV::Leaf { attribute: l.attribute@, value: l.value },
    }
}

impl View for AccessTree {
    type V = TreeV;

    open spec fn view(&self) -> TreeV {
        tree_view(*self)
    }
}

/// The number of leaves of a tree.
pub open spec fn leaf_count(t: TreeV) -> nat
    decreases t,
{
    match t {
        TreeV::Op { left, right, .. } => leaf_count(*left) + leaf_count(*right),
        TreeV::Leaf { .. } => 1,
    }
}

/// The attributes at the leaves of a tree, in depth-first left-to-right
/// order, duplicates preserved.
pub open spec fn leaves_of(t: TreeV) -> Seq<AttrV>
    decreases t,
{
    match t {
        TreeV::Op { left, right, .. } => leaves_of(*left) + leaves_of(*right),
        TreeV::Leaf { attribute, .. } => seq![attribute],
    }
}

/// The names of a sequence of attributes, in order.
pub open spec fn names_of(attrs: Seq<AttrV>) -> Seq<Seq<char>> {
    attrs.map_values(|a: AttrV| a.name)
}

/// The views of a vector of attributes, in order.
pub open spec fn attrs_view(attrs: Seq<AbeAttribute>) -> Seq<AttrV> {
    attrs.map_values(|a: AbeAttribute| a@)
}

/// Whether a set of attribute names satisfies a tree: a leaf asks that
/// its name be present, AND asks for both sides, OR for either side.
pub open spec fn sat(t: TreeV, names: Seq<Seq<char>>) -> bool
    decreases t,
{
    match t {
        TreeV::Op { op, left, right, .. } => match op {
            TreeOperator::And => sat(*left, names) && sat(*right, names),
            TreeOperator::Or => sat(*left, names) || sat(*right, names),
        },
        TreeV::Leaf { attribute, .. } => names.contains(attribute.name),
    }
}

/// The tree with its leaves renumbered 0, 1, ... from `start` in
/// depth-first left-to-right order; names and values are untouched.
pub open spec fn with_indices(t: TreeV, start: nat) -> TreeV
    decreases t,
{
    match t {
        TreeV::Op { op, left, right, value } => TreeV::Op {
            op,
            left: Box::new(with_indices(*left, start)),
            right: Box::new(with_indices(*right, start + leaf_count(*left))),
            value,
        },
        TreeV::Leaf { attribute, value } => TreeV::Leaf {
            attribute: AttrV { index: Some(start as usize), ..attribute },
            value,
        },
    }
}

impl AccessTree {
    /// Renumbers the leaves 0, 1, ... in depth-first left-to-right
    /// order. Idempotent: a second pass assigns the same indices.
    pub fn assign_indices(&mut self)
        requires
            leaf_count(old(self)@) <= usize::MAX,
        ensures
            final(self)@ == with_indices(old(self)@, 0),
    {
        let mut t = AccessTree::Leaf(
            Leaf { attribute: AbeAttribute { index: None, name: String::new(), value: None }, value: None },
        );
        core::mem::swap(self, &mut t);
        let (renumbered, _) = AccessTree::assign_indices_rec(t, 0);
        *self = renumbered;
    }

    fn assign_indices_rec(t: AccessTree, index: usize) -> (r: (AccessTree, usize))
        requires
            index + leaf_count(t@) <= usize::MAX,
        ensures
            r.0@ == with_indices(t@, index as nat),
            r.1 == index + leaf_count(t@),
        decreases t,
    {
        match t {
            AccessTree::Operator(o) => {
                let (left, next) = AccessTree::assign_indices_rec(*o.left, index);
                let (right, last) = AccessTree::assign_indices_rec(*o.right, next);
                (
                    AccessTree::Operator(
                        Operator {
                            operator: o.operator,
                            left: Box::new(left),
                            right: Box::new(right),
                            value: o.value,
                        },
                    ),
                    last,
                )
            },
            AccessTree::Leaf(l) => {
                (
                    AccessTree::Leaf(
                        Leaf {
                            attribute: AbeAttribute { index: Some(index), ..l.attribute },
                            value: l.value,
                        },
                    ),
                    index + 1,
                )
            },
        }
    }

    /// All attributes at the leaves, in depth-first left-to-right order,
    /// duplicates preserved.
    pub fn get_attributes(&self) -> (r: Vec<AbeAttribute>)
        ensures
            attrs_view(r@) == leaves_of(self@),
        decreases *self,
    {
        match self {
            AccessTree::Operator(o) => {
                let mut left_attributes = o.left.get_attributes();
                let mut right_attributes = o.right.get_attributes();
                left_attributes.append(&mut right_attributes);
                proof {
                    assert(attrs_view(left_attributes@) =~= leaves_of(self@));
                }
                left_attributes
            },
            AccessTree::Leaf(l) => {
                let mut v = Vec::new();
                v.push(l.attribute.duplicate());
                proof {
                    assert(attrs_view(v@) =~= leaves_of(self@));
                }
                v
            },
        }
    }

    /// Whether the names of the given attributes satisfy this tree.
    pub fn is_satisfiable(&self, attributes: &Vec<AbeAttribute>) -> (r: bool)
        ensures
            r == sat(self@, names_of(attrs_view(attributes@))),
        decreases *self,
    {
        match self {
            AccessTree::Operator(o) => match o.operator {
                TreeOperator::And => {
                    o.left.is_satisfiable(attributes) && o.right.is_satisfiable(attributes)
                },
                TreeOperator::Or => {
                    o.left.is_satisfiable(attributes) || o.right.is_satisfiable(attributes)
                },
            },
            AccessTree::Leaf(l) => contains_attribute_name(attributes, &l.attribute.name),
        }
    }
}

/// Whether some attribute in the vector bears the given name.
pub fn contains_attribute_name(attributes: &Vec<AbeAttribute>, name: &String) -> (r: bool)
    ensures
        r == names_of(attrs_view(attributes@)).contains(name@),
{
    let ghost names = names_of(attrs_view(attributes@));
    let mut i: usize = 0;
    while i < attributes.len()
        invariant
            i <= attributes.len(),
            names == names_of(attrs_view(attributes@)),
            names.len() == attributes.len(),
            forall|j: int| 0 <= j < i ==> names[j] != name@,
        decreases attributes.len() - i,
    {
        if attributes[i].name == *name {
            proof {
                assert(attrs_view(attributes@)[i as int] == attributes@[i as int]@);
                assert(names[i as int] == name@);
            }
            return true;
        }
        proof {
            assert(attrs_view(attributes@)[i as int] == attributes@[i as int]@);
            assert(names[i as int] != name@);
        }
        i += 1;
    }
    false
}

/// The share value stored at the root node of a tree.
pub open spec fn node_value(t: TreeV) -> Option<rabe_bn::Fr> {
    match t {
        TreeV::Op { value, .. } => value,
        TreeV::Leaf { value, .. } => value,
    }
}

/// How a value-annotated tree arises from a plain one under the
/// secret-sharing scheme with target value `target`: the shape, names
/// and indices are kept; every node and leaf carries `Some(target)`;
/// an OR node hands `target` to both children; an AND node hands some
/// left share `vl` to the left child and `target - vl` to the right.
pub open spec fn values_assigned(orig: TreeV, r: TreeV, target: rabe_bn::Fr) -> bool
    decreases orig,
{
    match (orig, r) {
        (TreeV::Leaf { attribute: a, .. }, TreeV::Leaf { attribute: a2, value: v2 }) => {
            &&& a2.name == a.name
            &&& a2.index == a.index
            &&& v2 == Some(target)
            &&& a2.value == Some(target)
        },
        (
            TreeV::Op { op, left, right, .. },
            TreeV::Op { op: op2, left: l2, right: r2, value: v2 },
        ) => {
            &&& op2 == op
            &&& v2 == Some(target)
            &&& match op {
                TreeOperator::Or => values_assigned(*left, *l2, target) && values_assigned(
                    *right,
                    *r2,
                    target,
                ),
                TreeOperator::And => match node_value(*l2) {
                    Some(vl) => values_assigned(*left, *l2, vl) && values_assigned(
                        *right,
                        *r2,
                        fr_sub(target, vl),
                    ),
                    None => false,
                },
            }
        },
        _ => false,
    }
}

/// Under `values_assigned`, the root of the annotated tree stores
/// exactly the target value.
pub proof fn lemma_assigned_node_value(orig: TreeV, r: TreeV, target: rabe_bn::Fr)
    requires
        values_assigned(orig, r, target),
    ensures
        node_value(r) == Some(target),
{
}

/// Secret-sharing assignment keeps the number of leaves.
pub proof fn lemma_values_assigned_leaf_count(orig: TreeV, r: TreeV, target: rabe_bn::Fr)
    requires
        values_assigned(orig, r, target),
    ensures
        leaf_count(r) == leaf_count(orig),
    decreases orig,
{
    match (orig, r) {
        (
            TreeV::Op { op, left, right, .. },
            TreeV::Op { left: l2, right: r2, .. },
        ) => {
            match op {
                TreeOperator::Or => {
                    lemma_values_assigned_leaf_count(*left, *l2, target);
                    lemma_values_assigned_leaf_count(*right, *r2, target);
                },
                TreeOperator::And => {
                    if let Some(vl) = node_value(*l2) {
                        lemma_values_assigned_leaf_count(*left, *l2, vl);
                        lemma_values_assigned_leaf_count(*right, *r2, fr_sub(target, vl));
                    }
                },
            }
        },
        _ => {},
    }
}

/// Secret-sharing assignment keeps leaf names and indices and stores
/// a value at every leaf.
pub proof fn lemma_values_assigned_leaves(orig: TreeV, r: TreeV, target: rabe_bn::Fr)
    requires
        values_assigned(orig, r, target),
    ensures
        leaves_of(r).len() == leaves_of(orig).len(),
        forall|i: int|
            0 <= i < leaves_of(r).len() ==> {
                &&& (#[trigger] leaves_of(r)[i]).name == leaves_of(orig)[i].name
                &&& leaves_of(r)[i].index == leaves_of(orig)[i].index
                &&& leaves_of(r)[i].value is Some
            },
    decreases orig,
{
    match (orig, r) {
        (
            TreeV::Op { op, left, right, .. },
            TreeV::Op { left: l2, right: r2, .. },
        ) => {
            match op {
                TreeOperator::Or => {
                    lemma_values_assigned_leaves(*left, *l2, target);
                    lemma_values_assigned_leaves(*right, *r2, target);
                },
                TreeOperator::And => {
                    if let Some(vl) = node_value(*l2) {
                        lemma_values_assigned_leaves(*left, *l2, vl);
                        lemma_values_assigned_leaves(*right, *r2, fr_sub(target, vl));
                    }
                },
            }
            assert(leaves_of(r) =~= leaves_of(*l2) + leaves_of(*r2));
            assert(leaves_of(orig) =~= leaves_of(*left) + leaves_of(*right));
            assert forall|i: int| 0 <= i < leaves_of(r).len() implies {
                &&& (#[trigger] leaves_of(r)[i]).name == leaves_of(orig)[i].name
                &&& leaves_of(r)[i].index == leaves_of(orig)[i].index
                &&& leaves_of(r)[i].value is Some
            } by {
                if i < leaves_of(*l2).len() {
                    assert(leaves_of(r)[i] == leaves_of(*l2)[i]);
                    assert(leaves_of(orig)[i] == leaves_of(*left)[i]);
                } else {
                    assert(leaves_of(r)[i] == leaves_of(*r2)[i - leaves_of(*l2).len()]);
                    assert(leaves_of(orig)[i] == leaves_of(*right)[i - leaves_of(*left).len()]);
                }
            }
        },
        _ => {},
    }
}

/// A tree has as many leaf attributes as leaves.
pub proof fn lemma_leaf_count_is_leaves_len(t: TreeV)
    ensures
        leaf_count(t) == leaves_of(t).len(),
    decreases t,
{
    match t {
        TreeV::Op { left, right, .. } => {
            lemma_leaf_count_is_leaves_len(*left);
            lemma_leaf_count_is_leaves_len(*right);
        },
        TreeV::Leaf { .. } => {},
    }
}

/// Renumbering the leaves from `start` keeps their names and values
/// and gives the i-th leaf the index `start + i`.
pub proof fn lemma_leaves_with_indices(t: TreeV, start: nat)
    requires
        start + leaf_count(t) <= usize::MAX,
    ensures
        leaves_of(with_indices(t, start)).len() == leaves_of(t).len(),
        forall|i: int|
            0 <= i < leaves_of(t).len() ==> leaves_of(with_indices(t, start))[i] == (AttrV {
                index: Some((start + i) as usize),
                name: leaves_of(t)[i].name,
                value: leaves_of(t)[i].value,
            }),
    decreases t,
{
    lemma_leaf_count_is_leaves_len(t);
    match t {
        TreeV::Op { left, right, .. } => {
            lemma_leaf_count_is_leaves_len(*left);
            lemma_leaf_count_is_leaves_len(*right);
            lemma_leaves_with_indices(*left, start);
            lemma_leaves_with_indices(*right, start + leaf_count(*left));
            let la = leaves_of(with_indices(t, start));
            let ll = leaves_of(with_indices(*left, start));
            let lr = leaves_of(with_indices(*right, start + leaf_count(*left)));
            assert(la =~= ll + lr);
            assert(leaves_of(t) =~= leaves_of(*left) + leaves_of(*right));
            assert forall|i: int| 0 <= i < leaves_of(t).len() implies la[i] == (AttrV {
                index: Some((start + i) as usize),
                name: leaves_of(t)[i].name,
                value: leaves_of(t)[i].value,
            }) by {
                if i < ll.len() {
                    assert(la[i] == ll[i]);
                } else {
                    assert(la[i] == lr[i - ll.len()]);
                }
            }
        },
        TreeV::Leaf { .. } => {},
    }
}

impl AccessTree {
    /// A copy of this tree annotated with secret shares: the root
    /// receives `to_set` (or `s` when `to_set` is absent), an OR node
    /// passes its value to both children, and an AND node splits its
    /// value into a freshly sampled left share and the complementary
    /// right share.
    pub fn assign_values(&self, s: rabe_bn::Fr, to_set: Option<rabe_bn::Fr>) -> (r: AccessTree)
        ensures
            values_assigned(
                self@,
                r@,
                match to_set {
                    Some(v) => v,
                    None => s,
                },
            ),
        decreases *self,
    {
        let target = match to_set {
            Some(v) => v,
            None => s,
        };
        match self {
            AccessTree::Operator(o) => {
                if o.operator == TreeOperator::Or {
                    let left = o.left.assign_values(s, Some(target));
                    let right = o.right.assign_values(s, Some(target));
                    AccessTree::Operator(
                        Operator {
                            value: Some(target),
                            operator: o.operator,
                            left: Box::new(left),
                            right: Box::new(right),
                        },
                    )
                } else {
                    let s_i1 = crate::groups::sample_fr();
                    let s_i2 = crate::groups::fr_diff(target, s_i1);
                    let left = o.left.assign_values(s, Some(s_i1));
                    let right = o.right.assign_values(s, Some(s_i2));
                    let out = AccessTree::Operator(
                        Operator {
                            value: Some(target),
                            operator: o.operator,
                            left: Box::new(left),
                            right: Box::new(right),
                        },
                    );
                    proof {
                        assert(o.operator is And);
                        lemma_assigned_node_value(tree_view(*o.left), tree_view(left), s_i1);
                        assert(values_assigned(self@, out@, target));
                    }
                    out
                }
            },
            AccessTree::Leaf(l) => AccessTree::Leaf(
                Leaf {
                    value: Some(target),
                    attribute: AbeAttribute {
                        index: l.attribute.index,
                        name: l.attribute.name.clone(),
                        value: Some(target),
                    },
                },
            ),
        }
    }
}

/// The views of a vector of candidate subsets, each itself a vector of
/// attributes.
pub open spec fn subsets_view(s: Seq<Vec<AbeAttribute>>) -> Seq<Seq<AttrV>> {
    s.map_values(|v: Vec<AbeAttribute>| attrs_view(v@))
}

/// All k-element combinations of a sequence, each keeping the input
/// order, enumerated so that combinations containing an earlier element
/// come before those that skip it.
pub open spec fn combos(s: Seq<AttrV>, k: nat) -> Seq<Seq<AttrV>>
    decreases s.len(), k,
{
    if k == 0 {
        seq![Seq::<AttrV>::empty()]
    } else if s.len() < k {
        Seq::<Seq<AttrV>>::empty()
    } else {
        combos(s.drop_first(), (k - 1) as nat).map_values(|c: Seq<AttrV>| seq![s[0]] + c)
            + combos(s.drop_first(), k)
    }
}

/// The combinations of all sizes 1 through `k`, smaller sizes first.
pub open spec fn enum_upto(s: Seq<AttrV>, k: nat) -> Seq<Seq<AttrV>>
    decreases k,
{
    if k == 0 {
        Seq::<Seq<AttrV>>::empty()
    } else {
        enum_upto(s, (k - 1) as nat) + combos(s, k)
    }
}

/// Every non-empty proper subset of the candidate sequence, in the
/// order the minimal-set search visits them: increasing size, and
/// within one size the order of `combos`.
pub open spec fn subsets_in_order(s: Seq<AttrV>) -> Seq<Seq<AttrV>> {
    if s.len() == 0 {
        Seq::<Seq<AttrV>>::empty()
    } else {
        enum_upto(s, (s.len() - 1) as nat)
    }
}

/// The first entry of the list whose names satisfy the tree, if any.
pub open spec fn first_satisfying(t: TreeV, list: Seq<Seq<AttrV>>) -> Option<Seq<AttrV>>
    decreases list.len(),
{
    if list.len() == 0 {
        None
    } else if sat(t, names_of(list[0])) {
        Some(list[0])
    } else {
        first_satisfying(t, list.drop_first())
    }
}

/// The minimal satisfying subset of a candidate sequence: the first
/// satisfying entry of the ordered enumeration of proper subsets, or
/// the whole sequence when no proper subset satisfies.
pub open spec fn minimal_set_spec(t: TreeV, attrs: Seq<AttrV>) -> Seq<AttrV> {
    match first_satisfying(t, subsets_in_order(attrs)) {
        Some(c) => c,
        None => attrs,
    }
}

/// Searching a concatenation finds the first hit of the front part, or
/// else the first hit of the back part.
proof fn lemma_first_sat_append(t: TreeV, a: Seq<Seq<AttrV>>, b: Seq<Seq<AttrV>>)
    ensures
        first_satisfying(t, a + b) == if first_satisfying(t, a) is Some {
            first_satisfying(t, a)
        } else {
            first_satisfying(t, b)
        },
    decreases a.len(),
{
    if a.len() == 0 {
        assert(a + b =~= b);
    } else {
        assert((a + b)[0] == a[0]);
        if !sat(t, names_of(a[0])) {
            assert((a + b).drop_first() =~= a.drop_first() + b);
            lemma_first_sat_append(t, a.drop_first(), b);
        }
    }
}

/// A hit among the subsets of size at most `k1` stays the overall first
/// hit when larger sizes up to `k2` are appended.
proof fn lemma_enum_upto_extend(t: TreeV, s: Seq<AttrV>, k1: nat, k2: nat)
    requires
        k1 <= k2,
        first_satisfying(t, enum_upto(s, k1)) is Some,
    ensures
        first_satisfying(t, enum_upto(s, k2)) == first_satisfying(t, enum_upto(s, k1)),
    decreases k2,
{
    if k1 < k2 {
        lemma_enum_upto_extend(t, s, k1, (k2 - 1) as nat);
        lemma_first_sat_append(t, enum_upto(s, (k2 - 1) as nat), combos(s, k2));
    }
}

/// A copy of a vector of attributes with the same views.
pub fn duplicate_attributes(attrs: &Vec<AbeAttribute>) -> (r: Vec<AbeAttribute>)
    ensures
        attrs_view(r@) == attrs_view(attrs@),
{
    let mut r: Vec<AbeAttribute> = Vec::new();
    let mut i: usize = 0;
    while i < attrs.len()
        invariant
            i <= attrs.len(),
            r@.len() == i,
            forall|j: int| 0 <= j < i ==> r@[j]@ == attrs@[j]@,
        decreases attrs.len() - i,
    {
        r.push(attrs[i].duplicate());
        i += 1;
    }
    proof {
        assert(attrs_view(r@) =~= attrs_view(attrs@));
    }
    r
}

/// A vector holding `first` followed by copies of `rest`.
fn attrs_with_first(first: &AbeAttribute, rest: &Vec<AbeAttribute>) -> (r: Vec<AbeAttribute>)
    ensures
        attrs_view(r@) == seq![first@] + attrs_view(rest@),
{
    let mut r: Vec<AbeAttribute> = Vec::new();
    r.push(first.duplicate());
    let mut i: usize = 0;
    while i < rest.len()
        invariant
            i <= rest.len(),
            r@.len() == i + 1,
            r@[0]@ == first@,
            forall|j: int| 0 <= j < i ==> r@[j + 1]@ == rest@[j]@,
        decreases rest.len() - i,
    {
        r.push(rest[i].duplicate());
        i += 1;
    }
    proof {
        assert(attrs_view(r@) =~= seq![first@] + attrs_view(rest@));
    }
    r
}

/// All k-element combinations of the attributes from position `start`
/// on, in the order of `combos`.
fn combinations_from(attributes: &Vec<AbeAttribute>, start: usize, k: usize) -> (r: Vec<
    Vec<AbeAttribute>,
>)
    requires
        start <= attributes.len(),
    ensures
        subsets_view(r@) == combos(attrs_view(attributes@).skip(start as int), k as nat),
    decreases attributes.len() - start, k,
{
    let ghost tail = attrs_view(attributes@).skip(start as int);
    if k == 0 {
        let mut r: Vec<Vec<AbeAttribute>> = Vec::new();
        r.push(Vec::new());
        proof {
            assert(subsets_view(r@) =~~= combos(tail, 0));
        }
        r
    } else if attributes.len() - start < k {
        let r: Vec<Vec<AbeAttribute>> = Vec::new();
        proof {
            assert(subsets_view(r@) =~~= combos(tail, k as nat));
        }
        r
    } else {
        let ghost tail2 = attrs_view(attributes@).skip(start as int + 1);
        proof {
            assert(tail.drop_first() =~= tail2);
            assert(tail[0] == attributes@[start as int]@);
        }
        let first = &attributes[start];
        let with_first_sub = combinations_from(attributes, start + 1, k - 1);
        let ghost ws = subsets_view(with_first_sub@);
        let mut r: Vec<Vec<AbeAttribute>> = Vec::new();
        let mut i: usize = 0;
        while i < with_first_sub.len()
            invariant
                i <= with_first_sub.len(),
                r@.len() == i,
                ws == subsets_view(with_first_sub@),
                ws.len() == with_first_sub@.len(),
                first@ == attrs_view(attributes@).skip(start as int)[0],
                forall|j: int| 0 <= j < i ==> attrs_view(#[trigger] r@[j]@) == seq![first@] + ws[j],
            decreases with_first_sub.len() - i,
        {
            let c = attrs_with_first(first, &with_first_sub[i]);
            proof {
                assert(ws[i as int] == attrs_view(with_first_sub@[i as int]@));
            }
            r.push(c);
            i += 1;
        }
        let mut without = combinations_from(attributes, start + 1, k);
        let ghost built = subsets_view(r@);
        proof {
            assert(forall|j: int|
                0 <= j < built.len() ==> #[trigger] built[j] == attrs_view(r@[j]@));
            assert(built =~= combos(tail2, (k - 1) as nat).map_values(
                |c: Seq<AttrV>| seq![tail[0]] + c,
            ));
        }
        let ghost r_before = r@;
        let ghost w_before = without@;
        r.append(&mut without);
        proof {
            assert(r@ == r_before + w_before);
            assert(subsets_view(r@) =~= built + subsets_view(w_before));
            assert(combos(tail, k as nat) == combos(tail.drop_first(), (k - 1) as nat).map_values(
                |c: Seq<AttrV>| seq![tail[0]] + c,
            ) + combos(tail.drop_first(), k as nat));
            assert(subsets_view(r@) =~= combos(tail, k as nat));
        }
        r
    }
}

impl AccessTree {
    /// The minimal satisfying subset of the given candidate attributes:
    /// the first satisfying entry in the size-then-order enumeration of
    /// non-empty proper subsets, or the candidates themselves when no
    /// proper subset satisfies. Fails exactly when the candidates do
    /// not satisfy the tree.
    pub fn find_minimal_set(&self, attributes: &Vec<AbeAttribute>) -> (r: Result<
        Vec<AbeAttribute>,
        AbeError,
    >)
        ensures
            r is Ok <==> sat(self@, names_of(attrs_view(attributes@))),
            r matches Ok(m) ==> attrs_view(m@) == minimal_set_spec(
                self@,
                attrs_view(attributes@),
            ),
            r matches Err(e) ==> e.message@ == "Initial attribute set does not satisfy the tree"@,
    {
        let ghost tv = self@;
        let ghost av = attrs_view(attributes@);
        if !self.is_satisfiable(attributes) {
            return Err(AbeError::new("Initial attribute set does not satisfy the tree"));
        }
        let mut k: usize = 1;
        while k < attributes.len()
            invariant
                1 <= k,
                k <= attributes.len() || k == 1,
                tv == self@,
                av == attrs_view(attributes@),
                av.len() == attributes@.len(),
                sat(tv, names_of(av)),
                first_satisfying(tv, enum_upto(av, (k - 1) as nat)) is None,
            decreases attributes.len() - k,
        {
            let combos_k = combinations_from(attributes, 0, k);
            let ghost cs = subsets_view(combos_k@);
            proof {
                assert(attrs_view(attributes@).skip(0) =~= av);
                assert(cs == combos(av, k as nat));
            }
            let mut i: usize = 0;
            while i < combos_k.len()
                invariant
                    i <= combos_k.len(),
                    1 <= k < attributes@.len(),
                    tv == self@,
                    av == attrs_view(attributes@),
                    av.len() == attributes@.len(),
                    cs == subsets_view(combos_k@),
                    cs.len() == combos_k@.len(),
                    cs == combos(av, k as nat),
                    sat(tv, names_of(av)),
                    first_satisfying(tv, enum_upto(av, (k - 1) as nat)) is None,
                    first_satisfying(tv, cs.take(i as int)) is None,
                decreases combos_k.len() - i,
            {
                if self.is_satisfiable(&combos_k[i]) {
                    let found = duplicate_attributes(&combos_k[i]);
                    proof {
                        assert(cs[i as int] == attrs_view(combos_k@[i as int]@));
                        assert(cs =~= cs.take(i as int) + cs.skip(i as int));
                        lemma_first_sat_append(tv, cs.take(i as int), cs.skip(i as int));
                        assert(cs.skip(i as int)[0] == cs[i as int]);
                        assert(sat(tv, names_of(cs[i as int])));
                        assert(first_satisfying(tv, cs.skip(i as int)) == Some(cs[i as int]));
                        assert(first_satisfying(tv, cs) == Some(cs[i as int]));
                        assert(enum_upto(av, k as nat) == enum_upto(av, (k - 1) as nat) + combos(
                            av,
                            k as nat,
                        ));
                        lemma_first_sat_append(tv, enum_upto(av, (k - 1) as nat), cs);
                        assert(first_satisfying(tv, enum_upto(av, k as nat)) == Some(
                            cs[i as int],
                        ));
                        lemma_enum_upto_extend(
                            tv,
                            av,
                            k as nat,
                            (av.len() - 1) as nat,
                        );
                        assert(minimal_set_spec(tv, av) == cs[i as int]);
                    }
                    return Ok(found);
                }
                proof {
                    assert(cs[i as int] == attrs_view(combos_k@[i as int]@));
                    assert(cs.take(i + 1) =~= cs.take(i as int) + seq![cs[i as int]]);
                    lemma_first_sat_append(tv, cs.take(i as int), seq![cs[i as int]]);
                    assert(!sat(tv, names_of(cs[i as int])));
                    assert(seq![cs[i as int]].drop_first() =~= Seq::<Seq<AttrV>>::empty());
                    assert(first_satisfying(tv, Seq::<Seq<AttrV>>::empty()) is None);
                    assert(first_satisfying(tv, seq![cs[i as int]]) is None);
                }
                i += 1;
            }
            proof {
                assert(cs.take(combos_k@.len() as int) =~= cs);
                assert(enum_upto(av, k as nat) == enum_upto(av, (k - 1) as nat) + combos(
                    av,
                    k as nat,
                ));
                lemma_first_sat_append(tv, enum_upto(av, (k - 1) as nat), cs);
            }
            k += 1;
        }
        let whole = duplicate_attributes(attributes);
        proof {
            if av.len() == 0 {
                assert(first_satisfying(tv, subsets_in_order(av)) is None);
            } else {
                assert(k == attributes.len());
                assert(first_satisfying(tv, enum_upto(av, (av.len() - 1) as nat)) is None);
            }
            assert(minimal_set_spec(tv, av) == av);
        }
        Ok(whole)
    }
}

/// A policy that repeats one attribute name on both sides of an AND is
/// satisfied by that name alone: both leaves ask only for the name.
pub proof fn lemma_duplicate_name_satisfiable(
    a1: AttrV,
    a2: AttrV,
    v1: Option<rabe_bn::Fr>,
    v2: Option<rabe_bn::Fr>,
    names: Seq<Seq<char>>,
)
    requires
        a1.name == a2.name,
        names.contains(a1.name),
    ensures
        sat(
            TreeV::Op {
                op: TreeOperator::And,
                left: Box::new(TreeV::Leaf { attribute: a1, value: v1 }),
                right: Box::new(TreeV::Leaf { attribute: a2, value: v2 }),
                value: None,
            },
            names,
        ),
{
    let t = TreeV::Op {
        op: TreeOperator::And,
        left: Box::new(TreeV::Leaf { attribute: a1, value: v1 }),
        right: Box::new(TreeV::Leaf { attribute: a2, value: v2 }),
        value: None,
    };
    assert(sat(TreeV::Leaf { attribute: a1, value: v1 }, names));
    assert(sat(TreeV::Leaf { attribute: a2, value: v2 }, names));
    assert(sat(t, names));
}

/// After index assignment, leaves with identical names still receive
/// distinct indices: the i-th leaf carries index `start + i`.
pub proof fn lemma_indices_distinct(t: TreeV, start: nat)
    requires
        start + leaf_count(t) <= usize::MAX,
    ensures
        forall|i: int, j: int|
            0 <= i < j < leaves_of(with_indices(t, start)).len()
                ==> (#[trigger] leaves_of(with_indices(t, start))[i]).index != (#[trigger] leaves_of(
                with_indices(t, start),
            )[j]).index,
{
    lemma_leaf_count_is_leaves_len(t);
    lemma_leaves_with_indices(t, start);
}

/// Whether `a` is an order-preserving selection from `b`.
pub open spec fn is_subseq<T>(a: Seq<T>, b: Seq<T>) -> bool
    decreases b.len(), a.len(),
{
    if a.len() == 0 {
        true
    } else if b.len() == 0 {
        false
    } else {
        (a[0] == b[0] && is_subseq(a.drop_first(), b.drop_first())) || is_subseq(
            a,
            b.drop_first(),
        )
    }
}

proof fn lemma_subseq_len<T>(a: Seq<T>, b: Seq<T>)
    requires
        is_subseq(a, b),
    ensures
        a.len() <= b.len(),
    decreases b.len(), a.len(),
{
    if a.len() > 0 && b.len() > 0 {
        if a[0] == b[0] && is_subseq(a.drop_first(), b.drop_first()) {
            lemma_subseq_len(a.drop_first(), b.drop_first());
        } else {
            lemma_subseq_len(a, b.drop_first());
        }
    }
}

proof fn lemma_subseq_eq_len<T>(a: Seq<T>, b: Seq<T>)
    requires
        is_subseq(a, b),
        a.len() == b.len(),
    ensures
        a == b,
    decreases b.len(),
{
    if a.len() > 0 {
        if is_subseq(a, b.drop_first()) {
            lemma_subseq_len(a, b.drop_first());
            assert(false);
        }
        lemma_subseq_eq_len(a.drop_first(), b.drop_first());
        assert(forall|i: int| 1 <= i < a.len() ==> a[i] == a.drop_first()[i - 1]);
        assert(forall|i: int| 1 <= i < b.len() ==> b[i] == b.drop_first()[i - 1]);
        assert(a =~= b);
    } else {
        assert(a =~= b);
    }
}

proof fn lemma_subseq_refl<T>(a: Seq<T>)
    ensures
        is_subseq(a, a),
    decreases a.len(),
{
    if a.len() > 0 {
        lemma_subseq_refl(a.drop_first());
    }
}

proof fn lemma_subseq_trans<T>(a: Seq<T>, b: Seq<T>, c: Seq<T>)
    requires
        is_subseq(a, b),
        is_subseq(b, c),
    ensures
        is_subseq(a, c),
    decreases c.len(), b.len(), a.len(),
{
    if a.len() == 0 {
    } else if b.len() == 0 {
    } else if c.len() == 0 {
    } else {
        if b[0] == c[0] && is_subseq(b.drop_first(), c.drop_first()) {
            if a[0] == b[0] && is_subseq(a.drop_first(), b.drop_first()) {
                lemma_subseq_trans(a.drop_first(), b.drop_first(), c.drop_first());
            } else {
                lemma_subseq_trans(a, b.drop_first(), c.drop_first());
            }
        } else {
            lemma_subseq_trans(a, b, c.drop_first());
        }
    }
}

proof fn lemma_subseq_contains<T>(a: Seq<T>, b: Seq<T>, x: T)
    requires
        is_subseq(a, b),
        a.contains(x),
    ensures
        b.contains(x),
    decreases b.len(),
{
    if a.len() > 0 && b.len() > 0 {
        if a[0] == b[0] && is_subseq(a.drop_first(), b.drop_first()) {
            if a[0] == x {
                assert(b[0] == x);
            } else {
                let i = choose|i: int| 0 <= i < a.len() && a[i] == x;
                assert(a.drop_first()[i - 1] == x);
                assert(a.drop_first().contains(x));
                lemma_subseq_contains(a.drop_first(), b.drop_first(), x);
                let j = choose|j: int| 0 <= j < b.drop_first().len() && b.drop_first()[j] == x;
                assert(b[j + 1] == x);
            }
        } else {
            lemma_subseq_contains(a, b.drop_first(), x);
            let j = choose|j: int| 0 <= j < b.drop_first().len() && b.drop_first()[j] == x;
            assert(b[j + 1] == x);
        }
    }
}

proof fn lemma_subseq_concat<T>(a1: Seq<T>, a2: Seq<T>, b1: Seq<T>, b2: Seq<T>)
    requires
        is_subseq(a1, b1),
        is_subseq(a2, b2),
    ensures
        is_subseq(a1 + a2, b1 + b2),
    decreases b1.len(), a1.len(),
{
    if a1.len() == 0 {
        assert(a1 + a2 =~= a2);
        lemma_subseq_pad_left(a2, b1, b2);
    } else if b1.len() == 0 {
    } else {
        if a1[0] == b1[0] && is_subseq(a1.drop_first(), b1.drop_first()) {
            lemma_subseq_concat(a1.drop_first(), a2, b1.drop_first(), b2);
            assert((a1 + a2).drop_first() =~= a1.drop_first() + a2);
            assert((b1 + b2).drop_first() =~= b1.drop_first() + b2);
            assert((a1 + a2)[0] == (b1 + b2)[0]);
        } else {
            lemma_subseq_concat(a1, a2, b1.drop_first(), b2);
            assert((b1 + b2).drop_first() =~= b1.drop_first() + b2);
        }
    }
}

proof fn lemma_subseq_pad_left<T>(a: Seq<T>, b1: Seq<T>, b2: Seq<T>)
    requires
        is_subseq(a, b2),
    ensures
        is_subseq(a, b1 + b2),
    decreases b1.len(),
{
    if b1.len() == 0 {
        assert(b1 + b2 =~= b2);
    } else {
        if a.len() == 0 {
        } else {
            lemma_subseq_pad_left(a, b1.drop_first(), b2);
            assert((b1 + b2).drop_first() =~= b1.drop_first() + b2);
        }
    }
}

proof fn lemma_subseq_pad_right<T>(a: Seq<T>, b1: Seq<T>, b2: Seq<T>)
    requires
        is_subseq(a, b1),
    ensures
        is_subseq(a, b1 + b2),
{
    lemma_subseq_concat(a, Seq::<T>::empty(), b1, b2);
    assert(a + Seq::<T>::empty() =~= a);
}

proof fn lemma_combos_elem_len(s: Seq<AttrV>, k: nat)
    ensures
        forall|i: int| 0 <= i < combos(s, k).len() ==> (#[trigger] combos(s, k)[i]).len() == k,
    decreases s.len(), k,
{
    if k == 0 {
    } else if s.len() < k {
    } else {
        lemma_combos_elem_len(s.drop_first(), (k - 1) as nat);
        lemma_combos_elem_len(s.drop_first(), k);
        let m = combos(s.drop_first(), (k - 1) as nat).map_values(
            |c: Seq<AttrV>| seq![s[0]] + c,
        );
        assert(forall|i: int| 0 <= i < m.len() ==> (#[trigger] m[i]).len() == k);
        assert(forall|i: int|
            0 <= i < combos(s, k).len() ==> combos(s, k)[i] == if i < m.len() {
                m[i]
            } else {
                combos(s.drop_first(), k)[i - m.len()]
            });
    }
}

proof fn lemma_cons_subseq(x: AttrV, c: Seq<AttrV>, t: Seq<AttrV>)
    requires
        is_subseq(c, t),
    ensures
        is_subseq(seq![x] + c, seq![x] + t),
{
    let a = seq![x] + c;
    let b = seq![x] + t;
    assert(a[0] == b[0]);
    assert(a.drop_first() =~= c);
    assert(b.drop_first() =~= t);
}

proof fn lemma_combos_elem_subseq(s: Seq<AttrV>, k: nat)
    ensures
        forall|i: int|
            0 <= i < combos(s, k).len() ==> is_subseq(#[trigger] combos(s, k)[i], s),
    decreases s.len(), k,
{
    if k == 0 {
        assert(combos(s, 0) == seq![Seq::<AttrV>::empty()]);
        assert(is_subseq(Seq::<AttrV>::empty(), s));
    } else if s.len() < k {
    } else {
        lemma_combos_elem_subseq(s.drop_first(), (k - 1) as nat);
        lemma_combos_elem_subseq(s.drop_first(), k);
        let m = combos(s.drop_first(), (k - 1) as nat).map_values(
            |c: Seq<AttrV>| seq![s[0]] + c,
        );
        assert forall|i: int| 0 <= i < combos(s, k).len() implies is_subseq(
            #[trigger] combos(s, k)[i],
            s,
        ) by {
            if i < m.len() {
                let c = combos(s.drop_first(), (k - 1) as nat)[i];
                assert(combos(s, k)[i] == m[i]);
                assert(m[i] == seq![s[0]] + c);
                lemma_cons_subseq(s[0], c, s.drop_first());
                assert(seq![s[0]] + s.drop_first() =~= s);
            } else {
                let c = combos(s.drop_first(), k)[i - m.len()];
                assert(combos(s, k)[i] == c);
                assert(is_subseq(c, s.drop_first()));
                lemma_subseq_pad_left(c, seq![s[0]], s.drop_first());
                assert(seq![s[0]] + s.drop_first() =~= s);
            }
        }
    }
}

proof fn lemma_combos_complete(w: Seq<AttrV>, s: Seq<AttrV>, k: nat)
    requires
        is_subseq(w, s),
        w.len() == k,
    ensures
        combos(s, k).contains(w),
    decreases s.len(),
{
    if k == 0 {
        assert(combos(s, 0)[0] =~= w);
        assert(combos(s, 0).contains(w));
    } else {
        lemma_subseq_len(w, s);
        if w[0] == s[0] && is_subseq(w.drop_first(), s.drop_first()) {
            lemma_combos_complete(w.drop_first(), s.drop_first(), (k - 1) as nat);
            let sub = combos(s.drop_first(), (k - 1) as nat);
            let i = choose|i: int| 0 <= i < sub.len() && sub[i] == w.drop_first();
            let m = sub.map_values(|c: Seq<AttrV>| seq![s[0]] + c);
            assert(m[i] == seq![s[0]] + w.drop_first());
            assert(seq![s[0]] + w.drop_first() =~= w);
            assert(combos(s, k)[i] == m[i]);
            assert(combos(s, k).contains(w));
        } else {
            assert(is_subseq(w, s.drop_first()));
            lemma_combos_complete(w, s.drop_first(), k);
            let rest = combos(s.drop_first(), k);
            let i = choose|i: int| 0 <= i < rest.len() && rest[i] == w;
            let m = combos(s.drop_first(), (k - 1) as nat).map_values(
                |c: Seq<AttrV>| seq![s[0]] + c,
            );
            assert(combos(s, k)[m.len() + i] == w);
            assert(combos(s, k).contains(w));
        }
    }
}

proof fn lemma_combos_subseq(u: Seq<AttrV>, v: Seq<AttrV>, k: nat)
    requires
        is_subseq(u, v),
    ensures
        is_subseq(combos(u, k), combos(v, k)),
    decreases v.len(), k,
{
    if k == 0 {
        lemma_subseq_refl(combos(u, 0));
        assert(combos(u, 0) == combos(v, 0));
    } else if u.len() < k {
        assert(combos(u, k) == Seq::<Seq<AttrV>>::empty());
    } else {
        lemma_subseq_len(u, v);
        if u.len() > 0 && v.len() > 0 && u[0] == v[0] && is_subseq(
            u.drop_first(),
            v.drop_first(),
        ) {
            lemma_combos_subseq(u.drop_first(), v.drop_first(), (k - 1) as nat);
            lemma_combos_subseq(u.drop_first(), v.drop_first(), k);
            let mu = combos(u.drop_first(), (k - 1) as nat).map_values(
                |c: Seq<AttrV>| seq![u[0]] + c,
            );
            let mv = combos(v.drop_first(), (k - 1) as nat).map_values(
                |c: Seq<AttrV>| seq![v[0]] + c,
            );
            lemma_map_cons_subseq(
                combos(u.drop_first(), (k - 1) as nat),
                combos(v.drop_first(), (k - 1) as nat),
                u[0],
            );
            assert(mv == combos(v.drop_first(), (k - 1) as nat).map_values(
                |c: Seq<AttrV>| seq![u[0]] + c,
            )) by {
                assert(mv =~= combos(v.drop_first(), (k - 1) as nat).map_values(
                    |c: Seq<AttrV>| seq![u[0]] + c,
                ));
            }
            lemma_subseq_concat(mu, combos(u.drop_first(), k), mv, combos(v.drop_first(), k));
        } else {
            assert(is_subseq(u, v.drop_first()));
            lemma_combos_subseq(u, v.drop_first(), k);
            let mv = combos(v.drop_first(), (k - 1) as nat).map_values(
                |c: Seq<AttrV>| seq![v[0]] + c,
            );
            lemma_subseq_pad_left(combos(u, k), mv, combos(v.drop_first(), k));
        }
    }
}

proof fn lemma_map_cons_subseq(a: Seq<Seq<AttrV>>, b: Seq<Seq<AttrV>>, x: AttrV)
    requires
        is_subseq(a, b),
    ensures
        is_subseq(
            a.map_values(|c: Seq<AttrV>| seq![x] + c),
            b.map_values(|c: Seq<AttrV>| seq![x] + c),
        ),
    decreases b.len(), a.len(),
{
    let fa = a.map_values(|c: Seq<AttrV>| seq![x] + c);
    let fb = b.map_values(|c: Seq<AttrV>| seq![x] + c);
    if a.len() == 0 {
        assert(fa.len() == 0);
    } else if b.len() == 0 {
    } else {
        if a[0] == b[0] && is_subseq(a.drop_first(), b.drop_first()) {
            lemma_map_cons_subseq(a.drop_first(), b.drop_first(), x);
            assert(fa[0] == fb[0]);
            assert(fa.drop_first() =~= a.drop_first().map_values(|c: Seq<AttrV>| seq![x] + c));
            assert(fb.drop_first() =~= b.drop_first().map_values(|c: Seq<AttrV>| seq![x] + c));
        } else {
            lemma_map_cons_subseq(a, b.drop_first(), x);
            assert(fb.drop_first() =~= b.drop_first().map_values(|c: Seq<AttrV>| seq![x] + c));
        }
    }
}

/// Whether the entries of a sequence are pairwise distinct.
pub open spec fn distinct_elems<T>(l: Seq<T>) -> bool {
    forall|i: int, j: int| 0 <= i < j < l.len() ==> l[i] != l[j]
}

proof fn lemma_distinct_drop<T>(l: Seq<T>)
    requires
        distinct_elems(l),
        l.len() > 0,
    ensures
        distinct_elems(l.drop_first()),
        !l.drop_first().contains(l[0]),
{
    assert forall|i: int, j: int| 0 <= i < j < l.drop_first().len() implies l.drop_first()[i]
        != l.drop_first()[j] by {
        assert(l.drop_first()[i] == l[i + 1]);
        assert(l.drop_first()[j] == l[j + 1]);
    }
    if l.drop_first().contains(l[0]) {
        let i = choose|i: int| 0 <= i < l.drop_first().len() && l.drop_first()[i] == l[0];
        assert(l[i + 1] == l[0]);
        assert(false);
    }
}

proof fn lemma_distinct_concat<T>(l1: Seq<T>, l2: Seq<T>)
    requires
        distinct_elems(l1),
        distinct_elems(l2),
        forall|i: int, j: int|
            0 <= i < l1.len() && 0 <= j < l2.len() ==> l1[i] != l2[j],
    ensures
        distinct_elems(l1 + l2),
{
    assert forall|i: int, j: int| 0 <= i < j < (l1 + l2).len() implies (l1 + l2)[i] != (l1
        + l2)[j] by {
        if i < l1.len() && j < l1.len() {
        } else if i >= l1.len() {
            assert((l1 + l2)[i] == l2[i - l1.len()]);
            assert((l1 + l2)[j] == l2[j - l1.len()]);
        } else {
            assert((l1 + l2)[i] == l1[i]);
            assert((l1 + l2)[j] == l2[j - l1.len()]);
        }
    }
}

proof fn lemma_combos_distinct(s: Seq<AttrV>, k: nat)
    requires
        distinct_elems(s),
    ensures
        distinct_elems(combos(s, k)),
    decreases s.len(), k,
{
    if k == 0 {
    } else if s.len() < k {
    } else {
        lemma_distinct_drop(s);
        lemma_combos_distinct(s.drop_first(), (k - 1) as nat);
        lemma_combos_distinct(s.drop_first(), k);
        lemma_combos_elem_len(s.drop_first(), k);
        lemma_combos_elem_subseq(s.drop_first(), k);
        let sub = combos(s.drop_first(), (k - 1) as nat);
        let m = sub.map_values(|c: Seq<AttrV>| seq![s[0]] + c);
        let rest = combos(s.drop_first(), k);
        assert forall|i: int, j: int| 0 <= i < j < m.len() implies m[i] != m[j] by {
            if m[i] == m[j] {
                assert(m[i] == seq![s[0]] + sub[i]);
                assert(m[j] == seq![s[0]] + sub[j]);
                assert((seq![s[0]] + sub[i]).drop_first() =~= sub[i]);
                assert((seq![s[0]] + sub[j]).drop_first() =~= sub[j]);
                assert(sub[i] == sub[j]);
                assert(false);
            }
        }
        assert forall|i: int, j: int|
            0 <= i < m.len() && 0 <= j < rest.len() implies m[i] != rest[j] by {
            assert(m[i] == seq![s[0]] + sub[i]);
            assert(m[i][0] == s[0]);
            assert(rest[j].len() == k);
            assert(rest[j].contains(rest[j][0]));
            lemma_subseq_contains(rest[j], s.drop_first(), rest[j][0]);
            assert(rest[j][0] != s[0]);
        }
        lemma_distinct_concat(m, rest);
    }
}

proof fn lemma_enum_upto_elem_len(s: Seq<AttrV>, k: nat)
    ensures
        forall|i: int|
            0 <= i < enum_upto(s, k).len() ==> 1 <= (#[trigger] enum_upto(s, k)[i]).len() <= k,
    decreases k,
{
    if k > 0 {
        lemma_enum_upto_elem_len(s, (k - 1) as nat);
        lemma_combos_elem_len(s, k);
        let l1 = enum_upto(s, (k - 1) as nat);
        let l2 = combos(s, k);
        assert forall|i: int| 0 <= i < enum_upto(s, k).len() implies 1 <= (
        #[trigger] enum_upto(s, k)[i]).len() <= k by {
            if i < l1.len() {
                assert(enum_upto(s, k)[i] == l1[i]);
            } else {
                assert(enum_upto(s, k)[i] == l2[i - l1.len()]);
            }
        }
    }
}

proof fn lemma_enum_upto_elem_subseq(s: Seq<AttrV>, k: nat)
    ensures
        forall|i: int|
            0 <= i < enum_upto(s, k).len() ==> is_subseq(#[trigger] enum_upto(s, k)[i], s),
    decreases k,
{
    if k > 0 {
        lemma_enum_upto_elem_subseq(s, (k - 1) as nat);
        lemma_combos_elem_subseq(s, k);
        let l1 = enum_upto(s, (k - 1) as nat);
        let l2 = combos(s, k);
        assert forall|i: int| 0 <= i < enum_upto(s, k).len() implies is_subseq(
            #[trigger] enum_upto(s, k)[i],
            s,
        ) by {
            if i < l1.len() {
                assert(enum_upto(s, k)[i] == l1[i]);
            } else {
                assert(enum_upto(s, k)[i] == l2[i - l1.len()]);
            }
        }
    }
}

proof fn lemma_enum_upto_distinct(s: Seq<AttrV>, k: nat)
    requires
        distinct_elems(s),
    ensures
        distinct_elems(enum_upto(s, k)),
    decreases k,
{
    if k == 0 {
    } else {
        lemma_enum_upto_distinct(s, (k - 1) as nat);
        lemma_combos_distinct(s, k);
        lemma_enum_upto_elem_len(s, (k - 1) as nat);
        lemma_combos_elem_len(s, k);
        let l1 = enum_upto(s, (k - 1) as nat);
        let l2 = combos(s, k);
        assert forall|i: int, j: int|
            0 <= i < l1.len() && 0 <= j < l2.len() implies l1[i] != l2[j] by {
            assert(l1[i].len() <= k - 1);
            assert(l2[j].len() == k);
        }
        lemma_distinct_concat(l1, l2);
    }
}

proof fn lemma_enum_upto_subseq(u: Seq<AttrV>, v: Seq<AttrV>, k: nat)
    requires
        is_subseq(u, v),
    ensures
        is_subseq(enum_upto(u, k), enum_upto(v, k)),
    decreases k,
{
    if k == 0 {
    } else {
        lemma_enum_upto_subseq(u, v, (k - 1) as nat);
        lemma_combos_subseq(u, v, k);
        lemma_subseq_concat(
            enum_upto(u, (k - 1) as nat),
            combos(u, k),
            enum_upto(v, (k - 1) as nat),
            combos(v, k),
        );
    }
}

proof fn lemma_enum_upto_grow(s: Seq<AttrV>, k1: nat, k2: nat)
    requires
        k1 <= k2,
    ensures
        is_subseq(enum_upto(s, k1), enum_upto(s, k2)),
    decreases k2,
{
    if k1 == k2 {
        lemma_subseq_refl(enum_upto(s, k1));
    } else {
        lemma_enum_upto_grow(s, k1, (k2 - 1) as nat);
        lemma_subseq_pad_right(enum_upto(s, k1), enum_upto(s, (k2 - 1) as nat), combos(s, k2));
    }
}

proof fn lemma_enum_upto_block_contains(s: Seq<AttrV>, j: nat, k: nat, x: Seq<AttrV>)
    requires
        1 <= j <= k,
        combos(s, j).contains(x),
    ensures
        enum_upto(s, k).contains(x),
    decreases k,
{
    let l1 = enum_upto(s, (k - 1) as nat);
    let l2 = combos(s, k);
    if j == k {
        let i = choose|i: int| 0 <= i < l2.len() && l2[i] == x;
        assert(enum_upto(s, k)[l1.len() + i] == x);
    } else {
        lemma_enum_upto_block_contains(s, j, (k - 1) as nat, x);
        let i = choose|i: int| 0 <= i < l1.len() && l1[i] == x;
        assert(enum_upto(s, k)[i] == x);
    }
}

proof fn lemma_fs_some(t: TreeV, l: Seq<Seq<AttrV>>, w: Seq<AttrV>)
    requires
        first_satisfying(t, l) == Some(w),
    ensures
        l.contains(w),
        sat(t, names_of(w)),
    decreases l.len(),
{
    if l.len() > 0 {
        if sat(t, names_of(l[0])) {
            assert(l[0] == w);
        } else {
            lemma_fs_some(t, l.drop_first(), w);
            let i = choose|i: int| 0 <= i < l.drop_first().len() && l.drop_first()[i] == w;
            assert(l[i + 1] == w);
        }
    }
}

proof fn lemma_fs_none(t: TreeV, l: Seq<Seq<AttrV>>)
    requires
        first_satisfying(t, l) is None,
    ensures
        forall|i: int| 0 <= i < l.len() ==> !sat(t, names_of(#[trigger] l[i])),
    decreases l.len(),
{
    if l.len() > 0 {
        lemma_fs_none(t, l.drop_first());
        assert forall|i: int| 0 <= i < l.len() implies !sat(t, names_of(#[trigger] l[i])) by {
            if i > 0 {
                assert(l[i] == l.drop_first()[i - 1]);
            }
        }
    }
}

proof fn lemma_contains_drop<T>(l: Seq<T>, x: T)
    requires
        l.contains(x),
        l.len() > 0,
        l[0] != x,
    ensures
        l.drop_first().contains(x),
{
    let i = choose|i: int| 0 <= i < l.len() && l[i] == x;
    assert(l.drop_first()[i - 1] == x);
}

proof fn lemma_fs_sub(t: TreeV, a: Seq<Seq<AttrV>>, b: Seq<Seq<AttrV>>, w: Seq<AttrV>)
    requires
        is_subseq(a, b),
        distinct_elems(b),
        first_satisfying(t, b) == Some(w),
        a.contains(w),
    ensures
        first_satisfying(t, a) == Some(w),
    decreases b.len(),
{
    lemma_fs_some(t, b, w);
    assert(a.len() > 0);
    assert(b.len() > 0);
    lemma_distinct_drop(b);
    if sat(t, names_of(b[0])) {
        assert(w == b[0]);
        if a[0] == w {
        } else {
            if a[0] == b[0] && is_subseq(a.drop_first(), b.drop_first()) {
                assert(false);
            } else {
                assert(is_subseq(a, b.drop_first()));
                lemma_subseq_contains(a, b.drop_first(), w);
                assert(false);
            }
        }
    } else {
        assert(first_satisfying(t, b.drop_first()) == Some(w));
        assert(w != b[0]);
        if is_subseq(a, b.drop_first()) {
            lemma_fs_sub(t, a, b.drop_first(), w);
        } else {
            assert(a[0] == b[0] && is_subseq(a.drop_first(), b.drop_first()));
            assert(!sat(t, names_of(a[0])));
            lemma_contains_drop(a, w);
            lemma_fs_sub(t, a.drop_first(), b.drop_first(), w);
        }
    }
}

/// Minimal-set monotonicity: for candidate sequences with pairwise
/// distinct entries, if `u` selects from `v` and the minimal
/// satisfying subset of `v` selects from `u`, then `u` and `v` have
/// the same minimal satisfying subset.
pub proof fn lemma_minimal_set_monotone(t: TreeV, u: Seq<AttrV>, v: Seq<AttrV>)
    requires
        distinct_elems(v),
        is_subseq(u, v),
        is_subseq(minimal_set_spec(t, v), u),
    ensures
        minimal_set_spec(t, u) == minimal_set_spec(t, v),
{
    let eu = subsets_in_order(u);
    let ev = subsets_in_order(v);
    lemma_subseq_len(u, v);
    match first_satisfying(t, ev) {
        None => {
            assert(minimal_set_spec(t, v) == v);
            lemma_subseq_len(v, u);
            lemma_subseq_eq_len(u, v);
        },
        Some(w) => {
            assert(minimal_set_spec(t, v) == w);
            lemma_fs_some(t, ev, w);
            assert(v.len() > 0);
            let kv = (v.len() - 1) as nat;
            lemma_enum_upto_elem_len(v, kv);
            let wi = choose|i: int| 0 <= i < ev.len() && ev[i] == w;
            assert(1 <= w.len() <= kv);
            if w == u {
                match first_satisfying(t, eu) {
                    Some(x) => {
                        lemma_fs_some(t, eu, x);
                        assert(u.len() > 0);
                        let ku = (u.len() - 1) as nat;
                        lemma_enum_upto_elem_len(u, ku);
                        let xi = choose|i: int| 0 <= i < eu.len() && eu[i] == x;
                        assert(1 <= x.len() <= ku);
                        assert(x.len() < w.len());
                        lemma_enum_upto_elem_subseq(u, ku);
                        assert(is_subseq(x, u));
                        lemma_subseq_trans(x, u, v);
                        lemma_combos_complete(x, v, x.len());
                        let j = (w.len() - 1) as nat;
                        lemma_enum_upto_block_contains(v, x.len(), j, x);
                        match first_satisfying(t, enum_upto(v, j)) {
                            Some(y) => {
                                lemma_enum_upto_extend(t, v, j, kv);
                                assert(y == w);
                                lemma_fs_some(t, enum_upto(v, j), y);
                                lemma_enum_upto_elem_len(v, j);
                                let yi = choose|i: int|
                                    0 <= i < enum_upto(v, j).len() && enum_upto(v, j)[i] == y;
                                assert(y.len() <= j);
                                assert(false);
                            },
                            None => {},
                        }
                        lemma_fs_none(t, enum_upto(v, j));
                        let ci = choose|i: int|
                            0 <= i < enum_upto(v, j).len() && enum_upto(v, j)[i] == x;
                        assert(!sat(t, names_of(x)));
                        assert(false);
                    },
                    None => {
                        assert(minimal_set_spec(t, u) == u);
                    },
                }
            } else {
                lemma_subseq_len(w, u);
                if w.len() == u.len() {
                    lemma_subseq_eq_len(w, u);
                    assert(false);
                }
                assert(w.len() < u.len());
                let ku = (u.len() - 1) as nat;
                lemma_combos_complete(w, u, w.len());
                lemma_enum_upto_block_contains(u, w.len(), ku, w);
                lemma_enum_upto_subseq(u, v, ku);
                lemma_enum_upto_grow(v, ku, kv);
                lemma_subseq_trans(eu, enum_upto(v, ku), ev);
                lemma_enum_upto_distinct(v, kv);
                lemma_fs_sub(t, eu, ev, w);
                assert(minimal_set_spec(t, u) == w);
            }
        },
    }
}

proof fn lemma_with_indices_leaf_count(t: TreeV, start: nat)
    ensures
        leaf_count(with_indices(t, start)) == leaf_count(t),
    decreases t,
{
    match t {
        TreeV::Op { left, right, .. } => {
            lemma_with_indices_leaf_count(*left, start);
            lemma_with_indices_leaf_count(*right, start + leaf_count(*left));
        },
        TreeV::Leaf { .. } => {},
    }
}

/// Index assignment is idempotent: renumbering an already renumbered
/// tree from the same start changes nothing.
pub proof fn lemma_assign_indices_idempotent(t: TreeV, start: nat)
    ensures
        with_indices(with_indices(t, start), start) == with_indices(t, start),
    decreases t,
{
    match t {
        TreeV::Op { left, right, .. } => {
            lemma_assign_indices_idempotent(*left, start);
            lemma_with_indices_leaf_count(*left, start);
            lemma_assign_indices_idempotent(*right, start + leaf_count(*left));
        },
        TreeV::Leaf { .. } => {},
    }
}

} // verus!
