use vstd::prelude::*;

verus! {

/// The identity of a policy leaf: an attribute name together with the
/// 0-based position of the leaf under a left-to-right depth-first
/// traversal. Two leaves may share a name and are then told apart by
/// the index.
#[derive(Clone, Debug)]
pub struct AbeIdentifier {
    pub index: Option<usize>,
    pub name: String,
}

/// The mathematical content of an attribute: its name as a sequence of
/// characters, its optional leaf index, and its optional share value.
pub struct AttrV {
    pub index: Option<usize>,
    pub name: Seq<char>,
    pub value: Option<rabe_bn::Fr>,
}

/// The mathematical content of a leaf identifier.
pub struct IdentV {
    pub index: Option<usize>,
    pub name: Seq<char>,
}

impl View for AbeIdentifier {
    type V = IdentV;

    open spec fn view(&self) -> IdentV {
        IdentV { index: self.index, name: self.name@ }
    }
}

/// An attribute occurring in a policy or held by a user, optionally
/// carrying the secret-sharing value assigned to its leaf.
#[derive(Clone, Debug)]
pub struct AbeAttribute {
    pub index: Option<usize>,
    pub name: String,
    pub value: Option<rabe_bn::Fr>,
}

impl View for AbeAttribute {
    type V = AttrV;

    open spec fn view(&self) -> AttrV {
        AttrV { index: self.index, name: self.name@, value: self.value }
    }
}

/// Two optional indices agree exactly when both are absent or both
/// hold the same position.
pub open spec fn index_eq(a: Option<usize>, b: Option<usize>) -> bool {
    match (a, b) {
        (Option::None, Option::None) => true,
        (Option::Some(x), Option::Some(y)) => x == y,
        _ => false,
    }
}

fn eq_index(a: Option<usize>, b: Option<usize>) -> (r: bool)
    ensures
        r == index_eq(a, b),
{
    match (a, b) {
        (Option::None, Option::None) => true,
        (Option::Some(x), Option::Some(y)) => x == y,
        _ => false,
    }
}

impl AbeAttribute {
    /// A copy of this attribute with the same name, index and value.
    pub fn duplicate(&self) -> (r: AbeAttribute)
        ensures
            r@ == self@,
    {
        AbeAttribute { index: self.index, name: self.name.clone(), value: self.value }
    }

    /// A bare attribute: the given name, no index, no value.
    pub fn new(name: &str) -> (r: AbeAttribute)
        ensures
            r.name@ == name@,
            r.index is None,
            r.value is None,
    {
        AbeAttribute { index: None, name: name.to_owned(), value: None }
    }

    /// An attribute with a secret-sharing value already attached.
    pub fn new_with_value(name: &str, value: rabe_bn::Fr) -> (r: AbeAttribute)
        ensures
            r.name@ == name@,
            r.index is None,
            r.value == Some(value),
    {
        AbeAttribute { index: None, name: name.to_owned(), value: Some(value) }
    }
}

impl From<AbeAttribute> for AbeIdentifier {
    /// The identifier of an attribute: its name and index, the value
    /// dropped.
    fn from(value: AbeAttribute) -> (r: AbeIdentifier) {
        AbeIdentifier { index: value.index, name: value.name }
    }
}

impl vstd::std_specs::convert::FromSpecImpl<AbeAttribute> for AbeIdentifier {
    open spec fn obeys_from_spec() -> bool {
        true
    }

    open spec fn from_spec(v: AbeAttribute) -> AbeIdentifier {
        AbeIdentifier { index: v.index, name: v.name }
    }
}

impl PartialEq for AbeAttribute {
    /// Attributes are compared by name and index; the value slot does
    /// not take part.
    fn eq(&self, other: &Self) -> (r: bool) {
        self.name == other.name && eq_index(self.index, other.index)
    }
}

impl vstd::std_specs::cmp::PartialEqSpecImpl for AbeAttribute {
    open spec fn obeys_eq_spec() -> bool {
        true
    }

    open spec fn eq_spec(&self, other: &Self) -> bool {
        self.name@ == other.name@ && index_eq(self.index, other.index)
    }
}

impl PartialEq for AbeIdentifier {
    fn eq(&self, other: &Self) -> (r: bool) {
        self.name == other.name && eq_index(self.index, other.index)
    }
}

impl vstd::std_specs::cmp::PartialEqSpecImpl for AbeIdentifier {
    open spec fn obeys_eq_spec() -> bool {
        true
    }

    open spec fn eq_spec(&self, other: &Self) -> bool {
        self.name@ == other.name@ && index_eq(self.index, other.index)
    }
}

impl PartialEq<AbeIdentifier> for AbeAttribute {
    fn eq(&self, other: &AbeIdentifier) -> (r: bool) {
        self.name == other.name && eq_index(self.index, other.index)
    }
}

impl vstd::std_specs::cmp::PartialEqSpecImpl<AbeIdentifier> for AbeAttribute {
    open spec fn obeys_eq_spec() -> bool {
        true
    }

    open spec fn eq_spec(&self, other: &AbeIdentifier) -> bool {
        self.name@ == other.name@ && index_eq(self.index, other.index)
    }
}

impl PartialEq<AbeAttribute> for AbeIdentifier {
    fn eq(&self, other: &AbeAttribute) -> (r: bool) {
        self.name == other.name && eq_index(self.index, other.index)
    }
}

impl vstd::std_specs::cmp::PartialEqSpecImpl<AbeAttribute> for AbeIdentifier {
    open spec fn obeys_eq_spec() -> bool {
        true
    }

    open spec fn eq_spec(&self, other: &AbeAttribute) -> bool {
        self.name@ == other.name@ && index_eq(self.index, other.index)
    }
}

} // verus!
