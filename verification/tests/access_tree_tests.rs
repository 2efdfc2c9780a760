use abe::abe_attribute::AbeAttribute;
use abe::access_tree::TreeOperator::{And, Or};
use abe::access_tree::{AccessTree, Leaf, Operator};
use abe::errors::abe_error::AbeError;
use abe::parser::AccessTreeParser;

#[test]
fn test_access_tree_equality() {
    let a = AccessTree::Leaf(Leaf {
        value: Some(rabe_bn::Fr::one()),
        attribute: AbeAttribute::new_with_value("A", rabe_bn::Fr::one()),
    });
    let b = AccessTree::Leaf(Leaf {
        value: Some(rabe_bn::Fr::one()),
        attribute: AbeAttribute::new_with_value("B", rabe_bn::Fr::one()),
    });
    let c = AccessTree::Leaf(Leaf {
        value: Some(rabe_bn::Fr::one()),
        attribute: AbeAttribute::new_with_value("A", rabe_bn::Fr::one()),
    });

    assert_eq!(a, c);
    assert_ne!(a, b);
}

#[test]
fn test_access_tree_is_satisfiable_or() {
    let tree = AccessTree::Operator(Operator {
        left: Box::from(AccessTree::Leaf(Leaf {
            value: None,
            attribute: AbeAttribute::new_with_value("A", rabe_bn::Fr::one()),
        })),
        right: Box::from(AccessTree::Leaf(Leaf {
            value: None,
            attribute: AbeAttribute::new_with_value("B", rabe_bn::Fr::one()),
        })),
        value: None,
        operator: Or,
    });

    assert_eq!(tree.is_satisfiable(&vec![AbeAttribute::new("A")]), true);
    assert_eq!(tree.is_satisfiable(&vec![AbeAttribute::new("B")]), true);
    assert_eq!(tree.is_satisfiable(&vec![AbeAttribute::new("C")]), false);
}

#[test]
fn test_access_tree_is_satisfiable_and() {
    let tree = AccessTree::Operator(Operator {
        left: Box::from(AccessTree::Leaf(Leaf {
            value: None,
            attribute: AbeAttribute::new_with_value("A", rabe_bn::Fr::one()),
        })),
        right: Box::from(AccessTree::Leaf(Leaf {
            value: None,
            attribute: AbeAttribute::new_with_value("B", rabe_bn::Fr::one()),
        })),
        value: None,
        operator: And,
    });

    assert_eq!(tree.is_satisfiable(&vec![AbeAttribute::new("A")]), false);
    assert_eq!(tree.is_satisfiable(&vec![AbeAttribute::new("B")]), false);
    assert_eq!(tree.is_satisfiable(&vec![AbeAttribute::new("C")]), false);
    assert_eq!(
        tree.is_satisfiable(&vec![AbeAttribute::new("A"), AbeAttribute::new("B")]),
        true
    );
}

#[test]
fn test_access_tree_find_minimal_set_or() {
    let tree = AccessTree::Operator(Operator {
        left: Box::from(AccessTree::Leaf(Leaf {
            value: None,
            attribute: AbeAttribute::new_with_value("A", rabe_bn::Fr::one()),
        })),
        right: Box::from(AccessTree::Leaf(Leaf {
            value: None,
            attribute: AbeAttribute::new_with_value("B", rabe_bn::Fr::one()),
        })),
        value: None,
        operator: Or,
    });

    assert_eq!(
        tree.find_minimal_set(&vec![AbeAttribute::new("A")]).unwrap(),
        vec![AbeAttribute::new("A")]
    );
    assert_eq!(
        tree.find_minimal_set(&vec![AbeAttribute::new("B")]).unwrap(),
        vec![AbeAttribute::new("B")]
    );
    assert_eq!(
        tree.find_minimal_set(&vec![AbeAttribute::new("C")]).unwrap_err(),
        AbeError::new("Initial attribute set does not satisfy the tree")
    );
}

#[test]
fn test_access_tree_find_minimal_set_and() {
    let tree = AccessTree::Operator(Operator {
        left: Box::from(AccessTree::Leaf(Leaf {
            value: None,
            attribute: AbeAttribute::new_with_value("A", rabe_bn::Fr::one()),
        })),
        right: Box::from(AccessTree::Leaf(Leaf {
            value: None,
            attribute: AbeAttribute::new_with_value("B", rabe_bn::Fr::one()),
        })),
        value: None,
        operator: And,
    });

    assert_eq!(
        tree.find_minimal_set(&vec![AbeAttribute::new("A")]).unwrap_err(),
        AbeError::new("Initial attribute set does not satisfy the tree")
    );
    assert_eq!(
        tree.find_minimal_set(&vec![AbeAttribute::new("B")]).unwrap_err(),
        AbeError::new("Initial attribute set does not satisfy the tree")
    );
    assert_eq!(
        tree.find_minimal_set(&vec![AbeAttribute::new("C")]).unwrap_err(),
        AbeError::new("Initial attribute set does not satisfy the tree")
    );
    assert_eq!(
        tree.find_minimal_set(&vec![AbeAttribute::new("A"), AbeAttribute::new("B")])
            .unwrap(),
        vec![AbeAttribute::new("A"), AbeAttribute::new("B")]
    );
}

#[test]
fn test_access_tree_find_minimal_set_complex() {
    let tree = AccessTree::Operator(Operator {
        left: Box::from(AccessTree::Operator(Operator {
            left: Box::from(AccessTree::Leaf(Leaf {
                value: None,
                attribute: AbeAttribute::new_with_value("A", rabe_bn::Fr::one()),
            })),
            right: Box::from(AccessTree::Leaf(Leaf {
                value: None,
                attribute: AbeAttribute::new_with_value("B", rabe_bn::Fr::one()),
            })),
            value: None,
            operator: And,
        })),
        right: Box::from(AccessTree::Operator(Operator {
            left: Box::from(AccessTree::Leaf(Leaf {
                value: None,
                attribute: AbeAttribute::new_with_value("C", rabe_bn::Fr::one()),
            })),
            right: Box::from(AccessTree::Leaf(Leaf {
                value: None,
                attribute: AbeAttribute::new_with_value("D", rabe_bn::Fr::one()),
            })),
            value: None,
            operator: And,
        })),
        value: None,
        operator: Or,
    });

    let abe_error = AbeError::new("Initial attribute set does not satisfy the tree");

    assert_eq!(
        tree.find_minimal_set(&vec![AbeAttribute::new("A")]).unwrap_err(),
        abe_error
    );
    assert_eq!(
        tree.find_minimal_set(&vec![AbeAttribute::new("B")]).unwrap_err(),
        abe_error
    );
    assert_eq!(
        tree.find_minimal_set(&vec![AbeAttribute::new("C")]).unwrap_err(),
        abe_error
    );
    assert_eq!(
        tree.find_minimal_set(&vec![AbeAttribute::new("D")]).unwrap_err(),
        abe_error
    );
    assert_eq!(
        tree.find_minimal_set(&vec![AbeAttribute::new("A"), AbeAttribute::new("B")])
            .unwrap(),
        vec![AbeAttribute::new("A"), AbeAttribute::new("B")]
    );
    assert_eq!(
        tree.find_minimal_set(&vec![AbeAttribute::new("A"), AbeAttribute::new("C")])
            .unwrap_err(),
        abe_error
    );
    assert_eq!(
        tree.find_minimal_set(&vec![AbeAttribute::new("A"), AbeAttribute::new("D")])
            .unwrap_err(),
        abe_error
    );
    assert_eq!(
        tree.find_minimal_set(&vec![AbeAttribute::new("B"), AbeAttribute::new("C")])
            .unwrap_err(),
        abe_error
    );
    assert_eq!(
        tree.find_minimal_set(&vec![AbeAttribute::new("B"), AbeAttribute::new("D")])
            .unwrap_err(),
        abe_error
    );
    assert_eq!(
        tree.find_minimal_set(&vec![AbeAttribute::new("C"), AbeAttribute::new("D")])
            .unwrap(),
        vec![AbeAttribute::new("C"), AbeAttribute::new("D")]
    );
    assert_eq!(
        tree.find_minimal_set(&vec![
            AbeAttribute::new("A"),
            AbeAttribute::new("B"),
            AbeAttribute::new("C"),
        ])
        .unwrap(),
        vec![AbeAttribute::new("A"), AbeAttribute::new("B")]
    );
    assert_eq!(
        tree.find_minimal_set(&vec![
            AbeAttribute::new("A"),
            AbeAttribute::new("B"),
            AbeAttribute::new("D"),
        ])
        .unwrap(),
        vec![AbeAttribute::new("A"), AbeAttribute::new("B")]
    );
    assert_eq!(
        tree.find_minimal_set(&vec![
            AbeAttribute::new("A"),
            AbeAttribute::new("C"),
            AbeAttribute::new("D"),
        ])
        .unwrap(),
        vec![AbeAttribute::new("C"), AbeAttribute::new("D")]
    );
    assert_eq!(
        tree.find_minimal_set(&vec![
            AbeAttribute::new("B"),
            AbeAttribute::new("C"),
            AbeAttribute::new("D"),
        ])
        .unwrap(),
        vec![AbeAttribute::new("C"), AbeAttribute::new("D")]
    );
    assert_eq!(
        tree.find_minimal_set(&vec![
            AbeAttribute::new("A"),
            AbeAttribute::new("B"),
            AbeAttribute::new("C"),
            AbeAttribute::new("D"),
        ])
        .unwrap(),
        vec![AbeAttribute::new("A"), AbeAttribute::new("B")]
    );
}

#[test]
pub fn test_access_tree_complex() {
    let input = "(A|D)&(B|E)&C&A";
    let mut parser = AccessTreeParser::new(input);
    let tree = parser.parse().unwrap();

    assert_eq!(
        tree.find_minimal_set(&vec![
            AbeAttribute::new("A"),
            AbeAttribute::new("B"),
            AbeAttribute::new("C"),
            AbeAttribute::new("D"),
        ])
        .unwrap(),
        vec![
            AbeAttribute::new("A"),
            AbeAttribute::new("B"),
            AbeAttribute::new("C")
        ]
    );
}

#[test]
pub fn test_minimal_set_double() {
    let input = "A|B";
    let mut parser = AccessTreeParser::new(input);
    let tree = parser.parse().unwrap();

    assert_eq!(
        tree.find_minimal_set(&vec![AbeAttribute::new("A"), AbeAttribute::new("B"),])
            .unwrap(),
        vec![AbeAttribute::new("A")]
    );
}

#[test]
pub fn test_assign_indices() {
    let input = "A|B";
    let mut parser = AccessTreeParser::new(input);
    let mut tree = parser.parse().unwrap();
    tree.assign_indices();

    let attributes = tree.get_attributes();
    assert_eq!(attributes[0].index, Some(0));
    assert_eq!(attributes[1].index, Some(1));
}

#[test]
pub fn test_assign_indices_complex() {
    let input = "(A|D)&(B|E)&C&A";
    let mut parser = AccessTreeParser::new(input);
    let mut tree = parser.parse().unwrap();
    tree.assign_indices();

    let attributes = tree.get_attributes();
    assert_eq!(attributes[0].index, Some(0));
    assert_eq!(attributes[1].index, Some(1));
    assert_eq!(attributes[2].index, Some(2));
    assert_eq!(attributes[3].index, Some(3));
    assert_eq!(attributes[4].index, Some(4));
    assert_eq!(attributes[5].index, Some(5));
}

#[test]
pub fn test_minimal_set_a_and_a() {
    let input = "A&A";
    let mut parser = AccessTreeParser::new(input);
    let tree = parser.parse().unwrap();

    assert_eq!(
        tree.find_minimal_set(&vec![AbeAttribute::new("A"),]).unwrap(),
        vec![AbeAttribute::new("A")]
    );
}

#[test]
pub fn test_assign_values_annotates_every_leaf() {
    let input = "(A&B)|(C&D)";
    let mut parser = AccessTreeParser::new(input);
    let tree = parser.parse().unwrap();

    let s = rabe_bn::Fr::one();
    let filled = tree.assign_values(s, None);
    for attribute in filled.get_attributes() {
        assert!(attribute.value.is_some());
    }
}
