use abe::abe_attribute::{AbeAttribute, AbeIdentifier};

#[test]
fn test_abe_attribute_equality() {
    let a = AbeAttribute {
        index: None,
        value: Some(rabe_bn::Fr::one()),
        name: "A".to_string(),
    };
    let b = AbeAttribute::new("B");
    let c = AbeAttribute::new("A");

    assert_eq!(a, c);
    assert_ne!(a, b);
}

#[test]
fn test_identifier_attribute_equality() {
    let a = AbeIdentifier {
        index: Some(1),
        name: "A".to_string(),
    };
    let b = AbeAttribute {
        index: Some(1),
        name: "A".to_string(),
        value: None,
    };

    assert_eq!(a, b);
}

#[test]
fn test_attribute_with_value() {
    let a = AbeAttribute::new_with_value("A", rabe_bn::Fr::one());
    assert_eq!(a.name, "A".to_string());
    assert_eq!(a.index, None);
    assert_eq!(a.value, Some(rabe_bn::Fr::one()));
}
