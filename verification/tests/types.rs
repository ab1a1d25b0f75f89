use velari::ast::Type;
use velari::semantic::{compatible, merge_types, name_of_type, type_from_ast, unify_types, VelaRiType};

fn arr(t: VelaRiType) -> VelaRiType {
    VelaRiType::Array(Box::new(t))
}

#[test]
fn merging_is_order_independent() {
    let pairs = [
        (VelaRiType::Int, VelaRiType::Number),
        (arr(VelaRiType::Int), arr(VelaRiType::Unknown)),
        (arr(VelaRiType::Int), arr(VelaRiType::String)),
        (VelaRiType::Boolean, VelaRiType::Int),
    ];
    for (a, b) in pairs {
        assert_eq!(merge_types(&a, &b), merge_types(&b, &a));
    }
    assert_eq!(merge_types(&VelaRiType::Int, &VelaRiType::Number), VelaRiType::Number);
    assert_eq!(merge_types(&arr(VelaRiType::Int), &arr(VelaRiType::String)), arr(VelaRiType::Unknown));
    assert_eq!(merge_types(&VelaRiType::Unknown, &VelaRiType::String), VelaRiType::String);
    assert_eq!(merge_types(&VelaRiType::Null, &VelaRiType::Null), VelaRiType::Null);
}

#[test]
fn compatibility_rules() {
    assert!(compatible(&VelaRiType::Number, &VelaRiType::Int));
    assert!(!compatible(&VelaRiType::Int, &VelaRiType::Number));
    assert!(compatible(&VelaRiType::Unknown, &VelaRiType::String));
    assert!(compatible(&arr(VelaRiType::Int), &arr(VelaRiType::Int)));
    assert!(!compatible(&arr(VelaRiType::Int), &arr(VelaRiType::Number)));
}

#[test]
fn annotations_and_their_names() {
    let t = type_from_ast(&Type::Mapping(Box::new(Type::String), Box::new(Type::Array(Box::new(Type::Float)))));
    assert_eq!(name_of_type(&t), "Map<String, Array<Float>>");
    assert_eq!(name_of_type(&type_from_ast(&Type::Bool)), "Boolean");
}

#[test]
fn element_types_unify_or_conflict() {
    assert_eq!(unify_types(&VelaRiType::Int, &VelaRiType::Number), Some(VelaRiType::Number));
    assert_eq!(unify_types(&VelaRiType::Unknown, &VelaRiType::String), Some(VelaRiType::String));
    assert_eq!(unify_types(&VelaRiType::Int, &VelaRiType::String), None);
    assert_eq!(unify_types(&arr(VelaRiType::Int), &arr(VelaRiType::String)), None);
    assert_eq!(unify_types(&arr(VelaRiType::Int), &arr(VelaRiType::Unknown)), Some(arr(VelaRiType::Int)));
}
