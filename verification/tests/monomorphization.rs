use lib::ast::{Block, GenericParam, Item, Type};
use lib::codegen::monomorphization::{collect_generics, MonomorphizationRegistry};

fn type_param(name: &str) -> GenericParam {
    GenericParam::Type { name: name.to_string(), bounds: vec![], default: None }
}

fn empty_body() -> Block {
    Block { statements: vec![], expression: None }
}

fn named(name: &str) -> Type {
    Type::Named(name.to_string())
}

#[test]
fn test_registry_creation() {
    let registry = MonomorphizationRegistry::new();
    assert_eq!(registry.generic_functions.len(), 0);
    assert_eq!(registry.instances.len(), 0);
}

#[test]
fn test_register_generic_function() {
    let mut registry = MonomorphizationRegistry::new();
    let generics = vec![type_param("T")];

    registry.register_generic("add".to_string(), generics);
    assert_eq!(registry.generic_functions.len(), 1);
    assert!(registry.generic_functions.contains_key("add"));
}

#[test]
fn test_type_mangling_named_types() {
    let registry = MonomorphizationRegistry::new();

    let i32_type = named("i32");
    assert_eq!(registry.type_to_mangled_name(&i32_type), "i32");

    let bool_type = named("bool");
    assert_eq!(registry.type_to_mangled_name(&bool_type), "bool");
}

#[test]
fn test_type_mangling_reference_types() {
    let registry = MonomorphizationRegistry::new();

    let ref_i32 = Type::Reference { lifetime: None, mutable: false, inner: Box::new(named("i32")) };

    let mangled = registry.type_to_mangled_name(&ref_i32);
    assert!(mangled.contains("ref"));
    assert!(mangled.contains("i32"));
}

#[test]
fn test_type_mangling_mutable_reference() {
    let registry = MonomorphizationRegistry::new();

    let ref_mut_i32 = Type::Reference { lifetime: None, mutable: true, inner: Box::new(named("i32")) };

    let mangled = registry.type_to_mangled_name(&ref_mut_i32);
    assert!(mangled.contains("ref_mut"));
}

#[test]
fn test_type_mangling_tuple_types() {
    let registry = MonomorphizationRegistry::new();

    let tuple = Type::Tuple(vec![named("i32"), named("bool")]);

    let mangled = registry.type_to_mangled_name(&tuple);
    assert!(mangled.contains("tuple"));
    assert!(mangled.contains("i32"));
    assert!(mangled.contains("bool"));
}

#[test]
fn test_instantiate_function() {
    let mut registry = MonomorphizationRegistry::new();
    registry.register_generic("identity".to_string(), vec![type_param("T")]);

    let type_args = vec![named("i32")];
    let result = registry.instantiate("identity", type_args);

    assert!(result.is_ok());
    let concrete_name = result.unwrap();
    assert!(concrete_name.contains("identity"));
    assert!(concrete_name.contains("i32"));
}

#[test]
fn test_instantiate_deduplication() {
    let mut registry = MonomorphizationRegistry::new();
    registry.register_generic("identity".to_string(), vec![type_param("T")]);

    let result1 = registry.instantiate("identity", vec![named("i32")]);
    let result2 = registry.instantiate("identity", vec![named("i32")]);

    assert_eq!(result1.unwrap(), result2.unwrap());
    assert_eq!(registry.instances.len(), 1);
}

#[test]
fn test_multiple_instantiations() {
    let mut registry = MonomorphizationRegistry::new();
    registry.register_generic("wrap".to_string(), vec![type_param("T")]);

    let result1 = registry.instantiate("wrap", vec![named("i32")]);
    let result2 = registry.instantiate("wrap", vec![named("bool")]);

    assert!(result1.is_ok());
    assert!(result2.is_ok());
    assert_ne!(result1.unwrap(), result2.unwrap());
    assert_eq!(registry.instances.len(), 2);
}

#[test]
fn test_error_on_missing_generic() {
    let mut registry = MonomorphizationRegistry::new();
    let result = registry.instantiate("nonexistent", vec![named("i32")]);
    assert!(result.is_err());
}

#[test]
fn test_error_on_wrong_arity() {
    let mut registry = MonomorphizationRegistry::new();
    registry.register_generic("pair".to_string(), vec![type_param("T"), type_param("U")]);

    let result = registry.instantiate("pair", vec![named("i32")]);
    assert!(result.is_err());
}

#[test]
fn mangled_names_are_exact() {
    let registry = MonomorphizationRegistry::new();
    assert_eq!(registry.type_to_mangled_name(&named("my type")), "my_type");
    let generic = Type::Generic { name: "Vec".to_string(), type_args: vec![named("i32"), named("u8")] };
    assert_eq!(registry.type_to_mangled_name(&generic), "Vec_i32_u8");
    let ptr = Type::Pointer { inner: Box::new(named("u8")), mutable: true };
    assert_eq!(registry.type_to_mangled_name(&ptr), "ptr_mut_u8");
    let func = Type::Function { params: vec![named("i32"), named("bool")], return_type: Box::new(Type::Never) };
    assert_eq!(registry.type_to_mangled_name(&func), "fn_i32_bool_never");
    let arr = Type::Array { element: Box::new(Type::TypeVar("T".to_string())), size: 4 };
    assert_eq!(registry.type_to_mangled_name(&arr), "array_var_T");
    assert_eq!(registry.type_to_mangled_name(&Type::TraitObject { bounds: vec![] }), "dyn");
    assert_eq!(registry.type_to_mangled_name(&Type::ImplTrait { bounds: vec![] }), "impl_trait");
    let assoc = Type::AssociatedType { base: Box::new(named("I")), name: "Item".to_string() };
    assert_eq!(registry.type_to_mangled_name(&assoc), "assoc_Item");
    let qp = Type::QualifiedPath { base: Box::new(named("I")), trait_name: "Iterator".to_string(), name: "Item".to_string() };
    assert_eq!(registry.type_to_mangled_name(&qp), "qpath_Item");
    let cl = Type::Closure { params: vec![], return_type: Box::new(Type::Never) };
    assert_eq!(registry.type_to_mangled_name(&cl), "closure");
}

#[test]
fn instantiate_names_and_errors_are_exact() {
    let mut registry = MonomorphizationRegistry::new();
    registry.register_generic("pair".to_string(), vec![type_param("T"), type_param("U")]);
    registry.register_generic("plain".to_string(), vec![]);
    assert!(!registry.generic_functions.contains_key("plain"));

    let ok = registry.instantiate("pair", vec![named("i32"), Type::Tuple(vec![named("u8"), named("bool")])]);
    assert_eq!(ok.unwrap(), "pair_i32_tuple_u8_bool");
    assert_eq!(
        registry.instantiate("pair", vec![named("i32")]).unwrap_err(),
        "Generic function 'pair' expects 2 type arguments, got 1"
    );
    assert_eq!(registry.instantiate("plain", vec![]).unwrap_err(), "Generic function 'plain' not registered");

    let insts = registry.get_instantiations("pair");
    assert_eq!(insts.len(), 1);
    assert_eq!(insts[0].concrete_name, "pair_i32_tuple_u8_bool");
    assert_eq!(insts[0].type_args.len(), 2);
    assert_eq!(registry.get_instantiations("other").len(), 0);
    assert_eq!(registry.get_pending_instantiations().len(), 1);
    assert_eq!(registry.get_generic_functions(), vec!["pair".to_string()]);
    assert!(registry.instances.contains_key("pair::pair_i32_tuple_u8_bool"));
}

#[test]
fn collect_generics_keeps_items_with_parameters() {
    let items = vec![
        Item::Function { name: "f".to_string(), generics: vec![type_param("T")], params: vec![], body: empty_body(), return_type: None },
        Item::Struct { name: "S".to_string(), generics: vec![] },
        Item::Impl { generics: vec![type_param("A"), type_param("B")], struct_name: "S".to_string() },
        Item::Use { path: "std::fmt".to_string() },
        Item::Enum { name: "E".to_string(), generics: vec![GenericParam::Lifetime { name: "a".to_string() }] },
        Item::Function { name: "f".to_string(), generics: vec![type_param("X"), type_param("Y"), type_param("Z")], params: vec![], body: empty_body(), return_type: None },
    ];
    let m = collect_generics(&items);
    assert_eq!(m.len(), 3);
    assert_eq!(m.get("f").unwrap().len(), 3);
    assert_eq!(m.get("S").unwrap().len(), 2);
    assert_eq!(m.get("E").unwrap().len(), 1);
    assert!(m.get("std::fmt").is_none());
}
