use classfile::types::{Type, TypeError};

fn roundtrip(s: &str) {
    let t = Type::get_type(s).unwrap();
    assert_eq!(t.get_descriptor(), s);
}

#[test]
fn descriptor_round_trip_primitives() {
    for s in ["V", "Z", "C", "B", "S", "I", "F", "J", "D"] {
        roundtrip(s);
    }
}

#[test]
fn descriptor_round_trip_objects_and_arrays() {
    roundtrip("Ljava/lang/Object;");
    roundtrip("L;");
    roundtrip("[I");
    roundtrip("[[D");
    roundtrip("[Ljava/lang/String;");
    roundtrip("[[[La/b/C;");
}

#[test]
fn descriptor_round_trip_methods() {
    roundtrip("()V");
    roundtrip("(I)V");
    roundtrip("(IJLjava/lang/String;)[B");
    roundtrip("([[IJ)Ljava/lang/String;");
    roundtrip("()[[Ljava/lang/Object;");
}

#[test]
fn end_to_end_method_descriptor() {
    let t = Type::get_type("([[IJ)Ljava/lang/String;").unwrap();
    let args = t.get_argument_types().unwrap();
    assert_eq!(args.len(), 2);
    assert_eq!(
        args[0],
        Type::Array(Box::new(Type::Array(Box::new(Type::Int))))
    );
    assert_eq!(args[1], Type::Long);
    assert_eq!(
        t.get_return_type().unwrap(),
        &Type::Object("java/lang/String".to_string())
    );
    assert_eq!(t.get_descriptor(), "([[IJ)Ljava/lang/String;");
    assert_eq!(args[1].get_size(), 2);
    assert_eq!(t.get_argument_count(), 2);
}

#[test]
fn get_type_ignores_trailing_characters() {
    assert_eq!(Type::get_type("IJ").unwrap(), Type::Int);
}

#[test]
fn invalid_descriptor_bad_character() {
    assert_eq!(
        Type::get_type("X"),
        Err(TypeError::InvalidDescriptor { input: "X".to_string(), position: 0 })
    );
}

#[test]
fn invalid_descriptor_empty() {
    assert_eq!(
        Type::get_type(""),
        Err(TypeError::InvalidDescriptor { input: String::new(), position: 0 })
    );
}

#[test]
fn invalid_descriptor_unterminated_object_name() {
    assert_eq!(
        Type::get_type("Ljava/lang/Object"),
        Err(TypeError::InvalidDescriptor {
            input: "Ljava/lang/Object".to_string(),
            position: 17,
        })
    );
}

#[test]
fn invalid_descriptor_unterminated_argument_list() {
    assert_eq!(
        Type::get_type("(I"),
        Err(TypeError::InvalidDescriptor { input: "(I".to_string(), position: 2 })
    );
}

#[test]
fn invalid_descriptor_bad_argument() {
    assert_eq!(
        Type::get_type("(IX)V"),
        Err(TypeError::InvalidDescriptor { input: "(IX)V".to_string(), position: 2 })
    );
}

#[test]
fn method_type_rejects_field_descriptor() {
    assert_eq!(
        Type::get_method_type("I"),
        Err(TypeError::NotAMethodDescriptor { input: "I".to_string() })
    );
    assert!(matches!(
        Type::get_method_type("(I)V"),
        Ok(Type::Method { .. })
    ));
}

#[test]
fn object_type_from_internal_name() {
    assert_eq!(
        Type::get_object_type("java/lang/String").unwrap(),
        Type::Object("java/lang/String".to_string())
    );
    assert_eq!(
        Type::get_object_type("[I").unwrap(),
        Type::Array(Box::new(Type::Int))
    );
}

#[test]
fn method_type_from_parts() {
    let t = Type::get_method_type_from_parts(Type::Void, vec![Type::Int, Type::Long]);
    assert_eq!(t.get_descriptor(), "(IJ)V");
}

#[test]
fn class_names() {
    assert_eq!(Type::Void.get_class_name(), "void");
    assert_eq!(Type::Boolean.get_class_name(), "boolean");
    assert_eq!(Type::Char.get_class_name(), "char");
    assert_eq!(Type::Byte.get_class_name(), "byte");
    assert_eq!(Type::Short.get_class_name(), "short");
    assert_eq!(Type::Int.get_class_name(), "int");
    assert_eq!(Type::Float.get_class_name(), "float");
    assert_eq!(Type::Long.get_class_name(), "long");
    assert_eq!(Type::Double.get_class_name(), "double");
    assert_eq!(
        Type::Object("java/lang/Object".to_string()).get_class_name(),
        "java.lang.Object"
    );
    let t = Type::get_type("[[I").unwrap();
    assert_eq!(t.get_class_name(), "int[][]");
}

#[test]
fn internal_names() {
    assert_eq!(
        Type::Object("a/B".to_string()).internal_name(),
        Some("a/B".to_string())
    );
    let arr = Type::get_type("[I").unwrap();
    assert_eq!(arr.internal_name(), Some("[I".to_string()));
    assert_eq!(Type::Int.internal_name(), None);
}

#[test]
fn sorts() {
    assert_eq!(Type::Void.get_sort(), 0);
    assert_eq!(Type::Boolean.get_sort(), 1);
    assert_eq!(Type::Char.get_sort(), 2);
    assert_eq!(Type::Byte.get_sort(), 3);
    assert_eq!(Type::Short.get_sort(), 4);
    assert_eq!(Type::Int.get_sort(), 5);
    assert_eq!(Type::Float.get_sort(), 6);
    assert_eq!(Type::Long.get_sort(), 7);
    assert_eq!(Type::Double.get_sort(), 8);
    assert_eq!(Type::get_type("[I").unwrap().get_sort(), 9);
    assert_eq!(Type::get_type("La;").unwrap().get_sort(), 10);
    assert_eq!(Type::get_type("()V").unwrap().get_sort(), 11);
}

#[test]
fn sizes() {
    assert_eq!(Type::Void.get_size(), 0);
    assert_eq!(Type::Long.get_size(), 2);
    assert_eq!(Type::Double.get_size(), 2);
    assert_eq!(Type::Int.get_size(), 1);
    assert_eq!(Type::Object("a".to_string()).get_size(), 1);
}

#[test]
fn dimensions_and_element_types() {
    let t = Type::get_type("[[I").unwrap();
    assert_eq!(t.get_dimensions(), 2);
    assert_eq!(Type::Int.get_dimensions(), 0);
    let elem = t.get_element_type().unwrap();
    assert_eq!(elem, &Type::Array(Box::new(Type::Int)));
    assert_eq!(elem.get_dimensions(), 1);
    assert_eq!(Type::Int.get_element_type(), None);
}

#[test]
fn parse_reports_position() {
    let (t, end) = Type::parse("(I)V", 1).unwrap();
    assert_eq!(t, Type::Int);
    assert_eq!(end, 2);
    assert_eq!(Type::parse("(I)V", 9), Err(9));
}

#[test]
fn clone_preserves_structure() {
    let t = Type::get_type("([[IJ)Ljava/lang/String;").unwrap();
    let c = t.clone();
    assert_eq!(c, t);
    assert_eq!(c.get_descriptor(), "([[IJ)Ljava/lang/String;");
}

#[test]
fn nested_method_descriptors_parse() {
    // the grammar admits method types in argument and return position
    roundtrip("((I)V)(J)D");
}
