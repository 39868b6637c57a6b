use classfile::constant_pool::{ConstantPoolBuilder, CpInfo, Handle};

#[test]
fn new_builder_has_reserved_slot() {
    let b = ConstantPoolBuilder::new();
    assert_eq!(b.len(), 1);
    assert_eq!(b.into_pool(), vec![CpInfo::Unusable]);
}

#[test]
fn utf8_deduplicates() {
    let mut b = ConstantPoolBuilder::new();
    let i1 = b.utf8("hello");
    let len = b.len();
    let i2 = b.utf8("hello");
    assert_eq!(i1, i2);
    assert_eq!(b.len(), len);
    let i3 = b.utf8("world");
    assert_ne!(i1, i3);
}

#[test]
fn class_deduplicates() {
    let mut b = ConstantPoolBuilder::new();
    let i1 = b.class("java/lang/Object");
    let len = b.len();
    let i2 = b.class("java/lang/Object");
    assert_eq!(i1, i2);
    assert_eq!(b.len(), len);
}

#[test]
fn string_deduplicates_and_wires() {
    let mut b = ConstantPoolBuilder::new();
    let i1 = b.string("hi");
    let len = b.len();
    let i2 = b.string("hi");
    assert_eq!(i1, i2);
    assert_eq!(b.len(), len);
    let pool = b.into_pool();
    assert_eq!(
        pool,
        vec![
            CpInfo::Unusable,
            CpInfo::Utf8("hi".to_string()),
            CpInfo::String { string_index: 1 },
        ]
    );
    assert_eq!(i1, 2);
    assert_eq!(len, 3);
}

#[test]
fn name_and_type_deduplicates() {
    let mut b = ConstantPoolBuilder::new();
    let i1 = b.name_and_type("m", "()V");
    let len = b.len();
    let i2 = b.name_and_type("m", "()V");
    assert_eq!(i1, i2);
    assert_eq!(b.len(), len);
    let i3 = b.name_and_type("m", "()I");
    assert_ne!(i1, i3);
}

#[test]
fn field_ref_deduplicates() {
    let mut b = ConstantPoolBuilder::new();
    let i1 = b.field_ref("a/B", "f", "I");
    let len = b.len();
    let i2 = b.field_ref("a/B", "f", "I");
    assert_eq!(i1, i2);
    assert_eq!(b.len(), len);
}

#[test]
fn method_ref_deduplicates() {
    let mut b = ConstantPoolBuilder::new();
    let i1 = b.method_ref("a/B", "m", "()V");
    let len = b.len();
    let i2 = b.method_ref("a/B", "m", "()V");
    assert_eq!(i1, i2);
    assert_eq!(b.len(), len);
}

#[test]
fn interface_method_ref_deduplicates() {
    let mut b = ConstantPoolBuilder::new();
    let i1 = b.interface_method_ref("a/I", "m", "()V");
    let len = b.len();
    let i2 = b.interface_method_ref("a/I", "m", "()V");
    assert_eq!(i1, i2);
    assert_eq!(b.len(), len);
}

#[test]
fn method_type_deduplicates() {
    let mut b = ConstantPoolBuilder::new();
    let i1 = b.method_type("(I)V");
    let len = b.len();
    let i2 = b.method_type("(I)V");
    assert_eq!(i1, i2);
    assert_eq!(b.len(), len);
}

fn handle(kind: u8) -> Handle {
    Handle {
        reference_kind: kind,
        owner: "a/B".to_string(),
        name: "m".to_string(),
        descriptor: "()V".to_string(),
        is_interface: false,
    }
}

#[test]
fn method_handle_deduplicates() {
    let mut b = ConstantPoolBuilder::new();
    let h = handle(6);
    let i1 = b.method_handle(&h);
    let len = b.len();
    let i2 = b.method_handle(&h);
    assert_eq!(i1, i2);
    assert_eq!(b.len(), len);
}

#[test]
fn invoke_dynamic_deduplicates() {
    let mut b = ConstantPoolBuilder::new();
    let i1 = b.invoke_dynamic(3, "call", "()V");
    let len = b.len();
    let i2 = b.invoke_dynamic(3, "call", "()V");
    assert_eq!(i1, i2);
    assert_eq!(b.len(), len);
    let i3 = b.invoke_dynamic(4, "call", "()V");
    assert_ne!(i1, i3);
}

#[test]
fn long_takes_two_slots() {
    let mut b = ConstantPoolBuilder::new();
    let len = b.len();
    let i = b.long(77);
    assert_eq!(i as usize, len);
    assert_eq!(b.len(), len + 2);
    let pool = b.into_pool();
    assert_eq!(pool[i as usize], CpInfo::Long(77));
    assert_eq!(pool[i as usize + 1], CpInfo::Unusable);
}

#[test]
fn double_takes_two_slots() {
    let mut b = ConstantPoolBuilder::new();
    let len = b.len();
    let i = b.double(2.5f64.to_bits());
    assert_eq!(i as usize, len);
    assert_eq!(b.len(), len + 2);
    let pool = b.into_pool();
    assert_eq!(pool[i as usize], CpInfo::Double(2.5f64.to_bits()));
    assert_eq!(pool[i as usize + 1], CpInfo::Unusable);
}

#[test]
fn integer_is_never_deduplicated() {
    let mut b = ConstantPoolBuilder::new();
    let i1 = b.integer(5);
    let i2 = b.integer(5);
    assert_ne!(i1, i2);
    let pool = b.into_pool();
    assert_eq!(pool[i1 as usize], CpInfo::Integer(5));
    assert_eq!(pool[i2 as usize], CpInfo::Integer(5));
}

#[test]
fn float_is_never_deduplicated() {
    let mut b = ConstantPoolBuilder::new();
    let bits = 5.0f32.to_bits();
    let i1 = b.float(bits);
    let i2 = b.float(bits);
    assert_ne!(i1, i2);
    let pool = b.into_pool();
    assert_eq!(pool[i1 as usize], CpInfo::Float(bits));
    assert_eq!(pool[i2 as usize], CpInfo::Float(bits));
}

#[test]
fn method_ref_materializes_dependencies() {
    let mut b = ConstantPoolBuilder::new();
    let i = b.method_ref("a/B", "m", "()V");
    assert_eq!(i, 6);
    let pool = b.into_pool();
    assert_eq!(
        pool,
        vec![
            CpInfo::Unusable,
            CpInfo::Utf8("a/B".to_string()),
            CpInfo::Class { name_index: 1 },
            CpInfo::Utf8("m".to_string()),
            CpInfo::Utf8("()V".to_string()),
            CpInfo::NameAndType { name_index: 3, descriptor_index: 4 },
            CpInfo::Methodref { class_index: 2, name_and_type_index: 5 },
        ]
    );
}

#[test]
fn method_handle_get_static_uses_field_path() {
    let mut b = ConstantPoolBuilder::new();
    let h = Handle {
        reference_kind: 2,
        owner: "a/B".to_string(),
        name: "f".to_string(),
        descriptor: "I".to_string(),
        is_interface: false,
    };
    let i = b.method_handle(&h);
    let pool = b.into_pool();
    match pool[i as usize] {
        CpInfo::MethodHandle { reference_kind, reference_index } => {
            assert_eq!(reference_kind, 2);
            assert!(matches!(
                pool[reference_index as usize],
                CpInfo::Fieldref { .. }
            ));
        }
        ref other => panic!("expected a method handle, got {:?}", other),
    }
}

#[test]
fn method_handle_interface_kind_uses_interface_path() {
    let mut b = ConstantPoolBuilder::new();
    let mut h = handle(9);
    h.is_interface = true;
    let i = b.method_handle(&h);
    let pool = b.into_pool();
    match pool[i as usize] {
        CpInfo::MethodHandle { reference_kind, reference_index } => {
            assert_eq!(reference_kind, 9);
            assert!(matches!(
                pool[reference_index as usize],
                CpInfo::InterfaceMethodref { .. }
            ));
        }
        ref other => panic!("expected a method handle, got {:?}", other),
    }
}

#[test]
fn method_handle_invoke_virtual_uses_method_path() {
    let mut b = ConstantPoolBuilder::new();
    let h = handle(6);
    let i = b.method_handle(&h);
    let pool = b.into_pool();
    match pool[i as usize] {
        CpInfo::MethodHandle { reference_kind, reference_index } => {
            assert_eq!(reference_kind, 6);
            assert!(matches!(
                pool[reference_index as usize],
                CpInfo::Methodref { .. }
            ));
        }
        ref other => panic!("expected a method handle, got {:?}", other),
    }
}

#[test]
fn invoke_dynamic_wires_name_and_type() {
    let mut b = ConstantPoolBuilder::new();
    let i = b.invoke_dynamic(7, "call", "()V");
    let pool = b.into_pool();
    match pool[i as usize] {
        CpInfo::InvokeDynamic { bootstrap_method_attr_index, name_and_type_index } => {
            assert_eq!(bootstrap_method_attr_index, 7);
            assert!(matches!(
                pool[name_and_type_index as usize],
                CpInfo::NameAndType { .. }
            ));
        }
        ref other => panic!("expected an invoke-dynamic entry, got {:?}", other),
    }
}

#[test]
fn class_reuses_index_assigned_through_method_ref() {
    let mut b = ConstantPoolBuilder::new();
    b.method_ref("java/lang/Object", "toString", "()Ljava/lang/String;");
    let len = b.len();
    let i = b.class("java/lang/Object");
    // the owner's class entry was created while resolving the method ref
    assert_eq!(i, 2);
    assert_eq!(b.len(), len);
}

#[test]
fn from_pool_empty_seeds_reserved_slot() {
    let b = ConstantPoolBuilder::from_pool(Vec::new());
    assert_eq!(b.into_pool(), vec![CpInfo::Unusable]);
}

#[test]
fn from_pool_reuses_existing_entries() {
    let pool = vec![
        CpInfo::Unusable,
        CpInfo::Utf8("x".to_string()),
        CpInfo::Class { name_index: 1 },
    ];
    let mut b = ConstantPoolBuilder::from_pool(pool.clone());
    assert_eq!(b.utf8("x"), 1);
    assert_eq!(b.class("x"), 2);
    assert_eq!(b.into_pool(), pool);
}

#[test]
fn from_pool_skips_unresolvable_entries() {
    // the Fieldref's class index points at a Utf8, not a Class entry
    let pool = vec![
        CpInfo::Unusable,
        CpInfo::Utf8("a/B".to_string()),
        CpInfo::Utf8("f".to_string()),
        CpInfo::Utf8("I".to_string()),
        CpInfo::NameAndType { name_index: 2, descriptor_index: 3 },
        CpInfo::Fieldref { class_index: 1, name_and_type_index: 4 },
    ];
    let mut b = ConstantPoolBuilder::from_pool(pool);
    let len = b.len();
    let i = b.field_ref("a/B", "f", "I");
    // the malformed entry was not adopted for deduplication, so a fresh
    // entry chain is appended rather than index 5 reused
    assert!(i as usize >= len);
    let pool = b.into_pool();
    assert!(matches!(pool[i as usize], CpInfo::Fieldref { .. }));
}

#[test]
fn from_pool_first_occurrence_wins() {
    let pool = vec![
        CpInfo::Unusable,
        CpInfo::Utf8("dup".to_string()),
        CpInfo::Utf8("dup".to_string()),
    ];
    let mut b = ConstantPoolBuilder::from_pool(pool);
    assert_eq!(b.utf8("dup"), 1);
}

#[test]
fn utf8_empty_string_deduplicates() {
    let mut b = ConstantPoolBuilder::new();
    let i1 = b.utf8("");
    let i2 = b.utf8("");
    assert_eq!(i1, 1);
    assert_eq!(i1, i2);
}

#[test]
fn method_type_wires_descriptor() {
    let mut b = ConstantPoolBuilder::new();
    let i = b.method_type("(I)V");
    assert_eq!(i, 2);
    assert_eq!(
        b.into_pool(),
        vec![
            CpInfo::Unusable,
            CpInfo::Utf8("(I)V".to_string()),
            CpInfo::MethodType { descriptor_index: 1 },
        ]
    );
}

#[test]
fn name_and_type_wires_both_strings() {
    let mut b = ConstantPoolBuilder::new();
    let i = b.name_and_type("m", "()V");
    assert_eq!(i, 3);
    assert_eq!(
        b.into_pool(),
        vec![
            CpInfo::Unusable,
            CpInfo::Utf8("m".to_string()),
            CpInfo::Utf8("()V".to_string()),
            CpInfo::NameAndType { name_index: 1, descriptor_index: 2 },
        ]
    );
}

#[test]
fn from_pool_adopts_method_handle() {
    let pool = vec![
        CpInfo::Unusable,
        CpInfo::Utf8("a/B".to_string()),
        CpInfo::Class { name_index: 1 },
        CpInfo::Utf8("m".to_string()),
        CpInfo::Utf8("()V".to_string()),
        CpInfo::NameAndType { name_index: 3, descriptor_index: 4 },
        CpInfo::Methodref { class_index: 2, name_and_type_index: 5 },
        CpInfo::MethodHandle { reference_kind: 6, reference_index: 6 },
    ];
    let mut b = ConstantPoolBuilder::from_pool(pool);
    let len = b.len();
    let i = b.method_handle(&handle(6));
    assert_eq!(i, 7);
    assert_eq!(b.len(), len);
}

#[test]
fn from_pool_out_of_bounds_index_is_tolerated() {
    let pool = vec![CpInfo::Unusable, CpInfo::Class { name_index: 500 }];
    let mut b = ConstantPoolBuilder::from_pool(pool);
    // the class entry is unresolvable, so the same name gets a fresh chain
    let i = b.class("x");
    assert_eq!(i, 3);
    let pool = b.into_pool();
    assert_eq!(pool[2], CpInfo::Utf8("x".to_string()));
    assert_eq!(pool[3], CpInfo::Class { name_index: 2 });
}
