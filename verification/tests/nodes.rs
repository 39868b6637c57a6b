use classfile::constant_pool::CpInfo;
use classfile::nodes::{
    AttributeInfo, ClassNode, ExceptionTableEntry, FieldNode, InnerClassNode, MethodNode,
};

#[test]
fn class_node_new_is_empty() {
    let c = ClassNode::new();
    assert_eq!(c.minor_version, 0);
    assert_eq!(c.major_version, 0);
    assert_eq!(c.access_flags, 0);
    assert!(c.constant_pool.is_empty());
    assert_eq!(c.this_class, 0);
    assert_eq!(c.name, "");
    assert_eq!(c.super_name, None);
    assert_eq!(c.source_file, None);
    assert!(c.interfaces.is_empty());
    assert!(c.interface_indices.is_empty());
    assert!(c.fields.is_empty());
    assert!(c.methods.is_empty());
    assert!(c.attributes.is_empty());
    assert!(c.inner_classes.is_empty());
    assert_eq!(c.outer_class, "");
}

#[test]
fn class_node_carries_pool_and_members() {
    let mut c = ClassNode::new();
    c.major_version = 61;
    c.name = "a/B".to_string();
    c.super_name = Some("java/lang/Object".to_string());
    c.constant_pool = vec![CpInfo::Unusable, CpInfo::Utf8("a/B".to_string())];
    c.fields.push(FieldNode {
        access_flags: 2,
        name_index: 3,
        descriptor_index: 4,
        name: "f".to_string(),
        descriptor: "I".to_string(),
        attributes: vec![AttributeInfo { name: "Synthetic".to_string(), info: Vec::new() }],
    });
    c.methods.push(MethodNode {
        access_flags: 1,
        name: "m".to_string(),
        descriptor: "()V".to_string(),
        has_code: true,
        max_stack: 2,
        max_locals: 1,
        exception_table: vec![ExceptionTableEntry {
            start_pc: 0,
            end_pc: 4,
            handler_pc: 5,
            catch_type: 0,
        }],
        code_attributes: Vec::new(),
        attributes: Vec::new(),
    });
    c.inner_classes.push(InnerClassNode {
        name: "a/B$C".to_string(),
        outer_name: Some("a/B".to_string()),
        inner_name: Some("C".to_string()),
        access_flags: 9,
    });
    assert_eq!(c.fields[0].descriptor, "I");
    assert_eq!(c.methods[0].exception_table[0].handler_pc, 5);
    assert_eq!(c.inner_classes[0].inner_name.as_deref(), Some("C"));
    assert_eq!(c.constant_pool.len(), 2);
}
