//! Plain data aggregates describing a compiled unit: the class header, its
//! fields, methods, inner-class entries and generic attribute blobs. These
//! carry data produced and consumed by the constant pool and the type
//! model; they have no algorithmic content of their own.

use crate::constant_pool::CpInfo;
use vstd::prelude::*;

verus! {

/// A generic attribute blob: a named, uninterpreted byte payload attached
/// to a class, field, method or code block.
#[derive(Debug, Clone, PartialEq)]
pub struct AttributeInfo {
    /// The attribute's name (e.g. `SourceFile`, `Signature`).
    pub name: String,
    /// The attribute's raw payload, uninterpreted.
    pub info: Vec<u8>,
}

/// One exception handler's raw entry in a method's code: the protected
/// range, the handler target, and the pool index of the caught class (0
/// for a catch-all).
#[derive(Debug, Clone, PartialEq)]
pub struct ExceptionTableEntry {
    pub start_pc: u16,
    pub end_pc: u16,
    pub handler_pc: u16,
    pub catch_type: u16,
}

/// An inner class entry: a decoded view of one record of the
/// `InnerClasses` attribute.
#[derive(Debug, Clone, PartialEq)]
pub struct InnerClassNode {
    /// The internal name of the inner class (e.g. `a/b/Outer$Inner`).
    pub name: String,
    /// The internal name of the enclosing class, if any.
    pub outer_name: Option<String>,
    /// The simple (unqualified) name of the inner class, if any.
    pub inner_name: Option<String>,
    /// The access flags of the inner class as declared in source.
    pub access_flags: u16,
}

/// A field (member variable) of a class.
#[derive(Debug, Clone, PartialEq)]
pub struct FieldNode {
    /// A bitmask of access flags (e.g. public, static, final).
    pub access_flags: u16,
    /// The constant pool index containing the name of the field.
    pub name_index: u16,
    /// The constant pool index containing the field descriptor.
    pub descriptor_index: u16,
    /// The name of the field.
    pub name: String,
    /// The field descriptor (e.g. `Ljava/lang/String;` or `I`).
    pub descriptor: String,
    /// Attributes associated with this field.
    pub attributes: Vec<AttributeInfo>,
}

/// A method of a class. The decoded instruction list itself lives with the
/// binary reader and writer, which consume and produce pool indices and
/// descriptors through this model.
#[derive(Debug, Clone, PartialEq)]
pub struct MethodNode {
    /// A bitmask of access flags (e.g. public, static, synchronized).
    pub access_flags: u16,
    /// The name of the method.
    pub name: String,
    /// The method descriptor describing parameter types and return type.
    pub descriptor: String,
    /// Whether this method has a code block; `false` for native or
    /// abstract methods.
    pub has_code: bool,
    /// The maximum operand-stack size required by the method's code.
    pub max_stack: u16,
    /// The maximum number of local-variable slots required by the method's
    /// code.
    pub max_locals: u16,
    /// Exception handlers (raw entries in the code block).
    pub exception_table: Vec<ExceptionTableEntry>,
    /// Attributes associated with the code block (e.g. line numbers).
    pub code_attributes: Vec<AttributeInfo>,
    /// Other attributes associated with this method.
    pub attributes: Vec<AttributeInfo>,
}

/// A parsed class file: its header fields, constant pool, interfaces,
/// fields, methods and attributes.
#[derive(Debug, Clone, PartialEq)]
pub struct ClassNode {
    /// The minor version of the class file format.
    pub minor_version: u16,
    /// The major version of the class file format.
    pub major_version: u16,
    /// A bitmask of access flags of this class.
    pub access_flags: u16,
    /// The raw constant pool; index 0 is reserved.
    pub constant_pool: Vec<CpInfo>,
    /// The constant pool index of this class's own `Class` entry.
    pub this_class: u16,
    /// The internal name of the class.
    pub name: String,
    /// The internal name of the superclass; `None` at the root of the
    /// class hierarchy.
    pub super_name: Option<String>,
    /// The source file name, if its attribute was present.
    pub source_file: Option<String>,
    /// Internal names of the direct superinterfaces.
    pub interfaces: Vec<String>,
    /// Constant pool indices of the direct superinterfaces.
    pub interface_indices: Vec<u16>,
    /// The fields declared by this class or interface.
    pub fields: Vec<FieldNode>,
    /// The methods declared by this class or interface.
    pub methods: Vec<MethodNode>,
    /// Global attributes associated with the class.
    pub attributes: Vec<AttributeInfo>,
    /// The decoded inner class entries.
    pub inner_classes: Vec<InnerClassNode>,
    /// The internal name of the enclosing class; empty when none is known.
    pub outer_class: String,
}

impl ClassNode {
    /// An empty class model: every count zero, every list empty, every
    /// name blank.
    pub fn new() -> (r: Self)
        ensures
            r.minor_version == 0,
            r.major_version == 0,
            r.access_flags == 0,
            r.constant_pool@.len() == 0,
            r.this_class == 0,
            r.name@.len() == 0,
            r.super_name is None,
            r.source_file is None,
            r.interfaces@.len() == 0,
            r.interface_indices@.len() == 0,
            r.fields@.len() == 0,
            r.methods@.len() == 0,
            r.attributes@.len() == 0,
            r.inner_classes@.len() == 0,
            r.outer_class@.len() == 0,
    {
        ClassNode {
            minor_version: 0,
            major_version: 0,
            access_flags: 0,
            constant_pool: Vec::new(),
            this_class: 0,
            name: String::new(),
            super_name: None,
            source_file: None,
            interfaces: Vec::new(),
            interface_indices: Vec::new(),
            fields: Vec::new(),
            methods: Vec::new(),
            attributes: Vec::new(),
            inner_classes: Vec::new(),
            outer_class: String::new(),
        }
    }
}

} // verus!
