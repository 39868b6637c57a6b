//! The constant-pool builder: deduplicated, index-addressed storage of
//! heterogeneous constants with recursive dependency insertion and the
//! binary format's layout rules (reserved slot 0, double-width entries).

use vstd::prelude::*;

verus! {

/// One constant-pool slot, mirroring the binary format exactly: composite
/// entries hold only indices into the same pool, never nested values.
///
/// The 4-byte and 8-byte floating constants store their IEEE 754 bit
/// patterns; the pool never computes with them, it only carries them.
#[derive(Debug, Clone, PartialEq)]
pub enum CpInfo {
    /// Placeholder: slot 0, and the second slot of each 8-byte constant.
    Unusable,
    Utf8(String),
    Integer(i32),
    /// A 4-byte floating constant, as its IEEE 754 bit pattern.
    Float(u32),
    Long(i64),
    /// An 8-byte floating constant, as its IEEE 754 bit pattern.
    Double(u64),
    Class { name_index: u16 },
    String { string_index: u16 },
    Fieldref { class_index: u16, name_and_type_index: u16 },
    Methodref { class_index: u16, name_and_type_index: u16 },
    InterfaceMethodref { class_index: u16, name_and_type_index: u16 },
    NameAndType { name_index: u16, descriptor_index: u16 },
    MethodHandle { reference_kind: u8, reference_index: u16 },
    MethodType { descriptor_index: u16 },
    Dynamic { bootstrap_method_attr_index: u16, name_and_type_index: u16 },
    InvokeDynamic { bootstrap_method_attr_index: u16, name_and_type_index: u16 },
    Module { name_index: u16 },
    Package { name_index: u16 },
}

/// The mathematical shape of a [`CpInfo`] slot: the same record with the
/// string replaced by its character sequence.
pub enum CpEntry {
    Unusable,
    Utf8(Seq<char>),
    Integer(i32),
    Float(u32),
    Long(i64),
    Double(u64),
    Class { name_index: u16 },
    String { string_index: u16 },
    Fieldref { class_index: u16, name_and_type_index: u16 },
    Methodref { class_index: u16, name_and_type_index: u16 },
    InterfaceMethodref { class_index: u16, name_and_type_index: u16 },
    NameAndType { name_index: u16, descriptor_index: u16 },
    MethodHandle { reference_kind: u8, reference_index: u16 },
    MethodType { descriptor_index: u16 },
    Dynamic { bootstrap_method_attr_index: u16, name_and_type_index: u16 },
    InvokeDynamic { bootstrap_method_attr_index: u16, name_and_type_index: u16 },
    Module { name_index: u16 },
    Package { name_index: u16 },
}

impl View for CpInfo {
    type V = CpEntry;

    open spec fn view(&self) -> CpEntry {
        match self {
            CpInfo::Unusable => CpEntry::Unusable,
            CpInfo::Utf8(s) => CpEntry::Utf8(s@),
            CpInfo::Integer(v) => CpEntry::Integer(*v),
            CpInfo::Float(bits) => CpEntry::Float(*bits),
            CpInfo::Long(v) => CpEntry::Long(*v),
            CpInfo::Double(bits) => CpEntry::Double(*bits),
            CpInfo::Class { name_index } => CpEntry::Class { name_index: *name_index },
            CpInfo::String { string_index } => CpEntry::String { string_index: *string_index },
            CpInfo::Fieldref { class_index, name_and_type_index } => CpEntry::Fieldref {
                class_index: *class_index,
                name_and_type_index: *name_and_type_index,
            },
            CpInfo::Methodref { class_index, name_and_type_index } => CpEntry::Methodref {
                class_index: *class_index,
                name_and_type_index: *name_and_type_index,
            },
            CpInfo::InterfaceMethodref {
                class_index,
                name_and_type_index,
            } => CpEntry::InterfaceMethodref {
                class_index: *class_index,
                name_and_type_index: *name_and_type_index,
            },
            CpInfo::NameAndType { name_index, descriptor_index } => CpEntry::NameAndType {
                name_index: *name_index,
                descriptor_index: *descriptor_index,
            },
            CpInfo::MethodHandle { reference_kind, reference_index } => CpEntry::MethodHandle {
                reference_kind: *reference_kind,
                reference_index: *reference_index,
            },
            CpInfo::MethodType { descriptor_index } => CpEntry::MethodType {
                descriptor_index: *descriptor_index,
            },
            CpInfo::Dynamic {
                bootstrap_method_attr_index,
                name_and_type_index,
            } => CpEntry::Dynamic {
                bootstrap_method_attr_index: *bootstrap_method_attr_index,
                name_and_type_index: *name_and_type_index,
            },
            CpInfo::InvokeDynamic {
                bootstrap_method_attr_index,
                name_and_type_index,
            } => CpEntry::InvokeDynamic {
                bootstrap_method_attr_index: *bootstrap_method_attr_index,
                name_and_type_index: *name_and_type_index,
            },
            CpInfo::Module { name_index } => CpEntry::Module { name_index: *name_index },
            CpInfo::Package { name_index } => CpEntry::Package { name_index: *name_index },
        }
    }
}

impl DeepView for CpInfo {
    type V = CpEntry;

    open spec fn deep_view(&self) -> CpEntry {
        self.view()
    }
}

/// The semantic identity of a deduplicated constant: what two insertion
/// calls must agree on to receive the same pool index.
pub enum KeyShape {
    Utf8(Seq<char>),
    Class(Seq<char>),
    Str(Seq<char>),
    NameAndType(Seq<char>, Seq<char>),
    Field(Seq<char>, Seq<char>, Seq<char>),
    Method(Seq<char>, Seq<char>, Seq<char>),
    InterfaceMethod(Seq<char>, Seq<char>, Seq<char>),
    MethodType(Seq<char>),
    MethodHandle(u8, Seq<char>, Seq<char>, Seq<char>, bool),
    InvokeDynamic(u16, Seq<char>, Seq<char>),
}

/// The executable form of a deduplication key.
#[derive(Debug)]
enum PoolKey {
    Utf8(String),
    Class(String),
    Str(String),
    NameAndType(String, String),
    Field(String, String, String),
    Method(String, String, String),
    InterfaceMethod(String, String, String),
    MethodType(String),
    MethodHandle(u8, String, String, String, bool),
    InvokeDynamic(u16, String, String),
}

impl View for PoolKey {
    type V = KeyShape;

    closed spec fn view(&self) -> KeyShape {
        match self {
            PoolKey::Utf8(a) => KeyShape::Utf8(a@),
            PoolKey::Class(a) => KeyShape::Class(a@),
            PoolKey::Str(a) => KeyShape::Str(a@),
            PoolKey::NameAndType(a, b) => KeyShape::NameAndType(a@, b@),
            PoolKey::Field(a, b, c) => KeyShape::Field(a@, b@, c@),
            PoolKey::Method(a, b, c) => KeyShape::Method(a@, b@, c@),
            PoolKey::InterfaceMethod(a, b, c) => KeyShape::InterfaceMethod(a@, b@, c@),
            PoolKey::MethodType(a) => KeyShape::MethodType(a@),
            PoolKey::MethodHandle(k, a, b, c, i) => KeyShape::MethodHandle(*k, a@, b@, c@, *i),
            PoolKey::InvokeDynamic(bsm, a, b) => KeyShape::InvokeDynamic(*bsm, a@, b@),
        }
    }
}

fn key_eq(a: &PoolKey, b: &PoolKey) -> (r: bool)
    ensures
        r <==> a@ == b@,
{
    match (a, b) {
        (PoolKey::Utf8(x), PoolKey::Utf8(y)) => *x == *y,
        (PoolKey::Class(x), PoolKey::Class(y)) => *x == *y,
        (PoolKey::Str(x), PoolKey::Str(y)) => *x == *y,
        (PoolKey::NameAndType(x1, x2), PoolKey::NameAndType(y1, y2)) => *x1 == *y1 && *x2 == *y2,
        (PoolKey::Field(x1, x2, x3), PoolKey::Field(y1, y2, y3)) => *x1 == *y1 && *x2 == *y2
            && *x3 == *y3,
        (PoolKey::Method(x1, x2, x3), PoolKey::Method(y1, y2, y3)) => *x1 == *y1 && *x2 == *y2
            && *x3 == *y3,
        (PoolKey::InterfaceMethod(x1, x2, x3), PoolKey::InterfaceMethod(y1, y2, y3)) => *x1 == *y1
            && *x2 == *y2 && *x3 == *y3,
        (PoolKey::MethodType(x), PoolKey::MethodType(y)) => *x == *y,
        (PoolKey::MethodHandle(xk, x1, x2, x3, xi), PoolKey::MethodHandle(yk, y1, y2, y3, yi)) => {
            *xk == *yk && *x1 == *y1 && *x2 == *y2 && *x3 == *y3 && *xi == *yi
        },
        (PoolKey::InvokeDynamic(xb, x1, x2), PoolKey::InvokeDynamic(yb, y1, y2)) => {
            *xb == *yb && *x1 == *y1 && *x2 == *y2
        },
        _ => false,
    }
}

/// The association between dedup keys and pool indices held by a key list.
spec fn map_of(entries: Seq<(PoolKey, u16)>) -> Map<KeyShape, u16>
    decreases entries.len(),
{
    if entries.len() == 0 {
        Map::empty()
    } else {
        map_of(entries.drop_last()).insert(entries.last().0@, entries.last().1)
    }
}

proof fn lemma_map_of_contains(entries: Seq<(PoolKey, u16)>, k: KeyShape)
    ensures
        map_of(entries).contains_key(k) <==> exists|i: int|
            0 <= i < entries.len() && entries[i].0@ == k,
    decreases entries.len(),
{
    if entries.len() > 0 {
        lemma_map_of_contains(entries.drop_last(), k);
        if entries.last().0@ == k {
            assert(entries[entries.len() - 1].0@ == k);
        } else if map_of(entries).contains_key(k) {
            let i = choose|i: int| 0 <= i < entries.drop_last().len() && entries.drop_last()[i].0@
                == k;
            assert(entries[i].0@ == k);
        } else {
            assert forall|i: int| 0 <= i < entries.len() implies entries[i].0@ != k by {
                if i < entries.len() - 1 {
                    assert(entries.drop_last()[i].0@ == entries[i].0@);
                }
            }
        }
    }
}

proof fn lemma_map_of_index(entries: Seq<(PoolKey, u16)>, i: int)
    requires
        forall|p: int, q: int|
            0 <= p < q < entries.len() ==> entries[p].0@ != entries[q].0@,
        0 <= i < entries.len(),
    ensures
        map_of(entries).contains_key(entries[i].0@),
        map_of(entries)[entries[i].0@] == entries[i].1,
    decreases entries.len(),
{
    if i < entries.len() - 1 {
        lemma_map_of_index(entries.drop_last(), i);
        assert(entries.drop_last()[i] == entries[i]);
        assert(entries.last().0@ != entries[i].0@);
    }
}

/// A key-to-index table with one entry per key.
struct DedupMap {
    entries: Vec<(PoolKey, u16)>,
}

impl View for DedupMap {
    type V = Map<KeyShape, u16>;

    closed spec fn view(&self) -> Map<KeyShape, u16> {
        map_of(self.entries@)
    }
}

impl DedupMap {
    /// No two entries share a key.
    closed spec fn wf(&self) -> bool {
        forall|p: int, q: int|
            0 <= p < q < self.entries@.len() ==> self.entries@[p].0@ != self.entries@[q].0@
    }

    fn new() -> (r: Self)
        ensures
            r.wf(),
            r@ == Map::<KeyShape, u16>::empty(),
    {
        DedupMap { entries: Vec::new() }
    }

    fn get(&self, key: &PoolKey) -> (r: Option<u16>)
        requires
            self.wf(),
        ensures
            match r {
                Some(i) => self@.contains_key(key@) && i == self@[key@],
                None => !self@.contains_key(key@),
            },
    {
        let n = self.entries.len();
        let mut i: usize = 0;
        while i < n
            invariant
                0 <= i <= n,
                n == self.entries@.len(),
                self.wf(),
                forall|j: int| 0 <= j < i ==> self.entries@[j].0@ != key@,
            decreases n - i,
        {
            if key_eq(&self.entries[i].0, key) {
                proof {
                    lemma_map_of_index(self.entries@, i as int);
                }
                return Some(self.entries[i].1);
            }
            i = i + 1;
        }
        proof {
            lemma_map_of_contains(self.entries@, key@);
        }
        None
    }

    fn insert(&mut self, key: PoolKey, index: u16)
        requires
            old(self).wf(),
            !old(self)@.contains_key(key@),
        ensures
            final(self).wf(),
            final(self)@ == old(self)@.insert(key@, index),
    {
        proof {
            lemma_map_of_contains(self.entries@, key@);
        }
        let ghost old_entries = self.entries@;
        self.entries.push((key, index));
        proof {
            assert(self.entries@.drop_last() =~= old_entries);
        }
    }
}

/// The characters of the `Utf8` entry at slot `i`, if slot `i` holds one.
pub open spec fn utf8_at(cp: Seq<CpEntry>, i: u16) -> Option<Seq<char>> {
    if (i as int) < cp.len() {
        match cp[i as int] {
            CpEntry::Utf8(s) => Some(s),
            _ => None,
        }
    } else {
        None
    }
}

/// The name of the `Class` entry at slot `i`, resolved through its `Utf8`
/// dependency, if both slots hold what the format expects.
pub open spec fn class_name_at(cp: Seq<CpEntry>, i: u16) -> Option<Seq<char>> {
    if (i as int) < cp.len() {
        match cp[i as int] {
            CpEntry::Class { name_index } => utf8_at(cp, name_index),
            _ => None,
        }
    } else {
        None
    }
}

/// The name and descriptor of the `NameAndType` entry at slot `i`, resolved
/// through its `Utf8` dependencies.
pub open spec fn name_and_type_at(cp: Seq<CpEntry>, i: u16) -> Option<(Seq<char>, Seq<char>)> {
    if (i as int) < cp.len() {
        match cp[i as int] {
            CpEntry::NameAndType { name_index, descriptor_index } => match (
                utf8_at(cp, name_index),
                utf8_at(cp, descriptor_index),
            ) {
                (Some(n), Some(d)) => Some((n, d)),
                _ => None,
            },
            _ => None,
        }
    } else {
        None
    }
}

/// The owner, name, descriptor and interface flag of the member reference
/// at slot `i`, fully resolved, if slot `i` holds one of the three
/// reference kinds and all of its dependencies resolve.
pub open spec fn member_ref_at(cp: Seq<CpEntry>, i: u16) -> Option<
    (Seq<char>, Seq<char>, Seq<char>, bool),
> {
    if (i as int) < cp.len() {
        match cp[i as int] {
            CpEntry::Fieldref { class_index, name_and_type_index } => match (
                class_name_at(cp, class_index),
                name_and_type_at(cp, name_and_type_index),
            ) {
                (Some(o), Some((n, d))) => Some((o, n, d, false)),
                _ => None,
            },
            CpEntry::Methodref { class_index, name_and_type_index } => match (
                class_name_at(cp, class_index),
                name_and_type_at(cp, name_and_type_index),
            ) {
                (Some(o), Some((n, d))) => Some((o, n, d, false)),
                _ => None,
            },
            CpEntry::InterfaceMethodref { class_index, name_and_type_index } => match (
                class_name_at(cp, class_index),
                name_and_type_at(cp, name_and_type_index),
            ) {
                (Some(o), Some((n, d))) => Some((o, n, d, true)),
                _ => None,
            },
            _ => None,
        }
    } else {
        None
    }
}

/// Slot `i` holds an entry of the variant that key `k` describes, and every
/// index the entry depends on resolves to `k`'s strings.
pub open spec fn entry_matches(cp: Seq<CpEntry>, i: u16, k: KeyShape) -> bool {
    (i as int) < cp.len() && match k {
        KeyShape::Utf8(s) => cp[i as int] == CpEntry::Utf8(s),
        KeyShape::Class(n) => class_name_at(cp, i) == Some(n),
        KeyShape::Str(s) => (cp[i as int] matches CpEntry::String { string_index } && utf8_at(
            cp,
            string_index,
        ) == Some(s)),
        KeyShape::NameAndType(n, d) => (cp[i as int] matches CpEntry::NameAndType { .. }
            && name_and_type_at(cp, i) == Some((n, d))),
        KeyShape::Field(o, n, d) => (cp[i as int] matches CpEntry::Fieldref { .. }
            && member_ref_at(cp, i) == Some((o, n, d, false))),
        KeyShape::Method(o, n, d) => (cp[i as int] matches CpEntry::Methodref { .. }
            && member_ref_at(cp, i) == Some((o, n, d, false))),
        KeyShape::InterfaceMethod(o, n, d) => (cp[i as int] matches CpEntry::InterfaceMethodref {
            ..
        } && member_ref_at(cp, i) == Some((o, n, d, true))),
        KeyShape::MethodType(d) => (cp[i as int] matches CpEntry::MethodType { descriptor_index }
            && utf8_at(cp, descriptor_index) == Some(d)),
        // the interface flag is part of the key but is not checked against
        // the referenced entry's own variant
        KeyShape::MethodHandle(kind, o, n, d, _itf) => (cp[i as int] matches CpEntry::MethodHandle {
            reference_kind,
            reference_index,
        } && reference_kind == kind && (member_ref_at(cp, reference_index) matches Some(
            (o2, n2, d2, _),
        ) && o2 == o && n2 == n && d2 == d)),
        KeyShape::InvokeDynamic(bsm, n, d) => (cp[i as int] matches CpEntry::InvokeDynamic {
            bootstrap_method_attr_index,
            name_and_type_index,
        } && bootstrap_method_attr_index == bsm && name_and_type_at(cp, name_and_type_index)
            == Some((n, d))),
    }
}

/// The abstract state of a constant-pool builder: the entry sequence and
/// the key-to-index deduplication table.
pub struct PoolModel {
    pub entries: Seq<CpEntry>,
    pub dedup: Map<KeyShape, u16>,
}

/// The builder's invariant: the pool holds at least the reserved slot and
/// at most the format's 65536 slots, and every deduplication key points at
/// a slot whose entry it describes.
pub open spec fn pool_inv(m: PoolModel) -> bool {
    &&& 1 <= m.entries.len() <= 0x10000
    &&& forall|k: KeyShape|
        #[trigger] m.dedup.contains_key(k) ==> entry_matches(m.entries, m.dedup[k], k)
}

/// `m1` extends `m`: the entries of `m` are an unchanged prefix, and every
/// key known to `m` keeps its index.
pub open spec fn pool_extends(m: PoolModel, m1: PoolModel) -> bool {
    &&& m.entries.len() <= m1.entries.len()
    &&& m1.entries.subrange(0, m.entries.len() as int) == m.entries
    &&& forall|k: KeyShape|
        #[trigger] m.dedup.contains_key(k) ==> m1.dedup.contains_key(k) && m1.dedup[k]
            == m.dedup[k]
}

/// Inserting a `Utf8` constant: the previously assigned index if the
/// string is known, else a fresh slot holding it.
pub open spec fn spec_utf8(m: PoolModel, s: Seq<char>) -> (PoolModel, u16) {
    let k = KeyShape::Utf8(s);
    if m.dedup.contains_key(k) {
        (m, m.dedup[k])
    } else {
        let i = m.entries.len() as u16;
        (
            PoolModel { entries: m.entries.push(CpEntry::Utf8(s)), dedup: m.dedup.insert(k, i) },
            i,
        )
    }
}

/// Inserting a `Class` constant, recursively inserting its `Utf8` name.
pub open spec fn spec_class(m: PoolModel, name: Seq<char>) -> (PoolModel, u16) {
    let k = KeyShape::Class(name);
    if m.dedup.contains_key(k) {
        (m, m.dedup[k])
    } else {
        let (m1, name_index) = spec_utf8(m, name);
        let i = m1.entries.len() as u16;
        (
            PoolModel {
                entries: m1.entries.push(CpEntry::Class { name_index }),
                dedup: m1.dedup.insert(k, i),
            },
            i,
        )
    }
}

/// Inserting a `String` constant, recursively inserting its `Utf8` text.
pub open spec fn spec_string(m: PoolModel, s: Seq<char>) -> (PoolModel, u16) {
    let k = KeyShape::Str(s);
    if m.dedup.contains_key(k) {
        (m, m.dedup[k])
    } else {
        let (m1, string_index) = spec_utf8(m, s);
        let i = m1.entries.len() as u16;
        (
            PoolModel {
                entries: m1.entries.push(CpEntry::String { string_index }),
                dedup: m1.dedup.insert(k, i),
            },
            i,
        )
    }
}

/// Inserting an `Integer` constant: always a fresh slot, never
/// deduplicated.
pub open spec fn spec_integer(m: PoolModel, v: i32) -> (PoolModel, u16) {
    (
        PoolModel { entries: m.entries.push(CpEntry::Integer(v)), dedup: m.dedup },
        m.entries.len() as u16,
    )
}

/// Inserting a `Float` constant (by bit pattern): always a fresh slot,
/// never deduplicated.
pub open spec fn spec_float(m: PoolModel, bits: u32) -> (PoolModel, u16) {
    (
        PoolModel { entries: m.entries.push(CpEntry::Float(bits)), dedup: m.dedup },
        m.entries.len() as u16,
    )
}

/// Inserting a `Long` constant: a fresh slot followed by its unusable
/// placeholder slot.
pub open spec fn spec_long(m: PoolModel, v: i64) -> (PoolModel, u16) {
    (
        PoolModel {
            entries: m.entries.push(CpEntry::Long(v)).push(CpEntry::Unusable),
            dedup: m.dedup,
        },
        m.entries.len() as u16,
    )
}

/// Inserting a `Double` constant (by bit pattern): a fresh slot followed by
/// its unusable placeholder slot.
pub open spec fn spec_double(m: PoolModel, bits: u64) -> (PoolModel, u16) {
    (
        PoolModel {
            entries: m.entries.push(CpEntry::Double(bits)).push(CpEntry::Unusable),
            dedup: m.dedup,
        },
        m.entries.len() as u16,
    )
}

/// Inserting a `NameAndType` constant, recursively inserting both `Utf8`
/// dependencies.
pub open spec fn spec_name_and_type(m: PoolModel, n: Seq<char>, d: Seq<char>) -> (PoolModel, u16) {
    let k = KeyShape::NameAndType(n, d);
    if m.dedup.contains_key(k) {
        (m, m.dedup[k])
    } else {
        let (m1, name_index) = spec_utf8(m, n);
        let (m2, descriptor_index) = spec_utf8(m1, d);
        let i = m2.entries.len() as u16;
        (
            PoolModel {
                entries: m2.entries.push(CpEntry::NameAndType { name_index, descriptor_index }),
                dedup: m2.dedup.insert(k, i),
            },
            i,
        )
    }
}

/// Inserting a `Fieldref` constant, recursively inserting its class and
/// name-and-type dependencies.
pub open spec fn spec_field_ref(m: PoolModel, o: Seq<char>, n: Seq<char>, d: Seq<char>) -> (
    PoolModel,
    u16,
) {
    let k = KeyShape::Field(o, n, d);
    if m.dedup.contains_key(k) {
        (m, m.dedup[k])
    } else {
        let (m1, class_index) = spec_class(m, o);
        let (m2, name_and_type_index) = spec_name_and_type(m1, n, d);
        let i = m2.entries.len() as u16;
        (
            PoolModel {
                entries: m2.entries.push(
                    CpEntry::Fieldref { class_index, name_and_type_index },
                ),
                dedup: m2.dedup.insert(k, i),
            },
            i,
        )
    }
}

/// Inserting a `Methodref` constant, recursively inserting its class and
/// name-and-type dependencies.
pub open spec fn spec_method_ref(m: PoolModel, o: Seq<char>, n: Seq<char>, d: Seq<char>) -> (
    PoolModel,
    u16,
) {
    let k = KeyShape::Method(o, n, d);
    if m.dedup.contains_key(k) {
        (m, m.dedup[k])
    } else {
        let (m1, class_index) = spec_class(m, o);
        let (m2, name_and_type_index) = spec_name_and_type(m1, n, d);
        let i = m2.entries.len() as u16;
        (
            PoolModel {
                entries: m2.entries.push(
                    CpEntry::Methodref { class_index, name_and_type_index },
                ),
                dedup: m2.dedup.insert(k, i),
            },
            i,
        )
    }
}

/// Inserting an `InterfaceMethodref` constant, recursively inserting its
/// class and name-and-type dependencies.
pub open spec fn spec_interface_method_ref(
    m: PoolModel,
    o: Seq<char>,
    n: Seq<char>,
    d: Seq<char>,
) -> (PoolModel, u16) {
    let k = KeyShape::InterfaceMethod(o, n, d);
    if m.dedup.contains_key(k) {
        (m, m.dedup[k])
    } else {
        let (m1, class_index) = spec_class(m, o);
        let (m2, name_and_type_index) = spec_name_and_type(m1, n, d);
        let i = m2.entries.len() as u16;
        (
            PoolModel {
                entries: m2.entries.push(
                    CpEntry::InterfaceMethodref { class_index, name_and_type_index },
                ),
                dedup: m2.dedup.insert(k, i),
            },
            i,
        )
    }
}

/// Inserting a `MethodType` constant, recursively inserting its `Utf8`
/// descriptor.
pub open spec fn spec_method_type(m: PoolModel, d: Seq<char>) -> (PoolModel, u16) {
    let k = KeyShape::MethodType(d);
    if m.dedup.contains_key(k) {
        (m, m.dedup[k])
    } else {
        let (m1, descriptor_index) = spec_utf8(m, d);
        let i = m1.entries.len() as u16;
        (
            PoolModel {
                entries: m1.entries.push(CpEntry::MethodType { descriptor_index }),
                dedup: m1.dedup.insert(k, i),
            },
            i,
        )
    }
}

/// Inserting a `MethodHandle` constant: reference kinds 1 through 4 resolve
/// the member through the field path, kind 9 through the interface-method
/// path, every other kind through the plain method path.
pub open spec fn spec_method_handle(
    m: PoolModel,
    kind: u8,
    o: Seq<char>,
    n: Seq<char>,
    d: Seq<char>,
    itf: bool,
) -> (PoolModel, u16) {
    let k = KeyShape::MethodHandle(kind, o, n, d, itf);
    if m.dedup.contains_key(k) {
        (m, m.dedup[k])
    } else {
        let (m1, reference_index) = if 1 <= kind <= 4 {
            spec_field_ref(m, o, n, d)
        } else if kind == 9 {
            spec_interface_method_ref(m, o, n, d)
        } else {
            spec_method_ref(m, o, n, d)
        };
        let i = m1.entries.len() as u16;
        (
            PoolModel {
                entries: m1.entries.push(
                    CpEntry::MethodHandle { reference_kind: kind, reference_index },
                ),
                dedup: m1.dedup.insert(k, i),
            },
            i,
        )
    }
}

/// Inserting an `InvokeDynamic` constant, recursively inserting its
/// name-and-type dependency.
pub open spec fn spec_invoke_dynamic(m: PoolModel, bsm: u16, n: Seq<char>, d: Seq<char>) -> (
    PoolModel,
    u16,
) {
    let k = KeyShape::InvokeDynamic(bsm, n, d);
    if m.dedup.contains_key(k) {
        (m, m.dedup[k])
    } else {
        let (m1, name_and_type_index) = spec_name_and_type(m, n, d);
        let i = m1.entries.len() as u16;
        (
            PoolModel {
                entries: m1.entries.push(
                    CpEntry::InvokeDynamic {
                        bootstrap_method_attr_index: bsm,
                        name_and_type_index,
                    },
                ),
                dedup: m1.dedup.insert(k, i),
            },
            i,
        )
    }
}

proof fn lemma_resolve_push(cp: Seq<CpEntry>, e: CpEntry)
    ensures
        forall|i: u16|
            utf8_at(cp, i) is Some ==> #[trigger] utf8_at(cp.push(e), i) == utf8_at(cp, i),
        forall|i: u16|
            class_name_at(cp, i) is Some ==> #[trigger] class_name_at(cp.push(e), i)
                == class_name_at(cp, i),
        forall|i: u16|
            name_and_type_at(cp, i) is Some ==> #[trigger] name_and_type_at(cp.push(e), i)
                == name_and_type_at(cp, i),
        forall|i: u16|
            member_ref_at(cp, i) is Some ==> #[trigger] member_ref_at(cp.push(e), i)
                == member_ref_at(cp, i),
{
    assert forall|i: u16| utf8_at(cp, i) is Some implies #[trigger] utf8_at(cp.push(e), i)
        == utf8_at(cp, i) by {
        assert(cp.push(e)[i as int] == cp[i as int]);
    }
    assert forall|i: u16| class_name_at(cp, i) is Some implies #[trigger] class_name_at(
        cp.push(e),
        i,
    ) == class_name_at(cp, i) by {
        assert(cp.push(e)[i as int] == cp[i as int]);
    }
    assert forall|i: u16| name_and_type_at(cp, i) is Some implies #[trigger] name_and_type_at(
        cp.push(e),
        i,
    ) == name_and_type_at(cp, i) by {
        assert(cp.push(e)[i as int] == cp[i as int]);
    }
    assert forall|i: u16| member_ref_at(cp, i) is Some implies #[trigger] member_ref_at(
        cp.push(e),
        i,
    ) == member_ref_at(cp, i) by {
        assert(cp.push(e)[i as int] == cp[i as int]);
    }
}

proof fn lemma_matches_push(cp: Seq<CpEntry>, e: CpEntry)
    ensures
        forall|i: u16, k: KeyShape|
            entry_matches(cp, i, k) ==> #[trigger] entry_matches(cp.push(e), i, k),
{
    lemma_resolve_push(cp, e);
    assert forall|i: u16, k: KeyShape| entry_matches(cp, i, k) implies #[trigger] entry_matches(
        cp.push(e),
        i,
        k,
    ) by {
        assert(cp.push(e)[i as int] == cp[i as int]);
    }
}

/// Effect of `spec_utf8`: the invariant is preserved, the pool is extended,
/// the returned index resolves to the string, and the only key possibly
/// added is the string's own.
pub proof fn lemma_spec_utf8(m: PoolModel, s: Seq<char>)
    requires
        pool_inv(m),
        m.entries.len() + 1 <= 0x10000,
    ensures
        ({
            let (m1, i) = spec_utf8(m, s);
            &&& pool_inv(m1)
            &&& pool_extends(m, m1)
            &&& m.entries.len() <= m1.entries.len() <= m.entries.len() + 1
            &&& utf8_at(m1.entries, i) == Some(s)
            &&& m1.dedup.contains_key(KeyShape::Utf8(s)) && m1.dedup[KeyShape::Utf8(s)] == i
            &&& forall|k: KeyShape|
                #[trigger] m1.dedup.contains_key(k) ==> m.dedup.contains_key(k) || k
                    == KeyShape::Utf8(s)
        }),
{
    let k = KeyShape::Utf8(s);
    let (m1, i) = spec_utf8(m, s);
    if m.dedup.contains_key(k) {
        assert(m1.entries.subrange(0, m.entries.len() as int) =~= m.entries);
    } else {
        lemma_matches_push(m.entries, CpEntry::Utf8(s));
        assert(m1.entries[i as int] == CpEntry::Utf8(s));
        assert(m1.entries.subrange(0, m.entries.len() as int) =~= m.entries);
    }
}

/// Effect of `spec_class`: the invariant is preserved, the pool is
/// extended by at most two slots, the returned index resolves to the class
/// name, and the only keys possibly added are the name's `Utf8` key and the
/// class key itself.
pub proof fn lemma_spec_class(m: PoolModel, name: Seq<char>)
    requires
        pool_inv(m),
        m.entries.len() + 2 <= 0x10000,
    ensures
        ({
            let (m1, i) = spec_class(m, name);
            &&& pool_inv(m1)
            &&& pool_extends(m, m1)
            &&& m.entries.len() <= m1.entries.len() <= m.entries.len() + 2
            &&& class_name_at(m1.entries, i) == Some(name)
            &&& m1.dedup.contains_key(KeyShape::Class(name)) && m1.dedup[KeyShape::Class(name)]
                == i
            &&& forall|k: KeyShape|
                #[trigger] m1.dedup.contains_key(k) ==> m.dedup.contains_key(k) || k
                    == KeyShape::Utf8(name) || k == KeyShape::Class(name)
        }),
{
    let k = KeyShape::Class(name);
    let (m1, i) = spec_class(m, name);
    if m.dedup.contains_key(k) {
        assert(m1.entries.subrange(0, m.entries.len() as int) =~= m.entries);
    } else {
        lemma_spec_utf8(m, name);
        let (ma, name_index) = spec_utf8(m, name);
        let e = CpEntry::Class { name_index };
        lemma_matches_push(ma.entries, e);
        lemma_resolve_push(ma.entries, e);
        assert(m1.entries[i as int] == e);
        assert(utf8_at(m1.entries, name_index) == Some(name));
        assert(class_name_at(m1.entries, i) == Some(name));
        assert(entry_matches(m1.entries, i, k));
        assert forall|kk: KeyShape| #[trigger] m1.dedup.contains_key(kk) implies entry_matches(
            m1.entries,
            m1.dedup[kk],
            kk,
        ) by {
            if kk != k {
                assert(ma.dedup.contains_key(kk));
                assert(entry_matches(ma.entries, ma.dedup[kk], kk));
            }
        }
        assert(m1.entries.subrange(0, ma.entries.len() as int) =~= ma.entries);
        assert(m1.entries.subrange(0, m.entries.len() as int) =~= m.entries);
    }
}

/// Effect of `spec_string`, analogous to `lemma_spec_class`.
pub proof fn lemma_spec_string(m: PoolModel, s: Seq<char>)
    requires
        pool_inv(m),
        m.entries.len() + 2 <= 0x10000,
    ensures
        ({
            let (m1, i) = spec_string(m, s);
            &&& pool_inv(m1)
            &&& pool_extends(m, m1)
            &&& m.entries.len() <= m1.entries.len() <= m.entries.len() + 2
            &&& entry_matches(m1.entries, i, KeyShape::Str(s))
            &&& m1.dedup.contains_key(KeyShape::Str(s)) && m1.dedup[KeyShape::Str(s)] == i
            &&& forall|k: KeyShape|
                #[trigger] m1.dedup.contains_key(k) ==> m.dedup.contains_key(k) || k
                    == KeyShape::Utf8(s) || k == KeyShape::Str(s)
        }),
{
    let k = KeyShape::Str(s);
    let (m1, i) = spec_string(m, s);
    if m.dedup.contains_key(k) {
        assert(m1.entries.subrange(0, m.entries.len() as int) =~= m.entries);
    } else {
        lemma_spec_utf8(m, s);
        let (ma, string_index) = spec_utf8(m, s);
        let e = CpEntry::String { string_index };
        lemma_matches_push(ma.entries, e);
        lemma_resolve_push(ma.entries, e);
        assert(m1.entries[i as int] == e);
        assert(utf8_at(m1.entries, string_index) == Some(s));
        assert(entry_matches(m1.entries, i, k));
        assert forall|kk: KeyShape| #[trigger] m1.dedup.contains_key(kk) implies entry_matches(
            m1.entries,
            m1.dedup[kk],
            kk,
        ) by {
            if kk != k {
                assert(ma.dedup.contains_key(kk));
                assert(entry_matches(ma.entries, ma.dedup[kk], kk));
            }
        }
        assert(m1.entries.subrange(0, ma.entries.len() as int) =~= ma.entries);
        assert(m1.entries.subrange(0, m.entries.len() as int) =~= m.entries);
    }
}

/// Effect of `spec_name_and_type`, analogous to `lemma_spec_class`: at most
/// three new slots, and only the two `Utf8` keys and the pair key can be
/// added.
pub proof fn lemma_spec_name_and_type(m: PoolModel, n: Seq<char>, d: Seq<char>)
    requires
        pool_inv(m),
        m.entries.len() + 3 <= 0x10000,
    ensures
        ({
            let (m1, i) = spec_name_and_type(m, n, d);
            &&& pool_inv(m1)
            &&& pool_extends(m, m1)
            &&& m.entries.len() <= m1.entries.len() <= m.entries.len() + 3
            &&& name_and_type_at(m1.entries, i) == Some((n, d))
            &&& m1.dedup.contains_key(KeyShape::NameAndType(n, d)) && m1.dedup[
                KeyShape::NameAndType(n, d)] == i
            &&& forall|k: KeyShape|
                #[trigger] m1.dedup.contains_key(k) ==> m.dedup.contains_key(k) || k
                    == KeyShape::Utf8(n) || k == KeyShape::Utf8(d) || k == KeyShape::NameAndType(
                    n,
                    d,
                )
        }),
{
    let k = KeyShape::NameAndType(n, d);
    let (m1, i) = spec_name_and_type(m, n, d);
    if m.dedup.contains_key(k) {
        assert(m1.entries.subrange(0, m.entries.len() as int) =~= m.entries);
    } else {
        lemma_spec_utf8(m, n);
        let (ma, name_index) = spec_utf8(m, n);
        lemma_spec_utf8(ma, d);
        let (mb, descriptor_index) = spec_utf8(ma, d);
        let e = CpEntry::NameAndType { name_index, descriptor_index };
        lemma_matches_push(mb.entries, e);
        lemma_resolve_push(mb.entries, e);
        assert(m1.entries[i as int] == e);
        // the first utf8 index survives the second insertion and the push
        assert(utf8_at(mb.entries, name_index) == Some(n)) by {
            if (name_index as int) < ma.entries.len() {
                assert(mb.entries.subrange(0, ma.entries.len() as int) == ma.entries);
                assert(mb.entries[name_index as int] == ma.entries[name_index as int]);
            }
        }
        assert(utf8_at(m1.entries, name_index) == Some(n));
        assert(utf8_at(m1.entries, descriptor_index) == Some(d));
        assert(name_and_type_at(m1.entries, i) == Some((n, d)));
        assert(entry_matches(m1.entries, i, k));
        assert forall|kk: KeyShape| #[trigger] m1.dedup.contains_key(kk) implies entry_matches(
            m1.entries,
            m1.dedup[kk],
            kk,
        ) by {
            if kk != k {
                assert(mb.dedup.contains_key(kk));
                assert(entry_matches(mb.entries, mb.dedup[kk], kk));
            }
        }
        assert(m1.entries.subrange(0, mb.entries.len() as int) =~= mb.entries);
        assert(m1.entries.subrange(0, ma.entries.len() as int) =~= ma.entries.subrange(
            0,
            ma.entries.len() as int,
        ));
        assert(m1.entries.subrange(0, m.entries.len() as int) =~= m.entries);
    }
}

proof fn lemma_resolve_extends(cp: Seq<CpEntry>, cp2: Seq<CpEntry>)
    requires
        cp.len() <= cp2.len(),
        cp2.subrange(0, cp.len() as int) == cp,
    ensures
        forall|i: u16| utf8_at(cp, i) is Some ==> #[trigger] utf8_at(cp2, i) == utf8_at(cp, i),
        forall|i: u16|
            class_name_at(cp, i) is Some ==> #[trigger] class_name_at(cp2, i) == class_name_at(
                cp,
                i,
            ),
        forall|i: u16|
            name_and_type_at(cp, i) is Some ==> #[trigger] name_and_type_at(cp2, i)
                == name_and_type_at(cp, i),
        forall|i: u16|
            member_ref_at(cp, i) is Some ==> #[trigger] member_ref_at(cp2, i) == member_ref_at(
                cp,
                i,
            ),
{
    assert forall|i: u16| (i as int) < cp.len() implies cp2[i as int] == cp[i as int] by {
        assert(cp2.subrange(0, cp.len() as int)[i as int] == cp2[i as int]);
    }
}

proof fn lemma_matches_extends(cp: Seq<CpEntry>, cp2: Seq<CpEntry>)
    requires
        cp.len() <= cp2.len(),
        cp2.subrange(0, cp.len() as int) == cp,
    ensures
        forall|i: u16, k: KeyShape|
            entry_matches(cp, i, k) ==> #[trigger] entry_matches(cp2, i, k),
{
    lemma_resolve_extends(cp, cp2);
    assert forall|i: u16, k: KeyShape| entry_matches(cp, i, k) implies #[trigger] entry_matches(
        cp2,
        i,
        k,
    ) by {
        assert(cp2.subrange(0, cp.len() as int)[i as int] == cp2[i as int]);
    }
}

/// Effect of `spec_field_ref`: at most six new slots, the returned index
/// holds a `Fieldref` entry resolving to the given owner, name and
/// descriptor, and only the dependency keys and the field key itself can be
/// added.
pub proof fn lemma_spec_field_ref(m: PoolModel, o: Seq<char>, n: Seq<char>, d: Seq<char>)
    requires
        pool_inv(m),
        m.entries.len() + 6 <= 0x10000,
    ensures
        ({
            let (m1, i) = spec_field_ref(m, o, n, d);
            &&& pool_inv(m1)
            &&& pool_extends(m, m1)
            &&& m.entries.len() <= m1.entries.len() <= m.entries.len() + 6
            &&& entry_matches(m1.entries, i, KeyShape::Field(o, n, d))
            &&& m1.dedup.contains_key(KeyShape::Field(o, n, d)) && m1.dedup[KeyShape::Field(
                o,
                n,
                d,
            )] == i
            &&& forall|k: KeyShape|
                #[trigger] m1.dedup.contains_key(k) ==> m.dedup.contains_key(k) || k
                    == KeyShape::Utf8(o) || k == KeyShape::Class(o) || k == KeyShape::Utf8(n) || k
                    == KeyShape::Utf8(d) || k == KeyShape::NameAndType(n, d) || k
                    == KeyShape::Field(o, n, d)
        }),
{
    let k = KeyShape::Field(o, n, d);
    let (m1, i) = spec_field_ref(m, o, n, d);
    if m.dedup.contains_key(k) {
        assert(m1.entries.subrange(0, m.entries.len() as int) =~= m.entries);
    } else {
        lemma_spec_class(m, o);
        let (ma, class_index) = spec_class(m, o);
        lemma_spec_name_and_type(ma, n, d);
        let (mb, name_and_type_index) = spec_name_and_type(ma, n, d);
        let e = CpEntry::Fieldref { class_index, name_and_type_index };
        lemma_resolve_extends(ma.entries, mb.entries);
        lemma_matches_push(mb.entries, e);
        lemma_resolve_push(mb.entries, e);
        assert(m1.entries[i as int] == e);
        assert(class_name_at(m1.entries, class_index) == Some(o));
        assert(name_and_type_at(m1.entries, name_and_type_index) == Some((n, d)));
        assert(member_ref_at(m1.entries, i) == Some((o, n, d, false)));
        assert(entry_matches(m1.entries, i, k));
        assert forall|kk: KeyShape| #[trigger] m1.dedup.contains_key(kk) implies entry_matches(
            m1.entries,
            m1.dedup[kk],
            kk,
        ) by {
            if kk != k {
                assert(mb.dedup.contains_key(kk));
                assert(entry_matches(mb.entries, mb.dedup[kk], kk));
            }
        }
        assert(m1.entries.subrange(0, mb.entries.len() as int) =~= mb.entries);
        assert(m1.entries.subrange(0, m.entries.len() as int) =~= m.entries);
    }
}

/// Effect of `spec_method_ref`, analogous to `lemma_spec_field_ref`.
pub proof fn lemma_spec_method_ref(m: PoolModel, o: Seq<char>, n: Seq<char>, d: Seq<char>)
    requires
        pool_inv(m),
        m.entries.len() + 6 <= 0x10000,
    ensures
        ({
            let (m1, i) = spec_method_ref(m, o, n, d);
            &&& pool_inv(m1)
            &&& pool_extends(m, m1)
            &&& m.entries.len() <= m1.entries.len() <= m.entries.len() + 6
            &&& entry_matches(m1.entries, i, KeyShape::Method(o, n, d))
            &&& m1.dedup.contains_key(KeyShape::Method(o, n, d)) && m1.dedup[KeyShape::Method(
                o,
                n,
                d,
            )] == i
            &&& forall|k: KeyShape|
                #[trigger] m1.dedup.contains_key(k) ==> m.dedup.contains_key(k) || k
                    == KeyShape::Utf8(o) || k == KeyShape::Class(o) || k == KeyShape::Utf8(n) || k
                    == KeyShape::Utf8(d) || k == KeyShape::NameAndType(n, d) || k
                    == KeyShape::Method(o, n, d)
        }),
{
    let k = KeyShape::Method(o, n, d);
    let (m1, i) = spec_method_ref(m, o, n, d);
    if m.dedup.contains_key(k) {
        assert(m1.entries.subrange(0, m.entries.len() as int) =~= m.entries);
    } else {
        lemma_spec_class(m, o);
        let (ma, class_index) = spec_class(m, o);
        lemma_spec_name_and_type(ma, n, d);
        let (mb, name_and_type_index) = spec_name_and_type(ma, n, d);
        let e = CpEntry::Methodref { class_index, name_and_type_index };
        lemma_resolve_extends(ma.entries, mb.entries);
        lemma_matches_push(mb.entries, e);
        lemma_resolve_push(mb.entries, e);
        assert(m1.entries[i as int] == e);
        assert(class_name_at(m1.entries, class_index) == Some(o));
        assert(name_and_type_at(m1.entries, name_and_type_index) == Some((n, d)));
        assert(member_ref_at(m1.entries, i) == Some((o, n, d, false)));
        assert(entry_matches(m1.entries, i, k));
        assert forall|kk: KeyShape| #[trigger] m1.dedup.contains_key(kk) implies entry_matches(
            m1.entries,
            m1.dedup[kk],
            kk,
        ) by {
            if kk != k {
                assert(mb.dedup.contains_key(kk));
                assert(entry_matches(mb.entries, mb.dedup[kk], kk));
            }
        }
        assert(m1.entries.subrange(0, mb.entries.len() as int) =~= mb.entries);
        assert(m1.entries.subrange(0, m.entries.len() as int) =~= m.entries);
    }
}

/// Effect of `spec_interface_method_ref`, analogous to
/// `lemma_spec_field_ref`.
pub proof fn lemma_spec_interface_method_ref(
    m: PoolModel,
    o: Seq<char>,
    n: Seq<char>,
    d: Seq<char>,
)
    requires
        pool_inv(m),
        m.entries.len() + 6 <= 0x10000,
    ensures
        ({
            let (m1, i) = spec_interface_method_ref(m, o, n, d);
            &&& pool_inv(m1)
            &&& pool_extends(m, m1)
            &&& m.entries.len() <= m1.entries.len() <= m.entries.len() + 6
            &&& entry_matches(m1.entries, i, KeyShape::InterfaceMethod(o, n, d))
            &&& m1.dedup.contains_key(KeyShape::InterfaceMethod(o, n, d)) && m1.dedup[
                KeyShape::InterfaceMethod(o, n, d)] == i
            &&& forall|k: KeyShape|
                #[trigger] m1.dedup.contains_key(k) ==> m.dedup.contains_key(k) || k
                    == KeyShape::Utf8(o) || k == KeyShape::Class(o) || k == KeyShape::Utf8(n) || k
                    == KeyShape::Utf8(d) || k == KeyShape::NameAndType(n, d) || k
                    == KeyShape::InterfaceMethod(o, n, d)
        }),
{
    let k = KeyShape::InterfaceMethod(o, n, d);
    let (m1, i) = spec_interface_method_ref(m, o, n, d);
    if m.dedup.contains_key(k) {
        assert(m1.entries.subrange(0, m.entries.len() as int) =~= m.entries);
    } else {
        lemma_spec_class(m, o);
        let (ma, class_index) = spec_class(m, o);
        lemma_spec_name_and_type(ma, n, d);
        let (mb, name_and_type_index) = spec_name_and_type(ma, n, d);
        let e = CpEntry::InterfaceMethodref { class_index, name_and_type_index };
        lemma_resolve_extends(ma.entries, mb.entries);
        lemma_matches_push(mb.entries, e);
        lemma_resolve_push(mb.entries, e);
        assert(m1.entries[i as int] == e);
        assert(class_name_at(m1.entries, class_index) == Some(o));
        assert(name_and_type_at(m1.entries, name_and_type_index) == Some((n, d)));
        assert(member_ref_at(m1.entries, i) == Some((o, n, d, true)));
        assert(entry_matches(m1.entries, i, k));
        assert forall|kk: KeyShape| #[trigger] m1.dedup.contains_key(kk) implies entry_matches(
            m1.entries,
            m1.dedup[kk],
            kk,
        ) by {
            if kk != k {
                assert(mb.dedup.contains_key(kk));
                assert(entry_matches(mb.entries, mb.dedup[kk], kk));
            }
        }
        assert(m1.entries.subrange(0, mb.entries.len() as int) =~= mb.entries);
        assert(m1.entries.subrange(0, m.entries.len() as int) =~= m.entries);
    }
}

/// Effect of `spec_method_type`, analogous to `lemma_spec_class`.
pub proof fn lemma_spec_method_type(m: PoolModel, d: Seq<char>)
    requires
        pool_inv(m),
        m.entries.len() + 2 <= 0x10000,
    ensures
        ({
            let (m1, i) = spec_method_type(m, d);
            &&& pool_inv(m1)
            &&& pool_extends(m, m1)
            &&& m.entries.len() <= m1.entries.len() <= m.entries.len() + 2
            &&& entry_matches(m1.entries, i, KeyShape::MethodType(d))
            &&& m1.dedup.contains_key(KeyShape::MethodType(d)) && m1.dedup[KeyShape::MethodType(
                d,
            )] == i
            &&& forall|k: KeyShape|
                #[trigger] m1.dedup.contains_key(k) ==> m.dedup.contains_key(k) || k
                    == KeyShape::Utf8(d) || k == KeyShape::MethodType(d)
        }),
{
    let k = KeyShape::MethodType(d);
    let (m1, i) = spec_method_type(m, d);
    if m.dedup.contains_key(k) {
        assert(m1.entries.subrange(0, m.entries.len() as int) =~= m.entries);
    } else {
        lemma_spec_utf8(m, d);
        let (ma, descriptor_index) = spec_utf8(m, d);
        let e = CpEntry::MethodType { descriptor_index };
        lemma_matches_push(ma.entries, e);
        lemma_resolve_push(ma.entries, e);
        assert(m1.entries[i as int] == e);
        assert(utf8_at(m1.entries, descriptor_index) == Some(d));
        assert(entry_matches(m1.entries, i, k));
        assert forall|kk: KeyShape| #[trigger] m1.dedup.contains_key(kk) implies entry_matches(
            m1.entries,
            m1.dedup[kk],
            kk,
        ) by {
            if kk != k {
                assert(ma.dedup.contains_key(kk));
                assert(entry_matches(ma.entries, ma.dedup[kk], kk));
            }
        }
        assert(m1.entries.subrange(0, ma.entries.len() as int) =~= ma.entries);
        assert(m1.entries.subrange(0, m.entries.len() as int) =~= m.entries);
    }
}

/// Effect of `spec_invoke_dynamic`, analogous to `lemma_spec_class`.
pub proof fn lemma_spec_invoke_dynamic(m: PoolModel, bsm: u16, n: Seq<char>, d: Seq<char>)
    requires
        pool_inv(m),
        m.entries.len() + 4 <= 0x10000,
    ensures
        ({
            let (m1, i) = spec_invoke_dynamic(m, bsm, n, d);
            &&& pool_inv(m1)
            &&& pool_extends(m, m1)
            &&& m.entries.len() <= m1.entries.len() <= m.entries.len() + 4
            &&& entry_matches(m1.entries, i, KeyShape::InvokeDynamic(bsm, n, d))
            &&& m1.dedup.contains_key(KeyShape::InvokeDynamic(bsm, n, d)) && m1.dedup[
                KeyShape::InvokeDynamic(bsm, n, d)] == i
            &&& forall|k: KeyShape|
                #[trigger] m1.dedup.contains_key(k) ==> m.dedup.contains_key(k) || k
                    == KeyShape::Utf8(n) || k == KeyShape::Utf8(d) || k == KeyShape::NameAndType(
                    n,
                    d,
                ) || k == KeyShape::InvokeDynamic(bsm, n, d)
        }),
{
    let k = KeyShape::InvokeDynamic(bsm, n, d);
    let (m1, i) = spec_invoke_dynamic(m, bsm, n, d);
    if m.dedup.contains_key(k) {
        assert(m1.entries.subrange(0, m.entries.len() as int) =~= m.entries);
    } else {
        lemma_spec_name_and_type(m, n, d);
        let (ma, name_and_type_index) = spec_name_and_type(m, n, d);
        let e = CpEntry::InvokeDynamic { bootstrap_method_attr_index: bsm, name_and_type_index };
        lemma_matches_push(ma.entries, e);
        lemma_resolve_push(ma.entries, e);
        assert(m1.entries[i as int] == e);
        assert(name_and_type_at(m1.entries, name_and_type_index) == Some((n, d)));
        assert(entry_matches(m1.entries, i, k));
        assert forall|kk: KeyShape| #[trigger] m1.dedup.contains_key(kk) implies entry_matches(
            m1.entries,
            m1.dedup[kk],
            kk,
        ) by {
            if kk != k {
                assert(ma.dedup.contains_key(kk));
                assert(entry_matches(ma.entries, ma.dedup[kk], kk));
            }
        }
        assert(m1.entries.subrange(0, ma.entries.len() as int) =~= ma.entries);
        assert(m1.entries.subrange(0, m.entries.len() as int) =~= m.entries);
    }
}

/// Effect of `spec_method_handle`: the reference kind picks the member
/// path (kinds 1-4 the field path, kind 9 the interface-method path, the
/// rest the plain method path), and the fresh handle entry points at the
/// member reference that path produced.
pub proof fn lemma_spec_method_handle(
    m: PoolModel,
    kind: u8,
    o: Seq<char>,
    n: Seq<char>,
    d: Seq<char>,
    itf: bool,
)
    requires
        pool_inv(m),
        m.entries.len() + 7 <= 0x10000,
    ensures
        ({
            let (m1, i) = spec_method_handle(m, kind, o, n, d, itf);
            &&& pool_inv(m1)
            &&& pool_extends(m, m1)
            &&& m.entries.len() <= m1.entries.len() <= m.entries.len() + 7
            &&& entry_matches(m1.entries, i, KeyShape::MethodHandle(kind, o, n, d, itf))
            &&& m1.dedup.contains_key(KeyShape::MethodHandle(kind, o, n, d, itf)) && m1.dedup[
                KeyShape::MethodHandle(kind, o, n, d, itf)] == i
            &&& !m.dedup.contains_key(KeyShape::MethodHandle(kind, o, n, d, itf)) ==> (
            m1.entries[i as int] matches CpEntry::MethodHandle { reference_kind, reference_index }
                && reference_kind == kind && (1 <= kind <= 4
                ==> m1.entries[reference_index as int] is Fieldref && member_ref_at(
                m1.entries,
                reference_index,
            ) == Some((o, n, d, false))) && (kind == 9 ==> m1.entries[
                reference_index as int] is InterfaceMethodref && member_ref_at(
                m1.entries,
                reference_index,
            ) == Some((o, n, d, true))) && (!(1 <= kind <= 4) && kind != 9 ==> m1.entries[
                reference_index as int] is Methodref && member_ref_at(m1.entries, reference_index)
                == Some((o, n, d, false))))
            &&& forall|k: KeyShape|
                #[trigger] m1.dedup.contains_key(k) ==> m.dedup.contains_key(k) || k
                    == KeyShape::Utf8(o) || k == KeyShape::Class(o) || k == KeyShape::Utf8(n) || k
                    == KeyShape::Utf8(d) || k == KeyShape::NameAndType(n, d) || k
                    == KeyShape::Field(o, n, d) || k == KeyShape::Method(o, n, d) || k
                    == KeyShape::InterfaceMethod(o, n, d) || k == KeyShape::MethodHandle(
                    kind,
                    o,
                    n,
                    d,
                    itf,
                )
        }),
{
    let k = KeyShape::MethodHandle(kind, o, n, d, itf);
    let (m1, i) = spec_method_handle(m, kind, o, n, d, itf);
    if m.dedup.contains_key(k) {
        assert(m1.entries.subrange(0, m.entries.len() as int) =~= m.entries);
    } else {
        if 1 <= kind <= 4 {
            lemma_spec_field_ref(m, o, n, d);
        } else if kind == 9 {
            lemma_spec_interface_method_ref(m, o, n, d);
        } else {
            lemma_spec_method_ref(m, o, n, d);
        }
        let (ma, reference_index) = if 1 <= kind <= 4 {
            spec_field_ref(m, o, n, d)
        } else if kind == 9 {
            spec_interface_method_ref(m, o, n, d)
        } else {
            spec_method_ref(m, o, n, d)
        };
        let e = CpEntry::MethodHandle { reference_kind: kind, reference_index };
        lemma_matches_push(ma.entries, e);
        lemma_resolve_push(ma.entries, e);
        assert(m1.entries[i as int] == e);
        assert(entry_matches(m1.entries, i, k));
        assert forall|kk: KeyShape| #[trigger] m1.dedup.contains_key(kk) implies entry_matches(
            m1.entries,
            m1.dedup[kk],
            kk,
        ) by {
            if kk != k {
                assert(ma.dedup.contains_key(kk));
                assert(entry_matches(ma.entries, ma.dedup[kk], kk));
            }
        }
        assert(m1.entries.subrange(0, ma.entries.len() as int) =~= ma.entries);
        assert(m1.entries.subrange(0, m.entries.len() as int) =~= m.entries);
    }
}

/// Two-slot law for `spec_long`: the pool grows by exactly two slots, the
/// first holding the constant, the second the unusable placeholder, and the
/// deduplication table is untouched.
pub proof fn lemma_spec_long(m: PoolModel, v: i64)
    requires
        pool_inv(m),
        m.entries.len() + 2 <= 0x10000,
    ensures
        ({
            let (m1, i) = spec_long(m, v);
            &&& pool_inv(m1)
            &&& pool_extends(m, m1)
            &&& m1.entries.len() == m.entries.len() + 2
            &&& i == m.entries.len()
            &&& m1.entries[i as int] == CpEntry::Long(v)
            &&& m1.entries[i as int + 1] == CpEntry::Unusable
            &&& m1.dedup == m.dedup
        }),
{
    let (m1, i) = spec_long(m, v);
    lemma_matches_push(m.entries, CpEntry::Long(v));
    lemma_matches_push(m.entries.push(CpEntry::Long(v)), CpEntry::Unusable);
    assert(m1.entries.subrange(0, m.entries.len() as int) =~= m.entries);
}

/// Two-slot law for `spec_double`, as for `spec_long`.
pub proof fn lemma_spec_double(m: PoolModel, bits: u64)
    requires
        pool_inv(m),
        m.entries.len() + 2 <= 0x10000,
    ensures
        ({
            let (m1, i) = spec_double(m, bits);
            &&& pool_inv(m1)
            &&& pool_extends(m, m1)
            &&& m1.entries.len() == m.entries.len() + 2
            &&& i == m.entries.len()
            &&& m1.entries[i as int] == CpEntry::Double(bits)
            &&& m1.entries[i as int + 1] == CpEntry::Unusable
            &&& m1.dedup == m.dedup
        }),
{
    let (m1, i) = spec_double(m, bits);
    lemma_matches_push(m.entries, CpEntry::Double(bits));
    lemma_matches_push(m.entries.push(CpEntry::Double(bits)), CpEntry::Unusable);
    assert(m1.entries.subrange(0, m.entries.len() as int) =~= m.entries);
}

/// Effect of `spec_integer`: always a fresh slot, deduplication untouched.
pub proof fn lemma_spec_integer(m: PoolModel, v: i32)
    requires
        pool_inv(m),
        m.entries.len() + 1 <= 0x10000,
    ensures
        ({
            let (m1, i) = spec_integer(m, v);
            &&& pool_inv(m1)
            &&& pool_extends(m, m1)
            &&& m1.entries.len() == m.entries.len() + 1
            &&& i == m.entries.len()
            &&& m1.entries[i as int] == CpEntry::Integer(v)
            &&& m1.dedup == m.dedup
        }),
{
    let (m1, i) = spec_integer(m, v);
    lemma_matches_push(m.entries, CpEntry::Integer(v));
    assert(m1.entries.subrange(0, m.entries.len() as int) =~= m.entries);
}

/// Effect of `spec_float`: always a fresh slot, deduplication untouched.
pub proof fn lemma_spec_float(m: PoolModel, bits: u32)
    requires
        pool_inv(m),
        m.entries.len() + 1 <= 0x10000,
    ensures
        ({
            let (m1, i) = spec_float(m, bits);
            &&& pool_inv(m1)
            &&& pool_extends(m, m1)
            &&& m1.entries.len() == m.entries.len() + 1
            &&& i == m.entries.len()
            &&& m1.entries[i as int] == CpEntry::Float(bits)
            &&& m1.dedup == m.dedup
        }),
{
    let (m1, i) = spec_float(m, bits);
    lemma_matches_push(m.entries, CpEntry::Float(bits));
    assert(m1.entries.subrange(0, m.entries.len() as int) =~= m.entries);
}

/// The shapes of a pool's slots, index by index.
pub open spec fn pool_view(cp: Seq<CpInfo>) -> Seq<CpEntry> {
    cp.map_values(|e: CpInfo| e@)
}

/// The structural data of a method handle: reference kind, referenced
/// member and interface flag.
#[derive(Debug, Clone, PartialEq)]
pub struct Handle {
    pub reference_kind: u8,
    pub owner: String,
    pub name: String,
    pub descriptor: String,
    pub is_interface: bool,
}

/// A builder for the constant pool of a class: an append-only entry
/// sequence (slot 0 reserved) plus a per-shape deduplication table, so that
/// two calls describing the same logical constant always yield the same
/// index.
pub struct ConstantPoolBuilder {
    cp: Vec<CpInfo>,
    dedup: DedupMap,
}

impl View for ConstantPoolBuilder {
    type V = PoolModel;

    closed spec fn view(&self) -> PoolModel {
        PoolModel { entries: pool_view(self.cp@), dedup: self.dedup@ }
    }
}

impl ConstantPoolBuilder {
    /// The builder's internal tables are consistent and the pool invariant
    /// holds of its abstract state.
    pub closed spec fn wf(&self) -> bool {
        self.dedup.wf() && pool_inv(self@)
    }

    /// A well-formed builder's abstract state satisfies the pool invariant.
    pub proof fn lemma_wf_inv(&self)
        requires
            self.wf(),
        ensures
            pool_inv(self@),
    {
    }

    /// Creates a new, empty builder: the pool holds only the reserved
    /// unusable slot 0, and no constant is known yet.
    pub fn new() -> (r: Self)
        ensures
            r.wf(),
            r@.entries == seq![CpEntry::Unusable],
            r@.dedup == Map::<KeyShape, u16>::empty(),
    {
        let mut cp: Vec<CpInfo> = Vec::new();
        cp.push(CpInfo::Unusable);
        let r = ConstantPoolBuilder { cp, dedup: DedupMap::new() };
        proof {
            assert(r@.entries =~= seq![CpEntry::Unusable]);
        }
        r
    }

    /// The number of slots the pool currently occupies, the reserved slot
    /// included.
    pub fn len(&self) -> (n: usize)
        ensures
            n == self@.entries.len(),
    {
        self.cp.len()
    }

    /// Consumes the builder and returns the raw entry sequence.
    pub fn into_pool(self) -> (r: Vec<CpInfo>)
        ensures
            pool_view(r@) == self@.entries,
    {
        self.cp
    }

    fn push_entry(&mut self, entry: CpInfo) -> (r: u16)
        requires
            old(self)@.entries.len() < 0x10000,
        ensures
            final(self)@.entries == old(self)@.entries.push(entry@),
            final(self)@.dedup == old(self)@.dedup,
            final(self).dedup == old(self).dedup,
            r == old(self)@.entries.len(),
    {
        let ghost old_cp = self.cp@;
        self.cp.push(entry);
        proof {
            assert(pool_view(self.cp@) =~= pool_view(old_cp).push(entry@));
        }
        (self.cp.len() - 1) as u16
    }

    /// Adds a UTF-8 string constant, reusing the existing slot if the same
    /// string was added before.
    pub fn utf8(&mut self, value: &str) -> (r: u16)
        requires
            old(self).wf(),
            old(self)@.entries.len() + 1 <= 0x10000,
        ensures
            final(self).wf(),
            (final(self)@, r) == spec_utf8(old(self)@, value@),
    {
        proof {
            lemma_spec_utf8(old(self)@, value@);
        }
        let key = PoolKey::Utf8(value.to_owned());
        if let Some(i) = self.dedup.get(&key) {
            return i;
        }
        let idx = self.push_entry(CpInfo::Utf8(value.to_owned()));
        self.dedup.insert(key, idx);
        idx
    }

    /// Adds a `Class` constant, recursively adding the class name's UTF-8
    /// entry; idempotent per class name.
    pub fn class(&mut self, name: &str) -> (r: u16)
        requires
            old(self).wf(),
            old(self)@.entries.len() + 2 <= 0x10000,
        ensures
            final(self).wf(),
            (final(self)@, r) == spec_class(old(self)@, name@),
    {
        proof {
            lemma_spec_class(old(self)@, name@);
            lemma_spec_utf8(old(self)@, name@);
        }
        let key = PoolKey::Class(name.to_owned());
        if let Some(i) = self.dedup.get(&key) {
            return i;
        }
        let name_index = self.utf8(name);
        let idx = self.push_entry(CpInfo::Class { name_index });
        self.dedup.insert(key, idx);
        idx
    }

    /// Adds a `String` constant (a string literal), recursively adding its
    /// UTF-8 text; idempotent per text.
    pub fn string(&mut self, value: &str) -> (r: u16)
        requires
            old(self).wf(),
            old(self)@.entries.len() + 2 <= 0x10000,
        ensures
            final(self).wf(),
            (final(self)@, r) == spec_string(old(self)@, value@),
    {
        proof {
            lemma_spec_string(old(self)@, value@);
            lemma_spec_utf8(old(self)@, value@);
        }
        let key = PoolKey::Str(value.to_owned());
        if let Some(i) = self.dedup.get(&key) {
            return i;
        }
        let string_index = self.utf8(value);
        let idx = self.push_entry(CpInfo::String { string_index });
        self.dedup.insert(key, idx);
        idx
    }

    /// Adds an `Integer` constant; numeric literals are never deduplicated,
    /// so every call appends a fresh entry.
    pub fn integer(&mut self, value: i32) -> (r: u16)
        requires
            old(self).wf(),
            old(self)@.entries.len() + 1 <= 0x10000,
        ensures
            final(self).wf(),
            (final(self)@, r) == spec_integer(old(self)@, value),
    {
        proof {
            lemma_spec_integer(old(self)@, value);
        }
        self.push_entry(CpInfo::Integer(value))
    }

    /// Adds a `Float` constant from its IEEE 754 bit pattern; numeric
    /// literals are never deduplicated, so every call appends a fresh
    /// entry.
    pub fn float(&mut self, bits: u32) -> (r: u16)
        requires
            old(self).wf(),
            old(self)@.entries.len() + 1 <= 0x10000,
        ensures
            final(self).wf(),
            (final(self)@, r) == spec_float(old(self)@, bits),
    {
        proof {
            lemma_spec_float(old(self)@, bits);
        }
        self.push_entry(CpInfo::Float(bits))
    }

    /// Adds a `Long` constant; it takes two consecutive slots, the second
    /// being an unusable placeholder, and the returned index is the first.
    pub fn long(&mut self, value: i64) -> (r: u16)
        requires
            old(self).wf(),
            old(self)@.entries.len() + 2 <= 0x10000,
        ensures
            final(self).wf(),
            (final(self)@, r) == spec_long(old(self)@, value),
    {
        proof {
            lemma_spec_long(old(self)@, value);
        }
        let idx = self.push_entry(CpInfo::Long(value));
        self.push_entry(CpInfo::Unusable);
        idx
    }

    /// Adds a `Double` constant from its IEEE 754 bit pattern; it takes two
    /// consecutive slots, the second being an unusable placeholder, and the
    /// returned index is the first.
    pub fn double(&mut self, bits: u64) -> (r: u16)
        requires
            old(self).wf(),
            old(self)@.entries.len() + 2 <= 0x10000,
        ensures
            final(self).wf(),
            (final(self)@, r) == spec_double(old(self)@, bits),
    {
        proof {
            lemma_spec_double(old(self)@, bits);
        }
        let idx = self.push_entry(CpInfo::Double(bits));
        self.push_entry(CpInfo::Unusable);
        idx
    }

    /// Adds a `NameAndType` constant, recursively adding both UTF-8
    /// entries; idempotent per name and descriptor pair.
    pub fn name_and_type(&mut self, name: &str, descriptor: &str) -> (r: u16)
        requires
            old(self).wf(),
            old(self)@.entries.len() + 3 <= 0x10000,
        ensures
            final(self).wf(),
            (final(self)@, r) == spec_name_and_type(old(self)@, name@, descriptor@),
    {
        proof {
            lemma_spec_name_and_type(old(self)@, name@, descriptor@);
            lemma_spec_utf8(old(self)@, name@);
            lemma_spec_utf8(spec_utf8(old(self)@, name@).0, descriptor@);
        }
        let key = PoolKey::NameAndType(name.to_owned(), descriptor.to_owned());
        if let Some(i) = self.dedup.get(&key) {
            return i;
        }
        let name_index = self.utf8(name);
        let descriptor_index = self.utf8(descriptor);
        let idx = self.push_entry(CpInfo::NameAndType { name_index, descriptor_index });
        self.dedup.insert(key, idx);
        idx
    }

    /// Adds a `Fieldref` constant, recursively adding its class and
    /// name-and-type entries; idempotent per owner, name and descriptor.
    pub fn field_ref(&mut self, owner: &str, name: &str, descriptor: &str) -> (r: u16)
        requires
            old(self).wf(),
            old(self)@.entries.len() + 6 <= 0x10000,
        ensures
            final(self).wf(),
            (final(self)@, r) == spec_field_ref(old(self)@, owner@, name@, descriptor@),
    {
        proof {
            lemma_spec_field_ref(old(self)@, owner@, name@, descriptor@);
            lemma_spec_class(old(self)@, owner@);
            lemma_spec_name_and_type(spec_class(old(self)@, owner@).0, name@, descriptor@);
        }
        let key = PoolKey::Field(owner.to_owned(), name.to_owned(), descriptor.to_owned());
        if let Some(i) = self.dedup.get(&key) {
            return i;
        }
        let class_index = self.class(owner);
        let name_and_type_index = self.name_and_type(name, descriptor);
        let idx = self.push_entry(CpInfo::Fieldref { class_index, name_and_type_index });
        self.dedup.insert(key, idx);
        idx
    }

    /// Adds a `Methodref` constant, recursively adding its class and
    /// name-and-type entries; idempotent per owner, name and descriptor.
    pub fn method_ref(&mut self, owner: &str, name: &str, descriptor: &str) -> (r: u16)
        requires
            old(self).wf(),
            old(self)@.entries.len() + 6 <= 0x10000,
        ensures
            final(self).wf(),
            (final(self)@, r) == spec_method_ref(old(self)@, owner@, name@, descriptor@),
    {
        proof {
            lemma_spec_method_ref(old(self)@, owner@, name@, descriptor@);
            lemma_spec_class(old(self)@, owner@);
            lemma_spec_name_and_type(spec_class(old(self)@, owner@).0, name@, descriptor@);
        }
        let key = PoolKey::Method(owner.to_owned(), name.to_owned(), descriptor.to_owned());
        if let Some(i) = self.dedup.get(&key) {
            return i;
        }
        let class_index = self.class(owner);
        let name_and_type_index = self.name_and_type(name, descriptor);
        let idx = self.push_entry(CpInfo::Methodref { class_index, name_and_type_index });
        self.dedup.insert(key, idx);
        idx
    }

    /// Adds an `InterfaceMethodref` constant, recursively adding its class
    /// and name-and-type entries; idempotent per owner, name and
    /// descriptor.
    pub fn interface_method_ref(&mut self, owner: &str, name: &str, descriptor: &str) -> (r: u16)
        requires
            old(self).wf(),
            old(self)@.entries.len() + 6 <= 0x10000,
        ensures
            final(self).wf(),
            (final(self)@, r) == spec_interface_method_ref(old(self)@, owner@, name@, descriptor@),
    {
        proof {
            lemma_spec_interface_method_ref(old(self)@, owner@, name@, descriptor@);
            lemma_spec_class(old(self)@, owner@);
            lemma_spec_name_and_type(spec_class(old(self)@, owner@).0, name@, descriptor@);
        }
        let key = PoolKey::InterfaceMethod(
            owner.to_owned(),
            name.to_owned(),
            descriptor.to_owned(),
        );
        if let Some(i) = self.dedup.get(&key) {
            return i;
        }
        let class_index = self.class(owner);
        let name_and_type_index = self.name_and_type(name, descriptor);
        let idx = self.push_entry(
            CpInfo::InterfaceMethodref { class_index, name_and_type_index },
        );
        self.dedup.insert(key, idx);
        idx
    }

    /// Adds a `MethodType` constant, recursively adding its UTF-8
    /// descriptor; idempotent per descriptor.
    pub fn method_type(&mut self, descriptor: &str) -> (r: u16)
        requires
            old(self).wf(),
            old(self)@.entries.len() + 2 <= 0x10000,
        ensures
            final(self).wf(),
            (final(self)@, r) == spec_method_type(old(self)@, descriptor@),
    {
        proof {
            lemma_spec_method_type(old(self)@, descriptor@);
            lemma_spec_utf8(old(self)@, descriptor@);
        }
        let key = PoolKey::MethodType(descriptor.to_owned());
        if let Some(i) = self.dedup.get(&key) {
            return i;
        }
        let descriptor_index = self.utf8(descriptor);
        let idx = self.push_entry(CpInfo::MethodType { descriptor_index });
        self.dedup.insert(key, idx);
        idx
    }

    /// Adds a `MethodHandle` constant: reference kinds 1 through 4 resolve
    /// the member through `field_ref`, kind 9 through
    /// `interface_method_ref`, every other kind through `method_ref`;
    /// idempotent per handle.
    pub fn method_handle(&mut self, handle: &Handle) -> (r: u16)
        requires
            old(self).wf(),
            old(self)@.entries.len() + 7 <= 0x10000,
        ensures
            final(self).wf(),
            (final(self)@, r) == spec_method_handle(
                old(self)@,
                handle.reference_kind,
                handle.owner@,
                handle.name@,
                handle.descriptor@,
                handle.is_interface,
            ),
    {
        proof {
            lemma_spec_method_handle(
                old(self)@,
                handle.reference_kind,
                handle.owner@,
                handle.name@,
                handle.descriptor@,
                handle.is_interface,
            );
            if 1 <= handle.reference_kind <= 4 {
                lemma_spec_field_ref(old(self)@, handle.owner@, handle.name@, handle.descriptor@);
            } else if handle.reference_kind == 9 {
                lemma_spec_interface_method_ref(
                    old(self)@,
                    handle.owner@,
                    handle.name@,
                    handle.descriptor@,
                );
            } else {
                lemma_spec_method_ref(old(self)@, handle.owner@, handle.name@, handle.descriptor@);
            }
        }
        let key = PoolKey::MethodHandle(
            handle.reference_kind,
            handle.owner.clone(),
            handle.name.clone(),
            handle.descriptor.clone(),
            handle.is_interface,
        );
        if let Some(i) = self.dedup.get(&key) {
            return i;
        }
        let reference_index = if handle.reference_kind >= 1 && handle.reference_kind <= 4 {
            self.field_ref(
                handle.owner.as_str(),
                handle.name.as_str(),
                handle.descriptor.as_str(),
            )
        } else if handle.reference_kind == 9 {
            self.interface_method_ref(
                handle.owner.as_str(),
                handle.name.as_str(),
                handle.descriptor.as_str(),
            )
        } else {
            self.method_ref(
                handle.owner.as_str(),
                handle.name.as_str(),
                handle.descriptor.as_str(),
            )
        };
        let idx = self.push_entry(
            CpInfo::MethodHandle { reference_kind: handle.reference_kind, reference_index },
        );
        self.dedup.insert(key, idx);
        idx
    }

    /// Adds an `InvokeDynamic` constant for the given bootstrap-method
    /// index, recursively adding the name-and-type entry; idempotent per
    /// bootstrap index, name and descriptor.
    pub fn invoke_dynamic(&mut self, bsm_index: u16, name: &str, descriptor: &str) -> (r: u16)
        requires
            old(self).wf(),
            old(self)@.entries.len() + 4 <= 0x10000,
        ensures
            final(self).wf(),
            (final(self)@, r) == spec_invoke_dynamic(old(self)@, bsm_index, name@, descriptor@),
    {
        proof {
            lemma_spec_invoke_dynamic(old(self)@, bsm_index, name@, descriptor@);
            lemma_spec_name_and_type(old(self)@, name@, descriptor@);
        }
        let key = PoolKey::InvokeDynamic(bsm_index, name.to_owned(), descriptor.to_owned());
        if let Some(i) = self.dedup.get(&key) {
            return i;
        }
        let name_and_type_index = self.name_and_type(name, descriptor);
        let idx = self.push_entry(
            CpInfo::InvokeDynamic { bootstrap_method_attr_index: bsm_index, name_and_type_index },
        );
        self.dedup.insert(key, idx);
        idx
    }
}

/// The deduplication key that adopting a pool derives from slot `i`, if
/// every index the slot's entry depends on resolves to well-formed leaf
/// entries; entries that are never deduplicated, and entries whose
/// dependencies do not resolve, yield no key.
pub open spec fn key_of_entry(cp: Seq<CpEntry>, i: u16) -> Option<KeyShape>
    recommends
        (i as int) < cp.len(),
{
    match cp[i as int] {
        CpEntry::Utf8(s) => Some(KeyShape::Utf8(s)),
        CpEntry::Class { name_index } => match utf8_at(cp, name_index) {
            Some(n) => Some(KeyShape::Class(n)),
            None => None,
        },
        CpEntry::String { string_index } => match utf8_at(cp, string_index) {
            Some(s) => Some(KeyShape::Str(s)),
            None => None,
        },
        CpEntry::NameAndType { .. } => match name_and_type_at(cp, i) {
            Some((n, d)) => Some(KeyShape::NameAndType(n, d)),
            None => None,
        },
        CpEntry::Fieldref { .. } => match member_ref_at(cp, i) {
            Some((o, n, d, _)) => Some(KeyShape::Field(o, n, d)),
            None => None,
        },
        CpEntry::Methodref { .. } => match member_ref_at(cp, i) {
            Some((o, n, d, _)) => Some(KeyShape::Method(o, n, d)),
            None => None,
        },
        CpEntry::InterfaceMethodref { .. } => match member_ref_at(cp, i) {
            Some((o, n, d, _)) => Some(KeyShape::InterfaceMethod(o, n, d)),
            None => None,
        },
        CpEntry::MethodType { descriptor_index } => match utf8_at(cp, descriptor_index) {
            Some(d) => Some(KeyShape::MethodType(d)),
            None => None,
        },
        CpEntry::MethodHandle { reference_kind, reference_index } => match member_ref_at(
            cp,
            reference_index,
        ) {
            Some((o, n, d, itf)) => Some(KeyShape::MethodHandle(reference_kind, o, n, d, itf)),
            None => None,
        },
        CpEntry::InvokeDynamic {
            bootstrap_method_attr_index,
            name_and_type_index,
        } => match name_and_type_at(cp, name_and_type_index) {
            Some((n, d)) => Some(
                KeyShape::InvokeDynamic(bootstrap_method_attr_index, n, d),
            ),
            None => None,
        },
        _ => None,
    }
}

/// The deduplication table that adopting a pool reconstructs from its first
/// `n` slots: one walk, first occurrence of each key wins.
pub open spec fn rebuild(cp: Seq<CpEntry>, n: int) -> Map<KeyShape, u16>
    decreases n,
{
    if n <= 0 {
        Map::empty()
    } else {
        let m = rebuild(cp, n - 1);
        match key_of_entry(cp, (n - 1) as u16) {
            Some(k) => if m.contains_key(k) {
                m
            } else {
                m.insert(k, (n - 1) as u16)
            },
            None => m,
        }
    }
}

proof fn lemma_key_of_entry_matches(cp: Seq<CpEntry>, i: u16)
    requires
        (i as int) < cp.len(),
    ensures
        key_of_entry(cp, i) matches Some(k) ==> entry_matches(cp, i, k),
{
}

proof fn lemma_rebuild_inv(cp: Seq<CpEntry>, n: int)
    requires
        0 <= n <= cp.len(),
        cp.len() <= 0x10000,
    ensures
        forall|k: KeyShape|
            #[trigger] rebuild(cp, n).contains_key(k) ==> entry_matches(
                cp,
                rebuild(cp, n)[k],
                k,
            ),
    decreases n,
{
    if n > 0 {
        lemma_rebuild_inv(cp, n - 1);
        lemma_key_of_entry_matches(cp, (n - 1) as u16);
        assert forall|k: KeyShape| #[trigger] rebuild(cp, n).contains_key(k) implies entry_matches(
            cp,
            rebuild(cp, n)[k],
            k,
        ) by {
            let m0 = rebuild(cp, n - 1);
            match key_of_entry(cp, (n - 1) as u16) {
                Some(k2) => {
                    if !m0.contains_key(k2) && k == k2 {
                        assert(entry_matches(cp, (n - 1) as u16, k));
                    } else {
                        assert(m0.contains_key(k));
                    }
                },
                None => {},
            }
        }
    }
}

fn cp_utf8(cp: &Vec<CpInfo>, index: u16) -> (r: Option<String>)
    ensures
        match r {
            Some(s) => utf8_at(pool_view(cp@), index) == Some(s@),
            None => utf8_at(pool_view(cp@), index) is None,
        },
{
    if (index as usize) < cp.len() {
        match &cp[index as usize] {
            CpInfo::Utf8(v) => Some(v.clone()),
            _ => None,
        }
    } else {
        None
    }
}

fn cp_class_name(cp: &Vec<CpInfo>, index: u16) -> (r: Option<String>)
    ensures
        match r {
            Some(s) => class_name_at(pool_view(cp@), index) == Some(s@),
            None => class_name_at(pool_view(cp@), index) is None,
        },
{
    if (index as usize) < cp.len() {
        match &cp[index as usize] {
            CpInfo::Class { name_index } => cp_utf8(cp, *name_index),
            _ => None,
        }
    } else {
        None
    }
}

fn cp_name_and_type(cp: &Vec<CpInfo>, index: u16) -> (r: Option<(String, String)>)
    ensures
        match r {
            Some(p) => name_and_type_at(pool_view(cp@), index) == Some((p.0@, p.1@)),
            None => name_and_type_at(pool_view(cp@), index) is None,
        },
{
    if (index as usize) < cp.len() {
        match &cp[index as usize] {
            CpInfo::NameAndType { name_index, descriptor_index } => {
                match (cp_utf8(cp, *name_index), cp_utf8(cp, *descriptor_index)) {
                    (Some(n), Some(d)) => Some((n, d)),
                    _ => None,
                }
            },
            _ => None,
        }
    } else {
        None
    }
}

fn cp_member_ref(cp: &Vec<CpInfo>, index: u16) -> (r: Option<(String, String, String, bool)>)
    ensures
        match r {
            Some(t) => member_ref_at(pool_view(cp@), index) == Some((t.0@, t.1@, t.2@, t.3)),
            None => member_ref_at(pool_view(cp@), index) is None,
        },
{
    if (index as usize) < cp.len() {
        match &cp[index as usize] {
            CpInfo::Fieldref { class_index, name_and_type_index } => {
                match (cp_class_name(cp, *class_index), cp_name_and_type(
                    cp,
                    *name_and_type_index,
                )) {
                    (Some(o), Some((n, d))) => Some((o, n, d, false)),
                    _ => None,
                }
            },
            CpInfo::Methodref { class_index, name_and_type_index } => {
                match (cp_class_name(cp, *class_index), cp_name_and_type(
                    cp,
                    *name_and_type_index,
                )) {
                    (Some(o), Some((n, d))) => Some((o, n, d, false)),
                    _ => None,
                }
            },
            CpInfo::InterfaceMethodref { class_index, name_and_type_index } => {
                match (cp_class_name(cp, *class_index), cp_name_and_type(
                    cp,
                    *name_and_type_index,
                )) {
                    (Some(o), Some((n, d))) => Some((o, n, d, true)),
                    _ => None,
                }
            },
            _ => None,
        }
    } else {
        None
    }
}

fn key_for_entry(cp: &Vec<CpInfo>, i: u16) -> (r: Option<PoolKey>)
    requires
        (i as int) < cp@.len(),
    ensures
        match r {
            Some(k) => key_of_entry(pool_view(cp@), i) == Some(k@),
            None => key_of_entry(pool_view(cp@), i) is None,
        },
{
    match &cp[i as usize] {
        CpInfo::Utf8(v) => Some(PoolKey::Utf8(v.clone())),
        CpInfo::Class { name_index } => match cp_utf8(cp, *name_index) {
            Some(n) => Some(PoolKey::Class(n)),
            None => None,
        },
        CpInfo::String { string_index } => match cp_utf8(cp, *string_index) {
            Some(s) => Some(PoolKey::Str(s)),
            None => None,
        },
        CpInfo::NameAndType { .. } => match cp_name_and_type(cp, i) {
            Some((n, d)) => Some(PoolKey::NameAndType(n, d)),
            None => None,
        },
        CpInfo::Fieldref { .. } => match cp_member_ref(cp, i) {
            Some((o, n, d, _)) => Some(PoolKey::Field(o, n, d)),
            None => None,
        },
        CpInfo::Methodref { .. } => match cp_member_ref(cp, i) {
            Some((o, n, d, _)) => Some(PoolKey::Method(o, n, d)),
            None => None,
        },
        CpInfo::InterfaceMethodref { .. } => match cp_member_ref(cp, i) {
            Some((o, n, d, _)) => Some(PoolKey::InterfaceMethod(o, n, d)),
            None => None,
        },
        CpInfo::MethodType { descriptor_index } => match cp_utf8(cp, *descriptor_index) {
            Some(d) => Some(PoolKey::MethodType(d)),
            None => None,
        },
        CpInfo::MethodHandle { reference_kind, reference_index } => {
            match cp_member_ref(cp, *reference_index) {
                Some((o, n, d, itf)) => Some(PoolKey::MethodHandle(*reference_kind, o, n, d, itf)),
                None => None,
            }
        },
        CpInfo::InvokeDynamic { bootstrap_method_attr_index, name_and_type_index } => {
            match cp_name_and_type(cp, *name_and_type_index) {
                Some((n, d)) => Some(
                    PoolKey::InvokeDynamic(*bootstrap_method_attr_index, n, d),
                ),
                None => None,
            }
        },
        _ => None,
    }
}

impl ConstantPoolBuilder {
    /// Creates a builder pre-populated with an existing pool (or with the
    /// single reserved slot if the pool is empty), reconstructing the
    /// deduplication table by one walk over the entries.
    ///
    /// An entry whose dependencies do not all resolve to well-formed leaf
    /// entries of the expected kind is silently left out of the table: it
    /// keeps its slot and stays addressable, but a later call that would
    /// logically duplicate it inserts a fresh entry.
    #[verifier::loop_isolation(false)]
    pub fn from_pool(pool: Vec<CpInfo>) -> (r: Self)
        requires
            pool@.len() <= 0x10000,
        ensures
            r.wf(),
            r@.entries == if pool@.len() == 0 {
                seq![CpEntry::Unusable]
            } else {
                pool_view(pool@)
            },
            r@.dedup == rebuild(r@.entries, r@.entries.len() as int),
    {
        let mut cp = pool;
        if cp.is_empty() {
            cp.push(CpInfo::Unusable);
            proof {
                assert(pool_view(cp@) =~= seq![CpEntry::Unusable]);
            }
        }
        let ghost cpv = pool_view(cp@);
        let mut dedup = DedupMap::new();
        let n = cp.len();
        let mut i: usize = 0;
        while i < n
            invariant
                0 <= i <= n,
                dedup.wf(),
                dedup@ == rebuild(cpv, i as int),
            decreases n - i,
        {
            match key_for_entry(&cp, i as u16) {
                Some(key) => {
                    match dedup.get(&key) {
                        Some(_) => {},
                        None => {
                            dedup.insert(key, i as u16);
                        },
                    }
                },
                None => {},
            }
            i = i + 1;
        }
        let r = ConstantPoolBuilder { cp, dedup };
        proof {
            lemma_rebuild_inv(cpv, n as int);
        }
        r
    }
}

/// Dedup idempotence for `spec_utf8`: repeating an insertion with the same
/// argument returns the same index and leaves the state unchanged.
pub proof fn lemma_utf8_idempotent(m: PoolModel, s: Seq<char>)
    ensures
        ({
            let (m1, i) = spec_utf8(m, s);
            spec_utf8(m1, s) == (m1, i)
        }),
{
}

/// Dedup idempotence for `spec_class`, as for `spec_utf8`.
pub proof fn lemma_class_idempotent(m: PoolModel, name: Seq<char>)
    ensures
        ({
            let (m1, i) = spec_class(m, name);
            spec_class(m1, name) == (m1, i)
        }),
{
}

/// Dedup idempotence for `spec_string`, as for `spec_utf8`.
pub proof fn lemma_string_idempotent(m: PoolModel, s: Seq<char>)
    ensures
        ({
            let (m1, i) = spec_string(m, s);
            spec_string(m1, s) == (m1, i)
        }),
{
}

/// Dedup idempotence for `spec_name_and_type`, as for `spec_utf8`.
pub proof fn lemma_name_and_type_idempotent(m: PoolModel, n: Seq<char>, d: Seq<char>)
    ensures
        ({
            let (m1, i) = spec_name_and_type(m, n, d);
            spec_name_and_type(m1, n, d) == (m1, i)
        }),
{
}

/// Dedup idempotence for `spec_field_ref`, as for `spec_utf8`.
pub proof fn lemma_field_ref_idempotent(m: PoolModel, o: Seq<char>, n: Seq<char>, d: Seq<char>)
    ensures
        ({
            let (m1, i) = spec_field_ref(m, o, n, d);
            spec_field_ref(m1, o, n, d) == (m1, i)
        }),
{
}

/// Dedup idempotence for `spec_method_ref`, as for `spec_utf8`.
pub proof fn lemma_method_ref_idempotent(m: PoolModel, o: Seq<char>, n: Seq<char>, d: Seq<char>)
    ensures
        ({
            let (m1, i) = spec_method_ref(m, o, n, d);
            spec_method_ref(m1, o, n, d) == (m1, i)
        }),
{
}

/// Dedup idempotence for `spec_interface_method_ref`, as for `spec_utf8`.
pub proof fn lemma_interface_method_ref_idempotent(
    m: PoolModel,
    o: Seq<char>,
    n: Seq<char>,
    d: Seq<char>,
)
    ensures
        ({
            let (m1, i) = spec_interface_method_ref(m, o, n, d);
            spec_interface_method_ref(m1, o, n, d) == (m1, i)
        }),
{
}

/// Dedup idempotence for `spec_method_type`, as for `spec_utf8`.
pub proof fn lemma_method_type_idempotent(m: PoolModel, d: Seq<char>)
    ensures
        ({
            let (m1, i) = spec_method_type(m, d);
            spec_method_type(m1, d) == (m1, i)
        }),
{
}

/// Dedup idempotence for `spec_method_handle`, as for `spec_utf8`.
pub proof fn lemma_method_handle_idempotent(
    m: PoolModel,
    kind: u8,
    o: Seq<char>,
    n: Seq<char>,
    d: Seq<char>,
    itf: bool,
)
    ensures
        ({
            let (m1, i) = spec_method_handle(m, kind, o, n, d, itf);
            spec_method_handle(m1, kind, o, n, d, itf) == (m1, i)
        }),
{
}

/// Dedup idempotence for `spec_invoke_dynamic`, as for `spec_utf8`.
pub proof fn lemma_invoke_dynamic_idempotent(m: PoolModel, bsm: u16, n: Seq<char>, d: Seq<char>)
    ensures
        ({
            let (m1, i) = spec_invoke_dynamic(m, bsm, n, d);
            spec_invoke_dynamic(m1, bsm, n, d) == (m1, i)
        }),
{
}

/// Non-dedup law for `spec_integer`: two insertions of the same value
/// occupy two distinct slots, each holding its own entry.
pub proof fn lemma_integer_never_deduplicated(m: PoolModel, v: i32)
    requires
        m.entries.len() + 2 <= 0x10000,
    ensures
        ({
            let (m1, i1) = spec_integer(m, v);
            let (m2, i2) = spec_integer(m1, v);
            &&& i1 != i2
            &&& m2.entries.len() == m.entries.len() + 2
            &&& m2.entries[i1 as int] == CpEntry::Integer(v)
            &&& m2.entries[i2 as int] == CpEntry::Integer(v)
        }),
{
}

/// Non-dedup law for `spec_float`, as for `spec_integer`.
pub proof fn lemma_float_never_deduplicated(m: PoolModel, bits: u32)
    requires
        m.entries.len() + 2 <= 0x10000,
    ensures
        ({
            let (m1, i1) = spec_float(m, bits);
            let (m2, i2) = spec_float(m1, bits);
            &&& i1 != i2
            &&& m2.entries.len() == m.entries.len() + 2
            &&& m2.entries[i1 as int] == CpEntry::Float(bits)
            &&& m2.entries[i2 as int] == CpEntry::Float(bits)
        }),
{
}

} // verus!
