//! The recursive type-descriptor grammar: primitive, array, object and
//! method types, with conversion to and from the wire-format descriptor
//! string.

use vstd::prelude::*;

verus! {

/// A field or method type, as encoded by a descriptor string.
///
/// `Array` and `Method` are the only composite variants; `Object` wraps a
/// slash-separated internal name (the character set is not validated).
#[derive(Debug, PartialEq, Eq, Hash)]
pub enum Type {
    Void,
    Boolean,
    Char,
    Byte,
    Short,
    Int,
    Float,
    Long,
    Double,
    /// Array type, with the element type (which may itself be an array).
    Array(Box<Type>),
    /// Object type, storing the internal name (e.g. `"java/lang/Object"`).
    Object(String),
    /// Method type, storing argument types and return type.
    Method { argument_types: Vec<Type>, return_type: Box<Type> },
}

/// The mathematical shape of a [`Type`]: the same tree with every string
/// replaced by its character sequence.
pub enum TypeShape {
    Void,
    Boolean,
    Char,
    Byte,
    Short,
    Int,
    Float,
    Long,
    Double,
    Array(Box<TypeShape>),
    Object(Seq<char>),
    Method { argument_types: Seq<TypeShape>, return_type: Box<TypeShape> },
}

/// The shape of a type value.
pub open spec fn type_shape(t: Type) -> TypeShape
    decreases t,
{
    match t {
        Type::Void => TypeShape::Void,
        Type::Boolean => TypeShape::Boolean,
        Type::Char => TypeShape::Char,
        Type::Byte => TypeShape::Byte,
        Type::Short => TypeShape::Short,
        Type::Int => TypeShape::Int,
        Type::Float => TypeShape::Float,
        Type::Long => TypeShape::Long,
        Type::Double => TypeShape::Double,
        Type::Array(e) => TypeShape::Array(Box::new(type_shape(*e))),
        Type::Object(name) => TypeShape::Object(name@),
        Type::Method { argument_types, return_type } => TypeShape::Method {
            argument_types: type_shapes(argument_types@),
            return_type: Box::new(type_shape(*return_type)),
        },
    }
}

/// The shapes of a sequence of type values, elementwise.
pub open spec fn type_shapes(ts: Seq<Type>) -> Seq<TypeShape>
    decreases ts,
{
    if ts.len() == 0 {
        Seq::empty()
    } else {
        type_shapes(ts.drop_last()).push(type_shape(ts.last()))
    }
}

/// `type_shapes` maps `type_shape` over the sequence, index by index.
pub proof fn lemma_type_shapes(ts: Seq<Type>)
    ensures
        type_shapes(ts).len() == ts.len(),
        forall|i: int| 0 <= i < ts.len() ==> type_shapes(ts)[i] == type_shape(ts[i]),
    decreases ts.len(),
{
    if ts.len() > 0 {
        lemma_type_shapes(ts.drop_last());
    }
}

impl View for Type {
    type V = TypeShape;

    open spec fn view(&self) -> TypeShape {
        type_shape(*self)
    }
}

impl DeepView for Type {
    type V = TypeShape;

    open spec fn deep_view(&self) -> TypeShape {
        type_shape(*self)
    }
}

/// The descriptor string of a type shape: one letter per primitive, `[`
/// before an array's element, `L` name `;` for objects, and
/// `(` arguments `)` return for method types.
pub open spec fn descriptor_of(t: TypeShape) -> Seq<char>
    decreases t,
{
    match t {
        TypeShape::Void => seq!['V'],
        TypeShape::Boolean => seq!['Z'],
        TypeShape::Char => seq!['C'],
        TypeShape::Byte => seq!['B'],
        TypeShape::Short => seq!['S'],
        TypeShape::Int => seq!['I'],
        TypeShape::Float => seq!['F'],
        TypeShape::Long => seq!['J'],
        TypeShape::Double => seq!['D'],
        TypeShape::Array(e) => seq!['['] + descriptor_of(*e),
        TypeShape::Object(name) => seq!['L'] + name + seq![';'],
        TypeShape::Method { argument_types, return_type } => seq!['(']
            + descriptors_of(argument_types) + seq![')'] + descriptor_of(*return_type),
    }
}

/// The concatenation of the descriptors of a sequence of type shapes.
pub open spec fn descriptors_of(ts: Seq<TypeShape>) -> Seq<char>
    decreases ts,
{
    if ts.len() == 0 {
        Seq::empty()
    } else {
        descriptor_of(ts[0]) + descriptors_of(ts.drop_first())
    }
}

proof fn lemma_descriptors_of_push(ts: Seq<TypeShape>, t: TypeShape)
    ensures
        descriptors_of(ts.push(t)) == descriptors_of(ts) + descriptor_of(t),
    decreases ts.len(),
{
    if ts.len() == 0 {
        assert(ts.push(t)[0] == t);
        assert(ts.push(t).drop_first() =~= Seq::<TypeShape>::empty());
        assert(descriptors_of(Seq::<TypeShape>::empty()) == Seq::<char>::empty());
        assert(descriptors_of(ts.push(t)) == descriptor_of(t) + Seq::<char>::empty());
        assert(descriptor_of(t) + Seq::<char>::empty() =~= descriptors_of(ts) + descriptor_of(t));
    } else {
        assert(ts.push(t)[0] == ts[0]);
        assert(ts.push(t).drop_first() =~= ts.drop_first().push(t));
        lemma_descriptors_of_push(ts.drop_first(), t);
        assert(descriptors_of(ts.push(t)) == descriptor_of(ts[0]) + (descriptors_of(
            ts.drop_first(),
        ) + descriptor_of(t)));
        assert(descriptor_of(ts[0]) + (descriptors_of(ts.drop_first()) + descriptor_of(t)) =~= (
        descriptor_of(ts[0]) + descriptors_of(ts.drop_first())) + descriptor_of(t));
    }
}

/// The position of the first `;` at or after `pos`, if any.
pub open spec fn find_semi(s: Seq<char>, pos: int) -> Option<int>
    decreases s.len() - pos,
{
    if pos < 0 || pos >= s.len() {
        None
    } else if s[pos] == ';' {
        Some(pos)
    } else {
        find_semi(s, pos + 1)
    }
}

proof fn lemma_find_semi(s: Seq<char>, pos: int)
    ensures
        find_semi(s, pos) matches Some(j) ==> pos <= j < s.len() && s[j] == ';',
    decreases s.len() - pos,
{
    if 0 <= pos < s.len() && s[pos] != ';' {
        lemma_find_semi(s, pos + 1);
    }
}

/// One step of the descriptor grammar, starting at `pos`: the parsed type
/// shape and the position just past it, or the position where the scan
/// failed.
///
/// The bounds checks on intermediate positions before each recursive call
/// only serve the termination measure; `lemma_parse_bounds` shows that a
/// successful parse always lands within them.
pub open spec fn spec_parse(s: Seq<char>, pos: int) -> Result<(TypeShape, int), int>
    decreases s.len() - pos, 0int,
{
    if pos < 0 || pos >= s.len() {
        Err(pos)
    } else {
        let c = s[pos];
        if c == 'V' {
            Ok((TypeShape::Void, pos + 1))
        } else if c == 'Z' {
            Ok((TypeShape::Boolean, pos + 1))
        } else if c == 'C' {
            Ok((TypeShape::Char, pos + 1))
        } else if c == 'B' {
            Ok((TypeShape::Byte, pos + 1))
        } else if c == 'S' {
            Ok((TypeShape::Short, pos + 1))
        } else if c == 'I' {
            Ok((TypeShape::Int, pos + 1))
        } else if c == 'F' {
            Ok((TypeShape::Float, pos + 1))
        } else if c == 'J' {
            Ok((TypeShape::Long, pos + 1))
        } else if c == 'D' {
            Ok((TypeShape::Double, pos + 1))
        } else if c == 'L' {
            match find_semi(s, pos + 1) {
                Some(j) => Ok((TypeShape::Object(s.subrange(pos + 1, j)), j + 1)),
                None => Err(s.len() as int),
            }
        } else if c == '[' {
            match spec_parse(s, pos + 1) {
                Ok((elem, end)) => Ok((TypeShape::Array(Box::new(elem)), end)),
                Err(p) => Err(p),
            }
        } else if c == '(' {
            match spec_parse_args(s, pos + 1) {
                Ok((args, mid)) => if pos < mid <= s.len() {
                    match spec_parse(s, mid) {
                        Ok((ret, end)) => Ok(
                            (
                                TypeShape::Method {
                                    argument_types: args,
                                    return_type: Box::new(ret),
                                },
                                end,
                            ),
                        ),
                        Err(p) => Err(p),
                    }
                } else {
                    Err(mid)
                },
                Err(p) => Err(p),
            }
        } else {
            Err(pos)
        }
    }
}

/// The argument list of a method descriptor, starting at `pos`: type shapes
/// up to and including the closing `)`, and the position just past it.
pub open spec fn spec_parse_args(s: Seq<char>, pos: int) -> Result<(Seq<TypeShape>, int), int>
    decreases s.len() - pos, 1int,
{
    if pos < 0 || pos >= s.len() {
        Err(pos)
    } else if s[pos] == ')' {
        Ok((Seq::empty(), pos + 1))
    } else {
        match spec_parse(s, pos) {
            Ok((t, mid)) => if pos < mid <= s.len() {
                match spec_parse_args(s, mid) {
                    Ok((rest, end)) => Ok((seq![t] + rest, end)),
                    Err(p) => Err(p),
                }
            } else {
                Err(mid)
            },
            Err(p) => Err(p),
        }
    }
}

/// A successful parse consumes at least one character and stays within the
/// input, and the parsed shape's descriptor is exactly the consumed span:
/// re-encoding what was parsed reproduces the input.
pub proof fn lemma_parse_round_trip(s: Seq<char>, pos: int)
    ensures
        spec_parse(s, pos) matches Ok((t, end)) ==> pos < end <= s.len() && descriptor_of(t)
            == s.subrange(pos, end),
    decreases s.len() - pos, 0int,
{
    if let Ok((t, end)) = spec_parse(s, pos) {
        let c = s[pos];
        if c == 'V' || c == 'Z' || c == 'C' || c == 'B' || c == 'S' || c == 'I' || c == 'F' || c
            == 'J' || c == 'D' {
            assert(descriptor_of(t) =~= s.subrange(pos, end));
        } else if c == 'L' {
            lemma_find_semi(s, pos + 1);
            assert(descriptor_of(t) =~= s.subrange(pos, end));
        } else if c == '[' {
            lemma_parse_round_trip(s, pos + 1);
            assert(descriptor_of(t) =~= seq!['['] + s.subrange(pos + 1, end));
            assert(seq!['['] + s.subrange(pos + 1, end) =~= s.subrange(pos, end));
        } else {
            lemma_parse_args_round_trip(s, pos + 1);
            if let Ok((args, mid)) = spec_parse_args(s, pos + 1) {
                lemma_parse_round_trip(s, mid);
                if let Ok((ret, end2)) = spec_parse(s, mid) {
                    assert(descriptor_of(t) == seq!['('] + descriptors_of(args) + seq![')']
                        + descriptor_of(*t->return_type));
                    assert(seq!['('] + s.subrange(pos + 1, mid - 1) + seq![')'] + s.subrange(
                        mid,
                        end,
                    ) =~= s.subrange(pos, end));
                }
            }
        }
    }
}

/// A successful argument-list parse consumes the arguments and the closing
/// `)`, and the arguments' descriptors are exactly the span before it.
pub proof fn lemma_parse_args_round_trip(s: Seq<char>, pos: int)
    ensures
        spec_parse_args(s, pos) matches Ok((args, end)) ==> pos < end <= s.len() && s[end - 1]
            == ')' && descriptors_of(args) == s.subrange(pos, end - 1),
    decreases s.len() - pos, 1int,
{
    if let Ok((args, end)) = spec_parse_args(s, pos) {
        if s[pos] == ')' {
            assert(descriptors_of(args) =~= s.subrange(pos, pos));
        } else {
            lemma_parse_round_trip(s, pos);
            if let Ok((t, mid)) = spec_parse(s, pos) {
                lemma_parse_args_round_trip(s, mid);
                if let Ok((rest, end2)) = spec_parse_args(s, mid) {
                    assert((seq![t] + rest)[0] == t);
                    assert((seq![t] + rest).drop_first() =~= rest);
                    assert(descriptors_of(args) == descriptor_of(t) + descriptors_of(rest));
                    assert(descriptor_of(t) + descriptors_of(rest) =~= s.subrange(pos, end - 1));
                }
            }
        }
    }
}

/// The bounds half of `lemma_parse_round_trip`, for callers that only need
/// to know that a successful parse advances and stays inside the input.
pub proof fn lemma_parse_bounds(s: Seq<char>, pos: int)
    ensures
        spec_parse(s, pos) matches Ok((t, end)) ==> pos < end <= s.len(),
{
    lemma_parse_round_trip(s, pos);
}

/// Round-trip law for whole descriptor strings: if `s` parses completely to
/// a shape `t`, then `t`'s descriptor is `s` itself.
pub proof fn lemma_round_trip(s: Seq<char>)
    ensures
        spec_parse(s, 0) matches Ok((t, end)) ==> (end == s.len() ==> descriptor_of(t) == s),
{
    lemma_parse_round_trip(s, 0);
    if let Ok((t, end)) = spec_parse(s, 0) {
        if end == s.len() {
            assert(s.subrange(0, s.len() as int) =~= s);
        }
    }
}

proof fn lemma_find_semi_skip(s: Seq<char>, from: int, to: int)
    requires
        0 <= from <= to <= s.len(),
        forall|k: int| from <= k < to ==> s[k] != ';',
    ensures
        find_semi(s, from) == find_semi(s, to),
    decreases to - from,
{
    if from < to {
        lemma_find_semi_skip(s, from + 1, to);
    }
}

/// How the parse of an argument list continues: a prefix of already-parsed
/// shapes, prepended to whatever the rest of the list parses to.
spec fn args_prepend(
    prefix: Seq<TypeShape>,
    r: Result<(Seq<TypeShape>, int), int>,
) -> Result<(Seq<TypeShape>, int), int> {
    match r {
        Ok((rest, end)) => Ok((prefix + rest, end)),
        Err(p) => Err(p),
    }
}

/// Failure to decode a descriptor string.
#[derive(Debug, PartialEq, Eq)]
pub enum TypeError {
    /// The string does not follow the descriptor grammar; `position` is the
    /// character index at which the scan failed (the string's length for an
    /// unterminated object name or argument list).
    InvalidDescriptor { input: String, position: usize },
    /// The string is a syntactically valid descriptor, but not a method
    /// descriptor.
    NotAMethodDescriptor { input: String },
}

impl Type {
    /// Parses one type starting at character position `pos`, returning the
    /// type and the position just past it, or the position where the scan
    /// failed.
    #[verifier::loop_isolation(false)]
    pub fn parse(s: &str, pos: usize) -> (r: Result<(Type, usize), usize>)
        ensures
            match spec_parse(s@, pos as int) {
                Ok((shape, end)) => r matches Ok(p) && p.0@ == shape && p.1 == end,
                Err(p) => r matches Err(q) && q == p,
            },
        decreases s@.len() - pos,
    {
        let n = s.unicode_len();
        if pos >= n {
            return Err(pos);
        }
        let c = s.get_char(pos);
        if c == 'V' {
            Ok((Type::Void, pos + 1))
        } else if c == 'Z' {
            Ok((Type::Boolean, pos + 1))
        } else if c == 'C' {
            Ok((Type::Char, pos + 1))
        } else if c == 'B' {
            Ok((Type::Byte, pos + 1))
        } else if c == 'S' {
            Ok((Type::Short, pos + 1))
        } else if c == 'I' {
            Ok((Type::Int, pos + 1))
        } else if c == 'F' {
            Ok((Type::Float, pos + 1))
        } else if c == 'J' {
            Ok((Type::Long, pos + 1))
        } else if c == 'D' {
            Ok((Type::Double, pos + 1))
        } else if c == 'L' {
            let mut j = pos + 1;
            while j < n && s.get_char(j) != ';'
                invariant
                    pos + 1 <= j <= n,
                    n == s@.len(),
                    forall|k: int| pos + 1 <= k < j ==> s@[k] != ';',
                decreases n - j,
            {
                j = j + 1;
            }
            proof {
                lemma_find_semi_skip(s@, pos + 1, j as int);
            }
            if j >= n {
                return Err(n);
            }
            let name = s.substring_char(pos + 1, j).to_owned();
            Ok((Type::Object(name), j + 1))
        } else if c == '[' {
            match Self::parse(s, pos + 1) {
                Ok((elem, end)) => Ok((Type::Array(Box::new(elem)), end)),
                Err(p) => Err(p),
            }
        } else if c == '(' {
            let mut args: Vec<Type> = Vec::new();
            let mut cur = pos + 1;
            while cur < n && s.get_char(cur) != ')'
                invariant
                    pos + 1 <= cur <= n,
                    n == s@.len(),
                    spec_parse_args(s@, pos + 1 as int) == args_prepend(
                        type_shapes(args@),
                        spec_parse_args(s@, cur as int),
                    ),
                decreases n - cur,
            {
                let ghost prefix = type_shapes(args@);
                match Self::parse(s, cur) {
                    Ok((t, next)) => {
                        proof {
                            lemma_parse_bounds(s@, cur as int);
                        }
                        let ghost tshape = t@;
                        let ghost old_args = args@;
                        args.push(t);
                        proof {
                            assert(args@.drop_last() =~= old_args);
                            assert(args@.last() == t);
                            assert(type_shapes(args@) == prefix.push(tshape));
                            assert(spec_parse_args(s@, cur as int) == args_prepend(
                                seq![tshape],
                                spec_parse_args(s@, next as int),
                            ));
                            match spec_parse_args(s@, next as int) {
                                Ok((rest, end)) => {
                                    assert(prefix + (seq![tshape] + rest) =~= prefix.push(tshape)
                                        + rest);
                                },
                                Err(_) => {},
                            }
                        }
                        cur = next;
                    },
                    Err(p) => {
                        return Err(p);
                    },
                }
            }
            if cur >= n {
                return Err(cur);
            }
            // the scan stopped on the closing parenthesis
            let end_args = cur + 1;
            proof {
                assert(type_shapes(args@) + Seq::<TypeShape>::empty() =~= type_shapes(args@));
                assert(spec_parse_args(s@, pos + 1 as int) == Ok::<_, int>(
                    (type_shapes(args@), end_args as int),
                ));
            }
            match Self::parse(s, end_args) {
                Ok((ret, end)) => Ok(
                    (Type::Method { argument_types: args, return_type: Box::new(ret) }, end),
                ),
                Err(p) => Err(p),
            }
        } else {
            Err(pos)
        }
    }

    /// The type encoded by the given field or method descriptor; errors on
    /// any string whose first characters do not form a valid descriptor.
    pub fn get_type(descriptor: &str) -> (r: Result<Type, TypeError>)
        ensures
            match spec_parse(descriptor@, 0) {
                Ok((shape, end)) => r matches Ok(t) && t@ == shape,
                Err(p) => r matches Err(e) && (e matches TypeError::InvalidDescriptor {
                    input,
                    position,
                } && input@ == descriptor@ && position == p),
            },
    {
        match Self::parse(descriptor, 0) {
            Ok((t, _end)) => Ok(t),
            Err(p) => Err(
                TypeError::InvalidDescriptor { input: descriptor.to_owned(), position: p },
            ),
        }
    }

    /// The type for the given internal name; a name starting with `[` is
    /// treated as an array descriptor, anything else names an object type.
    pub fn get_object_type(internal_name: &str) -> (r: Result<Type, TypeError>)
        ensures
            internal_name@.len() > 0 && internal_name@[0] == '[' ==> match spec_parse(
                internal_name@,
                0,
            ) {
                Ok((shape, end)) => r matches Ok(t) && t@ == shape,
                Err(p) => r matches Err(e) && (e matches TypeError::InvalidDescriptor {
                    input,
                    position,
                } && input@ == internal_name@ && position == p),
            },
            !(internal_name@.len() > 0 && internal_name@[0] == '[') ==> (r matches Ok(t) && t@
                == TypeShape::Object(internal_name@)),
    {
        if internal_name.unicode_len() > 0 && internal_name.get_char(0) == '[' {
            Self::get_type(internal_name)
        } else {
            Ok(Type::Object(internal_name.to_owned()))
        }
    }

    /// The method type encoded by the given descriptor; errors when the
    /// descriptor is invalid or encodes a non-method type.
    pub fn get_method_type(descriptor: &str) -> (r: Result<Type, TypeError>)
        ensures
            match spec_parse(descriptor@, 0) {
                Ok((shape, end)) => if shape is Method {
                    r matches Ok(t) && t@ == shape
                } else {
                    r matches Err(e) && (e matches TypeError::NotAMethodDescriptor { input }
                        && input@ == descriptor@)
                },
                Err(p) => r matches Err(e) && (e matches TypeError::InvalidDescriptor {
                    input,
                    position,
                } && input@ == descriptor@ && position == p),
            },
    {
        match Self::get_type(descriptor) {
            Ok(t) => match &t {
                Type::Method { .. } => Ok(t),
                _ => Err(TypeError::NotAMethodDescriptor { input: descriptor.to_owned() }),
            },
            Err(e) => Err(e),
        }
    }

    /// A method type assembled from its return type and argument types.
    pub fn get_method_type_from_parts(return_type: Type, argument_types: Vec<Type>) -> (r: Type)
        ensures
            r@ == (TypeShape::Method {
                argument_types: type_shapes(argument_types@),
                return_type: Box::new(return_type@),
            }),
    {
        Type::Method { argument_types, return_type: Box::new(return_type) }
    }
}

/// Whether a shape's descriptor is parseable back: object names must not
/// contain `;`, the character that terminates a name in the grammar. (The
/// character set of names is otherwise not validated, and every shape the
/// parser itself produces is encodable.)
pub open spec fn encodable(t: TypeShape) -> bool
    decreases t,
{
    match t {
        TypeShape::Array(e) => encodable(*e),
        TypeShape::Object(name) => forall|i: int| 0 <= i < name.len() ==> name[i] != ';',
        TypeShape::Method { argument_types, return_type } => all_encodable(argument_types)
            && encodable(*return_type),
        _ => true,
    }
}

/// Whether every shape in the sequence is encodable.
pub open spec fn all_encodable(ts: Seq<TypeShape>) -> bool
    decreases ts,
{
    if ts.len() == 0 {
        true
    } else {
        encodable(ts[0]) && all_encodable(ts.drop_first())
    }
}

proof fn lemma_descriptor_nonempty(t: TypeShape)
    ensures
        descriptor_of(t).len() >= 1,
{
}

proof fn lemma_subrange_shift(s: Seq<char>, d: Seq<char>, pos: int, a: int, b: int)
    requires
        0 <= pos,
        pos + d.len() <= s.len(),
        d == s.subrange(pos, pos + d.len()),
        0 <= a <= b <= d.len(),
    ensures
        d.subrange(a, b) == s.subrange(pos + a, pos + b),
{
    assert forall|k: int| 0 <= k < b - a implies d.subrange(a, b)[k] == s.subrange(
        pos + a,
        pos + b,
    )[k] by {
        assert(d[a + k] == s.subrange(pos, pos + d.len())[a + k]);
    }
    assert(d.subrange(a, b) =~= s.subrange(pos + a, pos + b));
}

proof fn lemma_char_at(s: Seq<char>, d: Seq<char>, pos: int, a: int)
    requires
        0 <= pos,
        pos + d.len() <= s.len(),
        d == s.subrange(pos, pos + d.len()),
        0 <= a < d.len(),
    ensures
        s[pos + a] == d[a],
{
    assert(d[a] == s.subrange(pos, pos + d.len())[a]);
}

proof fn lemma_parse_frame(t: TypeShape, s: Seq<char>, pos: int)
    requires
        encodable(t),
        0 <= pos,
        pos + descriptor_of(t).len() <= s.len(),
        descriptor_of(t) == s.subrange(pos, pos + descriptor_of(t).len()),
    ensures
        spec_parse(s, pos) == Ok::<(TypeShape, int), int>((t, pos + descriptor_of(t).len())),
    decreases t,
{
    let d = descriptor_of(t);
    let end = pos + d.len();
    lemma_char_at(s, d, pos, 0);
    match t {
        TypeShape::Array(e) => {
            let de = descriptor_of(*e);
            assert(s[pos] == '[');
            assert(de =~= d.subrange(1, d.len() as int));
            lemma_subrange_shift(s, d, pos, 1, d.len() as int);
            lemma_parse_frame(*e, s, pos + 1);
        },
        TypeShape::Object(name) => {
            assert(s[pos] == 'L');
            let j = pos + 1 + name.len();
            assert forall|k: int| pos + 1 <= k < j implies s[k] != ';' by {
                lemma_char_at(s, d, pos, k - pos);
                assert(d[k - pos] == name[k - pos - 1]);
            }
            lemma_char_at(s, d, pos, d.len() - 1);
            assert(d[d.len() - 1] == ';');
            assert(s[j] == ';');
            lemma_find_semi_skip(s, pos + 1, j);
            assert(find_semi(s, pos + 1) == Some(j));
            assert(name =~= d.subrange(1, d.len() - 1));
            lemma_subrange_shift(s, d, pos, 1, d.len() - 1);
            assert(s.subrange(pos + 1, j) == name);
        },
        TypeShape::Method { argument_types, return_type } => {
            assert(s[pos] == '(');
            let da = descriptors_of(argument_types);
            let mid = pos + 1 + da.len() as int + 1;
            assert(da.push(')') =~= d.subrange(1, 1 + da.len() as int + 1));
            lemma_subrange_shift(s, d, pos, 1, 1 + da.len() as int + 1);
            lemma_parse_args_frame(argument_types, s, pos + 1);
            assert(spec_parse_args(s, pos + 1) == Ok::<(Seq<TypeShape>, int), int>(
                (argument_types, mid),
            ));
            let dr = descriptor_of(*return_type);
            assert(dr =~= d.subrange(1 + da.len() as int + 1, d.len() as int));
            lemma_subrange_shift(s, d, pos, 1 + da.len() as int + 1, d.len() as int);
            lemma_parse_frame(*return_type, s, mid);
        },
        _ => {
        },
    }
}

proof fn lemma_parse_args_frame(ts: Seq<TypeShape>, s: Seq<char>, pos: int)
    requires
        all_encodable(ts),
        0 <= pos,
        pos + descriptors_of(ts).len() + 1 <= s.len(),
        descriptors_of(ts).push(')') == s.subrange(pos, pos + descriptors_of(ts).len() + 1),
    ensures
        spec_parse_args(s, pos) == Ok::<(Seq<TypeShape>, int), int>(
            (ts, pos + descriptors_of(ts).len() + 1),
        ),
    decreases ts,
{
    let d = descriptors_of(ts).push(')');
    lemma_char_at(s, d, pos, 0);
    if ts.len() == 0 {
        assert(d[0] == ')');
        assert(s[pos] == ')');
        assert(spec_parse_args(s, pos) == Ok::<(Seq<TypeShape>, int), int>(
            (Seq::empty(), pos + 1),
        ));
        assert(Seq::<TypeShape>::empty() =~= ts);
    } else {
        let t0 = ts[0];
        let d0 = descriptor_of(t0);
        lemma_descriptor_nonempty(t0);
        assert(d[0] == d0[0]);
        assert(s[pos] == d0[0]);
        // the head of the list starts a type, never the closing parenthesis
        assert(d0[0] != ')');
        assert(d0 =~= d.subrange(0, d0.len() as int));
        lemma_subrange_shift(s, d, pos, 0, d0.len() as int);
        lemma_parse_frame(t0, s, pos);
        let mid = pos + d0.len();
        let rest = ts.drop_first();
        assert(descriptors_of(rest).push(')') =~= d.subrange(d0.len() as int, d.len() as int));
        lemma_subrange_shift(s, d, pos, d0.len() as int, d.len() as int);
        lemma_parse_args_frame(rest, s, mid);
        assert(seq![t0] + rest =~= ts);
    }
}

proof fn lemma_find_semi_first(s: Seq<char>, pos: int)
    ensures
        find_semi(s, pos) matches Some(j) ==> forall|k: int| pos <= k < j ==> s[k] != ';',
    decreases s.len() - pos,
{
    if 0 <= pos < s.len() && s[pos] != ';' {
        lemma_find_semi_first(s, pos + 1);
    }
}

/// Every shape the parser produces is encodable: an object name scanned
/// from the input stops at the first `;`, so it never contains one.
pub proof fn lemma_parse_encodable(s: Seq<char>, pos: int)
    ensures
        spec_parse(s, pos) matches Ok((t, end)) ==> encodable(t),
    decreases s.len() - pos, 0int,
{
    if let Ok((t, end)) = spec_parse(s, pos) {
        let c = s[pos];
        if c == 'L' {
            lemma_find_semi(s, pos + 1);
            lemma_find_semi_first(s, pos + 1);
            if let Some(j) = find_semi(s, pos + 1) {
                let name = s.subrange(pos + 1, j);
                assert forall|i: int| 0 <= i < name.len() implies name[i] != ';' by {
                    assert(name[i] == s[pos + 1 + i]);
                }
            }
        } else if c == '[' {
            lemma_parse_encodable(s, pos + 1);
        } else if c == '(' {
            lemma_parse_args_encodable(s, pos + 1);
            if let Ok((args, mid)) = spec_parse_args(s, pos + 1) {
                if pos < mid <= s.len() {
                    lemma_parse_encodable(s, mid);
                }
            }
        }
    }
}

proof fn lemma_parse_args_encodable(s: Seq<char>, pos: int)
    ensures
        spec_parse_args(s, pos) matches Ok((args, end)) ==> all_encodable(args),
    decreases s.len() - pos, 1int,
{
    if let Ok((args, end)) = spec_parse_args(s, pos) {
        if s[pos] != ')' {
            lemma_parse_encodable(s, pos);
            if let Ok((t, mid)) = spec_parse(s, pos) {
                if pos < mid <= s.len() {
                    lemma_parse_args_encodable(s, mid);
                    if let Ok((rest, end2)) = spec_parse_args(s, mid) {
                        assert((seq![t] + rest)[0] == t);
                        assert((seq![t] + rest).drop_first() =~= rest);
                    }
                }
            }
        }
    }
}

/// Round-trip law in the encoding direction: the descriptor of an
/// encodable shape parses back, completely, to that same shape.
pub proof fn lemma_descriptor_parses_back(t: TypeShape)
    requires
        encodable(t),
    ensures
        spec_parse(descriptor_of(t), 0) == Ok::<(TypeShape, int), int>(
            (t, descriptor_of(t).len() as int),
        ),
{
    let d = descriptor_of(t);
    assert(d =~= d.subrange(0, d.len() as int));
    lemma_parse_frame(t, d, 0);
}

impl Clone for Type {
    /// The clone has the same shape as the original.
    #[verifier::loop_isolation(false)]
    fn clone(&self) -> (r: Self)
        ensures
            r@ == self@,
        decreases *self,
    {
        match self {
            Type::Void => Type::Void,
            Type::Boolean => Type::Boolean,
            Type::Char => Type::Char,
            Type::Byte => Type::Byte,
            Type::Short => Type::Short,
            Type::Int => Type::Int,
            Type::Float => Type::Float,
            Type::Long => Type::Long,
            Type::Double => Type::Double,
            Type::Array(e) => Type::Array(Box::new((**e).clone())),
            Type::Object(name) => Type::Object(name.clone()),
            Type::Method { argument_types, return_type } => {
                let n = argument_types.len();
                let mut args: Vec<Type> = Vec::new();
                let mut i: usize = 0;
                while i < n
                    invariant
                        0 <= i <= n,
                        args@.len() == i,
                        forall|j: int|
                            0 <= j < i ==> type_shape(args@[j]) == type_shape(argument_types@[j]),
                    decreases n - i,
                {
                    args.push(argument_types[i].clone());
                    i = i + 1;
                }
                proof {
                    lemma_type_shapes(args@);
                    lemma_type_shapes(argument_types@);
                    assert(type_shapes(args@) =~= type_shapes(argument_types@));
                }
                Type::Method {
                    argument_types: args,
                    return_type: Box::new((**return_type).clone()),
                }
            },
        }
    }
}

/// The small-integer tag of a type shape, for fast dispatch.
pub open spec fn sort_of(t: TypeShape) -> u8 {
    match t {
        TypeShape::Void => 0,
        TypeShape::Boolean => 1,
        TypeShape::Char => 2,
        TypeShape::Byte => 3,
        TypeShape::Short => 4,
        TypeShape::Int => 5,
        TypeShape::Float => 6,
        TypeShape::Long => 7,
        TypeShape::Double => 8,
        TypeShape::Array(_) => 9,
        TypeShape::Object(_) => 10,
        TypeShape::Method { .. } => 11,
    }
}

/// How many variable or operand-stack slots a value of the type occupies:
/// two for the 8-byte types, none for void, one otherwise.
pub open spec fn size_of_shape(t: TypeShape) -> nat {
    match t {
        TypeShape::Void => 0,
        TypeShape::Long => 2,
        TypeShape::Double => 2,
        _ => 1,
    }
}

/// The number of array dimensions: how many `Array` layers wrap the shape.
pub open spec fn dims_of(t: TypeShape) -> nat
    decreases t,
{
    match t {
        TypeShape::Array(e) => 1 + dims_of(*e),
        _ => 0,
    }
}

/// Whether the source-level class name is defined: it is for everything but
/// method types, at any array depth.
pub open spec fn class_nameable(t: TypeShape) -> bool
    decreases t,
{
    match t {
        TypeShape::Method { .. } => false,
        TypeShape::Array(e) => class_nameable(*e),
        _ => true,
    }
}

/// An internal name with every slash replaced by a dot.
pub open spec fn dotted(name: Seq<char>) -> Seq<char> {
    name.map_values(
        |c: char|
            if c == '/' {
                '.'
            } else {
                c
            },
    )
}

/// The source-level class name of a shape: keyword strings for primitives,
/// the dotted name for objects, and a `[]` suffix per array dimension.
/// Undefined for method types.
pub open spec fn class_name_of(t: TypeShape) -> Seq<char>
    recommends
        class_nameable(t),
    decreases t,
{
    match t {
        TypeShape::Void => "void"@,
        TypeShape::Boolean => "boolean"@,
        TypeShape::Char => "char"@,
        TypeShape::Byte => "byte"@,
        TypeShape::Short => "short"@,
        TypeShape::Int => "int"@,
        TypeShape::Float => "float"@,
        TypeShape::Long => "long"@,
        TypeShape::Double => "double"@,
        TypeShape::Array(e) => class_name_of(*e) + "[]"@,
        TypeShape::Object(name) => dotted(name),
        TypeShape::Method { .. } => Seq::empty(),
    }
}

impl Type {
    /// The descriptor string of this type; the exact left inverse of
    /// parsing, so `Type::get_type` on the result yields this type back.
    #[verifier::loop_isolation(false)]
    pub fn get_descriptor(&self) -> (r: String)
        ensures
            r@ == descriptor_of(self@),
        decreases *self,
    {
        match self {
            Type::Void => {
                let r = "V".to_owned();
                proof {
                    reveal_strlit("V");
                    assert(r@ =~= descriptor_of(self@));
                }
                r
            },
            Type::Boolean => {
                let r = "Z".to_owned();
                proof {
                    reveal_strlit("Z");
                    assert(r@ =~= descriptor_of(self@));
                }
                r
            },
            Type::Char => {
                let r = "C".to_owned();
                proof {
                    reveal_strlit("C");
                    assert(r@ =~= descriptor_of(self@));
                }
                r
            },
            Type::Byte => {
                let r = "B".to_owned();
                proof {
                    reveal_strlit("B");
                    assert(r@ =~= descriptor_of(self@));
                }
                r
            },
            Type::Short => {
                let r = "S".to_owned();
                proof {
                    reveal_strlit("S");
                    assert(r@ =~= descriptor_of(self@));
                }
                r
            },
            Type::Int => {
                let r = "I".to_owned();
                proof {
                    reveal_strlit("I");
                    assert(r@ =~= descriptor_of(self@));
                }
                r
            },
            Type::Float => {
                let r = "F".to_owned();
                proof {
                    reveal_strlit("F");
                    assert(r@ =~= descriptor_of(self@));
                }
                r
            },
            Type::Long => {
                let r = "J".to_owned();
                proof {
                    reveal_strlit("J");
                    assert(r@ =~= descriptor_of(self@));
                }
                r
            },
            Type::Double => {
                let r = "D".to_owned();
                proof {
                    reveal_strlit("D");
                    assert(r@ =~= descriptor_of(self@));
                }
                r
            },
            Type::Array(e) => {
                let mut r = "[".to_owned();
                let inner = e.get_descriptor();
                r.append(inner.as_str());
                proof {
                    reveal_strlit("[");
                    assert(r@ =~= descriptor_of(self@));
                }
                r
            },
            Type::Object(name) => {
                let mut r = "L".to_owned();
                r.append(name.as_str());
                r.append(";");
                proof {
                    reveal_strlit("L");
                    reveal_strlit(";");
                    assert(r@ =~= descriptor_of(self@));
                }
                r
            },
            Type::Method { argument_types, return_type } => {
                let ghost shapes = type_shapes(argument_types@);
                let mut r = "(".to_owned();
                proof {
                    reveal_strlit("(");
                    lemma_type_shapes(argument_types@);
                    assert(shapes.take(0) =~= Seq::<TypeShape>::empty());
                    assert(r@ =~= seq!['('] + descriptors_of(shapes.take(0)));
                }
                let mut i: usize = 0;
                while i < argument_types.len()
                    invariant
                        0 <= i <= argument_types.len(),
                        r@ == seq!['('] + descriptors_of(shapes.take(i as int)),
                    decreases argument_types.len() - i,
                {
                    let inner = argument_types[i].get_descriptor();
                    r.append(inner.as_str());
                    proof {
                        lemma_descriptors_of_push(shapes.take(i as int), shapes[i as int]);
                        assert(shapes.take(i as int).push(shapes[i as int]) =~= shapes.take(
                            i as int + 1,
                        ));
                        assert(r@ =~= seq!['('] + descriptors_of(shapes.take(i as int + 1)));
                    }
                    i = i + 1;
                }
                r.append(")");
                let ret = return_type.get_descriptor();
                r.append(ret.as_str());
                proof {
                    reveal_strlit(")");
                    assert(shapes.take(argument_types@.len() as int) =~= shapes);
                    assert(r@ =~= descriptor_of(self@));
                }
                r
            },
        }
    }

    /// The stable small-integer tag of this type's variant.
    pub fn get_sort(&self) -> (r: u8)
        ensures
            r == sort_of(self@),
    {
        match self {
            Type::Void => 0,
            Type::Boolean => 1,
            Type::Char => 2,
            Type::Byte => 3,
            Type::Short => 4,
            Type::Int => 5,
            Type::Float => 6,
            Type::Long => 7,
            Type::Double => 8,
            Type::Array(_) => 9,
            Type::Object(_) => 10,
            Type::Method { .. } => 11,
        }
    }

    /// The source-level class name (e.g. `int`, `java.lang.Object[]`).
    /// Not defined for method types, at any array depth.
    #[verifier::loop_isolation(false)]
    pub fn get_class_name(&self) -> (r: String)
        requires
            class_nameable(self@),
        ensures
            r@ == class_name_of(self@),
        decreases *self,
    {
        match self {
            Type::Void => {
                let r = "void".to_owned();
                r
            },
            Type::Boolean => {
                let r = "boolean".to_owned();
                r
            },
            Type::Char => {
                let r = "char".to_owned();
                r
            },
            Type::Byte => {
                let r = "byte".to_owned();
                r
            },
            Type::Short => {
                let r = "short".to_owned();
                r
            },
            Type::Int => {
                let r = "int".to_owned();
                r
            },
            Type::Float => {
                let r = "float".to_owned();
                r
            },
            Type::Long => {
                let r = "long".to_owned();
                r
            },
            Type::Double => {
                let r = "double".to_owned();
                r
            },
            Type::Array(e) => {
                let mut r = e.get_class_name();
                r.append("[]");
                r
            },
            Type::Object(name) => {
                let mut r = String::new();
                let n = name.as_str().unicode_len();
                let mut i: usize = 0;
                while i < n
                    invariant
                        0 <= i <= n,
                        r@ == dotted(name@).take(i as int),
                    decreases n - i,
                {
                    let c = name.as_str().get_char(i);
                    if c == '/' {
                        r.append(".");
                        proof {
                            reveal_strlit(".");
                        }
                    } else {
                        r.append(name.as_str().substring_char(i, i + 1));
                    }
                    proof {
                        assert(dotted(name@).take(i as int).push(dotted(name@)[i as int])
                            =~= dotted(name@).take(i as int + 1));
                        assert(r@ =~= dotted(name@).take(i as int + 1));
                    }
                    i = i + 1;
                }
                proof {
                    assert(dotted(name@).take(n as int) =~= dotted(name@));
                }
                r
            },
            Type::Method { .. } => {
                proof {
                    assert(false);
                }
                "".to_owned()
            },
        }
    }

    /// The internal name: the slash-form name for object types, the
    /// descriptor itself for array types, nothing for other types.
    pub fn internal_name(&self) -> (r: Option<String>)
        ensures
            match self@ {
                TypeShape::Object(n) => r matches Some(s) && s@ == n,
                TypeShape::Array(_) => r matches Some(s) && s@ == descriptor_of(self@),
                _ => r is None,
            },
    {
        match self {
            Type::Object(name) => Some(name.clone()),
            Type::Array(_) => Some(self.get_descriptor()),
            _ => None,
        }
    }

    /// The number of array dimensions, zero for non-array types.
    pub fn get_dimensions(&self) -> (r: usize)
        requires
            dims_of(self@) <= usize::MAX,
        ensures
            r == dims_of(self@),
        decreases *self,
    {
        match self {
            Type::Array(e) => {
                let d = e.get_dimensions();
                1 + d
            },
            _ => 0,
        }
    }

    /// The element type of an array type (which may itself be an array).
    pub fn get_element_type(&self) -> (r: Option<&Type>)
        ensures
            match self@ {
                TypeShape::Array(e) => r matches Some(t) && t@ == *e,
                _ => r is None,
            },
    {
        match self {
            Type::Array(e) => Some(&**e),
            _ => None,
        }
    }

    /// The argument types of a method type.
    pub fn get_argument_types(&self) -> (r: Option<&[Type]>)
        ensures
            match self@ {
                TypeShape::Method { argument_types, .. } => r matches Some(ts) && type_shapes(ts@)
                    == argument_types,
                _ => r is None,
            },
    {
        match self {
            Type::Method { argument_types, .. } => Some(argument_types.as_slice()),
            _ => None,
        }
    }

    /// The return type of a method type.
    pub fn get_return_type(&self) -> (r: Option<&Type>)
        ensures
            match self@ {
                TypeShape::Method { return_type, .. } => r matches Some(t) && t@ == *return_type,
                _ => r is None,
            },
    {
        match self {
            Type::Method { return_type, .. } => Some(&**return_type),
            _ => None,
        }
    }

    /// The number of slots a value of this type occupies: two for `long`
    /// and `double`, none for `void`, one otherwise.
    pub fn get_size(&self) -> (r: usize)
        ensures
            r == size_of_shape(self@),
    {
        match self {
            Type::Void => 0,
            Type::Long => 2,
            Type::Double => 2,
            _ => 1,
        }
    }

    /// The number of arguments of this method type; defined only for
    /// method types.
    pub fn get_argument_count(&self) -> (r: usize)
        requires
            self@ is Method,
        ensures
            r == self@->argument_types.len(),
    {
        match self {
            Type::Method { argument_types, .. } => {
                proof {
                    lemma_type_shapes(argument_types@);
                }
                argument_types.len()
            },
            _ => {
                proof {
                    assert(false);
                }
                0
            },
        }
    }
}

} // verus!
