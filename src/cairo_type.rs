use vstd::prelude::*;

verus! {

/// A type of the target language: primitives and composites in one closed union.
pub enum Type {
    U8Type,
    U16Type,
    U32Type,
    U64Type,
    U128Type,
    U256Type,
    Felt252Type,
    USizeType,
    StringType,
    BooleanType,
    TupleType(TupleType),
    StructType(StructType),
    ArrayType(ArrayType),
    FunctionType(FunctionType),
    VoidType,
}

/// An ordered sequence of member types.
pub struct TupleType {
    pub types: Vec<Type>,
}

/// A named struct with ordered `(field name, field type)` pairs.
pub struct StructType {
    pub struct_name: String,
    pub types: Vec<(String, Type)>,
}

/// An array of one element type with a length.
pub struct ArrayType {
    pub internal_type: Box<Type>,
    pub size: usize,
}

/// A function type: argument types and a return type.
pub struct FunctionType {
    pub return_type: Box<Type>,
    pub args: Vec<Type>,
}

/// The mathematical shape of a type. Two types are structurally equal
/// exactly when their views are equal.
pub enum TypeView {
    U8,
    U16,
    U32,
    U64,
    U128,
    U256,
    Felt252,
    USize,
    Str,
    Bool,
    Void,
    Tuple(Seq<TypeView>),
    Struct(Seq<char>, Seq<(Seq<char>, TypeView)>),
    Array(Box<TypeView>, nat),
    Function(Seq<TypeView>, Box<TypeView>),
}

/// Views of the first `n` types of `s`.
pub open spec fn views_of(s: Seq<Type>, n: int) -> Seq<TypeView>
    decreases s, n,
{
    if 0 < n <= s.len() {
        views_of(s, n - 1).push(s[n - 1].view())
    } else {
        Seq::empty()
    }
}

/// Views of the first `n` fields of `s`.
pub open spec fn fields_of(s: Seq<(String, Type)>, n: int) -> Seq<(Seq<char>, TypeView)>
    decreases s, n,
{
    if 0 < n <= s.len() {
        fields_of(s, n - 1).push((s[n - 1].0@, s[n - 1].1.view()))
    } else {
        Seq::empty()
    }
}

impl View for Type {
    type V = TypeView;

    open spec fn view(&self) -> TypeView
        decreases self, 0int,
    {
        match self {
            Type::U8Type => TypeView::U8,
            Type::U16Type => TypeView::U16,
            Type::U32Type => TypeView::U32,
            Type::U64Type => TypeView::U64,
            Type::U128Type => TypeView::U128,
            Type::U256Type => TypeView::U256,
            Type::Felt252Type => TypeView::Felt252,
            Type::USizeType => TypeView::USize,
            Type::StringType => TypeView::Str,
            Type::BooleanType => TypeView::Bool,
            Type::VoidType => TypeView::Void,
            Type::TupleType(t) => TypeView::Tuple(views_of(t.types@, t.types@.len() as int)),
            Type::StructType(s) => TypeView::Struct(
                s.struct_name@,
                fields_of(s.types@, s.types@.len() as int),
            ),
            Type::ArrayType(a) => TypeView::Array(
                Box::new((*a.internal_type).view()),
                a.size as nat,
            ),
            Type::FunctionType(f) => TypeView::Function(
                views_of(f.args@, f.args@.len() as int),
                Box::new((*f.return_type).view()),
            ),
        }
    }
}

/// Views of a whole sequence of types.
pub open spec fn views(s: Seq<Type>) -> Seq<TypeView> {
    s.map_values(|t: Type| t@)
}

pub proof fn lemma_views_of(s: Seq<Type>, n: int)
    requires
        0 <= n <= s.len(),
    ensures
        views_of(s, n).len() == n,
        forall|i: int| 0 <= i < n ==> #[trigger] views_of(s, n)[i] == s[i]@,
    decreases n,
{
    if n > 0 {
        lemma_views_of(s, n - 1);
        assert(views_of(s, n) == views_of(s, n - 1).push(s[n - 1]@));
    } else {
        assert(views_of(s, n).len() == 0);
    }
}

pub proof fn lemma_fields_of(s: Seq<(String, Type)>, n: int)
    requires
        0 <= n <= s.len(),
    ensures
        fields_of(s, n).len() == n,
        forall|i: int| 0 <= i < n ==> #[trigger] fields_of(s, n)[i] == (s[i].0@, s[i].1@),
    decreases n,
{
    if n > 0 {
        lemma_fields_of(s, n - 1);
        assert(fields_of(s, n) == fields_of(s, n - 1).push((s[n - 1].0@, s[n - 1].1@)));
    } else {
        assert(fields_of(s, n).len() == 0);
    }
}

/// The text of a type in the target language.
pub open spec fn render(t: TypeView) -> Seq<char>
    decreases t, 0int,
{
    match t {
        TypeView::U8 => "u8"@,
        TypeView::U16 => "u16"@,
        TypeView::U32 => "u32"@,
        TypeView::U64 => "u64"@,
        TypeView::U128 => "u128"@,
        TypeView::U256 => "u256"@,
        TypeView::Felt252 => "felt252"@,
        TypeView::USize => "usize"@,
        TypeView::Str => "ByteArray"@,
        TypeView::Bool => "bool"@,
        TypeView::Void => "()"@,
        TypeView::Tuple(s) => "("@ + render_join(s, s.len() as int) + ")"@,
        TypeView::Struct(name, _) => name,
        TypeView::Array(e, _) => "Array<"@ + render(*e) + ">"@,
        TypeView::Function(args, ret) => "fn("@ + render_join(args, args.len() as int) + ") -> "@
            + render(*ret),
    }
}

/// The renderings of the first `n` types of `s`, separated by `" , "`.
pub open spec fn render_join(s: Seq<TypeView>, n: int) -> Seq<char>
    decreases s, n,
{
    if 0 < n <= s.len() {
        if n == 1 {
            render(s[0])
        } else {
            render_join(s, n - 1) + " , "@ + render(s[n - 1])
        }
    } else {
        Seq::empty()
    }
}

/// How deeply tuples nest inside a type (0 for a type that holds no tuple).
pub open spec fn tuple_depth(t: TypeView) -> nat
    decreases t, 0int,
{
    match t {
        TypeView::Tuple(s) => 1 + max_tuple_depth(s, s.len() as int),
        TypeView::Struct(_, f) => max_field_tuple_depth(f, f.len() as int),
        TypeView::Array(e, _) => tuple_depth(*e),
        TypeView::Function(args, ret) => {
            let a = max_tuple_depth(args, args.len() as int);
            let r = tuple_depth(*ret);
            if a >= r {
                a
            } else {
                r
            }
        },
        _ => 0,
    }
}

/// The largest tuple depth among the first `n` types of `s`.
pub open spec fn max_tuple_depth(s: Seq<TypeView>, n: int) -> nat
    decreases s, n,
{
    if 0 < n <= s.len() {
        let a = max_tuple_depth(s, n - 1);
        let b = tuple_depth(s[n - 1]);
        if a >= b {
            a
        } else {
            b
        }
    } else {
        0
    }
}

/// The largest tuple depth among the types of the first `n` fields of `f`.
pub open spec fn max_field_tuple_depth(f: Seq<(Seq<char>, TypeView)>, n: int) -> nat
    decreases f, n,
{
    if 0 < n <= f.len() {
        let a = max_field_tuple_depth(f, n - 1);
        let b = tuple_depth(f[n - 1].1);
        if a >= b {
            a
        } else {
            b
        }
    } else {
        0
    }
}

/// A type whose values can be written as literals: no array or function
/// type occurs in it.
pub open spec fn literal_ok(t: TypeView) -> bool
    decreases t, 0int,
{
    match t {
        TypeView::Array(_, _) | TypeView::Function(_, _) => false,
        TypeView::Tuple(s) => all_literal_ok(s, s.len() as int),
        TypeView::Struct(_, f) => all_fields_literal_ok(f, f.len() as int),
        _ => true,
    }
}

/// Each of the first `n` types of `s` can be written as a literal.
pub open spec fn all_literal_ok(s: Seq<TypeView>, n: int) -> bool
    decreases s, n,
{
    if 0 < n <= s.len() {
        all_literal_ok(s, n - 1) && literal_ok(s[n - 1])
    } else {
        true
    }
}

/// The type of each of the first `n` fields of `f` can be written as a literal.
pub open spec fn all_fields_literal_ok(f: Seq<(Seq<char>, TypeView)>, n: int) -> bool
    decreases f, n,
{
    if 0 < n <= f.len() {
        all_fields_literal_ok(f, n - 1) && literal_ok(f[n - 1].1)
    } else {
        true
    }
}

pub proof fn lemma_all_literal_ok(s: Seq<TypeView>, n: int)
    requires
        0 <= n <= s.len(),
    ensures
        all_literal_ok(s, n) <==> forall|i: int| 0 <= i < n ==> #[trigger] literal_ok(s[i]),
    decreases n,
{
    if n > 0 {
        lemma_all_literal_ok(s, n - 1);
        assert(all_literal_ok(s, n) == (all_literal_ok(s, n - 1) && literal_ok(s[n - 1])));
    } else {
        assert(all_literal_ok(s, n));
    }
}

pub proof fn lemma_all_fields_literal_ok(f: Seq<(Seq<char>, TypeView)>, n: int)
    requires
        0 <= n <= f.len(),
    ensures
        all_fields_literal_ok(f, n) <==> forall|i: int| 0 <= i < n ==> #[trigger] literal_ok(f[i].1),
    decreases n,
{
    if n > 0 {
        lemma_all_fields_literal_ok(f, n - 1);
        assert(all_fields_literal_ok(f, n) == (all_fields_literal_ok(f, n - 1) && literal_ok(
            f[n - 1].1,
        )));
    } else {
        assert(all_fields_literal_ok(f, n));
    }
}

pub proof fn lemma_max_tuple_depth_le(s: Seq<TypeView>, n: int, b: nat)
    requires
        0 <= n <= s.len(),
        forall|i: int| 0 <= i < n ==> #[trigger] tuple_depth(s[i]) <= b,
    ensures
        max_tuple_depth(s, n) <= b,
    decreases n,
{
    if n > 0 {
        lemma_max_tuple_depth_le(s, n - 1, b);
        assert(tuple_depth(s[n - 1]) <= b);
        assert(max_tuple_depth(s, n) == if max_tuple_depth(s, n - 1) >= tuple_depth(s[n - 1]) {
            max_tuple_depth(s, n - 1)
        } else {
            tuple_depth(s[n - 1])
        });
    } else {
        assert(max_tuple_depth(s, n) == 0);
    }
}

pub proof fn lemma_max_field_tuple_depth_le(f: Seq<(Seq<char>, TypeView)>, n: int, b: nat)
    requires
        0 <= n <= f.len(),
        forall|i: int| 0 <= i < n ==> #[trigger] tuple_depth(f[i].1) <= b,
    ensures
        max_field_tuple_depth(f, n) <= b,
    decreases n,
{
    if n > 0 {
        lemma_max_field_tuple_depth_le(f, n - 1, b);
        assert(tuple_depth(f[n - 1].1) <= b);
        assert(max_field_tuple_depth(f, n) == if max_field_tuple_depth(f, n - 1) >= tuple_depth(
            f[n - 1].1,
        ) {
            max_field_tuple_depth(f, n - 1)
        } else {
            tuple_depth(f[n - 1].1)
        });
    } else {
        assert(max_field_tuple_depth(f, n) == 0);
    }
}

/// How deeply structs nest inside a type (0 for a type that holds no
/// struct); a struct counts one level above its fields.
pub open spec fn struct_depth(t: TypeView) -> nat
    decreases t, 0int,
{
    match t {
        TypeView::Tuple(s) => max_struct_depth(s, s.len() as int),
        TypeView::Struct(_, f) => 1 + max_field_struct_depth(f, f.len() as int),
        TypeView::Array(e, _) => struct_depth(*e),
        TypeView::Function(args, ret) => {
            let a = max_struct_depth(args, args.len() as int);
            let r = struct_depth(*ret);
            if a >= r {
                a
            } else {
                r
            }
        },
        _ => 0,
    }
}

/// The largest struct depth among the first `n` types of `s`.
pub open spec fn max_struct_depth(s: Seq<TypeView>, n: int) -> nat
    decreases s, n,
{
    if 0 < n <= s.len() {
        let a = max_struct_depth(s, n - 1);
        let b = struct_depth(s[n - 1]);
        if a >= b {
            a
        } else {
            b
        }
    } else {
        0
    }
}

/// The largest struct depth among the types of the first `n` fields of `f`.
pub open spec fn max_field_struct_depth(f: Seq<(Seq<char>, TypeView)>, n: int) -> nat
    decreases f, n,
{
    if 0 < n <= f.len() {
        let a = max_field_struct_depth(f, n - 1);
        let b = struct_depth(f[n - 1].1);
        if a >= b {
            a
        } else {
            b
        }
    } else {
        0
    }
}

pub proof fn lemma_max_struct_depth_le(s: Seq<TypeView>, n: int, b: nat)
    requires
        0 <= n <= s.len(),
        forall|i: int| 0 <= i < n ==> #[trigger] struct_depth(s[i]) <= b,
    ensures
        max_struct_depth(s, n) <= b,
    decreases n,
{
    if n > 0 {
        lemma_max_struct_depth_le(s, n - 1, b);
        assert(struct_depth(s[n - 1]) <= b);
        assert(max_struct_depth(s, n) == if max_struct_depth(s, n - 1) >= struct_depth(s[n - 1]) {
            max_struct_depth(s, n - 1)
        } else {
            struct_depth(s[n - 1])
        });
    } else {
        assert(max_struct_depth(s, n) == 0);
    }
}

pub proof fn lemma_max_field_struct_depth_le(f: Seq<(Seq<char>, TypeView)>, n: int, b: nat)
    requires
        0 <= n <= f.len(),
        forall|i: int| 0 <= i < n ==> #[trigger] struct_depth(f[i].1) <= b,
    ensures
        max_field_struct_depth(f, n) <= b,
    decreases n,
{
    if n > 0 {
        lemma_max_field_struct_depth_le(f, n - 1, b);
        assert(struct_depth(f[n - 1].1) <= b);
        assert(max_field_struct_depth(f, n) == if max_field_struct_depth(f, n - 1) >= struct_depth(
            f[n - 1].1,
        ) {
            max_field_struct_depth(f, n - 1)
        } else {
            struct_depth(f[n - 1].1)
        });
    } else {
        assert(max_field_struct_depth(f, n) == 0);
    }
}

/// A type with no member types of its own: a primitive, void or a struct
/// (a struct is referred to by name).
pub open spec fn is_leaf(t: TypeView) -> bool {
    match t {
        TypeView::Tuple(_) | TypeView::Array(_, _) | TypeView::Function(_, _) => false,
        _ => true,
    }
}

/// `x` is a leaf reachable through the members of `t`.
pub open spec fn has_member(t: TypeView, x: TypeView) -> bool
    decreases t, 0int,
{
    match t {
        TypeView::Tuple(s) => reaches_some(s, s.len() as int, x),
        TypeView::Struct(_, f) => reaches_some_field(f, f.len() as int, x),
        TypeView::Array(e, _) => reaches(*e, x),
        TypeView::Function(args, ret) => reaches_some(args, args.len() as int, x) || reaches(*ret, x),
        _ => false,
    }
}

/// `x` is `c` itself when `c` is a leaf, else a member of `c`.
pub open spec fn reaches(c: TypeView, x: TypeView) -> bool
    decreases c, 1int,
{
    if is_leaf(c) {
        c == x
    } else {
        has_member(c, x)
    }
}

/// One of the first `n` types of `s` reaches `x`.
pub open spec fn reaches_some(s: Seq<TypeView>, n: int, x: TypeView) -> bool
    decreases s, n,
{
    if 0 < n <= s.len() {
        reaches_some(s, n - 1, x) || reaches(s[n - 1], x)
    } else {
        false
    }
}

/// The type of one of the first `n` fields of `f` reaches `x`.
pub open spec fn reaches_some_field(f: Seq<(Seq<char>, TypeView)>, n: int, x: TypeView) -> bool
    decreases f, n,
{
    if 0 < n <= f.len() {
        reaches_some_field(f, n - 1, x) || reaches(f[n - 1].1, x)
    } else {
        false
    }
}

impl Type {
    /// The text of this type in the target language.
    pub fn to_cairo(&self) -> (r: String)
        ensures
            r@ == render(self@),
        decreases self, 1int,
    {
        match self {
            Type::U8Type => String::from_str("u8"),
            Type::U16Type => String::from_str("u16"),
            Type::U32Type => String::from_str("u32"),
            Type::U64Type => String::from_str("u64"),
            Type::U128Type => String::from_str("u128"),
            Type::U256Type => String::from_str("u256"),
            Type::Felt252Type => String::from_str("felt252"),
            Type::USizeType => String::from_str("usize"),
            Type::StringType => String::from_str("ByteArray"),
            Type::BooleanType => String::from_str("bool"),
            Type::VoidType => String::from_str("()"),
            Type::TupleType(t) => {
                proof {
                    lemma_views_of(t.types@, t.types@.len() as int);
                }
                let mut out = String::from_str("(");
                let inner = join_types(&t.types);
                out.append(inner.as_str());
                out.append(")");
                out
            },
            Type::StructType(s) => s.struct_name.clone(),
            Type::ArrayType(a) => {
                let mut out = String::from_str("Array<");
                let inner = a.internal_type.to_cairo();
                out.append(inner.as_str());
                out.append(">");
                out
            },
            Type::FunctionType(f) => {
                proof {
                    lemma_views_of(f.args@, f.args@.len() as int);
                }
                let mut out = String::from_str("fn(");
                let args = join_types(&f.args);
                out.append(args.as_str());
                out.append(") -> ");
                let ret = f.return_type.to_cairo();
                out.append(ret.as_str());
                out
            },
        }
    }

    pub open spec fn spec_is_leaf(&self) -> bool {
        is_leaf(self@)
    }

    /// Whether this type is a leaf: it has no member types of its own.
    #[verifier::when_used_as_spec(spec_is_leaf)]
    pub fn is_leaf(&self) -> (r: bool)
        ensures
            r == is_leaf(self@),
    {
        match self {
            Type::TupleType(_) | Type::ArrayType(_) | Type::FunctionType(_) => false,
            _ => true,
        }
    }

    /// Structural equality: same shape and same component types.
    pub fn same_type(&self, other: &Type) -> (r: bool)
        ensures
            r == (self@ == other@),
        decreases self,
    {
        match (self, other) {
            (Type::U8Type, Type::U8Type) => true,
            (Type::U16Type, Type::U16Type) => true,
            (Type::U32Type, Type::U32Type) => true,
            (Type::U64Type, Type::U64Type) => true,
            (Type::U128Type, Type::U128Type) => true,
            (Type::U256Type, Type::U256Type) => true,
            (Type::Felt252Type, Type::Felt252Type) => true,
            (Type::USizeType, Type::USizeType) => true,
            (Type::StringType, Type::StringType) => true,
            (Type::BooleanType, Type::BooleanType) => true,
            (Type::VoidType, Type::VoidType) => true,
            (Type::TupleType(a), Type::TupleType(b)) => same_types(&a.types, &b.types),
            (Type::StructType(a), Type::StructType(b)) => {
                a.struct_name == b.struct_name && same_fields(&a.types, &b.types)
            },
            (Type::ArrayType(a), Type::ArrayType(b)) => {
                a.size == b.size && a.internal_type.same_type(&b.internal_type)
            },
            (Type::FunctionType(a), Type::FunctionType(b)) => {
                same_types(&a.args, &b.args) && a.return_type.same_type(&b.return_type)
            },
            _ => false,
        }
    }

    /// A copy of this type with the same view.
    pub fn clone_type(&self) -> (r: Type)
        ensures
            r@ == self@,
        decreases self,
    {
        match self {
            Type::U8Type => Type::U8Type,
            Type::U16Type => Type::U16Type,
            Type::U32Type => Type::U32Type,
            Type::U64Type => Type::U64Type,
            Type::U128Type => Type::U128Type,
            Type::U256Type => Type::U256Type,
            Type::Felt252Type => Type::Felt252Type,
            Type::USizeType => Type::USizeType,
            Type::StringType => Type::StringType,
            Type::BooleanType => Type::BooleanType,
            Type::VoidType => Type::VoidType,
            Type::TupleType(t) => Type::TupleType(TupleType { types: clone_types(&t.types) }),
            Type::StructType(s) => Type::StructType(
                StructType { struct_name: s.struct_name.clone(), types: clone_fields(&s.types) },
            ),
            Type::ArrayType(a) => Type::ArrayType(
                ArrayType { internal_type: Box::new(a.internal_type.clone_type()), size: a.size },
            ),
            Type::FunctionType(f) => Type::FunctionType(
                FunctionType {
                    return_type: Box::new(f.return_type.clone_type()),
                    args: clone_types(&f.args),
                },
            ),
        }
    }

    /// Adds to `out` each leaf member of this type that `out` does not hold yet.
    fn collect_members(&self, out: &mut Vec<Type>)
        requires
            distinct(old(out)@),
        ensures
            distinct(final(out)@),
            forall|x: TypeView| #[trigger]
                holds(final(out)@, x) <==> (holds(old(out)@, x) || has_member(self@, x)),
        decreases self, 1int,
    {
        match self {
            Type::TupleType(t) => {
                collect_from_types(&t.types, out);
                let ghost vs = views_of(t.types@, t.types@.len() as int);
                assert(self@ == TypeView::Tuple(vs));
                assert forall|x: TypeView| has_member(self@, x) == reaches_some(vs, vs.len() as int, x) by {}
                proof {
                    lemma_views_of(t.types@, t.types@.len() as int);
                }
            },
            Type::StructType(st) => {
                collect_from_fields(&st.types, out);
                let ghost fs = fields_of(st.types@, st.types@.len() as int);
                assert(self@ == TypeView::Struct(st.struct_name@, fs));
                assert forall|x: TypeView| has_member(self@, x) == reaches_some_field(fs, fs.len() as int, x) by {}
                proof {
                    lemma_fields_of(st.types@, st.types@.len() as int);
                }
            },
            Type::ArrayType(a) => {
                a.internal_type.add_reached(out);
                assert(self@ == TypeView::Array(Box::new(a.internal_type@), a.size as nat));
                assert forall|x: TypeView| has_member(self@, x) == reaches(a.internal_type@, x) by {}
            },
            Type::FunctionType(f) => {
                collect_from_types(&f.args, out);
                f.return_type.add_reached(out);
                let ghost vs = views_of(f.args@, f.args@.len() as int);
                assert(self@ == TypeView::Function(vs, Box::new(f.return_type@)));
                assert forall|x: TypeView| has_member(self@, x) == (reaches_some(vs, vs.len() as int, x) || reaches(f.return_type@, x)) by {}
                proof {
                    lemma_views_of(f.args@, f.args@.len() as int);
                }
            },
            _ => {},
        }
    }

    /// Adds this type to `out` if it is a leaf, else its leaf members.
    fn add_reached(&self, out: &mut Vec<Type>)
        requires
            distinct(old(out)@),
        ensures
            distinct(final(out)@),
            forall|x: TypeView| #[trigger]
                holds(final(out)@, x) <==> (holds(old(out)@, x) || reaches(self@, x)),
        decreases self, 2int,
    {
        if self.is_leaf() {
            push_unique(self, out);
        } else {
            self.collect_members(out);
        }
        assert forall|x: TypeView| reaches(self@, x) == (if is_leaf(self@) {
            self@ == x
        } else {
            has_member(self@, x)
        }) by {}
    }

    /// The leaf types reachable through this type's members, each once.
    pub fn member_types(&self) -> (r: Vec<Type>)
        ensures
            distinct(r@),
            forall|x: TypeView| #[trigger] holds(r@, x) <==> has_member(self@, x),
    {
        let mut out: Vec<Type> = Vec::new();
        self.collect_members(&mut out);
        out
    }

    /// How deeply tuples nest inside this type: the recursion-depth cost
    /// that the depth bounds limit (capped at `u64::MAX`).
    pub fn tuple_nesting(&self) -> (r: u64)
        ensures
            r as nat == capped(tuple_depth(self@)),
        decreases self, 1int,
    {
        match self {
            Type::TupleType(t) => {
                let m = max_nesting(&t.types);
                proof {
                    lemma_views_of(t.types@, t.types@.len() as int);
                    assert(self@ == TypeView::Tuple(views_of(t.types@, t.types@.len() as int)));
                }
                if m < u64::MAX {
                    m + 1
                } else {
                    u64::MAX
                }
            },
            Type::StructType(st) => {
                let m = max_field_nesting(&st.types);
                proof {
                    lemma_fields_of(st.types@, st.types@.len() as int);
                    assert(self@ == TypeView::Struct(
                        st.struct_name@,
                        fields_of(st.types@, st.types@.len() as int),
                    ));
                }
                m
            },
            Type::ArrayType(a) => {
                let m = a.internal_type.tuple_nesting();
                assert(self@ == TypeView::Array(Box::new(a.internal_type@), a.size as nat));
                m
            },
            Type::FunctionType(f) => {
                let m = max_nesting(&f.args);
                let r = f.return_type.tuple_nesting();
                proof {
                    lemma_views_of(f.args@, f.args@.len() as int);
                    assert(self@ == TypeView::Function(
                        views_of(f.args@, f.args@.len() as int),
                        Box::new(f.return_type@),
                    ));
                }
                if m >= r {
                    m
                } else {
                    r
                }
            },
            _ => 0,
        }
    }

    /// Lifetime parameters of this type; none of the supported types has any.
    pub fn life_time_parameters(&self) -> (r: Vec<u8>)
        ensures
            r@.len() == 0,
    {
        Vec::new()
    }
}

/// The renderings of `v`'s types, separated by `" , "`.
fn join_types(v: &Vec<Type>) -> (r: String)
    ensures
        r@ == render_join(views_of(v@, v@.len() as int), v@.len() as int),
    decreases v,
{
    let ghost vs = views_of(v@, v@.len() as int);
    proof {
        lemma_views_of(v@, v@.len() as int);
    }
    let mut out = String::new();
    let mut i: usize = 0;
    while i < v.len()
        invariant
            0 <= i <= v@.len(),
            vs == views_of(v@, v@.len() as int),
            vs.len() == v@.len(),
            forall|k: int| 0 <= k < v@.len() ==> #[trigger] vs[k] == v@[k]@,
            out@ == render_join(vs, i as int),
        decreases v@.len() - i,
    {
        if i > 0 {
            out.append(" , ");
        }
        let s = v[i].to_cairo();
        out.append(s.as_str());
        i = i + 1;
    }
    out
}

/// `n`, or `u64::MAX` when `n` is larger.
pub open spec fn capped(n: nat) -> nat {
    if n < u64::MAX {
        n
    } else {
        u64::MAX as nat
    }
}

/// The largest tuple nesting among the types of `v`.
fn max_nesting(v: &Vec<Type>) -> (r: u64)
    ensures
        r as nat == capped(max_tuple_depth(views_of(v@, v@.len() as int), v@.len() as int)),
    decreases v,
{
    let ghost vs = views_of(v@, v@.len() as int);
    proof {
        lemma_views_of(v@, v@.len() as int);
    }
    let mut acc: u64 = 0;
    let mut i: usize = 0;
    while i < v.len()
        invariant
            0 <= i <= v@.len(),
            vs == views_of(v@, v@.len() as int),
            vs.len() == v@.len(),
            forall|k: int| 0 <= k < v@.len() ==> #[trigger] vs[k] == v@[k]@,
            acc as nat == capped(max_tuple_depth(vs, i as int)),
        decreases v@.len() - i,
    {
        let d = v[i].tuple_nesting();
        assert(vs[i as int] == v@[i as int]@);
        assert(max_tuple_depth(vs, i + 1) == if max_tuple_depth(vs, i as int) >= tuple_depth(
            vs[i as int],
        ) {
            max_tuple_depth(vs, i as int)
        } else {
            tuple_depth(vs[i as int])
        });
        if d > acc {
            acc = d;
        }
        i = i + 1;
    }
    acc
}

/// The largest tuple nesting among the field types of `v`.
fn max_field_nesting(v: &Vec<(String, Type)>) -> (r: u64)
    ensures
        r as nat == capped(
            max_field_tuple_depth(fields_of(v@, v@.len() as int), v@.len() as int),
        ),
    decreases v,
{
    let ghost fs = fields_of(v@, v@.len() as int);
    proof {
        lemma_fields_of(v@, v@.len() as int);
        assert(max_field_tuple_depth(fs, 0) == 0);
    }
    let mut acc: u64 = 0;
    let mut i: usize = 0;
    while i < v.len()
        invariant
            0 <= i <= v@.len(),
            fs == fields_of(v@, v@.len() as int),
            fs.len() == v@.len(),
            forall|k: int| 0 <= k < v@.len() ==> #[trigger] fs[k] == (v@[k].0@, v@[k].1@),
            acc as nat == capped(max_field_tuple_depth(fs, i as int)),
        decreases v@.len() - i,
    {
        let field = &v[i];
        assert(decreases_to!(v => v@[i as int]));
        let d = field.1.tuple_nesting();
        assert(fs[i as int].1 == v@[i as int].1@);
        assert(max_field_tuple_depth(fs, i + 1) == if max_field_tuple_depth(fs, i as int)
            >= tuple_depth(fs[i as int].1) {
            max_field_tuple_depth(fs, i as int)
        } else {
            tuple_depth(fs[i as int].1)
        });
        if d > acc {
            acc = d;
        }
        i = i + 1;
    }
    acc
}

fn same_types(a: &Vec<Type>, b: &Vec<Type>) -> (r: bool)
    ensures
        r == (views_of(a@, a@.len() as int) == views_of(b@, b@.len() as int)),
    decreases a,
{
    proof {
        lemma_views_of(a@, a@.len() as int);
        lemma_views_of(b@, b@.len() as int);
    }
    if a.len() != b.len() {
        return false;
    }
    let mut i: usize = 0;
    while i < a.len()
        invariant
            0 <= i <= a@.len(),
            a@.len() == b@.len(),
            forall|k: int| 0 <= k < i ==> a@[k]@ == #[trigger] b@[k]@,
            views_of(a@, a@.len() as int).len() == a@.len(),
            views_of(b@, b@.len() as int).len() == b@.len(),
            forall|k: int| 0 <= k < a@.len() ==> #[trigger] views_of(a@, a@.len() as int)[k] == a@[k]@,
            forall|k: int| 0 <= k < b@.len() ==> #[trigger] views_of(b@, b@.len() as int)[k] == b@[k]@,
        decreases a@.len() - i,
    {
        if !a[i].same_type(&b[i]) {
            assert(views_of(a@, a@.len() as int)[i as int] != views_of(b@, b@.len() as int)[i as int]);
            return false;
        }
        i = i + 1;
    }
    assert(views_of(a@, a@.len() as int) =~= views_of(b@, b@.len() as int));
    true
}

fn same_fields(a: &Vec<(String, Type)>, b: &Vec<(String, Type)>) -> (r: bool)
    ensures
        r == (fields_of(a@, a@.len() as int) == fields_of(b@, b@.len() as int)),
    decreases a,
{
    proof {
        lemma_fields_of(a@, a@.len() as int);
        lemma_fields_of(b@, b@.len() as int);
    }
    if a.len() != b.len() {
        return false;
    }
    let mut i: usize = 0;
    while i < a.len()
        invariant
            0 <= i <= a@.len(),
            a@.len() == b@.len(),
            forall|k: int| 0 <= k < i ==> #[trigger] fields_of(a@, a@.len() as int)[k] == fields_of(b@, b@.len() as int)[k],
            fields_of(a@, a@.len() as int).len() == a@.len(),
            fields_of(b@, b@.len() as int).len() == b@.len(),
            forall|k: int| 0 <= k < a@.len() ==> #[trigger] fields_of(a@, a@.len() as int)[k] == (a@[k].0@, a@[k].1@),
            forall|k: int| 0 <= k < b@.len() ==> #[trigger] fields_of(b@, b@.len() as int)[k] == (b@[k].0@, b@[k].1@),
        decreases a@.len() - i,
    {
        let same_name = a[i].0 == b[i].0;
        if !same_name {
            assert(fields_of(a@, a@.len() as int)[i as int] != fields_of(b@, b@.len() as int)[i as int]);
            return false;
        }
        if !a[i].1.same_type(&b[i].1) {
            assert(fields_of(a@, a@.len() as int)[i as int] != fields_of(b@, b@.len() as int)[i as int]);
            return false;
        }
        assert(a@[i as int].0@ == b@[i as int].0@);
        assert(a@[i as int].1@ == b@[i as int].1@);
        i = i + 1;
    }
    assert(fields_of(a@, a@.len() as int) =~= fields_of(b@, b@.len() as int));
    true
}

fn clone_types(v: &Vec<Type>) -> (r: Vec<Type>)
    ensures
        views_of(r@, r@.len() as int) == views_of(v@, v@.len() as int),
    decreases v,
{
    let mut out: Vec<Type> = Vec::new();
    let mut i: usize = 0;
    while i < v.len()
        invariant
            0 <= i <= v@.len(),
            out@.len() == i,
            forall|k: int| 0 <= k < i ==> #[trigger] out@[k]@ == v@[k]@,
        decreases v@.len() - i,
    {
        out.push(v[i].clone_type());
        i = i + 1;
    }
    proof {
        lemma_views_of(out@, out@.len() as int);
        lemma_views_of(v@, v@.len() as int);
        assert(views_of(out@, out@.len() as int) =~= views_of(v@, v@.len() as int));
    }
    out
}

pub(crate) fn clone_fields(v: &Vec<(String, Type)>) -> (r: Vec<(String, Type)>)
    ensures
        fields_of(r@, r@.len() as int) == fields_of(v@, v@.len() as int),
    decreases v,
{
    let mut out: Vec<(String, Type)> = Vec::new();
    let mut i: usize = 0;
    while i < v.len()
        invariant
            0 <= i <= v@.len(),
            out@.len() == i,
            forall|k: int| 0 <= k < i ==> #[trigger] out@[k].0@ == v@[k].0@ && out@[k].1@ == v@[k].1@,
        decreases v@.len() - i,
    {
        out.push((v[i].0.clone(), v[i].1.clone_type()));
        i = i + 1;
    }
    proof {
        lemma_fields_of(out@, out@.len() as int);
        lemma_fields_of(v@, v@.len() as int);
        assert(fields_of(out@, out@.len() as int) =~= fields_of(v@, v@.len() as int));
    }
    out
}

/// `x` is the view of some element of `v`.
pub open spec fn holds(v: Seq<Type>, x: TypeView) -> bool {
    exists|i: int| 0 <= i < v.len() && #[trigger] v[i]@ == x
}

/// No two elements of `v` are structurally equal.
pub open spec fn distinct(v: Seq<Type>) -> bool {
    forall|i: int, j: int| 0 <= i < j < v.len() ==> #[trigger] v[i]@ != #[trigger] v[j]@
}

/// Adds to `out` what each type of `v` reaches.
fn collect_from_types(v: &Vec<Type>, out: &mut Vec<Type>)
    requires
        distinct(old(out)@),
    ensures
        distinct(final(out)@),
        forall|x: TypeView| #[trigger]
            holds(final(out)@, x) <==> (holds(old(out)@, x) || reaches_some(
                views_of(v@, v@.len() as int),
                v@.len() as int,
                x,
            )),
    decreases v,
{
    let ghost start = out@;
    let ghost vs = views_of(v@, v@.len() as int);
    proof {
        lemma_views_of(v@, v@.len() as int);
    }
    let mut i: usize = 0;
    while i < v.len()
        invariant
            0 <= i <= v@.len(),
            vs == views_of(v@, v@.len() as int),
            vs.len() == v@.len(),
            forall|k: int| 0 <= k < v@.len() ==> #[trigger] vs[k] == v@[k]@,
            distinct(out@),
            forall|x: TypeView| #[trigger]
                holds(out@, x) <==> (holds(start, x) || reaches_some(vs, i as int, x)),
        decreases v@.len() - i,
    {
        v[i].add_reached(out);
        assert(vs[i as int] == v@[i as int]@);
        i = i + 1;
    }
}

/// Adds to `out` what the type of each field of `v` reaches.
fn collect_from_fields(v: &Vec<(String, Type)>, out: &mut Vec<Type>)
    requires
        distinct(old(out)@),
    ensures
        distinct(final(out)@),
        forall|x: TypeView| #[trigger]
            holds(final(out)@, x) <==> (holds(old(out)@, x) || reaches_some_field(
                fields_of(v@, v@.len() as int),
                v@.len() as int,
                x,
            )),
    decreases v,
{
    let ghost start = out@;
    let ghost fs = fields_of(v@, v@.len() as int);
    proof {
        lemma_fields_of(v@, v@.len() as int);
    }
    let mut i: usize = 0;
    while i < v.len()
        invariant
            0 <= i <= v@.len(),
            fs == fields_of(v@, v@.len() as int),
            fs.len() == v@.len(),
            forall|k: int| 0 <= k < v@.len() ==> #[trigger] fs[k] == (v@[k].0@, v@[k].1@),
            distinct(out@),
            forall|x: TypeView| #[trigger]
                holds(out@, x) <==> (holds(start, x) || reaches_some_field(fs, i as int, x)),
        decreases v@.len() - i,
    {
        let field = &v[i];
        assert(decreases_to!(v => v@[i as int]));
        field.1.add_reached(out);
        assert(fs[i as int].1 == v@[i as int].1@);
        i = i + 1;
    }
}

/// Pushes a copy of `t` onto `out` unless a structurally equal type is there.
fn push_unique(t: &Type, out: &mut Vec<Type>)
    requires
        distinct(old(out)@),
    ensures
        distinct(final(out)@),
        forall|x: TypeView| #[trigger] holds(final(out)@, x) <==> (holds(old(out)@, x) || x == t@),
{
    let mut i: usize = 0;
    while i < out.len()
        invariant
            0 <= i <= out@.len(),
            out@ == old(out)@,
            distinct(out@),
            forall|k: int| 0 <= k < i ==> #[trigger] out@[k]@ != t@,
        decreases out@.len() - i,
    {
        if out[i].same_type(t) {
            assert(out@[i as int]@ == t@);
            return;
        }
        i = i + 1;
    }
    let ghost before = out@;
    out.push(t.clone_type());
    proof {
        assert(out@[before.len() as int]@ == t@);
        assert forall|i: int, j: int| 0 <= i < j < out@.len() implies #[trigger] out@[i]@
            != #[trigger] out@[j]@ by {
            if j < before.len() {
                assert(before[i]@ != before[j]@);
            } else {
                assert(before[i]@ != t@);
            }
        }
        assert forall|x: TypeView| #[trigger] holds(out@, x) <==> (holds(before, x) || x == t@) by {
            if holds(out@, x) {
                let k = choose|k: int| 0 <= k < out@.len() && #[trigger] out@[k]@ == x;
                if k < before.len() {
                    assert(before[k]@ == x);
                }
            }
            if holds(before, x) {
                let k = choose|k: int| 0 <= k < before.len() && #[trigger] before[k]@ == x;
                assert(out@[k]@ == x);
            }
        }
    }
}

impl StructType {
    /// The struct's name.
    pub fn struct_name(&self) -> (r: String)
        ensures
            r@ == self.struct_name@,
    {
        self.struct_name.clone()
    }

    /// The struct's fields, in declaration order.
    pub fn types(&self) -> (r: &Vec<(String, Type)>)
        ensures
            r@ == self.types@,
    {
        &self.types
    }
}

} // verus!
