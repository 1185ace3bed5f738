//! Logical data types. Nullability is a separate axis on every type.

use vstd::prelude::*;

verus! {

#[derive(Clone, Copy, PartialEq, Eq, Structural, Debug)]
pub enum Nullability {
    NonNullable,
    Nullable,
}

#[derive(Clone, Copy, PartialEq, Eq, Structural, Debug)]
pub enum IntWidth {
    W8,
    W16,
    W32,
    W64,
}

#[derive(Clone, Copy, PartialEq, Eq, Structural, Debug)]
pub enum FloatWidth {
    W16,
    W32,
    W64,
}

#[derive(Clone, Copy, PartialEq, Eq, Structural, Debug)]
pub enum Signedness {
    Signed,
    Unsigned,
}

/// Physical type of a primitive buffer element. Every element is stored as
/// its 64-bit pattern: integers zero- or sign-extended, floats by their IEEE
/// bit representation (the library never performs float arithmetic itself).
#[derive(Clone, Copy, PartialEq, Eq, Structural, Debug)]
pub enum PType {
    I8,
    I16,
    I32,
    I64,
    U8,
    U16,
    U32,
    U64,
    F16,
    F32,
    F64,
}

/// A logical type. Field names are byte strings.
#[derive(Debug, PartialEq)]
pub enum DType {
    Null,
    Bool(Nullability),
    Int(IntWidth, Signedness, Nullability),
    Float(FloatWidth, Nullability),
    Utf8(Nullability),
    Binary(Nullability),
    Struct(Vec<Vec<u8>>, Vec<DType>, Nullability),
    List(Box<DType>, Nullability),
}

impl PType {
    /// Width of one element in bytes.
    pub fn byte_width(&self) -> (r: usize)
        ensures
            r == self.spec_byte_width(),
    {
        match self {
            PType::I8 | PType::U8 => 1,
            PType::I16 | PType::U16 | PType::F16 => 2,
            PType::I32 | PType::U32 | PType::F32 => 4,
            PType::I64 | PType::U64 | PType::F64 => 8,
        }
    }

    pub open spec fn spec_byte_width(self) -> usize {
        match self {
            PType::I8 | PType::U8 => 1usize,
            PType::I16 | PType::U16 | PType::F16 => 2usize,
            PType::I32 | PType::U32 | PType::F32 => 4usize,
            PType::I64 | PType::U64 | PType::F64 => 8usize,
        }
    }

    pub open spec fn spec_is_int(self) -> bool {
        match self {
            PType::I8 | PType::I16 | PType::I32 | PType::I64 | PType::U8 | PType::U16
                | PType::U32 | PType::U64 => true,
            _ => false,
        }
    }

    /// Whether a primitive child of this type can carry the float encoding:
    /// a 32- or 64-bit integer of either signedness.
    pub open spec fn spec_is_alp_child(self) -> bool {
        match self {
            PType::I32 | PType::I64 | PType::U32 | PType::U64 => true,
            _ => false,
        }
    }

    pub open spec fn spec_is_unsigned_int(self) -> bool {
        match self {
            PType::U8 | PType::U16 | PType::U32 | PType::U64 => true,
            _ => false,
        }
    }

    pub fn is_int(&self) -> (r: bool)
        ensures
            r == self.spec_is_int(),
    {
        match self {
            PType::I8 | PType::I16 | PType::I32 | PType::I64 | PType::U8 | PType::U16
                | PType::U32 | PType::U64 => true,
            _ => false,
        }
    }

    pub fn is_unsigned_int(&self) -> (r: bool)
        ensures
            r == self.spec_is_unsigned_int(),
    {
        match self {
            PType::U8 | PType::U16 | PType::U32 | PType::U64 => true,
            _ => false,
        }
    }

    /// The logical type of a primitive array of this physical type.
    pub open spec fn spec_dtype(self, n: Nullability) -> DType {
        match self {
            PType::I8 => DType::Int(IntWidth::W8, Signedness::Signed, n),
            PType::I16 => DType::Int(IntWidth::W16, Signedness::Signed, n),
            PType::I32 => DType::Int(IntWidth::W32, Signedness::Signed, n),
            PType::I64 => DType::Int(IntWidth::W64, Signedness::Signed, n),
            PType::U8 => DType::Int(IntWidth::W8, Signedness::Unsigned, n),
            PType::U16 => DType::Int(IntWidth::W16, Signedness::Unsigned, n),
            PType::U32 => DType::Int(IntWidth::W32, Signedness::Unsigned, n),
            PType::U64 => DType::Int(IntWidth::W64, Signedness::Unsigned, n),
            PType::F16 => DType::Float(FloatWidth::W16, n),
            PType::F32 => DType::Float(FloatWidth::W32, n),
            PType::F64 => DType::Float(FloatWidth::W64, n),
        }
    }

    pub fn dtype(&self, n: Nullability) -> (r: DType)
        ensures
            r == self.spec_dtype(n),
    {
        match self {
            PType::I8 => DType::Int(IntWidth::W8, Signedness::Signed, n),
            PType::I16 => DType::Int(IntWidth::W16, Signedness::Signed, n),
            PType::I32 => DType::Int(IntWidth::W32, Signedness::Signed, n),
            PType::I64 => DType::Int(IntWidth::W64, Signedness::Signed, n),
            PType::U8 => DType::Int(IntWidth::W8, Signedness::Unsigned, n),
            PType::U16 => DType::Int(IntWidth::W16, Signedness::Unsigned, n),
            PType::U32 => DType::Int(IntWidth::W32, Signedness::Unsigned, n),
            PType::U64 => DType::Int(IntWidth::W64, Signedness::Unsigned, n),
            PType::F16 => DType::Float(FloatWidth::W16, n),
            PType::F32 => DType::Float(FloatWidth::W32, n),
            PType::F64 => DType::Float(FloatWidth::W64, n),
        }
    }
}

impl DType {
    pub open spec fn spec_is_int(self) -> bool {
        self matches DType::Int(_, _, _)
    }

    pub open spec fn spec_is_nullable(self) -> bool {
        match self {
            DType::Null => true,
            DType::Bool(n) => n is Nullable,
            DType::Int(_, _, n) => n is Nullable,
            DType::Float(_, n) => n is Nullable,
            DType::Utf8(n) => n is Nullable,
            DType::Binary(n) => n is Nullable,
            DType::Struct(_, _, n) => n is Nullable,
            DType::List(_, n) => n is Nullable,
        }
    }

    pub fn is_int(&self) -> (r: bool)
        ensures
            r == self.spec_is_int(),
    {
        matches!(self, DType::Int(_, _, _))
    }

    pub fn is_nullable(&self) -> (r: bool)
        ensures
            r == self.spec_is_nullable(),
    {
        match self {
            DType::Null => true,
            DType::Bool(n) => matches!(n, Nullability::Nullable),
            DType::Int(_, _, n) => matches!(n, Nullability::Nullable),
            DType::Float(_, n) => matches!(n, Nullability::Nullable),
            DType::Utf8(n) => matches!(n, Nullability::Nullable),
            DType::Binary(n) => matches!(n, Nullability::Nullable),
            DType::Struct(_, _, n) => matches!(n, Nullability::Nullable),
            DType::List(_, n) => matches!(n, Nullability::Nullable),
        }
    }
}

/// Structural equality of logical types, with field names compared by
/// contents. This is the notion of type equality all contracts use.
pub open spec fn dtype_matches(a: DType, b: DType) -> bool
    decreases a,
{
    match (a, b) {
        (DType::Null, DType::Null) => true,
        (DType::Bool(x), DType::Bool(y)) => x == y,
        (DType::Int(w1, s1, n1), DType::Int(w2, s2, n2)) => w1 == w2 && s1 == s2 && n1 == n2,
        (DType::Float(w1, n1), DType::Float(w2, n2)) => w1 == w2 && n1 == n2,
        (DType::Utf8(x), DType::Utf8(y)) => x == y,
        (DType::Binary(x), DType::Binary(y)) => x == y,
        (DType::Struct(names1, types1, n1), DType::Struct(names2, types2, n2)) => {
            &&& n1 == n2
            &&& names1@.len() == names2@.len()
            &&& types1@.len() == types2@.len()
            &&& forall|i: int| 0 <= i < names1@.len() ==> names1@[i]@ == names2@[i]@
            &&& forall|i: int|
                0 <= i < types1@.len() ==> dtype_matches(types1@[i], types2@[i])
        },
        (DType::List(e1, n1), DType::List(e2, n2)) => n1 == n2 && dtype_matches(*e1, *e2),
        _ => false,
    }
}

/// Executable structural equality on logical types.
#[verifier::loop_isolation(false)]
pub fn dtype_eq(a: &DType, b: &DType) -> (r: bool)
    ensures
        r == dtype_matches(*a, *b),
    decreases *a,
{
    match (a, b) {
        (DType::Null, DType::Null) => true,
        (DType::Bool(x), DType::Bool(y)) => x == y,
        (DType::Int(w1, s1, n1), DType::Int(w2, s2, n2)) => w1 == w2 && s1 == s2 && n1 == n2,
        (DType::Float(w1, n1), DType::Float(w2, n2)) => w1 == w2 && n1 == n2,
        (DType::Utf8(x), DType::Utf8(y)) => x == y,
        (DType::Binary(x), DType::Binary(y)) => x == y,
        (DType::Struct(names1, types1, n1), DType::Struct(names2, types2, n2)) => {
            proof {
                assert(a->Struct_0@ == names1@);
                assert(a->Struct_1@ == types1@);
                assert(a->Struct_2 == *n1);
                assert(b->Struct_0@ == names2@);
                assert(b->Struct_1@ == types2@);
                assert(b->Struct_2 == *n2);
            }
            if n1 != n2 || names1.len() != names2.len() || types1.len() != types2.len() {
                return false;
            }
            for i in 0..names1.len()
                invariant
                    names1@.len() == names2@.len(),
                    forall|j: int| 0 <= j < i ==> names1@[j]@ == names2@[j]@,
            {
                if !bytes_eq(&names1[i], &names2[i]) {
                    proof {
                        if dtype_matches(*a, *b) {
                            assert(names1@[i as int]@ == names2@[i as int]@);
                        }
                    }
                    return false;
                }
            }
            for i in 0..types1.len()
                invariant
                    types1@.len() == types2@.len(),
                    forall|j: int| 0 <= j < i ==> dtype_matches(types1@[j], types2@[j]),
            {
                proof {
                    assert(decreases_to!(*a => types1@[i as int]));
                }
                if !dtype_eq(&types1[i], &types2[i]) {
                    proof {
                        if dtype_matches(*a, *b) {
                            assert(dtype_matches(types1@[i as int], types2@[i as int]));
                        }
                    }
                    return false;
                }
            }
            true
        },
        (DType::List(e1, n1), DType::List(e2, n2)) => n1 == n2 && dtype_eq(e1, e2),
        _ => false,
    }
}

/// Byte-string equality by contents.
pub fn bytes_eq(a: &Vec<u8>, b: &Vec<u8>) -> (r: bool)
    ensures
        r == (a@ == b@),
{
    if a.len() != b.len() {
        return false;
    }
    for i in 0..a.len()
        invariant
            a@.len() == b@.len(),
            forall|j: int| 0 <= j < i ==> a@[j] == b@[j],
    {
        if a[i] != b[i] {
            return false;
        }
    }
    proof {
        assert(a@ =~= b@);
    }
    true
}


/// Copies a vector of plain values.
pub fn clone_vec_copy<T: Copy>(v: &Vec<T>) -> (r: Vec<T>)
    ensures
        r@ == v@,
{
    let mut r: Vec<T> = Vec::new();
    for i in 0..v.len()
        invariant
            r@.len() == i,
            forall|j: int| 0 <= j < i ==> r@[j] == v@[j],
    {
        r.push(v[i]);
    }
    proof {
        assert(r@ =~= v@);
    }
    r
}

/// Copies a logical type; the copy matches the original in both directions.
#[verifier::loop_isolation(false)]
pub fn dtype_clone(d: &DType) -> (r: DType)
    ensures
        dtype_matches(*d, r),
        dtype_matches(r, *d),
    decreases *d,
{
    match d {
        DType::Null => DType::Null,
        DType::Bool(n) => DType::Bool(*n),
        DType::Int(w, s, n) => DType::Int(*w, *s, *n),
        DType::Float(w, n) => DType::Float(*w, *n),
        DType::Utf8(n) => DType::Utf8(*n),
        DType::Binary(n) => DType::Binary(*n),
        DType::Struct(names, types, n) => {
            proof {
                assert(d->Struct_0@ == names@);
                assert(d->Struct_1@ == types@);
            }
            let mut names2: Vec<Vec<u8>> = Vec::new();
            for i in 0..names.len()
                invariant
                    names2@.len() == i,
                    forall|j: int| 0 <= j < i ==> #[trigger] names2@[j]@ == names@[j]@,
            {
                names2.push(clone_vec_copy(&names[i]));
            }
            let mut types2: Vec<DType> = Vec::new();
            for i in 0..types.len()
                invariant
                    types2@.len() == i,
                    forall|j: int|
                        0 <= j < i ==> dtype_matches(types@[j], #[trigger] types2@[j])
                            && dtype_matches(types2@[j], types@[j]),
            {
                proof {
                    assert(decreases_to!(*d => types@[i as int]));
                }
                types2.push(dtype_clone(&types[i]));
            }
            DType::Struct(names2, types2, *n)
        },
        DType::List(e, n) => DType::List(Box::new(dtype_clone(e)), *n),
    }
}


/// Structural type equality is transitive.
pub proof fn lemma_dtype_matches_trans(a: DType, b: DType, c: DType)
    requires
        dtype_matches(a, b),
        dtype_matches(b, c),
    ensures
        dtype_matches(a, c),
    decreases a,
{
    match (a, b, c) {
        (DType::Struct(n1, t1, x1), DType::Struct(n2, t2, x2), DType::Struct(n3, t3, x3)) => {
            assert forall|i: int| 0 <= i < t1@.len() implies dtype_matches(
                t1@[i],
                #[trigger] t3@[i],
            ) by {
                assert(dtype_matches(t1@[i], t2@[i]));
                assert(dtype_matches(t2@[i], t3@[i]));
                lemma_dtype_matches_trans(t1@[i], t2@[i], t3@[i]);
            }
        },
        (DType::List(e1, x1), DType::List(e2, x2), DType::List(e3, x3)) => {
            lemma_dtype_matches_trans(*e1, *e2, *e3);
        },
        _ => {},
    }
}

/// Structural type equality is symmetric.
pub proof fn lemma_dtype_matches_sym(a: DType, b: DType)
    requires
        dtype_matches(a, b),
    ensures
        dtype_matches(b, a),
    decreases a,
{
    match (a, b) {
        (DType::Struct(n1, t1, x1), DType::Struct(n2, t2, x2)) => {
            assert forall|i: int| 0 <= i < t2@.len() implies dtype_matches(
                t2@[i],
                #[trigger] t1@[i],
            ) by {
                assert(dtype_matches(t1@[i], t2@[i]));
                lemma_dtype_matches_sym(t1@[i], t2@[i]);
            }
        },
        (DType::List(e1, x1), DType::List(e2, x2)) => {
            lemma_dtype_matches_sym(*e1, *e2);
        },
        _ => {},
    }
}

} // verus!

