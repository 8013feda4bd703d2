//! The parts of the syntax tree that monomorphization reads: types, generic parameters
//! and top-level items.
use vstd::prelude::*;
use crate::names::{copy_string, copy_strings, views};

verus! {

/// A type as written in source.
#[derive(Debug)]
#[allow(inconsistent_fields)]
pub enum Type {
    Named(String),
    Generic { name: String, type_args: Vec<Type> },
    Reference { lifetime: Option<String>, mutable: bool, inner: Box<Type> },
    Pointer { inner: Box<Type>, mutable: bool },
    Array { element: Box<Type>, size: usize },
    Tuple(Vec<Type>),
    Function { params: Vec<Type>, return_type: Box<Type> },
    TypeVar(String),
    Never,
    TraitObject { bounds: Vec<String> },
    ImplTrait { bounds: Vec<String> },
    AssociatedType { base: Box<Type>, name: String },
    QualifiedPath { base: Box<Type>, trait_name: String, name: String },
    Closure { params: Vec<Type>, return_type: Box<Type> },
}

/// Two optional names with the same text.
pub open spec fn same_opt_name(a: Option<String>, b: Option<String>) -> bool {
    match (a, b) {
        (Some(x), Some(y)) => x@ == y@,
        (None, None) => true,
        _ => false,
    }
}

/// `a` and `b` are the same type: same shape, same names.
pub open spec fn same_type(a: Type, b: Type) -> bool
    decreases a,
{
    match (a, b) {
        (Type::Named(x), Type::Named(y)) => x@ == y@,
        (Type::Generic { name: n1, type_args: a1 }, Type::Generic { name: n2, type_args: a2 }) =>
            n1@ == n2@ && same_types(a1@, a2@),
        (
            Type::Reference { lifetime: l1, mutable: m1, inner: i1 },
            Type::Reference { lifetime: l2, mutable: m2, inner: i2 },
        ) => same_opt_name(l1, l2) && m1 == m2 && same_type(*i1, *i2),
        (Type::Pointer { inner: i1, mutable: m1 }, Type::Pointer { inner: i2, mutable: m2 }) =>
            m1 == m2 && same_type(*i1, *i2),
        (Type::Array { element: e1, size: s1 }, Type::Array { element: e2, size: s2 }) =>
            s1 == s2 && same_type(*e1, *e2),
        (Type::Tuple(t1), Type::Tuple(t2)) => same_types(t1@, t2@),
        (
            Type::Function { params: p1, return_type: r1 },
            Type::Function { params: p2, return_type: r2 },
        ) => same_types(p1@, p2@) && same_type(*r1, *r2),
        (Type::TypeVar(x), Type::TypeVar(y)) => x@ == y@,
        (Type::Never, Type::Never) => true,
        (Type::TraitObject { bounds: b1 }, Type::TraitObject { bounds: b2 }) => views(b1@) == views(
            b2@,
        ),
        (Type::ImplTrait { bounds: b1 }, Type::ImplTrait { bounds: b2 }) => views(b1@) == views(
            b2@,
        ),
        (
            Type::AssociatedType { base: b1, name: n1 },
            Type::AssociatedType { base: b2, name: n2 },
        ) => n1@ == n2@ && same_type(*b1, *b2),
        (
            Type::QualifiedPath { base: b1, trait_name: t1, name: n1 },
            Type::QualifiedPath { base: b2, trait_name: t2, name: n2 },
        ) => t1@ == t2@ && n1@ == n2@ && same_type(*b1, *b2),
        (
            Type::Closure { params: p1, return_type: r1 },
            Type::Closure { params: p2, return_type: r2 },
        ) => same_types(p1@, p2@) && same_type(*r1, *r2),
        _ => false,
    }
}

/// Position by position, the same types.
pub open spec fn same_types(a: Seq<Type>, b: Seq<Type>) -> bool
    decreases a,
{
    if a.len() == 0 {
        b.len() == 0
    } else {
        b.len() == a.len() && same_types(a.drop_last(), b.drop_last()) && same_type(
            a.last(),
            b.last(),
        )
    }
}

impl Type {
    /// A copy of this type.
    pub fn copy_of(&self) -> (r: Type)
        ensures
            same_type(*self, r),
        decreases self,
    {
        match self {
            Type::Named(x) => Type::Named(copy_string(x)),
            Type::Generic { name, type_args } => Type::Generic {
                name: copy_string(name),
                type_args: copy_types(type_args),
            },
            Type::Reference { lifetime, mutable, inner } => {
                let l = match lifetime {
                    Some(x) => Some(copy_string(x)),
                    None => None,
                };
                Type::Reference { lifetime: l, mutable: *mutable, inner: Box::new(inner.copy_of()) }
            },
            Type::Pointer { inner, mutable } => Type::Pointer {
                inner: Box::new(inner.copy_of()),
                mutable: *mutable,
            },
            Type::Array { element, size } => Type::Array {
                element: Box::new(element.copy_of()),
                size: *size,
            },
            Type::Tuple(ts) => Type::Tuple(copy_types(ts)),
            Type::Function { params, return_type } => Type::Function {
                params: copy_types(params),
                return_type: Box::new(return_type.copy_of()),
            },
            Type::TypeVar(x) => Type::TypeVar(copy_string(x)),
            Type::Never => Type::Never,
            Type::TraitObject { bounds } => Type::TraitObject { bounds: copy_strings(bounds) },
            Type::ImplTrait { bounds } => Type::ImplTrait { bounds: copy_strings(bounds) },
            Type::AssociatedType { base, name } => Type::AssociatedType {
                base: Box::new(base.copy_of()),
                name: copy_string(name),
            },
            Type::QualifiedPath { base, trait_name, name } => Type::QualifiedPath {
                base: Box::new(base.copy_of()),
                trait_name: copy_string(trait_name),
                name: copy_string(name),
            },
            Type::Closure { params, return_type } => Type::Closure {
                params: copy_types(params),
                return_type: Box::new(return_type.copy_of()),
            },
        }
    }
}

/// A copy of a list of types.
pub fn copy_types(v: &Vec<Type>) -> (r: Vec<Type>)
    ensures
        same_types(v@, r@),
    decreases v,
{
    let mut r: Vec<Type> = Vec::new();
    let mut i: usize = 0;
    while i < v.len()
        invariant
            i <= v.len(),
            same_types(v@.take(i as int), r@),
        decreases v.len() - i,
    {
        proof {
            assert(decreases_to!(v => v@[i as int]));
        }
        let c = v[i].copy_of();
        let ghost before = r@;
        r.push(c);
        proof {
            assert(v@.take(i + 1).drop_last() =~= v@.take(i as int));
            assert(r@.drop_last() =~= before);
        }
        i += 1;
    }
    assert(v@.take(v.len() as int) =~= v@);
    r
}

/// A generic parameter of a function, type, trait or impl.
#[derive(Debug)]
pub enum GenericParam {
    Type { name: String, bounds: Vec<String>, default: Option<Type> },
    Lifetime { name: String },
    Const { name: String, ty: Type },
}

/// `a` and `b` are the same generic parameter.
pub open spec fn same_param(a: GenericParam, b: GenericParam) -> bool {
    match (a, b) {
        (
            GenericParam::Type { name: n1, bounds: b1, default: d1 },
            GenericParam::Type { name: n2, bounds: b2, default: d2 },
        ) => n1@ == n2@ && views(b1@) == views(b2@) && match (d1, d2) {
            (Some(x), Some(y)) => same_type(x, y),
            (None, None) => true,
            _ => false,
        },
        (GenericParam::Lifetime { name: n1 }, GenericParam::Lifetime { name: n2 }) => n1@ == n2@,
        (GenericParam::Const { name: n1, ty: t1 }, GenericParam::Const { name: n2, ty: t2 }) =>
            n1@ == n2@ && same_type(t1, t2),
        _ => false,
    }
}

/// Position by position, the same generic parameters.
pub open spec fn same_params(a: Seq<GenericParam>, b: Seq<GenericParam>) -> bool {
    &&& a.len() == b.len()
    &&& forall|i: int| 0 <= i < a.len() ==> #[trigger] same_param(a[i], b[i])
}

impl GenericParam {
    /// A copy of this parameter.
    pub fn copy_of(&self) -> (r: GenericParam)
        ensures
            same_param(*self, r),
    {
        match self {
            GenericParam::Type { name, bounds, default } => {
                let d = match default {
                    Some(t) => Some(t.copy_of()),
                    None => None,
                };
                GenericParam::Type { name: copy_string(name), bounds: copy_strings(bounds), default: d }
            },
            GenericParam::Lifetime { name } => GenericParam::Lifetime { name: copy_string(name) },
            GenericParam::Const { name, ty } => GenericParam::Const {
                name: copy_string(name),
                ty: ty.copy_of(),
            },
        }
    }
}

/// A copy of a list of generic parameters.
pub fn copy_params(v: &Vec<GenericParam>) -> (r: Vec<GenericParam>)
    ensures
        same_params(v@, r@),
{
    let mut r: Vec<GenericParam> = Vec::new();
    let mut i: usize = 0;
    while i < v.len()
        invariant
            i <= v.len(),
            r@.len() == i,
            forall|j: int| 0 <= j < i ==> #[trigger] same_param(v@[j], r@[j]),
        decreases v.len() - i,
    {
        let c = v[i].copy_of();
        r.push(c);
        i += 1;
    }
    r
}

/// A binary operator of the source language.
#[derive(Debug, Clone, Copy, PartialEq, Eq, Structural)]
pub enum BinaryOp {
    Add,
    Subtract,
    Multiply,
    Divide,
    Modulo,
    Equal,
    NotEqual,
    Less,
    LessEq,
    Greater,
    GreaterEq,
    And,
    Or,
    BitwiseAnd,
    BitwiseOr,
    BitwiseXor,
    LeftShift,
    RightShift,
}

/// An expression.
#[derive(Debug)]
pub enum Expression {
    Integer(i64),
    Bool(bool),
    String(String),
    Variable(String),
    Binary { left: Box<Expression>, op: BinaryOp, right: Box<Expression> },
    FunctionCall { name: String, args: Vec<Expression> },
    Block(Box<Block>),
    Tuple(Vec<Expression>),
}

/// A statement.
#[derive(Debug)]
pub enum Statement {
    Let { name: String, mutable: bool, ty: Option<Type>, initializer: Expression },
    Expression(Expression),
    Return(Option<Expression>),
    If { condition: Expression, then_body: Block, else_body: Option<Box<Statement>> },
    While { condition: Expression, body: Block },
}

/// A block: statements, then perhaps a final expression that is its value.
#[derive(Debug)]
pub struct Block {
    pub statements: Vec<Statement>,
    pub expression: Option<Box<Expression>>,
}

/// A function parameter.
#[derive(Debug)]
pub struct Parameter {
    pub name: String,
    pub mutable: bool,
    pub ty: Type,
}

/// A top-level item: a function with its parameters and body, or a type, trait or impl
/// with its generic parameters.
#[derive(Debug)]
#[allow(inconsistent_fields)]
pub enum Item {
    Function {
        name: String,
        generics: Vec<GenericParam>,
        params: Vec<Parameter>,
        body: Block,
        return_type: Option<Type>,
    },
    Struct { name: String, generics: Vec<GenericParam> },
    Enum { name: String, generics: Vec<GenericParam> },
    Trait { name: String, generics: Vec<GenericParam> },
    Impl { generics: Vec<GenericParam>, struct_name: String },
    Use { path: String },
}

} // verus!
