//! The shapes of syntax-tree nodes, as far as the builders read them. The
//! object-like nodes hold the documents of their members, which are built
//! before the node itself.

use vstd::prelude::*;
use crate::doc::Doc;

verus! {

/// A range of the source text, in byte offsets.
#[derive(Clone, Copy, Debug, PartialEq, Eq, Structural)]
pub struct Span {
    pub start: u32,
    pub end: u32,
}

impl Span {
    pub fn new(start: u32, end: u32) -> (span: Span)
        ensures
            span.start == start,
            span.end == end,
    {
        Span { start, end }
    }
}

/// The comment sits before its node.
pub const LEADING: u8 = 0x01;

/// The comment sits after its node.
pub const TRAILING: u8 = 0x02;

/// The comment sits inside a node that has nothing else to hold it.
pub const DANGLING: u8 = 0x04;

/// The comment is delimited on both sides.
pub const BLOCK: u8 = 0x08;

/// The comment runs to the end of its line.
pub const LINE: u8 = 0x10;

/// The comment asks that its node be left as it is written.
pub const FORMAT_IGNORE: u8 = 0x20;

/// The comment is the first of its node.
pub const FIRST: u8 = 0x40;

/// The comment is the last of its node.
pub const LAST: u8 = 0x80;

/// A set of comment markers: what is known of the comments attached to a
/// node, or what a query asks for.
#[derive(Clone, Copy, Debug, PartialEq, Eq, Structural)]
pub struct CommentFlags {
    pub bits: u8,
}

impl CommentFlags {
    /// No marker.
    pub fn empty() -> (flags: CommentFlags)
        ensures
            flags.bits == 0,
    {
        CommentFlags { bits: 0 }
    }

    /// Every marker.
    pub fn all() -> (flags: CommentFlags)
        ensures
            flags.bits == 0xff,
    {
        CommentFlags { bits: 0xff }
    }

    /// The markers in `bits`.
    pub fn from_bits(bits: u8) -> (flags: CommentFlags)
        ensures
            flags.bits == bits,
    {
        CommentFlags { bits }
    }

    /// The markers of either set.
    pub fn union(self, other: CommentFlags) -> (flags: CommentFlags)
        ensures
            flags.bits == self.bits | other.bits,
    {
        CommentFlags { bits: self.bits | other.bits }
    }

    pub open spec fn spec_is_empty(self) -> bool {
        self.bits == 0
    }

    #[verifier::when_used_as_spec(spec_is_empty)]
    pub fn is_empty(self) -> (none: bool)
        ensures
            none == self.spec_is_empty(),
    {
        self.bits == 0
    }

    pub open spec fn spec_intersects(self, other: CommentFlags) -> bool {
        self.bits & other.bits != 0
    }

    /// Whether some marker is in both sets.
    #[verifier::when_used_as_spec(spec_intersects)]
    pub fn intersects(self, other: CommentFlags) -> (common: bool)
        ensures
            common == self.spec_intersects(other),
    {
        self.bits & other.bits != 0
    }
}

/// What is known of the comments attached to one node.
#[derive(Clone, Copy, Debug, PartialEq, Eq, Structural)]
pub struct AttachedComments {
    /// The span of the node.
    pub node: Span,
    /// The markers of its comments.
    pub flags: CommentFlags,
}

/// What a type annotation is, as far as layout cares.
#[derive(Clone, Copy, Debug, PartialEq, Eq, Structural)]
pub enum TSTypeKind {
    /// An inline type literal, `{ a: string }`.
    TypeLiteral,
    /// A mapped type, `{ [K in T]: V }`.
    MappedType,
    Other,
}

impl TSTypeKind {
    pub open spec fn spec_is_object_like(self) -> bool {
        self == TSTypeKind::TypeLiteral || self == TSTypeKind::MappedType
    }

    /// Whether the type is written between braces.
    #[verifier::when_used_as_spec(spec_is_object_like)]
    pub fn is_object_like(self) -> (object_like: bool)
        ensures
            object_like == self.spec_is_object_like(),
    {
        match self {
            TSTypeKind::TypeLiteral => true,
            TSTypeKind::MappedType => true,
            TSTypeKind::Other => false,
        }
    }
}

/// What an expression is, as far as layout cares.
#[derive(Clone, Copy, Debug, PartialEq, Eq, Structural)]
pub enum ExpressionKind {
    Identifier,
    ObjectExpression { properties: usize },
    ArrayExpression { elements: usize },
    Other,
}

/// What a binding pattern is.
#[derive(Debug)]
pub enum BindingPatternKind {
    /// `a`
    BindingIdentifier,
    /// `{ a, b }`, with the number of its properties.
    ObjectPattern { properties: usize },
    /// `[a, b]`, with the number of its elements.
    ArrayPattern { elements: usize },
    /// `left = right`
    AssignmentPattern { left: Box<BindingPatternKind>, right: ExpressionKind },
}

/// A binding pattern with its optional type annotation.
#[derive(Debug)]
pub struct BindingPattern {
    pub kind: BindingPatternKind,
    pub type_annotation: Option<TSTypeKind>,
}

/// The accessibility modifier of a parameter property.
#[derive(Clone, Copy, Debug, PartialEq, Eq, Structural)]
pub enum TSAccessibility {
    Private,
    Protected,
    Public,
}

impl TSAccessibility {
    /// The modifier as it is written.
    pub open spec fn keyword(self) -> Seq<char> {
        match self {
            TSAccessibility::Private => "private"@,
            TSAccessibility::Protected => "protected"@,
            TSAccessibility::Public => "public"@,
        }
    }

    /// The modifier as it is written.
    pub fn as_str(self) -> (keyword: &'static str)
        ensures
            keyword@ == self.keyword(),
    {
        match self {
            TSAccessibility::Private => "private",
            TSAccessibility::Protected => "protected",
            TSAccessibility::Public => "public",
        }
    }
}

/// One parameter of a function.
#[derive(Debug)]
pub struct FormalParameter {
    pub span: Span,
    pub pattern: BindingPattern,
    pub accessibility: Option<TSAccessibility>,
    pub readonly: bool,
    pub is_override: bool,
}

/// The parameter list of a function.
#[derive(Debug)]
pub struct FormalParameters {
    pub items: Vec<FormalParameter>,
    /// Whether the list ends in a rest element.
    pub has_rest: bool,
}

impl FormalParameters {
    /// The number of parameters, the rest element included.
    pub open spec fn parameters_count(&self) -> nat {
        if self.has_rest {
            self.items@.len() + 1
        } else {
            self.items@.len()
        }
    }

    /// Whether the list binds exactly one parameter, the rest element
    /// included.
    pub fn has_one_parameter(&self) -> (one: bool)
        ensures
            one == (self.parameters_count() == 1),
    {
        if self.has_rest {
            self.items.len() == 0
        } else {
            self.items.len() == 1
        }
    }
}

/// The explicit `this` parameter of a function.
#[derive(Clone, Copy, Debug, PartialEq, Eq, Structural)]
pub struct TSThisParameter {
    pub span: Span,
}

/// One type parameter of a function.
#[derive(Clone, Copy, Debug, PartialEq, Eq, Structural)]
pub struct TSTypeParameter {
    pub has_constraint: bool,
    pub has_default: bool,
}

/// A function, as far as the layout of its parameters reads it.
#[derive(Debug)]
pub struct Function {
    pub this_param: Option<TSThisParameter>,
    pub type_parameters: Option<Vec<TSTypeParameter>>,
    pub params: FormalParameters,
    pub return_type: Option<TSTypeKind>,
}

/// An object literal, `{ a: 1, ...b }`, with the documents of its
/// properties.
#[derive(Debug)]
pub struct ObjectExpression {
    pub span: Span,
    pub properties: Vec<Doc>,
}

/// An object that is assigned into, `({ a, ...rest } = value)`.
#[derive(Debug)]
pub struct ObjectAssignmentTarget {
    pub span: Span,
    pub properties: Vec<Doc>,
    pub rest: Option<Doc>,
}

/// An object pattern, `{ a, ...rest }`, in a declaration or a parameter.
#[derive(Debug)]
pub struct ObjectPattern {
    pub span: Span,
    pub properties: Vec<Doc>,
    pub rest: Option<Doc>,
}

/// The attributes of an import, `with { type: "json" }`.
#[derive(Debug)]
pub struct WithClause {
    pub span: Span,
    pub with_entries: Vec<Doc>,
}

/// An inline type literal, `{ a: string; b: number }`.
#[derive(Debug)]
pub struct TSTypeLiteral {
    pub span: Span,
    pub members: Vec<Doc>,
}

/// The kind of a node on the path from the root to the node being built,
/// with what builders below it read of it.
#[derive(Debug)]
pub enum AstKind {
    Program,
    Function(Function),
    ArrowFunctionExpression,
    FormalParameters(FormalParameters),
    AssignmentExpression,
    VariableDeclarator,
    Other,
}

} // verus!
