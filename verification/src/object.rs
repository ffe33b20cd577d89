//! The layout of everything that is written as members between braces.

use vstd::prelude::*;
use crate::ast::{
    AstKind, ObjectAssignmentTarget, ObjectExpression, ObjectPattern, Span, TSTypeLiteral,
    WithClause,
};
use crate::context::FormatContext;
use crate::doc::{clone_all, models, push_doc, Doc, DocView, LineKind};
use crate::function_parameters::{hugs_only_parameter, should_hug_the_only_function_parameter};
use crate::layout::{group_mode, CmdView, PrintState};
use crate::doc::Mode;
use crate::source::has_blank_line;

verus! {

/// One of the five nodes that are laid out as members between braces.
#[derive(Clone, Copy, Debug)]
pub enum ObjectLike<'a> {
    Expression(&'a ObjectExpression),
    AssignmentTarget(&'a ObjectAssignmentTarget),
    Pattern(&'a ObjectPattern),
    WithClause(&'a WithClause),
    TSTypeLiteral(&'a TSTypeLiteral),
}

impl<'a> ObjectLike<'a> {
    /// The members, without the rest element.
    pub open spec fn members(self) -> Seq<Doc> {
        match self {
            ObjectLike::Expression(object) => object.properties@,
            ObjectLike::AssignmentTarget(object) => object.properties@,
            ObjectLike::Pattern(object) => object.properties@,
            ObjectLike::WithClause(attributes) => attributes.with_entries@,
            ObjectLike::TSTypeLiteral(literal) => literal.members@,
        }
    }

    /// The rest element, where the node can have one and has one.
    pub open spec fn rest(self) -> Option<Doc> {
        match self {
            ObjectLike::AssignmentTarget(object) => object.rest,
            ObjectLike::Pattern(object) => object.rest,
            _ => None,
        }
    }

    pub open spec fn spec_span(self) -> Span {
        match self {
            ObjectLike::Expression(object) => object.span,
            ObjectLike::AssignmentTarget(object) => object.span,
            ObjectLike::Pattern(object) => object.span,
            ObjectLike::WithClause(attributes) => attributes.span,
            ObjectLike::TSTypeLiteral(literal) => literal.span,
        }
    }

    /// What is written behind each member but the last: `;` between the
    /// members of a type literal where statements end in one, nothing
    /// between them where they do not, `,` everywhere else.
    pub open spec fn separator(self, ctx: FormatContext) -> Seq<char> {
        if self is TSTypeLiteral {
            if ctx.options.semicolons {
                ";"@
            } else {
                ""@
            }
        } else {
            ","@
        }
    }

    /// The number of members, the rest element not counted.
    pub fn len(&self) -> (len: usize)
        ensures
            len == self.members().len(),
    {
        match self {
            ObjectLike::Expression(object) => object.properties.len(),
            ObjectLike::AssignmentTarget(object) => object.properties.len(),
            ObjectLike::Pattern(object) => object.properties.len(),
            ObjectLike::WithClause(attributes) => attributes.with_entries.len(),
            ObjectLike::TSTypeLiteral(literal) => literal.members.len(),
        }
    }

    /// Whether the node ends in a rest element.
    pub fn has_rest(&self) -> (has_rest: bool)
        ensures
            has_rest == (self.rest() is Some),
    {
        match self {
            ObjectLike::Expression(_) => false,
            ObjectLike::AssignmentTarget(object) => object.rest.is_some(),
            ObjectLike::Pattern(object) => object.rest.is_some(),
            ObjectLike::WithClause(_) => false,
            ObjectLike::TSTypeLiteral(_) => false,
        }
    }

    /// Whether nothing stands between the braces.
    pub fn is_empty(&self) -> (empty: bool)
        ensures
            empty == (self.members().len() == 0 && self.rest() is None),
    {
        match self {
            ObjectLike::Expression(object) => object.properties.len() == 0,
            ObjectLike::AssignmentTarget(object) => object.properties.len() == 0
                && object.rest.is_none(),
            ObjectLike::Pattern(object) => object.properties.len() == 0 && object.rest.is_none(),
            ObjectLike::WithClause(attributes) => attributes.with_entries.len() == 0,
            ObjectLike::TSTypeLiteral(literal) => literal.members.len() == 0,
        }
    }

    /// Whether the node is a destructuring pattern.
    pub fn is_object_pattern(&self) -> (pattern: bool)
        ensures
            pattern == (*self is Pattern),
    {
        match self {
            ObjectLike::Pattern(_) => true,
            _ => false,
        }
    }

    /// The range of the source text that the node covers.
    pub fn span(&self) -> (span: Span)
        ensures
            span == self.spec_span(),
    {
        match self {
            ObjectLike::Expression(object) => object.span,
            ObjectLike::AssignmentTarget(object) => object.span,
            ObjectLike::Pattern(object) => object.span,
            ObjectLike::WithClause(attributes) => attributes.span,
            ObjectLike::TSTypeLiteral(literal) => literal.span,
        }
    }

    /// The documents of the members, in order, without the rest element.
    pub fn iter(&self) -> (docs: Vec<Doc>)
        ensures
            docs@.len() == self.members().len(),
            models(docs@) == models(self.members()),
    {
        match self {
            ObjectLike::Expression(object) => clone_all(&object.properties),
            ObjectLike::AssignmentTarget(object) => clone_all(&object.properties),
            ObjectLike::Pattern(object) => clone_all(&object.properties),
            ObjectLike::WithClause(attributes) => clone_all(&attributes.with_entries),
            ObjectLike::TSTypeLiteral(literal) => clone_all(&literal.members),
        }
    }

    /// What is written behind each member but the last.
    pub fn member_separator(self, ctx: &FormatContext) -> (separator: &'static str)
        ensures
            separator@ == self.separator(*ctx),
    {
        match self {
            ObjectLike::TSTypeLiteral(_) => {
                if ctx.options.semicolons {
                    ";"
                } else {
                    ""
                }
            },
            _ => ",",
        }
    }
}

/// The parent is a parameter list whose only parameter hugs.
pub open spec fn hugs_in(ctx: FormatContext, kind: Option<AstKind>) -> bool {
    kind matches Some(AstKind::FormalParameters(params)) && hugs_only_parameter(ctx, params)
}

/// Whether `kind` is a parameter list whose only parameter is written
/// directly between the parentheses.
pub fn should_hug_the_only_parameter(ctx: &FormatContext, kind: Option<&AstKind>) -> (hug: bool)
    ensures
        hug == hugs_in(
            *ctx,
            match kind {
                Some(k) => Some(*k),
                None => None,
            },
        ),
{
    match kind {
        Some(AstKind::FormalParameters(params)) => should_hug_the_only_function_parameter(
            ctx,
            params,
        ),
        _ => false,
    }
}

/// What pads the braces on the inside: where the container may break, a
/// line if braces are padded and a soft line if not; where it may not, what
/// those two render as when flat.
pub open spec fn padding(ctx: FormatContext, flat: bool) -> DocView {
    if flat {
        if ctx.options.bracket_spacing {
            DocView::Text(" "@)
        } else {
            DocView::Text(""@)
        }
    } else {
        if ctx.options.bracket_spacing {
            DocView::Line(LineKind::Space)
        } else {
            DocView::Line(LineKind::Soft)
        }
    }
}

/// What stands between two members, behind the separator: a line where the
/// container may break, a space where it may not.
pub open spec fn gap(flat: bool) -> DocView {
    if flat {
        DocView::Text(" "@)
    } else {
        DocView::Line(LineKind::Space)
    }
}

/// The member at `i` and, unless it ends the container, the separator and
/// a gap.
pub open spec fn member_parts(ctx: FormatContext, object: ObjectLike, flat: bool, i: int) -> Seq<
    DocView,
> {
    seq![object.members()[i]@] + (if i == object.members().len() - 1 && object.rest() is None {
        seq![]
    } else {
        seq![DocView::Text(object.separator(ctx)), gap(flat)]
    })
}

/// The first `n` members, one after the other.
pub open spec fn members_upto(ctx: FormatContext, object: ObjectLike, flat: bool, n: int) -> Seq<
    DocView,
>
    decreases n,
{
    if n <= 0 {
        seq![]
    } else {
        members_upto(ctx, object, flat, n - 1) + member_parts(ctx, object, flat, n - 1)
    }
}

/// What is indented between the braces: the padding, the members, and the
/// rest element, which no separator follows.
pub open spec fn indented_parts(ctx: FormatContext, object: ObjectLike, flat: bool) -> Seq<DocView> {
    seq![padding(ctx, flat)] + members_upto(ctx, object, flat, object.members().len() as int) + (
    match object.rest() {
        Some(rest) => seq![rest@],
        None => seq![],
    })
}

/// A separator behind the last member is written where the container
/// breaks, if the settings ask for trailing separators and no rest element
/// ends the container. A container that cannot break has none.
pub open spec fn trailing_separator(ctx: FormatContext, object: ObjectLike, flat: bool) -> Seq<
    DocView,
> {
    if !flat && ctx.options.trailing_comma.should_print_es5() && object.rest() is None {
        seq![
            DocView::IfBreak {
                break_contents: Box::new(DocView::Text(object.separator(ctx))),
                flat_contents: Box::new(DocView::Text(""@)),
                group_id: None,
            },
        ]
    } else {
        seq![]
    }
}

/// A container with members, from brace to brace.
pub open spec fn braced_parts(ctx: FormatContext, object: ObjectLike, flat: bool) -> Seq<DocView> {
    seq![
        DocView::Text("{"@),
        DocView::Indent(Box::new(DocView::Array(indented_parts(ctx, object, flat)))),
    ] + trailing_separator(ctx, object, flat) + seq![padding(ctx, flat), DocView::Text("}"@)]
}

/// The author left an empty line between the braces.
pub open spec fn breaks_by_source(ctx: FormatContext, object: ObjectLike) -> bool {
    has_blank_line(ctx.source@, object.spec_span().start as int, object.spec_span().end as int)
}

/// The container is laid out on the line of what surrounds it and cannot
/// break by itself: it is not the program's own node, and it is a pattern
/// that stands in a hugged parameter list, or on the left of an assignment
/// or a declarator where the author left no empty line in it.
pub open spec fn stays_flat(ctx: FormatContext, object: ObjectLike) -> bool {
    &&& !(ctx.spec_current_kind() matches Some(AstKind::Program))
    &&& object is Pattern
    &&& {
        ||| hugs_in(ctx, ctx.spec_parent_kind())
        ||| !breaks_by_source(ctx, object) && (ctx.spec_parent_kind() matches Some(
            AstKind::AssignmentExpression,
        ) || ctx.spec_parent_kind() matches Some(AstKind::VariableDeclarator))
    }
}

/// The document of an object-like container.
///
/// An empty container is a group of its braces around a soft line. One that
/// stays flat is its parts, with nothing in them that could break. Any
/// other is a group of its parts that is forced to break where the author
/// left an empty line between the braces.
pub open spec fn object_doc(ctx: FormatContext, object: ObjectLike) -> DocView {
    if object.members().len() == 0 && object.rest() is None {
        DocView::Group {
            content: Box::new(
                DocView::Array(
                    seq![DocView::Text("{"@), DocView::Line(LineKind::Soft), DocView::Text("}"@)],
                ),
            ),
            should_break: false,
            id: None,
        }
    } else if stays_flat(ctx, object) {
        DocView::Array(braced_parts(ctx, object, true))
    } else {
        DocView::Group {
            content: Box::new(DocView::Array(braced_parts(ctx, object, false))),
            should_break: breaks_by_source(ctx, object),
            id: None,
        }
    }
}

/// An object literal with members, in which the author left an empty line
/// between the braces, is a group that is printed broken, within any width
/// and wherever it stands.
pub proof fn lemma_blank_line_breaks_object(
    ctx: FormatContext,
    object: ObjectLike,
    st: PrintState,
    rest: Seq<CmdView>,
    width: nat,
)
    requires
        object is Expression,
        object.members().len() > 0,
        breaks_by_source(ctx, object),
    ensures
        object_doc(ctx, object) matches DocView::Group { content, should_break, id } && should_break
            && group_mode(*content, should_break, id, rest, width, st) == Mode::Break,
{
}

/// Builds the document of the object-like container `object`.
pub fn print_object_properties(ctx: &FormatContext, object: ObjectLike) -> (doc: Doc)
    ensures
        doc@ == object_doc(*ctx, object),
{
    if object.is_empty() {
        let mut parts: Vec<Doc> = Vec::new();
        push_doc(&mut parts, Doc::text("{"));
        push_doc(&mut parts, Doc::softline());
        push_doc(&mut parts, Doc::text("}"));
        assert(models(parts@) =~= seq![
            DocView::Text("{"@),
            DocView::Line(LineKind::Soft),
            DocView::Text("}"@),
        ]);
        return Doc::group(Doc::array(parts));
    }
    let should_break = ctx.has_blank_line_in(object.span());
    let is_program = match ctx.current_kind() {
        Some(AstKind::Program) => true,
        _ => false,
    };
    let parent_kind = ctx.parent_kind();
    let in_assignment = match parent_kind {
        Some(AstKind::AssignmentExpression) => true,
        Some(AstKind::VariableDeclarator) => true,
        _ => false,
    };
    let flat = !is_program && object.is_object_pattern() && (should_hug_the_only_parameter(
        ctx,
        parent_kind,
    ) || (!should_break && in_assignment));
    assert(flat == stays_flat(*ctx, object));

    let member_separator = object.member_separator(ctx);
    let len = object.len();
    let has_rest = object.has_rest();

    let mut indent_parts: Vec<Doc> = Vec::new();
    push_doc(&mut indent_parts, pad(ctx, flat));
    assert(models(indent_parts@) =~= seq![padding(*ctx, flat)]);
    let object_docs = object.iter();
    let mut i: usize = 0;
    while i < len
        invariant
            len == object.members().len(),
            object_docs@.len() == len,
            models(object_docs@) == models(object.members()),
            member_separator@ == object.separator(*ctx),
            has_rest == (object.rest() is Some),
            i <= len,
            models(indent_parts@) == seq![padding(*ctx, flat)] + members_upto(
                *ctx,
                object,
                flat,
                i as int,
            ),
        decreases len - i,
    {
        let ghost before = models(indent_parts@);
        assert(object_docs@[i as int]@ == models(object_docs@)[i as int]);
        assert(object.members()[i as int]@ == models(object.members())[i as int]);
        push_doc(&mut indent_parts, object_docs[i].deep_clone());
        if !(i == len - 1 && !has_rest) {
            push_doc(&mut indent_parts, Doc::text(member_separator));
            let between = if flat {
                Doc::space()
            } else {
                Doc::line()
            };
            push_doc(&mut indent_parts, between);
        }
        assert(models(indent_parts@) =~= before + member_parts(*ctx, object, flat, i as int));
        assert(models(indent_parts@) =~= seq![padding(*ctx, flat)] + members_upto(
            *ctx,
            object,
            flat,
            i + 1,
        ));
        i += 1;
    }
    match object {
        ObjectLike::AssignmentTarget(target) => {
            match &target.rest {
                Some(rest) => {
                    push_doc(&mut indent_parts, rest.deep_clone());
                },
                None => {},
            }
        },
        ObjectLike::Pattern(pattern) => {
            match &pattern.rest {
                Some(rest) => {
                    push_doc(&mut indent_parts, rest.deep_clone());
                },
                None => {},
            }
        },
        _ => {},
    }
    assert(models(indent_parts@) =~= indented_parts(*ctx, object, flat));

    let mut parts: Vec<Doc> = Vec::new();
    push_doc(&mut parts, Doc::text("{"));
    push_doc(&mut parts, Doc::indent(Doc::array(indent_parts)));
    if !flat && ctx.should_print_es5_comma() && !has_rest {
        push_doc(&mut parts, Doc::if_break(Doc::text(member_separator), Doc::text(""), None));
    }
    push_doc(&mut parts, pad(ctx, flat));
    push_doc(&mut parts, Doc::text("}"));
    assert(models(parts@) =~= braced_parts(*ctx, object, flat));

    if flat {
        Doc::array(parts)
    } else {
        Doc::group_with_opts(Doc::array(parts), should_break, None)
    }
}

/// What pads the braces on the inside.
fn pad(ctx: &FormatContext, flat: bool) -> (doc: Doc)
    ensures
        doc@ == padding(*ctx, flat),
{
    if flat {
        if ctx.options.bracket_spacing {
            Doc::space()
        } else {
            Doc::text("")
        }
    } else {
        if ctx.options.bracket_spacing {
            Doc::line()
        } else {
            Doc::softline()
        }
    }
}

} // verus!
