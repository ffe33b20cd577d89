//! The layout of a function's parameter list.

use vstd::prelude::*;
use crate::ast::{
    AstKind, BindingPattern, BindingPatternKind, CommentFlags, ExpressionKind, FormalParameter,
    FormalParameters, Function, Span, TSThisParameter,
};
use crate::context::FormatContext;
use crate::doc::{append_docs, models, push_doc, Doc, DocView, LineKind};
use crate::source::next_line_empty;

verus! {

/// A defaulted pattern is kept on the line of its parentheses if its left
/// side is an object pattern, or an array pattern whose default is a bare
/// identifier or an empty object or array literal.
pub open spec fn default_hugs(left: BindingPatternKind, right: ExpressionKind) -> bool {
    match left {
        BindingPatternKind::ObjectPattern { .. } => true,
        BindingPatternKind::ArrayPattern { .. } => match right {
            ExpressionKind::Identifier => true,
            ExpressionKind::ObjectExpression { properties } => properties == 0,
            ExpressionKind::ArrayExpression { elements } => elements == 0,
            ExpressionKind::Other => false,
        },
        _ => false,
    }
}

/// A pattern is kept on the line of its parentheses if it destructures an
/// object or an array, if it is an identifier whose type is written between
/// braces, or if it is a defaulted pattern that `default_hugs`.
pub open spec fn pattern_hugs(pattern: BindingPattern) -> bool {
    match pattern.kind {
        BindingPatternKind::ObjectPattern { .. } => true,
        BindingPatternKind::ArrayPattern { .. } => true,
        BindingPatternKind::BindingIdentifier => pattern.type_annotation matches Some(annotation)
            && annotation.is_object_like(),
        BindingPatternKind::AssignmentPattern { left, right } => default_hugs(*left, right),
    }
}

/// The parameter list holds exactly one parameter, no comment of any marker
/// is attached to it, and its pattern hugs.
pub open spec fn hugs_only_parameter(ctx: FormatContext, params: FormalParameters) -> bool {
    &&& params.parameters_count() == 1
    &&& params.items@.len() == 1
    &&& !ctx.spec_has_comment(params.items@[0].span, CommentFlags { bits: 0xff })
    &&& pattern_hugs(params.items@[0].pattern)
}

/// Whether the only parameter of `params` is written directly between the
/// parentheses, with no line break or indentation of the list's own.
pub fn should_hug_the_only_function_parameter(ctx: &FormatContext, params: &FormalParameters) -> (hug:
    bool)
    ensures
        hug == hugs_only_parameter(*ctx, *params),
{
    if !params.has_one_parameter() {
        return false;
    }
    if params.items.len() == 0 {
        return false;
    }
    let parameter = &params.items[0];
    if ctx.has_comment(parameter.span, CommentFlags::all()) {
        return false;
    }
    match &parameter.pattern.kind {
        BindingPatternKind::ObjectPattern { .. } => true,
        BindingPatternKind::ArrayPattern { .. } => true,
        BindingPatternKind::BindingIdentifier => {
            match parameter.pattern.type_annotation {
                Some(annotation) => annotation.is_object_like(),
                None => false,
            }
        },
        BindingPatternKind::AssignmentPattern { left, right } => {
            match **left {
                BindingPatternKind::ObjectPattern { .. } => true,
                BindingPatternKind::ArrayPattern { .. } => match right {
                    ExpressionKind::Identifier => true,
                    ExpressionKind::ObjectExpression { properties } => *properties == 0,
                    ExpressionKind::ArrayExpression { elements } => *elements == 0,
                    ExpressionKind::Other => false,
                },
                _ => false,
            }
        },
    }
}

/// A single object pattern without comments hugs, however many properties it
/// holds.
pub proof fn lemma_lone_object_pattern_hugs(ctx: FormatContext, params: FormalParameters)
    requires
        params.items@.len() == 1,
        !params.has_rest,
        params.items@[0].pattern.kind is ObjectPattern,
        !ctx.spec_has_comment(params.items@[0].span, CommentFlags { bits: 0xff }),
    ensures
        hugs_only_parameter(ctx, params),
{
}

/// The function has exactly one parameter, a return type written between
/// braces, and at most one type parameter, which has neither a constraint
/// nor a default.
pub open spec fn groups_parameters(func: Function) -> bool {
    &&& func.return_type matches Some(return_type) && return_type.is_object_like()
    &&& func.type_parameters matches Some(type_parameters) ==> {
        &&& type_parameters@.len() <= 1
        &&& type_parameters@.len() == 1 ==> !type_parameters@[0].has_constraint
            && !type_parameters@[0].has_default
    }
    &&& func.params.parameters_count() == 1
}

/// Whether the caller should expand the arguments of `func` rather than
/// collapse them.
pub fn should_group_function_parameters(func: &Function) -> (group: bool)
    ensures
        group == groups_parameters(*func),
{
    let return_type = match func.return_type {
        Some(return_type) => return_type,
        None => {
            return false;
        },
    };
    match &func.type_parameters {
        Some(type_parameters) => {
            if type_parameters.len() > 1 {
                return false;
            }
            if type_parameters.len() == 1 {
                let type_parameter = type_parameters[0];
                if type_parameter.has_constraint || type_parameter.has_default {
                    return false;
                }
            }
        },
        None => {},
    }
    func.params.has_one_parameter() && return_type.is_object_like()
}

/// What stands between a parameter that ends at `span` and the next one:
/// a space in a hugged list, two hard lines where the author left an empty
/// line, else a line.
pub open spec fn separator_after(ctx: FormatContext, hug: bool, span: Span) -> Seq<DocView> {
    if hug {
        seq![DocView::Text(" "@)]
    } else if next_line_empty(ctx.source@, span.end as int) {
        seq![DocView::Line(LineKind::Hard), DocView::Line(LineKind::Hard)]
    } else {
        seq![DocView::Line(LineKind::Space)]
    }
}

/// The modifiers that are written before a parameter.
pub open spec fn modifier_parts(param: FormalParameter) -> Seq<DocView> {
    (match param.accessibility {
        Some(accessibility) => seq![DocView::Text(accessibility.keyword()), DocView::Text(" "@)],
        None => seq![],
    }) + (if param.is_override {
        seq![DocView::Text("override "@)]
    } else {
        seq![]
    }) + (if param.readonly {
        seq![DocView::Text("readonly "@)]
    } else {
        seq![]
    })
}

/// The documents of the children of a parameter list, which are built
/// before the list itself.
#[derive(Debug)]
pub struct ParameterDocs {
    /// The document of the `this` parameter of the enclosing function.
    pub this_param: Option<Doc>,
    /// The document of each parameter, without its modifiers.
    pub items: Vec<Doc>,
    /// The document of the rest element.
    pub rest: Option<Doc>,
}

/// The explicit `this` parameter of the enclosing function, if it has one.
pub open spec fn enclosing_this(ctx: FormatContext) -> Option<TSThisParameter> {
    match ctx.spec_parent_kind() {
        Some(AstKind::Function(func)) => func.this_param,
        _ => None,
    }
}

/// `docs` holds a document for each child of the list `params`, and for
/// nothing else.
pub open spec fn documents_of(docs: ParameterDocs, ctx: FormatContext, params: FormalParameters) -> bool {
    &&& docs.items@.len() == params.items@.len()
    &&& docs.rest is Some == params.has_rest
    &&& docs.this_param is Some == (enclosing_this(ctx) is Some)
}

/// Whether `docs` holds a document for each child of the list `params`, and
/// for nothing else.
pub fn documents_match(docs: &ParameterDocs, ctx: &FormatContext, params: &FormalParameters) -> (matching:
    bool)
    ensures
        matching == documents_of(*docs, *ctx, *params),
{
    let has_this = match ctx.parent_kind() {
        Some(AstKind::Function(func)) => func.this_param.is_some(),
        _ => false,
    };
    docs.items.len() == params.items.len() && docs.rest.is_some() == params.has_rest
        && docs.this_param.is_some() == has_this
}

/// The parameter at `i`: its modifiers, its document and, unless it ends
/// the list, a comma and a separator.
pub open spec fn parameter_parts(
    ctx: FormatContext,
    params: FormalParameters,
    docs: ParameterDocs,
    hug: bool,
    i: int,
) -> Seq<DocView> {
    let param = params.items@[i];
    modifier_parts(param) + seq![docs.items@[i]@] + (if i == params.items@.len() - 1
        && !params.has_rest {
        seq![]
    } else {
        seq![DocView::Text(","@)] + separator_after(ctx, hug, param.span)
    })
}

/// The first `n` parameters, one after the other.
pub open spec fn parameters_upto(
    ctx: FormatContext,
    params: FormalParameters,
    docs: ParameterDocs,
    hug: bool,
    n: int,
) -> Seq<DocView>
    decreases n,
{
    if n <= 0 {
        seq![]
    } else {
        parameters_upto(ctx, params, docs, hug, n - 1) + parameter_parts(
            ctx,
            params,
            docs,
            hug,
            n - 1,
        )
    }
}

/// The `this` parameter of the enclosing function, with the comma and the
/// separator that always follow it.
pub open spec fn this_parts(ctx: FormatContext, docs: ParameterDocs, hug: bool) -> Seq<DocView> {
    match enclosing_this(ctx) {
        Some(this_param) => seq![docs.this_param->0@, DocView::Text(","@)] + separator_after(
            ctx,
            hug,
            this_param.span,
        ),
        None => seq![],
    }
}

/// Everything between the parentheses: the `this` parameter, the
/// parameters, the rest element.
pub open spec fn printed_parameters(
    ctx: FormatContext,
    params: FormalParameters,
    docs: ParameterDocs,
    hug: bool,
) -> Seq<DocView> {
    this_parts(ctx, docs, hug) + parameters_upto(
        ctx,
        params,
        docs,
        hug,
        params.items@.len() as int,
    ) + (match docs.rest {
        Some(rest) => seq![rest@],
        None => seq![],
    })
}

/// The list is written without parentheses: it is the list of an arrow
/// function, the settings do not ask for parentheses, and it holds one
/// parameter, which has no type annotation.
pub open spec fn omits_parens(ctx: FormatContext, params: FormalParameters) -> bool {
    &&& ctx.spec_parent_kind() matches Some(AstKind::ArrowFunctionExpression)
    &&& !ctx.options.arrow_parens.is_always()
    &&& params.items@.len() == 1
    &&& !params.has_rest
    &&& params.items@[0].pattern.type_annotation is None
}

/// No comma is written behind the last parameter of a broken list: the list
/// ends in a rest element, or the function has a `this` parameter.
pub open spec fn skips_dangling_comma(ctx: FormatContext, params: FormalParameters) -> bool {
    params.has_rest || enclosing_this(ctx) is Some
}

/// The document of a parameter list.
///
/// A hugged list is its parts between parentheses. Any other list is an
/// indented block that opens with a soft line, then a comma that is only
/// written where the list breaks, then a soft line; it is a group unless
/// the settings leave the grouping to the caller.
pub open spec fn parameters_doc(
    ctx: FormatContext,
    params: FormalParameters,
    docs: ParameterDocs,
) -> DocView {
    let hug = hugs_only_parameter(ctx, params);
    let printed = printed_parameters(ctx, params, docs, hug);
    if hug {
        DocView::Array(seq![DocView::Text("("@)] + printed + seq![DocView::Text(")"@)])
    } else {
        let open = if omits_parens(ctx, params) {
            seq![]
        } else {
            seq![DocView::Text("("@)]
        };
        let close = if omits_parens(ctx, params) {
            seq![]
        } else {
            seq![DocView::Text(")"@)]
        };
        let comma = if skips_dangling_comma(ctx, params) {
            DocView::Text(""@)
        } else {
            DocView::Text(","@)
        };
        let parts = open + seq![
            DocView::Indent(Box::new(DocView::Array(seq![DocView::Line(LineKind::Soft)] + printed))),
            DocView::IfBreak {
                break_contents: Box::new(comma),
                flat_contents: Box::new(DocView::Text(""@)),
                group_id: None,
            },
            DocView::Line(LineKind::Soft),
        ] + close;
        if ctx.options.expand_first_argument {
            DocView::Array(parts)
        } else {
            DocView::Group { content: Box::new(DocView::Array(parts)), should_break: false, id: None }
        }
    }
}

/// Appends what stands between two parameters to `printed`.
fn push_separator(ctx: &FormatContext, hug: bool, span: Span, printed: &mut Vec<Doc>)
    ensures
        models(final(printed)@) == models(old(printed)@) + separator_after(*ctx, hug, span),
{
    if hug {
        push_doc(printed, Doc::space());
        assert(models(printed@) =~= models(old(printed)@) + separator_after(*ctx, hug, span));
    } else if ctx.is_next_line_empty(span) {
        push_doc(printed, Doc::hardline());
        push_doc(printed, Doc::hardline());
        assert(models(printed@) =~= models(old(printed)@) + separator_after(*ctx, hug, span));
    } else {
        push_doc(printed, Doc::line());
        assert(models(printed@) =~= models(old(printed)@) + separator_after(*ctx, hug, span));
    }
}

/// Appends the modifiers of `param` to `printed`.
fn push_modifiers(param: &FormalParameter, printed: &mut Vec<Doc>)
    ensures
        models(final(printed)@) == models(old(printed)@) + modifier_parts(*param),
{
    match param.accessibility {
        Some(accessibility) => {
            push_doc(printed, Doc::text(accessibility.as_str()));
            push_doc(printed, Doc::space());
        },
        None => {},
    }
    if param.is_override {
        push_doc(printed, Doc::text("override "));
    }
    if param.readonly {
        push_doc(printed, Doc::text("readonly "));
    }
    assert(models(printed@) =~= models(old(printed)@) + modifier_parts(*param));
}

/// Appends the parameter at `i` to `printed`: see `parameter_parts`.
fn push_parameter(
    ctx: &FormatContext,
    params: &FormalParameters,
    item_docs: &Vec<Doc>,
    Ghost(docs): Ghost<ParameterDocs>,
    hug: bool,
    i: usize,
    printed: &mut Vec<Doc>,
)
    requires
        i < params.items@.len(),
        item_docs@.len() == params.items@.len(),
        *item_docs == docs.items,
    ensures
        models(final(printed)@) == models(old(printed)@) + parameter_parts(
            *ctx,
            *params,
            docs,
            hug,
            i as int,
        ),
{
    let param = &params.items[i];
    push_modifiers(param, printed);
    push_doc(printed, item_docs[i].deep_clone());
    if !(i == params.items.len() - 1 && !params.has_rest) {
        push_doc(printed, Doc::text(","));
        push_separator(ctx, hug, param.span, printed);
    }
    assert(models(printed@) =~= models(old(printed)@) + parameter_parts(
        *ctx,
        *params,
        docs,
        hug,
        i as int,
    ));
}

/// Builds the document of the parameter list `params` from the documents
/// `docs` of its children.
pub fn print_function_parameters(ctx: &FormatContext, params: &FormalParameters, docs: ParameterDocs) -> (doc:
    Doc)
    requires
        documents_of(docs, *ctx, *params),
    ensures
        doc@ == parameters_doc(*ctx, *params, docs),
{
    let hug = should_hug_the_only_function_parameter(ctx, params);
    let len = params.items.len();
    let ParameterDocs { this_param: this_doc, items: item_docs, rest: rest_doc } = docs;
    let mut printed: Vec<Doc> = Vec::new();
    assert(models(printed@) =~= Seq::<DocView>::empty());

    let this_span = match ctx.parent_kind() {
        Some(AstKind::Function(func)) => match &func.this_param {
            Some(this_param) => Some(this_param.span),
            None => None,
        },
        _ => None,
    };
    assert(this_span is Some == (enclosing_this(*ctx) is Some));
    match this_doc {
        Some(this_doc) => {
            push_doc(&mut printed, this_doc);
            push_doc(&mut printed, Doc::text(","));
            push_separator(ctx, hug, this_span.unwrap(), &mut printed);
        },
        None => {},
    }
    assert(models(printed@) =~= this_parts(*ctx, docs, hug));

    let mut i: usize = 0;
    while i < len
        invariant
            len == params.items@.len(),
            item_docs@.len() == len,
            item_docs == docs.items,
            i <= len,
            models(printed@) == this_parts(*ctx, docs, hug) + parameters_upto(
                *ctx,
                *params,
                docs,
                hug,
                i as int,
            ),
        decreases len - i,
    {
        let ghost before = models(printed@);
        push_parameter(ctx, params, &item_docs, Ghost(docs), hug, i, &mut printed);
        assert(before + parameter_parts(*ctx, *params, docs, hug, i as int) =~= this_parts(
            *ctx,
            docs,
            hug,
        ) + parameters_upto(*ctx, *params, docs, hug, i + 1));
        i += 1;
    }
    match rest_doc {
        Some(rest) => {
            push_doc(&mut printed, rest);
        },
        None => {},
    }
    assert(models(printed@) =~= printed_parameters(*ctx, *params, docs, hug));

    if hug {
        let mut parts: Vec<Doc> = Vec::new();
        push_doc(&mut parts, Doc::text("("));
        append_docs(&mut parts, printed);
        push_doc(&mut parts, Doc::text(")"));
        assert(models(parts@) =~= seq![DocView::Text("("@)] + printed_parameters(
            *ctx,
            *params,
            docs,
            hug,
        ) + seq![DocView::Text(")"@)]);
        return Doc::array(parts);
    }
    let is_arrow_function = match ctx.parent_kind() {
        Some(AstKind::ArrowFunctionExpression) => true,
        _ => false,
    };
    let omit_parens = is_arrow_function && !ctx.options.arrow_parens.is_always() && len == 1
        && !params.has_rest && params.items[0].pattern.type_annotation.is_none();
    assert(omit_parens == omits_parens(*ctx, *params));

    let mut parts: Vec<Doc> = Vec::new();
    assert(models(parts@) =~= Seq::<DocView>::empty());
    if !omit_parens {
        push_doc(&mut parts, Doc::text("("));
    }
    let mut indented: Vec<Doc> = Vec::new();
    push_doc(&mut indented, Doc::softline());
    append_docs(&mut indented, printed);
    assert(models(indented@) =~= seq![DocView::Line(LineKind::Soft)] + printed_parameters(
        *ctx,
        *params,
        docs,
        hug,
    ));
    push_doc(&mut parts, Doc::indent(Doc::array(indented)));
    let skip_dangling_comma = params.has_rest || this_span.is_some();
    let comma = if skip_dangling_comma {
        Doc::text("")
    } else {
        Doc::text(",")
    };
    push_doc(&mut parts, Doc::if_break(comma, Doc::text(""), None));
    push_doc(&mut parts, Doc::softline());
    if !omit_parens {
        push_doc(&mut parts, Doc::text(")"));
    }
    proof {
        let open = if omits_parens(*ctx, *params) {
            seq![]
        } else {
            seq![DocView::Text("("@)]
        };
        let close = if omits_parens(*ctx, *params) {
            seq![]
        } else {
            seq![DocView::Text(")"@)]
        };
        let comma_view = if skips_dangling_comma(*ctx, *params) {
            DocView::Text(""@)
        } else {
            DocView::Text(","@)
        };
        assert(models(parts@) =~= open + seq![
            DocView::Indent(
                Box::new(
                    DocView::Array(
                        seq![DocView::Line(LineKind::Soft)] + printed_parameters(
                            *ctx,
                            *params,
                            docs,
                            hug,
                        ),
                    ),
                ),
            ),
            DocView::IfBreak {
                break_contents: Box::new(comma_view),
                flat_contents: Box::new(DocView::Text(""@)),
                group_id: None,
            },
            DocView::Line(LineKind::Soft),
        ] + close);
    }
    if ctx.options.expand_first_argument {
        Doc::array(parts)
    } else {
        Doc::group(Doc::array(parts))
    }
}

} // verus!
