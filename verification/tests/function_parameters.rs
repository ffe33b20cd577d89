use doc_printer::ast::{
    AstKind, AttachedComments, BindingPattern, BindingPatternKind, CommentFlags, ExpressionKind,
    FormalParameter, FormalParameters, Function, Span, TSAccessibility, TSThisParameter,
    TSTypeKind, TSTypeParameter, BLOCK, LEADING, TRAILING,
};
use doc_printer::context::FormatContext;
use doc_printer::doc::Doc;
use doc_printer::function_parameters::{
    print_function_parameters, should_group_function_parameters,
    should_hug_the_only_function_parameter, ParameterDocs,
};
use doc_printer::options::{ArrowParens, FormatOptions};
use doc_printer::render::render;

fn context(source: &str) -> FormatContext {
    FormatContext::new(FormatOptions::default(), source.as_bytes().to_vec(), Vec::new())
}

fn parameter(start: u32, end: u32, kind: BindingPatternKind) -> FormalParameter {
    FormalParameter {
        span: Span::new(start, end),
        pattern: BindingPattern { kind, type_annotation: None },
        accessibility: None,
        readonly: false,
        is_override: false,
    }
}

fn only(kind: BindingPatternKind) -> FormalParameters {
    FormalParameters { items: vec![parameter(1, 2, kind)], has_rest: false }
}

fn docs(items: &[&str]) -> ParameterDocs {
    ParameterDocs {
        this_param: None,
        items: items.iter().map(|item| Doc::text(item)).collect(),
        rest: None,
    }
}

fn defaulted(left: BindingPatternKind, right: ExpressionKind) -> BindingPatternKind {
    BindingPatternKind::AssignmentPattern { left: Box::new(left), right }
}

#[test]
fn object_pattern_hugs_whatever_its_size() {
    let ctx = context("");
    for properties in [0, 1, 2, 17, usize::MAX] {
        let params = only(BindingPatternKind::ObjectPattern { properties });
        assert!(should_hug_the_only_function_parameter(&ctx, &params));
    }
}

#[test]
fn array_pattern_hugs() {
    let ctx = context("");
    let params = only(BindingPatternKind::ArrayPattern { elements: 3 });
    assert!(should_hug_the_only_function_parameter(&ctx, &params));
}

#[test]
fn plain_identifier_does_not_hug() {
    let ctx = context("");
    assert!(!should_hug_the_only_function_parameter(
        &ctx,
        &only(BindingPatternKind::BindingIdentifier)
    ));
}

#[test]
fn identifier_with_braced_type_hugs() {
    let ctx = context("");
    for (annotation, expected) in [
        (TSTypeKind::TypeLiteral, true),
        (TSTypeKind::MappedType, true),
        (TSTypeKind::Other, false),
    ] {
        let mut params = only(BindingPatternKind::BindingIdentifier);
        params.items[0].pattern.type_annotation = Some(annotation);
        assert_eq!(should_hug_the_only_function_parameter(&ctx, &params), expected);
    }
}

#[test]
fn defaulted_pattern_hugs_by_its_sides() {
    let ctx = context("");
    let object = || BindingPatternKind::ObjectPattern { properties: 1 };
    let array = || BindingPatternKind::ArrayPattern { elements: 1 };
    let cases = [
        (defaulted(object(), ExpressionKind::Other), true),
        (defaulted(array(), ExpressionKind::Identifier), true),
        (defaulted(array(), ExpressionKind::ObjectExpression { properties: 0 }), true),
        (defaulted(array(), ExpressionKind::ObjectExpression { properties: 1 }), false),
        (defaulted(array(), ExpressionKind::ArrayExpression { elements: 0 }), true),
        (defaulted(array(), ExpressionKind::ArrayExpression { elements: 2 }), false),
        (defaulted(array(), ExpressionKind::Other), false),
        (defaulted(BindingPatternKind::BindingIdentifier, ExpressionKind::Identifier), false),
    ];
    for (kind, expected) in cases {
        assert_eq!(should_hug_the_only_function_parameter(&ctx, &only(kind)), expected);
    }
}

#[test]
fn more_or_fewer_than_one_parameter_do_not_hug() {
    let ctx = context("");
    let object = || BindingPatternKind::ObjectPattern { properties: 1 };
    let none = FormalParameters { items: vec![], has_rest: false };
    let only_rest = FormalParameters { items: vec![], has_rest: true };
    let two = FormalParameters {
        items: vec![parameter(1, 2, object()), parameter(4, 5, object())],
        has_rest: false,
    };
    let with_rest = FormalParameters { items: vec![parameter(1, 2, object())], has_rest: true };
    assert!(!should_hug_the_only_function_parameter(&ctx, &none));
    assert!(!should_hug_the_only_function_parameter(&ctx, &only_rest));
    assert!(!should_hug_the_only_function_parameter(&ctx, &two));
    assert!(!should_hug_the_only_function_parameter(&ctx, &with_rest));
}

#[test]
fn commented_parameter_does_not_hug() {
    let params = only(BindingPatternKind::ObjectPattern { properties: 2 });
    for bits in [LEADING, TRAILING, BLOCK, 0x80, 0xff] {
        let attached = AttachedComments {
            node: Span::new(1, 2),
            flags: CommentFlags::from_bits(bits),
        };
        let ctx = FormatContext::new(FormatOptions::default(), Vec::new(), vec![attached]);
        assert!(!should_hug_the_only_function_parameter(&ctx, &params));
    }
    let elsewhere = AttachedComments { node: Span::new(7, 9), flags: CommentFlags::all() };
    let ctx = FormatContext::new(FormatOptions::default(), Vec::new(), vec![elsewhere]);
    assert!(should_hug_the_only_function_parameter(&ctx, &params));
    let unmarked = AttachedComments { node: Span::new(1, 2), flags: CommentFlags::empty() };
    let ctx = FormatContext::new(FormatOptions::default(), Vec::new(), vec![unmarked]);
    assert!(should_hug_the_only_function_parameter(&ctx, &params));
}

fn function(
    type_parameters: Option<Vec<TSTypeParameter>>,
    params: FormalParameters,
    return_type: Option<TSTypeKind>,
) -> Function {
    Function { this_param: None, type_parameters, params, return_type }
}

#[test]
fn function_groups_its_parameters_by_its_return_type() {
    let one = || only(BindingPatternKind::BindingIdentifier);
    let free = TSTypeParameter { has_constraint: false, has_default: false };
    let constrained = TSTypeParameter { has_constraint: true, has_default: false };
    let with_default = TSTypeParameter { has_constraint: false, has_default: true };
    assert!(should_group_function_parameters(&function(
        None,
        one(),
        Some(TSTypeKind::TypeLiteral)
    )));
    assert!(should_group_function_parameters(&function(
        Some(vec![]),
        one(),
        Some(TSTypeKind::MappedType)
    )));
    assert!(should_group_function_parameters(&function(
        Some(vec![free]),
        one(),
        Some(TSTypeKind::TypeLiteral)
    )));
    assert!(!should_group_function_parameters(&function(None, one(), None)));
    assert!(!should_group_function_parameters(&function(None, one(), Some(TSTypeKind::Other))));
    assert!(!should_group_function_parameters(&function(
        Some(vec![free, free]),
        one(),
        Some(TSTypeKind::TypeLiteral)
    )));
    assert!(!should_group_function_parameters(&function(
        Some(vec![constrained]),
        one(),
        Some(TSTypeKind::TypeLiteral)
    )));
    assert!(!should_group_function_parameters(&function(
        Some(vec![with_default]),
        one(),
        Some(TSTypeKind::TypeLiteral)
    )));
    let two = FormalParameters {
        items: vec![
            parameter(1, 2, BindingPatternKind::BindingIdentifier),
            parameter(4, 5, BindingPatternKind::BindingIdentifier),
        ],
        has_rest: false,
    };
    assert!(!should_group_function_parameters(&function(
        None,
        two,
        Some(TSTypeKind::TypeLiteral)
    )));
}

fn identifiers(count: u32) -> FormalParameters {
    let items = (0..count)
        .map(|i| parameter(1 + 3 * i, 2 + 3 * i, BindingPatternKind::BindingIdentifier))
        .collect();
    FormalParameters { items, has_rest: false }
}

#[test]
fn parameters_that_fit_stay_on_one_line() {
    let ctx = context("(a, b, c)");
    let doc = print_function_parameters(&ctx, &identifiers(3), docs(&["a", "b", "c"]));
    assert_eq!(render(&doc, 80), Ok("(a, b, c)".to_string()));
}

#[test]
fn parameters_that_do_not_fit_break_with_a_trailing_comma() {
    let ctx = context("(a, b, c)");
    let doc = print_function_parameters(&ctx, &identifiers(3), docs(&["a", "b", "c"]));
    assert_eq!(render(&doc, 5), Ok("(\n  a,\n  b,\n  c,\n)".to_string()));
}

#[test]
fn rest_element_ends_the_list_without_a_trailing_comma() {
    let ctx = context("(a, ...r)");
    let mut params = identifiers(1);
    params.has_rest = true;
    let mut children = docs(&["a"]);
    children.rest = Some(Doc::text("...r"));
    let flat = print_function_parameters(&ctx, &params, children);
    assert_eq!(render(&flat, 80), Ok("(a, ...r)".to_string()));
    assert_eq!(render(&flat, 4), Ok("(\n  a,\n  ...r\n)".to_string()));
}

#[test]
fn blank_line_between_parameters_is_kept() {
    let ctx = context("(a,\n\nb)");
    let doc = print_function_parameters(&ctx, &identifiers(2), docs(&["a", "b"]));
    assert_eq!(render(&doc, 80), Ok("(\n  a,\n\n  b,\n)".to_string()));
}

#[test]
fn modifiers_are_written_before_the_parameter() {
    let ctx = context("");
    let mut params = identifiers(2);
    params.items[0].accessibility = Some(TSAccessibility::Private);
    params.items[0].readonly = true;
    params.items[1].accessibility = Some(TSAccessibility::Protected);
    params.items[1].is_override = true;
    let doc = print_function_parameters(&ctx, &params, docs(&["a", "b"]));
    assert_eq!(
        render(&doc, 80),
        Ok("(private readonly a, protected override b)".to_string())
    );
    let mut public = identifiers(1);
    public.items[0].accessibility = Some(TSAccessibility::Public);
    let doc = print_function_parameters(&ctx, &public, docs(&["a"]));
    assert_eq!(render(&doc, 80), Ok("(public a)".to_string()));
}

#[test]
fn hugged_parameter_is_written_between_the_parentheses() {
    let mut ctx = context("");
    ctx.enter(AstKind::ArrowFunctionExpression);
    ctx.enter(AstKind::Other);
    let params = only(BindingPatternKind::ObjectPattern { properties: 2 });
    let doc = print_function_parameters(&ctx, &params, docs(&["{ a, b }"]));
    assert_eq!(doc, Doc::array(vec![Doc::text("("), Doc::text("{ a, b }"), Doc::text(")")]));
    assert_eq!(render(&doc, 1), Ok("({ a, b })".to_string()));
}

fn arrow_context(arrow_parens: ArrowParens) -> FormatContext {
    let options = FormatOptions { arrow_parens, ..FormatOptions::default() };
    let mut ctx = FormatContext::new(options, Vec::new(), Vec::new());
    ctx.enter(AstKind::ArrowFunctionExpression);
    ctx.enter(AstKind::Other);
    ctx
}

#[test]
fn lone_arrow_parameter_loses_its_parentheses_where_they_are_avoided() {
    let ctx = arrow_context(ArrowParens::Avoid);
    let doc = print_function_parameters(&ctx, &identifiers(1), docs(&["x"]));
    assert_eq!(render(&doc, 80), Ok("x".to_string()));
}

#[test]
fn arrow_parameters_keep_their_parentheses_otherwise() {
    let always = arrow_context(ArrowParens::Always);
    let doc = print_function_parameters(&always, &identifiers(1), docs(&["x"]));
    assert_eq!(render(&doc, 80), Ok("(x)".to_string()));

    let avoid = arrow_context(ArrowParens::Avoid);
    let doc = print_function_parameters(&avoid, &identifiers(2), docs(&["x", "y"]));
    assert_eq!(render(&doc, 80), Ok("(x, y)".to_string()));

    let mut typed = identifiers(1);
    typed.items[0].pattern.type_annotation = Some(TSTypeKind::Other);
    let doc = print_function_parameters(&avoid, &typed, docs(&["x: T"]));
    assert_eq!(render(&doc, 80), Ok("(x: T)".to_string()));

    let mut with_rest = identifiers(1);
    with_rest.has_rest = true;
    let mut children = docs(&["x"]);
    children.rest = Some(Doc::text("...r"));
    let doc = print_function_parameters(&avoid, &with_rest, children);
    assert_eq!(render(&doc, 80), Ok("(x, ...r)".to_string()));

    let plain = context("");
    let doc = print_function_parameters(&plain, &identifiers(1), docs(&["x"]));
    assert_eq!(render(&doc, 80), Ok("(x)".to_string()));
}

fn method_context(source: &str, this_end: u32) -> FormatContext {
    let mut ctx = context(source);
    ctx.enter(AstKind::Function(Function {
        this_param: Some(TSThisParameter { span: Span::new(1, this_end) }),
        type_parameters: None,
        params: FormalParameters { items: vec![], has_rest: false },
        return_type: None,
    }));
    ctx.enter(AstKind::Other);
    ctx
}

#[test]
fn this_parameter_comes_first_and_forbids_the_trailing_comma() {
    let ctx = method_context("(this: T, a)", 8);
    let mut children = docs(&["a"]);
    children.this_param = Some(Doc::text("this: T"));
    let params = FormalParameters {
        items: vec![parameter(10, 11, BindingPatternKind::BindingIdentifier)],
        has_rest: false,
    };
    let doc = print_function_parameters(&ctx, &params, children);
    assert_eq!(render(&doc, 80), Ok("(this: T, a)".to_string()));
    assert_eq!(render(&doc, 6), Ok("(\n  this: T,\n  a\n)".to_string()));
}

#[test]
fn blank_line_after_this_parameter_is_kept() {
    let ctx = method_context("(this: T,\n\n a)", 8);
    let mut children = docs(&["a"]);
    children.this_param = Some(Doc::text("this: T"));
    let params = FormalParameters {
        items: vec![parameter(12, 13, BindingPatternKind::BindingIdentifier)],
        has_rest: false,
    };
    let doc = print_function_parameters(&ctx, &params, children);
    assert_eq!(render(&doc, 80), Ok("(\n  this: T,\n\n  a\n)".to_string()));
}

#[test]
fn this_parameter_before_a_hugged_parameter_is_followed_by_a_space() {
    let ctx = method_context("(this: T, {a})", 8);
    let mut children = docs(&["{ a }"]);
    children.this_param = Some(Doc::text("this: T"));
    let params = FormalParameters {
        items: vec![parameter(10, 13, BindingPatternKind::ObjectPattern { properties: 1 })],
        has_rest: false,
    };
    let doc = print_function_parameters(&ctx, &params, children);
    assert_eq!(render(&doc, 1), Ok("(this: T, { a })".to_string()));
}

#[test]
fn ungrouped_parameters_leave_the_breaking_to_the_caller() {
    let options = FormatOptions { expand_first_argument: true, ..FormatOptions::default() };
    let ctx = FormatContext::new(options, Vec::new(), Vec::new());
    let doc = print_function_parameters(&ctx, &identifiers(2), docs(&["a", "b"]));
    assert!(matches!(doc, Doc::Array(_)));
    assert_eq!(render(&Doc::group(doc.deep_clone()), 80), Ok("(a, b)".to_string()));
    assert_eq!(render(&doc, 80), Ok("(\n  a,\n  b,\n)".to_string()));
}
