use doc_printer::ast::{
    AstKind, BindingPattern, BindingPatternKind, FormalParameter, FormalParameters,
    ObjectAssignmentTarget, ObjectExpression, ObjectPattern, Span, TSTypeLiteral, WithClause,
};
use doc_printer::context::FormatContext;
use doc_printer::doc::Doc;
use doc_printer::function_parameters::{print_function_parameters, ParameterDocs};
use doc_printer::object::{print_object_properties, should_hug_the_only_parameter, ObjectLike};
use doc_printer::options::{FormatOptions, TrailingComma};
use doc_printer::render::render;

fn texts(items: &[&str]) -> Vec<Doc> {
    items.iter().map(|item| Doc::text(item)).collect()
}

fn context(source: &str, options: FormatOptions) -> FormatContext {
    FormatContext::new(options, source.as_bytes().to_vec(), Vec::new())
}

fn literal(source: &str, properties: &[&str]) -> ObjectExpression {
    ObjectExpression { span: Span::new(0, source.len() as u32), properties: texts(properties) }
}

fn pattern(source: &str, properties: &[&str], rest: Option<&str>) -> ObjectPattern {
    ObjectPattern {
        span: Span::new(0, source.len() as u32),
        properties: texts(properties),
        rest: rest.map(Doc::text),
    }
}

fn hugging_parameters() -> FormalParameters {
    FormalParameters {
        items: vec![FormalParameter {
            span: Span::new(1, 7),
            pattern: BindingPattern {
                kind: BindingPatternKind::ObjectPattern { properties: 2 },
                type_annotation: None,
            },
            accessibility: None,
            readonly: false,
            is_override: false,
        }],
        has_rest: false,
    }
}

#[test]
fn queries_project_the_node() {
    let expression = literal("{a, b}", &["a", "b"]);
    let target = ObjectAssignmentTarget {
        span: Span::new(3, 9),
        properties: texts(&["a"]),
        rest: Some(Doc::text("...r")),
    };
    let only_rest = pattern("{...r}", &[], Some("...r"));
    let clause = WithClause { span: Span::new(1, 2), with_entries: vec![] };
    let members = TSTypeLiteral { span: Span::new(5, 8), members: texts(&["a: A", "b: B", "c: C"]) };

    let object = ObjectLike::Expression(&expression);
    assert_eq!(object.len(), 2);
    assert!(!object.has_rest());
    assert!(!object.is_empty());
    assert!(!object.is_object_pattern());
    assert_eq!(object.span(), Span::new(0, 6));
    assert_eq!(object.iter(), texts(&["a", "b"]));

    let object = ObjectLike::AssignmentTarget(&target);
    assert_eq!(object.len(), 1);
    assert!(object.has_rest());
    assert!(!object.is_empty());
    assert_eq!(object.span(), Span::new(3, 9));
    assert_eq!(object.iter(), texts(&["a"]));

    let object = ObjectLike::Pattern(&only_rest);
    assert_eq!(object.len(), 0);
    assert!(object.has_rest());
    assert!(!object.is_empty());
    assert!(object.is_object_pattern());

    let object = ObjectLike::WithClause(&clause);
    assert_eq!(object.len(), 0);
    assert!(object.is_empty());
    assert!(!object.has_rest());
    assert_eq!(object.span(), Span::new(1, 2));

    let object = ObjectLike::TSTypeLiteral(&members);
    assert_eq!(object.len(), 3);
    assert!(!object.is_empty());
    assert_eq!(object.span(), Span::new(5, 8));
}

#[test]
fn separator_follows_the_kind_of_node() {
    let with_semicolons = context("", FormatOptions::default());
    let without =
        context("", FormatOptions { semicolons: false, ..FormatOptions::default() });
    let expression = literal("{a}", &["a"]);
    let members = TSTypeLiteral { span: Span::new(0, 3), members: texts(&["a: A"]) };
    assert_eq!(ObjectLike::Expression(&expression).member_separator(&with_semicolons), ",");
    assert_eq!(ObjectLike::Expression(&expression).member_separator(&without), ",");
    assert_eq!(ObjectLike::TSTypeLiteral(&members).member_separator(&with_semicolons), ";");
    assert_eq!(ObjectLike::TSTypeLiteral(&members).member_separator(&without), "");
}

#[test]
fn empty_container_is_a_group_of_its_braces() {
    let ctx = context("{}", FormatOptions::default());
    let empty = literal("{}", &[]);
    let doc = print_object_properties(&ctx, ObjectLike::Expression(&empty));
    assert_eq!(
        doc,
        Doc::group(Doc::array(vec![Doc::text("{"), Doc::softline(), Doc::text("}")]))
    );
    assert_eq!(render(&doc, 80), Ok("{}".to_string()));
}

#[test]
fn object_that_fits_is_written_on_one_line() {
    let source = "{a: 1, b: 2}";
    let ctx = context(source, FormatOptions::default());
    let object = literal(source, &["a: 1", "b: 2"]);
    let doc = print_object_properties(&ctx, ObjectLike::Expression(&object));
    assert_eq!(render(&doc, 80), Ok("{ a: 1, b: 2 }".to_string()));
}

#[test]
fn object_that_does_not_fit_breaks_with_a_trailing_comma() {
    let source = "{a: 1, b: 2}";
    let ctx = context(source, FormatOptions::default());
    let object = literal(source, &["a: 1", "b: 2"]);
    let doc = print_object_properties(&ctx, ObjectLike::Expression(&object));
    assert_eq!(render(&doc, 10), Ok("{\n  a: 1,\n  b: 2,\n}".to_string()));
}

#[test]
fn trailing_comma_is_left_out_where_it_is_not_wanted() {
    let source = "{a: 1, b: 2}";
    let options = FormatOptions { trailing_comma: TrailingComma::Never, ..FormatOptions::default() };
    let ctx = context(source, options);
    let object = literal(source, &["a: 1", "b: 2"]);
    let doc = print_object_properties(&ctx, ObjectLike::Expression(&object));
    assert_eq!(render(&doc, 10), Ok("{\n  a: 1,\n  b: 2\n}".to_string()));

    let es5 = FormatOptions { trailing_comma: TrailingComma::Es5, ..FormatOptions::default() };
    let ctx = context(source, es5);
    let doc = print_object_properties(&ctx, ObjectLike::Expression(&object));
    assert_eq!(render(&doc, 10), Ok("{\n  a: 1,\n  b: 2,\n}".to_string()));
}

#[test]
fn braces_are_not_padded_where_spacing_is_off() {
    let source = "{a: 1, b: 2}";
    let options = FormatOptions { bracket_spacing: false, ..FormatOptions::default() };
    let ctx = context(source, options);
    let object = literal(source, &["a: 1", "b: 2"]);
    let doc = print_object_properties(&ctx, ObjectLike::Expression(&object));
    assert_eq!(render(&doc, 80), Ok("{a: 1, b: 2}".to_string()));
    assert_eq!(render(&doc, 10), Ok("{\n  a: 1,\n  b: 2,\n}".to_string()));
}

#[test]
fn blank_line_between_the_braces_forces_the_object_to_break() {
    let source = "{\n\n  a: 1, b: 2 }";
    let ctx = context(source, FormatOptions::default());
    let object = literal(source, &["a: 1", "b: 2"]);
    let doc = print_object_properties(&ctx, ObjectLike::Expression(&object));
    assert_eq!(render(&doc, 80), Ok("{\n  a: 1,\n  b: 2,\n}".to_string()));
    assert_eq!(render(&doc, 1000), Ok("{\n  a: 1,\n  b: 2,\n}".to_string()));
}

#[test]
fn single_line_break_between_the_braces_forces_nothing() {
    let source = "{\n  a: 1, b: 2 }";
    let ctx = context(source, FormatOptions::default());
    let object = literal(source, &["a: 1", "b: 2"]);
    let doc = print_object_properties(&ctx, ObjectLike::Expression(&object));
    assert_eq!(render(&doc, 80), Ok("{ a: 1, b: 2 }".to_string()));
}

#[test]
fn program_level_object_breaks_by_its_source_alone() {
    let blank = "{a,\n \t\n b}";
    let mut ctx = context(blank, FormatOptions::default());
    ctx.enter(AstKind::Program);
    let object = pattern(blank, &["a", "b"], None);
    let doc = print_object_properties(&ctx, ObjectLike::Pattern(&object));
    assert!(matches!(doc, Doc::Group { should_break: true, .. }));
    assert_eq!(render(&doc, 80), Ok("{\n  a,\n  b,\n}".to_string()));

    let plain = "{a, b}";
    let mut ctx = context(plain, FormatOptions::default());
    ctx.enter(AstKind::Program);
    let object = pattern(plain, &["a", "b"], None);
    let doc = print_object_properties(&ctx, ObjectLike::Pattern(&object));
    assert!(matches!(doc, Doc::Group { should_break: false, .. }));
    assert_eq!(render(&doc, 80), Ok("{ a, b }".to_string()));
}

#[test]
fn rest_element_follows_the_members_without_a_separator() {
    let source = "{a, b, ...r}";
    let ctx = context(source, FormatOptions::default());
    let object = pattern(source, &["a", "b"], Some("...r"));
    let doc = print_object_properties(&ctx, ObjectLike::Pattern(&object));
    assert_eq!(render(&doc, 80), Ok("{ a, b, ...r }".to_string()));
    assert_eq!(render(&doc, 5), Ok("{\n  a,\n  b,\n  ...r\n}".to_string()));

    let target = ObjectAssignmentTarget {
        span: Span::new(0, source.len() as u32),
        properties: texts(&["a"]),
        rest: Some(Doc::text("...r")),
    };
    let doc = print_object_properties(&ctx, ObjectLike::AssignmentTarget(&target));
    assert_eq!(render(&doc, 80), Ok("{ a, ...r }".to_string()));
    assert_eq!(render(&doc, 5), Ok("{\n  a,\n  ...r\n}".to_string()));
}

#[test]
fn type_literal_members_end_in_semicolons() {
    let source = "{a: A, b: B}";
    let members = TSTypeLiteral {
        span: Span::new(0, source.len() as u32),
        members: texts(&["a: A", "b: B"]),
    };
    let ctx = context(source, FormatOptions::default());
    let doc = print_object_properties(&ctx, ObjectLike::TSTypeLiteral(&members));
    assert_eq!(render(&doc, 80), Ok("{ a: A; b: B }".to_string()));
    assert_eq!(render(&doc, 5), Ok("{\n  a: A;\n  b: B;\n}".to_string()));

    let without = context(source, FormatOptions { semicolons: false, ..FormatOptions::default() });
    let doc = print_object_properties(&without, ObjectLike::TSTypeLiteral(&members));
    assert_eq!(render(&doc, 5), Ok("{\n  a: A\n  b: B\n}".to_string()));
}

#[test]
fn import_attributes_are_laid_out_like_an_object() {
    let source = "{type: \"json\"}";
    let clause = WithClause {
        span: Span::new(0, source.len() as u32),
        with_entries: texts(&["type: \"json\""]),
    };
    let ctx = context(source, FormatOptions::default());
    let doc = print_object_properties(&ctx, ObjectLike::WithClause(&clause));
    assert_eq!(render(&doc, 80), Ok("{ type: \"json\" }".to_string()));
}

#[test]
fn parent_that_hugs_is_recognised() {
    let ctx = context("", FormatOptions::default());
    let hugging = AstKind::FormalParameters(hugging_parameters());
    assert!(should_hug_the_only_parameter(&ctx, Some(&hugging)));
    let mut two = hugging_parameters();
    two.has_rest = true;
    assert!(!should_hug_the_only_parameter(&ctx, Some(&AstKind::FormalParameters(two))));
    assert!(!should_hug_the_only_parameter(&ctx, Some(&AstKind::ArrowFunctionExpression)));
    assert!(!should_hug_the_only_parameter(&ctx, None));
}

#[test]
fn hugged_object_pattern_never_breaks() {
    let source = "({a, b}) => a";
    let mut ctx = context(source, FormatOptions::default());
    ctx.enter(AstKind::ArrowFunctionExpression);
    ctx.enter(AstKind::FormalParameters(hugging_parameters()));
    ctx.enter(AstKind::Other);
    let object = ObjectPattern { span: Span::new(1, 7), properties: texts(&["a", "b"]), rest: None };
    let parameter = print_object_properties(&ctx, ObjectLike::Pattern(&object));
    assert_eq!(render(&parameter, 1), Ok("{ a, b }".to_string()));
    ctx.leave();

    let docs = ParameterDocs { this_param: None, items: vec![parameter], rest: None };
    let list = print_function_parameters(&ctx, &hugging_parameters(), docs);
    for width in [0, 1, 5, 9, 10, 80] {
        assert_eq!(render(&list, width), Ok("({ a, b })".to_string()));
    }
}

#[test]
fn pattern_of_a_declarator_stays_on_its_line() {
    let source = "{a, b}";
    for parent in [AstKind::VariableDeclarator, AstKind::AssignmentExpression] {
        let mut ctx = context(source, FormatOptions::default());
        ctx.enter(parent);
        ctx.enter(AstKind::Other);
        let object = pattern(source, &["a", "b"], None);
        let doc = print_object_properties(&ctx, ObjectLike::Pattern(&object));
        assert!(matches!(doc, Doc::Array(_)));
        assert_eq!(render(&doc, 1), Ok("{ a, b }".to_string()));
    }
}

#[test]
fn pattern_of_a_declarator_with_a_blank_line_breaks() {
    let source = "{a,\n\nb}";
    let mut ctx = context(source, FormatOptions::default());
    ctx.enter(AstKind::VariableDeclarator);
    ctx.enter(AstKind::Other);
    let object = pattern(source, &["a", "b"], None);
    let doc = print_object_properties(&ctx, ObjectLike::Pattern(&object));
    assert_eq!(render(&doc, 80), Ok("{\n  a,\n  b,\n}".to_string()));
}

#[test]
fn object_literal_of_a_declarator_is_a_group() {
    let source = "{a, b}";
    let mut ctx = context(source, FormatOptions::default());
    ctx.enter(AstKind::VariableDeclarator);
    ctx.enter(AstKind::Other);
    let object = literal(source, &["a", "b"]);
    let doc = print_object_properties(&ctx, ObjectLike::Expression(&object));
    assert!(matches!(doc, Doc::Group { should_break: false, .. }));
    assert_eq!(render(&doc, 3), Ok("{\n  a,\n  b,\n}".to_string()));
}
