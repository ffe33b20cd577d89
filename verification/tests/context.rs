use doc_printer::ast::{
    AstKind, AttachedComments, CommentFlags, FormalParameters, Span, TSAccessibility, TSTypeKind,
    BLOCK, DANGLING, FIRST, FORMAT_IGNORE, LAST, LEADING, LINE, TRAILING,
};
use doc_printer::context::FormatContext;
use doc_printer::doc::Doc;
use doc_printer::function_parameters::{documents_match, ParameterDocs};
use doc_printer::options::{ArrowParens, FormatOptions, TrailingComma};
use doc_printer::source::{has_blank_line_in_range, is_next_line_empty};

#[test]
fn default_options_are_the_usual_ones() {
    let options = FormatOptions::default();
    assert_eq!(options.print_width, 80);
    assert!(options.bracket_spacing);
    assert!(options.semicolons);
    assert_eq!(options.arrow_parens, ArrowParens::Always);
    assert_eq!(options.trailing_comma, TrailingComma::All);
    assert!(!options.expand_first_argument);
}

#[test]
fn option_values_answer_their_questions() {
    assert!(ArrowParens::Always.is_always());
    assert!(!ArrowParens::Avoid.is_always());
    assert!(TrailingComma::All.should_print_es5());
    assert!(TrailingComma::Es5.should_print_es5());
    assert!(!TrailingComma::Never.should_print_es5());
    assert!(TrailingComma::All.should_print_all());
    assert!(!TrailingComma::Es5.should_print_all());
    assert!(!TrailingComma::Never.should_print_all());
}

#[test]
fn comment_flags_are_sets_of_markers() {
    assert_eq!(
        LEADING | TRAILING | DANGLING | BLOCK | LINE | FORMAT_IGNORE | FIRST | LAST,
        CommentFlags::all().bits
    );
    assert!(CommentFlags::empty().is_empty());
    assert!(!CommentFlags::all().is_empty());
    let leading = CommentFlags::from_bits(LEADING);
    let block = CommentFlags::from_bits(BLOCK);
    assert_eq!(leading.union(block), CommentFlags::from_bits(LEADING | BLOCK));
    assert!(leading.union(block).intersects(block));
    assert!(!leading.intersects(block));
    assert!(!CommentFlags::empty().intersects(CommentFlags::all()));
    assert!(leading.intersects(CommentFlags::all()));
}

#[test]
fn comments_are_found_by_node_and_marker() {
    let comments = vec![
        AttachedComments { node: Span::new(0, 4), flags: CommentFlags::from_bits(LEADING | LINE) },
        AttachedComments { node: Span::new(6, 9), flags: CommentFlags::from_bits(TRAILING | BLOCK) },
    ];
    let ctx = FormatContext::new(FormatOptions::default(), Vec::new(), comments);
    assert!(ctx.has_comment(Span::new(0, 4), CommentFlags::from_bits(LEADING)));
    assert!(ctx.has_comment(Span::new(0, 4), CommentFlags::from_bits(LINE | BLOCK)));
    assert!(!ctx.has_comment(Span::new(0, 4), CommentFlags::from_bits(TRAILING | BLOCK)));
    assert!(ctx.has_comment(Span::new(6, 9), CommentFlags::all()));
    assert!(!ctx.has_comment(Span::new(6, 9), CommentFlags::empty()));
    assert!(!ctx.has_comment(Span::new(0, 9), CommentFlags::all()));
}

#[test]
fn path_from_the_root_is_a_stack() {
    let mut ctx = FormatContext::new(FormatOptions::default(), Vec::new(), Vec::new());
    assert!(ctx.current_kind().is_none());
    assert!(ctx.parent_kind().is_none());
    assert!(ctx.leave().is_none());
    ctx.enter(AstKind::Program);
    assert!(matches!(ctx.current_kind(), Some(AstKind::Program)));
    assert!(ctx.parent_kind().is_none());
    ctx.enter(AstKind::VariableDeclarator);
    ctx.enter(AstKind::Other);
    assert!(matches!(ctx.current_kind(), Some(AstKind::Other)));
    assert!(matches!(ctx.parent_kind(), Some(AstKind::VariableDeclarator)));
    assert!(matches!(ctx.leave(), Some(AstKind::Other)));
    assert!(matches!(ctx.current_kind(), Some(AstKind::VariableDeclarator)));
    assert!(matches!(ctx.parent_kind(), Some(AstKind::Program)));
}

#[test]
fn context_answers_for_its_own_source() {
    let source = "a,\n\nb {\n \n}";
    let ctx = FormatContext::new(FormatOptions::default(), source.as_bytes().to_vec(), Vec::new());
    assert!(ctx.is_next_line_empty(Span::new(0, 1)));
    assert!(!ctx.is_next_line_empty(Span::new(4, 5)));
    assert!(ctx.has_blank_line_in(Span::new(6, 11)));
    assert!(!ctx.has_blank_line_in(Span::new(0, 3)));
    assert!(ctx.should_print_es5_comma());
    let never = FormatOptions { trailing_comma: TrailingComma::Never, ..FormatOptions::default() };
    assert!(!FormatContext::new(never, Vec::new(), Vec::new()).should_print_es5_comma());
}

fn blank(source: &str, start: u32, end: u32) -> bool {
    has_blank_line_in_range(source.as_bytes(), start, end)
}

#[test]
fn blank_line_needs_two_line_feeds_with_blanks_between() {
    assert!(blank("{\n\n}", 0, 4));
    assert!(blank("{\n \t\r\n}", 0, 7));
    assert!(blank("a\n\n", 0, 3));
    assert!(!blank("{\n}", 0, 3));
    assert!(!blank("{\na\n}", 0, 5));
    assert!(!blank("{ }", 0, 3));
    assert!(!blank("", 0, 0));
}

#[test]
fn blank_line_has_to_lie_within_the_range() {
    let source = "ab\n\ncd";
    assert!(blank(source, 0, 6));
    assert!(blank(source, 2, 4));
    assert!(!blank(source, 3, 6));
    assert!(!blank(source, 0, 3));
    assert!(!blank(source, 4, 2));
    assert!(blank(source, 0, 1000));
    assert!(!blank(source, 1000, 2000));
}

fn next_empty(source: &str, pos: u32) -> bool {
    is_next_line_empty(source.as_bytes(), pos)
}

#[test]
fn next_line_is_empty_when_only_blanks_stand_on_it() {
    assert!(next_empty("a\n\nb", 1));
    assert!(next_empty("a,\n\nb", 1));
    assert!(next_empty("a ; \t\n  \t\nb", 1));
    assert!(next_empty("a\r\n\r\nb", 1));
    assert!(next_empty("a\n\r\nb", 1));
    assert!(!next_empty("a\nb", 1));
    assert!(!next_empty("a\n  b\n", 1));
    assert!(!next_empty("a b\n\n", 1));
    assert!(!next_empty("a\n", 1));
    assert!(!next_empty("a", 1));
    assert!(!next_empty("a\n\nb", 100));
}

#[test]
fn keywords_and_kinds_read_as_they_are_written() {
    assert_eq!(TSAccessibility::Private.as_str(), "private");
    assert_eq!(TSAccessibility::Protected.as_str(), "protected");
    assert_eq!(TSAccessibility::Public.as_str(), "public");
    assert!(TSTypeKind::TypeLiteral.is_object_like());
    assert!(TSTypeKind::MappedType.is_object_like());
    assert!(!TSTypeKind::Other.is_object_like());
}

#[test]
fn parameter_count_includes_the_rest_element() {
    let none = FormalParameters { items: vec![], has_rest: false };
    let only_rest = FormalParameters { items: vec![], has_rest: true };
    assert!(!none.has_one_parameter());
    assert!(only_rest.has_one_parameter());
}

#[test]
fn child_documents_have_to_match_the_list() {
    let ctx = FormatContext::new(FormatOptions::default(), Vec::new(), Vec::new());
    let params = FormalParameters { items: vec![], has_rest: true };
    let good = ParameterDocs { this_param: None, items: vec![], rest: Some(Doc::text("...r")) };
    let no_rest = ParameterDocs { this_param: None, items: vec![], rest: None };
    let extra = ParameterDocs {
        this_param: None,
        items: vec![Doc::text("a")],
        rest: Some(Doc::text("...r")),
    };
    let with_this = ParameterDocs {
        this_param: Some(Doc::text("this")),
        items: vec![],
        rest: Some(Doc::text("...r")),
    };
    assert!(documents_match(&good, &ctx, &params));
    assert!(!documents_match(&no_rest, &ctx, &params));
    assert!(!documents_match(&extra, &ctx, &params));
    assert!(!documents_match(&with_this, &ctx, &params));
}
