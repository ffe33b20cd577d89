use std::collections::HashMap;

use doc_printer::breaks::propagate_breaks;
use doc_printer::doc::{Doc, LineKind, Mode};
use doc_printer::layout::{RenderError, INDENT_WIDTH};
use doc_printer::printer::{fits, print_doc, text_width, Cmd};
use doc_printer::render::{can_indent, render, string_of, try_render};

fn text(s: &str) -> Doc {
    Doc::text(s)
}

fn rendered(doc: &Doc, width: usize) -> String {
    render(doc, width).unwrap()
}

fn list(items: &[&str]) -> Doc {
    let mut inner = vec![Doc::softline()];
    for (i, item) in items.iter().enumerate() {
        inner.push(Doc::text(item));
        if i + 1 < items.len() {
            inner.push(Doc::text(","));
            inner.push(Doc::line());
        }
    }
    Doc::group(Doc::array(vec![
        Doc::text("["),
        Doc::indent(Doc::array(inner)),
        Doc::if_break(Doc::text(","), Doc::text(""), None),
        Doc::softline(),
        Doc::text("]"),
    ]))
}

#[test]
fn constructors_build_the_primitives() {
    assert_eq!(Doc::text("ab"), Doc::Text("ab".to_string()));
    assert_eq!(Doc::space(), Doc::Text(" ".to_string()));
    assert_eq!(Doc::line(), Doc::Line(LineKind::Space));
    assert_eq!(Doc::softline(), Doc::Line(LineKind::Soft));
    assert_eq!(Doc::hardline(), Doc::Line(LineKind::Hard));
    assert_eq!(Doc::literal_line(), Doc::Line(LineKind::Literal));
    assert_eq!(Doc::concat(vec![text("a")]), Doc::Concat(vec![text("a")]));
    assert_eq!(Doc::array(vec![text("a")]), Doc::Array(vec![text("a")]));
    assert_eq!(Doc::indent(text("a")), Doc::Indent(Box::new(text("a"))));
    assert_eq!(
        Doc::group(text("a")),
        Doc::Group { content: Box::new(text("a")), should_break: false, id: None }
    );
    assert_eq!(
        Doc::group_with_opts(text("a"), true, Some(3)),
        Doc::Group { content: Box::new(text("a")), should_break: true, id: Some(3) }
    );
    assert_eq!(
        Doc::if_break(text("a"), text("b"), Some(1)),
        Doc::IfBreak {
            break_contents: Box::new(text("a")),
            flat_contents: Box::new(text("b")),
            group_id: Some(1),
        }
    );
}

#[test]
fn copy_of_a_document_equals_it() {
    let doc = list(&["a", "b"]);
    assert_eq!(doc.deep_clone(), doc);
    assert_eq!(doc.clone(), doc);
}

#[test]
fn group_that_fits_is_flat() {
    let doc = list(&["a", "b", "c"]);
    assert_eq!(render(&doc, 80), Ok("[a, b, c]".to_string()));
}

#[test]
fn group_that_does_not_fit_breaks() {
    let doc = list(&["a", "b", "c"]);
    assert_eq!(render(&doc, 8), Ok("[\n  a,\n  b,\n  c,\n]".to_string()));
}

#[test]
fn group_at_the_width_boundary_fits() {
    let doc = list(&["a", "b", "c"]);
    assert_eq!(render(&doc, 9), Ok("[a, b, c]".to_string()));
}

#[test]
fn flat_group_never_runs_past_the_width() {
    let doc = list(&["alpha", "beta", "gamma"]);
    for width in 0..40 {
        let out = rendered(&doc, width);
        if !out.contains('\n') {
            assert!(out.chars().count() <= width);
        }
    }
}

#[test]
fn text_behind_a_group_counts_against_its_width() {
    let doc = Doc::concat(vec![list(&["a", "b"]), text(" = value")]);
    assert_eq!(rendered(&doc, 14), "[a, b] = value");
    assert_eq!(rendered(&doc, 13), "[\n  a,\n  b,\n] = value");
}

#[test]
fn what_follows_the_next_line_break_does_not_count() {
    let doc = Doc::concat(vec![list(&["a", "b"]), Doc::line(), text("a long tail")]);
    assert_eq!(rendered(&doc, 6), "[a, b]\na long tail");
}

#[test]
fn lines_at_the_root_break() {
    let doc = Doc::concat(vec![text("a"), Doc::line(), text("b"), Doc::softline(), text("c")]);
    assert_eq!(rendered(&doc, 80), "a\nb\nc");
}

#[test]
fn nested_group_is_laid_out_on_its_own() {
    let doc = Doc::group(Doc::array(vec![
        text("outer("),
        Doc::indent(Doc::array(vec![
            Doc::softline(),
            list(&["a", "b"]),
            text(","),
            Doc::line(),
            list(&["c", "d"]),
        ])),
        Doc::softline(),
        text(")"),
    ]));
    assert_eq!(rendered(&doc, 80), "outer([a, b], [c, d])");
    assert_eq!(rendered(&doc, 12), "outer(\n  [a, b],\n  [c, d]\n)");
}

#[test]
fn indentation_is_two_columns_a_level() {
    assert_eq!(INDENT_WIDTH, 2);
    let doc = Doc::indent(Doc::concat(vec![
        text("a"),
        Doc::hardline(),
        text("b"),
        Doc::indent(Doc::concat(vec![Doc::hardline(), text("c")])),
        Doc::hardline(),
        text("d"),
    ]));
    assert_eq!(rendered(&doc, 80), "a\n  b\n    c\n  d");
}

#[test]
fn hard_line_breaks_every_group_above_it() {
    let inner = Doc::group(Doc::array(vec![text("c"), Doc::hardline(), text("d")]));
    let middle = Doc::group(Doc::array(vec![text("b"), Doc::line(), inner]));
    let outer = Doc::group(Doc::array(vec![text("a"), Doc::line(), middle]));
    assert_eq!(rendered(&outer, 80), "a\nb\nc\nd");
}

#[test]
fn pass_over_the_breaks_forces_the_groups() {
    let inner = Doc::group(Doc::array(vec![text("c"), Doc::hardline(), text("d")]));
    let middle = Doc::group(Doc::indent(inner));
    let mut outer = Doc::group(Doc::array(vec![text("a"), middle, list(&["x"])]));
    assert!(propagate_breaks(&mut outer));
    let broken_inner =
        Doc::group_with_opts(Doc::array(vec![text("c"), Doc::hardline(), text("d")]), true, None);
    let broken_middle = Doc::group_with_opts(Doc::indent(broken_inner), true, None);
    assert_eq!(
        outer,
        Doc::group_with_opts(Doc::array(vec![text("a"), broken_middle, list(&["x"])]), true, None)
    );
    let again = outer.deep_clone();
    assert!(propagate_breaks(&mut outer));
    assert_eq!(outer, again);
}

#[test]
fn group_that_is_forced_to_break_forces_the_groups_above_it() {
    let forced = Doc::group_with_opts(Doc::array(vec![text("b"), Doc::line(), text("c")]), true, None);
    let mut outer = Doc::group(Doc::array(vec![text("a"), Doc::line(), forced]));
    assert!(propagate_breaks(&mut outer));
    assert!(matches!(outer, Doc::Group { should_break: true, .. }));
    assert_eq!(rendered(&outer, 80), "a\nb\nc");
}

#[test]
fn pass_leaves_groups_without_hard_lines_alone() {
    let mut doc = list(&["a", "b"]);
    let before = doc.deep_clone();
    assert!(!propagate_breaks(&mut doc));
    assert_eq!(doc, before);
    let mut literal = Doc::group(Doc::literal_line());
    assert!(!propagate_breaks(&mut literal));
    assert!(matches!(literal, Doc::Group { should_break: false, .. }));
}

#[test]
fn hard_line_in_a_flat_branch_forces_nothing() {
    let choice = Doc::if_break(text("x"), Doc::hardline(), None);
    let mut doc = Doc::group(Doc::array(vec![text("a"), choice]));
    assert!(!propagate_breaks(&mut doc));
    assert!(matches!(doc, Doc::Group { should_break: false, .. }));

    let choice = Doc::if_break(Doc::hardline(), text("x"), None);
    let mut doc = Doc::group(Doc::array(vec![text("a"), choice]));
    assert!(propagate_breaks(&mut doc));
    assert!(matches!(doc, Doc::Group { should_break: true, .. }));
}

#[test]
fn groups_inside_both_branches_are_passed_over() {
    let hard = || Doc::group(Doc::hardline());
    let mut doc = Doc::if_break(hard(), hard(), None);
    assert!(propagate_breaks(&mut doc));
    let forced = || Doc::group_with_opts(Doc::hardline(), true, None);
    assert_eq!(doc, Doc::if_break(forced(), forced(), None));
}

#[test]
fn spaces_and_tabs_at_the_end_of_a_line_are_trimmed() {
    let doc = Doc::concat(vec![text("a  \t "), Doc::hardline(), text("b ")]);
    assert_eq!(rendered(&doc, 80), "a\nb ");
    let doc = Doc::concat(vec![
        Doc::indent(Doc::concat(vec![text("a"), Doc::hardline(), Doc::hardline(), text("b")])),
    ]);
    assert_eq!(rendered(&doc, 80), "a\n\n  b");
}

#[test]
fn literal_line_is_followed_by_no_indentation() {
    let doc = Doc::indent(Doc::concat(vec![
        text("a "),
        Doc::literal_line(),
        text("b"),
        Doc::hardline(),
        text("c"),
    ]));
    assert_eq!(rendered(&doc, 80), "a \nb\n  c");
}

#[test]
fn group_with_a_literal_line_is_printed_broken() {
    let doc = Doc::group(Doc::array(vec![text("a"), Doc::line(), text("b"), Doc::literal_line()]));
    assert_eq!(rendered(&doc, 80), "a\nb\n");
}

#[test]
fn if_break_follows_the_innermost_group() {
    let choice = || Doc::if_break(text("broken"), text("flat"), None);
    let flat = Doc::group(Doc::array(vec![text("a"), Doc::line(), choice()]));
    assert_eq!(rendered(&flat, 80), "a flat");
    assert_eq!(rendered(&flat, 3), "a\nbroken");
    assert_eq!(rendered(&choice(), 80), "broken");
}

#[test]
fn if_break_follows_the_group_that_it_names() {
    let named = |width_filler: &str| {
        Doc::concat(vec![
            Doc::group_with_opts(
                Doc::array(vec![text(width_filler), Doc::line(), text("b")]),
                false,
                Some(1),
            ),
            Doc::hardline(),
            Doc::group(Doc::if_break(text("was broken"), text("was flat"), Some(1))),
        ])
    };
    assert_eq!(rendered(&named("a"), 10), "a b\nwas flat");
    assert_eq!(rendered(&named("aaaaaaaaaa"), 10), "aaaaaaaaaa\nb\nwas broken");
}

#[test]
fn group_can_refer_to_itself() {
    let doc = Doc::group_with_opts(
        Doc::array(vec![
            text("a"),
            Doc::line(),
            Doc::if_break(text("broken"), text("flat"), Some(4)),
        ]),
        false,
        Some(4),
    );
    assert_eq!(rendered(&doc, 80), "a flat");
    assert_eq!(rendered(&doc, 4), "a\nbroken");
}

#[test]
fn group_that_is_not_yet_printed_is_unresolved() {
    let doc = Doc::concat(vec![
        Doc::if_break(text("a"), text("b"), Some(2)),
        Doc::group_with_opts(text("c"), false, Some(2)),
    ]);
    assert_eq!(render(&doc, 80), Err(RenderError::UnresolvedGroup(2)));
    let doc = Doc::if_break(text("a"), text("b"), Some(7));
    assert_eq!(render(&doc, 80), Err(RenderError::UnresolvedGroup(7)));
}

#[test]
fn deep_indentation_is_printed() {
    let mut doc = Doc::concat(vec![Doc::hardline(), text("x")]);
    for _ in 0..1000 {
        doc = Doc::indent(doc);
    }
    assert!(can_indent(&doc));
    let expected = format!("\n{}x", " ".repeat(2000));
    assert_eq!(print_doc(&doc, 80).map(|chars| string_of(&chars)), Ok(expected.clone()));
    assert_eq!(render(&doc, 80), Ok(expected));
}

#[test]
fn checked_rendering_gives_what_rendering_gives() {
    let doc = list(&["a", "b", "c"]);
    assert_eq!(try_render(&doc, 80), Some(Ok("[a, b, c]".to_string())));
    assert_eq!(try_render(&doc, 8), Some(render(&doc, 8)));
    let unresolved = Doc::if_break(text("a"), text("b"), Some(7));
    assert_eq!(try_render(&unresolved, 80), Some(Err(RenderError::UnresolvedGroup(7))));
}

#[test]
fn documents_of_any_shape_can_be_indented() {
    assert!(can_indent(&text("a")));
    assert!(can_indent(&list(&["a", "b"])));
    let choice = Doc::if_break(Doc::indent(text("a")), Doc::indent(Doc::indent(text("b"))), None);
    assert!(can_indent(&Doc::group(Doc::array(vec![choice, Doc::indent(Doc::line())]))));
}

#[test]
fn width_counts_characters_and_not_bytes() {
    assert_eq!(text_width(""), 0);
    assert_eq!(text_width("abc"), 3);
    assert_eq!(text_width("héllo"), 5);
    assert_eq!(text_width("日本語"), 3);
    assert_eq!(text_width("a\u{0007}b\tc\u{007f}\u{0085}"), 3);
    let doc = Doc::group(Doc::array(vec![text("日本語"), Doc::line(), text("é")]));
    assert_eq!(rendered(&doc, 5), "日本語 é");
    assert_eq!(rendered(&doc, 4), "日本語\né");
}

#[test]
fn measurement_stops_at_the_width() {
    let modes = HashMap::new();
    let content = Doc::array(vec![text("abc"), Doc::line(), text("de")]);
    assert!(fits(&content, None, &Vec::new(), 6, &modes));
    assert!(!fits(&content, None, &Vec::new(), 5, &modes));
    let tail = text("xyz");
    let soft = Doc::softline();
    let rest = vec![Cmd { indent: 0, mode: Mode::Break, doc: &tail }];
    assert!(fits(&content, None, &rest, 9, &modes));
    assert!(!fits(&content, None, &rest, 8, &modes));
    let rest = vec![
        Cmd { indent: 0, mode: Mode::Break, doc: &tail },
        Cmd { indent: 0, mode: Mode::Break, doc: &soft },
    ];
    assert!(fits(&content, None, &rest, 6, &modes));
    let rest = vec![
        Cmd { indent: 0, mode: Mode::Break, doc: &tail },
        Cmd { indent: 0, mode: Mode::Flat, doc: &soft },
    ];
    assert!(!fits(&content, None, &rest, 6, &modes));
}

#[test]
fn measurement_fails_on_what_must_break() {
    let modes = HashMap::new();
    let hard = Doc::array(vec![text("a"), Doc::hardline()]);
    assert!(!fits(&hard, None, &Vec::new(), 80, &modes));
    let literal = Doc::array(vec![text("a"), Doc::literal_line()]);
    assert!(!fits(&literal, None, &Vec::new(), 80, &modes));
    let forced = Doc::group_with_opts(text("a"), true, None);
    assert!(!fits(&forced, None, &Vec::new(), 80, &modes));
    let rest = vec![Cmd { indent: 0, mode: Mode::Flat, doc: &forced }];
    assert!(fits(&text("a"), None, &rest, 80, &modes));
}

#[test]
fn empty_document_is_empty_text() {
    assert_eq!(rendered(&Doc::concat(vec![]), 80), "");
    assert_eq!(rendered(&text(""), 0), "");
    assert_eq!(rendered(&Doc::group(Doc::array(vec![])), 0), "");
}

#[test]
fn text_wider_than_the_width_is_written_all_the_same() {
    let doc = Doc::group(Doc::array(vec![text("abcdefgh"), Doc::line(), text("i")]));
    assert_eq!(rendered(&doc, 3), "abcdefgh\ni");
    let adjacent = Doc::concat(vec![text("abc"), text("def")]);
    assert_eq!(rendered(&adjacent, 4), "abcdef");
}

#[test]
fn rendering_leaves_the_document_as_it_is() {
    let doc = Doc::group(Doc::array(vec![text("a"), Doc::hardline(), text("b")]));
    let before = doc.deep_clone();
    assert_eq!(rendered(&doc, 80), "a\nb");
    assert_eq!(doc, before);
}

#[test]
fn characters_become_a_string() {
    assert_eq!(string_of(&vec![]), "");
    assert_eq!(string_of(&vec!['a', 'é', '\n', '日']), "aé\n日");
}

#[test]
fn group_that_fits_a_width_fits_every_greater_width() {
    let doc = Doc::concat(vec![list(&["alpha", "beta"]), text(";")]);
    let flat = "[alpha, beta];";
    let narrowest = (0..40).find(|width| rendered(&doc, *width) == flat).unwrap();
    assert_eq!(narrowest, flat.len());
    for width in narrowest..60 {
        assert_eq!(rendered(&doc, width), flat);
    }
}
