use std::borrow::Cow;

use doc_printer::doc::Doc;
use doc_printer::number::{format_number_token, format_trimmed_number, NumberFormatOptions};
use doc_printer::render::render;

fn canonical(text: &str, keep_zero: bool) -> String {
    let options = if keep_zero {
        NumberFormatOptions::default().keep_one_trailing_decimal_zero()
    } else {
        NumberFormatOptions::default()
    };
    format_trimmed_number(text, options).into_owned()
}

#[test]
fn trailing_zeros_of_a_fraction_are_dropped() {
    assert_eq!(canonical("1.50000", false), "1.5");
    assert_eq!(canonical("1.50000", true), "1.5");
    assert_eq!(canonical("0.120", false), "0.12");
}

#[test]
fn fraction_of_zeros_is_dropped() {
    assert_eq!(canonical("1.00000", false), "1");
    assert_eq!(canonical("1.0", false), "1");
    assert_eq!(canonical("1.", false), "1");
}

#[test]
fn fraction_of_zeros_keeps_one_zero_on_request() {
    assert_eq!(canonical("1.00000", true), "1.0");
    assert_eq!(canonical("1.0", true), "1.0");
    assert_eq!(canonical("1.", true), "1");
}

#[test]
fn leading_point_gets_a_zero() {
    assert_eq!(canonical(".5", false), "0.5");
    assert_eq!(canonical("-.5", false), "-0.5");
    assert_eq!(canonical("+.5", false), "+0.5");
    assert_eq!(canonical(".50", true), "0.5");
    assert_eq!(canonical(".0", true), "0.0");
    assert_eq!(canonical(".0", false), "0");
}

#[test]
fn exponent_loses_plus_and_leading_zeros() {
    assert_eq!(canonical("1e+05", false), "1e5");
    assert_eq!(canonical("1e+5", false), "1e5");
    assert_eq!(canonical("1e05", false), "1e5");
    assert_eq!(canonical("1e-05", false), "1e-5");
    assert_eq!(canonical("1e-5", false), "1e-5");
    assert_eq!(canonical("1e10", false), "1e10");
}

#[test]
fn exponent_of_zero_is_dropped() {
    assert_eq!(canonical("1e00", false), "1");
    assert_eq!(canonical("1e0", false), "1");
    assert_eq!(canonical("1e-0", false), "1");
    assert_eq!(canonical("1e+000", false), "1");
    assert_eq!(canonical("1.5e0", true), "1.5");
}

#[test]
fn fraction_and_exponent_are_both_rewritten() {
    assert_eq!(canonical("1.50e+05", false), "1.5e5");
    assert_eq!(canonical("1.0e5", false), "1e5");
    assert_eq!(canonical("1.0e5", true), "1.0e5");
    assert_eq!(canonical("1.e5", true), "1e5");
    assert_eq!(canonical("2.500e00", false), "2.5");
}

#[test]
fn letters_are_lowered() {
    assert_eq!(canonical("1E5", false), "1e5");
    assert_eq!(canonical("1E+05", false), "1e5");
    assert_eq!(canonical("-2.50E-03", false), "-2.5e-3");
}

#[test]
fn text_that_is_no_decimal_literal_is_unchanged() {
    let texts = [
        "", ".", "-", "+", "e", "e5", "1e", "1e+", "1e-", ".e0", "abc", "1..2", "1.0.0", ".a",
        "1.a", "1.0a", "1e_5", "1e+05x", "1_000.0", "10N", "10n", "0B101.0", "1.0e5.0", "1e5e5",
        "1.0 ", " 1.0", "--1.0", "1.0-", "1e+-5", "1.0é", "１.０",
    ];
    for text in texts {
        for keep in [false, true] {
            assert_eq!(canonical(text, keep), text);
            let options = if keep {
                NumberFormatOptions::default().keep_one_trailing_decimal_zero()
            } else {
                NumberFormatOptions::default()
            };
            assert!(matches!(format_trimmed_number(text, options), Cow::Borrowed(_)));
        }
    }
}

fn digits(text: &str, zero: bool) -> String {
    text.chars().filter(|c| if zero { *c == '0' } else { ('1'..='9').contains(c) }).collect()
}

#[test]
fn no_digit_is_made_up() {
    let texts = [
        "1.50000", "1.00000", ".5", "1e+05", "1e00", "0xFF", ".a", "1.a", "1e_5", "e", "1.0.0",
        "007.0070e-0070", "-.0e+0", "120.0340e+0560", ".0", "0.", "1E5", "abc", "",
    ];
    for text in texts {
        for keep in [false, true] {
            let out = canonical(text, keep);
            assert_eq!(digits(&out, false), digits(&text.to_ascii_lowercase(), false));
            assert!(digits(&out, true).len() <= digits(text, true).len() + 1);
        }
    }
}

#[test]
fn hexadecimal_literal_is_unchanged() {
    assert_eq!(canonical("0xFF", false), "0xFF");
    assert_eq!(canonical("0xFF", true), "0xFF");
    assert_eq!(canonical("0XAB.0e+05", false), "0XAB.0e+05");
    assert_eq!(canonical("0x1.0", true), "0x1.0");
}

#[test]
fn canonical_literal_is_handed_back_borrowed() {
    let options = NumberFormatOptions::default();
    assert!(matches!(format_trimmed_number("123", options), Cow::Borrowed("123")));
    assert!(matches!(format_trimmed_number("1.5", options), Cow::Borrowed("1.5")));
    assert!(matches!(format_trimmed_number("0xFF", options), Cow::Borrowed("0xFF")));
    assert!(matches!(format_trimmed_number("", options), Cow::Borrowed("")));
}

#[test]
fn rewritten_literal_is_a_new_string() {
    let options = NumberFormatOptions::default();
    assert!(matches!(format_trimmed_number("1.50", options), Cow::Owned(_)));
    assert!(matches!(format_trimmed_number("1E5", options), Cow::Owned(_)));
    let keep = options.keep_one_trailing_decimal_zero();
    let same = format_trimmed_number("1.0", keep);
    assert!(matches!(same, Cow::Owned(_)));
    assert_eq!(same, "1.0");
}

#[test]
fn canonical_form_is_stable() {
    for text in ["1.50000", "1.00000", ".5", "1e+05", "1e00", "0xFF", "1.50e-007", "42"] {
        for keep in [false, true] {
            let once = canonical(text, keep);
            assert_eq!(canonical(&once, keep), once);
        }
    }
}

#[test]
fn number_token_becomes_one_text() {
    let cleaned = format_number_token("1.50000", NumberFormatOptions::default());
    assert_eq!(cleaned.text(), "1.5");
    assert_eq!(render(&cleaned.to_doc(), 80), Ok("1.5".to_string()));
    assert_eq!(cleaned.to_doc().deep_clone(), Doc::text("1.5"));
}

#[test]
fn plain_literals_are_stable_in_every_part() {
    let literals = [
        "", "0", "-", "+1", "-.5e+05", ".e0", "1.", "1.e-0", "007.0070e-0070", "1E+5", "1.0E0",
        "12.3400e+0056", "-0.0", "10n", "1_000.50", "1e", "e5", ".",
    ];
    for text in literals {
        for keep in [false, true] {
            let once = canonical(text, keep);
            assert_eq!(canonical(&once, keep), once, "{text:?} with keep = {keep}");
        }
    }
}

#[test]
fn every_text_is_stable() {
    let texts = [".a", "1.a", "1.0.0", "e", "1e_5", "1..2", "1.0e+05", "0XFF", "1.0E0", "."];
    for text in texts {
        for keep in [false, true] {
            let once = canonical(text, keep);
            assert_eq!(canonical(&once, keep), once);
        }
    }
}
