//! The canonical form of a numeric literal.

use vstd::prelude::*;
use std::borrow::Cow;
use crate::digits::{lemma_no_digit_made_up, non_zero_digits, zeros};
use crate::doc::{Doc, DocView};
use crate::render::string_of;

verus! {

broadcast use vstd::string::group_string_axioms;

/// How numeric literals are written.
#[derive(Debug, Clone, Copy)]
pub struct NumberFormatOptions {
    /// Whether a fraction of nothing but zeros is written as `.0`, and not
    /// dropped.
    keep_one_trailing_decimal_zero: bool,
}

impl NumberFormatOptions {
    /// Whether a fraction of nothing but zeros is written as `.0`.
    pub closed spec fn keeps_one_trailing_decimal_zero(self) -> bool {
        self.keep_one_trailing_decimal_zero
    }

    /// These options, but with one zero kept of a fraction that is all
    /// zeros.
    pub fn keep_one_trailing_decimal_zero(self) -> (options: Self)
        ensures
            options.keeps_one_trailing_decimal_zero(),
    {
        Self { keep_one_trailing_decimal_zero: true }
    }
}

impl Default for NumberFormatOptions {
    fn default() -> (options: Self)
        ensures
            !options.keeps_one_trailing_decimal_zero(),
    {
        Self { keep_one_trailing_decimal_zero: false }
    }
}

/// The lower-case form of an upper-case letter of the basic alphabet, and
/// any other character as it is.
pub open spec fn ascii_lower(c: char) -> char {
    if 'A' <= c && c <= 'Z' {
        ((c as u8) + 32) as char
    } else {
        c
    }
}

/// `text` with its letters in lower case.
pub open spec fn lowered(text: Seq<char>) -> Seq<char> {
    Seq::new(text.len(), |i: int| ascii_lower(text[i]))
}

/// A digit other than `0`.
pub open spec fn is_non_zero_digit(c: char) -> bool {
    '1' <= c && c <= '9'
}

/// A digit.
pub open spec fn is_digit(c: char) -> bool {
    '0' <= c && c <= '9'
}

/// The part of a literal that the scan is in, with the offsets that it has
/// noted there.
pub enum Phase {
    /// Before any decimal point or exponent.
    Integer,
    /// Behind the decimal point at `dot`; `last_non_zero` is the last digit
    /// other than `0` since.
    Decimal { dot: int, last_non_zero: Option<int> },
    /// Behind the `e` at `e`; `negative` says whether a `-` was seen since,
    /// `first_digit` and `first_non_zero` are the first digit and the first
    /// digit other than `0` since.
    Exponent { e: int, negative: bool, first_digit: Option<int>, first_non_zero: Option<int> },
}

/// The phase behind the character `c` at the offset `at`.
pub open spec fn next_phase(phase: Phase, c: char, at: int) -> Phase {
    if c == '.' {
        Phase::Decimal { dot: at, last_non_zero: None }
    } else if phase is Decimal && is_non_zero_digit(c) {
        Phase::Decimal { dot: phase->dot, last_non_zero: Some(at) }
    } else if c == 'e' {
        Phase::Exponent { e: at, negative: false, first_digit: None, first_non_zero: None }
    } else if phase is Exponent && c == '-' {
        Phase::Exponent {
            e: phase->e,
            negative: true,
            first_digit: phase->first_digit,
            first_non_zero: phase->first_non_zero,
        }
    } else if phase is Exponent && phase->first_digit is None && is_digit(c) {
        Phase::Exponent {
            e: phase->e,
            negative: phase->negative,
            first_digit: Some(at),
            first_non_zero: if c != '0' {
                Some(at)
            } else {
                None
            },
        }
    } else if phase is Exponent && phase->first_non_zero is None && is_non_zero_digit(c) {
        Phase::Exponent {
            e: phase->e,
            negative: phase->negative,
            first_digit: phase->first_digit,
            first_non_zero: Some(at),
        }
    } else {
        phase
    }
}

/// What is written when a fraction ends at `at`, where an `e` stands or the
/// text ends, if the fraction is not kept as it is. `copied` is the offset
/// up to which the text has been dealt with.
///
/// A fraction without a digit other than `0` is dropped with its point;
/// but if `keep` is set and a digit stands behind the point, the point and
/// one `0` are kept. Of a fraction that ends in zeros after another digit,
/// the zeros are dropped.
pub open spec fn fraction_end(text: Seq<char>, phase: Phase, at: int, copied: int, keep: bool) -> Option<
    Seq<char>,
> {
    match phase {
        Phase::Decimal { dot, last_non_zero: None } => Some(
            if at > dot + 1 && is_digit(text[dot + 1]) && keep {
                text.subrange(copied, dot + 1).push('0')
            } else {
                text.subrange(copied, dot)
            },
        ),
        Phase::Decimal { dot, last_non_zero: Some(last) } => if last < at - 1 {
            Some(text.subrange(copied, last + 1))
        } else {
            None
        },
        _ => None,
    }
}

/// What is written when the text ends in an exponent, if the exponent is
/// not kept as it is.
///
/// An exponent without a digit other than `0` is dropped. One in which a
/// `+` stands behind the `e`, or whose digits start with zeros, is written
/// as `e`, a `-` if it is negative, and its digits from the first other
/// than `0` on.
pub open spec fn exponent_end(text: Seq<char>, phase: Phase, copied: int) -> Option<Seq<char>> {
    match phase {
        Phase::Exponent { e, first_non_zero: None, .. } => Some(text.subrange(copied, e)),
        Phase::Exponent {
            e,
            negative,
            first_digit: Some(first_digit),
            first_non_zero: Some(first_non_zero),
        } => if text[e + 1] == '+' || first_non_zero > first_digit {
            Some(
                text.subrange(copied, e + 1) + (if negative {
                    seq!['-']
                } else {
                    seq![]
                }) + text.subrange(first_non_zero, text.len() as int),
            )
        } else {
            None
        },
        _ => None,
    }
}

/// What a scan gives: the text, and whether anything was rewritten.
pub struct Rewrite {
    pub fired: bool,
    pub text: Seq<char>,
}

/// What the scan writes from the offset `at` on, in the phase `phase`.
pub open spec fn scan(text: Seq<char>, at: int, phase: Phase, copied: int, keep: bool) -> Rewrite
    decreases text.len() - at,
{
    if at >= text.len() {
        match fraction_end(text, phase, text.len() as int, copied, keep) {
            Some(written) => Rewrite { fired: true, text: written },
            None => match exponent_end(text, phase, copied) {
                Some(written) => Rewrite { fired: true, text: written },
                None => Rewrite { fired: false, text: text.subrange(copied, text.len() as int) },
            },
        }
    } else {
        let next = next_phase(phase, text[at], at);
        let fraction = if text[at] == 'e' {
            fraction_end(text, phase, at, copied, keep)
        } else {
            None
        };
        match fraction {
            Some(written) => Rewrite {
                fired: true,
                text: written + scan(text, at + 1, next, at, keep).text,
            },
            None => scan(text, at + 1, next, copied, keep),
        }
    }
}

/// The offset behind the sign, if `text` starts with one.
pub open spec fn behind_sign(text: Seq<char>) -> int {
    if text.len() > 0 && (text[0] == '+' || text[0] == '-') {
        1
    } else {
        0
    }
}

/// The rewriting of a lower-case literal: a `0` is put before a decimal
/// point that nothing but a sign precedes, then the text is scanned.
pub open spec fn rewritten(text: Seq<char>, keep: bool) -> Rewrite {
    let first = behind_sign(text);
    if first < text.len() && text[first] == '.' {
        Rewrite {
            fired: true,
            text: text.subrange(0, first).push('0') + scan(text, first, Phase::Integer, first, keep).text,
        }
    } else {
        scan(text, first, Phase::Integer, 0, keep)
    }
}

/// Whether `text`, in lower case, holds the marker `x` of a hexadecimal
/// literal.
pub open spec fn has_hex_marker(text: Seq<char>) -> bool {
    exists|i: int| 0 <= i < text.len() && ascii_lower(#[trigger] text[i]) == 'x'
}

/// A `+` or a `-`.
pub open spec fn is_sign(c: char) -> bool {
    c == '+' || c == '-'
}

/// The first offset at or after `from` at which no digit stands, or the
/// length of the text.
pub open spec fn skip_digits(text: Seq<char>, from: int) -> int
    decreases text.len() - from,
{
    if 0 <= from < text.len() && is_digit(text[from]) {
        skip_digits(text, from + 1)
    } else {
        from
    }
}

/// The offset at which the integer part of `text` ends.
pub open spec fn integer_end(text: Seq<char>) -> int {
    skip_digits(text, behind_sign(text))
}

/// Whether a decimal point stands behind the integer part.
pub open spec fn has_point(text: Seq<char>) -> bool {
    integer_end(text) < text.len() && text[integer_end(text)] == '.'
}

/// The offset at which the mantissa of `text` ends: behind the integer
/// part, and behind the point and the digits of the fraction if there is a
/// point.
pub open spec fn mantissa_end(text: Seq<char>) -> int {
    if has_point(text) {
        skip_digits(text, integer_end(text) + 1)
    } else {
        integer_end(text)
    }
}

/// Whether an `e` stands behind the mantissa.
pub open spec fn has_exponent(text: Seq<char>) -> bool {
    mantissa_end(text) < text.len() && text[mantissa_end(text)] == 'e'
}

/// The offset at which the digits of the exponent start: behind the `e` and
/// the sign that may follow it.
pub open spec fn exponent_digits(text: Seq<char>) -> int {
    let e = mantissa_end(text);
    if e + 1 < text.len() && is_sign(text[e + 1]) {
        e + 2
    } else {
        e + 1
    }
}

/// Whether `text`, in lower case, is a decimal literal: a sign or none;
/// digits, a point between them or before or behind them or none, with at
/// least one digit in all; and then an exponent or none, which is an `e`, a
/// sign or none, and at least one digit. Nothing else may stand in it.
pub open spec fn is_decimal_literal(text: Seq<char>) -> bool {
    let digits = if has_point(text) {
        mantissa_end(text) - behind_sign(text) - 1
    } else {
        mantissa_end(text) - behind_sign(text)
    };
    &&& digits >= 1
    &&& if has_exponent(text) {
        exponent_digits(text) < text.len() && skip_digits(text, exponent_digits(text)) == text.len()
    } else {
        mantissa_end(text) == text.len()
    }
}

/// Whether `text` is rewritten at all: it holds no hexadecimal marker, and
/// its lower-case form is a decimal literal. Any other text is left as it
/// is.
pub open spec fn is_rewritable(text: Seq<char>) -> bool {
    !has_hex_marker(text) && is_decimal_literal(lowered(text))
}

/// The canonical form of the numeric literal `text`: its lower-case form
/// rewritten if it is a decimal literal; `text` itself if it holds a
/// hexadecimal marker or is no decimal literal.
pub open spec fn canonical_number(text: Seq<char>, keep: bool) -> Seq<char> {
    if is_rewritable(text) {
        rewritten(lowered(text), keep).text
    } else {
        text
    }
}

/// Whether the canonical form is `text` itself, handed back as it came:
/// the text is not rewritten at all, or no rule fires and no letter is
/// lowered.
pub open spec fn kept_as_is(text: Seq<char>, keep: bool) -> bool {
    !is_rewritable(text) || (!rewritten(lowered(text), keep).fired && lowered(text) == text)
}

/// A text that is no decimal literal is its own canonical form: no digit is
/// made up for it.
pub proof fn lemma_malformed_unchanged(text: Seq<char>, keep: bool)
    requires
        !is_decimal_literal(lowered(text)),
    ensures
        canonical_number(text, keep) == text,
{
}

/// Where no rule fires, the scan writes the text as it is.
pub proof fn lemma_scan_unfired(text: Seq<char>, at: int, phase: Phase, copied: int, keep: bool)
    requires
        0 <= copied <= at,
        !scan(text, at, phase, copied, keep).fired,
    ensures
        scan(text, at, phase, copied, keep).text == text.subrange(copied, text.len() as int),
    decreases text.len() - at,
{
    if at < text.len() {
        lemma_scan_unfired(text, at + 1, next_phase(phase, text[at], at), copied, keep);
    }
}

/// Where no rule fires, the rewriting is the text itself.
pub proof fn lemma_rewritten_unfired(text: Seq<char>, keep: bool)
    requires
        !rewritten(text, keep).fired,
    ensures
        rewritten(text, keep).text == text,
{
    lemma_scan_unfired(text, behind_sign(text), Phase::Integer, 0, keep);
    assert(text.subrange(0, text.len() as int) =~= text);
}

/// A text with a hexadecimal marker is its own canonical form.
pub proof fn lemma_hex_unchanged(text: Seq<char>, keep: bool)
    requires
        has_hex_marker(text),
    ensures
        canonical_number(text, keep) == text,
{
}

/// The phase of a running scan, with offsets that fit the machine.
#[derive(Clone, Copy)]
enum ScanPhase {
    Integer,
    Decimal { dot: usize, last_non_zero: Option<usize> },
    Exponent { e: usize, negative: bool, first_digit: Option<usize>, first_non_zero: Option<usize> },
}

spec fn offset(at: Option<usize>) -> Option<int> {
    match at {
        Some(at) => Some(at as int),
        None => None,
    }
}

impl View for ScanPhase {
    type V = Phase;

    closed spec fn view(&self) -> Phase {
        match *self {
            ScanPhase::Integer => Phase::Integer,
            ScanPhase::Decimal { dot, last_non_zero } => Phase::Decimal {
                dot: dot as int,
                last_non_zero: offset(last_non_zero),
            },
            ScanPhase::Exponent { e, negative, first_digit, first_non_zero } => Phase::Exponent {
                e: e as int,
                negative,
                first_digit: offset(first_digit),
                first_non_zero: offset(first_non_zero),
            },
        }
    }
}

/// The offsets of a phase lie in the part of the text that has been
/// scanned, behind what has been dealt with.
pub open spec fn phase_within(phase: Phase, at: int, copied: int) -> bool {
    match phase {
        Phase::Integer => true,
        Phase::Decimal { dot, last_non_zero } => copied <= dot < at && (last_non_zero matches Some(
            last,
        ) ==> dot < last < at),
        Phase::Exponent { e, negative, first_digit, first_non_zero } => {
            &&& copied <= e < at
            &&& first_digit matches Some(first) ==> e < first < at
            &&& first_non_zero matches Some(first) ==> first < at && first_digit is Some
                && first_digit->0 <= first
        },
    }
}

fn step(phase: ScanPhase, c: char, at: usize) -> (next: ScanPhase)
    ensures
        next@ == next_phase(phase@, c, at as int),
{
    if c == '.' {
        return ScanPhase::Decimal { dot: at, last_non_zero: None };
    }
    match phase {
        ScanPhase::Integer => {
            if c == 'e' {
                ScanPhase::Exponent { e: at, negative: false, first_digit: None, first_non_zero: None }
            } else {
                phase
            }
        },
        ScanPhase::Decimal { dot, last_non_zero } => {
            if '1' <= c && c <= '9' {
                ScanPhase::Decimal { dot, last_non_zero: Some(at) }
            } else if c == 'e' {
                ScanPhase::Exponent { e: at, negative: false, first_digit: None, first_non_zero: None }
            } else {
                phase
            }
        },
        ScanPhase::Exponent { e, negative, first_digit, first_non_zero } => {
            if c == 'e' {
                ScanPhase::Exponent { e: at, negative: false, first_digit: None, first_non_zero: None }
            } else if c == '-' {
                ScanPhase::Exponent { e, negative: true, first_digit, first_non_zero }
            } else if first_digit.is_none() && '0' <= c && c <= '9' {
                ScanPhase::Exponent {
                    e,
                    negative,
                    first_digit: Some(at),
                    first_non_zero: if c != '0' {
                        Some(at)
                    } else {
                        None
                    },
                }
            } else if first_non_zero.is_none() && '1' <= c && c <= '9' {
                ScanPhase::Exponent { e, negative, first_digit, first_non_zero: Some(at) }
            } else {
                phase
            }
        },
    }
}

fn is_digit_char(c: char) -> (digit: bool)
    ensures
        digit == is_digit(c),
{
    '0' <= c && c <= '9'
}

/// The first offset at or after `from` at which no digit stands.
fn skip_digit_run(text: &Vec<char>, from: usize) -> (end: usize)
    requires
        from <= text@.len(),
    ensures
        end == skip_digits(text@, from as int),
        from <= end <= text@.len(),
{
    let mut at = from;
    while at < text.len() && is_digit_char(text[at])
        invariant
            from <= at <= text@.len(),
            skip_digits(text@, from as int) == skip_digits(text@, at as int),
        decreases text@.len() - at,
    {
        at += 1;
    }
    at
}

/// Whether the lower-case text `text` is a decimal literal.
fn is_decimal(text: &Vec<char>) -> (decimal: bool)
    ensures
        decimal == is_decimal_literal(text@),
{
    let len = text.len();
    let first: usize = if len > 0 && (text[0] == '+' || text[0] == '-') {
        1
    } else {
        0
    };
    let integer_end = skip_digit_run(text, first);
    let point = integer_end < len && text[integer_end] == '.';
    let mantissa_end = if point {
        skip_digit_run(text, integer_end + 1)
    } else {
        integer_end
    };
    let digits = if point {
        mantissa_end - first - 1
    } else {
        mantissa_end - first
    };
    if digits < 1 {
        return false;
    }
    if mantissa_end < len && text[mantissa_end] == 'e' {
        let start = if mantissa_end + 1 < len && (text[mantissa_end + 1] == '+' || text[mantissa_end
            + 1] == '-') {
            mantissa_end + 2
        } else {
            mantissa_end + 1
        };
        start < len && skip_digit_run(text, start) == len
    } else {
        mantissa_end == len
    }
}

/// Puts the characters of `text` from `from` up to `to` at the end of
/// `out`.
fn push_range(out: &mut Vec<char>, text: &Vec<char>, from: usize, to: usize)
    requires
        from <= to <= text@.len(),
    ensures
        final(out)@ == old(out)@ + text@.subrange(from as int, to as int),
{
    let mut i: usize = from;
    assert(out@ =~= old(out)@ + text@.subrange(from as int, i as int));
    while i < to
        invariant
            from <= i <= to <= text@.len(),
            out@ == old(out)@ + text@.subrange(from as int, i as int),
        decreases to - i,
    {
        out.push(text[i]);
        i += 1;
        assert(out@ =~= old(out)@ + text@.subrange(from as int, i as int));
    }
}

/// Writes what `fraction_end` says, if it says anything.
fn end_fraction(
    text: &Vec<char>,
    phase: ScanPhase,
    at: usize,
    copied: usize,
    keep: bool,
    out: &mut Vec<char>,
) -> (fired: bool)
    requires
        at <= text@.len(),
        copied <= at,
        phase_within(phase@, at as int, copied as int),
    ensures
        match fraction_end(text@, phase@, at as int, copied as int, keep) {
            Some(written) => fired && final(out)@ == old(out)@ + written,
            None => !fired && final(out)@ == old(out)@,
        },
{
    match phase {
        ScanPhase::Decimal { dot, last_non_zero: None } => {
            if at > dot + 1 && is_digit_char(text[dot + 1]) && keep {
                push_range(out, text, copied, dot + 1);
                out.push('0');
                assert(out@ =~= old(out)@ + text@.subrange(copied as int, dot + 1).push('0'));
            } else {
                push_range(out, text, copied, dot);
            }
            true
        },
        ScanPhase::Decimal { dot, last_non_zero: Some(last) } => {
            if last < at - 1 {
                push_range(out, text, copied, last + 1);
                true
            } else {
                false
            }
        },
        _ => false,
    }
}

/// Writes what `exponent_end` says, if it says anything.
fn end_exponent(text: &Vec<char>, phase: ScanPhase, copied: usize, out: &mut Vec<char>) -> (fired:
    bool)
    requires
        copied <= text@.len(),
        phase_within(phase@, text@.len() as int, copied as int),
    ensures
        match exponent_end(text@, phase@, copied as int) {
            Some(written) => fired && final(out)@ == old(out)@ + written,
            None => !fired && final(out)@ == old(out)@,
        },
{
    match phase {
        ScanPhase::Exponent { e, negative, first_digit, first_non_zero: None } => {
            push_range(out, text, copied, e);
            true
        },
        ScanPhase::Exponent {
            e,
            negative,
            first_digit: Some(first_digit),
            first_non_zero: Some(first_non_zero),
        } => {
            if text[e + 1] == '+' || first_non_zero > first_digit {
                push_range(out, text, copied, e + 1);
                if negative {
                    out.push('-');
                }
                let ghost middle = out@;
                push_range(out, text, first_non_zero, text.len());
                assert(out@ =~= old(out)@ + (text@.subrange(copied as int, e + 1) + (if negative {
                    seq!['-']
                } else {
                    seq![]
                }) + text@.subrange(first_non_zero as int, text@.len() as int)));
                true
            } else {
                false
            }
        },
        _ => false,
    }
}

/// Some letter of `text` is in upper case.
pub open spec fn has_upper_case(text: Seq<char>) -> bool {
    exists|i: int| 0 <= i < text.len() && ascii_lower(#[trigger] text[i]) != text[i]
}

/// A text is its own lower-case form unless one of its letters is in upper
/// case.
pub proof fn lemma_lowered_same(text: Seq<char>)
    ensures
        (lowered(text) == text) <==> !has_upper_case(text),
{
    if has_upper_case(text) {
        let i = choose|i: int| 0 <= i < text.len() && ascii_lower(#[trigger] text[i]) != text[i];
        assert(lowered(text)[i] != text[i]);
    } else {
        assert(lowered(text) =~= text);
    }
}

/// What is known of a literal after its letters were lowered.
struct Lowered {
    chars: Vec<char>,
    has_hex: bool,
    changed: bool,
}

/// The lower-case form of `text`, with what the scan has to know of it.
fn lower_case(text: &str) -> (lower: Lowered)
    ensures
        lower.chars@ == lowered(text@),
        lower.has_hex == has_hex_marker(text@),
        lower.changed == has_upper_case(text@),
{
    let mut chars: Vec<char> = Vec::new();
    let mut has_hex = false;
    let mut changed = false;
    assert(chars@ =~= lowered(text@.take(0)));
    for c in it: text.chars()
        invariant
            it.seq() == text@,
            chars@ == lowered(text@.take(it.index() as int)),
            has_hex == has_hex_marker(text@.take(it.index() as int)),
            changed == has_upper_case(text@.take(it.index() as int)),
    {
        let ghost seen = text@.take(it.index() as int);
        let ghost more = text@.take(it.index() + 1);
        let low = if 'A' <= c && c <= 'Z' {
            ((c as u8) + 32) as char
        } else {
            c
        };
        chars.push(low);
        proof {
            assert(more =~= seen.push(c));
            assert(chars@ =~= lowered(more));
            if has_hex {
                let i = choose|i: int| 0 <= i < seen.len() && ascii_lower(#[trigger] seen[i]) == 'x';
                assert(ascii_lower(more[i]) == 'x');
            }
            if low == 'x' {
                assert(ascii_lower(more[seen.len() as int]) == 'x');
            }
            if has_hex_marker(more) {
                let i = choose|i: int| 0 <= i < more.len() && ascii_lower(#[trigger] more[i]) == 'x';
                if i < seen.len() {
                    assert(ascii_lower(seen[i]) == 'x');
                }
            }
            if changed {
                let i = choose|i: int|
                    0 <= i < seen.len() && ascii_lower(#[trigger] seen[i]) != seen[i];
                assert(ascii_lower(more[i]) != more[i]);
            }
            if low != c {
                assert(ascii_lower(more[seen.len() as int]) != more[seen.len() as int]);
            }
            if has_upper_case(more) {
                let i = choose|i: int|
                    0 <= i < more.len() && ascii_lower(#[trigger] more[i]) != more[i];
                if i < seen.len() {
                    assert(ascii_lower(seen[i]) != seen[i]);
                }
            }
        }
        if low == 'x' {
            has_hex = true;
        }
        if low != c {
            changed = true;
        }
    }
    assert(text@.take(text@.len() as int) =~= text@);
    Lowered { chars, has_hex, changed }
}

/// What a scan has written, and whether a rule fired.
struct Scanned {
    chars: Vec<char>,
    fired: bool,
}

/// Scans the lower-case literal `lower` from `first` on and writes behind
/// `out` what `scan` says.
fn scan_from(lower: &Vec<char>, first: usize, copied: usize, keep: bool, out: Vec<char>) -> (scanned:
    Scanned)
    requires
        copied <= first <= lower@.len(),
    ensures
        scanned.chars@ == out@ + scan(lower@, first as int, Phase::Integer, copied as int, keep).text,
        scanned.fired == scan(lower@, first as int, Phase::Integer, copied as int, keep).fired,
{
    let len = lower.len();
    let ghost prefix = out@;
    let ghost whole = scan(lower@, first as int, Phase::Integer, copied as int, keep);
    let mut out = out;
    let mut at = first;
    let mut copied = copied;
    let mut phase = ScanPhase::Integer;
    let mut fired = false;
    assert(out@.skip(prefix.len() as int) =~= Seq::<char>::empty());
    while at < len
        invariant
            len == lower@.len(),
            copied <= at <= len,
            phase_within(phase@, at as int, copied as int),
            prefix.len() <= out@.len(),
            out@.take(prefix.len() as int) == prefix,
            whole.text == out@.skip(prefix.len() as int) + scan(
                lower@,
                at as int,
                phase@,
                copied as int,
                keep,
            ).text,
            whole.fired == (fired || scan(lower@, at as int, phase@, copied as int, keep).fired),
        decreases len - at,
    {
        let c = lower[at];
        let ghost written_before = out@;
        if c == 'e' {
            if end_fraction(lower, phase, at, copied, keep, &mut out) {
                copied = at;
                fired = true;
            }
        }
        phase = step(phase, c, at);
        at += 1;
        proof {
            assert(out@.take(prefix.len() as int) =~= prefix);
            assert(out@.skip(prefix.len() as int) =~= written_before.skip(prefix.len() as int)
                + out@.skip(written_before.len() as int));
        }
    }
    let ghost written_before = out@;
    if end_fraction(lower, phase, len, copied, keep, &mut out) {
        fired = true;
    } else if end_exponent(lower, phase, copied, &mut out) {
        fired = true;
    } else {
        push_range(&mut out, lower, copied, len);
    }
    proof {
        assert(out@.skip(prefix.len() as int) =~= written_before.skip(prefix.len() as int)
            + out@.skip(written_before.len() as int));
        assert(out@ =~= prefix + out@.skip(prefix.len() as int));
    }
    Scanned { chars: out, fired }
}

/// Rewrites the lower-case literal `lower` as `rewritten` says.
fn rewrite(lower: &Vec<char>, keep: bool) -> (scanned: Scanned)
    ensures
        scanned.chars@ == rewritten(lower@, keep).text,
        scanned.fired == rewritten(lower@, keep).fired,
{
    let len = lower.len();
    let first: usize = if len > 0 && (lower[0] == '+' || lower[0] == '-') {
        1
    } else {
        0
    };
    let mut out: Vec<char> = Vec::new();
    if first < len && lower[first] == '.' {
        push_range(&mut out, lower, 0, first);
        out.push('0');
        assert(out@ =~= lower@.subrange(0, first as int).push('0'));
        let scanned = scan_from(lower, first, first, keep, out);
        Scanned { chars: scanned.chars, fired: true }
    } else {
        assert(out@ + scan(lower@, first as int, Phase::Integer, 0, keep).text =~= scan(
            lower@,
            first as int,
            Phase::Integer,
            0,
            keep,
        ).text);
        scan_from(lower, first, 0, keep, out)
    }
}

/// The canonical form of the numeric literal `text`.
///
/// The literal is handed back as it came where nothing is rewritten; else
/// the result is a new string. Whatever `text` is, the result holds its
/// digits other than `0`, in their order, and at most one `0` more.
pub fn format_trimmed_number<'a>(text: &'a str, options: NumberFormatOptions) -> (result: Cow<
    'a,
    str,
>)
    ensures
        result@ == canonical_number(text@, options.keeps_one_trailing_decimal_zero()),
        kept_as_is(text@, options.keeps_one_trailing_decimal_zero()) <==> result == Cow::<
            'a,
            str,
        >::Borrowed(text),
        non_zero_digits(result@) == non_zero_digits(text@),
        zeros(result@) <= zeros(text@) + 1,
{
    let keep = options.keep_one_trailing_decimal_zero;
    proof {
        lemma_no_digit_made_up(text@, keep);
    }
    let lower = lower_case(text);
    proof {
        lemma_lowered_same(text@);
    }
    if lower.has_hex || !is_decimal(&lower.chars) {
        return Cow::Borrowed(text);
    }
    let scanned = rewrite(&lower.chars, keep);
    if !scanned.fired && !lower.changed {
        proof {
            lemma_rewritten_unfired(lower.chars@, keep);
        }
        Cow::Borrowed(text)
    } else {
        Cow::Owned(string_of(&scanned.chars))
    }
}

/// A numeric literal that is written in its canonical form.
pub struct CleanedNumberLiteralText<'token> {
    token: &'token str,
    options: NumberFormatOptions,
}

impl<'token> CleanedNumberLiteralText<'token> {
    /// The literal as it was found.
    pub closed spec fn token(self) -> Seq<char> {
        self.token@
    }

    /// Whether one zero is kept of a fraction that is all zeros.
    pub closed spec fn keeps_zero(self) -> bool {
        self.options.keeps_one_trailing_decimal_zero()
    }

    /// The canonical form of the literal.
    pub fn text(&self) -> (text: Cow<'token, str>)
        ensures
            text@ == canonical_number(self.token(), self.keeps_zero()),
    {
        format_trimmed_number(self.token, self.options)
    }

    /// The document of the literal: its canonical form as one text.
    pub fn to_doc(&self) -> (doc: Doc)
        ensures
            doc@ == DocView::Text(canonical_number(self.token(), self.keeps_zero())),
    {
        match format_trimmed_number(self.token, self.options) {
            Cow::Borrowed(text) => Doc::text(text),
            Cow::Owned(text) => Doc::Text(text),
        }
    }
}

/// The numeric literal `token`, to be written in its canonical form as
/// `options` ask.
pub fn format_number_token<'token>(token: &'token str, options: NumberFormatOptions) -> (cleaned:
    CleanedNumberLiteralText<'token>)
    ensures
        cleaned.token() == token@,
        cleaned.keeps_zero() == options.keeps_one_trailing_decimal_zero(),
{
    CleanedNumberLiteralText { token, options }
}

} // verus!
