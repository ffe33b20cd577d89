//! The canonical form of a numeric literal is stable: canonical again, it
//! stays as it is.

use vstd::prelude::*;
use crate::number::{
    ascii_lower, behind_sign, canonical_number, exponent_digits, exponent_end, fraction_end,
    has_exponent, has_point, integer_end, is_decimal_literal, is_digit, is_non_zero_digit,
    is_rewritable, lowered, mantissa_end, next_phase, phase_within, rewritten, scan, skip_digits,
    Phase, Rewrite,
};

verus! {

/// The phase after the characters of `text` from `from` up to `to`.
pub open spec fn run_phase(text: Seq<char>, from: int, to: int, phase: Phase) -> Phase
    decreases to - from,
{
    if from >= to {
        phase
    } else {
        run_phase(text, from + 1, to, next_phase(phase, text[from], from))
    }
}

/// A run over a stretch is the run over its first part, and then over the
/// rest.
pub proof fn lemma_run_split(text: Seq<char>, from: int, mid: int, to: int, phase: Phase)
    requires
        from <= mid <= to,
    ensures
        run_phase(text, from, to, phase) == run_phase(
            text,
            mid,
            to,
            run_phase(text, from, mid, phase),
        ),
    decreases mid - from,
{
    if from < mid {
        lemma_run_split(text, from + 1, mid, to, next_phase(phase, text[from], from));
    }
}

/// A run depends on the characters of its stretch alone.
pub proof fn lemma_run_same(a: Seq<char>, b: Seq<char>, from: int, to: int, phase: Phase)
    requires
        forall|i: int| from <= i < to ==> a[i] == b[i],
    ensures
        run_phase(a, from, to, phase) == run_phase(b, from, to, phase),
    decreases to - from,
{
    if from < to {
        lemma_run_same(a, b, from + 1, to, next_phase(phase, a[from], from));
    }
}

/// `phase` with its offsets moved by `by`.
pub open spec fn shifted(phase: Phase, by: int) -> Phase {
    match phase {
        Phase::Integer => Phase::Integer,
        Phase::Decimal { dot, last_non_zero } => Phase::Decimal {
            dot: dot + by,
            last_non_zero: match last_non_zero {
                Some(last) => Some(last + by),
                None => None,
            },
        },
        Phase::Exponent { e, negative, first_digit, first_non_zero } => Phase::Exponent {
            e: e + by,
            negative,
            first_digit: match first_digit {
                Some(first) => Some(first + by),
                None => None,
            },
            first_non_zero: match first_non_zero {
                Some(first) => Some(first + by),
                None => None,
            },
        },
    }
}

/// A run over the same characters further on gives the same phase, further
/// on.
pub proof fn lemma_run_shifted(
    a: Seq<char>,
    b: Seq<char>,
    from: int,
    to: int,
    by: int,
    phase: Phase,
)
    requires
        forall|i: int| from <= i < to ==> a[i] == b[i + by],
    ensures
        run_phase(b, from + by, to + by, shifted(phase, by)) == shifted(
            run_phase(a, from, to, phase),
            by,
        ),
    decreases to - from,
{
    if from < to {
        assert(a[from] == b[from + by]);
        assert(next_phase(shifted(phase, by), b[from + by], from + by) == shifted(
            next_phase(phase, a[from], from),
            by,
        ));
        lemma_run_shifted(a, b, from + 1, to, by, next_phase(phase, a[from], from));
    }
}

/// One character more keeps the offsets of a phase within what was
/// scanned.
pub proof fn lemma_next_within(phase: Phase, c: char, at: int, copied: int)
    requires
        copied <= at,
        phase_within(phase, at, copied),
    ensures
        phase_within(next_phase(phase, c, at), at + 1, copied),
{
}

/// A run keeps the offsets of a phase within what was scanned.
pub proof fn lemma_run_within(text: Seq<char>, from: int, to: int, phase: Phase, copied: int)
    requires
        copied <= from <= to,
        phase_within(phase, from, copied),
    ensures
        phase_within(run_phase(text, from, to, phase), to, copied),
    decreases to - from,
{
    if from < to {
        lemma_next_within(phase, text[from], from, copied);
        lemma_run_within(text, from + 1, to, next_phase(phase, text[from], from), copied);
    }
}

/// Over a stretch without an `e` nothing is written: the scan goes on
/// behind it in the phase that the run gives.
pub proof fn lemma_scan_stretch(
    text: Seq<char>,
    from: int,
    to: int,
    phase: Phase,
    copied: int,
    keep: bool,
)
    requires
        0 <= from <= to <= text.len(),
        forall|i: int| from <= i < to ==> text[i] != 'e',
    ensures
        scan(text, from, phase, copied, keep) == scan(
            text,
            to,
            run_phase(text, from, to, phase),
            copied,
            keep,
        ),
    decreases to - from,
{
    if from < to {
        lemma_scan_stretch(text, from + 1, to, next_phase(phase, text[from], from), copied, keep);
    }
}

/// Over a stretch without a `.` and without an `e` the integer part goes
/// on.
pub proof fn lemma_run_integer(text: Seq<char>, from: int, to: int)
    requires
        forall|i: int| from <= i < to ==> text[i] != '.' && text[i] != 'e',
    ensures
        run_phase(text, from, to, Phase::Integer) == Phase::Integer,
    decreases to - from,
{
    if from < to {
        lemma_run_integer(text, from + 1, to);
    }
}

/// Over a stretch without an `e`, a scan that is not in an exponent does
/// not get into one.
pub proof fn lemma_run_no_exponent(text: Seq<char>, from: int, to: int, phase: Phase)
    requires
        forall|i: int| from <= i < to ==> text[i] != 'e',
        !(phase is Exponent),
    ensures
        !(run_phase(text, from, to, phase) is Exponent),
    decreases to - from,
{
    if from < to {
        lemma_run_no_exponent(text, from + 1, to, next_phase(phase, text[from], from));
    }
}

/// What a scan behind the decimal point at `dot` knows at `at`: the last
/// digit other than `0` since the point, if there is one.
pub open spec fn decimal_facts(text: Seq<char>, dot: int, at: int, phase: Phase) -> bool {
    &&& phase is Decimal
    &&& phase->dot == dot
    &&& match phase->last_non_zero {
        Some(last) => dot < last < at && is_non_zero_digit(text[last]) && forall|j: int|
            last < j < at ==> !is_non_zero_digit(#[trigger] text[j]),
        None => forall|j: int| dot < j < at ==> !is_non_zero_digit(#[trigger] text[j]),
    }
}

/// Over a stretch without a `.` and without an `e`, a scan behind a decimal
/// point keeps knowing the last digit other than `0`.
pub proof fn lemma_run_decimal(text: Seq<char>, dot: int, from: int, to: int, phase: Phase)
    requires
        dot < from <= to,
        decimal_facts(text, dot, from, phase),
        forall|i: int| from <= i < to ==> text[i] != '.' && text[i] != 'e',
    ensures
        decimal_facts(text, dot, to, run_phase(text, from, to, phase)),
    decreases to - from,
{
    if from < to {
        let next = next_phase(phase, text[from], from);
        assert(decimal_facts(text, dot, from + 1, next));
        lemma_run_decimal(text, dot, from + 1, to, next);
    }
}

/// What a scan behind the `e` at `e` knows at `at`: whether a `-` stands in
/// between, and the first digit and the first digit other than `0` there,
/// if there are such.
pub open spec fn exponent_facts(text: Seq<char>, e: int, at: int, phase: Phase) -> bool {
    &&& phase is Exponent
    &&& phase->e == e
    &&& phase->negative == exists|j: int| e < j < at && #[trigger] text[j] == '-'
    &&& match phase->first_digit {
        Some(first) => e < first < at && is_digit(text[first]) && forall|j: int|
            e < j < first ==> !is_digit(#[trigger] text[j]),
        None => forall|j: int| e < j < at ==> !is_digit(#[trigger] text[j]),
    }
    &&& match phase->first_non_zero {
        Some(first) => e < first < at && is_non_zero_digit(text[first]) && forall|j: int|
            e < j < first ==> !is_non_zero_digit(#[trigger] text[j]),
        None => forall|j: int| e < j < at ==> !is_non_zero_digit(#[trigger] text[j]),
    }
}

/// Over a stretch without a `.` and without an `e`, a scan behind an `e`
/// keeps knowing the sign and the first digits.
pub proof fn lemma_run_exponent(text: Seq<char>, e: int, from: int, to: int, phase: Phase)
    requires
        e < from <= to,
        exponent_facts(text, e, from, phase),
        forall|i: int| from <= i < to ==> text[i] != '.' && text[i] != 'e',
    ensures
        exponent_facts(text, e, to, run_phase(text, from, to, phase)),
    decreases to - from,
{
    if from < to {
        let c = text[from];
        let next = next_phase(phase, c, from);
        assert(next is Exponent && next->e == e);
        assert(next->negative == exists|j: int| e < j < from + 1 && #[trigger] text[j] == '-') by {
            if phase->negative {
                let j = choose|j: int| e < j < from && #[trigger] text[j] == '-';
                assert(e < j < from + 1 && text[j] == '-');
            }
            if c == '-' {
                assert(e < from < from + 1 && text[from] == '-');
            }
            if exists|j: int| e < j < from + 1 && #[trigger] text[j] == '-' {
                let j = choose|j: int| e < j < from + 1 && #[trigger] text[j] == '-';
                if j < from {
                    assert(e < j < from && text[j] == '-');
                }
            }
        }
        assert(exponent_facts(text, e, from + 1, next));
        lemma_run_exponent(text, e, from + 1, to, next);
    }
}

/// Every character that a scan writes is one of the text, a `0` or a `-`:
/// what holds of all of these holds of all that is written.
pub proof fn lemma_scan_chars(
    text: Seq<char>,
    at: int,
    phase: Phase,
    copied: int,
    keep: bool,
    ok: spec_fn(char) -> bool,
)
    requires
        0 <= copied <= at <= text.len(),
        phase_within(phase, at, copied),
        ok('0'),
        ok('-'),
        forall|j: int| 0 <= j < text.len() ==> ok(#[trigger] text[j]),
    ensures
        forall|i: int|
            0 <= i < scan(text, at, phase, copied, keep).text.len() ==> ok(
                #[trigger] scan(text, at, phase, copied, keep).text[i],
            ),
    decreases text.len() - at,
{
    let written = scan(text, at, phase, copied, keep).text;
    if at >= text.len() {
        assert forall|i: int| 0 <= i < written.len() implies ok(#[trigger] written[i]) by {
            lemma_end_chars(text, phase, copied, keep, ok, i);
        }
    } else {
        let next = next_phase(phase, text[at], at);
        lemma_next_within(phase, text[at], at, copied);
        let fraction = if text[at] == 'e' {
            fraction_end(text, phase, at, copied, keep)
        } else {
            None
        };
        match fraction {
            Some(first) => {
                lemma_scan_chars(text, at + 1, next, at, keep, ok);
                let rest = scan(text, at + 1, next, at, keep).text;
                assert forall|i: int| 0 <= i < written.len() implies ok(#[trigger] written[i]) by {
                    if i < first.len() {
                        lemma_fraction_chars(text, phase, at, copied, keep, ok, i);
                    } else {
                        assert(written[i] == rest[i - first.len()]);
                    }
                }
            },
            None => {
                lemma_scan_chars(text, at + 1, next, copied, keep, ok);
                assert(written == scan(text, at + 1, next, copied, keep).text);
                assert forall|i: int| 0 <= i < written.len() implies ok(#[trigger] written[i]) by {
                    assert(ok(scan(text, at + 1, next, copied, keep).text[i]));
                }
            },
        }
    }
}

proof fn lemma_fraction_chars(
    text: Seq<char>,
    phase: Phase,
    at: int,
    copied: int,
    keep: bool,
    ok: spec_fn(char) -> bool,
    i: int,
)
    requires
        0 <= copied <= at <= text.len(),
        phase_within(phase, at, copied),
        ok('0'),
        forall|j: int| 0 <= j < text.len() ==> ok(#[trigger] text[j]),
        fraction_end(text, phase, at, copied, keep) is Some,
        0 <= i < fraction_end(text, phase, at, copied, keep)->0.len(),
    ensures
        ok(fraction_end(text, phase, at, copied, keep)->0[i]),
{
    let written = fraction_end(text, phase, at, copied, keep)->0;
    if written[i] != '0' {
        assert(written[i] == text[copied + i]);
    }
}

proof fn lemma_end_chars(
    text: Seq<char>,
    phase: Phase,
    copied: int,
    keep: bool,
    ok: spec_fn(char) -> bool,
    i: int,
)
    requires
        0 <= copied <= text.len(),
        phase_within(phase, text.len() as int, copied),
        ok('0'),
        ok('-'),
        forall|j: int| 0 <= j < text.len() ==> ok(#[trigger] text[j]),
        0 <= i < scan(text, text.len() as int, phase, copied, keep).text.len(),
    ensures
        ok(scan(text, text.len() as int, phase, copied, keep).text[i]),
{
    let len = text.len() as int;
    let written = scan(text, len, phase, copied, keep).text;
    match fraction_end(text, phase, len, copied, keep) {
        Some(_) => {
            lemma_fraction_chars(text, phase, len, copied, keep, ok, i);
        },
        None => match exponent_end(text, phase, copied) {
            Some(_) => {
                let e = phase->e;
                if phase->first_non_zero is Some {
                    let first = phase->first_non_zero->0;
                    let head = text.subrange(copied, e + 1);
                    let sign: Seq<char> = if phase->negative {
                        seq!['-']
                    } else {
                        seq![]
                    };
                    let tail = text.subrange(first, len);
                    assert(written == head + sign + tail);
                    if i < head.len() {
                        assert(written[i] == text[copied + i]);
                    } else if i < head.len() + sign.len() {
                        assert(written[i] == '-');
                    } else {
                        assert(written[i] == text[first + (i - head.len() - sign.len())]);
                    }
                } else {
                    assert(written[i] == text[copied + i]);
                }
            },
            None => {
                assert(written[i] == text[copied + i]);
            },
        },
    }
}

/// Every character of a rewriting is one of the text, a `0` or a `-`: what
/// holds of all of these holds of all of the rewriting.
pub proof fn lemma_rewritten_chars(text: Seq<char>, keep: bool, ok: spec_fn(char) -> bool)
    requires
        ok('0'),
        ok('-'),
        forall|j: int| 0 <= j < text.len() ==> ok(#[trigger] text[j]),
    ensures
        forall|i: int|
            0 <= i < rewritten(text, keep).text.len() ==> ok(#[trigger] rewritten(text, keep).text[i]),
{
    let first = behind_sign(text);
    let written = rewritten(text, keep).text;
    if first < text.len() && text[first] == '.' {
        lemma_scan_chars(text, first, Phase::Integer, first, keep, ok);
        let head = text.subrange(0, first).push('0');
        let rest = scan(text, first, Phase::Integer, first, keep).text;
        assert forall|i: int| 0 <= i < written.len() implies ok(#[trigger] written[i]) by {
            if i < first {
                assert(written[i] == text[i]);
            } else if i == first {
                assert(written[i] == '0');
            } else {
                assert(written[i] == rest[i - head.len()]);
            }
        }
    } else {
        lemma_scan_chars(text, first, Phase::Integer, 0, keep, ok);
    }
}

/// A text without a `.` and without an `e` is rewritten to itself, and no
/// rule fires.
pub proof fn lemma_no_marker_unchanged(text: Seq<char>, keep: bool)
    requires
        forall|i: int| 0 <= i < text.len() ==> text[i] != '.' && text[i] != 'e',
    ensures
        rewritten(text, keep) == (Rewrite { fired: false, text }),
{
    let first = behind_sign(text);
    let len = text.len() as int;
    lemma_scan_stretch(text, first, len, Phase::Integer, 0, keep);
    lemma_run_integer(text, first, len);
    assert(text.subrange(0, len) =~= text);
}

/// An exponent by itself: an `e`, and behind it neither a `.` nor an `e`.
pub open spec fn is_exponent(text: Seq<char>) -> bool {
    &&& text.len() >= 1
    &&& text[0] == 'e'
    &&& forall|i: int| 1 <= i < text.len() ==> text[i] != '.' && text[i] != 'e'
}

/// The phase in which the scan of an exponent starts behind its `e`.
pub open spec fn behind_e(e: int) -> Phase {
    Phase::Exponent { e, negative: false, first_digit: None, first_non_zero: None }
}

/// The rewriting of an exponent by itself is what is written at its end, in
/// the phase that the run over it gives.
pub proof fn lemma_exponent_scan(text: Seq<char>, keep: bool)
    requires
        is_exponent(text),
    ensures
        rewritten(text, keep) == scan(
            text,
            text.len() as int,
            run_phase(text, 1, text.len() as int, behind_e(0)),
            0,
            keep,
        ),
        exponent_facts(text, 0, text.len() as int, run_phase(text, 1, text.len() as int, behind_e(0))),
{
    let len = text.len() as int;
    assert(behind_sign(text) == 0);
    assert(next_phase(Phase::Integer, text[0], 0) == behind_e(0));
    assert(scan(text, 0, Phase::Integer, 0, keep) == scan(text, 1, behind_e(0), 0, keep));
    lemma_scan_stretch(text, 1, len, behind_e(0), 0, keep);
    assert(exponent_facts(text, 0, 1, behind_e(0)));
    lemma_run_exponent(text, 0, 1, len, behind_e(0));
}

/// The canonical form of an exponent is nothing or an exponent, and is its
/// own canonical form.
pub proof fn lemma_exponent_stable(text: Seq<char>, keep: bool)
    requires
        is_exponent(text),
    ensures
        rewritten(text, keep).text.len() == 0 || is_exponent(rewritten(text, keep).text),
        rewritten(rewritten(text, keep).text, keep).text == rewritten(text, keep).text,
{
    let len = text.len() as int;
    let phase = run_phase(text, 1, len, behind_e(0));
    lemma_exponent_scan(text, keep);
    let out = rewritten(text, keep).text;
    assert(fraction_end(text, phase, len, 0, keep) is None);
    match exponent_end(text, phase, 0) {
        None => {
            assert(out =~= text);
        },
        Some(written) => {
            assert(out == written);
            if phase->first_non_zero is None {
                assert(out =~= Seq::<char>::empty());
                lemma_no_marker_unchanged(out, keep);
            } else {
                let first = phase->first_non_zero->0;
                let negative = phase->negative;
                assert(phase->first_digit is Some);
                let sign: Seq<char> = if negative {
                    seq!['-']
                } else {
                    seq![]
                };
                let digits = text.subrange(first, len);
                assert(out == text.subrange(0, 1) + sign + digits);
                let start = 1 + sign.len() as int;
                assert(out.len() == start + digits.len());
                assert(out[0] == 'e');
                assert forall|i: int| 1 <= i < out.len() implies out[i] != '.' && out[i] != 'e' by {
                    if i >= start {
                        assert(out[i] == text[first + (i - start)]);
                    }
                }
                assert(is_exponent(out));
                assert forall|i: int| start <= i < out.len() implies out[i] == text[first + (i
                    - start)] by {}
                assert(out[start] == text[first]);
                let again = run_phase(out, 1, out.len() as int, behind_e(0));
                lemma_exponent_scan(out, keep);
                // The sign is as it was.
                assert(again->negative == negative) by {
                    if negative {
                        assert(0 < 1 < out.len() && out[1] == '-');
                    } else {
                        if again->negative {
                            let j = choose|j: int| 0 < j < out.len() && #[trigger] out[j] == '-';
                            assert(out[j] == text[first + (j - start)]);
                            assert(0 < first + (j - start) < len && text[first + (j - start)] == '-');
                        }
                    }
                }
                // The first digit, and the first other than `0`, stand right
                // behind the sign.
                assert(is_non_zero_digit(out[start]));
                assert(forall|j: int| 0 < j < start ==> !is_digit(#[trigger] out[j]));
                assert(again->first_digit == Some(start)) by {
                    if again->first_digit is Some {
                        let found = again->first_digit->0;
                        if found > start {
                            assert(!is_digit(out[start]));
                        }
                    } else {
                        assert(!is_digit(out[start]));
                    }
                }
                assert(again->first_non_zero == Some(start)) by {
                    if again->first_non_zero is Some {
                        let found = again->first_non_zero->0;
                        if found > start {
                            assert(!is_non_zero_digit(out[start]));
                        }
                        if found < start {
                            assert(!is_digit(out[found]));
                        }
                    } else {
                        assert(!is_non_zero_digit(out[start]));
                    }
                }
                assert(exponent_end(out, again, 0) is None);
                assert(fraction_end(out, again, out.len() as int, 0, keep) is None);
                assert(out.subrange(0, out.len() as int) =~= out);
            }
        },
    }
}

/// `text` holds no `e`, and its only `.` stands at `dot`.
pub open spec fn only_dot_at(text: Seq<char>, dot: int) -> bool {
    &&& 0 <= dot < text.len()
    &&& text[dot] == '.'
    &&& forall|i: int| 0 <= i < text.len() ==> text[i] != 'e' && (text[i] == '.' ==> i == dot)
}

/// Of a text whose only marker is the `.` at `dot`, the scan writes nothing
/// before the end, and is then behind the point, knowing the last digit
/// other than `0`.
pub proof fn lemma_fraction_scan(text: Seq<char>, keep: bool, dot: int, copied: int)
    requires
        only_dot_at(text, dot),
        behind_sign(text) <= dot,
    ensures
        scan(text, behind_sign(text), Phase::Integer, copied, keep) == scan(
            text,
            text.len() as int,
            run_phase(
                text,
                dot + 1,
                text.len() as int,
                Phase::Decimal { dot, last_non_zero: None },
            ),
            copied,
            keep,
        ),
        decimal_facts(
            text,
            dot,
            text.len() as int,
            run_phase(
                text,
                dot + 1,
                text.len() as int,
                Phase::Decimal { dot, last_non_zero: None },
            ),
        ),
{
    let first = behind_sign(text);
    let len = text.len() as int;
    let at_dot = Phase::Decimal { dot, last_non_zero: None };
    lemma_scan_stretch(text, first, len, Phase::Integer, copied, keep);
    lemma_run_split(text, first, dot, len, Phase::Integer);
    lemma_run_integer(text, first, dot);
    lemma_run_split(text, dot, dot + 1, len, Phase::Integer);
    assert(run_phase(text, dot, dot + 1, Phase::Integer) == at_dot) by {
        assert(run_phase(text, dot + 1, dot + 1, at_dot) == at_dot);
    }
    assert(decimal_facts(text, dot, dot + 1, at_dot));
    lemma_run_decimal(text, dot, dot + 1, len, at_dot);
}

/// A text whose only marker is a `.` that something precedes, and which
/// ends in a digit other than `0`, or, where a zero is kept, in the point
/// and one `0`, is rewritten to itself.
pub proof fn lemma_kept_fraction_unchanged(text: Seq<char>, keep: bool, dot: int)
    requires
        only_dot_at(text, dot),
        behind_sign(text) < dot,
        (keep && text.len() == dot + 2 && text[dot + 1] == '0') || (text.len() > dot + 1
            && is_non_zero_digit(text[text.len() - 1])),
    ensures
        rewritten(text, keep).text == text,
{
    let len = text.len() as int;
    let phase = run_phase(text, dot + 1, len, Phase::Decimal { dot, last_non_zero: None });
    lemma_fraction_scan(text, keep, dot, 0);
    assert(text.subrange(0, len) =~= text);
    if is_non_zero_digit(text[len - 1]) {
        assert(phase->last_non_zero == Some(len - 1)) by {
            if phase->last_non_zero is Some {
                let last = phase->last_non_zero->0;
                if last < len - 1 {
                    assert(!is_non_zero_digit(text[len - 1]));
                }
            } else {
                assert(!is_non_zero_digit(text[len - 1]));
            }
        }
        assert(fraction_end(text, phase, len, 0, keep) is None);
    } else {
        assert(phase->last_non_zero is None) by {
            if phase->last_non_zero is Some {
                let last = phase->last_non_zero->0;
                assert(last == dot + 1);
            }
        }
        assert(fraction_end(text, phase, len, 0, keep) == Some(
            text.subrange(0, dot + 1).push('0'),
        ));
        assert(text.subrange(0, dot + 1).push('0') =~= text);
    }
}

/// The canonical form of a text that holds no `e` and at most one `.`
/// holds no `e`, and is its own canonical form.
pub proof fn lemma_fraction_stable(text: Seq<char>, keep: bool)
    requires
        forall|i: int| 0 <= i < text.len() ==> text[i] != 'e',
        forall|i: int, j: int|
            0 <= i < text.len() && 0 <= j < text.len() && text[i] == '.' && text[j] == '.' ==> i
                == j,
    ensures
        forall|i: int|
            0 <= i < rewritten(text, keep).text.len() ==> rewritten(text, keep).text[i] != 'e',
        rewritten(rewritten(text, keep).text, keep).text == rewritten(text, keep).text,
{
    let out = rewritten(text, keep).text;
    let not_e = |c: char| c != 'e';
    lemma_rewritten_chars(text, keep, not_e);
    assert forall|i: int| 0 <= i < out.len() implies out[i] != 'e' by {
        assert(not_e(out[i]));
    }
    if forall|i: int| 0 <= i < text.len() ==> text[i] != '.' {
        lemma_no_marker_unchanged(text, keep);
    } else {
        let dot = choose|i: int| 0 <= i < text.len() && text[i] == '.';
        lemma_fraction_stable_with_dot(text, keep, dot);
    }
}

#[verifier::rlimit(30)]
proof fn lemma_fraction_stable_with_dot(text: Seq<char>, keep: bool, dot: int)
    requires
        only_dot_at(text, dot),
    ensures
        rewritten(rewritten(text, keep).text, keep).text == rewritten(text, keep).text,
{
    let len = text.len() as int;
    let first = behind_sign(text);
    let lead = first < len && text[first] == '.';
    let copied = if lead {
        first
    } else {
        0
    };
    let before: Seq<char> = if lead {
        text.subrange(0, first).push('0')
    } else {
        text.subrange(0, dot)
    };
    assert(first <= dot);
    assert(lead ==> dot == first);
    assert(!lead ==> first < dot);
    let phase = run_phase(text, dot + 1, len, Phase::Decimal { dot, last_non_zero: None });
    lemma_fraction_scan(text, keep, dot, copied);
    let scanned = scan(text, len, phase, copied, keep);
    let out = rewritten(text, keep).text;
    assert(out == if lead {
        text.subrange(0, first).push('0') + scanned.text
    } else {
        scanned.text
    });
    // What stands before the point in the canonical form: no marker, and
    // more than a sign.
    assert(forall|i: int| 0 <= i < before.len() ==> before[i] != '.' && before[i] != 'e');
    assert(before.len() > 0);
    assert(behind_sign(before) < before.len() || before.len() == first) by {
        if lead {
            assert(before[first] == '0');
        }
    }
    let until: int = match phase->last_non_zero {
        None => dot,
        Some(last) => last + 1,
    };
    if phase->last_non_zero is None && !(len > dot + 1 && is_digit(text[dot + 1]) && keep) {
        // The fraction is dropped.
        assert(scanned.text == text.subrange(copied, dot));
        assert(out =~= before);
        lemma_no_marker_unchanged(out, keep);
    } else {
        let fraction: Seq<char> = if phase->last_non_zero is None {
            seq!['0']
        } else {
            text.subrange(dot + 1, until)
        };
        assert(scanned.text =~= text.subrange(copied, dot + 1) + fraction) by {
            if phase->last_non_zero is Some {
                let last = phase->last_non_zero->0;
                if last < len - 1 {
                    assert(scanned.text == text.subrange(copied, last + 1));
                } else {
                    assert(fraction_end(text, phase, len, copied, keep) is None);
                    assert(exponent_end(text, phase, copied) is None);
                    assert(scanned.text == text.subrange(copied, len));
                }
            }
        }
        assert(out =~= before + seq!['.'] + fraction);
        let place = before.len() as int;
        assert(out[place] == '.');
        assert forall|i: int| 0 <= i < out.len() implies out[i] != 'e' && (out[i] == '.' ==> i
            == place) by {
            if i < place {
                assert(out[i] == before[i]);
            } else if i > place {
                assert(out[i] == fraction[i - place - 1]);
                if phase->last_non_zero is Some {
                    assert(fraction[i - place - 1] == text[dot + 1 + (i - place - 1)]);
                }
            }
        }
        assert(only_dot_at(out, place));
        assert(behind_sign(out) < place) by {
            assert(out[0] == before[0]);
            if lead {
                assert(before[first] == '0');
                if first == 1 {
                    assert(before[0] == text[0]);
                }
            } else {
                assert(before[0] == text[0]);
            }
        }
        if phase->last_non_zero is Some {
            let last = phase->last_non_zero->0;
            assert(out[out.len() - 1] == fraction[fraction.len() - 1]);
            assert(fraction[fraction.len() - 1] == text[last]);
        } else {
            assert(out[place + 1] == '0');
        }
        lemma_kept_fraction_unchanged(out, keep, place);
    }
}

/// What is written at the end of an exponent that stands behind a text is
/// what was left of the text, and then what is written at the end of the
/// exponent by itself.
proof fn lemma_exponent_end_behind(head: Seq<char>, tail: Seq<char>, alone: Phase, copied: int)
    requires
        is_exponent(tail),
        exponent_facts(tail, 0, tail.len() as int, alone),
        0 <= copied <= head.len(),
    ensures
        match exponent_end(tail, alone, 0) {
            Some(written) => exponent_end(head + tail, shifted(alone, head.len() as int), copied)
                == Some(head.subrange(copied, head.len() as int) + written),
            None => exponent_end(head + tail, shifted(alone, head.len() as int), copied) is None,
        },
{
    let text = head + tail;
    let at = head.len() as int;
    let len = text.len() as int;
    let count = tail.len() as int;
    let left = head.subrange(copied, at);
    if alone->first_non_zero is Some {
        let first = alone->first_non_zero->0;
        assert(alone->first_digit is Some);
        let sign: Seq<char> = if alone->negative {
            seq!['-']
        } else {
            seq![]
        };
        assert(text.subrange(copied, at + 1) =~= left + tail.subrange(0, 1));
        assert(text.subrange(first + at, len) =~= tail.subrange(first, count));
        assert((left + tail.subrange(0, 1)) + sign + tail.subrange(first, count) =~= left + (
        tail.subrange(0, 1) + sign + tail.subrange(first, count)));
    } else {
        assert(text.subrange(copied, at) =~= left);
        assert(tail.subrange(0, 0) =~= Seq::<char>::empty());
        assert(left + Seq::<char>::empty() =~= left);
    }
}

/// Behind a text, an exponent is scanned as it is by itself: at its end
/// the scan writes what was left of the text, and then the canonical form
/// of the exponent.
proof fn lemma_exponent_behind(head: Seq<char>, tail: Seq<char>, keep: bool, copied: int)
    requires
        is_exponent(tail),
        0 <= copied <= head.len(),
    ensures
        scan(head + tail, head.len() as int + 1, behind_e(head.len() as int), copied, keep).text
            == head.subrange(copied, head.len() as int) + rewritten(tail, keep).text,
{
    let text = head + tail;
    let at = head.len() as int;
    let len = text.len() as int;
    let count = tail.len() as int;
    let alone = run_phase(tail, 1, count, behind_e(0));
    let phase = run_phase(text, at + 1, len, behind_e(at));
    lemma_exponent_scan(tail, keep);
    assert forall|i: int| 1 <= i < count implies tail[i] == text[i + at] by {}
    lemma_run_shifted(tail, text, 1, count, at, behind_e(0));
    assert(shifted(behind_e(0), at) == behind_e(at));
    assert(phase == shifted(alone, at));
    assert forall|i: int| at + 1 <= i < len implies text[i] != 'e' by {
        assert(text[i] == tail[i - at]);
    }
    lemma_scan_stretch(text, at + 1, len, behind_e(at), copied, keep);
    lemma_exponent_end_behind(head, tail, alone, copied);
    assert(fraction_end(text, phase, len, copied, keep) is None);
    assert(fraction_end(tail, alone, count, 0, keep) is None);
    if exponent_end(tail, alone, 0) is None {
        assert(text.subrange(copied, len) =~= head.subrange(copied, at) + tail);
        assert(tail.subrange(0, count) =~= tail);
    }
}

/// A text that ends in an exponent is rewritten piece by piece: its
/// canonical form is that of what stands before the exponent, and then that
/// of the exponent.
#[verifier::rlimit(30)]
pub proof fn lemma_rewritten_splits(head: Seq<char>, tail: Seq<char>, keep: bool)
    requires
        forall|i: int| 0 <= i < head.len() ==> head[i] != 'e',
        tail.len() == 0 || is_exponent(tail),
    ensures
        rewritten(head + tail, keep).text == rewritten(head, keep).text + rewritten(
            tail,
            keep,
        ).text,
{
    let text = head + tail;
    if tail.len() == 0 {
        assert(text =~= head);
        lemma_no_marker_unchanged(tail, keep);
        assert(rewritten(head, keep).text + tail =~= rewritten(head, keep).text);
    } else {
        let at = head.len() as int;
        let first = behind_sign(text);
        assert(first == behind_sign(head)) by {
            if at > 0 {
                assert(text[0] == head[0]);
            } else {
                assert(text[0] == tail[0]);
            }
        }
        assert(first <= at);
        let lead = first < text.len() && text[first] == '.';
        assert(lead == (first < head.len() && head[first] == '.')) by {
            if first < at {
                assert(text[first] == head[first]);
            } else {
                assert(text[first] == tail[0]);
            }
        }
        let copied = if lead {
            first
        } else {
            0
        };
        let phase = run_phase(text, first, at, Phase::Integer);
        assert forall|i: int| first <= i < at implies text[i] == head[i] && text[i] != 'e' by {}
        lemma_run_same(text, head, first, at, Phase::Integer);
        lemma_run_within(text, first, at, Phase::Integer, copied);
        lemma_run_no_exponent(text, first, at, Phase::Integer);
        lemma_scan_stretch(text, first, at, Phase::Integer, copied, keep);
        lemma_scan_stretch(head, first, at, Phase::Integer, copied, keep);
        assert(text[at] == 'e') by {
            assert(text[at] == tail[0]);
        }
        assert(next_phase(phase, text[at], at) == behind_e(at));
        // What is written where the fraction ends is the same in both.
        assert(fraction_end(text, phase, at, copied, keep) == fraction_end(
            head,
            phase,
            at,
            copied,
            keep,
        )) by {
            if phase is Decimal {
                let dot = phase->dot;
                assert(text.subrange(copied, dot) =~= head.subrange(copied, dot));
                assert(text.subrange(copied, dot + 1) =~= head.subrange(copied, dot + 1));
                if phase->last_non_zero is Some {
                    let last = phase->last_non_zero->0;
                    assert(text.subrange(copied, last + 1) =~= head.subrange(copied, last + 1));
                }
            }
        }
        assert(exponent_end(head, phase, copied) is None);
        let alone = scan(head, at, phase, copied, keep).text;
        let whole = scan(text, at, phase, copied, keep).text;
        match fraction_end(text, phase, at, copied, keep) {
            Some(written) => {
                lemma_exponent_behind(head, tail, keep, at);
                assert(head.subrange(at, at) =~= Seq::<char>::empty());
                assert(alone == written);
                assert(whole == written + scan(text, at + 1, behind_e(at), at, keep).text);
                assert(whole =~= alone + rewritten(tail, keep).text);
            },
            None => {
                lemma_exponent_behind(head, tail, keep, copied);
                assert(alone == head.subrange(copied, at));
                assert(whole == scan(text, at + 1, behind_e(at), copied, keep).text);
                assert(whole =~= alone + rewritten(tail, keep).text);
            },
        }
        if lead {
            assert(text.subrange(0, first) =~= head.subrange(0, first));
            assert(rewritten(text, keep).text == text.subrange(0, first).push('0') + whole);
            assert(rewritten(head, keep).text == head.subrange(0, first).push('0') + alone);
            assert(head.subrange(0, first).push('0') + (alone + rewritten(tail, keep).text) =~= (
            head.subrange(0, first).push('0') + alone) + rewritten(tail, keep).text);
        }
    }
}

/// A literal, in lower case, of the usual make: it holds at most one `.`
/// and at most one `e`, and the `.` stands before the `e`.
pub open spec fn is_plain_literal(text: Seq<char>) -> bool {
    &&& forall|i: int, j: int|
        0 <= i < text.len() && 0 <= j < text.len() && text[i] == '.' && text[j] == '.' ==> i == j
    &&& forall|i: int, j: int|
        0 <= i < text.len() && 0 <= j < text.len() && text[i] == 'e' && text[j] == 'e' ==> i == j
    &&& forall|i: int, j: int|
        0 <= i < text.len() && 0 <= j < text.len() && text[i] == '.' && text[j] == 'e' ==> i < j
}

/// The rewriting of a plain literal is rewritten to itself.
pub proof fn lemma_rewritten_is_stable(text: Seq<char>, keep: bool)
    requires
        is_plain_literal(text),
    ensures
        rewritten(rewritten(text, keep).text, keep).text == rewritten(text, keep).text,
{
    if forall|i: int| 0 <= i < text.len() ==> text[i] != 'e' {
        lemma_fraction_stable(text, keep);
    } else {
        let at = choose|i: int| 0 <= i < text.len() && text[i] == 'e';
        let len = text.len() as int;
        let head = text.subrange(0, at);
        let tail = text.subrange(at, len);
        assert(text =~= head + tail);
        assert forall|i: int| 0 <= i < head.len() implies head[i] != 'e' by {
            assert(head[i] == text[i]);
        }
        assert(is_exponent(tail)) by {
            assert(tail[0] == text[at]);
            assert forall|i: int| 1 <= i < tail.len() implies tail[i] != '.' && tail[i] != 'e' by {
                assert(tail[i] == text[at + i]);
            }
        }
        assert forall|i: int, j: int|
            0 <= i < head.len() && 0 <= j < head.len() && head[i] == '.' && head[j]
                == '.' implies i == j by {
            assert(head[i] == text[i] && head[j] == text[j]);
        }
        lemma_rewritten_splits(head, tail, keep);
        lemma_fraction_stable(head, keep);
        lemma_exponent_stable(tail, keep);
        lemma_rewritten_splits(rewritten(head, keep).text, rewritten(tail, keep).text, keep);
    }
}

/// Up to where a run of digits ends, digits stand; there none does.
pub proof fn lemma_skip_digits(text: Seq<char>, from: int)
    requires
        0 <= from <= text.len(),
    ensures
        from <= skip_digits(text, from) <= text.len(),
        forall|i: int| from <= i < skip_digits(text, from) ==> is_digit(#[trigger] text[i]),
        skip_digits(text, from) < text.len() ==> !is_digit(text[skip_digits(text, from)]),
    decreases text.len() - from,
{
    if from < text.len() && is_digit(text[from]) {
        lemma_skip_digits(text, from + 1);
    }
}

/// A decimal literal holds at most one `.` and at most one `e`, and the `.`
/// stands before the `e`.
pub proof fn lemma_decimal_literal_is_plain(text: Seq<char>)
    requires
        is_decimal_literal(text),
    ensures
        is_plain_literal(text),
{
    let len = text.len() as int;
    let first = behind_sign(text);
    let integer = integer_end(text);
    let mantissa = mantissa_end(text);
    lemma_skip_digits(text, first);
    if has_point(text) {
        lemma_skip_digits(text, integer + 1);
    }
    if has_exponent(text) {
        lemma_skip_digits(text, exponent_digits(text));
    }
    assert forall|i: int| 0 <= i < len && text[i] == '.' implies i == integer && has_point(text) by {
        if i < first {
        } else if i < integer {
            assert(is_digit(text[i]));
        } else if i == integer {
        } else if i < mantissa {
            assert(is_digit(text[i]));
        } else if i == mantissa {
        } else if i < exponent_digits(text) {
        } else {
            assert(is_digit(text[i]));
        }
    }
    assert forall|i: int| 0 <= i < len && text[i] == 'e' implies i == mantissa && has_exponent(
        text,
    ) by {
        if i < first {
        } else if i < integer {
            assert(is_digit(text[i]));
        } else if i == integer {
        } else if i < mantissa {
            assert(is_digit(text[i]));
        } else if i == mantissa {
        } else if i < exponent_digits(text) {
        } else {
            assert(is_digit(text[i]));
        }
    }
}

/// The canonical form of a numeric literal is its own canonical form: to
/// write a text that was written canonically changes nothing, whatever the
/// text is.
pub proof fn lemma_canonical_number_is_stable(text: Seq<char>, keep: bool)
    ensures
        canonical_number(canonical_number(text, keep), keep) == canonical_number(text, keep),
{
    if is_rewritable(text) {
        let lower = lowered(text);
        let out = rewritten(lower, keep).text;
        let plain = |c: char| ascii_lower(c) == c && c != 'x';
        assert forall|j: int| 0 <= j < lower.len() implies plain(#[trigger] lower[j]) by {
            assert(lower[j] == ascii_lower(text[j]));
        }
        lemma_rewritten_chars(lower, keep, plain);
        assert forall|i: int| 0 <= i < out.len() implies ascii_lower(out[i]) == out[i] && out[i]
            != 'x' by {
            assert(plain(out[i]));
        }
        assert(lowered(out) =~= out);
        lemma_decimal_literal_is_plain(lower);
        lemma_rewritten_is_stable(lower, keep);
    }
}

} // verus!
