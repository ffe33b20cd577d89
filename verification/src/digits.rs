//! The canonical form of a numeric literal holds the digits of the
//! literal: none is made up.

use vstd::prelude::*;
use crate::number::{
    ascii_lower, behind_sign, canonical_number, exponent_end, fraction_end, is_digit,
    is_non_zero_digit, is_rewritable, lowered, next_phase, phase_within, rewritten, scan, Phase,
};

verus! {

/// The digits other than `0` of `text`, in their order.
pub open spec fn non_zero_digits(text: Seq<char>) -> Seq<char>
    decreases text.len(),
{
    if text.len() == 0 {
        Seq::empty()
    } else if is_non_zero_digit(text.last()) {
        non_zero_digits(text.drop_last()).push(text.last())
    } else {
        non_zero_digits(text.drop_last())
    }
}

/// The number of the digits `0` of `text`.
pub open spec fn zeros(text: Seq<char>) -> nat
    decreases text.len(),
{
    if text.len() == 0 {
        0
    } else if text.last() == '0' {
        zeros(text.drop_last()) + 1
    } else {
        zeros(text.drop_last())
    }
}

/// The digits of two texts, one behind the other, are those of the first
/// and then those of the second.
pub proof fn lemma_digits_add(a: Seq<char>, b: Seq<char>)
    ensures
        non_zero_digits(a + b) == non_zero_digits(a) + non_zero_digits(b),
        zeros(a + b) == zeros(a) + zeros(b),
    decreases b.len(),
{
    if b.len() == 0 {
        assert(a + b =~= a);
        assert(non_zero_digits(a) + non_zero_digits(b) =~= non_zero_digits(a));
    } else {
        assert((a + b).drop_last() =~= a + b.drop_last());
        lemma_digits_add(a, b.drop_last());
        assert(non_zero_digits(a) + non_zero_digits(b.drop_last()).push(b.last()) =~= (
        non_zero_digits(a) + non_zero_digits(b.drop_last())).push(b.last()));
    }
}

/// The digits of a text of one character that is no digit other than `0`.
pub proof fn lemma_digits_of_one(c: char)
    requires
        !is_non_zero_digit(c),
    ensures
        non_zero_digits(seq![c]) == Seq::<char>::empty(),
        zeros(seq![c]) == if c == '0' {
            1nat
        } else {
            0nat
        },
{
    let one = seq![c];
    assert(one.len() == 1 && one.last() == c);
    assert(one.drop_last() =~= Seq::<char>::empty());
    assert(non_zero_digits(one.drop_last()) == Seq::<char>::empty());
    assert(zeros(one.drop_last()) == 0);
}

/// A text without a digit other than `0` has no such digits.
pub proof fn lemma_no_digits(text: Seq<char>)
    requires
        forall|i: int| 0 <= i < text.len() ==> !is_non_zero_digit(#[trigger] text[i]),
    ensures
        non_zero_digits(text) == Seq::<char>::empty(),
    decreases text.len(),
{
    if text.len() > 0 {
        assert(!is_non_zero_digit(text[text.len() - 1]));
        assert forall|i: int| 0 <= i < text.drop_last().len() implies !is_non_zero_digit(
            #[trigger] text.drop_last()[i],
        ) by {
            assert(text.drop_last()[i] == text[i]);
        }
        lemma_no_digits(text.drop_last());
    }
}

/// A text in which a `0` stands has at least one.
pub proof fn lemma_some_zero(text: Seq<char>, at: int)
    requires
        0 <= at < text.len(),
        text[at] == '0',
    ensures
        zeros(text) >= 1,
    decreases text.len(),
{
    if at < text.len() - 1 {
        assert(text.drop_last()[at] == text[at]);
        lemma_some_zero(text.drop_last(), at);
    }
}

/// Lower case leaves the digits as they are.
pub proof fn lemma_lowered_digits(text: Seq<char>)
    ensures
        non_zero_digits(lowered(text)) == non_zero_digits(text),
        zeros(lowered(text)) == zeros(text),
    decreases text.len(),
{
    if text.len() > 0 {
        assert(lowered(text).drop_last() =~= lowered(text.drop_last()));
        assert(lowered(text).last() == ascii_lower(text.last()));
        lemma_lowered_digits(text.drop_last());
    }
}

/// The digits of a stretch of a text are those of its first part and then
/// those of the rest.
pub proof fn lemma_digits_split(text: Seq<char>, from: int, mid: int, to: int)
    requires
        0 <= from <= mid <= to <= text.len(),
    ensures
        non_zero_digits(text.subrange(from, to)) == non_zero_digits(text.subrange(from, mid))
            + non_zero_digits(text.subrange(mid, to)),
        zeros(text.subrange(from, to)) == zeros(text.subrange(from, mid)) + zeros(
            text.subrange(mid, to),
        ),
{
    assert(text.subrange(from, to) =~= text.subrange(from, mid) + text.subrange(mid, to));
    lemma_digits_add(text.subrange(from, mid), text.subrange(mid, to));
}

/// A stretch of a text without a digit other than `0` has no such digits.
pub proof fn lemma_no_digits_between(text: Seq<char>, from: int, to: int)
    requires
        0 <= from <= to <= text.len(),
        forall|j: int| from <= j < to ==> !is_non_zero_digit(#[trigger] text[j]),
    ensures
        non_zero_digits(text.subrange(from, to)) == Seq::<char>::empty(),
{
    let part = text.subrange(from, to);
    assert forall|i: int| 0 <= i < part.len() implies !is_non_zero_digit(#[trigger] part[i]) by {
        assert(part[i] == text[from + i]);
    }
    lemma_no_digits(part);
}

/// What a scan knows of the digits at `at`: behind the point, or behind the
/// `e`, no digit other than `0` stands but where the phase has noted one.
pub open spec fn digit_facts(text: Seq<char>, at: int, phase: Phase, copied: int) -> bool {
    &&& phase_within(phase, at, copied)
    &&& match phase {
        Phase::Integer => true,
        Phase::Decimal { dot, last_non_zero } => {
            &&& text[dot] == '.'
            &&& forall|j: int|
                (match last_non_zero {
                    Some(last) => last,
                    None => dot,
                }) < j < at ==> !is_non_zero_digit(#[trigger] text[j])
        },
        Phase::Exponent { e, first_non_zero, .. } => {
            &&& text[e] == 'e'
            &&& forall|j: int|
                e < j < (match first_non_zero {
                    Some(first) => first,
                    None => at,
                }) ==> !is_non_zero_digit(#[trigger] text[j])
        },
    }
}

/// One character more, and the scan still knows the digits.
pub proof fn lemma_next_digit_facts(text: Seq<char>, at: int, phase: Phase, copied: int)
    requires
        0 <= copied <= at < text.len(),
        digit_facts(text, at, phase, copied),
    ensures
        digit_facts(text, at + 1, next_phase(phase, text[at], at), copied),
{
}

/// What is written where a fraction ends holds the digits of what was left
/// of the text up to there, and no more zeros.
pub proof fn lemma_fraction_digits(
    text: Seq<char>,
    phase: Phase,
    at: int,
    copied: int,
    keep: bool,
)
    requires
        0 <= copied <= at <= text.len(),
        digit_facts(text, at, phase, copied),
        fraction_end(text, phase, at, copied, keep) is Some,
    ensures
        non_zero_digits(fraction_end(text, phase, at, copied, keep)->0) == non_zero_digits(
            text.subrange(copied, at),
        ),
        zeros(fraction_end(text, phase, at, copied, keep)->0) <= zeros(text.subrange(copied, at)),
{
    let dot = phase->dot;
    let nothing = Seq::<char>::empty();
    match phase->last_non_zero {
        None => {
            if at > dot + 1 && is_digit(text[dot + 1]) && keep {
                let kept = text.subrange(copied, dot + 1);
                lemma_digits_split(text, copied, dot + 1, at);
                lemma_no_digits_between(text, dot + 1, at);
                assert(kept.push('0') =~= kept + seq!['0']);
                lemma_digits_add(kept, seq!['0']);
                lemma_digits_of_one('0');
                assert(non_zero_digits(kept) + nothing =~= non_zero_digits(kept));
                assert(text.subrange(dot + 1, at)[0] == text[dot + 1]);
                lemma_some_zero(text.subrange(dot + 1, at), 0);
            } else {
                lemma_digits_split(text, copied, dot, at);
                lemma_no_digits_between(text, dot, at);
                assert(non_zero_digits(text.subrange(copied, dot)) + nothing =~= non_zero_digits(
                    text.subrange(copied, dot),
                ));
            }
        },
        Some(last) => {
            lemma_digits_split(text, copied, last + 1, at);
            lemma_no_digits_between(text, last + 1, at);
            assert(non_zero_digits(text.subrange(copied, last + 1)) + nothing =~= non_zero_digits(
                text.subrange(copied, last + 1),
            ));
        },
    }
}

/// What is written where an exponent ends holds the digits of what was left
/// of the text, and no more zeros.
pub proof fn lemma_exponent_digits(text: Seq<char>, phase: Phase, copied: int)
    requires
        0 <= copied <= text.len(),
        digit_facts(text, text.len() as int, phase, copied),
        exponent_end(text, phase, copied) is Some,
    ensures
        non_zero_digits(exponent_end(text, phase, copied)->0) == non_zero_digits(
            text.subrange(copied, text.len() as int),
        ),
        zeros(exponent_end(text, phase, copied)->0) <= zeros(
            text.subrange(copied, text.len() as int),
        ),
{
    let len = text.len() as int;
    let e = phase->e;
    let nothing = Seq::<char>::empty();
    match phase->first_non_zero {
        None => {
            lemma_digits_split(text, copied, e, len);
            lemma_no_digits_between(text, e, len);
            assert(non_zero_digits(text.subrange(copied, e)) + nothing =~= non_zero_digits(
                text.subrange(copied, e),
            ));
        },
        Some(first) => {
            let head = text.subrange(copied, e + 1);
            let sign: Seq<char> = if phase->negative {
                seq!['-']
            } else {
                seq![]
            };
            let tail = text.subrange(first, len);
            lemma_digits_split(text, copied, e + 1, len);
            lemma_digits_split(text, e + 1, first, len);
            lemma_no_digits_between(text, e + 1, first);
            if phase->negative {
                lemma_digits_of_one('-');
            }
            assert(non_zero_digits(sign) == nothing && zeros(sign) == 0);
            lemma_digits_add(head, sign);
            lemma_digits_add(head + sign, tail);
            assert(non_zero_digits(head) + nothing =~= non_zero_digits(head));
            assert(nothing + non_zero_digits(tail) =~= non_zero_digits(tail));
        },
    }
}

/// What a scan writes holds the digits of what was left of the text, and no
/// more zeros.
pub proof fn lemma_scan_digits(text: Seq<char>, at: int, phase: Phase, copied: int, keep: bool)
    requires
        0 <= copied <= at <= text.len(),
        digit_facts(text, at, phase, copied),
    ensures
        non_zero_digits(scan(text, at, phase, copied, keep).text) == non_zero_digits(
            text.subrange(copied, text.len() as int),
        ),
        zeros(scan(text, at, phase, copied, keep).text) <= zeros(
            text.subrange(copied, text.len() as int),
        ),
    decreases text.len() - at,
{
    let len = text.len() as int;
    if at >= len {
        if fraction_end(text, phase, len, copied, keep) is Some {
            lemma_fraction_digits(text, phase, len, copied, keep);
        } else if exponent_end(text, phase, copied) is Some {
            lemma_exponent_digits(text, phase, copied);
        }
    } else {
        let next = next_phase(phase, text[at], at);
        let fraction = if text[at] == 'e' {
            fraction_end(text, phase, at, copied, keep)
        } else {
            None
        };
        match fraction {
            Some(written) => {
                lemma_fraction_digits(text, phase, at, copied, keep);
                assert(digit_facts(text, at + 1, next, at));
                lemma_scan_digits(text, at + 1, next, at, keep);
                lemma_digits_add(written, scan(text, at + 1, next, at, keep).text);
                lemma_digits_split(text, copied, at, len);
            },
            None => {
                lemma_next_digit_facts(text, at, phase, copied);
                lemma_scan_digits(text, at + 1, next, copied, keep);
            },
        }
    }
}

/// A rewriting holds the digits other than `0` of the text, in their order,
/// and at most one `0` more than the text.
pub proof fn lemma_rewritten_digits(text: Seq<char>, keep: bool)
    ensures
        non_zero_digits(rewritten(text, keep).text) == non_zero_digits(text),
        zeros(rewritten(text, keep).text) <= zeros(text) + 1,
{
    let len = text.len() as int;
    let first = behind_sign(text);
    let nothing = Seq::<char>::empty();
    assert(text.subrange(0, len) =~= text);
    if first < len && text[first] == '.' {
        lemma_scan_digits(text, first, Phase::Integer, first, keep);
        let head = text.subrange(0, first);
        let rest = scan(text, first, Phase::Integer, first, keep).text;
        assert(head.push('0') =~= head + seq!['0']);
        lemma_digits_of_one('0');
        lemma_digits_add(head, seq!['0']);
        lemma_digits_add(head + seq!['0'], rest);
        lemma_digits_split(text, 0, first, len);
        assert(non_zero_digits(head) + nothing =~= non_zero_digits(head));
    } else {
        lemma_scan_digits(text, first, Phase::Integer, 0, keep);
    }
}

/// The canonical form of any text holds the digits other than `0` of the
/// text, in their order, and at most one `0` more than the text: no digit
/// is made up, but for the `0` that is put before a bare decimal point.
pub proof fn lemma_no_digit_made_up(text: Seq<char>, keep: bool)
    ensures
        non_zero_digits(canonical_number(text, keep)) == non_zero_digits(text),
        zeros(canonical_number(text, keep)) <= zeros(text) + 1,
{
    if is_rewritable(text) {
        lemma_rewritten_digits(lowered(text), keep);
        lemma_lowered_digits(text);
    }
}

} // verus!
