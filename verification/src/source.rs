//! Questions that builders ask of the source text: where the author left
//! blank lines.

use vstd::prelude::*;

verus! {

/// The byte of a line feed.
pub const LINE_FEED: u8 = 0x0a;

/// The byte of a carriage return.
pub const CARRIAGE_RETURN: u8 = 0x0d;

/// A space, a tab or a carriage return: what may stand on a blank line.
pub open spec fn is_blank(byte: u8) -> bool {
    byte == 0x20 || byte == 0x09 || byte == CARRIAGE_RETURN
}

/// Only blank bytes stand strictly between `i` and `j`.
pub open spec fn blank_between(source: Seq<u8>, i: int, j: int) -> bool {
    forall|k: int| i < k < j ==> is_blank(#[trigger] source[k])
}

/// Line feeds at `i` and at `j`, with nothing but blanks between them: the
/// line between the two is empty.
pub open spec fn blank_line_at(source: Seq<u8>, i: int, j: int) -> bool {
    &&& 0 <= i < j < source.len()
    &&& source[i] == LINE_FEED
    &&& source[j] == LINE_FEED
    &&& blank_between(source, i, j)
}

/// Some line that lies wholly within `start..end` is blank.
pub open spec fn has_blank_line(source: Seq<u8>, start: int, end: int) -> bool {
    exists|i: int, j: int| start <= i && j < end && #[trigger] blank_line_at(source, i, j)
}

/// Whether the source holds a blank line between the offsets `start` and
/// `end`. Offsets past the end of the text are taken as its end.
pub fn has_blank_line_in_range(source: &[u8], start: u32, end: u32) -> (found: bool)
    ensures
        found == has_blank_line(source@, start as int, end as int),
{
    let len = source.len();
    let stop: usize = if (end as usize) < len {
        end as usize
    } else {
        len
    };
    let mut k: usize = start as usize;
    // The last line feed before `k` that only blanks have followed so far.
    let mut open_line: Option<usize> = None;
    while k < stop
        invariant
            stop <= source.len(),
            stop <= end,
            stop == end || stop == source.len(),
            start <= k,
            !has_blank_line(source@, start as int, k as int),
            open_line matches Some(i) ==> start <= i < k && source@[i as int] == LINE_FEED
                && blank_between(source@, i as int, k as int),
            forall|i: int|
                start <= i < k && #[trigger] source@[i] == LINE_FEED && open_line != Some(
                    i as usize,
                ) ==> !blank_between(source@, i, k as int),
        decreases stop - k,
    {
        let byte = source[k];
        let ghost before = open_line;
        if byte == LINE_FEED {
            match open_line {
                Some(i) => {
                    assert(blank_line_at(source@, i as int, k as int));
                    return true;
                },
                None => {
                    open_line = Some(k);
                },
            }
        } else if !(byte == 0x20 || byte == 0x09 || byte == CARRIAGE_RETURN) {
            open_line = None;
        }
        proof {
            let next = k + 1;
            assert(!has_blank_line(source@, start as int, next as int)) by {
                if has_blank_line(source@, start as int, next as int) {
                    let (i, j) = choose|i: int, j: int|
                        start <= i && j < next && #[trigger] blank_line_at(source@, i, j);
                    if j < k {
                        assert(blank_line_at(source@, i, j));
                    } else {
                        assert(j == k);
                        assert(before is None);
                        assert(!blank_between(source@, i, k as int));
                    }
                }
            }
            assert forall|i: int|
                start <= i < next && #[trigger] source@[i] == LINE_FEED && open_line != Some(
                    i as usize,
                ) implies !blank_between(source@, i, next as int) by {
                if i < k {
                    if before == Some(i as usize) {
                        assert(!is_blank(source@[k as int]));
                    } else {
                        assert(!blank_between(source@, i, k as int));
                        let m = choose|m: int| i < m < k && !is_blank(#[trigger] source@[m]);
                        assert(!is_blank(source@[m]));
                    }
                }
            }
        }
        k += 1;
    }
    proof {
        if has_blank_line(source@, start as int, end as int) {
            let (i, j) = choose|i: int, j: int|
                start <= i && j < end && #[trigger] blank_line_at(source@, i, j);
            assert(blank_line_at(source@, i, j));
            assert(j < k);
            assert(has_blank_line(source@, start as int, k as int));
        }
    }
    false
}

/// A byte that may follow a node on its own line: a space, a tab, or one of
/// the separators `,` and `;`.
pub open spec fn is_line_tail(byte: u8) -> bool {
    byte == 0x20 || byte == 0x09 || byte == 0x2c || byte == 0x3b
}

/// The first offset at or after `from` whose byte is no line tail, or the
/// length of the text.
pub open spec fn skip_line_tail(source: Seq<u8>, from: int) -> int
    decreases source.len() - from,
{
    if 0 <= from < source.len() && is_line_tail(source[from]) {
        skip_line_tail(source, from + 1)
    } else {
        from
    }
}

/// The first offset at or after `from` whose byte is neither a space nor a
/// tab, or the length of the text.
pub open spec fn skip_spaces(source: Seq<u8>, from: int) -> int
    decreases source.len() - from,
{
    if 0 <= from < source.len() && (source[from] == 0x20 || source[from] == 0x09) {
        skip_spaces(source, from + 1)
    } else {
        from
    }
}

/// A line ends at `at`: with a line feed or with a carriage return.
pub open spec fn at_line_end(source: Seq<u8>, at: int) -> bool {
    0 <= at < source.len() && (source[at] == LINE_FEED || source[at] == CARRIAGE_RETURN)
}

/// The offset behind the line end that stands at `at`: a carriage return
/// and the line feed behind it count as one.
pub open spec fn after_line_end(source: Seq<u8>, at: int) -> int {
    if source[at] == CARRIAGE_RETURN && at + 1 < source.len() && source[at + 1] == LINE_FEED {
        at + 2
    } else {
        at + 1
    }
}

/// The line after the one on which `pos` stands is empty: behind `pos` its
/// line holds only spaces, tabs, `,` and `;`, and the next line holds only
/// spaces and tabs.
pub open spec fn next_line_empty(source: Seq<u8>, pos: int) -> bool {
    let tail = skip_line_tail(source, pos);
    at_line_end(source, tail) && at_line_end(
        source,
        skip_spaces(source, after_line_end(source, tail)),
    )
}

/// Whether the line after the one on which the offset `pos` stands is empty.
pub fn is_next_line_empty(source: &[u8], pos: u32) -> (empty: bool)
    ensures
        empty == next_line_empty(source@, pos as int),
{
    let len = source.len();
    let mut tail: usize = pos as usize;
    while tail < len && (source[tail] == 0x20 || source[tail] == 0x09 || source[tail] == 0x2c
        || source[tail] == 0x3b)
        invariant
            len == source.len(),
            pos <= tail,
            skip_line_tail(source@, pos as int) == skip_line_tail(source@, tail as int),
        decreases len - tail,
    {
        tail += 1;
    }
    if tail >= len || !(source[tail] == LINE_FEED || source[tail] == CARRIAGE_RETURN) {
        return false;
    }
    let mut next: usize = if source[tail] == CARRIAGE_RETURN && tail + 1 < len && source[tail + 1]
        == LINE_FEED {
        tail + 2
    } else {
        tail + 1
    };
    let ghost line_start = next;
    while next < len && (source[next] == 0x20 || source[next] == 0x09)
        invariant
            len == source.len(),
            line_start <= next,
            skip_spaces(source@, line_start as int) == skip_spaces(source@, next as int),
        decreases len - next,
    {
        next += 1;
    }
    next < len && (source[next] == LINE_FEED || source[next] == CARRIAGE_RETURN)
}

} // verus!
