//! What holds of a group that is printed flat: it stays on its line, and
//! the line stays within the width.

use vstd::prelude::*;
use crate::doc::{DocView, LineKind, Mode};
use crate::layout::{
    display_width, fits, following, group_mode, layout, layout_seq, lemma_display_width_add,
    lemma_layout_seq_stopped, note, printed, resolve, scan_doc, scan_seq, settles, start,
    unresolved, CmdView, Measure, PrintState,
};
use crate::ast::FormalParameters;
use crate::context::FormatContext;
use crate::function_parameters::{hugs_only_parameter, parameters_doc, ParameterDocs};
use crate::object::{breaks_by_source, object_doc, stays_flat, ObjectLike};
use crate::printer::lemma_scan_stack_following;

verus! {

/// A strict measurement in flat mode never ends at a line break: it goes on
/// or it is over.
pub proof fn lemma_strict_flat_scan(doc: DocView, left: nat, modes: Map<u32, Mode>)
    ensures
        !(scan_doc(doc, Mode::Flat, true, left, modes) is Ends),
    decreases doc, 0nat,
{
    match doc {
        DocView::Text(_) => {},
        DocView::Line(_) => {},
        DocView::Concat(docs) => {
            lemma_strict_flat_scan_seq(docs, 0, left, modes);
        },
        DocView::Array(docs) => {
            lemma_strict_flat_scan_seq(docs, 0, left, modes);
        },
        DocView::Indent(content) => {
            lemma_strict_flat_scan(*content, left, modes);
        },
        DocView::Group { content, should_break, id } => {
            if !should_break {
                lemma_strict_flat_scan(*content, left, note(modes, id, Mode::Flat));
            }
        },
        DocView::IfBreak { break_contents, flat_contents, group_id } => {
            if resolve(group_id, Mode::Flat, modes) == Mode::Break {
                lemma_strict_flat_scan(*break_contents, left, modes);
            } else {
                lemma_strict_flat_scan(*flat_contents, left, modes);
            }
        },
    }
}

/// A strict measurement of a sequence in flat mode never ends at a line
/// break.
pub proof fn lemma_strict_flat_scan_seq(
    docs: Seq<DocView>,
    from: int,
    left: nat,
    modes: Map<u32, Mode>,
)
    ensures
        !(scan_seq(docs, from, Mode::Flat, true, left, modes) is Ends),
    decreases docs, docs.len() - from,
{
    if 0 <= from < docs.len() {
        lemma_strict_flat_scan(docs[from], left, modes);
        match scan_doc(docs[from], Mode::Flat, true, left, modes) {
            Measure::Goes { left: left2, modes: modes2 } => {
                lemma_strict_flat_scan_seq(docs, from + 1, left2, modes2);
            },
            _ => {},
        }
    }
}

/// Where a strict measurement goes on, the measurement that is not strict
/// gives the same.
pub proof fn lemma_strict_scan_goes(doc: DocView, mode: Mode, left: nat, modes: Map<u32, Mode>)
    requires
        scan_doc(doc, mode, true, left, modes) is Goes,
    ensures
        scan_doc(doc, mode, false, left, modes) == scan_doc(doc, mode, true, left, modes),
    decreases doc, 0nat,
{
    match doc {
        DocView::Text(_) => {},
        DocView::Line(_) => {},
        DocView::Concat(docs) => {
            lemma_strict_scan_seq_goes(docs, 0, mode, left, modes);
        },
        DocView::Array(docs) => {
            lemma_strict_scan_seq_goes(docs, 0, mode, left, modes);
        },
        DocView::Indent(content) => {
            lemma_strict_scan_goes(*content, mode, left, modes);
        },
        DocView::Group { content, should_break, id } => {
            if !should_break {
                if mode == Mode::Flat {
                    lemma_strict_scan_goes(*content, mode, left, note(modes, id, Mode::Flat));
                } else {
                    lemma_strict_scan_goes(*content, mode, left, modes);
                }
            }
        },
        DocView::IfBreak { break_contents, flat_contents, group_id } => {
            if resolve(group_id, mode, modes) == Mode::Break {
                lemma_strict_scan_goes(*break_contents, mode, left, modes);
            } else {
                lemma_strict_scan_goes(*flat_contents, mode, left, modes);
            }
        },
    }
}

/// Where a strict measurement of a sequence goes on, the measurement that
/// is not strict gives the same.
pub proof fn lemma_strict_scan_seq_goes(
    docs: Seq<DocView>,
    from: int,
    mode: Mode,
    left: nat,
    modes: Map<u32, Mode>,
)
    requires
        scan_seq(docs, from, mode, true, left, modes) is Goes,
    ensures
        scan_seq(docs, from, mode, false, left, modes) == scan_seq(docs, from, mode, true, left, modes),
    decreases docs, docs.len() - from,
{
    if 0 <= from < docs.len() {
        match scan_doc(docs[from], mode, true, left, modes) {
            Measure::Goes { left: left2, modes: modes2 } => {
                lemma_strict_scan_goes(docs[from], mode, left, modes);
                lemma_strict_scan_seq_goes(docs, from + 1, mode, left2, modes2);
            },
            _ => {},
        }
    }
}

/// `after` is `before` with more text on the same line: the column has
/// grown by the width of what was written, and is `column`.
pub open spec fn continues_line(before: PrintState, after: PrintState) -> bool {
    &&& before.out.len() <= after.out.len()
    &&& after.out.take(before.out.len() as int) == before.out
    &&& after.column == before.column + display_width(after.out.skip(before.out.len() as int))
}

/// Text after text on one line is text on that line.
pub proof fn lemma_continues_line_twice(first: PrintState, second: PrintState, third: PrintState)
    requires
        continues_line(first, second),
        continues_line(second, third),
    ensures
        continues_line(first, third),
{
    let a = first.out.len() as int;
    let b = second.out.len() as int;
    assert(third.out.take(a) =~= third.out.take(b).take(a));
    assert(third.out.skip(a) =~= second.out.skip(a) + third.out.skip(b));
    lemma_display_width_add(second.out.skip(a), third.out.skip(b));
}

/// What a document that was measured flat does when it is printed flat:
/// unless printing stops, it continues the line, the column moves by what
/// the measurement took, and the groups are noted as the measurement
/// assumed them.
pub open spec fn prints_as_measured(
    st: PrintState,
    end: PrintState,
    measure: Measure,
    width: nat,
) -> bool {
    end.failure is None ==> {
        &&& measure is Goes
        &&& end.modes == measure->modes
        &&& end.column + measure->left == width
        &&& continues_line(st, end)
    }
}

/// A document that fits when measured flat is printed flat as it was
/// measured.
pub proof fn lemma_flat_layout(
    doc: DocView,
    indent: nat,
    st: PrintState,
    rest: Seq<CmdView>,
    width: nat,
    left: nat,
)
    requires
        st.failure is None,
        st.column + left == width,
        settles(scan_doc(doc, Mode::Flat, true, left, st.modes), rest),
    ensures
        prints_as_measured(
            st,
            layout(doc, indent, Mode::Flat, st, rest, width),
            scan_doc(doc, Mode::Flat, true, left, st.modes),
            width,
        ),
    decreases doc, 0nat,
{
    lemma_strict_flat_scan(doc, left, st.modes);
    match doc {
        DocView::Text(text) => {
            let end = layout(doc, indent, Mode::Flat, st, rest, width);
            assert(end.out.take(st.out.len() as int) =~= st.out);
            assert(end.out.skip(st.out.len() as int) =~= text);
        },
        DocView::Line(kind) => {
            let end = layout(doc, indent, Mode::Flat, st, rest, width);
            assert(end.out.take(st.out.len() as int) =~= st.out);
            if kind == LineKind::Space {
                assert(end.out.skip(st.out.len() as int) =~= seq![' ']);
                assert(display_width(seq![' ']) == 1) by {
                    assert(seq![' '].drop_last() =~= Seq::<char>::empty());
                    assert(display_width(Seq::<char>::empty()) == 0);
                }
            } else {
                assert(end.out.skip(st.out.len() as int) =~= Seq::<char>::empty());
            }
        },
        DocView::Concat(docs) => {
            lemma_flat_layout_seq(docs, 0, indent, st, rest, width, left);
        },
        DocView::Array(docs) => {
            lemma_flat_layout_seq(docs, 0, indent, st, rest, width, left);
        },
        DocView::Indent(content) => {
            lemma_flat_layout(*content, indent + 1, st, rest, width, left);
        },
        DocView::Group { content, should_break, id } => {
            assert(!should_break);
            assert(fits(*content, id, rest, width, st));
            assert(group_mode(*content, should_break, id, rest, width, st) == Mode::Flat);
            let noted = st.noting(id, Mode::Flat);
            lemma_flat_layout(*content, indent, noted, rest, width, left);
            let end = layout(*content, indent, Mode::Flat, noted, rest, width);
            assert(continues_line(noted, end) ==> continues_line(st, end));
        },
        DocView::IfBreak { break_contents, flat_contents, group_id } => {
            if !unresolved(group_id, st.modes) {
                if resolve(group_id, Mode::Flat, st.modes) == Mode::Break {
                    lemma_flat_layout(*break_contents, indent, st, rest, width, left);
                } else {
                    lemma_flat_layout(*flat_contents, indent, st, rest, width, left);
                }
            }
        },
    }
}

/// A sequence of documents that fits when measured flat is printed flat as
/// it was measured.
pub proof fn lemma_flat_layout_seq(
    docs: Seq<DocView>,
    from: int,
    indent: nat,
    st: PrintState,
    rest: Seq<CmdView>,
    width: nat,
    left: nat,
)
    requires
        0 <= from,
        st.failure is None,
        st.column + left == width,
        settles(scan_seq(docs, from, Mode::Flat, true, left, st.modes), rest),
    ensures
        prints_as_measured(
            st,
            layout_seq(docs, from, indent, Mode::Flat, st, rest, width),
            scan_seq(docs, from, Mode::Flat, true, left, st.modes),
            width,
        ),
    decreases docs, docs.len() - from,
{
    lemma_strict_flat_scan_seq(docs, from, left, st.modes);
    if from < docs.len() {
        let first = scan_doc(docs[from], Mode::Flat, true, left, st.modes);
        lemma_strict_flat_scan(docs[from], left, st.modes);
        assert(first is Goes);
        let left1 = first->left;
        let modes1 = first->modes;
        let whole = scan_seq(docs, from, Mode::Flat, true, left, st.modes);
        assert(whole == scan_seq(docs, from + 1, Mode::Flat, true, left1, modes1));
        assert(whole is Goes);
        let waiting = rest + following(docs, from + 1, indent, Mode::Flat);
        assert(settles(first, waiting)) by {
            lemma_scan_stack_following(
                rest,
                docs,
                from + 1,
                indent,
                Mode::Flat,
                false,
                left1,
                modes1,
            );
            lemma_strict_scan_seq_goes(docs, from + 1, Mode::Flat, left1, modes1);
        }
        lemma_flat_layout(docs[from], indent, st, waiting, width, left);
        let next = layout(docs[from], indent, Mode::Flat, st, waiting, width);
        if next.failure is Some {
            lemma_layout_seq_stopped(docs, from + 1, indent, Mode::Flat, next, rest, width);
        } else {
            lemma_flat_layout_seq(docs, from + 1, indent, next, rest, width, left1);
            let end = layout_seq(docs, from + 1, indent, Mode::Flat, next, rest, width);
            if end.failure is None {
                lemma_continues_line_twice(st, next, end);
            }
        }
    } else {
        assert(st.out.take(st.out.len() as int) =~= st.out);
        assert(st.out.skip(st.out.len() as int) =~= Seq::<char>::empty());
    }
}

/// A group that is printed flat stays on its line and within the width:
/// whatever its content is, all of it is written behind what the line
/// holds, and the column behind it is no greater than the width.
pub proof fn lemma_flat_group_stays_within_width(
    content: DocView,
    should_break: bool,
    id: Option<u32>,
    indent: nat,
    mode: Mode,
    st: PrintState,
    rest: Seq<CmdView>,
    width: nat,
)
    requires
        st.failure is None,
        group_mode(content, should_break, id, rest, width, st) == Mode::Flat,
    ensures
        ({
            let end = layout(
                DocView::Group { content: Box::new(content), should_break, id },
                indent,
                mode,
                st,
                rest,
                width,
            );
            end.failure is None ==> continues_line(st, end) && end.column <= width
        }),
{
    let noted = st.noting(id, Mode::Flat);
    let left = (width - st.column) as nat;
    lemma_flat_layout(content, indent, noted, rest, width, left);
    let end = layout(content, indent, Mode::Flat, noted, rest, width);
    assert(continues_line(noted, end) ==> continues_line(st, end));
}

/// A document that is one group, which fits, becomes one line that is no
/// wider than the width.
pub proof fn lemma_fitting_group_is_within_width(content: DocView, id: Option<u32>, width: nat)
    requires
        fits(content, id, Seq::empty(), width, start()),
    ensures
        printed(DocView::Group { content: Box::new(content), should_break: false, id }, width) matches Ok(
            text,
        ) ==> display_width(text) <= width,
{
    lemma_flat_group_stays_within_width(
        content,
        false,
        id,
        0,
        Mode::Break,
        start(),
        Seq::empty(),
        width,
    );
    let end = layout(
        DocView::Group { content: Box::new(content), should_break: false, id },
        0,
        Mode::Break,
        start(),
        Seq::empty(),
        width,
    );
    assert(end.out.skip(0) =~= end.out);
}

/// A parameter list that is a group, and fits, is written on its line and
/// ends within the width; a list that is exactly as wide as what is left of
/// the line fits.
pub proof fn lemma_fitting_parameters_stay_within_width(
    ctx: FormatContext,
    params: FormalParameters,
    docs: ParameterDocs,
    indent: nat,
    mode: Mode,
    st: PrintState,
    rest: Seq<CmdView>,
    width: nat,
)
    requires
        !hugs_only_parameter(ctx, params),
        !ctx.options.expand_first_argument,
        st.failure is None,
        parameters_doc(ctx, params, docs) matches DocView::Group { content, should_break, id }
            && fits(*content, id, rest, width, st),
    ensures
        ({
            let end = layout(parameters_doc(ctx, params, docs), indent, mode, st, rest, width);
            end.failure is None ==> continues_line(st, end) && end.column <= width
        }),
{
    let group = parameters_doc(ctx, params, docs);
    lemma_flat_group_stays_within_width(
        *group->content,
        false,
        None,
        indent,
        mode,
        st,
        rest,
        width,
    );
}

/// An object-like container that is a group, is not forced to break by an
/// empty line of the author's, and fits, is written on its line and ends
/// within the width.
pub proof fn lemma_fitting_object_stays_within_width(
    ctx: FormatContext,
    object: ObjectLike,
    indent: nat,
    mode: Mode,
    st: PrintState,
    rest: Seq<CmdView>,
    width: nat,
)
    requires
        object.members().len() > 0 || object.rest() is Some,
        !stays_flat(ctx, object),
        !breaks_by_source(ctx, object),
        st.failure is None,
        object_doc(ctx, object) matches DocView::Group { content, should_break, id } && fits(
            *content,
            id,
            rest,
            width,
            st,
        ),
    ensures
        ({
            let end = layout(object_doc(ctx, object), indent, mode, st, rest, width);
            end.failure is None ==> continues_line(st, end) && end.column <= width
        }),
{
    let group = object_doc(ctx, object);
    lemma_flat_group_stays_within_width(
        *group->content,
        false,
        None,
        indent,
        mode,
        st,
        rest,
        width,
    );
}

/// A group is printed broken exactly if it is forced to break or does not
/// fit.
pub proof fn lemma_group_breaks_unless_it_fits(
    content: DocView,
    should_break: bool,
    id: Option<u32>,
    st: PrintState,
    rest: Seq<CmdView>,
    width: nat,
)
    ensures
        group_mode(content, should_break, id, rest, width, st) == Mode::Break <==> should_break
            || !fits(content, id, rest, width, st),
{
}

} // verus!
