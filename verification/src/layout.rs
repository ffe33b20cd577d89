//! What the printer computes, as mathematics: how wide a text is, whether a
//! group fits on the rest of its line, and the text that a document becomes.

use vstd::prelude::*;
use crate::doc::{DocView, LineKind, Mode};

verus! {

/// The number of columns that one indentation level takes.
pub const INDENT_WIDTH: usize = 2;

/// Why a document cannot be printed.
#[derive(Clone, Copy, Debug, PartialEq, Eq, Structural)]
pub enum RenderError {
    /// An `IfBreak` names a group that has not been printed when the
    /// `IfBreak` is reached.
    UnresolvedGroup(u32),
}

/// The number of indentation levels that lie one in the other in `doc`.
pub open spec fn indent_depth(doc: DocView) -> nat
    decreases doc, 0nat,
{
    match doc {
        DocView::Text(_) => 0,
        DocView::Line(_) => 0,
        DocView::Concat(docs) => deepest_indent(docs, 0),
        DocView::Array(docs) => deepest_indent(docs, 0),
        DocView::Indent(content) => 1 + indent_depth(*content),
        DocView::Group { content, .. } => indent_depth(*content),
        DocView::IfBreak { break_contents, flat_contents, .. } => if indent_depth(*break_contents)
            >= indent_depth(*flat_contents) {
            indent_depth(*break_contents)
        } else {
            indent_depth(*flat_contents)
        },
    }
}

/// The greatest `indent_depth` of the documents of `docs` from `from` on.
pub open spec fn deepest_indent(docs: Seq<DocView>, from: int) -> nat
    decreases docs, docs.len() - from,
{
    if 0 <= from < docs.len() {
        if indent_depth(docs[from]) >= deepest_indent(docs, from + 1) {
            indent_depth(docs[from])
        } else {
            deepest_indent(docs, from + 1)
        }
    } else {
        0
    }
}

/// No document of a sequence is indented deeper than the deepest of them.
pub proof fn lemma_deepest_indent(docs: Seq<DocView>, from: int, i: int)
    requires
        0 <= from <= i < docs.len(),
    ensures
        indent_depth(docs[i]) <= deepest_indent(docs, from),
    decreases i - from,
{
    if from < i {
        lemma_deepest_indent(docs, from + 1, i);
    }
}

/// Whether the machine can count the columns of the deepest indentation of
/// `doc`.
pub open spec fn indentation_fits(doc: DocView) -> bool {
    INDENT_WIDTH * indent_depth(doc) <= usize::MAX
}

/// A control character: it takes no column.
pub open spec fn is_control(c: char) -> bool {
    (c as u32) < 0x20 || (0x7f <= (c as u32) && (c as u32) <= 0x9f)
}

/// The number of columns that `text` takes: one for each character that is
/// no control character, whatever the number of its bytes.
pub open spec fn display_width(text: Seq<char>) -> nat
    decreases text.len(),
{
    if text.len() == 0 {
        0
    } else {
        display_width(text.drop_last()) + if is_control(text.last()) {
            0nat
        } else {
            1nat
        }
    }
}

/// A text is at most as wide as it is long.
pub proof fn lemma_display_width_bound(text: Seq<char>)
    ensures
        display_width(text) <= text.len(),
    decreases text.len(),
{
    if text.len() > 0 {
        lemma_display_width_bound(text.drop_last());
    }
}

/// The width of a text that is put behind another is the sum of both.
pub proof fn lemma_display_width_add(a: Seq<char>, b: Seq<char>)
    ensures
        display_width(a + b) == display_width(a) + display_width(b),
    decreases b.len(),
{
    if b.len() == 0 {
        assert(a + b =~= a);
    } else {
        assert((a + b).drop_last() =~= a + b.drop_last());
        lemma_display_width_add(a, b.drop_last());
    }
}

/// `text` without the spaces and tabs at its end.
pub open spec fn trim_end(text: Seq<char>) -> Seq<char>
    decreases text.len(),
{
    if text.len() > 0 && (text.last() == ' ' || text.last() == '\t') {
        trim_end(text.drop_last())
    } else {
        text
    }
}

/// `n` spaces.
pub open spec fn spaces(n: nat) -> Seq<char> {
    Seq::new(n, |i: int| ' ')
}

/// A document that waits to be printed, with the indentation level and the
/// mode that it inherits.
pub struct CmdView {
    pub indent: nat,
    pub mode: Mode,
    pub doc: DocView,
}

/// What the printer has written, and what it knows.
pub struct PrintState {
    /// The text so far.
    pub out: Seq<char>,
    /// The column behind the last character of the current line.
    pub column: nat,
    /// The mode of each group that has an identifier and was printed.
    pub modes: Map<u32, Mode>,
    /// Why printing stopped, if it did: nothing is written after that.
    pub failure: Option<RenderError>,
}

impl PrintState {
    /// This state, stopped for `error`.
    pub open spec fn fail(self, error: RenderError) -> PrintState {
        PrintState { out: self.out, column: self.column, modes: self.modes, failure: Some(error) }
    }

    /// This state, with `mode` noted for the group `id`.
    pub open spec fn noting(self, id: Option<u32>, mode: Mode) -> PrintState {
        PrintState {
            out: self.out,
            column: self.column,
            modes: note(self.modes, id, mode),
            failure: self.failure,
        }
    }

    /// This state, with `text` written.
    pub open spec fn write(self, text: Seq<char>) -> PrintState {
        PrintState {
            out: self.out + text,
            column: self.column + display_width(text),
            modes: self.modes,
            failure: self.failure,
        }
    }
}

/// The mode by which an `IfBreak` chooses its branch: that of the group it
/// names, else that of the innermost group around it. A group that has not
/// been seen counts as flat.
pub open spec fn resolve(group_id: Option<u32>, mode: Mode, modes: Map<u32, Mode>) -> Mode {
    match group_id {
        Some(id) => if modes.contains_key(id) {
            modes[id]
        } else {
            Mode::Flat
        },
        None => mode,
    }
}

/// An `IfBreak` names a group of which `modes` knows nothing.
pub open spec fn unresolved(group_id: Option<u32>, modes: Map<u32, Mode>) -> bool {
    group_id matches Some(id) && !modes.contains_key(id)
}

/// `modes`, with the group `id` noted as `mode` if it has an identifier.
pub open spec fn note(modes: Map<u32, Mode>, id: Option<u32>, mode: Mode) -> Map<u32, Mode> {
    match id {
        Some(id) => modes.insert(id, mode),
        None => modes,
    }
}

/// How far a measurement got.
pub enum Measure {
    /// A line break was reached: all that was measured fits.
    Ends,
    /// Everything so far fits, `left` columns remain.
    Goes { left: nat, modes: Map<u32, Mode> },
    /// The width is used up, or something forced a break where none may be.
    Over,
}

/// Measures `doc` as it would be written in `mode`, with `left` columns
/// free.
///
/// A text takes its width. A line in break mode, and a hard or literal
/// line, end the measurement; a line in flat mode takes what it renders as.
/// A group that is forced to break is measured broken, any other in the
/// mode around it. With `strict` set the document has to stay on one line:
/// a hard or literal line, and a group that is forced to break, are then
/// `Over`.
pub open spec fn scan_doc(
    doc: DocView,
    mode: Mode,
    strict: bool,
    left: nat,
    modes: Map<u32, Mode>,
) -> Measure
    decreases doc, 0nat,
{
    match doc {
        DocView::Text(text) => if display_width(text) > left {
            Measure::Over
        } else {
            Measure::Goes { left: (left - display_width(text)) as nat, modes }
        },
        DocView::Line(kind) => if kind == LineKind::Hard || kind == LineKind::Literal {
            if strict {
                Measure::Over
            } else {
                Measure::Ends
            }
        } else if mode == Mode::Break {
            Measure::Ends
        } else if kind == LineKind::Soft {
            Measure::Goes { left, modes }
        } else if left == 0 {
            Measure::Over
        } else {
            Measure::Goes { left: (left - 1) as nat, modes }
        },
        DocView::Concat(docs) => scan_seq(docs, 0, mode, strict, left, modes),
        DocView::Array(docs) => scan_seq(docs, 0, mode, strict, left, modes),
        DocView::Indent(content) => scan_doc(*content, mode, strict, left, modes),
        DocView::Group { content, should_break, id } => if should_break {
            if strict {
                Measure::Over
            } else {
                scan_doc(*content, Mode::Break, strict, left, note(modes, id, Mode::Break))
            }
        } else if mode == Mode::Flat {
            scan_doc(*content, mode, strict, left, note(modes, id, Mode::Flat))
        } else {
            scan_doc(*content, mode, strict, left, modes)
        },
        DocView::IfBreak { break_contents, flat_contents, group_id } => if resolve(
            group_id,
            mode,
            modes,
        ) == Mode::Break {
            scan_doc(*break_contents, mode, strict, left, modes)
        } else {
            scan_doc(*flat_contents, mode, strict, left, modes)
        },
    }
}

/// Measures the documents of `docs` from `from` on, one after the other.
pub open spec fn scan_seq(
    docs: Seq<DocView>,
    from: int,
    mode: Mode,
    strict: bool,
    left: nat,
    modes: Map<u32, Mode>,
) -> Measure
    decreases docs, docs.len() - from,
{
    if 0 <= from < docs.len() {
        match scan_doc(docs[from], mode, strict, left, modes) {
            Measure::Goes { left, modes } => scan_seq(docs, from + 1, mode, strict, left, modes),
            other => other,
        }
    } else {
        Measure::Goes { left, modes }
    }
}

/// Measures a stack of waiting documents, the last of which is next.
pub open spec fn scan_stack(
    cmds: Seq<CmdView>,
    strict: bool,
    left: nat,
    modes: Map<u32, Mode>,
) -> Measure
    decreases cmds.len(),
{
    if cmds.len() == 0 {
        Measure::Goes { left, modes }
    } else {
        match scan_doc(cmds.last().doc, cmds.last().mode, strict, left, modes) {
            Measure::Goes { left, modes } => scan_stack(cmds.drop_last(), strict, left, modes),
            other => other,
        }
    }
}

/// Whether a measurement, carried on through what waits in `rest`, stays
/// within the width up to the next line break or the end of the document.
pub open spec fn settles(measure: Measure, rest: Seq<CmdView>) -> bool {
    match measure {
        Measure::Goes { left, modes } => !(scan_stack(rest, false, left, modes) is Over),
        Measure::Ends => true,
        Measure::Over => false,
    }
}

/// Whether a group with the content `content` fits: written flat from the
/// column of `st` on, it and what follows it on the same line end at or
/// before the column `width`. What follows is what waits in `rest`, up to
/// its first line break.
pub open spec fn fits(
    content: DocView,
    id: Option<u32>,
    rest: Seq<CmdView>,
    width: nat,
    st: PrintState,
) -> bool {
    st.column <= width && settles(
        scan_doc(
            content,
            Mode::Flat,
            true,
            (width - st.column) as nat,
            note(st.modes, id, Mode::Flat),
        ),
        rest,
    )
}

/// The mode in which a group is printed: broken if it is forced to break
/// or does not fit, else flat.
pub open spec fn group_mode(
    content: DocView,
    should_break: bool,
    id: Option<u32>,
    rest: Seq<CmdView>,
    width: nat,
    st: PrintState,
) -> Mode {
    if !should_break && fits(content, id, rest, width, st) {
        Mode::Flat
    } else {
        Mode::Break
    }
}

/// The state after a line break at the indentation level `indent`: what
/// stood at the end of the line as spaces and tabs is gone, the new line
/// starts with its indentation.
pub open spec fn break_line(st: PrintState, indent: nat) -> PrintState {
    PrintState {
        out: trim_end(st.out).push('\n') + spaces(indent * INDENT_WIDTH as nat),
        column: indent * INDENT_WIDTH as nat,
        modes: st.modes,
        failure: st.failure,
    }
}

/// The state after a line primitive: a literal line is a line feed and
/// nothing more; a hard line, and any other line in break mode, break the
/// line; in flat mode a line is a space and a soft line is nothing.
pub open spec fn print_line(kind: LineKind, indent: nat, mode: Mode, st: PrintState) -> PrintState {
    if kind == LineKind::Literal {
        PrintState { out: st.out.push('\n'), column: 0, modes: st.modes, failure: st.failure }
    } else if mode == Mode::Break || kind == LineKind::Hard {
        break_line(st, indent)
    } else if kind == LineKind::Space {
        PrintState {
            out: st.out.push(' '),
            column: st.column + 1,
            modes: st.modes,
            failure: st.failure,
        }
    } else {
        st
    }
}

/// The documents of `docs` from `from` on as they wait on the stack: the
/// one at `from` is last, and so next.
pub open spec fn following(docs: Seq<DocView>, from: int, indent: nat, mode: Mode) -> Seq<CmdView> {
    Seq::new(
        (docs.len() - from) as nat,
        |k: int| CmdView { indent, mode, doc: docs[docs.len() - 1 - k] },
    )
}

/// The state after `doc` is printed at the level `indent` in `mode`, with
/// `rest` waiting behind it.
///
/// A text is written as it is. The documents of a concatenation are printed
/// one after the other. An indented document is printed one level deeper.
/// A group is printed in its `group_mode`, which is noted under its
/// identifier. An `IfBreak` is the branch that the mode of its group picks;
/// if it names a group that has not been printed, printing stops. Once
/// printing has stopped, nothing changes any more.
pub open spec fn layout(
    doc: DocView,
    indent: nat,
    mode: Mode,
    st: PrintState,
    rest: Seq<CmdView>,
    width: nat,
) -> PrintState
    decreases doc, 0nat,
{
    if st.failure is Some {
        st
    } else {
        match doc {
            DocView::Text(text) => st.write(text),
            DocView::Line(kind) => print_line(kind, indent, mode, st),
            DocView::Concat(docs) => layout_seq(docs, 0, indent, mode, st, rest, width),
            DocView::Array(docs) => layout_seq(docs, 0, indent, mode, st, rest, width),
            DocView::Indent(content) => layout(*content, indent + 1, mode, st, rest, width),
            DocView::Group { content, should_break, id } => {
                let chosen = group_mode(*content, should_break, id, rest, width, st);
                layout(*content, indent, chosen, st.noting(id, chosen), rest, width)
            },
            DocView::IfBreak { break_contents, flat_contents, group_id } => if unresolved(
                group_id,
                st.modes,
            ) {
                st.fail(RenderError::UnresolvedGroup(group_id->0))
            } else if resolve(group_id, mode, st.modes) == Mode::Break {
                layout(*break_contents, indent, mode, st, rest, width)
            } else {
                layout(*flat_contents, indent, mode, st, rest, width)
            },
        }
    }
}

/// The state after the documents of `docs` from `from` on are printed, one
/// after the other. While one is printed, those behind it wait before
/// `rest`.
pub open spec fn layout_seq(
    docs: Seq<DocView>,
    from: int,
    indent: nat,
    mode: Mode,
    st: PrintState,
    rest: Seq<CmdView>,
    width: nat,
) -> PrintState
    decreases docs, docs.len() - from,
{
    if 0 <= from < docs.len() {
        let next = layout(
            docs[from],
            indent,
            mode,
            st,
            rest + following(docs, from + 1, indent, mode),
            width,
        );
        layout_seq(docs, from + 1, indent, mode, next, rest, width)
    } else {
        st
    }
}

/// The state after everything on the stack `cmds` is printed, last first.
pub open spec fn run(cmds: Seq<CmdView>, st: PrintState, width: nat) -> PrintState
    decreases cmds.len(),
{
    if cmds.len() == 0 {
        st
    } else {
        let top = cmds.last();
        run(
            cmds.drop_last(),
            layout(top.doc, top.indent, top.mode, st, cmds.drop_last(), width),
            width,
        )
    }
}

/// The state in which printing starts.
pub open spec fn start() -> PrintState {
    PrintState { out: Seq::empty(), column: 0, modes: Map::empty(), failure: None }
}

/// What printing `doc` within the width `width` gives: `doc` is printed at
/// the left margin, in break mode, with nothing behind it. The result is
/// the text, or the reason for which printing stopped.
pub open spec fn printed(doc: DocView, width: nat) -> Result<Seq<char>, RenderError> {
    let end = layout(doc, 0, Mode::Break, start(), Seq::empty(), width);
    match end.failure {
        Some(error) => Err(error),
        None => Ok(end.out),
    }
}

/// Once printing has stopped, a document changes nothing.
pub proof fn lemma_layout_stopped(
    doc: DocView,
    indent: nat,
    mode: Mode,
    st: PrintState,
    rest: Seq<CmdView>,
    width: nat,
)
    requires
        st.failure is Some,
    ensures
        layout(doc, indent, mode, st, rest, width) == st,
{
}

/// Once printing has stopped, a sequence of documents changes nothing.
pub proof fn lemma_layout_seq_stopped(
    docs: Seq<DocView>,
    from: int,
    indent: nat,
    mode: Mode,
    st: PrintState,
    rest: Seq<CmdView>,
    width: nat,
)
    requires
        st.failure is Some,
    ensures
        layout_seq(docs, from, indent, mode, st, rest, width) == st,
    decreases docs.len() - from,
{
    if 0 <= from < docs.len() {
        lemma_layout_stopped(
            docs[from],
            indent,
            mode,
            st,
            rest + following(docs, from + 1, indent, mode),
            width,
        );
        lemma_layout_seq_stopped(docs, from + 1, indent, mode, st, rest, width);
    }
}

/// Once printing has stopped, what waits on the stack changes nothing.
pub proof fn lemma_run_stopped(cmds: Seq<CmdView>, st: PrintState, width: nat)
    requires
        st.failure is Some,
    ensures
        run(cmds, st, width) == st,
    decreases cmds.len(),
{
    if cmds.len() > 0 {
        lemma_run_stopped(cmds.drop_last(), st, width);
    }
}

/// A stack prints as its last document does, and then as what lies beneath
/// it.
pub proof fn lemma_run_push(cmds: Seq<CmdView>, top: CmdView, st: PrintState, width: nat)
    ensures
        run(cmds.push(top), st, width) == run(
            cmds,
            layout(top.doc, top.indent, top.mode, st, cmds, width),
            width,
        ),
{
    assert(cmds.push(top).drop_last() =~= cmds);
}

/// The documents of `docs` from `from` on, put on a stack, print as the
/// sequence does, and then as what lies beneath them.
pub proof fn lemma_run_following(
    cmds: Seq<CmdView>,
    docs: Seq<DocView>,
    from: int,
    indent: nat,
    mode: Mode,
    st: PrintState,
    width: nat,
)
    requires
        0 <= from <= docs.len(),
    ensures
        run(cmds + following(docs, from, indent, mode), st, width) == run(
            cmds,
            layout_seq(docs, from, indent, mode, st, cmds, width),
            width,
        ),
    decreases docs.len() - from,
{
    if from == docs.len() {
        assert(cmds + following(docs, from, indent, mode) =~= cmds);
    } else {
        let top = CmdView { indent, mode, doc: docs[from] };
        let below = cmds + following(docs, from + 1, indent, mode);
        assert(cmds + following(docs, from, indent, mode) =~= below.push(top));
        lemma_run_push(below, top, st, width);
        lemma_run_following(
            cmds,
            docs,
            from + 1,
            indent,
            mode,
            layout(docs[from], indent, mode, st, below, width),
            width,
        );
    }
}

} // verus!
