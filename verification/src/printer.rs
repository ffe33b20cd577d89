//! The printer: the work list of documents that wait, the check whether a
//! group fits, and the pass that writes the text.

use vstd::prelude::*;
use std::collections::HashMap;
use crate::doc::{models, Doc, DocView, LineKind, Mode};
use crate::layout::{
    display_width, following, group_mode, layout, lemma_display_width_bound, lemma_run_following,
    lemma_run_push, lemma_run_stopped, note, print_line, printed, resolve, run, scan_doc, scan_seq,
    scan_stack, settles, spaces, start, trim_end, unresolved, CmdView, Measure, PrintState,
    RenderError, INDENT_WIDTH,
};
use crate::layout::{deepest_indent, indent_depth, indentation_fits, lemma_deepest_indent};

verus! {

broadcast use {vstd::std_specs::hash::group_hash_axioms, vstd::string::group_string_axioms};

/// The number of nodes of a document.
pub open spec fn doc_size(doc: DocView) -> nat
    decreases doc, 0nat,
{
    match doc {
        DocView::Text(_) => 1,
        DocView::Line(_) => 1,
        DocView::Concat(docs) => 1 + seq_size(docs, 0),
        DocView::Array(docs) => 1 + seq_size(docs, 0),
        DocView::Indent(content) => 1 + doc_size(*content),
        DocView::Group { content, .. } => 1 + doc_size(*content),
        DocView::IfBreak { break_contents, flat_contents, .. } => 1 + doc_size(*break_contents)
            + doc_size(*flat_contents),
    }
}

/// The number of nodes of the documents of `docs` from `from` on.
pub open spec fn seq_size(docs: Seq<DocView>, from: int) -> nat
    decreases docs, docs.len() - from,
{
    if 0 <= from < docs.len() {
        doc_size(docs[from]) + seq_size(docs, from + 1)
    } else {
        0
    }
}

/// The number of nodes that wait on a stack.
pub open spec fn stack_size(cmds: Seq<CmdView>) -> nat
    decreases cmds.len(),
{
    if cmds.len() == 0 {
        0
    } else {
        doc_size(cmds.last().doc) + stack_size(cmds.drop_last())
    }
}

/// The documents of `docs` from `from` on, put on a stack, add their nodes
/// to it.
pub proof fn lemma_stack_size_following(
    cmds: Seq<CmdView>,
    docs: Seq<DocView>,
    from: int,
    indent: nat,
    mode: Mode,
)
    requires
        0 <= from <= docs.len(),
    ensures
        stack_size(cmds + following(docs, from, indent, mode)) == stack_size(cmds) + seq_size(
            docs,
            from,
        ),
    decreases docs.len() - from,
{
    if from == docs.len() {
        assert(cmds + following(docs, from, indent, mode) =~= cmds);
    } else {
        let whole = cmds + following(docs, from, indent, mode);
        assert(whole.last() == CmdView { indent, mode, doc: docs[from] });
        assert(whole.drop_last() =~= cmds + following(docs, from + 1, indent, mode));
        lemma_stack_size_following(cmds, docs, from + 1, indent, mode);
    }
}

/// A stack measures as its last document does, and then as what lies
/// beneath it.
pub proof fn lemma_scan_stack_push(
    cmds: Seq<CmdView>,
    top: CmdView,
    strict: bool,
    left: nat,
    modes: Map<u32, Mode>,
)
    ensures
        scan_stack(cmds.push(top), strict, left, modes) == (match scan_doc(
            top.doc,
            top.mode,
            strict,
            left,
            modes,
        ) {
            Measure::Goes { left, modes } => scan_stack(cmds, strict, left, modes),
            other => other,
        }),
{
    assert(cmds.push(top).drop_last() =~= cmds);
}

/// The documents of `docs` from `from` on, put on a stack, measure as the
/// sequence does, and then as what lies beneath them.
pub proof fn lemma_scan_stack_following(
    cmds: Seq<CmdView>,
    docs: Seq<DocView>,
    from: int,
    indent: nat,
    mode: Mode,
    strict: bool,
    left: nat,
    modes: Map<u32, Mode>,
)
    requires
        0 <= from <= docs.len(),
    ensures
        scan_stack(cmds + following(docs, from, indent, mode), strict, left, modes) == (
        match scan_seq(docs, from, mode, strict, left, modes) {
            Measure::Goes { left, modes } => scan_stack(cmds, strict, left, modes),
            other => other,
        }),
    decreases docs.len() - from,
{
    if from == docs.len() {
        assert(cmds + following(docs, from, indent, mode) =~= cmds);
    } else {
        let whole = cmds + following(docs, from, indent, mode);
        let below = cmds + following(docs, from + 1, indent, mode);
        assert(whole =~= below.push(CmdView { indent, mode, doc: docs[from] }));
        lemma_scan_stack_push(below, CmdView { indent, mode, doc: docs[from] }, strict, left, modes);
        match scan_doc(docs[from], mode, strict, left, modes) {
            Measure::Goes { left: left2, modes: modes2 } => {
                lemma_scan_stack_following(cmds, docs, from + 1, indent, mode, strict, left2, modes2);
            },
            _ => {},
        }
    }
}

/// The number of columns that `text` takes.
pub fn text_width(text: &str) -> (width: usize)
    ensures
        width == display_width(text@),
{
    let len = text.unicode_len();
    let mut width: usize = 0;
    for c in it: text.chars()
        invariant
            it.seq() == text@,
            len == text@.len(),
            width == display_width(text@.take(it.index() as int)),
            width <= it.index(),
    {
        assert(text@.take(it.index() + 1).drop_last() =~= text@.take(it.index() as int));
        let code = c as u32;
        if !(code < 0x20 || (0x7f <= code && code <= 0x9f)) {
            width += 1;
        }
    }
    assert(text@.take(text@.len() as int) =~= text@);
    width
}

/// A document that waits to be printed, with the indentation level and the
/// mode that it inherits.
#[derive(Clone, Copy, Debug)]
pub struct Cmd<'a> {
    pub indent: usize,
    pub mode: Mode,
    pub doc: &'a Doc,
}

impl<'a> View for Cmd<'a> {
    type V = CmdView;

    open spec fn view(&self) -> CmdView {
        CmdView { indent: self.indent as nat, mode: self.mode, doc: self.doc@ }
    }
}

/// The models of a stack of waiting documents.
pub open spec fn cmd_views(cmds: Seq<Cmd>) -> Seq<CmdView> {
    Seq::new(cmds.len(), |i: int| cmds[i]@)
}

/// Puts the documents of `docs` on the stack, the first of them last, so
/// that it is next.
fn push_all<'a>(stack: &mut Vec<Cmd<'a>>, docs: &'a Vec<Doc>, indent: usize, mode: Mode)
    ensures
        cmd_views(final(stack)@) == cmd_views(old(stack)@) + following(
            models(docs@),
            0,
            indent as nat,
            mode,
        ),
        forall|i: int| 0 <= i < old(stack)@.len() ==> final(stack)@[i] == old(stack)@[i],
        final(stack)@.len() == old(stack)@.len() + docs@.len(),
        forall|i: int|
            old(stack)@.len() <= i < final(stack)@.len() ==> (#[trigger] final(stack)@[i]).indent
                == indent,
{
    let mut i: usize = docs.len();
    assert(cmd_views(stack@) =~= cmd_views(old(stack)@) + following(
        models(docs@),
        i as int,
        indent as nat,
        mode,
    ));
    while i > 0
        invariant
            i <= docs@.len(),
            stack@.len() == old(stack)@.len() + docs@.len() - i,
            forall|k: int| 0 <= k < old(stack)@.len() ==> stack@[k] == old(stack)@[k],
            forall|k: int|
                old(stack)@.len() <= k < stack@.len() ==> (#[trigger] stack@[k]).indent == indent,
            cmd_views(stack@) == cmd_views(old(stack)@) + following(
                models(docs@),
                i as int,
                indent as nat,
                mode,
            ),
        decreases i,
    {
        i -= 1;
        let ghost before = stack@;
        stack.push(Cmd { indent, mode, doc: &docs[i] });
        assert(cmd_views(stack@) =~= cmd_views(before).push(
            CmdView { indent: indent as nat, mode, doc: docs@[i as int]@ },
        ));
        assert(cmd_views(stack@) =~= cmd_views(old(stack)@) + following(
            models(docs@),
            i as int,
            indent as nat,
            mode,
        ));
    }
}

/// The mode by which an `IfBreak` chooses while a measurement runs: the one
/// that the measurement has assumed for the group, else the one with which
/// the group was printed.
fn assumed_mode(
    group_id: Option<u32>,
    mode: Mode,
    modes: &HashMap<u32, Mode>,
    assumed: &HashMap<u32, Mode>,
) -> (chosen: Mode)
    ensures
        chosen == resolve(group_id, mode, modes@.union_prefer_right(assumed@)),
{
    match group_id {
        Some(id) => match assumed.get(&id) {
            Some(found) => *found,
            None => match modes.get(&id) {
                Some(found) => *found,
                None => Mode::Flat,
            },
        },
        None => mode,
    }
}

/// Notes in `assumed` that the group `id` is measured in `mode`.
fn assume_mode(
    id: Option<u32>,
    mode: Mode,
    modes: &HashMap<u32, Mode>,
    assumed: &mut HashMap<u32, Mode>,
)
    ensures
        modes@.union_prefer_right(final(assumed)@) == note(
            modes@.union_prefer_right(old(assumed)@),
            id,
            mode,
        ),
{
    match id {
        Some(id) => {
            assumed.insert(id, mode);
            assert(modes@.union_prefer_right(assumed@) =~= modes@.union_prefer_right(
                old(assumed)@,
            ).insert(id, mode));
        },
        None => {},
    }
}

/// Whether a group with the content `content` fits into `left` columns:
/// measured flat, it and what follows it in `rest` up to the next line
/// break take no more. The measurement stops as soon as the columns are
/// used up.
#[verifier::rlimit(30)]
pub fn fits<'a>(
    content: &'a Doc,
    id: Option<u32>,
    rest: &Vec<Cmd<'a>>,
    left: usize,
    modes: &HashMap<u32, Mode>,
) -> (ok: bool)
    ensures
        ok == settles(
            scan_doc(content@, Mode::Flat, true, left as nat, note(modes@, id, Mode::Flat)),
            cmd_views(rest@),
        ),
{
    let ghost goal = settles(
        scan_doc(content@, Mode::Flat, true, left as nat, note(modes@, id, Mode::Flat)),
        cmd_views(rest@),
    );
    let ghost waiting = cmd_views(rest@);
    let mut assumed: HashMap<u32, Mode> = HashMap::new();
    assert(modes@.union_prefer_right(assumed@) =~= modes@);
    assume_mode(id, Mode::Flat, modes, &mut assumed);
    let mut local: Vec<Cmd<'a>> = Vec::new();
    local.push(Cmd { indent: 0, mode: Mode::Flat, doc: content });
    let mut rest_idx: usize = rest.len();
    let mut strict = true;
    let mut room = left;
    proof {
        let first = CmdView { indent: 0, mode: Mode::Flat, doc: content@ };
        assert(cmd_views(local@) =~= Seq::<CmdView>::empty().push(first));
        lemma_scan_stack_push(
            Seq::empty(),
            first,
            true,
            room as nat,
            modes@.union_prefer_right(assumed@),
        );
        assert(waiting.take(rest_idx as int) =~= waiting);
    }
    loop
        invariant
            waiting == cmd_views(rest@),
            rest_idx <= rest@.len(),
            goal == settles(
                scan_doc(content@, Mode::Flat, true, left as nat, note(modes@, id, Mode::Flat)),
                cmd_views(rest@),
            ),
            goal == settles(
                scan_stack(
                    cmd_views(local@),
                    strict,
                    room as nat,
                    modes@.union_prefer_right(assumed@),
                ),
                waiting.take(rest_idx as int),
            ),
        decreases rest_idx, stack_size(cmd_views(local@)),
    {
        let ghost merged = modes@.union_prefer_right(assumed@);
        if local.len() == 0 {
            if rest_idx == 0 {
                assert(waiting.take(0) =~= Seq::<CmdView>::empty());
                return true;
            }
            rest_idx -= 1;
            let next = rest[rest_idx];
            local.push(next);
            proof {
                let below = waiting.take(rest_idx as int);
                assert(waiting.take(rest_idx + 1) =~= below.push(next@));
                lemma_scan_stack_push(below, next@, false, room as nat, merged);
                assert(cmd_views(local@) =~= Seq::<CmdView>::empty().push(next@));
                lemma_scan_stack_push(Seq::empty(), next@, false, room as nat, merged);
            }
            strict = false;
            continue;
        }
        let ghost before = cmd_views(local@);
        let cmd = local.pop().unwrap();
        let ghost below = cmd_views(local@);
        proof {
            assert(before =~= below.push(cmd@));
            lemma_scan_stack_push(below, cmd@, strict, room as nat, merged);
            assert(before.drop_last() =~= below);
            assert(stack_size(before) == doc_size(cmd@.doc) + stack_size(below));
        }
        match cmd.doc {
            Doc::Text(text) => {
                let width = text_width(text.as_str());
                if width > room {
                    return false;
                }
                room -= width;
            },
            Doc::Line(kind) => {
                match kind {
                    LineKind::Hard => {
                        return !strict;
                    },
                    LineKind::Literal => {
                        return !strict;
                    },
                    LineKind::Soft => {
                        match cmd.mode {
                            Mode::Break => {
                                return true;
                            },
                            Mode::Flat => {},
                        }
                    },
                    LineKind::Space => {
                        match cmd.mode {
                            Mode::Break => {
                                return true;
                            },
                            Mode::Flat => {
                                if room == 0 {
                                    return false;
                                }
                                room -= 1;
                            },
                        }
                    },
                }
            },
            Doc::Concat(docs) => {
                push_all(&mut local, docs, cmd.indent, cmd.mode);
                proof {
                    lemma_scan_stack_following(
                        below,
                        models(docs@),
                        0,
                        cmd.indent as nat,
                        cmd.mode,
                        strict,
                        room as nat,
                        merged,
                    );
                    lemma_stack_size_following(
                        below,
                        models(docs@),
                        0,
                        cmd.indent as nat,
                        cmd.mode,
                    );
                }
            },
            Doc::Array(docs) => {
                push_all(&mut local, docs, cmd.indent, cmd.mode);
                proof {
                    lemma_scan_stack_following(
                        below,
                        models(docs@),
                        0,
                        cmd.indent as nat,
                        cmd.mode,
                        strict,
                        room as nat,
                        merged,
                    );
                    lemma_stack_size_following(
                        below,
                        models(docs@),
                        0,
                        cmd.indent as nat,
                        cmd.mode,
                    );
                }
            },
            Doc::Indent(inner) => {
                let next = Cmd { indent: cmd.indent, mode: cmd.mode, doc: inner };
                local.push(next);
                proof {
                    assert(cmd_views(local@) =~= below.push(next@));
                    lemma_scan_stack_push(below, next@, strict, room as nat, merged);
                    assert(cmd_views(local@).drop_last() =~= below);
                }
            },
            Doc::Group { content: inner, should_break, id: inner_id } => {
                let mode = if *should_break {
                    if strict {
                        return false;
                    }
                    assume_mode(*inner_id, Mode::Break, modes, &mut assumed);
                    Mode::Break
                } else {
                    match cmd.mode {
                        Mode::Flat => {
                            assume_mode(*inner_id, Mode::Flat, modes, &mut assumed);
                        },
                        Mode::Break => {},
                    }
                    cmd.mode
                };
                let next = Cmd { indent: cmd.indent, mode, doc: inner };
                local.push(next);
                proof {
                    assert(cmd_views(local@) =~= below.push(next@));
                    lemma_scan_stack_push(
                        below,
                        next@,
                        strict,
                        room as nat,
                        modes@.union_prefer_right(assumed@),
                    );
                    assert(cmd_views(local@).drop_last() =~= below);
                }
            },
            Doc::IfBreak { break_contents, flat_contents, group_id } => {
                let chosen = assumed_mode(*group_id, cmd.mode, modes, &assumed);
                let branch: &'a Doc = match chosen {
                    Mode::Break => break_contents,
                    Mode::Flat => flat_contents,
                };
                let next = Cmd { indent: cmd.indent, mode: cmd.mode, doc: branch };
                local.push(next);
                proof {
                    assert(cmd_views(local@) =~= below.push(next@));
                    lemma_scan_stack_push(below, next@, strict, room as nat, merged);
                    assert(cmd_views(local@).drop_last() =~= below);
                }
            },
        }
    }
}

/// Takes the spaces and tabs off the end of `out`.
fn trim_trailing(out: &mut Vec<char>)
    ensures
        final(out)@ == trim_end(old(out)@),
{
    loop
        invariant
            trim_end(out@) == trim_end(old(out)@),
        ensures
            out@ == trim_end(old(out)@),
        decreases out@.len(),
    {
        let len = out.len();
        if len == 0 {
            break;
        }
        let last = out[len - 1];
        if !(last == ' ' || last == '\t') {
            break;
        }
        out.pop();
    }
}

/// Puts `count` spaces at the end of `out`.
fn push_spaces(out: &mut Vec<char>, count: usize)
    ensures
        final(out)@ == old(out)@ + spaces(count as nat),
{
    let mut i: usize = 0;
    assert(out@ =~= old(out)@ + spaces(0));
    while i < count
        invariant
            i <= count,
            out@ == old(out)@ + spaces(i as nat),
        decreases count - i,
    {
        out.push(' ');
        i += 1;
        assert(out@ =~= old(out)@ + spaces(i as nat));
    }
}

/// Puts the characters of `text` at the end of `out`.
fn push_text(out: &mut Vec<char>, text: &str)
    ensures
        final(out)@ == old(out)@ + text@,
{
    assert(out@ =~= old(out)@ + text@.take(0));
    for c in it: text.chars()
        invariant
            it.seq() == text@,
            out@ == old(out)@ + text@.take(it.index() as int),
    {
        out.push(c);
        assert(out@ =~= old(out)@ + text@.take(it.index() + 1));
    }
    assert(text@.take(text@.len() as int) =~= text@);
}

/// Writes a line primitive: see `print_line`.
fn write_line(kind: LineKind, indent: usize, mode: Mode, out: &mut Vec<char>, column: &mut usize)
    requires
        indent * INDENT_WIDTH <= usize::MAX,
        *old(column) <= old(out)@.len(),
    ensures
        *final(column) <= final(out)@.len(),
        forall|modes: Map<u32, Mode>|
            #![trigger print_line(
                kind,
                indent as nat,
                mode,
                PrintState { out: old(out)@, column: *old(column) as nat, modes, failure: None },
            )]
            print_line(
                kind,
                indent as nat,
                mode,
                PrintState { out: old(out)@, column: *old(column) as nat, modes, failure: None },
            ) == (PrintState {
                out: final(out)@,
                column: *final(column) as nat,
                modes,
                failure: None,
            }),
{
    let breaks = match kind {
        LineKind::Literal => {
            out.push('\n');
            *column = 0;
            return ;
        },
        LineKind::Hard => true,
        _ => match mode {
            Mode::Break => true,
            Mode::Flat => false,
        },
    };
    if breaks {
        trim_trailing(out);
        out.push('\n');
        push_spaces(out, indent * INDENT_WIDTH);
        *column = indent * INDENT_WIDTH;
    } else {
        match kind {
            LineKind::Space => {
                out.push(' ');
                let len = out.len();
                *column = *column + 1;
            },
            _ => {},
        }
    }
}

/// No document on the stack is indented deeper than `bound` levels, its
/// own level counted.
pub open spec fn within_depth(cmds: Seq<CmdView>, bound: nat) -> bool {
    forall|i: int|
        0 <= i < cmds.len() ==> (#[trigger] cmds[i]).indent + indent_depth(cmds[i].doc) <= bound
}

/// The documents of a sequence, put on a stack, are indented no deeper than
/// the deepest of them.
pub proof fn lemma_within_depth_following(
    cmds: Seq<CmdView>,
    docs: Seq<DocView>,
    indent: nat,
    mode: Mode,
    bound: nat,
)
    requires
        within_depth(cmds, bound),
        indent + deepest_indent(docs, 0) <= bound,
    ensures
        within_depth(cmds + following(docs, 0, indent, mode), bound),
{
    let whole = cmds + following(docs, 0, indent, mode);
    assert forall|i: int| 0 <= i < whole.len() implies (#[trigger] whole[i]).indent + indent_depth(
        whole[i].doc,
    ) <= bound by {
        if i < cmds.len() {
            assert(whole[i] == cmds[i]);
        } else {
            let k = i - cmds.len();
            assert(whole[i] == following(docs, 0, indent, mode)[k]);
            lemma_deepest_indent(docs, 0, docs.len() - 1 - k);
        }
    }
}

/// The printing pass: lays `doc` out within `width` columns, as `printed`
/// says. Documents wait on a work list with their indentation level and
/// mode; the first mode is break mode. The columns of the deepest
/// indentation have to fit the machine's numbers.
pub fn print_doc(doc: &Doc, width: usize) -> (result: Result<Vec<char>, RenderError>)
    requires
        indentation_fits(doc@),
    ensures
        match result {
            Ok(text) => printed(doc@, width as nat) == Ok::<Seq<char>, RenderError>(text@),
            Err(error) => printed(doc@, width as nat) == Err::<Seq<char>, RenderError>(error),
        },
{
    let ghost goal = layout(doc@, 0, Mode::Break, start(), Seq::empty(), width as nat);
    let mut stack: Vec<Cmd> = Vec::new();
    stack.push(Cmd { indent: 0, mode: Mode::Break, doc });
    let mut out: Vec<char> = Vec::new();
    let mut column: usize = 0;
    let mut modes: HashMap<u32, Mode> = HashMap::new();
    proof {
        let first = CmdView { indent: 0, mode: Mode::Break, doc: doc@ };
        assert(cmd_views(stack@) =~= Seq::<CmdView>::empty().push(first));
        lemma_run_push(Seq::empty(), first, start(), width as nat);
        assert(modes@ =~= Map::<u32, Mode>::empty());
        assert(out@ =~= Seq::<char>::empty());
    }
    while stack.len() > 0
        invariant
            goal == layout(doc@, 0, Mode::Break, start(), Seq::empty(), width as nat),
            column <= out@.len(),
            indentation_fits(doc@),
            within_depth(cmd_views(stack@), indent_depth(doc@)),
            run(
                cmd_views(stack@),
                PrintState { out: out@, column: column as nat, modes: modes@, failure: None },
                width as nat,
            ) == goal,
        decreases stack_size(cmd_views(stack@)),
    {
        let ghost st = PrintState { out: out@, column: column as nat, modes: modes@, failure: None };
        let ghost before = cmd_views(stack@);
        let ghost bound = indent_depth(doc@);
        let cmd = stack.pop().unwrap();
        let ghost below = cmd_views(stack@);
        proof {
            assert(before =~= below.push(cmd@));
            assert(before[below.len() as int] == cmd@);
            assert(cmd.indent + indent_depth(cmd.doc@) <= bound);
            assert(within_depth(below, bound)) by {
                assert forall|i: int| 0 <= i < below.len() implies (#[trigger] below[i]).indent
                    + indent_depth(below[i].doc) <= bound by {
                    assert(below[i] == before[i]);
                }
            }
            lemma_run_push(below, cmd@, st, width as nat);
            assert(before.drop_last() =~= below);
            assert(stack_size(before) == doc_size(cmd@.doc) + stack_size(below));
        }
        match cmd.doc {
            Doc::Text(text) => {
                push_text(&mut out, text.as_str());
                let added = text_width(text.as_str());
                let len = out.len();
                proof {
                    lemma_display_width_bound(text@);
                }
                column = column + added;
            },
            Doc::Line(kind) => {
                write_line(*kind, cmd.indent, cmd.mode, &mut out, &mut column);
                assert(print_line(*kind, cmd.indent as nat, cmd.mode, st) == (PrintState {
                    out: out@,
                    column: column as nat,
                    modes: modes@,
                    failure: None,
                }));
            },
            Doc::Concat(docs) => {
                push_all(&mut stack, docs, cmd.indent, cmd.mode);
                proof {
                    lemma_within_depth_following(
                        below,
                        models(docs@),
                        cmd.indent as nat,
                        cmd.mode,
                        bound,
                    );
                    lemma_run_following(
                        below,
                        models(docs@),
                        0,
                        cmd.indent as nat,
                        cmd.mode,
                        st,
                        width as nat,
                    );
                    lemma_stack_size_following(
                        below,
                        models(docs@),
                        0,
                        cmd.indent as nat,
                        cmd.mode,
                    );
                }
            },
            Doc::Array(docs) => {
                push_all(&mut stack, docs, cmd.indent, cmd.mode);
                proof {
                    lemma_within_depth_following(
                        below,
                        models(docs@),
                        cmd.indent as nat,
                        cmd.mode,
                        bound,
                    );
                    lemma_run_following(
                        below,
                        models(docs@),
                        0,
                        cmd.indent as nat,
                        cmd.mode,
                        st,
                        width as nat,
                    );
                    lemma_stack_size_following(
                        below,
                        models(docs@),
                        0,
                        cmd.indent as nat,
                        cmd.mode,
                    );
                }
            },
            Doc::Indent(inner) => {
                let next = Cmd { indent: cmd.indent + 1, mode: cmd.mode, doc: inner };
                stack.push(next);
                proof {
                    assert(cmd_views(stack@) =~= below.push(next@));
                    lemma_run_push(below, next@, st, width as nat);
                    assert(cmd_views(stack@).drop_last() =~= below);
                }
            },
            Doc::Group { content, should_break, id } => {
                let chosen = if *should_break {
                    Mode::Break
                } else if column <= width && fits(content, *id, &stack, width - column, &modes) {
                    Mode::Flat
                } else {
                    Mode::Break
                };
                assert(chosen == group_mode(content@, *should_break, *id, below, width as nat, st));
                match id {
                    Some(id) => {
                        modes.insert(*id, chosen);
                    },
                    None => {},
                }
                assert(modes@ == note(st.modes, *id, chosen));
                let next = Cmd { indent: cmd.indent, mode: chosen, doc: content };
                stack.push(next);
                proof {
                    assert(cmd_views(stack@) =~= below.push(next@));
                    lemma_run_push(below, next@, st.noting(*id, chosen), width as nat);
                    assert(cmd_views(stack@).drop_last() =~= below);
                }
            },
            Doc::IfBreak { break_contents, flat_contents, group_id } => {
                let chosen = match group_id {
                    Some(id) => match modes.get(id) {
                        Some(found) => *found,
                        None => {
                            proof {
                                assert(unresolved(*group_id, st.modes));
                                lemma_run_stopped(
                                    below,
                                    st.fail(RenderError::UnresolvedGroup(*id)),
                                    width as nat,
                                );
                            }
                            return Err(RenderError::UnresolvedGroup(*id));
                        },
                    },
                    None => cmd.mode,
                };
                assert(!unresolved(*group_id, st.modes));
                assert(chosen == resolve(*group_id, cmd.mode, st.modes));
                let branch: &Doc = match chosen {
                    Mode::Break => break_contents,
                    Mode::Flat => flat_contents,
                };
                let next = Cmd { indent: cmd.indent, mode: cmd.mode, doc: branch };
                stack.push(next);
                proof {
                    assert(cmd_views(stack@) =~= below.push(next@));
                    lemma_run_push(below, next@, st, width as nat);
                    assert(cmd_views(stack@).drop_last() =~= below);
                }
            },
        }
    }
    assert(cmd_views(stack@) =~= Seq::<CmdView>::empty());
    Ok(out)
}

} // verus!
