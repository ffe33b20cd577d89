//! The pass before printing: a group breaks if a hard line, or a group that
//! is forced to break, lies beneath it.

use vstd::prelude::*;
use crate::doc::{models, Doc, DocView, LineKind};
use crate::layout::{deepest_indent, indent_depth};

verus! {

/// Whether `doc` forces the group around it to break: it holds a hard line
/// or a group that is forced to break. Of an `IfBreak` only the branch for
/// the broken group counts.
pub open spec fn forces_break(doc: DocView) -> bool
    decreases doc, 0nat,
{
    match doc {
        DocView::Text(_) => false,
        DocView::Line(kind) => kind == LineKind::Hard,
        DocView::Concat(docs) => any_forces_break(docs, 0),
        DocView::Array(docs) => any_forces_break(docs, 0),
        DocView::Indent(content) => forces_break(*content),
        DocView::Group { content, should_break, .. } => should_break || forces_break(*content),
        DocView::IfBreak { break_contents, .. } => forces_break(*break_contents),
    }
}

/// Whether one of the documents of `docs` from `from` on forces a break.
pub open spec fn any_forces_break(docs: Seq<DocView>, from: int) -> bool
    decreases docs, docs.len() - from,
{
    if 0 <= from < docs.len() {
        forces_break(docs[from]) || any_forces_break(docs, from + 1)
    } else {
        false
    }
}

proof fn lemma_any_forces_break(docs: Seq<DocView>, from: int)
    requires
        0 <= from,
    ensures
        any_forces_break(docs, from) == (exists|i: int|
            from <= i < docs.len() && forces_break(#[trigger] docs[i])),
    decreases docs.len() - from,
{
    if from < docs.len() {
        lemma_any_forces_break(docs, from + 1);
        if exists|i: int| from <= i < docs.len() && forces_break(#[trigger] docs[i]) {
            let i = choose|i: int| from <= i < docs.len() && forces_break(#[trigger] docs[i]);
            if i != from {
                assert(from + 1 <= i < docs.len() && forces_break(docs[i]));
            }
        }
        if any_forces_break(docs, from + 1) {
            let i = choose|i: int| from + 1 <= i < docs.len() && forces_break(#[trigger] docs[i]);
            assert(from <= i < docs.len() && forces_break(docs[i]));
        }
        if forces_break(docs[from]) {
            assert(from <= from < docs.len() && forces_break(docs[from]));
        }
    }
}

/// A concatenation forces a break exactly if one of its documents does.
pub proof fn lemma_forces_break_children(docs: Seq<DocView>)
    ensures
        forces_break(DocView::Concat(docs)) == (exists|i: int|
            0 <= i < docs.len() && forces_break(#[trigger] docs[i])),
        forces_break(DocView::Array(docs)) == (exists|i: int|
            0 <= i < docs.len() && forces_break(#[trigger] docs[i])),
{
    lemma_any_forces_break(docs, 0);
}

/// `doc` after the pass: every group that was forced to break still is, and
/// so is every group whose content forces it.
pub open spec fn propagated(doc: DocView) -> DocView
    decreases doc, 0nat,
{
    match doc {
        DocView::Text(text) => DocView::Text(text),
        DocView::Line(kind) => DocView::Line(kind),
        DocView::Concat(docs) => DocView::Concat(propagated_all(docs)),
        DocView::Array(docs) => DocView::Array(propagated_all(docs)),
        DocView::Indent(content) => DocView::Indent(Box::new(propagated(*content))),
        DocView::Group { content, should_break, id } => DocView::Group {
            content: Box::new(propagated(*content)),
            should_break: should_break || forces_break(*content),
            id,
        },
        DocView::IfBreak { break_contents, flat_contents, group_id } => DocView::IfBreak {
            break_contents: Box::new(propagated(*break_contents)),
            flat_contents: Box::new(propagated(*flat_contents)),
            group_id,
        },
    }
}

/// Each document of `docs` after the pass.
pub open spec fn propagated_all(docs: Seq<DocView>) -> Seq<DocView>
    decreases docs, 1nat,
{
    Seq::new(
        docs.len(),
        |i: int|
            if 0 <= i < docs.len() {
                propagated(docs[i])
            } else {
                DocView::Line(LineKind::Soft)
            },
    )
}

/// The pass does not change what a document forces on the group around it.
pub proof fn lemma_propagated_forces(doc: DocView)
    ensures
        forces_break(propagated(doc)) == forces_break(doc),
    decreases doc,
{
    match doc {
        DocView::Text(_) => {},
        DocView::Line(_) => {},
        DocView::Concat(docs) => {
            lemma_propagated_all_forces(docs);
        },
        DocView::Array(docs) => {
            lemma_propagated_all_forces(docs);
        },
        DocView::Indent(content) => {
            lemma_propagated_forces(*content);
        },
        DocView::Group { content, .. } => {
            lemma_propagated_forces(*content);
        },
        DocView::IfBreak { break_contents, .. } => {
            lemma_propagated_forces(*break_contents);
        },
    }
}

proof fn lemma_propagated_all_forces(docs: Seq<DocView>)
    ensures
        forces_break(DocView::Concat(propagated_all(docs))) == forces_break(DocView::Concat(docs)),
        forces_break(DocView::Array(propagated_all(docs))) == forces_break(DocView::Array(docs)),
    decreases docs,
{
    let after = propagated_all(docs);
    lemma_forces_break_children(docs);
    lemma_forces_break_children(after);
    assert forall|i: int| 0 <= i < docs.len() implies forces_break(#[trigger] after[i])
        == forces_break(docs[i]) by {
        lemma_propagated_forces(docs[i]);
    }
    if exists|i: int| 0 <= i < docs.len() && forces_break(#[trigger] docs[i]) {
        let i = choose|i: int| 0 <= i < docs.len() && forces_break(#[trigger] docs[i]);
        assert(forces_break(after[i]));
    }
    if exists|i: int| 0 <= i < after.len() && forces_break(#[trigger] after[i]) {
        let i = choose|i: int| 0 <= i < after.len() && forces_break(#[trigger] after[i]);
        assert(forces_break(docs[i]));
    }
}

/// The pass leaves the indentation of a document as deep as it is.
pub proof fn lemma_propagated_indent_depth(doc: DocView)
    ensures
        indent_depth(propagated(doc)) == indent_depth(doc),
    decreases doc, 0nat,
{
    match doc {
        DocView::Text(_) => {},
        DocView::Line(_) => {},
        DocView::Concat(docs) => {
            lemma_propagated_deepest_indent(docs, 0);
        },
        DocView::Array(docs) => {
            lemma_propagated_deepest_indent(docs, 0);
        },
        DocView::Indent(content) => {
            lemma_propagated_indent_depth(*content);
        },
        DocView::Group { content, .. } => {
            lemma_propagated_indent_depth(*content);
        },
        DocView::IfBreak { break_contents, flat_contents, .. } => {
            lemma_propagated_indent_depth(*break_contents);
            lemma_propagated_indent_depth(*flat_contents);
        },
    }
}

proof fn lemma_propagated_deepest_indent(docs: Seq<DocView>, from: int)
    requires
        0 <= from,
    ensures
        deepest_indent(propagated_all(docs), from) == deepest_indent(docs, from),
    decreases docs, docs.len() - from,
{
    if from < docs.len() {
        lemma_propagated_indent_depth(docs[from]);
        lemma_propagated_deepest_indent(docs, from + 1);
    }
}

/// The pass changes nothing in a document that it has been over.
pub proof fn lemma_propagated_twice(doc: DocView)
    ensures
        propagated(propagated(doc)) == propagated(doc),
    decreases doc,
{
    match doc {
        DocView::Text(_) => {},
        DocView::Line(_) => {},
        DocView::Concat(docs) => {
            lemma_propagated_all_twice(docs);
        },
        DocView::Array(docs) => {
            lemma_propagated_all_twice(docs);
        },
        DocView::Indent(content) => {
            lemma_propagated_twice(*content);
        },
        DocView::Group { content, .. } => {
            lemma_propagated_twice(*content);
            lemma_propagated_forces(*content);
        },
        DocView::IfBreak { break_contents, flat_contents, .. } => {
            lemma_propagated_twice(*break_contents);
            lemma_propagated_twice(*flat_contents);
        },
    }
}

proof fn lemma_propagated_all_twice(docs: Seq<DocView>)
    ensures
        propagated_all(propagated_all(docs)) == propagated_all(docs),
    decreases docs,
{
    assert forall|i: int| 0 <= i < docs.len() implies propagated(
        #[trigger] propagated_all(docs)[i],
    ) == propagated_all(docs)[i] by {
        lemma_propagated_twice(docs[i]);
    }
    assert(propagated_all(propagated_all(docs)) =~= propagated_all(docs));
}

/// Whether `after` is `before` but for groups that are forced to break in
/// `after` and were not in `before`.
pub open spec fn only_adds_breaks(before: DocView, after: DocView) -> bool
    decreases before, 0nat,
{
    match before {
        DocView::Text(_) => after == before,
        DocView::Line(_) => after == before,
        DocView::Concat(docs) => after is Concat && after->Concat_0.len() == docs.len()
            && all_only_add_breaks(docs, after->Concat_0, 0),
        DocView::Array(docs) => after is Array && after->Array_0.len() == docs.len()
            && all_only_add_breaks(docs, after->Array_0, 0),
        DocView::Indent(content) => after is Indent && only_adds_breaks(*content, *after->Indent_0),
        DocView::Group { content, should_break, id } => {
            &&& after is Group
            &&& after->id == id
            &&& should_break ==> after->should_break
            &&& only_adds_breaks(*content, *after->content)
        },
        DocView::IfBreak { break_contents, flat_contents, group_id } => {
            &&& after is IfBreak
            &&& after->group_id == group_id
            &&& only_adds_breaks(*break_contents, *after->break_contents)
            &&& only_adds_breaks(*flat_contents, *after->flat_contents)
        },
    }
}

/// Whether `only_adds_breaks` holds of each pair of documents of `before`
/// and `after` from `from` on.
pub open spec fn all_only_add_breaks(before: Seq<DocView>, after: Seq<DocView>, from: int) -> bool
    decreases before, before.len() - from,
{
    if 0 <= from < before.len() {
        only_adds_breaks(before[from], after[from]) && all_only_add_breaks(before, after, from + 1)
    } else {
        true
    }
}

/// The pass changes nothing in a document but the groups that it forces to
/// break: no group that was forced is set free.
pub proof fn lemma_propagation_only_adds_breaks(doc: DocView)
    ensures
        only_adds_breaks(doc, propagated(doc)),
    decreases doc, 0nat,
{
    match doc {
        DocView::Text(_) => {},
        DocView::Line(_) => {},
        DocView::Concat(docs) => {
            lemma_propagation_only_adds_breaks_all(docs, 0);
        },
        DocView::Array(docs) => {
            lemma_propagation_only_adds_breaks_all(docs, 0);
        },
        DocView::Indent(content) => {
            lemma_propagation_only_adds_breaks(*content);
        },
        DocView::Group { content, .. } => {
            lemma_propagation_only_adds_breaks(*content);
        },
        DocView::IfBreak { break_contents, flat_contents, .. } => {
            lemma_propagation_only_adds_breaks(*break_contents);
            lemma_propagation_only_adds_breaks(*flat_contents);
        },
    }
}

proof fn lemma_propagation_only_adds_breaks_all(docs: Seq<DocView>, from: int)
    requires
        0 <= from,
    ensures
        all_only_add_breaks(docs, propagated_all(docs), from),
    decreases docs, docs.len() - from,
{
    if from < docs.len() {
        lemma_propagation_only_adds_breaks(docs[from]);
        lemma_propagation_only_adds_breaks_all(docs, from + 1);
    }
}

/// Whether a hard line lies in `doc` where the group around `doc` is sure
/// to meet it: not in the branch of an `IfBreak` that is only for a flat
/// group.
pub open spec fn holds_hard_line(doc: DocView) -> bool
    decreases doc, 0nat,
{
    match doc {
        DocView::Text(_) => false,
        DocView::Line(kind) => kind == LineKind::Hard,
        DocView::Concat(docs) => any_holds_hard_line(docs, 0),
        DocView::Array(docs) => any_holds_hard_line(docs, 0),
        DocView::Indent(content) => holds_hard_line(*content),
        DocView::Group { content, .. } => holds_hard_line(*content),
        DocView::IfBreak { break_contents, .. } => holds_hard_line(*break_contents),
    }
}

/// Whether one of the documents of `docs` from `from` on holds a hard line.
pub open spec fn any_holds_hard_line(docs: Seq<DocView>, from: int) -> bool
    decreases docs, docs.len() - from,
{
    if 0 <= from < docs.len() {
        holds_hard_line(docs[from]) || any_holds_hard_line(docs, from + 1)
    } else {
        false
    }
}

proof fn lemma_any_holds_hard_line(docs: Seq<DocView>, from: int)
    requires
        0 <= from,
    ensures
        any_holds_hard_line(docs, from) == (exists|i: int|
            from <= i < docs.len() && holds_hard_line(#[trigger] docs[i])),
    decreases docs.len() - from,
{
    if from < docs.len() {
        lemma_any_holds_hard_line(docs, from + 1);
        if exists|i: int| from <= i < docs.len() && holds_hard_line(#[trigger] docs[i]) {
            let i = choose|i: int| from <= i < docs.len() && holds_hard_line(#[trigger] docs[i]);
            if i != from {
                assert(from + 1 <= i < docs.len() && holds_hard_line(docs[i]));
            }
        }
        if any_holds_hard_line(docs, from + 1) {
            let i = choose|i: int|
                from + 1 <= i < docs.len() && holds_hard_line(#[trigger] docs[i]);
            assert(from <= i < docs.len() && holds_hard_line(docs[i]));
        }
        if holds_hard_line(docs[from]) {
            assert(from <= from < docs.len() && holds_hard_line(docs[from]));
        }
    }
}

/// Whether every group of `doc` that holds a hard line is forced to break.
pub open spec fn hard_lines_break_groups(doc: DocView) -> bool
    decreases doc, 0nat,
{
    match doc {
        DocView::Text(_) => true,
        DocView::Line(_) => true,
        DocView::Concat(docs) => hard_lines_break_groups_in_all(docs, 0),
        DocView::Array(docs) => hard_lines_break_groups_in_all(docs, 0),
        DocView::Indent(content) => hard_lines_break_groups(*content),
        DocView::Group { content, should_break, .. } => (holds_hard_line(*content) ==> should_break)
            && hard_lines_break_groups(*content),
        DocView::IfBreak { break_contents, flat_contents, .. } => hard_lines_break_groups(
            *break_contents,
        ) && hard_lines_break_groups(*flat_contents),
    }
}

/// Whether `hard_lines_break_groups` holds of each document of `docs` from
/// `from` on.
pub open spec fn hard_lines_break_groups_in_all(docs: Seq<DocView>, from: int) -> bool
    decreases docs, docs.len() - from,
{
    if 0 <= from < docs.len() {
        hard_lines_break_groups(docs[from]) && hard_lines_break_groups_in_all(docs, from + 1)
    } else {
        true
    }
}

proof fn lemma_hard_lines_break_groups_in_all(docs: Seq<DocView>, from: int)
    requires
        0 <= from,
    ensures
        hard_lines_break_groups_in_all(docs, from) == (forall|i: int|
            from <= i < docs.len() ==> hard_lines_break_groups(#[trigger] docs[i])),
    decreases docs.len() - from,
{
    if from < docs.len() {
        lemma_hard_lines_break_groups_in_all(docs, from + 1);
        if hard_lines_break_groups_in_all(docs, from) {
            assert forall|i: int| from <= i < docs.len() implies hard_lines_break_groups(
                #[trigger] docs[i],
            ) by {
                if i != from {
                    assert(from + 1 <= i < docs.len());
                }
            }
        }
    }
}

/// A concatenation holds a hard line exactly if one of its documents does.
pub proof fn lemma_holds_hard_line_children(docs: Seq<DocView>)
    ensures
        holds_hard_line(DocView::Concat(docs)) == (exists|i: int|
            0 <= i < docs.len() && holds_hard_line(#[trigger] docs[i])),
        holds_hard_line(DocView::Array(docs)) == (exists|i: int|
            0 <= i < docs.len() && holds_hard_line(#[trigger] docs[i])),
{
    lemma_any_holds_hard_line(docs, 0);
}

/// In a concatenation the groups above hard lines are forced exactly if
/// they are in each of its documents.
pub proof fn lemma_hard_lines_break_groups_children(docs: Seq<DocView>)
    ensures
        hard_lines_break_groups(DocView::Concat(docs)) == (forall|i: int|
            0 <= i < docs.len() ==> hard_lines_break_groups(#[trigger] docs[i])),
        hard_lines_break_groups(DocView::Array(docs)) == (forall|i: int|
            0 <= i < docs.len() ==> hard_lines_break_groups(#[trigger] docs[i])),
{
    lemma_hard_lines_break_groups_in_all(docs, 0);
}

/// A hard line that a document holds forces the group around it.
pub proof fn lemma_hard_line_forces(doc: DocView)
    requires
        holds_hard_line(doc),
    ensures
        forces_break(doc),
    decreases doc,
{
    match doc {
        DocView::Text(_) => {},
        DocView::Line(_) => {},
        DocView::Concat(docs) => {
            lemma_holds_hard_line_children(docs);
            lemma_forces_break_children(docs);
            let i = choose|i: int| 0 <= i < docs.len() && holds_hard_line(#[trigger] docs[i]);
            lemma_hard_line_forces(docs[i]);
        },
        DocView::Array(docs) => {
            lemma_holds_hard_line_children(docs);
            lemma_forces_break_children(docs);
            let i = choose|i: int| 0 <= i < docs.len() && holds_hard_line(#[trigger] docs[i]);
            lemma_hard_line_forces(docs[i]);
        },
        DocView::Indent(content) => {
            lemma_hard_line_forces(*content);
        },
        DocView::Group { content, .. } => {
            lemma_hard_line_forces(*content);
        },
        DocView::IfBreak { break_contents, .. } => {
            lemma_hard_line_forces(*break_contents);
        },
    }
}

/// The pass neither adds nor removes a hard line.
pub proof fn lemma_propagated_holds(doc: DocView)
    ensures
        holds_hard_line(propagated(doc)) == holds_hard_line(doc),
    decreases doc,
{
    match doc {
        DocView::Text(_) => {},
        DocView::Line(_) => {},
        DocView::Concat(docs) => {
            lemma_propagated_all_holds(docs);
        },
        DocView::Array(docs) => {
            lemma_propagated_all_holds(docs);
        },
        DocView::Indent(content) => {
            lemma_propagated_holds(*content);
        },
        DocView::Group { content, .. } => {
            lemma_propagated_holds(*content);
        },
        DocView::IfBreak { break_contents, .. } => {
            lemma_propagated_holds(*break_contents);
        },
    }
}

proof fn lemma_propagated_all_holds(docs: Seq<DocView>)
    ensures
        holds_hard_line(DocView::Concat(propagated_all(docs))) == holds_hard_line(
            DocView::Concat(docs),
        ),
        holds_hard_line(DocView::Array(propagated_all(docs))) == holds_hard_line(
            DocView::Array(docs),
        ),
    decreases docs,
{
    let after = propagated_all(docs);
    lemma_holds_hard_line_children(docs);
    lemma_holds_hard_line_children(after);
    assert forall|i: int| 0 <= i < docs.len() implies holds_hard_line(#[trigger] after[i])
        == holds_hard_line(docs[i]) by {
        lemma_propagated_holds(docs[i]);
    }
    if exists|i: int| 0 <= i < docs.len() && holds_hard_line(#[trigger] docs[i]) {
        let i = choose|i: int| 0 <= i < docs.len() && holds_hard_line(#[trigger] docs[i]);
        assert(holds_hard_line(after[i]));
    }
    if exists|i: int| 0 <= i < after.len() && holds_hard_line(#[trigger] after[i]) {
        let i = choose|i: int| 0 <= i < after.len() && holds_hard_line(#[trigger] after[i]);
        assert(holds_hard_line(docs[i]));
    }
}

/// After the pass every group that holds a hard line is forced to break,
/// however many groups lie between the two: a hard line beneath any number
/// of groups breaks them all.
pub proof fn lemma_hard_lines_break_all_groups(doc: DocView)
    ensures
        hard_lines_break_groups(propagated(doc)),
    decreases doc,
{
    match doc {
        DocView::Text(_) => {},
        DocView::Line(_) => {},
        DocView::Concat(docs) => {
            lemma_hard_lines_break_groups_children(propagated_all(docs));
            assert forall|i: int| 0 <= i < docs.len() implies hard_lines_break_groups(
                #[trigger] propagated_all(docs)[i],
            ) by {
                lemma_hard_lines_break_all_groups(docs[i]);
            }
        },
        DocView::Array(docs) => {
            lemma_hard_lines_break_groups_children(propagated_all(docs));
            assert forall|i: int| 0 <= i < docs.len() implies hard_lines_break_groups(
                #[trigger] propagated_all(docs)[i],
            ) by {
                lemma_hard_lines_break_all_groups(docs[i]);
            }
        },
        DocView::Indent(content) => {
            lemma_hard_lines_break_all_groups(*content);
        },
        DocView::Group { content, .. } => {
            lemma_hard_lines_break_all_groups(*content);
            lemma_propagated_holds(*content);
            if holds_hard_line(*content) {
                lemma_hard_line_forces(*content);
            }
        },
        DocView::IfBreak { break_contents, flat_contents, .. } => {
            lemma_hard_lines_break_all_groups(*break_contents);
            lemma_hard_lines_break_all_groups(*flat_contents);
        },
    }
}

/// Runs the pass over all of `docs` and says whether one of them forces the
/// group around them.
fn propagate_all(docs: &mut Vec<Doc>) -> (forced: bool)
    ensures
        models(final(docs)@) == propagated_all(models(old(docs)@)),
        forced == forces_break(DocView::Concat(models(old(docs)@))),
        forced == forces_break(DocView::Array(models(old(docs)@))),
    decreases *old(docs),
{
    let ghost orig = docs@;
    let mut forced = false;
    let mut i: usize = 0;
    while i < docs.len()
        invariant
            i <= docs.len(),
            docs@.len() == orig.len(),
            orig == old(docs)@,
            forall|j: int| i <= j < orig.len() ==> docs@[j] == orig[j],
            forall|j: int| 0 <= j < i ==> (#[trigger] docs@[j])@ == propagated(orig[j]@),
            forced == exists|j: int| 0 <= j < i && forces_break(#[trigger] models(orig)[j]),
        decreases docs.len() - i,
    {
        assert(docs@[i as int] == orig[i as int]);
        assert(decreases_to!(*old(docs) => orig[i as int])) by {
            assert(decreases_to!(*old(docs) => old(docs)@));
            assert(decreases_to!(old(docs)@ => old(docs)@[i as int]));
        }
        let ghost before = forced;
        let one = propagate_breaks(&mut docs[i]);
        forced = forced || one;
        proof {
            assert(models(orig)[i as int] == orig[i as int]@);
            if before {
                let j = choose|j: int| 0 <= j < i && forces_break(#[trigger] models(orig)[j]);
                assert(forces_break(models(orig)[j]));
            }
            if exists|j: int| 0 <= j < i + 1 && forces_break(#[trigger] models(orig)[j]) {
                let j = choose|j: int| 0 <= j < i + 1 && forces_break(#[trigger] models(orig)[j]);
                if j < i {
                    assert(forces_break(models(orig)[j]));
                }
            }
        }
        i += 1;
    }
    assert(models(docs@) =~= propagated_all(models(orig)));
    proof {
        lemma_forces_break_children(models(orig));
    }
    forced
}

/// The pass before printing: forces every group of `doc` to break that lies
/// above a hard line or above a group that is forced to break, and says
/// whether `doc` forces the group around it.
pub fn propagate_breaks(doc: &mut Doc) -> (forced: bool)
    ensures
        final(doc)@ == propagated(old(doc)@),
        forced == forces_break(old(doc)@),
    decreases *old(doc),
{
    match doc {
        Doc::Text(_) => false,
        Doc::Line(kind) => match kind {
            LineKind::Hard => true,
            _ => false,
        },
        Doc::Concat(docs) => propagate_all(docs),
        Doc::Array(docs) => propagate_all(docs),
        Doc::Indent(content) => propagate_breaks(content),
        Doc::Group { content, should_break, .. } => {
            let forced = propagate_breaks(content);
            if forced {
                *should_break = true;
            }
            *should_break
        },
        Doc::IfBreak { break_contents, flat_contents, .. } => {
            let forced = propagate_breaks(break_contents);
            let _ = propagate_breaks(flat_contents);
            forced
        },
    }
}

} // verus!
