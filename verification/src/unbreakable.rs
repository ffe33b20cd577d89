//! Documents that no width can break: what hugging gives.

use vstd::prelude::*;
use crate::context::FormatContext;
use crate::ast::FormalParameters;
use crate::doc::{DocView, Mode};
use crate::function_parameters::{
    documents_of, enclosing_this, hugs_only_parameter, modifier_parts, parameter_parts,
    parameters_doc, parameters_upto, printed_parameters, separator_after, this_parts,
    ParameterDocs,
};
use crate::layout::{following, layout, layout_seq, printed, start, CmdView, PrintState};
use crate::object::{
    braced_parts, indented_parts, member_parts, members_upto, object_doc, padding, stays_flat,
    ObjectLike,
};

verus! {

/// Whether `doc` holds nothing that depends on a width: no line, no group,
/// no choice between branches. It is texts, concatenated and indented.
pub open spec fn is_unbreakable(doc: DocView) -> bool
    decreases doc, 0nat,
{
    match doc {
        DocView::Text(_) => true,
        DocView::Line(_) => false,
        DocView::Concat(docs) => all_unbreakable(docs, 0),
        DocView::Array(docs) => all_unbreakable(docs, 0),
        DocView::Indent(content) => is_unbreakable(*content),
        DocView::Group { .. } => false,
        DocView::IfBreak { .. } => false,
    }
}

/// Whether each document of `docs` from `from` on is unbreakable.
pub open spec fn all_unbreakable(docs: Seq<DocView>, from: int) -> bool
    decreases docs, docs.len() - from,
{
    if 0 <= from < docs.len() {
        is_unbreakable(docs[from]) && all_unbreakable(docs, from + 1)
    } else {
        true
    }
}

/// A sequence is unbreakable from `from` on exactly if each of its
/// documents from there on is.
pub proof fn lemma_all_unbreakable(docs: Seq<DocView>, from: int)
    requires
        0 <= from,
    ensures
        all_unbreakable(docs, from) == (forall|i: int|
            from <= i < docs.len() ==> is_unbreakable(#[trigger] docs[i])),
    decreases docs.len() - from,
{
    if from < docs.len() {
        lemma_all_unbreakable(docs, from + 1);
        if all_unbreakable(docs, from) {
            assert forall|i: int| from <= i < docs.len() implies is_unbreakable(
                #[trigger] docs[i],
            ) by {
                if i != from {
                    assert(from + 1 <= i < docs.len());
                }
            }
        }
    }
}

/// An unbreakable document is printed the same in either mode, within any
/// width, whatever waits behind it.
pub proof fn lemma_unbreakable_layout(
    doc: DocView,
    indent: nat,
    st: PrintState,
    mode1: Mode,
    rest1: Seq<CmdView>,
    width1: nat,
    mode2: Mode,
    rest2: Seq<CmdView>,
    width2: nat,
)
    requires
        is_unbreakable(doc),
    ensures
        layout(doc, indent, mode1, st, rest1, width1) == layout(
            doc,
            indent,
            mode2,
            st,
            rest2,
            width2,
        ),
    decreases doc, 0nat,
{
    match doc {
        DocView::Concat(docs) => {
            lemma_unbreakable_layout_seq(
                docs,
                0,
                indent,
                st,
                mode1,
                rest1,
                width1,
                mode2,
                rest2,
                width2,
            );
        },
        DocView::Array(docs) => {
            lemma_unbreakable_layout_seq(
                docs,
                0,
                indent,
                st,
                mode1,
                rest1,
                width1,
                mode2,
                rest2,
                width2,
            );
        },
        DocView::Indent(content) => {
            lemma_unbreakable_layout(
                *content,
                indent + 1,
                st,
                mode1,
                rest1,
                width1,
                mode2,
                rest2,
                width2,
            );
        },
        _ => {},
    }
}

/// A sequence of unbreakable documents is printed the same in either mode,
/// within any width, whatever waits behind it.
pub proof fn lemma_unbreakable_layout_seq(
    docs: Seq<DocView>,
    from: int,
    indent: nat,
    st: PrintState,
    mode1: Mode,
    rest1: Seq<CmdView>,
    width1: nat,
    mode2: Mode,
    rest2: Seq<CmdView>,
    width2: nat,
)
    requires
        all_unbreakable(docs, from),
    ensures
        layout_seq(docs, from, indent, mode1, st, rest1, width1) == layout_seq(
            docs,
            from,
            indent,
            mode2,
            st,
            rest2,
            width2,
        ),
    decreases docs, docs.len() - from,
{
    if 0 <= from < docs.len() {
        lemma_unbreakable_layout(
            docs[from],
            indent,
            st,
            mode1,
            rest1 + following(docs, from + 1, indent, mode1),
            width1,
            mode2,
            rest2 + following(docs, from + 1, indent, mode2),
            width2,
        );
        let next = layout(
            docs[from],
            indent,
            mode1,
            st,
            rest1 + following(docs, from + 1, indent, mode1),
            width1,
        );
        lemma_unbreakable_layout_seq(
            docs,
            from + 1,
            indent,
            next,
            mode1,
            rest1,
            width1,
            mode2,
            rest2,
            width2,
        );
    }
}

/// The text of an unbreakable document does not depend on the width.
pub proof fn lemma_unbreakable_any_width(doc: DocView, width1: nat, width2: nat)
    requires
        is_unbreakable(doc),
    ensures
        printed(doc, width1) == printed(doc, width2),
{
    lemma_unbreakable_layout(
        doc,
        0,
        start(),
        Mode::Break,
        Seq::empty(),
        width1,
        Mode::Break,
        Seq::empty(),
        width2,
    );
}

/// Whether the document of each child of a parameter list is unbreakable.
pub open spec fn children_unbreakable(docs: ParameterDocs) -> bool {
    &&& docs.this_param matches Some(this_param) ==> is_unbreakable(this_param@)
    &&& forall|i: int| 0 <= i < docs.items@.len() ==> is_unbreakable(#[trigger] docs.items@[i]@)
    &&& docs.rest matches Some(rest) ==> is_unbreakable(rest@)
}

proof fn lemma_unbreakable_concat(a: Seq<DocView>, b: Seq<DocView>)
    requires
        all_unbreakable(a, 0),
        all_unbreakable(b, 0),
    ensures
        all_unbreakable(a + b, 0),
{
    lemma_all_unbreakable(a, 0);
    lemma_all_unbreakable(b, 0);
    lemma_all_unbreakable(a + b, 0);
    assert forall|i: int| 0 <= i < (a + b).len() implies is_unbreakable(#[trigger] (a + b)[i]) by {
        if i < a.len() {
            assert((a + b)[i] == a[i]);
        } else {
            assert((a + b)[i] == b[i - a.len()]);
        }
    }
}

proof fn lemma_unbreakable_each(docs: Seq<DocView>)
    requires
        forall|i: int| 0 <= i < docs.len() ==> is_unbreakable(#[trigger] docs[i]),
    ensures
        all_unbreakable(docs, 0),
{
    lemma_all_unbreakable(docs, 0);
}

proof fn lemma_hugged_parameters_upto(
    ctx: FormatContext,
    params: FormalParameters,
    docs: ParameterDocs,
    n: int,
)
    requires
        0 <= n <= params.items@.len(),
        docs.items@.len() == params.items@.len(),
        children_unbreakable(docs),
    ensures
        all_unbreakable(parameters_upto(ctx, params, docs, true, n), 0),
    decreases n,
{
    if n > 0 {
        lemma_hugged_parameters_upto(ctx, params, docs, n - 1);
        let param = params.items@[n - 1];
        lemma_unbreakable_each(modifier_parts(param));
        lemma_unbreakable_each(seq![docs.items@[n - 1]@]);
        lemma_unbreakable_each(separator_after(ctx, true, param.span));
        lemma_unbreakable_each(seq![DocView::Text(","@)] + separator_after(ctx, true, param.span));
        lemma_unbreakable_each(parameter_parts(ctx, params, docs, true, n - 1));
        lemma_unbreakable_concat(
            parameters_upto(ctx, params, docs, true, n - 1),
            parameter_parts(ctx, params, docs, true, n - 1),
        );
    } else {
        lemma_unbreakable_each(parameters_upto(ctx, params, docs, true, n));
    }
}

/// A hugged parameter list whose children cannot break cannot break: it is
/// written the same within any width.
pub proof fn lemma_hugged_parameters_never_break(
    ctx: FormatContext,
    params: FormalParameters,
    docs: ParameterDocs,
    width1: nat,
    width2: nat,
)
    requires
        documents_of(docs, ctx, params),
        hugs_only_parameter(ctx, params),
        children_unbreakable(docs),
    ensures
        is_unbreakable(parameters_doc(ctx, params, docs)),
        printed(parameters_doc(ctx, params, docs), width1) == printed(
            parameters_doc(ctx, params, docs),
            width2,
        ),
{
    let this_seq = this_parts(ctx, docs, true);
    match enclosing_this(ctx) {
        Some(this_param) => {
            lemma_unbreakable_each(seq![docs.this_param->0@, DocView::Text(","@)]);
            lemma_unbreakable_each(separator_after(ctx, true, this_param.span));
            lemma_unbreakable_concat(
                seq![docs.this_param->0@, DocView::Text(","@)],
                separator_after(ctx, true, this_param.span),
            );
        },
        None => {
            lemma_unbreakable_each(this_seq);
        },
    }
    lemma_hugged_parameters_upto(ctx, params, docs, params.items@.len() as int);
    let rest_seq: Seq<DocView> = match docs.rest {
        Some(rest) => seq![rest@],
        None => seq![],
    };
    lemma_unbreakable_each(rest_seq);
    let items = parameters_upto(ctx, params, docs, true, params.items@.len() as int);
    lemma_unbreakable_concat(this_seq, items);
    lemma_unbreakable_concat(this_seq + items, rest_seq);
    lemma_unbreakable_each(seq![DocView::Text("("@)]);
    lemma_unbreakable_each(seq![DocView::Text(")"@)]);
    lemma_unbreakable_concat(seq![DocView::Text("("@)], printed_parameters(ctx, params, docs, true));
    lemma_unbreakable_concat(
        seq![DocView::Text("("@)] + printed_parameters(ctx, params, docs, true),
        seq![DocView::Text(")"@)],
    );
    lemma_unbreakable_any_width(parameters_doc(ctx, params, docs), width1, width2);
}

/// Whether the document of each member of `object`, and that of its rest
/// element, is unbreakable.
pub open spec fn members_unbreakable(object: ObjectLike) -> bool {
    &&& forall|i: int|
        0 <= i < object.members().len() ==> is_unbreakable(#[trigger] object.members()[i]@)
    &&& object.rest() matches Some(rest) ==> is_unbreakable(rest@)
}

proof fn lemma_flat_members_upto(ctx: FormatContext, object: ObjectLike, n: int)
    requires
        0 <= n <= object.members().len(),
        members_unbreakable(object),
    ensures
        all_unbreakable(members_upto(ctx, object, true, n), 0),
    decreases n,
{
    if n > 0 {
        lemma_flat_members_upto(ctx, object, n - 1);
        lemma_unbreakable_each(member_parts(ctx, object, true, n - 1));
        lemma_unbreakable_concat(
            members_upto(ctx, object, true, n - 1),
            member_parts(ctx, object, true, n - 1),
        );
    } else {
        lemma_unbreakable_each(members_upto(ctx, object, true, n));
    }
}

/// A container that stays flat, and whose members cannot break, cannot
/// break: it is written the same within any width.
pub proof fn lemma_flat_object_never_breaks(
    ctx: FormatContext,
    object: ObjectLike,
    width1: nat,
    width2: nat,
)
    requires
        !(object.members().len() == 0 && object.rest() is None),
        stays_flat(ctx, object),
        members_unbreakable(object),
    ensures
        is_unbreakable(object_doc(ctx, object)),
        printed(object_doc(ctx, object), width1) == printed(object_doc(ctx, object), width2),
{
    lemma_flat_members_upto(ctx, object, object.members().len() as int);
    let rest_seq: Seq<DocView> = match object.rest() {
        Some(rest) => seq![rest@],
        None => seq![],
    };
    lemma_unbreakable_each(rest_seq);
    lemma_unbreakable_each(seq![padding(ctx, true)]);
    let members = members_upto(ctx, object, true, object.members().len() as int);
    lemma_unbreakable_concat(seq![padding(ctx, true)], members);
    lemma_unbreakable_concat(seq![padding(ctx, true)] + members, rest_seq);
    assert(indented_parts(ctx, object, true) == seq![padding(ctx, true)] + members + rest_seq);
    assert(is_unbreakable(DocView::Array(indented_parts(ctx, object, true))));
    assert(is_unbreakable(
        DocView::Indent(Box::new(DocView::Array(indented_parts(ctx, object, true)))),
    ));
    lemma_unbreakable_each(braced_parts(ctx, object, true));
    lemma_unbreakable_any_width(object_doc(ctx, object), width1, width2);
}

} // verus!
