//! From a document to its text.

use vstd::prelude::*;
use crate::breaks::{lemma_propagated_indent_depth, propagate_breaks, propagated};
use crate::doc::{models, Doc, DocView};
use crate::layout::{
    deepest_indent, indent_depth, indentation_fits, printed, RenderError, INDENT_WIDTH,
};
use crate::printer::print_doc;

verus! {

/// What rendering `doc` within the width `width` gives: the pass over the
/// breaks, then the printing.
pub open spec fn rendered(doc: DocView, width: nat) -> Result<Seq<char>, RenderError> {
    printed(propagated(doc), width)
}

/// `String::push` of the standard library: the string is afterwards what it
/// was, with `c` at its end.
#[verifier::external_body]
pub(crate) fn push_char(text: &mut String, c: char)
    ensures
        final(text)@ == old(text)@.push(c),
{
    text.push(c);
}

/// The string of the characters `chars`.
pub fn string_of(chars: &Vec<char>) -> (text: String)
    ensures
        text@ == chars@,
{
    let mut text = String::new();
    let mut i: usize = 0;
    while i < chars.len()
        invariant
            i <= chars@.len(),
            text@ == chars@.take(i as int),
        decreases chars@.len() - i,
    {
        push_char(&mut text, chars[i]);
        i += 1;
        assert(text@ =~= chars@.take(i as int));
    }
    assert(chars@.take(chars@.len() as int) =~= chars@);
    text
}

/// The depth of the indentation of `doc` if it is at most `limit`, and
/// nothing if it is greater.
fn depth_within(doc: &Doc, limit: usize) -> (depth: Option<usize>)
    ensures
        match depth {
            Some(depth) => depth == indent_depth(doc@) && depth <= limit,
            None => indent_depth(doc@) > limit,
        },
    decreases doc,
{
    match doc {
        Doc::Text(_) => Some(0),
        Doc::Line(_) => Some(0),
        Doc::Concat(docs) => deepest_within(docs, limit),
        Doc::Array(docs) => deepest_within(docs, limit),
        Doc::Indent(content) => match depth_within(content, limit) {
            Some(depth) => if depth < limit {
                Some(depth + 1)
            } else {
                None
            },
            None => None,
        },
        Doc::Group { content, .. } => depth_within(content, limit),
        Doc::IfBreak { break_contents, flat_contents, .. } => {
            match depth_within(break_contents, limit) {
                Some(broken) => match depth_within(flat_contents, limit) {
                    Some(flat) => if broken >= flat {
                        Some(broken)
                    } else {
                        Some(flat)
                    },
                    None => None,
                },
                None => None,
            }
        },
    }
}

/// The greatest depth of the indentation of the documents of `docs` if it
/// is at most `limit`, and nothing if it is greater.
fn deepest_within(docs: &Vec<Doc>, limit: usize) -> (depth: Option<usize>)
    ensures
        match depth {
            Some(depth) => depth == deepest_indent(models(docs@), 0) && depth <= limit,
            None => deepest_indent(models(docs@), 0) > limit,
        },
    decreases docs,
{
    let mut deepest: usize = 0;
    let mut i: usize = docs.len();
    while i > 0
        invariant
            i <= docs@.len(),
            deepest == deepest_indent(models(docs@), i as int),
            deepest <= limit,
        decreases i,
    {
        i -= 1;
        assert(models(docs@)[i as int] == docs@[i as int]@);
        match depth_within(&docs[i], limit) {
            Some(depth) => {
                if depth >= deepest {
                    deepest = depth;
                }
            },
            None => {
                proof {
                    crate::layout::lemma_deepest_indent(models(docs@), 0, i as int);
                }
                return None;
            },
        }
    }
    Some(deepest)
}

/// Whether the machine can count the columns of the deepest indentation of
/// `doc`: only then can `doc` be rendered.
pub fn can_indent(doc: &Doc) -> (fits: bool)
    ensures
        fits == indentation_fits(doc@),
{
    depth_within(doc, usize::MAX / INDENT_WIDTH).is_some()
}

/// Renders `doc` within `print_width` columns: first every group above a
/// hard line is forced to break, then the document is printed. `doc` itself
/// is left as it is. The columns of the deepest indentation have to fit the
/// machine's numbers.
pub fn render(doc: &Doc, print_width: usize) -> (result: Result<String, RenderError>)
    requires
        indentation_fits(doc@),
    ensures
        match result {
            Ok(text) => rendered(doc@, print_width as nat) == Ok::<Seq<char>, RenderError>(text@),
            Err(error) => rendered(doc@, print_width as nat) == Err::<Seq<char>, RenderError>(
                error,
            ),
        },
{
    let mut copy = doc.deep_clone();
    propagate_breaks(&mut copy);
    proof {
        lemma_propagated_indent_depth(doc@);
    }
    match print_doc(&copy, print_width) {
        Ok(chars) => Ok(string_of(&chars)),
        Err(error) => Err(error),
    }
}

/// Renders `doc` as `render` does if the machine can count the columns of
/// its deepest indentation, and gives nothing if it cannot.
pub fn try_render(doc: &Doc, print_width: usize) -> (result: Option<Result<String, RenderError>>)
    ensures
        result is Some == indentation_fits(doc@),
        match result {
            Some(Ok(text)) => rendered(doc@, print_width as nat) == Ok::<Seq<char>, RenderError>(
                text@,
            ),
            Some(Err(error)) => rendered(doc@, print_width as nat) == Err::<
                Seq<char>,
                RenderError,
            >(error),
            None => true,
        },
{
    if can_indent(doc) {
        Some(render(doc, print_width))
    } else {
        None
    }
}

} // verus!
