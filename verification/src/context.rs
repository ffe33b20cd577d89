//! What a builder is handed besides its node: the settings, the source
//! text, and the path from the root down to the node.

use vstd::prelude::*;
use crate::ast::{AstKind, AttachedComments, CommentFlags, Span};
use crate::options::FormatOptions;
use crate::source::{has_blank_line, has_blank_line_in_range, is_next_line_empty, next_line_empty};

verus! {

/// The read-only surroundings of one builder call.
#[derive(Debug)]
pub struct FormatContext {
    pub options: FormatOptions,
    /// The bytes of the source text.
    pub source: Vec<u8>,
    /// The nodes that have comments attached, each with their markers.
    pub comments: Vec<AttachedComments>,
    /// The nodes from the root down to the one being built, which is last.
    pub ancestors: Vec<AstKind>,
}

impl FormatContext {
    /// A context at the root: no node has been entered.
    pub fn new(options: FormatOptions, source: Vec<u8>, comments: Vec<AttachedComments>) -> (ctx:
        FormatContext)
        ensures
            ctx.options == options,
            ctx.source@ == source@,
            ctx.comments@ == comments@,
            ctx.ancestors@.len() == 0,
    {
        FormatContext { options, source, comments, ancestors: Vec::new() }
    }

    /// Goes down into a node of kind `kind`.
    pub fn enter(&mut self, kind: AstKind)
        ensures
            final(self).options == old(self).options,
            final(self).source == old(self).source,
            final(self).comments == old(self).comments,
            final(self).ancestors@ == old(self).ancestors@.push(kind),
    {
        self.ancestors.push(kind);
    }

    /// Goes back up to the parent of the current node and hands the node
    /// out; at the root nothing changes.
    pub fn leave(&mut self) -> (left: Option<AstKind>)
        ensures
            final(self).options == old(self).options,
            final(self).source == old(self).source,
            final(self).comments == old(self).comments,
            old(self).ancestors@.len() == 0 ==> left is None && final(self).ancestors@
                == old(self).ancestors@,
            old(self).ancestors@.len() > 0 ==> left == Some(old(self).ancestors@.last())
                && final(self).ancestors@ == old(self).ancestors@.drop_last(),
    {
        self.ancestors.pop()
    }

    /// The kind of the node being built, if one was entered.
    pub open spec fn spec_current_kind(&self) -> Option<AstKind> {
        if self.ancestors@.len() >= 1 {
            Some(self.ancestors@[self.ancestors@.len() - 1])
        } else {
            None
        }
    }

    /// The kind of the parent of the node being built, if it has one.
    pub open spec fn spec_parent_kind(&self) -> Option<AstKind> {
        if self.ancestors@.len() >= 2 {
            Some(self.ancestors@[self.ancestors@.len() - 2])
        } else {
            None
        }
    }

    /// The kind of the node being built, if one was entered.
    pub fn current_kind(&self) -> (kind: Option<&AstKind>)
        ensures
            kind is Some == self.spec_current_kind() is Some,
            kind matches Some(k) ==> *k == self.spec_current_kind()->0,
    {
        let n = self.ancestors.len();
        if n >= 1 {
            Some(&self.ancestors[n - 1])
        } else {
            None
        }
    }

    /// The kind of the parent of the node being built, if it has one.
    pub fn parent_kind(&self) -> (kind: Option<&AstKind>)
        ensures
            kind is Some == self.spec_parent_kind() is Some,
            kind matches Some(k) ==> *k == self.spec_parent_kind()->0,
    {
        let n = self.ancestors.len();
        if n >= 2 {
            Some(&self.ancestors[n - 2])
        } else {
            None
        }
    }

    /// Some comment attached to the node at `span` carries a marker of
    /// `flags`.
    pub open spec fn spec_has_comment(&self, span: Span, flags: CommentFlags) -> bool {
        exists|i: int|
            0 <= i < self.comments@.len() && (#[trigger] self.comments@[i]).node == span
                && self.comments@[i].flags.intersects(flags)
    }

    /// Whether some comment attached to the node at `span` carries a marker
    /// of `flags`.
    pub fn has_comment(&self, span: Span, flags: CommentFlags) -> (found: bool)
        ensures
            found == self.spec_has_comment(span, flags),
    {
        let mut i: usize = 0;
        while i < self.comments.len()
            invariant
                i <= self.comments@.len(),
                forall|j: int|
                    0 <= j < i ==> !((#[trigger] self.comments@[j]).node == span
                        && self.comments@[j].flags.intersects(flags)),
            decreases self.comments@.len() - i,
        {
            let attached = self.comments[i];
            if attached.node == span && attached.flags.intersects(flags) {
                return true;
            }
            i += 1;
        }
        false
    }

    /// Whether the author left an empty line after the node at `span`.
    pub fn is_next_line_empty(&self, span: Span) -> (empty: bool)
        ensures
            empty == next_line_empty(self.source@, span.end as int),
    {
        is_next_line_empty(self.source.as_slice(), span.end)
    }

    /// Whether the author left an empty line within `span`.
    pub fn has_blank_line_in(&self, span: Span) -> (found: bool)
        ensures
            found == has_blank_line(self.source@, span.start as int, span.end as int),
    {
        has_blank_line_in_range(self.source.as_slice(), span.start, span.end)
    }

    /// Whether a separator is written behind the last item of a broken list.
    pub fn should_print_es5_comma(&self) -> (print: bool)
        ensures
            print == self.options.trailing_comma.should_print_es5(),
    {
        self.options.trailing_comma.should_print_es5()
    }
}

} // verus!
